//! A small serialization library for two self-describing formats: CBOR, a
//! compact binary format, and JSON, a text format.
//!
//! Encoding walks a value with an explicit stack, so deeply nested values never
//! exhaust the call stack; decoding is recursive but bounded by a fixed depth
//! ceiling.
use vstd::prelude::*;

pub mod error;
mod strings;
pub mod aliased_box;
pub mod cbor;
pub mod json;

pub use error::{Error, ErrorKind};

verus! {

} // verus!
