//! The CBOR binary format: a canonical encoder and a depth-bounded decoder.
use vstd::prelude::*;

pub mod number;
pub mod model;
pub mod value;
pub mod float;
pub mod ser;
pub mod order;
pub mod object;
pub mod de;
pub mod drop;
pub mod laws;

pub use de::from_slice;
pub use ser::to_vec;
pub use value::{Array, Object, Value};

verus! {

} // verus!
