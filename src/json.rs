//! The JSON text format.
use vstd::prelude::*;

pub mod value;
pub mod text;
pub mod ser;
pub mod object;
pub mod de;
pub mod drop;
pub mod laws;

pub use de::from_str;
pub use ser::to_string;
pub use value::{Array, Number, Object, Value};

verus! {

} // verus!
