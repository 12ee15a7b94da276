use vstd::prelude::*;

pub mod digits;
pub mod laws;
pub mod ops;
pub mod quantity;
pub mod text;

pub use quantity::{Quantity, QuantityError};

verus! {

} // verus!
