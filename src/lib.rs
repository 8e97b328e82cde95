//! Matchers for test assertions: approximate equality of floating-point
//! values, and identity of runtime types.
use vstd::prelude::*;

pub mod bignat;
pub mod close_to;
pub mod ieee;
pub mod round;
pub mod type_of;

pub use crate::close_to::{close_to, CloseTo};
pub use crate::ieee::{Binary32, Binary64, FloatClass, FloatMinPositive, IeeeFloat, Precision};
pub use crate::type_of::{type_of, TypeOf};

verus! {

} // verus!
