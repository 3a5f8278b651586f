//! A double-ended queue of fixed capacity over a circular buffer of `N` slots.
//!
//! One slot always stays free, so that a full queue and an empty one differ:
//! the capacity is `N - 1`.
use vstd::prelude::*;

pub mod error;
pub mod model;
pub mod deque;
pub mod laws;

verus! {

pub use crate::error::CapacityError;
pub use crate::deque::{ArrayDeque, Iter};

} // verus!
