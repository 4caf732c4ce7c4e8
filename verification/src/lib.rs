//! Classical comparison sorts over sequences of 32-bit signed integers,
//! each proved to return the ascending arrangement of its input.
//!
//! The five sorts stand in modules of their own and behind one entry point in
//! [`strategy`]. What they promise is stated over the predicates of [`order`]
//! and [`stability`]; [`laws`] holds what follows for every sort. [`text`]
//! reads and writes the numbers, one on a line.

pub mod bubble;
pub mod insertion;
pub mod laws;
pub mod merge;
pub mod order;
pub mod quick;
pub mod selection;
pub mod slices;
pub mod stability;
pub mod strategy;
pub mod text;

pub use crate::bubble::bubble_sort;
pub use crate::insertion::insertion_sort;
pub use crate::merge::merge_sort;
pub use crate::quick::quick_sort;
pub use crate::selection::selection_sort;
pub use crate::strategy::{sort, Algorithm};
