//! Quicksort over slices of totally ordered elements, with a partitioning
//! step that keeps the two sides close to the same size.

pub mod order;
pub mod partition;
pub mod slices;
pub mod sort;

pub use partition::partition;
pub use sort::quicksort;
