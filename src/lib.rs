//! A min-max heap: a double-ended priority queue stored as an implicit
//! complete binary tree, giving access to both the least and the greatest
//! element.
pub mod key;
pub mod laws;
pub mod navigation;
pub mod operation;
pub mod heap;
pub mod order;
pub mod sift;

pub use heap::MinMaxHeap;
pub use key::Key;
pub use operation::Operation;
pub use laws::{drain_max, drain_min};
pub use navigation::{is_on_max_level, is_on_min_level, left_child, log2, parent, right_child};
