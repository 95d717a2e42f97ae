//! Hand-built containers over one shared storage model: a growable array, a
//! ring-buffer deque and a binary max-heap, each with a proved contract.

pub mod arc;
pub mod collection;
pub mod iter;
pub mod vec;
