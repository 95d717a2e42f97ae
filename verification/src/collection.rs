//! The containers and the storage they allocate through.

pub mod raw;
pub mod deque;
pub mod hashmap;
pub mod heap;
pub mod vec;
