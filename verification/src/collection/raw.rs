//! Storage primitives below the containers.

pub mod raw_vec;
