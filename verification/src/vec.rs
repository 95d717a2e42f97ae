//! The growable array under its short path.

pub use crate::collection::vec::{Vec, _Drain, _IntoIter};
