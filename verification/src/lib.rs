//! A hash map for keys whose hashing and comparison may fail.
//!
//! `TryHashMap` is the map. `TryPartialEq`, `TryEq` and `TryHash` are what it
//! asks of its keys. The modules `laws` and `runs` hold what is proved of the
//! map across calls.

pub mod index;
pub mod laws;
pub mod map;
pub mod runs;
pub mod try_traits;
pub mod walk;

pub use crate::map::{DefaultHashBuilder, TryHashMap};
pub use crate::try_traits::{TryEq, TryHash, TryPartialEq};
