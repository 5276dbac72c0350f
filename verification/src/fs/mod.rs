//! File-system safety rules.
pub mod assets;
pub mod atomic;
pub mod path_guard;
