//! Stable diagnostic codes, grouped by area.
pub mod label;
pub mod block;
pub mod bibliography;
pub mod config;
pub mod io;
