//! Alternative solver implementations.

pub mod dumb;
