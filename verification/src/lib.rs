//! Ancestor listing for filesystem paths, and a sequential reader that
//! concatenates a queue of byte sources.
//!
//! The crate has two independent parts. [`ancestors`] decomposes a path
//! string into its components and lists every ancestor prefix past a
//! configurable depth. [`reader`] drains an ordered queue of byte sources
//! front to back, propagating read errors without skipping the failing
//! source, and selects between named sources and the standard input.

pub mod ancestors;
pub mod reader;
