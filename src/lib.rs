//! Selecting a contiguous range of lines from text files.
//!
//! An argument of the form `file[:start[:end]]` is decoded into a
//! [`slice::SliceSpec`]; [`render`] turns such a spec into a line range and
//! decides, line by line, what is printed.

pub mod bound;
pub mod slice;
pub mod render;
