//! The Recycle Bin of Windows.
//!
//! Paths are sequences of UTF-16 code units, which need not encode a text.

pub mod path;
pub mod shell;
