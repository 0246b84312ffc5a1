//! What each platform does to discard an item.

pub mod linux;
pub mod macos;
pub mod windows;
