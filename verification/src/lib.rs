//! Verified core of a small markdown note-keeping backend.
//!
//! The library models five filesystem-facing operations — directory listing
//! and whole-file create / read / update / delete — as verified logic over
//! plain values. The surrounding application performs the actual operating
//! system calls and hands their outcomes to this crate as plain strings and
//! flags; everything that decides, accumulates or classifies is proved here.

pub mod errors;
pub mod greeting;
pub mod listing;
pub mod paths;
pub mod store;
