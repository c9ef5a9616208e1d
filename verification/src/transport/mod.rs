//! How the other side of a transfer is reached.

pub mod daemon;
pub mod ssh;
