//! Input sources for decoding.

pub mod read;
