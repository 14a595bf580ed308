//! A CBOR decoding toolkit: the byte readers that a decoder pulls its input
//! from, a depth-aware wrapper that bounds how deeply nested items may go,
//! and the CBOR major types.

pub mod error;
pub mod ib;
pub mod io;
pub mod mt;
