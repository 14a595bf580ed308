use vstd::prelude::*;

verus! {

/// `std::io::ErrorKind`: its variants carry no data, so contracts can name them.
#[verifier::external_type_specification]
pub struct ExIoErrorKind(std::io::ErrorKind);

/// Errors raised while reading CBOR input.
#[derive(Debug, PartialEq, Eq)]
pub enum SeaboredDeError {
    /// The input could not deliver what was asked, by the `std::io` kind of
    /// the failure; input that ends too early is `UnexpectedEof`.
    IoKind(std::io::ErrorKind),
    /// Entering one more nesting level would exceed the configured limit.
    AllowedDepthOverflow { depth: usize, limit: usize },
}

/// The error for input that ends before the requested bytes:
/// `IoKind(UnexpectedEof)`.
pub(crate) fn unexpected_eof() -> (e: SeaboredDeError)
    ensures
        e == SeaboredDeError::IoKind(std::io::ErrorKind::UnexpectedEof),
{
    SeaboredDeError::IoKind(std::io::ErrorKind::UnexpectedEof)
}

} // verus!
