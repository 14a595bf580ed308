use vstd::prelude::*;

verus! {

/// The initial byte of a CBOR data item: the major type in its three high
/// bits, the additional information in its five low bits.
#[derive(Debug, Clone, Copy, PartialEq, Eq, Structural)]
pub struct InitialByte(pub u8);

} // verus!
