use vstd::prelude::*;

use crate::ib::InitialByte;

verus! {

/// CBOR Major Type
#[derive(Debug, Clone, Copy, PartialEq, Eq, Structural, PartialOrd, Ord)]
pub enum MajorType {
    Uint,
    NegativeUint,
    Bytes,
    String,
    Array,
    MapOfPairs,
    Tagged,
    SimpleValueOrFloat,
}

impl MajorType {
    /// The three-bit number that encodes this major type in an initial byte.
    pub open spec fn code(self) -> u8 {
        match self {
            MajorType::Uint => 0,
            MajorType::NegativeUint => 1,
            MajorType::Bytes => 2,
            MajorType::String => 3,
            MajorType::Array => 4,
            MajorType::MapOfPairs => 5,
            MajorType::Tagged => 6,
            MajorType::SimpleValueOrFloat => 7,
        }
    }

    /// The major type whose code is `c`; codes run from 0 to 7.
    pub open spec fn from_code(c: u8) -> MajorType
        recommends
            c < 8,
    {
        if c == 0 {
            MajorType::Uint
        } else if c == 1 {
            MajorType::NegativeUint
        } else if c == 2 {
            MajorType::Bytes
        } else if c == 3 {
            MajorType::String
        } else if c == 4 {
            MajorType::Array
        } else if c == 5 {
            MajorType::MapOfPairs
        } else if c == 6 {
            MajorType::Tagged
        } else {
            MajorType::SimpleValueOrFloat
        }
    }

    /// The major type that an initial byte announces: its three high bits.
    pub open spec fn of_initial_byte(ib: InitialByte) -> MajorType {
        MajorType::from_code(ib.0 >> 5u8)
    }

    /// The text by which a major type is displayed.
    pub open spec fn display_text(self) -> Seq<char> {
        match self {
            MajorType::Uint => "MajorType::Uint"@,
            MajorType::NegativeUint => "MajorType::NegativeUint"@,
            MajorType::Bytes => "MajorType::Bytes"@,
            MajorType::String => "MajorType::String"@,
            MajorType::Array => "MajorType::Array"@,
            MajorType::MapOfPairs => "MajorType::Map"@,
            MajorType::Tagged => "MajorType::Tagged"@,
            MajorType::SimpleValueOrFloat => "MajorType::SimpleValueOrFloat"@,
        }
    }

    /// The text by which this major type is displayed, such as `MajorType::Tagged`.
    pub fn name(&self) -> (s: &'static str)
        ensures
            s@ == self.display_text(),
    {
        match self {
            MajorType::Uint => "MajorType::Uint",
            MajorType::NegativeUint => "MajorType::NegativeUint",
            MajorType::Bytes => "MajorType::Bytes",
            MajorType::String => "MajorType::String",
            MajorType::Array => "MajorType::Array",
            MajorType::MapOfPairs => "MajorType::Map",
            MajorType::Tagged => "MajorType::Tagged",
            MajorType::SimpleValueOrFloat => "MajorType::SimpleValueOrFloat",
        }
    }
}

impl From<InitialByte> for MajorType {
    fn from(ib: InitialByte) -> (mt: Self) {
        let b: u8 = ib.0;
        let code: u8 = b >> 5u8;
        assert(b >> 5u8 < 8u8) by (bit_vector);
        match code {
            0 => MajorType::Uint,
            1 => MajorType::NegativeUint,
            2 => MajorType::Bytes,
            3 => MajorType::String,
            4 => MajorType::Array,
            5 => MajorType::MapOfPairs,
            6 => MajorType::Tagged,
            _ => MajorType::SimpleValueOrFloat,
        }
    }
}

impl vstd::std_specs::convert::FromSpecImpl<InitialByte> for MajorType {
    open spec fn obeys_from_spec() -> bool {
        true
    }

    open spec fn from_spec(ib: InitialByte) -> Self {
        MajorType::of_initial_byte(ib)
    }
}

/// Every initial byte announces one of the eight major types, and the code
/// of that major type is exactly the byte's three high bits.
pub proof fn lemma_initial_byte_code(ib: InitialByte)
    ensures
        MajorType::of_initial_byte(ib).code() == ib.0 >> 5u8,
        MajorType::of_initial_byte(ib).code() < 8,
{
    let b = ib.0;
    assert(b >> 5u8 < 8u8) by (bit_vector);
}

/// An initial byte built from a major type's code and any five bits of
/// additional information announces that same major type again.
pub proof fn lemma_initial_byte_round_trip(mt: MajorType, info: u8)
    requires
        info < 32,
    ensures
        MajorType::of_initial_byte(InitialByte(((mt.code() << 5u8) | info) as u8)) == mt,
{
    let c = mt.code();
    assert(c < 8);
    assert(c < 8u8 && info < 32u8 ==> ((c << 5u8) | info) >> 5u8 == c) by (bit_vector);
}

/// Two major types with the same code are the same major type.
pub proof fn lemma_code_injective(a: MajorType, b: MajorType)
    ensures
        a.code() == b.code() ==> a == b,
{
}

} // verus!
