use seabored::ib::InitialByte;
use seabored::mt::MajorType;

#[test]
fn major_type_from_initial_byte() {
    assert_eq!(MajorType::from(InitialByte(0x00)), MajorType::Uint);
    assert_eq!(MajorType::from(InitialByte(0x17)), MajorType::Uint);
    assert_eq!(MajorType::from(InitialByte(0x20)), MajorType::NegativeUint);
    assert_eq!(MajorType::from(InitialByte(0x5f)), MajorType::Bytes);
    assert_eq!(MajorType::from(InitialByte(0x64)), MajorType::String);
    assert_eq!(MajorType::from(InitialByte(0x83)), MajorType::Array);
    assert_eq!(MajorType::from(InitialByte(0xa1)), MajorType::MapOfPairs);
    assert_eq!(MajorType::from(InitialByte(0xc2)), MajorType::Tagged);
    assert_eq!(MajorType::from(InitialByte(0xf9)), MajorType::SimpleValueOrFloat);
    assert_eq!(MajorType::from(InitialByte(0xff)), MajorType::SimpleValueOrFloat);
}

#[test]
fn major_type_round_trips_through_every_initial_byte() {
    let all = [
        MajorType::Uint,
        MajorType::NegativeUint,
        MajorType::Bytes,
        MajorType::String,
        MajorType::Array,
        MajorType::MapOfPairs,
        MajorType::Tagged,
        MajorType::SimpleValueOrFloat,
    ];
    for (code, mt) in all.iter().enumerate() {
        for info in 0u8..32 {
            let ib = InitialByte(((code as u8) << 5) | info);
            assert_eq!(MajorType::from(ib), *mt);
        }
    }
}

#[test]
fn major_type_names() {
    assert_eq!(MajorType::Uint.name(), "MajorType::Uint");
    assert_eq!(MajorType::NegativeUint.name(), "MajorType::NegativeUint");
    assert_eq!(MajorType::Bytes.name(), "MajorType::Bytes");
    assert_eq!(MajorType::String.name(), "MajorType::String");
    assert_eq!(MajorType::Array.name(), "MajorType::Array");
    assert_eq!(MajorType::MapOfPairs.name(), "MajorType::Map");
    assert_eq!(MajorType::Tagged.name(), "MajorType::Tagged");
    assert_eq!(MajorType::SimpleValueOrFloat.name(), "MajorType::SimpleValueOrFloat");
}

#[test]
fn major_types_are_ordered_by_code() {
    assert!(MajorType::Uint < MajorType::NegativeUint);
    assert!(MajorType::Tagged < MajorType::SimpleValueOrFloat);
}
