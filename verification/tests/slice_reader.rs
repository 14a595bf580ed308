use std::borrow::Cow;

use seabored::error::SeaboredDeError;
use seabored::io::read::Read;

#[test]
fn peek_byte_does_not_advance() {
    let data = [0x83u8, 0x01, 0x02];
    let mut rdr: &[u8] = &data[..];
    assert_eq!(rdr.peek_byte(), Ok(0x83));
    assert_eq!(rdr.peek_byte(), Ok(0x83));
    assert_eq!(rdr.len(), 3);
    assert_eq!(rdr.read_byte(), Ok(0x83));
    assert_eq!(rdr, &[0x01u8, 0x02][..]);
}

#[test]
fn peek_byte_on_empty_input_is_eof() {
    let mut rdr: &[u8] = &[];
    assert_eq!(rdr.peek_byte(), Err(SeaboredDeError::IoKind(std::io::ErrorKind::UnexpectedEof)));
}

#[test]
fn read_byte_consumes_one_byte() {
    let data = [7u8, 8];
    let mut rdr: &[u8] = &data[..];
    assert_eq!(rdr.read_byte(), Ok(7));
    assert_eq!(rdr.read_byte(), Ok(8));
    assert_eq!(rdr.read_byte(), Err(SeaboredDeError::IoKind(std::io::ErrorKind::UnexpectedEof)));
    assert!(rdr.is_empty());
}

#[test]
fn advance_skips_bytes() {
    let data = [1u8, 2, 3, 4];
    let mut rdr: &[u8] = &data[..];
    assert_eq!(rdr.advance(3), Ok(()));
    assert_eq!(rdr, &[4u8][..]);
    assert_eq!(rdr.advance(0), Ok(()));
    assert_eq!(rdr, &[4u8][..]);
}

#[test]
fn advance_past_the_end_fails_and_keeps_input() {
    let data = [1u8, 2];
    let mut rdr: &[u8] = &data[..];
    assert_eq!(rdr.advance(3), Err(SeaboredDeError::IoKind(std::io::ErrorKind::UnexpectedEof)));
    assert_eq!(rdr, &[1u8, 2][..]);
}

#[test]
fn read_slice_borrows_from_input() {
    let data = [0x61u8, 0x62, 0x63, 0x64];
    let mut rdr: &[u8] = &data[..];
    let got = rdr.read_slice(3).unwrap();
    assert!(matches!(got, Cow::Borrowed(_)));
    assert_eq!(&*got, &[0x61u8, 0x62, 0x63][..]);
    assert_eq!(rdr, &[0x64u8][..]);
}

#[test]
fn read_slice_too_long_fails_and_keeps_input() {
    let data = [1u8, 2, 3];
    let mut rdr: &[u8] = &data[..];
    assert_eq!(rdr.read_slice(4), Err(SeaboredDeError::IoKind(std::io::ErrorKind::UnexpectedEof)));
    assert_eq!(rdr, &[1u8, 2, 3][..]);
    assert_eq!(&*rdr.read_slice(0).unwrap(), &[] as &[u8]);
    assert_eq!(rdr.len(), 3);
}

#[test]
fn consecutive_slices_equal_one_long_slice() {
    let data = [9u8, 8, 7, 6, 5];
    let mut a: &[u8] = &data[..];
    let first = a.read_slice(2).unwrap().into_owned();
    let second = a.read_slice(2).unwrap().into_owned();
    let mut b: &[u8] = &data[..];
    let both = b.read_slice(4).unwrap().into_owned();
    let mut joined = first.clone();
    joined.extend_from_slice(&second);
    assert_eq!(joined, both);
    assert_eq!(a, b);
}

#[test]
fn read_array_reads_fixed_size() {
    let data = [1u8, 2, 3, 4, 5];
    let mut rdr: &[u8] = &data[..];
    let arr = rdr.read_array::<4>().unwrap();
    assert!(matches!(arr, Cow::Borrowed(_)));
    assert_eq!(*arr, [1u8, 2, 3, 4]);
    assert_eq!(rdr, &[5u8][..]);
    assert_eq!(rdr.read_array::<2>(), Err(SeaboredDeError::IoKind(std::io::ErrorKind::UnexpectedEof)));
    assert_eq!(rdr, &[5u8][..]);
}

#[test]
fn read_be_integers() {
    let data = [0x03u8, 0xe8, 0x00, 0x0f, 0x42, 0x40, 0x00, 0x00, 0x00, 0xe8, 0xd4, 0xa5, 0x10, 0x00];
    let mut rdr: &[u8] = &data[..];
    assert_eq!(rdr.read_be_u16(), Ok(1000));
    assert_eq!(rdr.read_be_u32(), Ok(1_000_000));
    assert_eq!(rdr.read_be_u64(), Ok(1_000_000_000_000));
    assert!(rdr.is_empty());
}

#[test]
fn read_be_u64_max() {
    let data = [0xffu8; 8];
    let mut rdr: &[u8] = &data[..];
    assert_eq!(rdr.read_be_u64(), Ok(u64::MAX));
}

#[test]
fn read_be_integer_short_input_fails() {
    let data = [0x01u8, 0x02, 0x03];
    let mut rdr: &[u8] = &data[..];
    assert_eq!(rdr.read_be_u32(), Err(SeaboredDeError::IoKind(std::io::ErrorKind::UnexpectedEof)));
    assert_eq!(rdr.read_be_u16(), Ok(0x0102));
    assert_eq!(rdr.read_be_u16(), Err(SeaboredDeError::IoKind(std::io::ErrorKind::UnexpectedEof)));
    assert_eq!(rdr.read_byte(), Ok(0x03));
}

#[test]
fn two_u16_reads_compose_into_u32() {
    let data = [0xdeu8, 0xad, 0xbe, 0xef];
    let mut a: &[u8] = &data[..];
    let hi = a.read_be_u16().unwrap() as u32;
    let lo = a.read_be_u16().unwrap() as u32;
    let mut b: &[u8] = &data[..];
    assert_eq!(b.read_be_u32().unwrap(), hi * 65536 + lo);
    assert_eq!(hi, 0xdead);
    assert_eq!(lo, 0xbeef);
}

#[test]
fn mut_ref_reader_delegates() {
    let data = [1u8, 2, 3];
    let mut rdr: &[u8] = &data[..];
    {
        let mut by_ref = &mut rdr;
        assert_eq!(by_ref.peek_byte(), Ok(1));
        assert_eq!(by_ref.read_byte(), Ok(1));
        assert_eq!(by_ref.read_be_u16(), Ok(0x0203));
        assert_eq!(by_ref.read_byte(), Err(SeaboredDeError::IoKind(std::io::ErrorKind::UnexpectedEof)));
    }
    assert!(rdr.is_empty());
}

#[test]
fn boxed_reader_delegates() {
    let data = [4u8, 5, 6, 7];
    let mut boxed: Box<&[u8]> = Box::new(&data[..]);
    assert_eq!(boxed.advance(1), Ok(()));
    assert_eq!(&*boxed.read_slice(2).unwrap(), &[5u8, 6][..]);
    assert_eq!(*boxed.read_array::<1>().unwrap(), [7u8]);
    assert_eq!(boxed.peek_byte(), Err(SeaboredDeError::IoKind(std::io::ErrorKind::UnexpectedEof)));
}
