use cqdb::format::{pack_u32, push_u32, read_u32, unpack_u32};
use cqdb::{Error, Flag, Stream};

#[test]
fn pack_is_little_endian() {
    assert_eq!(pack_u32(0x62445371), [0x71, 0x53, 0x44, 0x62]);
    assert_eq!(pack_u32(0), [0, 0, 0, 0]);
    assert_eq!(pack_u32(u32::MAX), [0xff; 4]);
    assert_eq!(pack_u32(0x4244_5143), *b"CQDB");
}

#[test]
fn unpack_reads_four_bytes() {
    assert_eq!(unpack_u32(&[0x71, 0x53, 0x44, 0x62]), Ok(0x62445371));
    assert_eq!(unpack_u32(&[1, 0, 0, 0, 9, 9]), Ok(1));
    assert_eq!(unpack_u32(&[1, 2, 3]), Err(Error::UnexpectedEof));
    assert_eq!(unpack_u32(&[]), Err(Error::UnexpectedEof));
}

#[test]
fn pack_then_unpack() {
    for value in [0u32, 1, 255, 256, 0x1234_5678, 0x8000_0000, u32::MAX] {
        assert_eq!(unpack_u32(&pack_u32(value)), Ok(value));
    }
}

#[test]
fn read_at_an_offset() {
    let buf = [9u8, 9, 0x78, 0x56, 0x34, 0x12, 9];
    assert_eq!(read_u32(&buf, 2), Ok(0x1234_5678));
    assert_eq!(read_u32(&buf, 3), Ok(0x0912_3456));
    assert_eq!(read_u32(&buf, 4), Err(Error::UnexpectedEof));
    assert_eq!(read_u32(&buf, 100), Err(Error::UnexpectedEof));
}

#[test]
fn push_appends() {
    let mut out = vec![7u8];
    push_u32(&mut out, 0x0102_0304);
    assert_eq!(out, vec![7, 4, 3, 2, 1]);
}

#[test]
fn flags() {
    assert_eq!(Flag::NONE.bits(), 0);
    assert_eq!(Flag::ONEWAY.bits(), 1);
    assert_eq!(Flag::from_bits(0), Some(Flag::NONE));
    assert_eq!(Flag::from_bits(1), Some(Flag::ONEWAY));
    assert_eq!(Flag::from_bits(2), None);
    assert!(Flag::ONEWAY.contains(Flag::ONEWAY));
    assert!(Flag::ONEWAY.contains(Flag::NONE));
    assert!(Flag::NONE.contains(Flag::NONE));
    assert!(!Flag::NONE.contains(Flag::ONEWAY));
}

#[test]
fn error_messages() {
    assert_eq!(Error::MagicMismatch.message(), "invalid file format, magic mismatch");
    assert_eq!(Error::InvalidId.message(), "invalid identifier");
}

#[test]
fn stream_writes() {
    let mut s = Stream::new();
    assert_eq!(s.position(), 0);
    s.write_all(b"hello").unwrap();
    assert_eq!(s.position(), 5);
    assert_eq!(s.as_slice(), b"hello");
    // overwrite in the middle and past the end
    s.seek(3);
    s.write_all(b"p me").unwrap();
    assert_eq!(s.as_slice(), b"help me");
    assert_eq!(s.position(), 7);
    // a gap reads as zeros
    s.seek(9);
    s.write_all(b"!").unwrap();
    assert_eq!(s.as_slice(), b"help me\0\0!");
    // skipping moves the cursor only
    s.seek(0);
    s.skip(4).unwrap();
    assert_eq!(s.position(), 4);
    s.write_all(b"-").unwrap();
    assert_eq!(s.into_inner(), b"help-me\0\0!".to_vec());
}

#[test]
fn stream_limits() {
    let mut s = Stream::from_vec(vec![1, 2, 3]);
    s.seek(usize::MAX);
    assert_eq!(s.skip(1), Err(Error::Seek));
    assert_eq!(s.position(), usize::MAX);
    assert_eq!(s.write_all(b"x"), Err(Error::Write));
    assert_eq!(s.as_slice(), &[1, 2, 3]);
    assert_eq!(s.skip(0), Ok(()));
}
