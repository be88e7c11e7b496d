use runevm::{read_field_u16, read_field_u32, read_field_u8, ParsingError, Stream};

#[test]
fn reads_big_endian_integers() {
    let data = [0x01u8, 0x02, 0x03, 0x04, 0x05, 0x06, 0x07];
    let mut stream = Stream::new(&data);
    assert_eq!(stream.read::<u8>(), Some(0x01));
    assert_eq!(stream.read::<u16>(), Some(0x0203));
    assert_eq!(stream.read::<u32>(), Some(0x0405_0607));
    assert_eq!(stream.position(), 7);
    assert_eq!(stream.read::<u8>(), None);
}

#[test]
fn short_read_leaves_position() {
    let data = [0xAAu8, 0xBB, 0xCC];
    let mut stream = Stream::new(&data);
    stream.skip::<u16>();
    assert_eq!(stream.position(), 2);
    assert_eq!(stream.read::<u16>(), None);
    assert_eq!(stream.position(), 2);
    assert_eq!(stream.read::<u8>(), Some(0xCC));
}

#[test]
fn read_bytes_borrows_exact_slice() {
    let data = [1u8, 2, 3, 4, 5];
    let mut stream = Stream::new(&data);
    stream.advance(1);
    assert_eq!(stream.read_bytes(3), Some(&data[1..4]));
    assert_eq!(stream.read_bytes(2), None);
    assert_eq!(stream.read_bytes(1), Some(&data[4..5]));
    assert_eq!(stream.read_bytes(0), Some(&data[5..5]));
}

#[test]
fn advance_skips_past_end() {
    let data = [1u8, 2, 3];
    let mut stream = Stream::new(&data);
    stream.advance(10);
    assert_eq!(stream.position(), 10);
    assert_eq!(stream.read::<u8>(), None);
    assert_eq!(stream.read_bytes(0), None);
    stream.advance(usize::MAX);
    assert_eq!(stream.position(), usize::MAX);
}

#[test]
fn field_reads_report_missing_field() {
    let data = [0x12u8, 0x34, 0x56];
    let mut stream = Stream::new(&data);
    assert_eq!(read_field_u16(&mut stream), Ok(0x1234));
    assert_eq!(read_field_u32(&mut stream), Err(ParsingError::MissingField));
    assert_eq!(read_field_u8(&mut stream), Ok(0x56));
    assert_eq!(read_field_u8(&mut stream), Err(ParsingError::MissingField));
}
