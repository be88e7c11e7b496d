use runevm::{read_constant, Constant, ConstantPool, ParsingError, Stream};

fn utf8(text: &str) -> Vec<u8> {
    let mut out = vec![1u8, 0, text.len() as u8];
    out.extend_from_slice(text.as_bytes());
    out
}

/// Entries: 1 Utf8 "Hello", 2 Class #1, 3 Integer -2, 4 Long (4 and 5),
/// 6 String #1, 7 Utf8 "x", 8 Utf8 "I", 9 NameAndType #7 #8, 10 FieldRef #2 #9,
/// 11 MethodRef #2 #9, 12 Float, 13 InterfaceMethodRef #2 #9, 14 Double (14 and 15).
fn sample_pool() -> Vec<u8> {
    let mut b = Vec::new();
    b.extend(utf8("Hello"));
    b.extend([7u8, 0, 1]);
    b.extend([3u8, 0xFF, 0xFF, 0xFF, 0xFE]);
    b.extend([5u8, 0, 0, 0, 1, 0, 0, 0, 2]);
    b.extend([8u8, 0, 1]);
    b.extend(utf8("x"));
    b.extend(utf8("I"));
    b.extend([12u8, 0, 7, 0, 8]);
    b.extend([9u8, 0, 2, 0, 9]);
    b.extend([10u8, 0, 2, 0, 9]);
    b.extend([4u8, 0x3F, 0x80, 0, 0]);
    b.extend([11u8, 0, 2, 0, 9]);
    b.extend([6u8, 0x40, 0, 0, 0, 0, 0, 0, 0]);
    b
}

fn parse_sample() -> ConstantPool {
    let data = sample_pool();
    let mut stream = Stream::new(&data);
    let pool = stream.read_array::<ConstantPool>(16).unwrap();
    assert_eq!(stream.position(), data.len());
    pool
}

#[test]
fn pool_has_count_minus_one_slots() {
    let pool = parse_sample();
    assert_eq!(pool.items.len(), 15);
    assert!(matches!(pool.items[4], Constant::Unusable));
    assert!(matches!(pool.items[14], Constant::Unusable));
}

#[test]
fn index_zero_and_wide_second_slot_name_nothing() {
    let pool = parse_sample();
    assert!(pool.get(0).is_none());
    assert!(pool.get(5).is_none());
    assert!(pool.get(15).is_none());
    assert!(pool.get(16).is_none());
    for i in [1u16, 2, 3, 4, 6, 7, 8, 9, 10, 11, 12, 13, 14] {
        assert!(pool.get(i).is_some(), "index {i}");
    }
}

#[test]
fn typed_lookups() {
    let pool = parse_sample();
    assert_eq!(pool.utf8(1), Some("Hello".to_string()));
    assert_eq!(pool.utf8(2), None);
    assert_eq!(pool.class(2), Some("Hello".to_string()));
    assert_eq!(pool.class(1), None);
    assert_eq!(pool.integer(3), Some(-2));
    assert_eq!(pool.integer(1), None);
    assert!(matches!(pool.get(4), Some(Constant::Long(0x1_0000_0002))));
    assert!(matches!(pool.get(12), Some(Constant::Float(0x3F80_0000))));
    assert!(matches!(pool.get(14), Some(Constant::Double(0x4000_0000_0000_0000))));
    assert_eq!(pool.name_and_type(9), Some(("x".to_string(), "I".to_string())));
    assert_eq!(pool.name_and_type(10), None);
    assert_eq!(pool.field(10), Some((2, 9)));
    assert_eq!(pool.field(11), None);
    assert_eq!(pool.method(11), Some((2, 9)));
    assert_eq!(pool.method(13), None);
    assert!(matches!(
        pool.get(13),
        Some(Constant::InterfaceMethodRef { class_index: 2, nametype_index: 9 })
    ));
}

#[test]
fn malformed_text_decodes_leniently() {
    let data = [1u8, 0, 3, b'a', 0xFF, b'b'];
    let mut stream = Stream::new(&data);
    let pool = stream.read_array::<ConstantPool>(2).unwrap();
    assert_eq!(pool.utf8(1), Some("a\u{FFFD}b".to_string()));
    assert_eq!(pool.utf8_bytes(1).map(|b| b.as_slice()), Some(&data[3..6]));
}

#[test]
fn unknown_tag_fails_without_consuming() {
    let data = [7u8, 0, 1, 2, 0xAA, 0xBB];
    let mut stream = Stream::new(&data);
    let pool = stream.read_array::<ConstantPool>(3);
    assert!(matches!(pool, Err(ParsingError::UnhandledConstant(2))));
    assert_eq!(stream.position(), 4);

    let mut stream = Stream::new(&data[4..]);
    assert!(matches!(read_constant(&mut stream, 99), Err(ParsingError::UnhandledConstant(99))));
    assert_eq!(stream.position(), 0);
}

#[test]
fn short_entry_is_missing_field() {
    let data = [9u8, 0, 1, 0];
    let mut stream = Stream::new(&data);
    assert!(matches!(stream.read_array::<ConstantPool>(2), Err(ParsingError::MissingField)));
    let data = [1u8, 0, 4, b'a', b'b'];
    let mut stream = Stream::new(&data);
    assert!(matches!(stream.read_array::<ConstantPool>(2), Err(ParsingError::MissingField)));
}

#[test]
fn wide_constant_in_last_slot_is_invalid_index() {
    let data = [5u8, 0, 0, 0, 0, 0, 0, 0, 1];
    let mut stream = Stream::new(&data);
    assert!(matches!(stream.read_array::<ConstantPool>(2), Err(ParsingError::InvalidIndex)));
    let mut stream = Stream::new(&data);
    let pool = stream.read_array::<ConstantPool>(3).unwrap();
    assert_eq!(pool.items.len(), 2);
}

#[test]
fn empty_pool_counts() {
    let data: [u8; 0] = [];
    let mut stream = Stream::new(&data);
    assert_eq!(stream.read_array::<ConstantPool>(1).unwrap().items.len(), 0);
    let mut stream = Stream::new(&data);
    assert_eq!(stream.read_array::<ConstantPool>(0).unwrap().items.len(), 0);
}

#[test]
fn pool_bytes_round_trip() {
    let data = sample_pool();
    let pool = parse_sample();
    let mut out = Vec::new();
    for c in &pool.items {
        match c {
            Constant::Utf8(b) => {
                out.push(1);
                out.extend((b.len() as u16).to_be_bytes());
                out.extend(b);
            }
            Constant::Integer(v) => {
                out.push(3);
                out.extend(v.to_be_bytes());
            }
            Constant::Float(v) => {
                out.push(4);
                out.extend(v.to_be_bytes());
            }
            Constant::Long(v) => {
                out.push(5);
                out.extend(v.to_be_bytes());
            }
            Constant::Double(v) => {
                out.push(6);
                out.extend(v.to_be_bytes());
            }
            Constant::Class(i) => {
                out.push(7);
                out.extend(i.to_be_bytes());
            }
            Constant::String(i) => {
                out.push(8);
                out.extend(i.to_be_bytes());
            }
            Constant::FieldRef { class_index, nametype_index } => {
                out.push(9);
                out.extend(class_index.to_be_bytes());
                out.extend(nametype_index.to_be_bytes());
            }
            Constant::MethodRef { class_index, nametype_index } => {
                out.push(10);
                out.extend(class_index.to_be_bytes());
                out.extend(nametype_index.to_be_bytes());
            }
            Constant::InterfaceMethodRef { class_index, nametype_index } => {
                out.push(11);
                out.extend(class_index.to_be_bytes());
                out.extend(nametype_index.to_be_bytes());
            }
            Constant::NameAndType { name_index, descriptor_index } => {
                out.push(12);
                out.extend(name_index.to_be_bytes());
                out.extend(descriptor_index.to_be_bytes());
            }
            Constant::Unusable => {}
        }
    }
    assert_eq!(out, data);
}
