use runevm::{Attribute, ClassFile, Constant, ParsingError};

fn utf8(text: &str) -> Vec<u8> {
    let mut out = vec![1u8, 0, text.len() as u8];
    out.extend_from_slice(text.as_bytes());
    out
}

fn record(name: u16, payload: &[u8]) -> Vec<u8> {
    let mut out = name.to_be_bytes().to_vec();
    out.extend((payload.len() as u32).to_be_bytes());
    out.extend_from_slice(payload);
    out
}

fn sample_class() -> Vec<u8> {
    let mut b = vec![0xCA, 0xFE, 0xBA, 0xBE, 0, 3, 0, 52, 0, 15];
    for text in ["Code", "main", "([Ljava/lang/String;)V", "Demo"] {
        b.extend(utf8(text));
    }
    b.extend([7u8, 0, 4]);
    b.extend(utf8("java/lang/Object"));
    b.extend([7u8, 0, 6]);
    for text in ["count", "I", "SourceFile", "Demo.java", "Custom", "ConstantValue"] {
        b.extend(utf8(text));
    }
    b.extend([3u8, 0, 0, 0, 42]);
    b.extend([0x00, 0x21, 0, 5, 0, 7]);
    b.extend([0, 1, 0, 7]);
    b.extend([0, 1, 0, 0x08, 0, 8, 0, 9, 0, 1]);
    b.extend(record(13, &[0, 14]));
    b.extend([0, 1, 0, 0x09, 0, 2, 0, 3, 0, 1]);
    let mut code = vec![0u8, 2, 0, 1, 0, 0, 0, 5, 0x10, 5, 0x10, 10, 0x3b];
    code.extend([0, 1, 0, 0, 0, 5, 0, 5, 0, 0]);
    code.extend([0, 1]);
    code.extend(record(12, &[1, 2, 3]));
    b.extend(record(1, &code));
    b.extend([0, 2]);
    b.extend(record(10, &[0, 11]));
    b.extend(record(12, &[]));
    b
}

#[test]
fn loads_sample_class() {
    let data = sample_class();
    let class = ClassFile::parse(&data).unwrap();
    assert_eq!((class.version.major, class.version.minor), (52, 3));
    assert_eq!(class.constant_pool.items.len(), 14);
    assert_eq!(class.access_flags.bits, 0x0021);
    assert_eq!((class.this_class, class.super_class), (5, 7));
    assert_eq!(class.constant_pool.class(class.this_class), Some("Demo".to_string()));
    assert_eq!(class.interfaces, vec![7]);
    assert_eq!(class.fields.len(), 1);
    let field = &class.fields[0];
    assert_eq!((field.access_flags.bits, field.name_index, field.descriptor_index), (8, 8, 9));
    assert!(matches!(field.attributes[..], [Attribute::ConstantValue(14)]));
    assert_eq!(class.methods.len(), 1);
    let method = &class.methods[0];
    assert_eq!(method.maxs(), Some((2, 1)));
    assert_eq!(method.code(), Some(vec![0x10, 5, 0x10, 10, 0x3b]));
    assert_eq!(class.attributes.len(), 2);
    assert!(matches!(class.attributes[0], Attribute::SourceFile(11)));
    assert!(matches!(&class.attributes[1], Attribute::Unhandled(n) if n == "Custom"));
}

#[test]
fn minimal_class_loads_empty() {
    let data = [
        0xCA, 0xFE, 0xBA, 0xBE, 0, 0, 0, 52, 0, 1, 0x00, 0x21, 0, 0, 0, 0, 0, 0, 0, 0, 0, 0, 0, 0,
    ];
    let class = ClassFile::parse(&data).unwrap();
    assert_eq!((class.version.major, class.version.minor), (52, 0));
    assert!(class.constant_pool.items.is_empty());
    assert_eq!(class.access_flags.bits, 0x0021);
    assert_eq!((class.this_class, class.super_class), (0, 0));
    assert!(class.interfaces.is_empty());
    assert!(class.fields.is_empty());
    assert!(class.methods.is_empty());
    assert!(class.attributes.is_empty());
}

#[test]
fn every_truncation_fails() {
    let data = sample_class();
    for k in 0..data.len() {
        let expected = if k < 4 { ParsingError::InvalidMagic } else { ParsingError::MissingField };
        match ClassFile::parse(&data[..k]) {
            Err(e) => assert_eq!(e, expected, "cut at {k}"),
            Ok(_) => panic!("cut at {k} loaded"),
        }
    }
}

#[test]
fn trailing_bytes_are_not_read() {
    let mut data = sample_class();
    data.extend([0xFF, 0xFF]);
    assert!(ClassFile::parse(&data).is_ok());
}

#[test]
fn wrong_magic_is_rejected() {
    let mut data = sample_class();
    data[3] = 0xBF;
    assert!(matches!(ClassFile::parse(&data), Err(ParsingError::InvalidMagic)));
}

#[test]
fn unknown_tag_stops_the_load() {
    let mut data = sample_class();
    data[10] = 2;
    assert!(matches!(ClassFile::parse(&data), Err(ParsingError::UnhandledConstant(2))));
}

#[test]
fn attribute_name_must_be_text() {
    let mut data = sample_class();
    let at = data.len() - 14;
    assert_eq!(&data[at..at + 2], &[0, 10]);
    data[at + 1] = 5;
    assert!(matches!(ClassFile::parse(&data), Err(ParsingError::InvalidIndex)));
}

#[test]
fn finds_method_by_name_and_descriptor() {
    let data = sample_class();
    let class = ClassFile::parse(&data).unwrap();
    let main = class.get_method(b"main", b"([Ljava/lang/String;)V").unwrap();
    assert_eq!(main.name_index, 2);
    assert!(class.get_method(b"main", b"()V").is_none());
    assert!(class.get_method(b"count", b"I").is_none());
    assert!(matches!(class.constant_pool.get(14), Some(Constant::Integer(42))));
}

#[test]
fn parse_class_hands_back_the_rest() {
    let mut data = sample_class();
    let n = data.len();
    data.extend([0xAB, 0xCD]);
    let (rest, class) = ClassFile::parse_class(&data).unwrap();
    assert_eq!(rest, &[0xAB, 0xCD]);
    assert_eq!(class.methods.len(), 1);
    let (rest, _) = ClassFile::parse_class(&data[..n]).unwrap();
    assert!(rest.is_empty());
    assert!(matches!(ClassFile::parse_class(&data[..n - 1]), Err(ParsingError::MissingField)));
}

#[test]
fn unknown_opcode_stops_the_load() {
    let mut data = sample_class();
    let at = data.windows(5).position(|w| w == [0x10, 5, 0x10, 10, 0x3b]).unwrap();
    data[at + 4] = 0xCB;
    assert!(matches!(ClassFile::parse(&data), Err(ParsingError::UnhandledOpcode(0xCB))));
}
