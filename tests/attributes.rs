use runevm::{
    read_attribute, read_attributes, Attribute, ConstantPool, ExceptionTableEntry,
    Instruction, LineNumberTableEntry, ParsingError, Stream,
};

fn utf8(text: &str) -> Vec<u8> {
    let mut out = vec![1u8, 0, text.len() as u8];
    out.extend_from_slice(text.as_bytes());
    out
}

/// 1 "Code", 2 "SourceFile", 3 "Custom", 4 "LineNumberTable", 5 "ConstantValue", 6 Class #3.
fn pool() -> ConstantPool {
    let mut b = Vec::new();
    for name in ["Code", "SourceFile", "Custom", "LineNumberTable", "ConstantValue"] {
        b.extend(utf8(name));
    }
    b.extend([7u8, 0, 3]);
    let mut stream = Stream::new(&b);
    stream.read_array::<ConstantPool>(7).unwrap()
}

fn record(name: u16, payload: &[u8]) -> Vec<u8> {
    let mut out = name.to_be_bytes().to_vec();
    out.extend((payload.len() as u32).to_be_bytes());
    out.extend_from_slice(payload);
    out
}

#[test]
fn unknown_attribute_is_skipped_by_its_length() {
    let pool = pool();
    let mut data = record(3, &[9, 9, 9, 9]);
    data.extend(record(2, &[0, 6]));
    let mut stream = Stream::new(&data);
    match read_attribute(&mut stream, &pool) {
        Ok(Attribute::Unhandled(name)) => assert_eq!(name, "Custom"),
        other => panic!("unexpected {other:?}"),
    }
    assert_eq!(stream.position(), 10);
    assert!(matches!(read_attribute(&mut stream, &pool), Ok(Attribute::SourceFile(6))));
    assert_eq!(stream.position(), data.len());
}

#[test]
fn code_attribute_consumes_exactly_its_length() {
    let pool = pool();
    let mut payload = vec![0u8, 2, 0, 1, 0, 0, 0, 3, 0x04, 0x3b, 0xb1];
    payload.extend([0u8, 1, 0, 0, 0, 3, 0, 3, 0, 6]);
    let mut nested = vec![0u8, 1];
    nested.extend(record(4, &[0, 1, 0, 0, 0, 7]));
    payload.extend(nested);
    payload.extend([0xEE, 0xEE]);
    let mut data = vec![0u8, 2];
    data.extend(record(1, &payload));
    data.extend(record(3, &[]));
    let mut stream = Stream::new(&data);
    let attributes = read_attributes(&mut stream, &pool).unwrap();
    assert_eq!(stream.position(), data.len());
    assert_eq!(attributes.len(), 2);
    match &attributes[0] {
        Attribute::Code { max_stack, max_locals, code, instructions, exceptions, attributes } => {
            assert_eq!((*max_stack, *max_locals), (2, 1));
            assert_eq!(code, &vec![0x04u8, 0x3b, 0xb1]);
            assert_eq!(
                instructions,
                &vec![(0, Instruction::Iconst(1)), (1, Instruction::Istore(0)), (2, Instruction::Return)]
            );
            assert_eq!(
                exceptions,
                &vec![ExceptionTableEntry { start_pc: 0, end_pc: 3, handler_pc: 3, catch_type: 6 }]
            );
            assert_eq!(attributes.len(), 1);
            match &attributes[0] {
                Attribute::LineNumberTable(rows) => assert_eq!(
                    rows,
                    &vec![LineNumberTableEntry { start_pc: 0, line_number: 7 }]
                ),
                other => panic!("unexpected {other:?}"),
            }
        }
        other => panic!("unexpected {other:?}"),
    }
    assert!(matches!(&attributes[1], Attribute::Unhandled(n) if n == "Custom"));
}

#[test]
fn constant_value_attribute() {
    let pool = pool();
    let data = record(5, &[0, 9]);
    let mut stream = Stream::new(&data);
    assert!(matches!(read_attribute(&mut stream, &pool), Ok(Attribute::ConstantValue(9))));
}

#[test]
fn payload_past_end_is_missing_field() {
    let pool = pool();
    let mut data = 3u16.to_be_bytes().to_vec();
    data.extend(10u32.to_be_bytes());
    data.extend([1, 2, 3]);
    let mut stream = Stream::new(&data);
    assert!(matches!(read_attribute(&mut stream, &pool), Err(ParsingError::MissingField)));
}

#[test]
fn short_code_payload_is_missing_field() {
    let pool = pool();
    let data = record(1, &[0, 2, 0, 1, 0, 0, 0, 9, 0xb1]);
    let mut stream = Stream::new(&data);
    assert!(matches!(read_attribute(&mut stream, &pool), Err(ParsingError::MissingField)));
}

#[test]
fn name_that_is_not_text_is_invalid_index() {
    let pool = pool();
    for name in [0u16, 6, 7, 200] {
        let data = record(name, &[0, 1]);
        let mut stream = Stream::new(&data);
        assert!(
            matches!(read_attribute(&mut stream, &pool), Err(ParsingError::InvalidIndex)),
            "name index {name}"
        );
    }
}

#[test]
fn missing_count_is_missing_field() {
    let pool = pool();
    let data = [0u8];
    let mut stream = Stream::new(&data);
    assert!(matches!(read_attributes(&mut stream, &pool), Err(ParsingError::MissingField)));
}

#[test]
fn unknown_opcode_fails_the_load() {
    let pool = pool();
    let data = record(1, &[0, 2, 0, 1, 0, 0, 0, 2, 0x04, 0xCA, 0, 0, 0, 0]);
    let mut stream = Stream::new(&data);
    assert!(matches!(read_attribute(&mut stream, &pool), Err(ParsingError::UnhandledOpcode(0xCA))));
}

#[test]
fn cut_instruction_is_missing_field() {
    let pool = pool();
    let data = record(1, &[0, 2, 0, 1, 0, 0, 0, 2, 0x04, 0x10, 0, 0, 0, 0]);
    let mut stream = Stream::new(&data);
    assert!(matches!(read_attribute(&mut stream, &pool), Err(ParsingError::MissingField)));
}

#[test]
fn malformed_line_number_table_is_kept_opaque() {
    let pool = pool();
    let mut data = record(4, &[0, 3, 0, 0]);
    data.extend(record(2, &[0, 6]));
    let mut stream = Stream::new(&data);
    match read_attribute(&mut stream, &pool) {
        Ok(Attribute::Unhandled(name)) => assert_eq!(name, "LineNumberTable"),
        other => panic!("unexpected {other:?}"),
    }
    assert_eq!(stream.position(), 10);
    assert!(matches!(read_attribute(&mut stream, &pool), Ok(Attribute::SourceFile(6))));
}
