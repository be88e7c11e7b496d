use runevm::{
    decode_at, decode_instructions, Attribute, ConstantPool, Frame, FrameError, FrameResult,
    Instruction, JavaThread, Method, MethodAccessFlags, OperandItem, Stream,
};

fn utf8(text: &str) -> Vec<u8> {
    let mut out = vec![1u8, 0, text.len() as u8];
    out.extend_from_slice(text.as_bytes());
    out
}

/// 1 "java/lang/System", 2 Class #1, 3 "out", 4 "Ljava/io/PrintStream;",
/// 5 NameAndType #3 #4, 6 FieldRef #2 #5, 7 "Hi", 8 String #7,
/// 9 "println", 10 "(Ljava/lang/String;)V", 11 NameAndType #9 #10,
/// 12 MethodRef #2 #11, 13 Integer 70000, 14 Float 1.0, 15 Long (15 and 16).
fn pool() -> ConstantPool {
    let mut b = Vec::new();
    b.extend(utf8("java/lang/System"));
    b.extend([7u8, 0, 1]);
    b.extend(utf8("out"));
    b.extend(utf8("Ljava/io/PrintStream;"));
    b.extend([12u8, 0, 3, 0, 4]);
    b.extend([9u8, 0, 2, 0, 5]);
    b.extend(utf8("Hi"));
    b.extend([8u8, 0, 7]);
    b.extend(utf8("println"));
    b.extend(utf8("(Ljava/lang/String;)V"));
    b.extend([12u8, 0, 9, 0, 10]);
    b.extend([10u8, 0, 2, 0, 11]);
    b.extend([3u8, 0, 1, 0x11, 0x70]);
    b.extend([4u8, 0x3F, 0x80, 0, 0]);
    b.extend([5u8, 0, 0, 0, 0, 0, 0, 0, 1]);
    let mut stream = Stream::new(&b);
    stream.read_array::<ConstantPool>(17).unwrap()
}

fn method(max_stack: u16, max_locals: u16, code: &[u8]) -> Method {
    Method {
        access_flags: MethodAccessFlags { bits: 0x0009 },
        name_index: 9,
        descriptor_index: 10,
        attributes: vec![Attribute::Code {
            max_stack,
            max_locals,
            code: code.to_vec(),
            instructions: decode_instructions(code).unwrap_or_default(),
            exceptions: Vec::new(),
            attributes: Vec::new(),
        }],
    }
}

#[test]
fn bipush_then_istore() {
    let pool = pool();
    let m = method(2, 1, &[0x10, 5, 0x10, 10, 0x36, 0]);
    let mut frame = Frame::new(&pool, &m);
    assert_eq!(frame.execute(), Ok(FrameResult::Finished));
    assert_eq!(frame.operand_stack, vec![OperandItem::Integer(5)]);
    assert_eq!(frame.locals, vec![OperandItem::Integer(10)]);
    assert_eq!(frame.pc, 6);
}

#[test]
fn istore_short_form() {
    let pool = pool();
    let m = method(2, 2, &[0x10, 0xFB, 0x10, 7, 0x3c]);
    let mut frame = Frame::new(&pool, &m);
    assert_eq!(frame.execute(), Ok(FrameResult::Finished));
    assert_eq!(frame.operand_stack, vec![OperandItem::Integer(-5)]);
    assert_eq!(frame.locals, vec![OperandItem::Padding, OperandItem::Integer(7)]);
}

#[test]
fn empty_code_finishes_at_once() {
    let pool = pool();
    let m = method(0, 0, &[]);
    let mut frame = Frame::new(&pool, &m);
    assert_eq!(frame.execute(), Ok(FrameResult::Finished));
    assert!(frame.operand_stack.is_empty());
    assert_eq!(frame.pc, 0);
}

#[test]
fn method_without_code_has_empty_frame() {
    let pool = pool();
    let m = Method {
        access_flags: MethodAccessFlags { bits: 0x0100 },
        name_index: 9,
        descriptor_index: 10,
        attributes: Vec::new(),
    };
    let mut frame = Frame::new(&pool, &m);
    assert!(frame.code.is_empty());
    assert!(frame.locals.is_empty());
    assert_eq!(frame.execute(), Ok(FrameResult::Finished));
}

#[test]
fn arithmetic_and_loads() {
    let pool = pool();
    let m = method(3, 1, &[0x11, 0x01, 0x00, 0x3b, 0x1a, 0x08, 0x60, 0x57, 0x1a, 0x02, 0x60]);
    let mut frame = Frame::new(&pool, &m);
    assert_eq!(frame.execute(), Ok(FrameResult::Finished));
    assert_eq!(frame.operand_stack, vec![OperandItem::Integer(255)]);
}

#[test]
fn iadd_wraps() {
    let pool = pool();
    let m = method(2, 0, &[0x12, 13, 0x12, 13, 0x60]);
    let mut frame = Frame::new(&pool, &m);
    assert_eq!(frame.execute(), Ok(FrameResult::Finished));
    assert_eq!(frame.operand_stack, vec![OperandItem::Integer(140000)]);
    let m = method(2, 0, &[0x02, 0x11, 0x80, 0x00, 0x60, 0x00]);
    let mut frame = Frame::new(&pool, &m);
    assert_eq!(frame.execute(), Ok(FrameResult::Finished));
    assert_eq!(frame.operand_stack, vec![OperandItem::Integer(-32769)]);
}

#[test]
fn ldc_pushes_literals_and_references() {
    let pool = pool();
    let m = method(3, 0, &[0x12, 13, 0x12, 14, 0x13, 0, 8]);
    let mut frame = Frame::new(&pool, &m);
    assert_eq!(frame.execute(), Ok(FrameResult::Finished));
    assert_eq!(
        frame.operand_stack,
        vec![OperandItem::Integer(70000), OperandItem::Float(0x3F80_0000), OperandItem::Reference(8)]
    );
    let m = method(1, 0, &[0x12, 15]);
    assert_eq!(Frame::new(&pool, &m).execute(), Err(FrameError::InvalidConstant(15)));
}

#[test]
fn hello_world_resolves_symbols() {
    let pool = pool();
    let m = method(2, 1, &[0xb2, 0, 6, 0x12, 8, 0xb6, 0, 12, 0xb1, 0x00]);
    let mut frame = Frame::new(&pool, &m);
    assert_eq!(frame.execute(), Ok(FrameResult::Finished));
    assert_eq!(frame.pc, 9);
    assert_eq!(frame.operand_stack, vec![OperandItem::Reference(8)]);
    let m = method(2, 1, &[0xb2, 0, 12]);
    assert_eq!(Frame::new(&pool, &m).execute(), Err(FrameError::InvalidConstant(12)));
    let m = method(2, 1, &[0xb6, 0, 6]);
    assert_eq!(Frame::new(&pool, &m).execute(), Err(FrameError::InvalidConstant(6)));
}

#[test]
fn invokestatic_asks_for_a_new_frame() {
    let pool = pool();
    let m = method(1, 0, &[0x04, 0xb8, 0, 12, 0x05]);
    let mut frame = Frame::new(&pool, &m);
    assert_eq!(frame.execute(), Ok(FrameResult::NextFrame(12)));
    assert_eq!(frame.pc, 4);
    assert_eq!(frame.operand_stack, vec![OperandItem::Integer(1)]);
}

#[test]
fn execution_errors() {
    let pool = pool();
    let cases: [(&[u8], u16, u16, FrameError); 7] = [
        (&[0x3b], 1, 1, FrameError::StackUnderflow),
        (&[0x57], 1, 1, FrameError::StackUnderflow),
        (&[0x04, 0x60], 2, 1, FrameError::StackUnderflow),
        (&[0x04, 0x05], 1, 1, FrameError::StackOverflow),
        (&[0x12, 8, 0x3b], 1, 1, FrameError::TypeMismatch),
        (&[0x04, 0x36, 3], 1, 1, FrameError::InvalidLocal(3)),
        (&[0x1a], 1, 1, FrameError::TypeMismatch),
    ];
    for (code, max_stack, max_locals, expected) in cases {
        let m = method(max_stack, max_locals, code);
        assert_eq!(Frame::new(&pool, &m).execute(), Err(expected), "{code:?}");
    }
}

#[test]
fn decoder_errors() {
    let pool = pool();
    let m = method(1, 1, &[0x00, 0xCA]);
    assert_eq!(Frame::new(&pool, &m).execute(), Err(FrameError::UnhandledOpcode(0xCA)));
    let m = method(1, 1, &[0x11, 0x01]);
    assert_eq!(Frame::new(&pool, &m).execute(), Err(FrameError::MissingOperand));
}

#[test]
fn decodes_with_byte_offsets() {
    let code = [0x10u8, 5, 0x11, 1, 2, 0x3b, 0xb6, 0, 12, 0xb1];
    let decoded = decode_instructions(&code).unwrap();
    assert_eq!(
        decoded,
        vec![
            (0, Instruction::Bipush(5)),
            (2, Instruction::Sipush(258)),
            (5, Instruction::Istore(0)),
            (6, Instruction::Invokevirtual(12)),
            (9, Instruction::Return),
        ]
    );
    assert_eq!(decode_at(&code, 2), Ok((Instruction::Sipush(258), 5)));
    assert_eq!(decode_instructions(&[0x10]), Err(FrameError::MissingOperand));
    assert_eq!(decode_instructions(&[0x00, 0xff]), Err(FrameError::UnhandledOpcode(0xff)));
}

#[test]
fn thread_runs_until_stack_is_empty() {
    let pool = pool();
    let m = method(2, 1, &[0x10, 5, 0x3b, 0xb1]);
    let mut thread = JavaThread::new(&pool, &m);
    assert_eq!(thread.depth(), 1);
    assert_eq!(thread.run(), Ok(()));
    assert_eq!(thread.depth(), 0);
}

#[test]
fn thread_stops_on_call_and_error() {
    let pool = pool();
    let m = method(1, 0, &[0xb8, 0, 12]);
    let mut thread = JavaThread::new(&pool, &m);
    assert_eq!(thread.run(), Err(FrameError::UnsupportedCall(12)));
    let m = method(1, 0, &[0x57]);
    let mut thread = JavaThread::new(&pool, &m);
    assert_eq!(thread.run(), Err(FrameError::StackUnderflow));
}

#[test]
fn failing_instruction_leaves_the_frame_untouched() {
    let pool = pool();
    let m = method(2, 1, &[0x04, 0x12, 8, 0x60, 0x00]);
    let mut frame = Frame::new(&pool, &m);
    assert_eq!(frame.execute(), Err(FrameError::TypeMismatch));
    assert_eq!(frame.pc, 3);
    assert_eq!(frame.operand_stack, vec![OperandItem::Integer(1), OperandItem::Reference(8)]);
    let m = method(1, 1, &[0x04, 0x36, 4]);
    let mut frame = Frame::new(&pool, &m);
    assert_eq!(frame.execute(), Err(FrameError::InvalidLocal(4)));
    assert_eq!(frame.pc, 1);
    assert_eq!(frame.operand_stack, vec![OperandItem::Integer(1)]);
    assert_eq!(frame.locals, vec![OperandItem::Padding]);
}
