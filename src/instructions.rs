use vstd::prelude::*;

use crate::stream::be16;

verus! {

/// Why an instruction could not be decoded or executed.
#[derive(Debug, Clone, Copy, PartialEq, Eq, Structural)]
pub enum FrameError {
    /// An instruction popped from an empty operand stack.
    StackUnderflow,
    /// A push would exceed the method's declared operand-stack depth.
    StackOverflow,
    /// An operand or a local held a value of another kind than the
    /// instruction requires.
    TypeMismatch,
    /// A local-variable slot past the method's declared count.
    InvalidLocal(u16),
    /// A pool index that does not name a constant of the kind the
    /// instruction requires.
    InvalidConstant(u16),
    /// An opcode that the decoder does not know.
    UnhandledOpcode(u8),
    /// The code ends inside an instruction's operands.
    MissingOperand,
    /// A call to another method, whose activation is not supported.
    UnsupportedCall(u16),
}

/// A decoded instruction; its operands are native-width values.
#[derive(Debug, Clone, Copy, PartialEq, Eq, Structural)]
pub enum Instruction {
    Nop,
    /// `iconst_m1` to `iconst_5`.
    Iconst(i32),
    Bipush(i8),
    Sipush(i16),
    /// `ldc` and `ldc_w`, with the pool index widened.
    Ldc(u16),
    /// `iload` and `iload_0` to `iload_3`.
    Iload(u16),
    /// `istore` and `istore_0` to `istore_3`.
    Istore(u16),
    Pop,
    Iadd,
    Return,
    Getstatic(u16),
    Invokevirtual(u16),
    Invokestatic(u16),
}

/// How many bytes, opcode included, the instruction with opcode `op` takes.
pub open spec fn opcode_width(op: u8) -> Option<nat> {
    if op == 0x00 || (0x02 <= op <= 0x08) || (0x1a <= op <= 0x1d) || (0x3b <= op <= 0x3e)
        || op == 0x57 || op == 0x60 || op == 0xb1 {
        Some(1)
    } else if op == 0x10 || op == 0x12 || op == 0x15 || op == 0x36 {
        Some(2)
    } else if op == 0x11 || op == 0x13 || op == 0xb2 || op == 0xb6 || op == 0xb8 {
        Some(3)
    } else {
        None
    }
}

/// The instruction at `pc`, whose opcode is known and whose operands lie
/// inside `code`.
pub open spec fn instruction_at(code: Seq<u8>, pc: int) -> Instruction {
    let op = code[pc];
    if op == 0x00 {
        Instruction::Nop
    } else if 0x02 <= op <= 0x08 {
        Instruction::Iconst((op - 3) as i32)
    } else if op == 0x10 {
        Instruction::Bipush(code[pc + 1] as i8)
    } else if op == 0x11 {
        Instruction::Sipush(be16(code, pc + 1) as i16)
    } else if op == 0x12 {
        Instruction::Ldc(code[pc + 1] as u16)
    } else if op == 0x13 {
        Instruction::Ldc(be16(code, pc + 1))
    } else if op == 0x15 {
        Instruction::Iload(code[pc + 1] as u16)
    } else if 0x1a <= op <= 0x1d {
        Instruction::Iload((op - 0x1a) as u16)
    } else if op == 0x36 {
        Instruction::Istore(code[pc + 1] as u16)
    } else if 0x3b <= op <= 0x3e {
        Instruction::Istore((op - 0x3b) as u16)
    } else if op == 0x57 {
        Instruction::Pop
    } else if op == 0x60 {
        Instruction::Iadd
    } else if op == 0xb1 {
        Instruction::Return
    } else if op == 0xb2 {
        Instruction::Getstatic(be16(code, pc + 1))
    } else if op == 0xb6 {
        Instruction::Invokevirtual(be16(code, pc + 1))
    } else {
        Instruction::Invokestatic(be16(code, pc + 1))
    }
}

/// The instruction that starts at `pc` and the offset of the next one.
pub open spec fn spec_decode(code: Seq<u8>, pc: nat) -> Result<(Instruction, nat), FrameError>
    recommends
        pc < code.len(),
{
    let op = code[pc as int];
    match opcode_width(op) {
        None => Err(FrameError::UnhandledOpcode(op)),
        Some(w) => if pc + w > code.len() {
            Err(FrameError::MissingOperand)
        } else {
            Ok((instruction_at(code, pc as int), pc + w))
        },
    }
}

/// Decodes the instruction that starts at byte offset `pc`.
pub fn decode_at(code: &[u8], pc: usize) -> (r: Result<(Instruction, usize), FrameError>)
    requires
        pc < code@.len(),
    ensures
        match spec_decode(code@, pc as nat) {
            Ok((ins, next)) => r == Ok::<(Instruction, usize), FrameError>((ins, next as usize)),
            Err(e) => r == Err::<(Instruction, usize), FrameError>(e),
        },
        r matches Ok((_, next)) ==> pc < next <= code@.len(),
{
    let op = code[pc];
    let len = code.len();
    if op == 0x00 || (0x02 <= op && op <= 0x08) || (0x1a <= op && op <= 0x1d) || (0x3b <= op
        && op <= 0x3e) || op == 0x57 || op == 0x60 || op == 0xb1 {
        let ins = if op == 0x00 {
            Instruction::Nop
        } else if op <= 0x08 {
            Instruction::Iconst(op as i32 - 3)
        } else if op <= 0x1d {
            Instruction::Iload((op - 0x1a) as u16)
        } else if op <= 0x3e {
            Instruction::Istore((op - 0x3b) as u16)
        } else if op == 0x57 {
            Instruction::Pop
        } else if op == 0x60 {
            Instruction::Iadd
        } else {
            Instruction::Return
        };
        Ok((ins, pc + 1))
    } else if op == 0x10 || op == 0x12 || op == 0x15 || op == 0x36 {
        if len - pc < 2 {
            return Err(FrameError::MissingOperand);
        }
        let b = code[pc + 1];
        let ins = if op == 0x10 {
            Instruction::Bipush(b as i8)
        } else if op == 0x12 {
            Instruction::Ldc(b as u16)
        } else if op == 0x15 {
            Instruction::Iload(b as u16)
        } else {
            Instruction::Istore(b as u16)
        };
        Ok((ins, pc + 2))
    } else if op == 0x11 || op == 0x13 || op == 0xb2 || op == 0xb6 || op == 0xb8 {
        if len - pc < 3 {
            return Err(FrameError::MissingOperand);
        }
        let v: u16 = (code[pc + 1] as u16) * 256 + code[pc + 2] as u16;
        let ins = if op == 0x11 {
            Instruction::Sipush(v as i16)
        } else if op == 0x13 {
            Instruction::Ldc(v)
        } else if op == 0xb2 {
            Instruction::Getstatic(v)
        } else if op == 0xb6 {
            Instruction::Invokevirtual(v)
        } else {
            Instruction::Invokestatic(v)
        };
        Ok((ins, pc + 3))
    } else {
        Err(FrameError::UnhandledOpcode(op))
    }
}

/// The instructions of `code` from `pc` on, each with its byte offset.
pub open spec fn spec_decode_all(code: Seq<u8>, pc: nat) -> Result<
    Seq<(nat, Instruction)>,
    FrameError,
>
    decreases code.len() - pc,
{
    if pc >= code.len() {
        Ok(Seq::empty())
    } else {
        match spec_decode(code, pc) {
            Err(e) => Err(e),
            Ok((ins, next)) => match spec_decode_all(code, next) {
                Err(e) => Err(e),
                Ok(rest) => Ok(seq![(pc, ins)] + rest),
            },
        }
    }
}

/// Decodes a whole code array, keeping each instruction's byte offset so
/// that branch targets can be resolved against it. An unknown opcode fails
/// the whole decode: its width is unknown, so it cannot be skipped.
pub fn decode_instructions(code: &[u8]) -> (r: Result<Vec<(usize, Instruction)>, FrameError>)
    ensures
        match spec_decode_all(code@, 0) {
            Ok(v) => r matches Ok(x) && x@.len() == v.len() && forall|i: int|
                0 <= i < v.len() ==> (#[trigger] x@[i]).0 == v[i].0 && x@[i].1 == v[i].1,
            Err(e) => r == Err::<Vec<(usize, Instruction)>, FrameError>(e),
        },
{
    let mut out: Vec<(usize, Instruction)> = Vec::new();
    let mut pc: usize = 0;
    while pc < code.len()
        invariant
            pc <= code@.len(),
            spec_decode_all(code@, 0) == match spec_decode_all(code@, pc as nat) {
                Ok(rest) => Ok(
                    Seq::new(out@.len(), |i: int| (out@[i].0 as nat, out@[i].1)) + rest,
                ),
                Err(e) => Err::<Seq<(nat, Instruction)>, FrameError>(e),
            },
        decreases code@.len() - pc,
    {
        let ghost before = Seq::new(out@.len(), |i: int| (out@[i].0 as nat, out@[i].1));
        let (ins, next) = match decode_at(code, pc) {
            Ok(d) => d,
            Err(e) => return Err(e),
        };
        proof {
            if let Ok(rest) = spec_decode_all(code@, next as nat) {
                assert(before + (seq![(pc as nat, ins)] + rest) =~= (before + seq![(pc as nat, ins)])
                    + rest);
            }
        }
        out.push((pc, ins));
        assert(Seq::new(out@.len(), |i: int| (out@[i].0 as nat, out@[i].1)) =~= before + seq![
            (pc as nat, ins),
        ]);
        pc = next;
    }
    assert(Seq::new(out@.len(), |i: int| (out@[i].0 as nat, out@[i].1)) + Seq::empty() =~= Seq::new(
        out@.len(),
        |i: int| (out@[i].0 as nat, out@[i].1),
    ));
    Ok(out)
}

} // verus!
