use vstd::prelude::*;

use crate::attributes::AttributeModel;
use crate::classfile::{is_first_code, MemberModel, Method};
use crate::constant_pool::{pool_entry, pool_utf8, Constant, ConstantModel, ConstantPool};
use crate::instructions::{decode_at, spec_decode, FrameError, Instruction};

verus! {

/// A value on the operand stack or in a local-variable slot.
#[derive(Debug, Clone, Copy, PartialEq, Eq, Structural)]
pub enum OperandItem {
    Integer(i32),
    /// The IEEE 754 bits of a `float`.
    Float(u32),
    Long(i64),
    /// The IEEE 754 bits of a `double`.
    Double(u64),
    /// A symbolic reference: the pool index of the constant it stands for,
    /// to be resolved by an object model.
    Reference(u16),
    /// A slot that holds no value.
    Padding,
}

/// What a frame does once it stops.
#[derive(Debug, Clone, Copy, PartialEq, Eq, Structural)]
pub enum FrameResult {
    /// A call to the method that the `MethodRef` at this pool index names
    /// needs a new activation; the frame resumes after the call.
    NextFrame(u16),
    /// The method returned, or its code ran out.
    Finished,
}

/// The mutable state of an activation.
pub struct Machine {
    pub pc: nat,
    pub stack: Seq<OperandItem>,
    pub locals: Seq<OperandItem>,
}

/// What one instruction does to the operand stack and the locals.
pub enum Effect {
    Continue(Seq<OperandItem>, Seq<OperandItem>),
    Invoke(Seq<OperandItem>, Seq<OperandItem>, u16),
    Return(Seq<OperandItem>, Seq<OperandItem>),
}

/// `stack` with `v` pushed, if that keeps it within `max_stack`.
pub open spec fn spec_push(max_stack: nat, stack: Seq<OperandItem>, v: OperandItem) -> Result<
    Seq<OperandItem>,
    FrameError,
> {
    if stack.len() >= max_stack {
        Err(FrameError::StackOverflow)
    } else {
        Ok(stack.push(v))
    }
}

/// Whether the class entry at `class_index` and the name-and-type entry at
/// `nametype_index` both resolve to text.
pub open spec fn symbol_resolves(pool: Seq<ConstantModel>, class_index: u16, nametype_index: u16) -> bool {
    &&& match pool_entry(pool, class_index as int) {
        Some(ConstantModel::Class(n)) => pool_utf8(pool, n as int) is Some,
        _ => false,
    }
    &&& match pool_entry(pool, nametype_index as int) {
        Some(ConstantModel::NameAndType { name_index, descriptor_index }) => pool_utf8(
            pool,
            name_index as int,
        ) is Some && pool_utf8(pool, descriptor_index as int) is Some,
        _ => false,
    }
}

/// Whether the entry at `index` is a field reference that resolves.
pub open spec fn field_resolves(pool: Seq<ConstantModel>, index: u16) -> bool {
    match pool_entry(pool, index as int) {
        Some(ConstantModel::FieldRef { class_index, nametype_index }) => symbol_resolves(
            pool,
            class_index,
            nametype_index,
        ),
        _ => false,
    }
}

/// Whether the entry at `index` is a method reference that resolves.
pub open spec fn method_resolves(pool: Seq<ConstantModel>, index: u16) -> bool {
    match pool_entry(pool, index as int) {
        Some(ConstantModel::MethodRef { class_index, nametype_index }) => symbol_resolves(
            pool,
            class_index,
            nametype_index,
        ),
        _ => false,
    }
}

/// The continuation that pushes `v`.
pub open spec fn pushed(max_stack: nat, stack: Seq<OperandItem>, locals: Seq<OperandItem>, v: OperandItem) -> Result<Effect, FrameError> {
    match spec_push(max_stack, stack, v) {
        Ok(st) => Ok(Effect::Continue(st, locals)),
        Err(e) => Err(e),
    }
}

/// What executing `ins` does.
pub open spec fn spec_effect(
    pool: Seq<ConstantModel>,
    max_stack: nat,
    ins: Instruction,
    stack: Seq<OperandItem>,
    locals: Seq<OperandItem>,
) -> Result<Effect, FrameError> {
    match ins {
        Instruction::Nop => Ok(Effect::Continue(stack, locals)),
        Instruction::Iconst(v) => pushed(max_stack, stack, locals, OperandItem::Integer(v)),
        Instruction::Bipush(v) => pushed(max_stack, stack, locals, OperandItem::Integer(v as i32)),
        Instruction::Sipush(v) => pushed(max_stack, stack, locals, OperandItem::Integer(v as i32)),
        Instruction::Ldc(i) => match pool_entry(pool, i as int) {
            Some(ConstantModel::Integer(v)) => pushed(max_stack, stack, locals, OperandItem::Integer(v)),
            Some(ConstantModel::Float(v)) => pushed(max_stack, stack, locals, OperandItem::Float(v)),
            Some(ConstantModel::String(_)) => pushed(max_stack, stack, locals, OperandItem::Reference(i)),
            Some(ConstantModel::Class(_)) => pushed(max_stack, stack, locals, OperandItem::Reference(i)),
            _ => Err(FrameError::InvalidConstant(i)),
        },
        Instruction::Iload(n) => if n >= locals.len() {
            Err(FrameError::InvalidLocal(n))
        } else {
            match locals[n as int] {
                OperandItem::Integer(v) => pushed(max_stack, stack, locals, OperandItem::Integer(v)),
                _ => Err(FrameError::TypeMismatch),
            }
        },
        Instruction::Istore(n) => if stack.len() == 0 {
            Err(FrameError::StackUnderflow)
        } else if !(stack.last() is Integer) {
            Err(FrameError::TypeMismatch)
        } else if n >= locals.len() {
            Err(FrameError::InvalidLocal(n))
        } else {
            Ok(Effect::Continue(stack.drop_last(), locals.update(n as int, stack.last())))
        },
        Instruction::Pop => if stack.len() == 0 {
            Err(FrameError::StackUnderflow)
        } else {
            Ok(Effect::Continue(stack.drop_last(), locals))
        },
        Instruction::Iadd => if stack.len() < 2 {
            Err(FrameError::StackUnderflow)
        } else {
            match (stack[stack.len() - 2], stack.last()) {
                (OperandItem::Integer(a), OperandItem::Integer(b)) => pushed(
                    max_stack,
                    stack.take(stack.len() - 2),
                    locals,
                    OperandItem::Integer(a.wrapping_add(b)),
                ),
                _ => Err(FrameError::TypeMismatch),
            }
        },
        Instruction::Return => Ok(Effect::Return(stack, locals)),
        Instruction::Getstatic(i) => if field_resolves(pool, i) {
            Ok(Effect::Continue(stack, locals))
        } else {
            Err(FrameError::InvalidConstant(i))
        },
        Instruction::Invokevirtual(i) => if method_resolves(pool, i) {
            Ok(Effect::Continue(stack, locals))
        } else {
            Err(FrameError::InvalidConstant(i))
        },
        Instruction::Invokestatic(i) => if method_resolves(pool, i) {
            Ok(Effect::Invoke(stack, locals, i))
        } else {
            Err(FrameError::InvalidConstant(i))
        },
    }
}

/// Runs the code from the state `m` until it ends, returns, calls, or fails.
pub open spec fn spec_run(pool: Seq<ConstantModel>, code: Seq<u8>, max_stack: nat, m: Machine) -> Result<
    (Machine, FrameResult),
    FrameError,
>
    decreases code.len() - m.pc,
{
    if m.pc >= code.len() {
        Ok((m, FrameResult::Finished))
    } else {
        match spec_decode(code, m.pc) {
            Err(e) => Err(e),
            Ok((ins, next)) => match spec_effect(pool, max_stack, ins, m.stack, m.locals) {
                Err(e) => Err(e),
                Ok(Effect::Continue(stack, locals)) => spec_run(
                    pool,
                    code,
                    max_stack,
                    Machine { pc: next, stack, locals },
                ),
                Ok(Effect::Invoke(stack, locals, i)) => Ok(
                    (Machine { pc: next, stack, locals }, FrameResult::NextFrame(i)),
                ),
                Ok(Effect::Return(stack, locals)) => Ok(
                    (Machine { pc: next, stack, locals }, FrameResult::Finished),
                ),
            },
        }
    }
}

/// The state in which a run from `m` stops: after the last instruction
/// executed, or, when an instruction fails, just before it, untouched.
pub open spec fn spec_run_stop(pool: Seq<ConstantModel>, code: Seq<u8>, max_stack: nat, m: Machine) -> Machine
    decreases code.len() - m.pc,
{
    if m.pc >= code.len() {
        m
    } else {
        match spec_decode(code, m.pc) {
            Err(_) => m,
            Ok((ins, next)) => match spec_effect(pool, max_stack, ins, m.stack, m.locals) {
                Err(_) => m,
                Ok(Effect::Continue(stack, locals)) => spec_run_stop(
                    pool,
                    code,
                    max_stack,
                    Machine { pc: next, stack, locals },
                ),
                Ok(Effect::Invoke(stack, locals, _)) => Machine { pc: next, stack, locals },
                Ok(Effect::Return(stack, locals)) => Machine { pc: next, stack, locals },
            },
        }
    }
}

/// One method activation. It shares the class's constant pool and owns its
/// operand stack and local-variable slots.
pub struct Frame<'a> {
    pub constant_pool: &'a ConstantPool,
    pub code: Vec<u8>,
    pub max_stack: u16,
    /// The byte offset of the next instruction.
    pub pc: usize,
    pub operand_stack: Vec<OperandItem>,
    pub locals: Vec<OperandItem>,
}

/// The result of one executed instruction, for the run loop.
enum Control {
    Continue,
    Invoke(u16),
    Return,
}

impl<'a> Frame<'a> {
    /// Whether the frame is a fresh activation of the method `method`: at
    /// its first instruction, with an empty operand stack, and with the code,
    /// stack depth and empty local slots of its first `Code` attribute (none
    /// of them if it has no code).
    pub open spec fn starts(&self, method: MemberModel) -> bool {
        &&& self.pc == 0
        &&& self.operand_stack@.len() == 0
        &&& (exists|i: int| is_first_code(method.attributes, i)) ==> exists|i: int|
            is_first_code(method.attributes, i) && ((#[trigger] method.attributes[i]) matches AttributeModel::Code { max_stack, max_locals, code, .. }
                && self.code@ == code && self.max_stack == max_stack
                && self.locals@ == Seq::new(max_locals as nat, |j: int| OperandItem::Padding))
        &&& (forall|i: int| 0 <= i < method.attributes.len() ==> !(#[trigger] method.attributes[i] is Code))
            ==> self.code@.len() == 0 && self.max_stack == 0 && self.locals@.len() == 0
    }

    /// The frame's mutable state.
    pub open spec fn machine(&self) -> Machine {
        Machine { pc: self.pc as nat, stack: self.operand_stack@, locals: self.locals@ }
    }

    /// An activation of `method` at its first instruction, with an empty
    /// operand stack and `max_locals` empty slots. A method without code
    /// gets an empty one.
    pub fn new(constant_pool: &'a ConstantPool, method: &Method) -> (f: Frame<'a>)
        ensures
            f.constant_pool == constant_pool,
            f.starts(method@),
    {
        let (max_stack, max_locals) = match method.maxs() {
            Some(m) => m,
            None => (0, 0),
        };
        let code = match method.code() {
            Some(c) => c,
            None => Vec::new(),
        };
        let mut locals: Vec<OperandItem> = Vec::new();
        let mut i: u16 = 0;
        while i < max_locals
            invariant
                i <= max_locals,
                locals@ == Seq::new(i as nat, |j: int| OperandItem::Padding),
            decreases max_locals - i,
        {
            locals.push(OperandItem::Padding);
            i = i + 1;
            assert(locals@ =~= Seq::new(i as nat, |j: int| OperandItem::Padding));
        }
        proof {
            lemma_first_code_unique(method@.attributes);
        }
        Frame { constant_pool, code, max_stack, pc: 0, operand_stack: Vec::new(), locals }
    }

    /// Pushes `v`, unless the stack is full.
    fn push(&mut self, v: OperandItem) -> (r: Result<(), FrameError>)
        ensures
            final(self).constant_pool == old(self).constant_pool,
            final(self).code == old(self).code,
            final(self).max_stack == old(self).max_stack,
            final(self).pc == old(self).pc,
            final(self).locals == old(self).locals,
            match spec_push(old(self).max_stack as nat, old(self).operand_stack@, v) {
                Ok(st) => r is Ok && final(self).operand_stack@ == st,
                Err(e) => r == Err::<(), FrameError>(e) && final(self).operand_stack
                    == old(self).operand_stack,
            },
    {
        if self.operand_stack.len() >= self.max_stack as usize {
            return Err(FrameError::StackOverflow);
        }
        self.operand_stack.push(v);
        Ok(())
    }

    /// Executes one decoded instruction on the stack and the locals.
    fn apply(&mut self, ins: Instruction) -> (r: Result<Control, FrameError>)
        ensures
            final(self).constant_pool == old(self).constant_pool,
            final(self).code == old(self).code,
            final(self).max_stack == old(self).max_stack,
            final(self).pc == old(self).pc,
            match spec_effect(
                old(self).constant_pool@,
                old(self).max_stack as nat,
                ins,
                old(self).operand_stack@,
                old(self).locals@,
            ) {
                Ok(Effect::Continue(st, lo)) => r matches Ok(Control::Continue)
                    && final(self).operand_stack@ == st && final(self).locals@ == lo,
                Ok(Effect::Invoke(st, lo, i)) => r matches Ok(Control::Invoke(j)) && j == i
                    && final(self).operand_stack@ == st && final(self).locals@ == lo,
                Ok(Effect::Return(st, lo)) => r matches Ok(Control::Return)
                    && final(self).operand_stack@ == st && final(self).locals@ == lo,
                Err(e) => r matches Err(x) && x == e && final(self).operand_stack
                    == old(self).operand_stack && final(self).locals == old(self).locals,
            },
    {
        match ins {
            Instruction::Nop => Ok(Control::Continue),
            Instruction::Iconst(v) => {
                self.push(OperandItem::Integer(v))?;
                Ok(Control::Continue)
            },
            Instruction::Bipush(v) => {
                self.push(OperandItem::Integer(v as i32))?;
                Ok(Control::Continue)
            },
            Instruction::Sipush(v) => {
                self.push(OperandItem::Integer(v as i32))?;
                Ok(Control::Continue)
            },
            Instruction::Ldc(i) => {
                let item = match self.constant_pool.get(i) {
                    Some(Constant::Integer(v)) => OperandItem::Integer(*v),
                    Some(Constant::Float(v)) => OperandItem::Float(*v),
                    Some(Constant::String(_)) => OperandItem::Reference(i),
                    Some(Constant::Class(_)) => OperandItem::Reference(i),
                    _ => return Err(FrameError::InvalidConstant(i)),
                };
                self.push(item)?;
                Ok(Control::Continue)
            },
            Instruction::Iload(n) => {
                if n as usize >= self.locals.len() {
                    return Err(FrameError::InvalidLocal(n));
                }
                match self.locals[n as usize] {
                    OperandItem::Integer(v) => {
                        self.push(OperandItem::Integer(v))?;
                        Ok(Control::Continue)
                    },
                    _ => Err(FrameError::TypeMismatch),
                }
            },
            Instruction::Istore(n) => {
                let len = self.operand_stack.len();
                if len == 0 {
                    return Err(FrameError::StackUnderflow);
                }
                let value = self.operand_stack[len - 1];
                match value {
                    OperandItem::Integer(_) => {},
                    _ => return Err(FrameError::TypeMismatch),
                }
                if n as usize >= self.locals.len() {
                    return Err(FrameError::InvalidLocal(n));
                }
                self.operand_stack.pop();
                assert(self.operand_stack@ =~= old(self).operand_stack@.drop_last());
                self.locals.set(n as usize, value);
                Ok(Control::Continue)
            },
            Instruction::Pop => {
                if self.operand_stack.len() == 0 {
                    return Err(FrameError::StackUnderflow);
                }
                self.operand_stack.pop();
                Ok(Control::Continue)
            },
            Instruction::Iadd => {
                let len = self.operand_stack.len();
                if len < 2 {
                    return Err(FrameError::StackUnderflow);
                }
                match (self.operand_stack[len - 2], self.operand_stack[len - 1]) {
                    (OperandItem::Integer(a), OperandItem::Integer(b)) => {
                        if len - 2 >= self.max_stack as usize {
                            return Err(FrameError::StackOverflow);
                        }
                        self.operand_stack.pop();
                        self.operand_stack.pop();
                        assert(self.operand_stack@ =~= old(self).operand_stack@.take(len - 2));
                        self.push(OperandItem::Integer(a.wrapping_add(b)))?;
                        Ok(Control::Continue)
                    },
                    _ => Err(FrameError::TypeMismatch),
                }
            },
            Instruction::Return => Ok(Control::Return),
            Instruction::Getstatic(i) => {
                let resolved = match self.constant_pool.field(i) {
                    Some((class_index, nametype_index)) => resolve_symbol(
                        self.constant_pool,
                        class_index,
                        nametype_index,
                    ),
                    None => false,
                };
                if resolved {
                    Ok(Control::Continue)
                } else {
                    Err(FrameError::InvalidConstant(i))
                }
            },
            Instruction::Invokevirtual(i) | Instruction::Invokestatic(i) => {
                let resolved = match self.constant_pool.method(i) {
                    Some((class_index, nametype_index)) => resolve_symbol(
                        self.constant_pool,
                        class_index,
                        nametype_index,
                    ),
                    None => false,
                };
                if !resolved {
                    Err(FrameError::InvalidConstant(i))
                } else if let Instruction::Invokestatic(_) = ins {
                    Ok(Control::Invoke(i))
                } else {
                    Ok(Control::Continue)
                }
            },
        }
    }

    /// Interprets instructions from `pc` until the code ends, a `return`, a
    /// call that needs a new activation, or an error.
    pub fn execute(&mut self) -> (r: Result<FrameResult, FrameError>)
        ensures
            final(self).constant_pool == old(self).constant_pool,
            final(self).code == old(self).code,
            final(self).max_stack == old(self).max_stack,
            match spec_run(
                old(self).constant_pool@,
                old(self).code@,
                old(self).max_stack as nat,
                old(self).machine(),
            ) {
                Ok((m, res)) => r == Ok::<FrameResult, FrameError>(res) && final(self).machine() == m,
                Err(e) => r == Err::<FrameResult, FrameError>(e),
            },
            final(self).machine() == spec_run_stop(
                old(self).constant_pool@,
                old(self).code@,
                old(self).max_stack as nat,
                old(self).machine(),
            ),
    {
        let ghost pool = self.constant_pool@;
        let ghost code = self.code@;
        let ghost max_stack = self.max_stack as nat;
        while self.pc < self.code.len()
            invariant
                self.constant_pool == old(self).constant_pool,
                self.code == old(self).code,
                self.max_stack == old(self).max_stack,
                pool == old(self).constant_pool@,
                code == old(self).code@,
                max_stack == old(self).max_stack as nat,
                spec_run(pool, code, max_stack, old(self).machine()) == spec_run(
                    pool,
                    code,
                    max_stack,
                    self.machine(),
                ),
                spec_run_stop(pool, code, max_stack, old(self).machine()) == spec_run_stop(
                    pool,
                    code,
                    max_stack,
                    self.machine(),
                ),
            decreases self.code@.len() - self.pc,
        {
            let (ins, next) = match decode_at(self.code.as_slice(), self.pc) {
                Ok(d) => d,
                Err(e) => return Err(e),
            };
            let control = self.apply(ins)?;
            self.pc = next;
            match control {
                Control::Continue => {},
                Control::Invoke(i) => return Ok(FrameResult::NextFrame(i)),
                Control::Return => return Ok(FrameResult::Finished),
            }
        }
        Ok(FrameResult::Finished)
    }
}

/// Whether a class entry and a name-and-type entry both resolve to text.
fn resolve_symbol(pool: &ConstantPool, class_index: u16, nametype_index: u16) -> (r: bool)
    ensures
        r == symbol_resolves(pool@, class_index, nametype_index),
{
    let class = pool.class(class_index);
    let name_and_type = pool.name_and_type(nametype_index);
    class.is_some() && name_and_type.is_some()
}

/// There is at most one first `Code` attribute.
pub proof fn lemma_first_code_unique(attrs: Seq<AttributeModel>)
    ensures
        forall|i: int, j: int|
            is_first_code(attrs, i) && is_first_code(attrs, j) ==> i == j,
{
    assert forall|i: int, j: int|
        is_first_code(attrs, i) && is_first_code(attrs, j) implies i == j by {
        if i < j {
            assert(attrs[i] is Code);
        } else if j < i {
            assert(attrs[j] is Code);
        }
    }
}

} // verus!
