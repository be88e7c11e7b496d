//! Loading and execution core of a small Java virtual machine: a class-file
//! parser whose results are stated against byte-level specifications, an
//! instruction decoder, and a stack-machine interpreter.

pub mod errors;
pub mod stream;
pub mod constant_pool;
pub mod attributes;
pub mod classfile;
pub mod instructions;
pub mod frame;
pub mod thread;

pub use errors::ParsingError;
pub use stream::{read_field_u16, read_field_u32, read_field_u8, FromData, FromSeries, FromSlice, Stream};
pub use constant_pool::{read_constant, Constant, ConstantModel, ConstantPool};
pub use attributes::{Attribute, AttributeModel, ExceptionTableEntry, LineNumberTableEntry};
pub use attributes::{read_attribute, read_attributes};
pub use classfile::{ClassAccessFlags, ClassFile, ClassFileModel, Field, FieldAccessFlags, MemberModel, Method, MethodAccessFlags, Version};
pub use instructions::{decode_at, decode_instructions, FrameError, Instruction};
pub use frame::{Frame, FrameResult, Machine, OperandItem};
pub use thread::JavaThread;
