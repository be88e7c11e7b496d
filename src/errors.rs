use vstd::prelude::*;

verus! {

/// Why a class file could not be loaded.
#[derive(Debug, Clone, Copy, PartialEq, Eq, Structural)]
pub enum ParsingError {
    /// The first four bytes are not `CA FE BA BE`.
    InvalidMagic,
    /// A pool index does not name an entry of the expected kind.
    InvalidIndex,
    /// The data ends before a field that the format requires.
    MissingField,
    /// The constant pool holds an entry with this unrecognised tag.
    UnhandledConstant(u8),
    /// A method's code holds this unrecognised opcode.
    UnhandledOpcode(u8),
}

} // verus!
