use vstd::prelude::*;
use vstd::slice::slice_to_vec;

use crate::constant_pool::{cut_result, is_prefix_of, decode_text, lemma_prepend_assoc, prepend, lossy_text, pool_utf8, ConstantModel, ConstantPool};
use crate::errors::ParsingError;
use crate::instructions::{decode_instructions, spec_decode_all, FrameError, Instruction};
use crate::stream::{be16, be32, read_field_u16, read_field_u32, FromSlice, Stream};

verus! {

/// One row of a `Code` attribute's exception table.
#[derive(Debug, Clone, Copy, PartialEq, Eq, Structural)]
pub struct ExceptionTableEntry {
    pub start_pc: u16,
    pub end_pc: u16,
    pub handler_pc: u16,
    /// Pool index of the caught class; 0 catches everything.
    pub catch_type: u16,
}

/// One row of a `LineNumberTable` attribute.
#[derive(Debug, Clone, Copy, PartialEq, Eq, Structural)]
pub struct LineNumberTableEntry {
    pub start_pc: u16,
    pub line_number: u16,
}

/// A named, length-framed section attached to a class, a field, a method or a
/// `Code` attribute.
#[derive(Debug)]
pub enum Attribute {
    /// An attribute that is not decoded: only its name is kept.
    Unhandled(String),
    ConstantValue(u16),
    Code {
        max_stack: u16,
        max_locals: u16,
        code: Vec<u8>,
        /// The decoded code, each instruction with its byte offset.
        instructions: Vec<(usize, Instruction)>,
        exceptions: Vec<ExceptionTableEntry>,
        attributes: Vec<Attribute>,
    },
    SourceFile(u16),
    LineNumberTable(Vec<LineNumberTableEntry>),
}

/// What an attribute holds, in mathematical terms.
pub enum AttributeModel {
    Unhandled(Seq<char>),
    ConstantValue(u16),
    Code {
        max_stack: u16,
        max_locals: u16,
        code: Seq<u8>,
        instructions: Seq<(nat, Instruction)>,
        exceptions: Seq<ExceptionTableEntry>,
        attributes: Seq<AttributeModel>,
    },
    SourceFile(u16),
    LineNumberTable(Seq<LineNumberTableEntry>),
}

/// The model of one attribute.
pub open spec fn attr_view(a: &Attribute) -> AttributeModel
    decreases a, 0nat,
{
    match a {
        Attribute::Unhandled(name) => AttributeModel::Unhandled(name@),
        Attribute::ConstantValue(i) => AttributeModel::ConstantValue(*i),
        Attribute::Code { max_stack, max_locals, code, instructions, exceptions, attributes } =>
            AttributeModel::Code {
                max_stack: *max_stack,
                max_locals: *max_locals,
                code: code@,
                instructions: offsets_view(instructions@),
                exceptions: exceptions@,
                attributes: attrs_view(attributes@),
            },
        Attribute::SourceFile(i) => AttributeModel::SourceFile(*i),
        Attribute::LineNumberTable(entries) => AttributeModel::LineNumberTable(entries@),
    }
}

/// Decoded instructions with their offsets as natural numbers.
pub open spec fn offsets_view(v: Seq<(usize, Instruction)>) -> Seq<(nat, Instruction)> {
    Seq::new(v.len(), |i: int| (v[i].0 as nat, v[i].1))
}

/// The models of a sequence of attributes.
pub open spec fn attrs_view(s: Seq<Attribute>) -> Seq<AttributeModel>
    decreases s, s.len(),
{
    if s.len() == 0 {
        Seq::empty()
    } else {
        attrs_view(s.drop_last()).push(attr_view(&s.last()))
    }
}

impl View for Attribute {
    type V = AttributeModel;

    open spec fn view(&self) -> AttributeModel {
        attr_view(self)
    }
}

/// `Code`
pub open spec fn code_name() -> Seq<u8> {
    seq![67u8, 111u8, 100u8, 101u8]
}

/// `ConstantValue`
pub open spec fn constant_value_name() -> Seq<u8> {
    seq![67u8, 111u8, 110u8, 115u8, 116u8, 97u8, 110u8, 116u8, 86u8, 97u8, 108u8, 117u8, 101u8]
}

/// `SourceFile`
pub open spec fn source_file_name() -> Seq<u8> {
    seq![83u8, 111u8, 117u8, 114u8, 99u8, 101u8, 70u8, 105u8, 108u8, 101u8]
}

/// `LineNumberTable`
pub open spec fn line_number_table_name() -> Seq<u8> {
    seq![
        76u8, 105u8, 110u8, 101u8, 78u8, 117u8, 109u8, 98u8, 101u8, 114u8, 84u8, 97u8, 98u8,
        108u8, 101u8,
    ]
}

/// Whether the attribute decoder gives `name` a structure of its own.
pub open spec fn is_known_name(name: Seq<u8>) -> bool {
    name == code_name() || name == constant_value_name() || name == source_file_name() || name
        == line_number_table_name()
}

/// The exception-table row whose eight bytes start at `p`.
pub open spec fn exception_entry_at(s: Seq<u8>, p: int) -> ExceptionTableEntry {
    ExceptionTableEntry {
        start_pc: be16(s, p),
        end_pc: be16(s, p + 2),
        handler_pc: be16(s, p + 4),
        catch_type: be16(s, p + 6),
    }
}

/// The line-number row whose four bytes start at `p`.
pub open spec fn line_entry_at(s: Seq<u8>, p: int) -> LineNumberTableEntry {
    LineNumberTableEntry { start_pc: be16(s, p), line_number: be16(s, p + 2) }
}

/// A count-prefixed exception table starting at `p`.
pub open spec fn spec_exception_table(s: Seq<u8>, p: nat) -> Result<
    (Seq<ExceptionTableEntry>, nat),
    ParsingError,
> {
    if p + 2 > s.len() {
        Err(ParsingError::MissingField)
    } else {
        let n = be16(s, p as int) as nat;
        if p + 2 + 8 * n > s.len() {
            Err(ParsingError::MissingField)
        } else {
            Ok((Seq::new(n, |i: int| exception_entry_at(s, p + 2 + 8 * i)), p + 2 + 8 * n))
        }
    }
}

/// A count-prefixed line-number table starting at `p`.
pub open spec fn spec_line_numbers(s: Seq<u8>, p: nat) -> Result<
    (Seq<LineNumberTableEntry>, nat),
    ParsingError,
> {
    if p + 2 > s.len() {
        Err(ParsingError::MissingField)
    } else {
        let n = be16(s, p as int) as nat;
        if p + 2 + 4 * n > s.len() {
            Err(ParsingError::MissingField)
        } else {
            Ok((Seq::new(n, |i: int| line_entry_at(s, p + 2 + 4 * i)), p + 2 + 4 * n))
        }
    }
}

/// One attribute record starting at `p`: name index, declared length, and
/// that many bytes of payload. The record always ends `6 + length` bytes on.
pub open spec fn spec_attribute(pool: Seq<ConstantModel>, s: Seq<u8>, p: nat) -> Result<
    (AttributeModel, nat),
    ParsingError,
>
    decreases s.len(), 0nat, 0nat,
{
    if p + 6 > s.len() {
        Err(ParsingError::MissingField)
    } else {
        let length = be32(s, p + 2 as int) as nat;
        match pool_utf8(pool, be16(s, p as int) as int) {
            None => Err(ParsingError::InvalidIndex),
            Some(name) => if p + 6 + length > s.len() {
                Err(ParsingError::MissingField)
            } else {
                match spec_attribute_body(
                    pool,
                    name,
                    s.subrange(p + 6 as int, p + 6 + length as int),
                ) {
                    Ok(a) => Ok((a, p + 6 + length)),
                    Err(e) => Err(e),
                }
            },
        }
    }
}

/// The attribute named `name` whose whole payload is `b`. Debug information
/// never fails a load: a line-number table that does not decode is kept as
/// an opaque marker.
pub open spec fn spec_attribute_body(pool: Seq<ConstantModel>, name: Seq<u8>, b: Seq<u8>) -> Result<
    AttributeModel,
    ParsingError,
>
    decreases b.len(), 3nat, 0nat,
{
    if name == code_name() {
        spec_code(pool, b)
    } else if name == constant_value_name() {
        if b.len() < 2 {
            Err(ParsingError::MissingField)
        } else {
            Ok(AttributeModel::ConstantValue(be16(b, 0)))
        }
    } else if name == source_file_name() {
        if b.len() < 2 {
            Err(ParsingError::MissingField)
        } else {
            Ok(AttributeModel::SourceFile(be16(b, 0)))
        }
    } else if name == line_number_table_name() {
        match spec_line_numbers(b, 0) {
            Ok((entries, _)) => Ok(AttributeModel::LineNumberTable(entries)),
            Err(_) => Ok(AttributeModel::Unhandled(lossy_text(name))),
        }
    } else {
        Ok(AttributeModel::Unhandled(lossy_text(name)))
    }
}

/// A `Code` payload: stack and locals limits, the code bytes, which must
/// decode as a whole (an unknown opcode cannot be skipped), the exception
/// table and the nested attributes. Bytes after them are ignored.
pub open spec fn spec_code(pool: Seq<ConstantModel>, b: Seq<u8>) -> Result<
    AttributeModel,
    ParsingError,
>
    decreases b.len(), 2nat, 0nat,
{
    if b.len() < 8 {
        Err(ParsingError::MissingField)
    } else {
        let end = 8 + be32(b, 4) as nat;
        if end > b.len() {
            Err(ParsingError::MissingField)
        } else {
            match spec_decode_all(b.subrange(8, end as int), 0) {
                Err(FrameError::UnhandledOpcode(op)) => Err(ParsingError::UnhandledOpcode(op)),
                Err(_) => Err(ParsingError::MissingField),
                Ok(instructions) => match spec_exception_table(b, end) {
                    Err(e) => Err(e),
                    Ok((exceptions, q)) => match spec_attributes(pool, b, q) {
                        Err(e) => Err(e),
                        Ok((attributes, _)) => Ok(
                            AttributeModel::Code {
                                max_stack: be16(b, 0),
                                max_locals: be16(b, 2),
                                code: b.subrange(8, end as int),
                                instructions,
                                exceptions,
                                attributes,
                            },
                        ),
                    },
                },
            }
        }
    }
}

/// A count-prefixed attribute list starting at `p`.
pub open spec fn spec_attributes(pool: Seq<ConstantModel>, s: Seq<u8>, p: nat) -> Result<
    (Seq<AttributeModel>, nat),
    ParsingError,
>
    decreases s.len(), 1nat, 0nat,
{
    if p + 2 > s.len() {
        Err(ParsingError::MissingField)
    } else {
        spec_attribute_list(pool, s, p + 2, be16(s, p as int) as nat)
    }
}

/// `n` attribute records in a row, starting at `p`.
pub open spec fn spec_attribute_list(
    pool: Seq<ConstantModel>,
    s: Seq<u8>,
    p: nat,
    n: nat,
) -> Result<(Seq<AttributeModel>, nat), ParsingError>
    decreases s.len(), 0nat, n + 1,
{
    if n == 0 {
        Ok((Seq::empty(), p))
    } else {
        match spec_attribute(pool, s, p) {
            Err(e) => Err(e),
            Ok((a, q)) => prepend(seq![a], spec_attribute_list(pool, s, q, (n - 1) as nat)),
        }
    }
}

impl FromSlice for ExceptionTableEntry {
    open spec fn parsed_from(
        s: Seq<u8>,
        p: nat,
        r: Result<ExceptionTableEntry, ParsingError>,
        s2: Seq<u8>,
        q: nat,
    ) -> bool {
        &&& s2 == s
        &&& p + 8 <= s.len() ==> r == Ok::<ExceptionTableEntry, ParsingError>(
            exception_entry_at(s, p as int),
        ) && q == p + 8
        &&& p + 8 > s.len() ==> r == Err::<ExceptionTableEntry, ParsingError>(
            ParsingError::MissingField,
        )
    }

    fn parse(stream: &mut Stream) -> (r: Result<ExceptionTableEntry, ParsingError>) {
        let start_pc = read_field_u16(stream)?;
        let end_pc = read_field_u16(stream)?;
        let handler_pc = read_field_u16(stream)?;
        let catch_type = read_field_u16(stream)?;
        Ok(ExceptionTableEntry { start_pc, end_pc, handler_pc, catch_type })
    }
}

/// Reads a count-prefixed exception table.
fn read_exception_table(stream: &mut Stream) -> (r: Result<Vec<ExceptionTableEntry>, ParsingError>)
    ensures
        final(stream).bytes() == old(stream).bytes(),
        match spec_exception_table(old(stream).bytes(), old(stream).pos()) {
            Ok((es, q)) => r matches Ok(v) && v@ == es && final(stream).pos() == q,
            Err(e) => r == Err::<Vec<ExceptionTableEntry>, ParsingError>(e),
        },
{
    let ghost s = stream.bytes();
    let ghost p = stream.pos();
    let count = read_field_u16(stream)?;
    let mut exceptions: Vec<ExceptionTableEntry> = Vec::new();
    let mut i: u16 = 0;
    while i < count
        invariant
            s == old(stream).bytes(),
            p == old(stream).pos(),
            stream.bytes() == s,
            count == be16(s, p as int),
            p + 2 <= s.len(),
            stream.pos() <= s.len(),
            i <= count,
            stream.pos() == p + 2 + 8 * i,
            exceptions@ == Seq::new(i as nat, |j: int| exception_entry_at(s, p + 2 + 8 * j)),
        decreases count - i,
    {
        let e = stream.read_element::<ExceptionTableEntry>()?;
        exceptions.push(e);
        i = i + 1;
        assert(exceptions@ =~= Seq::new(i as nat, |j: int| exception_entry_at(s, p + 2 + 8 * j)));
    }
    Ok(exceptions)
}

/// Reads a count-prefixed line-number table.
fn read_line_numbers(stream: &mut Stream) -> (r: Result<Vec<LineNumberTableEntry>, ParsingError>)
    ensures
        final(stream).bytes() == old(stream).bytes(),
        match spec_line_numbers(old(stream).bytes(), old(stream).pos()) {
            Ok((es, q)) => r matches Ok(v) && v@ == es && final(stream).pos() == q,
            Err(e) => r == Err::<Vec<LineNumberTableEntry>, ParsingError>(e),
        },
{
    let ghost s = stream.bytes();
    let ghost p = stream.pos();
    let count = read_field_u16(stream)?;
    let mut entries: Vec<LineNumberTableEntry> = Vec::new();
    let mut i: u16 = 0;
    while i < count
        invariant
            s == old(stream).bytes(),
            p == old(stream).pos(),
            stream.bytes() == s,
            count == be16(s, p as int),
            p + 2 <= s.len(),
            stream.pos() <= s.len(),
            i <= count,
            stream.pos() == p + 2 + 4 * i,
            entries@ == Seq::new(i as nat, |j: int| line_entry_at(s, p + 2 + 4 * j)),
        decreases count - i,
    {
        let start_pc = read_field_u16(stream)?;
        let line_number = read_field_u16(stream)?;
        entries.push(LineNumberTableEntry { start_pc, line_number });
        i = i + 1;
        assert(entries@ =~= Seq::new(i as nat, |j: int| line_entry_at(s, p + 2 + 4 * j)));
    }
    Ok(entries)
}

/// Whether `name` holds exactly the bytes of `expected`.
pub(crate) fn name_is(name: &[u8], expected: &[u8]) -> (r: bool)
    ensures
        r == (name@ == expected@),
{
    if name.len() != expected.len() {
        return false;
    }
    let mut i: usize = 0;
    while i < name.len()
        invariant
            name@.len() == expected@.len(),
            i <= name@.len(),
            name@.subrange(0, i as int) == expected@.subrange(0, i as int),
        decreases name@.len() - i,
    {
        if name[i] != expected[i] {
            return false;
        }
        assert(name@.subrange(0, i + 1) =~= name@.subrange(0, i as int).push(name@[i as int]));
        assert(expected@.subrange(0, i + 1) =~= expected@.subrange(0, i as int).push(
            expected@[i as int],
        ));
        i = i + 1;
    }
    assert(name@ =~= name@.subrange(0, i as int));
    assert(expected@ =~= expected@.subrange(0, i as int));
    true
}

/// Reads one attribute record: its name index, its declared length, and a
/// payload of exactly that length, decoded by name. A name that is not known
/// gives an `Unhandled` marker and its payload is skipped.
pub fn read_attribute(stream: &mut Stream, pool: &ConstantPool) -> (r: Result<Attribute, ParsingError>)
    ensures
        final(stream).bytes() == old(stream).bytes(),
        match spec_attribute(pool@, old(stream).bytes(), old(stream).pos()) {
            Ok((a, q)) => r matches Ok(x) && x@ == a && final(stream).pos() == q,
            Err(e) => r == Err::<Attribute, ParsingError>(e),
        },
        r is Ok ==> final(stream).pos() == old(stream).pos() + 6 + be32(
            old(stream).bytes(),
            old(stream).pos() + 2 as int,
        ),
        ({
            let s = old(stream).bytes();
            let p = old(stream).pos();
            let length = be32(s, p + 2 as int);
            p + 6 + length <= s.len() ==> match pool_utf8(pool@, be16(s, p as int) as int) {
                Some(name) => !is_known_name(name) ==> (r matches Ok(Attribute::Unhandled(t))
                    && t@ == lossy_text(name) && final(stream).pos() == p + 6 + length),
                None => true,
            }
        }),
    decreases old(stream).bytes().len(), 0nat, 0nat,
{
    let name_index = read_field_u16(stream)?;
    let length = read_field_u32(stream)?;
    let name = match pool.utf8_bytes(name_index) {
        Some(n) => n,
        None => return Err(ParsingError::InvalidIndex),
    };
    let payload = match stream.read_bytes(length as usize) {
        Some(b) => b,
        None => return Err(ParsingError::MissingField),
    };
    decode_body(pool, name.as_slice(), payload)
}

/// Decodes the payload of an attribute by its name.
fn decode_body(pool: &ConstantPool, name: &[u8], payload: &[u8]) -> (r: Result<
    Attribute,
    ParsingError,
>)
    ensures
        match spec_attribute_body(pool@, name@, payload@) {
            Ok(a) => r matches Ok(x) && x@ == a,
            Err(e) => r == Err::<Attribute, ParsingError>(e),
        },
    decreases payload@.len(), 3nat, 0nat,
{
    let code: [u8; 4] = [67, 111, 100, 101];
    let constant_value: [u8; 13] = [67, 111, 110, 115, 116, 97, 110, 116, 86, 97, 108, 117, 101];
    let source_file: [u8; 10] = [83, 111, 117, 114, 99, 101, 70, 105, 108, 101];
    let line_number_table: [u8; 15] = [
        76, 105, 110, 101, 78, 117, 109, 98, 101, 114, 84, 97, 98, 108, 101,
    ];
    assert(code@ =~= code_name());
    assert(constant_value@ =~= constant_value_name());
    assert(source_file@ =~= source_file_name());
    assert(line_number_table@ =~= line_number_table_name());
    let mut sub = Stream::new(payload);
    if name_is(name, code.as_slice()) {
        read_code(pool, payload)
    } else if name_is(name, constant_value.as_slice()) {
        let index = read_field_u16(&mut sub)?;
        Ok(Attribute::ConstantValue(index))
    } else if name_is(name, source_file.as_slice()) {
        let index = read_field_u16(&mut sub)?;
        Ok(Attribute::SourceFile(index))
    } else if name_is(name, line_number_table.as_slice()) {
        match read_line_numbers(&mut sub) {
            Ok(entries) => Ok(Attribute::LineNumberTable(entries)),
            Err(_) => Ok(Attribute::Unhandled(decode_text(name))),
        }
    } else {
        Ok(Attribute::Unhandled(decode_text(name)))
    }
}

/// Decodes a `Code` payload.
fn read_code(pool: &ConstantPool, payload: &[u8]) -> (r: Result<Attribute, ParsingError>)
    ensures
        match spec_code(pool@, payload@) {
            Ok(a) => r matches Ok(x) && x@ == a,
            Err(e) => r == Err::<Attribute, ParsingError>(e),
        },
    decreases payload@.len(), 2nat, 0nat,
{
    let mut sub = Stream::new(payload);
    let max_stack = read_field_u16(&mut sub)?;
    let max_locals = read_field_u16(&mut sub)?;
    let code_length = read_field_u32(&mut sub)?;
    let code_bytes = match sub.read_bytes(code_length as usize) {
        Some(c) => c,
        None => return Err(ParsingError::MissingField),
    };
    let instructions = match decode_instructions(code_bytes) {
        Ok(v) => v,
        Err(FrameError::UnhandledOpcode(op)) => return Err(ParsingError::UnhandledOpcode(op)),
        Err(_) => return Err(ParsingError::MissingField),
    };
    proof {
        if let Ok(v) = spec_decode_all(code_bytes@, 0) {
            assert(offsets_view(instructions@) =~= v);
        }
    }
    let code = slice_to_vec(code_bytes);
    let exceptions = read_exception_table(&mut sub)?;
    let attributes = read_attributes(&mut sub, pool)?;
    Ok(Attribute::Code { max_stack, max_locals, code, instructions, exceptions, attributes })
}

/// Reads a count-prefixed list of attribute records.
pub fn read_attributes(stream: &mut Stream, pool: &ConstantPool) -> (r: Result<
    Vec<Attribute>,
    ParsingError,
>)
    ensures
        final(stream).bytes() == old(stream).bytes(),
        match spec_attributes(pool@, old(stream).bytes(), old(stream).pos()) {
            Ok((v, q)) => r matches Ok(x) && attrs_view(x@) == v && final(stream).pos() == q,
            Err(e) => r == Err::<Vec<Attribute>, ParsingError>(e),
        },
    decreases old(stream).bytes().len(), 1nat, 0nat,
{
    let ghost s = stream.bytes();
    let ghost p = stream.pos();
    let count = read_field_u16(stream)?;
    let mut attributes: Vec<Attribute> = Vec::new();
    let mut i: u16 = 0;
    while i < count
        invariant
            s == old(stream).bytes(),
            p == old(stream).pos(),
            stream.bytes() == s,
            p + 2 <= s.len(),
            count == be16(s, p as int),
            i <= count,
            spec_attributes(pool@, s, p) == prepend(
                attrs_view(attributes@),
                spec_attribute_list(pool@, s, stream.pos(), (count - i) as nat),
            ),
        decreases count - i,
    {
        let ghost before = attrs_view(attributes@);
        let ghost pos = stream.pos();
        let a = match read_attribute(stream, pool) {
            Ok(a) => a,
            Err(e) => {
                assert(spec_attribute_list(pool@, s, pos, (count - i) as nat) == Err::<
                    (Seq<AttributeModel>, nat),
                    ParsingError,
                >(e));
                return Err(e);
            },
        };
        let ghost q = stream.pos();
        let ghost av = a@;
        let ghost prev = attributes@;
        attributes.push(a);
        assert(attributes@.drop_last() =~= prev);
        assert(attrs_view(attributes@) =~= before + seq![av]);
        proof {
            lemma_prepend_assoc(
                before,
                seq![av],
                spec_attribute_list(pool@, s, q, (count - i - 1) as nat),
            );
        }
        i = i + 1;
    }
    Ok(attributes)
}

/// An attribute record read from a prefix of its input.
pub proof fn lemma_attribute_prefix(pool: Seq<ConstantModel>, s: Seq<u8>, t: Seq<u8>, p: nat)
    requires
        is_prefix_of(t, s),
        spec_attribute(pool, s, p) is Ok,
    ensures
        spec_attribute(pool, s, p)->Ok_0.1 >= p,
        p <= t.len() ==> spec_attribute(pool, t, p) == cut_result(
            spec_attribute(pool, s, p),
            t.len(),
        ),
{
    let q: int = p as int;
    if q + 6 <= t.len() {
        assert(t[q] == s[q] && t[q + 1] == s[q + 1] && t[q + 2] == s[q + 2]);
        assert(t[q + 3] == s[q + 3] && t[q + 4] == s[q + 4] && t[q + 5] == s[q + 5]);
        let length = be32(s, q + 2) as int;
        if q + 6 + length <= t.len() {
            assert(t.subrange(q + 6, q + 6 + length) =~= s.subrange(q + 6, q + 6 + length));
        }
    }
}

/// A run of attribute records read from a prefix of its input.
pub proof fn lemma_attribute_list_prefix(
    pool: Seq<ConstantModel>,
    s: Seq<u8>,
    t: Seq<u8>,
    p: nat,
    n: nat,
)
    requires
        is_prefix_of(t, s),
        spec_attribute_list(pool, s, p, n) is Ok,
    ensures
        spec_attribute_list(pool, s, p, n)->Ok_0.1 >= p,
        p <= t.len() ==> spec_attribute_list(pool, t, p, n) == cut_result(
            spec_attribute_list(pool, s, p, n),
            t.len(),
        ),
    decreases n,
{
    if n > 0 {
        lemma_attribute_prefix(pool, s, t, p);
        let q = spec_attribute(pool, s, p)->Ok_0.1;
        lemma_attribute_list_prefix(pool, s, t, q, (n - 1) as nat);
    }
}

/// A count-prefixed attribute list read from a prefix of its input.
pub proof fn lemma_attributes_prefix(pool: Seq<ConstantModel>, s: Seq<u8>, t: Seq<u8>, p: nat)
    requires
        is_prefix_of(t, s),
        spec_attributes(pool, s, p) is Ok,
    ensures
        spec_attributes(pool, s, p)->Ok_0.1 >= p,
        p <= t.len() ==> spec_attributes(pool, t, p) == cut_result(
            spec_attributes(pool, s, p),
            t.len(),
        ),
{
    let q: int = p as int;
    if q + 2 <= t.len() {
        assert(t[q] == s[q] && t[q + 1] == s[q + 1]);
    }
    lemma_attribute_list_prefix(pool, s, t, p + 2, be16(s, q) as nat);
}

} // verus!
