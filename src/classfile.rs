use vstd::prelude::*;
use vstd::slice::{slice_subrange, slice_to_vec};

use crate::attributes::{
    lemma_attributes_prefix, name_is, attr_view, attrs_view, read_attributes, spec_attributes, Attribute, AttributeModel,
};
use crate::constant_pool::{
    encode_slots, lemma_pool_round_trip, lemma_be16_bytes, u16_bytes, cut_result, is_prefix_of, lemma_slots_prefix, slot_count, lemma_prepend_assoc, pool_utf8, prepend, spec_pool, ConstantModel, ConstantPool,
};
use crate::errors::ParsingError;
use crate::stream::{be16, be32, read_field_u16, read_field_u32, FromSlice, Stream};

verus! {

/// The class-file format version.
#[derive(Debug, Clone, Copy, PartialEq, Eq, Structural)]
pub struct Version {
    pub major: u16,
    pub minor: u16,
}

impl FromSlice for Version {
    open spec fn parsed_from(
        s: Seq<u8>,
        p: nat,
        r: Result<Version, ParsingError>,
        s2: Seq<u8>,
        q: nat,
    ) -> bool {
        &&& s2 == s
        &&& p + 4 <= s.len() ==> r == Ok::<Version, ParsingError>(
            Version { minor: be16(s, p as int), major: be16(s, p + 2 as int) },
        ) && q == p + 4
        &&& p + 4 > s.len() ==> r == Err::<Version, ParsingError>(ParsingError::MissingField)
    }

    /// Reads the minor version, then the major version.
    fn parse(stream: &mut Stream) -> (r: Result<Version, ParsingError>) {
        let minor = read_field_u16(stream)?;
        let major = read_field_u16(stream)?;
        Ok(Version { major, minor })
    }
}

/// Access flags of a class, kept verbatim.
#[derive(Debug, Clone, Copy, PartialEq, Eq, Structural)]
pub struct ClassAccessFlags {
    pub bits: u16,
}

/// Access flags of a field, kept verbatim.
#[derive(Debug, Clone, Copy, PartialEq, Eq, Structural)]
pub struct FieldAccessFlags {
    pub bits: u16,
}

/// Access flags of a method, kept verbatim.
#[derive(Debug, Clone, Copy, PartialEq, Eq, Structural)]
pub struct MethodAccessFlags {
    pub bits: u16,
}

/// A field declared by the class.
#[derive(Debug)]
pub struct Field {
    pub access_flags: FieldAccessFlags,
    pub name_index: u16,
    pub descriptor_index: u16,
    pub attributes: Vec<Attribute>,
}

/// A method declared by the class.
#[derive(Debug)]
pub struct Method {
    pub access_flags: MethodAccessFlags,
    pub name_index: u16,
    pub descriptor_index: u16,
    pub attributes: Vec<Attribute>,
}

/// A field or a method record, in mathematical terms.
pub struct MemberModel {
    pub access_flags: u16,
    pub name_index: u16,
    pub descriptor_index: u16,
    pub attributes: Seq<AttributeModel>,
}

impl View for Field {
    type V = MemberModel;

    open spec fn view(&self) -> MemberModel {
        MemberModel {
            access_flags: self.access_flags.bits,
            name_index: self.name_index,
            descriptor_index: self.descriptor_index,
            attributes: attrs_view(self.attributes@),
        }
    }
}

impl View for Method {
    type V = MemberModel;

    open spec fn view(&self) -> MemberModel {
        MemberModel {
            access_flags: self.access_flags.bits,
            name_index: self.name_index,
            descriptor_index: self.descriptor_index,
            attributes: attrs_view(self.attributes@),
        }
    }
}

/// The models of a sequence of fields.
pub open spec fn fields_view(s: Seq<Field>) -> Seq<MemberModel> {
    s.map_values(|f: Field| f@)
}

/// The models of a sequence of methods.
pub open spec fn methods_view(s: Seq<Method>) -> Seq<MemberModel> {
    s.map_values(|m: Method| m@)
}

/// A loaded class file, in mathematical terms.
pub struct ClassFileModel {
    pub version: Version,
    pub constant_pool: Seq<ConstantModel>,
    pub access_flags: u16,
    pub this_class: u16,
    pub super_class: u16,
    pub interfaces: Seq<u16>,
    pub fields: Seq<MemberModel>,
    pub methods: Seq<MemberModel>,
    pub attributes: Seq<AttributeModel>,
}

/// A field or method record starting at `p`: flags, name index, descriptor
/// index, attributes.
pub open spec fn spec_member(pool: Seq<ConstantModel>, s: Seq<u8>, p: nat) -> Result<
    (MemberModel, nat),
    ParsingError,
> {
    if p + 6 > s.len() {
        Err(ParsingError::MissingField)
    } else {
        match spec_attributes(pool, s, p + 6) {
            Err(e) => Err(e),
            Ok((attributes, q)) => Ok(
                (
                    MemberModel {
                        access_flags: be16(s, p as int),
                        name_index: be16(s, p + 2 as int),
                        descriptor_index: be16(s, p + 4 as int),
                        attributes,
                    },
                    q,
                ),
            ),
        }
    }
}

/// `n` member records in a row, starting at `p`.
pub open spec fn spec_member_list(pool: Seq<ConstantModel>, s: Seq<u8>, p: nat, n: nat) -> Result<
    (Seq<MemberModel>, nat),
    ParsingError,
>
    decreases n,
{
    if n == 0 {
        Ok((Seq::empty(), p))
    } else {
        match spec_member(pool, s, p) {
            Err(e) => Err(e),
            Ok((m, q)) => prepend(seq![m], spec_member_list(pool, s, q, (n - 1) as nat)),
        }
    }
}

/// A count-prefixed list of member records starting at `p`.
pub open spec fn spec_members(pool: Seq<ConstantModel>, s: Seq<u8>, p: nat) -> Result<
    (Seq<MemberModel>, nat),
    ParsingError,
> {
    if p + 2 > s.len() {
        Err(ParsingError::MissingField)
    } else {
        spec_member_list(pool, s, p + 2, be16(s, p as int) as nat)
    }
}

/// A count-prefixed list of interface indices starting at `p`.
pub open spec fn spec_interfaces(s: Seq<u8>, p: nat) -> Result<(Seq<u16>, nat), ParsingError> {
    if p + 2 > s.len() {
        Err(ParsingError::MissingField)
    } else {
        let n = be16(s, p as int) as nat;
        if p + 2 + 2 * n > s.len() {
            Err(ParsingError::MissingField)
        } else {
            Ok((Seq::new(n, |i: int| be16(s, p + 2 + 2 * i)), p + 2 + 2 * n))
        }
    }
}

/// The `CA FE BA BE` that opens every class file.
pub const MAGIC: u32 = 0xCAFEBABE;

/// The class file that `s` holds, and where its last record ends. Bytes after
/// that are not read.
pub open spec fn spec_class(s: Seq<u8>) -> Result<(ClassFileModel, nat), ParsingError> {
    if s.len() < 4 || be32(s, 0) != MAGIC {
        Err(ParsingError::InvalidMagic)
    } else if s.len() < 10 {
        Err(ParsingError::MissingField)
    } else {
        match spec_pool(s, 10, be16(s, 8)) {
            Err(e) => Err(e),
            Ok((pool, pool_end)) => spec_class_rest(s, pool, pool_end),
        }
    }
}

/// What follows the constant pool `pool`, which ends at `pool_end`.
#[verifier::opaque]
pub open spec fn spec_class_rest(s: Seq<u8>, pool: Seq<ConstantModel>, pool_end: nat) -> Result<
    (ClassFileModel, nat),
    ParsingError,
> {
    if pool_end + 6 > s.len() {
        Err(ParsingError::MissingField)
    } else {
        match spec_interfaces(s, pool_end + 6) {
            Err(e) => Err(e),
            Ok((interfaces, interfaces_end)) => match spec_members(pool, s, interfaces_end) {
                Err(e) => Err(e),
                Ok((fields, fields_end)) => match spec_members(pool, s, fields_end) {
                    Err(e) => Err(e),
                    Ok((methods, methods_end)) => match spec_attributes(pool, s, methods_end) {
                        Err(e) => Err(e),
                        Ok((attributes, end)) => Ok(
                            (
                                ClassFileModel {
                                    version: Version { minor: be16(s, 4), major: be16(s, 6) },
                                    constant_pool: pool,
                                    access_flags: be16(s, pool_end as int),
                                    this_class: be16(s, pool_end + 2 as int),
                                    super_class: be16(s, pool_end + 4 as int),
                                    interfaces,
                                    fields,
                                    methods,
                                    attributes,
                                },
                                end,
                            ),
                        ),
                    },
                },
            },
        }
    }
}

/// The first `Code` attribute of `attrs` sits at `i`.
pub open spec fn is_first_code(attrs: Seq<AttributeModel>, i: int) -> bool {
    &&& 0 <= i < attrs.len()
    &&& attrs[i] is Code
    &&& forall|j: int| 0 <= j < i ==> !(#[trigger] attrs[j] is Code)
}

/// The models of `s`, element by element.
pub proof fn lemma_attrs_view_index(s: Seq<Attribute>)
    ensures
        attrs_view(s).len() == s.len(),
        forall|i: int| 0 <= i < s.len() ==> #[trigger] attrs_view(s)[i] == attr_view(&s[i]),
    decreases s.len(),
{
    if s.len() > 0 {
        lemma_attrs_view_index(s.drop_last());
    }
}

impl Field {
    /// Reads a field record.
    pub fn parse(stream: &mut Stream, constant_pool: &ConstantPool) -> (r: Result<Field, ParsingError>)
        ensures
            final(stream).bytes() == old(stream).bytes(),
            match spec_member(constant_pool@, old(stream).bytes(), old(stream).pos()) {
                Ok((m, q)) => r matches Ok(f) && f@ == m && final(stream).pos() == q,
                Err(e) => r == Err::<Field, ParsingError>(e),
            },
    {
        let bits = read_field_u16(stream)?;
        let name_index = read_field_u16(stream)?;
        let descriptor_index = read_field_u16(stream)?;
        let attributes = read_attributes(stream, constant_pool)?;
        Ok(Field {
            access_flags: FieldAccessFlags { bits },
            name_index,
            descriptor_index,
            attributes,
        })
    }
}

impl Method {
    /// Reads a method record.
    pub fn parse(stream: &mut Stream, constant_pool: &ConstantPool) -> (r: Result<Method, ParsingError>)
        ensures
            final(stream).bytes() == old(stream).bytes(),
            match spec_member(constant_pool@, old(stream).bytes(), old(stream).pos()) {
                Ok((m, q)) => r matches Ok(f) && f@ == m && final(stream).pos() == q,
                Err(e) => r == Err::<Method, ParsingError>(e),
            },
    {
        let bits = read_field_u16(stream)?;
        let name_index = read_field_u16(stream)?;
        let descriptor_index = read_field_u16(stream)?;
        let attributes = read_attributes(stream, constant_pool)?;
        Ok(Method {
            access_flags: MethodAccessFlags { bits },
            name_index,
            descriptor_index,
            attributes,
        })
    }

    /// The stack and locals limits of the method's first `Code` attribute.
    pub fn maxs(&self) -> (r: Option<(u16, u16)>)
        ensures
            match r {
                Some((ms, ml)) => exists|i: int|
                    is_first_code(self@.attributes, i) && ((#[trigger] self@.attributes[i]) matches AttributeModel::Code { max_stack, max_locals, .. }
                        && max_stack == ms && max_locals == ml),
                None => forall|i: int|
                    0 <= i < self@.attributes.len() ==> !(#[trigger] self@.attributes[i] is Code),
            },
    {
        proof {
            lemma_attrs_view_index(self.attributes@);
        }
        let mut i: usize = 0;
        while i < self.attributes.len()
            invariant
                i <= self.attributes@.len(),
                self@.attributes.len() == self.attributes@.len(),
                forall|k: int| 0 <= k < self.attributes@.len() ==> #[trigger] self@.attributes[k] == attr_view(&self.attributes@[k]),
                forall|j: int| 0 <= j < i ==> !(#[trigger] self@.attributes[j] is Code),
            decreases self.attributes@.len() - i,
        {
            if let Attribute::Code { max_stack, max_locals, .. } = &self.attributes[i] {
                assert(is_first_code(self@.attributes, i as int));
                return Some((*max_stack, *max_locals));
            }
            i = i + 1;
        }
        None
    }

    /// The code bytes of the method's first `Code` attribute; none for an
    /// abstract or native method.
    pub fn code(&self) -> (r: Option<Vec<u8>>)
        ensures
            match r {
                Some(c) => exists|i: int|
                    is_first_code(self@.attributes, i) && ((#[trigger] self@.attributes[i]) matches AttributeModel::Code { code, .. }
                        && code == c@),
                None => forall|i: int|
                    0 <= i < self@.attributes.len() ==> !(#[trigger] self@.attributes[i] is Code),
            },
    {
        proof {
            lemma_attrs_view_index(self.attributes@);
        }
        let mut i: usize = 0;
        while i < self.attributes.len()
            invariant
                i <= self.attributes@.len(),
                self@.attributes.len() == self.attributes@.len(),
                forall|k: int| 0 <= k < self.attributes@.len() ==> #[trigger] self@.attributes[k] == attr_view(&self.attributes@[k]),
                forall|j: int| 0 <= j < i ==> !(#[trigger] self@.attributes[j] is Code),
            decreases self.attributes@.len() - i,
        {
            if let Attribute::Code { code, .. } = &self.attributes[i] {
                assert(is_first_code(self@.attributes, i as int));
                return Some(slice_to_vec(code.as_slice()));
            }
            i = i + 1;
        }
        None
    }
}

/// Reads a count-prefixed list of interface indices.
fn read_interfaces(stream: &mut Stream) -> (r: Result<Vec<u16>, ParsingError>)
    ensures
        final(stream).bytes() == old(stream).bytes(),
        match spec_interfaces(old(stream).bytes(), old(stream).pos()) {
            Ok((v, q)) => r matches Ok(x) && x@ == v && final(stream).pos() == q,
            Err(e) => r == Err::<Vec<u16>, ParsingError>(e),
        },
{
    let ghost s = stream.bytes();
    let ghost p = stream.pos();
    let count = read_field_u16(stream)?;
    let mut interfaces: Vec<u16> = Vec::new();
    let mut i: u16 = 0;
    while i < count
        invariant
            s == old(stream).bytes(),
            p == old(stream).pos(),
            stream.bytes() == s,
            count == be16(s, p as int),
            p + 2 <= s.len(),
            stream.pos() <= s.len(),
            i <= count,
            stream.pos() == p + 2 + 2 * i,
            interfaces@ == Seq::new(i as nat, |j: int| be16(s, p + 2 + 2 * j)),
        decreases count - i,
    {
        let index = read_field_u16(stream)?;
        interfaces.push(index);
        i = i + 1;
        assert(interfaces@ =~= Seq::new(i as nat, |j: int| be16(s, p + 2 + 2 * j)));
    }
    Ok(interfaces)
}

/// Reads a count-prefixed list of field records.
fn read_fields(stream: &mut Stream, pool: &ConstantPool) -> (r: Result<Vec<Field>, ParsingError>)
    ensures
        final(stream).bytes() == old(stream).bytes(),
        match spec_members(pool@, old(stream).bytes(), old(stream).pos()) {
            Ok((v, q)) => r matches Ok(x) && fields_view(x@) == v && final(stream).pos() == q,
            Err(e) => r == Err::<Vec<Field>, ParsingError>(e),
        },
{
    let ghost s = stream.bytes();
    let ghost p = stream.pos();
    let count = read_field_u16(stream)?;
    let mut fields: Vec<Field> = Vec::new();
    let mut i: u16 = 0;
    while i < count
        invariant
            s == old(stream).bytes(),
            p == old(stream).pos(),
            stream.bytes() == s,
            p + 2 <= s.len(),
            count == be16(s, p as int),
            i <= count,
            spec_members(pool@, s, p) == prepend(
                fields_view(fields@),
                spec_member_list(pool@, s, stream.pos(), (count - i) as nat),
            ),
        decreases count - i,
    {
        let ghost before = fields_view(fields@);
        let ghost pos = stream.pos();
        let f = match Field::parse(stream, pool) {
            Ok(f) => f,
            Err(e) => {
                assert(spec_member_list(pool@, s, pos, (count - i) as nat) == Err::<
                    (Seq<MemberModel>, nat),
                    ParsingError,
                >(e));
                return Err(e);
            },
        };
        let ghost q = stream.pos();
        let ghost fv = f@;
        fields.push(f);
        assert(fields_view(fields@) =~= before + seq![fv]);
        proof {
            lemma_prepend_assoc(
                before,
                seq![fv],
                spec_member_list(pool@, s, q, (count - i - 1) as nat),
            );
        }
        i = i + 1;
    }
    Ok(fields)
}

/// Reads a count-prefixed list of method records.
fn read_methods(stream: &mut Stream, pool: &ConstantPool) -> (r: Result<Vec<Method>, ParsingError>)
    ensures
        final(stream).bytes() == old(stream).bytes(),
        match spec_members(pool@, old(stream).bytes(), old(stream).pos()) {
            Ok((v, q)) => r matches Ok(x) && methods_view(x@) == v && final(stream).pos() == q,
            Err(e) => r == Err::<Vec<Method>, ParsingError>(e),
        },
{
    let ghost s = stream.bytes();
    let ghost p = stream.pos();
    let count = read_field_u16(stream)?;
    let mut methods: Vec<Method> = Vec::new();
    let mut i: u16 = 0;
    while i < count
        invariant
            s == old(stream).bytes(),
            p == old(stream).pos(),
            stream.bytes() == s,
            p + 2 <= s.len(),
            count == be16(s, p as int),
            i <= count,
            spec_members(pool@, s, p) == prepend(
                methods_view(methods@),
                spec_member_list(pool@, s, stream.pos(), (count - i) as nat),
            ),
        decreases count - i,
    {
        let ghost before = methods_view(methods@);
        let ghost pos = stream.pos();
        let m = match Method::parse(stream, pool) {
            Ok(m) => m,
            Err(e) => {
                assert(spec_member_list(pool@, s, pos, (count - i) as nat) == Err::<
                    (Seq<MemberModel>, nat),
                    ParsingError,
                >(e));
                return Err(e);
            },
        };
        let ghost q = stream.pos();
        let ghost mv = m@;
        methods.push(m);
        assert(methods_view(methods@) =~= before + seq![mv]);
        proof {
            lemma_prepend_assoc(
                before,
                seq![mv],
                spec_member_list(pool@, s, q, (count - i - 1) as nat),
            );
        }
        i = i + 1;
    }
    Ok(methods)
}

/// A loaded class file.
#[derive(Debug)]
pub struct ClassFile {
    pub version: Version,
    pub constant_pool: ConstantPool,
    pub access_flags: ClassAccessFlags,
    pub this_class: u16,
    pub super_class: u16,
    pub interfaces: Vec<u16>,
    pub fields: Vec<Field>,
    pub methods: Vec<Method>,
    pub attributes: Vec<Attribute>,
}

impl View for ClassFile {
    type V = ClassFileModel;

    open spec fn view(&self) -> ClassFileModel {
        ClassFileModel {
            version: self.version,
            constant_pool: self.constant_pool@,
            access_flags: self.access_flags.bits,
            this_class: self.this_class,
            super_class: self.super_class,
            interfaces: self.interfaces@,
            fields: fields_view(self.fields@),
            methods: methods_view(self.methods@),
            attributes: attrs_view(self.attributes@),
        }
    }
}

/// Whether the method record `m` has the name `name` and the descriptor
/// `descriptor` in `pool`.
pub open spec fn has_signature(
    pool: Seq<ConstantModel>,
    m: MemberModel,
    name: Seq<u8>,
    descriptor: Seq<u8>,
) -> bool {
    pool_utf8(pool, m.name_index as int) == Some(name) && pool_utf8(
        pool,
        m.descriptor_index as int,
    ) == Some(descriptor)
}

impl ClassFile {
    /// Loads the class file that `data` holds. The first failing step decides
    /// the error; nothing is returned but a complete class.
    pub fn parse(data: &[u8]) -> (r: Result<ClassFile, ParsingError>)
        ensures
            match spec_class(data@) {
                Ok((c, _)) => r matches Ok(x) && x@ == c,
                Err(e) => r == Err::<ClassFile, ParsingError>(e),
            },
    {
        let mut stream = Stream::new(data);
        Self::load(&mut stream)
    }

    /// Loads a class file from the start of a stream, leaving it just after
    /// the last record.
    fn load(stream: &mut Stream) -> (r: Result<ClassFile, ParsingError>)
        requires
            old(stream).pos() == 0,
        ensures
            final(stream).bytes() == old(stream).bytes(),
            match spec_class(old(stream).bytes()) {
                Ok((c, end)) => r matches Ok(x) && x@ == c && final(stream).pos() == end,
                Err(e) => r == Err::<ClassFile, ParsingError>(e),
            },
    {
        reveal(spec_class_rest);
        match stream.read::<u32>() {
            Some(magic) => {
                if magic != MAGIC {
                    return Err(ParsingError::InvalidMagic);
                }
            },
            None => return Err(ParsingError::InvalidMagic),
        }
        let version = stream.read_element::<Version>()?;
        let constant_pool_count = read_field_u16(stream)?;
        let constant_pool = stream.read_array::<ConstantPool>(constant_pool_count)?;
        let bits = read_field_u16(stream)?;
        let this_class = read_field_u16(stream)?;
        let super_class = read_field_u16(stream)?;
        let interfaces = read_interfaces(stream)?;
        let fields = read_fields(stream, &constant_pool)?;
        let methods = read_methods(stream, &constant_pool)?;
        let attributes = read_attributes(stream, &constant_pool)?;
        Ok(ClassFile {
            version,
            constant_pool,
            access_flags: ClassAccessFlags { bits },
            this_class,
            super_class,
            interfaces,
            fields,
            methods,
            attributes,
        })
    }

    /// Loads the class file at the start of `input` and hands back the bytes
    /// after its last record, which are not read.
    pub fn parse_class(input: &[u8]) -> (r: Result<(&[u8], ClassFile), ParsingError>)
        ensures
            match spec_class(input@) {
                Ok((c, end)) => r matches Ok((rest, x)) && x@ == c && rest@ == input@.subrange(
                    end as int,
                    input@.len() as int,
                ),
                Err(e) => r == Err::<(&[u8], ClassFile), ParsingError>(e),
            },
    {
        let mut stream = Stream::new(input);
        let class = Self::load(&mut stream)?;
        proof {
            lemma_class_end_in_bounds(input@);
        }
        let rest = slice_subrange(input, stream.position(), input.len());
        Ok((rest, class))
    }

    /// The first method with the given name and descriptor, compared byte for
    /// byte with the pool's text.
    pub fn get_method(&self, name: &[u8], descriptor: &[u8]) -> (r: Option<&Method>)
        ensures
            match r {
                Some(m) => exists|i: int|
                    0 <= i < self.methods@.len() && #[trigger] self.methods@[i] == *m
                        && has_signature(self.constant_pool@, m@, name@, descriptor@)
                        && forall|j: int|
                        0 <= j < i ==> !has_signature(
                            self.constant_pool@,
                            #[trigger] self.methods@[j]@,
                            name@,
                            descriptor@,
                        ),
                None => forall|i: int|
                    0 <= i < self.methods@.len() ==> !has_signature(
                        self.constant_pool@,
                        #[trigger] self.methods@[i]@,
                        name@,
                        descriptor@,
                    ),
            },
    {
        let mut i: usize = 0;
        while i < self.methods.len()
            invariant
                i <= self.methods@.len(),
                forall|j: int|
                    0 <= j < i ==> !has_signature(
                        self.constant_pool@,
                        #[trigger] self.methods@[j]@,
                        name@,
                        descriptor@,
                    ),
            decreases self.methods@.len() - i,
        {
            let m = &self.methods[i];
            let matched = match (
                self.constant_pool.utf8_bytes(m.name_index),
                self.constant_pool.utf8_bytes(m.descriptor_index),
            ) {
                (Some(n), Some(d)) => name_is(n.as_slice(), name) && name_is(d.as_slice(), descriptor),
                _ => false,
            };
            if matched {
                return Some(m);
            }
            i = i + 1;
        }
        None
    }
}

/// A member record read from a prefix of its input.
proof fn lemma_member_prefix(pool: Seq<ConstantModel>, s: Seq<u8>, t: Seq<u8>, p: nat)
    requires
        is_prefix_of(t, s),
        spec_member(pool, s, p) is Ok,
    ensures
        spec_member(pool, s, p)->Ok_0.1 >= p,
        p <= t.len() ==> spec_member(pool, t, p) == cut_result(spec_member(pool, s, p), t.len()),
{
    let q: int = p as int;
    if q + 6 <= t.len() {
        assert(t[q] == s[q] && t[q + 1] == s[q + 1] && t[q + 2] == s[q + 2]);
        assert(t[q + 3] == s[q + 3] && t[q + 4] == s[q + 4] && t[q + 5] == s[q + 5]);
    }
    lemma_attributes_prefix(pool, s, t, p + 6);
}

/// A run of member records read from a prefix of its input.
proof fn lemma_member_list_prefix(pool: Seq<ConstantModel>, s: Seq<u8>, t: Seq<u8>, p: nat, n: nat)
    requires
        is_prefix_of(t, s),
        spec_member_list(pool, s, p, n) is Ok,
    ensures
        spec_member_list(pool, s, p, n)->Ok_0.1 >= p,
        p <= t.len() ==> spec_member_list(pool, t, p, n) == cut_result(
            spec_member_list(pool, s, p, n),
            t.len(),
        ),
    decreases n,
{
    if n > 0 {
        lemma_member_prefix(pool, s, t, p);
        let q = spec_member(pool, s, p)->Ok_0.1;
        lemma_member_list_prefix(pool, s, t, q, (n - 1) as nat);
    }
}

/// A count-prefixed member list read from a prefix of its input.
proof fn lemma_members_prefix(pool: Seq<ConstantModel>, s: Seq<u8>, t: Seq<u8>, p: nat)
    requires
        is_prefix_of(t, s),
        spec_members(pool, s, p) is Ok,
    ensures
        spec_members(pool, s, p)->Ok_0.1 >= p,
        p <= t.len() ==> spec_members(pool, t, p) == cut_result(spec_members(pool, s, p), t.len()),
{
    let q: int = p as int;
    if q + 2 <= t.len() {
        assert(t[q] == s[q] && t[q + 1] == s[q + 1]);
    }
    lemma_member_list_prefix(pool, s, t, p + 2, be16(s, q) as nat);
}

/// An interface list read from a prefix of its input.
proof fn lemma_interfaces_prefix(s: Seq<u8>, t: Seq<u8>, p: nat)
    requires
        is_prefix_of(t, s),
        spec_interfaces(s, p) is Ok,
    ensures
        spec_interfaces(s, p)->Ok_0.1 >= p,
        p <= t.len() ==> spec_interfaces(t, p) == cut_result(spec_interfaces(s, p), t.len()),
{
    let q: int = p as int;
    if q + 2 <= t.len() {
        assert(t[q] == s[q] && t[q + 1] == s[q + 1]);
        let n = be16(s, q) as int;
        if q + 2 + 2 * n <= t.len() {
            assert(Seq::new(n as nat, |i: int| be16(t, q + 2 + 2 * i)) =~= Seq::new(
                n as nat,
                |i: int| be16(s, q + 2 + 2 * i),
            )) by {
                assert forall|i: int| 0 <= i < n implies #[trigger] be16(t, q + 2 + 2 * i) == be16(
                    s,
                    q + 2 + 2 * i,
                ) by {
                    assert(t[q + 2 + 2 * i] == s[q + 2 + 2 * i]);
                    assert(t[q + 3 + 2 * i] == s[q + 3 + 2 * i]);
                }
            }
        }
    }
}

/// What follows the pool, read from a prefix of its input that holds the
/// first ten bytes and the pool.
proof fn lemma_class_rest_prefix(s: Seq<u8>, t: Seq<u8>, pool: Seq<ConstantModel>, pool_end: nat)
    requires
        is_prefix_of(t, s),
        10 <= t.len(),
        pool_end <= t.len(),
        spec_class_rest(s, pool, pool_end) is Ok,
    ensures
        spec_class_rest(t, pool, pool_end) == cut_result(spec_class_rest(s, pool, pool_end), t.len()),
{
    reveal(spec_class_rest);
    assert(t[4] == s[4] && t[5] == s[5] && t[6] == s[6] && t[7] == s[7]);
    let q: int = pool_end as int;
    if q + 6 <= t.len() {
        assert(t[q] == s[q] && t[q + 1] == s[q + 1] && t[q + 2] == s[q + 2]);
        assert(t[q + 3] == s[q + 3] && t[q + 4] == s[q + 4] && t[q + 5] == s[q + 5]);
    }
    lemma_interfaces_prefix(s, t, pool_end + 6);
    let interfaces_end = spec_interfaces(s, pool_end + 6)->Ok_0.1;
    lemma_members_prefix(pool, s, t, interfaces_end);
    let fields_end = spec_members(pool, s, interfaces_end)->Ok_0.1;
    lemma_members_prefix(pool, s, t, fields_end);
    let methods_end = spec_members(pool, s, fields_end)->Ok_0.1;
    lemma_attributes_prefix(pool, s, t, methods_end);
}

/// A loaded class file ends within its bytes.
pub proof fn lemma_class_end_in_bounds(s: Seq<u8>)
    requires
        spec_class(s) is Ok,
    ensures
        spec_class(s)->Ok_0.1 <= s.len(),
{
    assert(s.subrange(0, s.len() as int) =~= s);
    let count = be16(s, 8);
    lemma_slots_prefix(s, s, 10, slot_count(count));
    let (pool, pool_end) = spec_pool(s, 10, count)->Ok_0;
    lemma_class_rest_prefix(s, s, pool, pool_end);
}

/// A class file cut anywhere before the end of its last record does not
/// load: a cut inside the magic number is an invalid magic, any later cut is
/// a missing field. Nothing partial is ever returned.
pub proof fn lemma_truncated_class_fails(s: Seq<u8>, k: nat)
    requires
        spec_class(s) is Ok,
        k < spec_class(s)->Ok_0.1,
    ensures
        k < 4 ==> spec_class(s.subrange(0, k as int)) == Err::<(ClassFileModel, nat), ParsingError>(
            ParsingError::InvalidMagic,
        ),
        k >= 4 ==> spec_class(s.subrange(0, k as int)) == Err::<(ClassFileModel, nat), ParsingError>(
            ParsingError::MissingField,
        ),
{
    lemma_class_end_in_bounds(s);
    let count = be16(s, 8);
    let (pool, pool_end) = spec_pool(s, 10, count)->Ok_0;
    let t = s.subrange(0, k as int);
    assert(is_prefix_of(t, s));
    if k >= 4 {
        assert(t[0] == s[0] && t[1] == s[1] && t[2] == s[2] && t[3] == s[3]);
        assert(be32(t, 0) == be32(s, 0));
    }
    if k >= 10 {
        assert(t[8] == s[8] && t[9] == s[9]);
        assert(be16(t, 8) == count);
        lemma_slots_prefix(s, t, 10, slot_count(count));
        assert(spec_class(s) == spec_class_rest(s, pool, pool_end));
        if pool_end <= k {
            assert(spec_pool(t, 10, count) == spec_pool(s, 10, count));
            lemma_class_rest_prefix(s, t, pool, pool_end);
            assert(spec_class(t) == spec_class_rest(t, pool, pool_end));
        } else {
            assert(spec_pool(t, 10, count) == Err::<(Seq<ConstantModel>, nat), ParsingError>(
                ParsingError::MissingField,
            ));
        }
    }
}

/// The bytes that open a field or method record: flags, name index,
/// descriptor index.
pub open spec fn encode_member_header(m: MemberModel) -> Seq<u8> {
    u16_bytes(m.access_flags) + u16_bytes(m.name_index) + u16_bytes(m.descriptor_index)
}

/// Writing back the header of a loaded field or method record gives the
/// bytes it was loaded from, so its flags and pool indices are kept as read.
pub proof fn lemma_member_header_round_trip(pool: Seq<ConstantModel>, s: Seq<u8>, p: nat)
    requires
        spec_member(pool, s, p) is Ok,
    ensures
        s.subrange(p as int, p + 6 as int) == encode_member_header(spec_member(pool, s, p)->Ok_0.0),
{
    let q: int = p as int;
    lemma_be16_bytes(s, q);
    lemma_be16_bytes(s, q + 2);
    lemma_be16_bytes(s, q + 4);
    assert(s.subrange(q, q + 6) =~= s.subrange(q, q + 2) + s.subrange(q + 2, q + 4) + s.subrange(
        q + 4,
        q + 6,
    ));
}

/// Where each of `n` member records in a row, starting at `p`, begins.
pub open spec fn member_offsets(pool: Seq<ConstantModel>, s: Seq<u8>, p: nat, n: nat) -> Seq<nat>
    decreases n,
{
    if n == 0 {
        Seq::empty()
    } else {
        match spec_member(pool, s, p) {
            Ok((_, q)) => seq![p] + member_offsets(pool, s, q, (n - 1) as nat),
            Err(_) => Seq::empty(),
        }
    }
}

/// The member records `ms` start at `offs`, in stream order, and each one's
/// header bytes there encode it.
pub open spec fn headers_at(s: Seq<u8>, offs: Seq<nat>, ms: Seq<MemberModel>) -> bool {
    &&& offs.len() == ms.len()
    &&& forall|i: int|
        0 <= i < ms.len() ==> offs[i] + 6 <= s.len() && s.subrange(
            #[trigger] offs[i] as int,
            offs[i] + 6int,
        ) == encode_member_header(ms[i])
    &&& forall|i: int, j: int| 0 <= i < j < ms.len() ==> #[trigger] offs[i] < #[trigger] offs[j]
}

/// Putting one more record in front of records laid out in order.
proof fn lemma_headers_cons(
    s: Seq<u8>,
    p: nat,
    m: MemberModel,
    q: nat,
    tail: Seq<nat>,
    rest: Seq<MemberModel>,
)
    requires
        headers_at(s, tail, rest),
        forall|i: int| 0 <= i < tail.len() ==> q <= #[trigger] tail[i],
        p < q,
        p + 6 <= s.len(),
        s.subrange(p as int, p + 6int) == encode_member_header(m),
    ensures
        headers_at(s, seq![p] + tail, seq![m] + rest),
        forall|i: int| 0 <= i < tail.len() + 1 ==> p <= #[trigger] (seq![p] + tail)[i],
{
    let offs = seq![p] + tail;
    let ms = seq![m] + rest;
    assert forall|i: int| 0 <= i < ms.len() implies offs[i] + 6 <= s.len() && s.subrange(
        #[trigger] offs[i] as int,
        offs[i] + 6int,
    ) == encode_member_header(ms[i]) by {
        if i > 0 {
            assert(offs[i] == tail[i - 1]);
            assert(ms[i] == rest[i - 1]);
        }
    }
    assert forall|i: int, j: int| 0 <= i < j < ms.len() implies #[trigger] offs[i]
        < #[trigger] offs[j] by {
        assert(offs[j] == tail[j - 1]);
        if i > 0 {
            assert(offs[i] == tail[i - 1]);
        }
    }
    assert forall|i: int| 0 <= i < tail.len() + 1 implies p <= #[trigger] offs[i] by {
        if i > 0 {
            assert(offs[i] == tail[i - 1]);
        }
    }
}

/// Read member records keep their order, and each header is written back to
/// the bytes it was read from.
proof fn lemma_member_list_headers(pool: Seq<ConstantModel>, s: Seq<u8>, p: nat, n: nat)
    requires
        spec_member_list(pool, s, p, n) is Ok,
    ensures
        spec_member_list(pool, s, p, n)->Ok_0.0.len() == n,
        headers_at(s, member_offsets(pool, s, p, n), spec_member_list(pool, s, p, n)->Ok_0.0),
        forall|i: int|
            0 <= i < member_offsets(pool, s, p, n).len() ==> p <= #[trigger] member_offsets(
                pool,
                s,
                p,
                n,
            )[i],
    decreases n,
{
    if n > 0 {
        assert(s.subrange(0, s.len() as int) =~= s);
        lemma_member_prefix(pool, s, s, p);
        lemma_member_header_round_trip(pool, s, p);
        let (m, q) = spec_member(pool, s, p)->Ok_0;
        lemma_attributes_prefix(pool, s, s, p + 6);
        lemma_member_list_headers(pool, s, q, (n - 1) as nat);
        let rest = spec_member_list(pool, s, q, (n - 1) as nat)->Ok_0.0;
        let tail = member_offsets(pool, s, q, (n - 1) as nat);
        lemma_headers_cons(s, p, m, q, tail, rest);
        assert(spec_member_list(pool, s, p, n)->Ok_0.0 == seq![m] + rest);
        assert(member_offsets(pool, s, p, n) == seq![p] + tail);
    } else {
        assert(member_offsets(pool, s, p, n).len() == 0);
    }
}

/// What follows the pool, written back: see `lemma_class_round_trip`.
proof fn lemma_class_rest_round_trip(s: Seq<u8>, pool: Seq<ConstantModel>, pool_end: nat)
    requires
        spec_class_rest(s, pool, pool_end) is Ok,
        10 <= s.len(),
        pool_end <= s.len(),
    ensures
        ({
            let c = spec_class_rest(s, pool, pool_end)->Ok_0.0;
            let q = pool_end as int;
            let fields_at = q + 8 + 2 * c.interfaces.len();
            let methods_at = spec_members(pool, s, fields_at as nat)->Ok_0.1;
            &&& c.constant_pool == pool
            &&& s.subrange(4, 6) == u16_bytes(c.version.minor)
            &&& s.subrange(6, 8) == u16_bytes(c.version.major)
            &&& s.subrange(q, q + 2) == u16_bytes(c.access_flags)
            &&& s.subrange(q + 2, q + 4) == u16_bytes(c.this_class)
            &&& s.subrange(q + 4, q + 6) == u16_bytes(c.super_class)
            &&& forall|i: int|
                0 <= i < c.interfaces.len() ==> s.subrange(q + 8 + 2 * i, q + 10 + 2 * i)
                    == u16_bytes(#[trigger] c.interfaces[i])
            &&& headers_at(
                s,
                member_offsets(pool, s, (fields_at + 2) as nat, c.fields.len()),
                c.fields,
            )
            &&& headers_at(s, member_offsets(pool, s, methods_at + 2, c.methods.len()), c.methods)
        }),
{
    let q: int = pool_end as int;
    let (interfaces, interfaces_end) = spec_interfaces(s, pool_end + 6)->Ok_0;
    let (fields, fields_end) = spec_members(pool, s, interfaces_end)->Ok_0;
    let (methods, _) = spec_members(pool, s, fields_end)->Ok_0;
    assert({
        let c = spec_class_rest(s, pool, pool_end)->Ok_0.0;
        &&& c.constant_pool == pool
        &&& c.version == Version { minor: be16(s, 4), major: be16(s, 6) }
        &&& c.access_flags == be16(s, q)
        &&& c.this_class == be16(s, q + 2)
        &&& c.super_class == be16(s, q + 4)
        &&& c.interfaces == interfaces
        &&& c.fields == fields
        &&& c.methods == methods
        &&& interfaces_end == q + 8 + 2 * interfaces.len()
        &&& q + 6 <= s.len()
        &&& spec_interfaces(s, pool_end + 6) is Ok
        &&& spec_members(pool, s, interfaces_end) is Ok
        &&& spec_members(pool, s, fields_end) is Ok
    }) by {
        reveal(spec_class_rest);
    }
    lemma_be16_bytes(s, 4);
    lemma_be16_bytes(s, 6);
    lemma_be16_bytes(s, q);
    lemma_be16_bytes(s, q + 2);
    lemma_be16_bytes(s, q + 4);
    lemma_interfaces_bytes(s, pool_end + 6);
    lemma_member_list_headers(pool, s, interfaces_end + 2, be16(s, interfaces_end as int) as nat);
    lemma_member_list_headers(pool, s, fields_end + 2, be16(s, fields_end as int) as nat);
}

/// Read interface indices are written back to the bytes they were read from.
proof fn lemma_interfaces_bytes(s: Seq<u8>, p: nat)
    requires
        spec_interfaces(s, p) is Ok,
    ensures
        forall|i: int|
            0 <= i < spec_interfaces(s, p)->Ok_0.0.len() ==> s.subrange(p + 2 + 2 * i, p + 4 + 2 * i)
                == u16_bytes(#[trigger] spec_interfaces(s, p)->Ok_0.0[i]),
{
    let v = spec_interfaces(s, p)->Ok_0.0;
    assert forall|i: int| 0 <= i < v.len() implies s.subrange(p + 2 + 2 * i, p + 4 + 2 * i)
        == u16_bytes(#[trigger] v[i]) by {
        lemma_be16_bytes(s, p + 2 + 2 * i);
    }
}

/// Writing back what a class file was loaded from keeps every index and
/// every record in place: the pool encodes back to its bytes, the flags,
/// this and super indices and each interface index sit where they were read,
/// and each field and method record, in stream order, starts with the
/// header bytes that encode its flags, name index and descriptor index.
pub proof fn lemma_class_round_trip(s: Seq<u8>)
    requires
        spec_class(s) is Ok,
    ensures
        ({
            let c = spec_class(s)->Ok_0.0;
            let pool_end = spec_pool(s, 10, be16(s, 8))->Ok_0.1 as int;
            let fields_at = pool_end + 8 + 2 * c.interfaces.len();
            let methods_at = spec_members(c.constant_pool, s, fields_at as nat)->Ok_0.1;
            &&& s.subrange(4, 6) == u16_bytes(c.version.minor)
            &&& s.subrange(6, 8) == u16_bytes(c.version.major)
            &&& s.subrange(10, pool_end) == encode_slots(c.constant_pool)
            &&& s.subrange(pool_end, pool_end + 2) == u16_bytes(c.access_flags)
            &&& s.subrange(pool_end + 2, pool_end + 4) == u16_bytes(c.this_class)
            &&& s.subrange(pool_end + 4, pool_end + 6) == u16_bytes(c.super_class)
            &&& forall|i: int|
                0 <= i < c.interfaces.len() ==> s.subrange(pool_end + 8 + 2 * i, pool_end + 10 + 2 * i)
                    == u16_bytes(#[trigger] c.interfaces[i])
            &&& headers_at(
                s,
                member_offsets(c.constant_pool, s, (fields_at + 2) as nat, c.fields.len()),
                c.fields,
            )
            &&& headers_at(s, member_offsets(c.constant_pool, s, methods_at + 2, c.methods.len()), c.methods)
        }),
{
    lemma_class_end_in_bounds(s);
    let count = be16(s, 8);
    lemma_pool_round_trip(s, 10, count);
    let (pool, pool_end) = spec_pool(s, 10, count)->Ok_0;
    assert(s.subrange(0, s.len() as int) =~= s);
    lemma_slots_prefix(s, s, 10, slot_count(count));
    lemma_class_rest_round_trip(s, pool, pool_end);
}

} // verus!
