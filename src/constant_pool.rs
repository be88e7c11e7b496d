use vstd::prelude::*;

use crate::errors::ParsingError;
use crate::stream::{be16, be32, read_field_u16, read_field_u32, read_field_u8, FromSeries, Stream};

verus! {

/// The big-endian 64-bit value of the eight bytes of `s` at `p`.
pub open spec fn be64(s: Seq<u8>, p: int) -> u64 {
    (be32(s, p) as int * 0x1_0000_0000 + be32(s, p + 4) as int) as u64
}

/// One slot of the constant pool.
#[derive(Debug)]
pub enum Constant {
    /// Text, kept as the raw bytes of the file (modified UTF-8).
    Utf8(Vec<u8>),
    Integer(i32),
    /// The IEEE 754 bits of a `float` constant.
    Float(u32),
    Long(i64),
    /// The IEEE 754 bits of a `double` constant.
    Double(u64),
    Class(u16),
    String(u16),
    FieldRef { class_index: u16, nametype_index: u16 },
    MethodRef { class_index: u16, nametype_index: u16 },
    InterfaceMethodRef { class_index: u16, nametype_index: u16 },
    NameAndType { name_index: u16, descriptor_index: u16 },
    /// The slot that follows a `Long` or a `Double`, which takes two.
    Unusable,
}

/// What a pool slot holds, in mathematical terms.
pub enum ConstantModel {
    Utf8(Seq<u8>),
    Integer(i32),
    Float(u32),
    Long(i64),
    Double(u64),
    Class(u16),
    String(u16),
    FieldRef { class_index: u16, nametype_index: u16 },
    MethodRef { class_index: u16, nametype_index: u16 },
    InterfaceMethodRef { class_index: u16, nametype_index: u16 },
    NameAndType { name_index: u16, descriptor_index: u16 },
    Unusable,
}

impl View for Constant {
    type V = ConstantModel;

    open spec fn view(&self) -> ConstantModel {
        match self {
            Constant::Utf8(b) => ConstantModel::Utf8(b@),
            Constant::Integer(v) => ConstantModel::Integer(*v),
            Constant::Float(v) => ConstantModel::Float(*v),
            Constant::Long(v) => ConstantModel::Long(*v),
            Constant::Double(v) => ConstantModel::Double(*v),
            Constant::Class(i) => ConstantModel::Class(*i),
            Constant::String(i) => ConstantModel::String(*i),
            Constant::FieldRef { class_index, nametype_index } => ConstantModel::FieldRef {
                class_index: *class_index,
                nametype_index: *nametype_index,
            },
            Constant::MethodRef { class_index, nametype_index } => ConstantModel::MethodRef {
                class_index: *class_index,
                nametype_index: *nametype_index,
            },
            Constant::InterfaceMethodRef { class_index, nametype_index } =>
                ConstantModel::InterfaceMethodRef {
                    class_index: *class_index,
                    nametype_index: *nametype_index,
                },
            Constant::NameAndType { name_index, descriptor_index } => ConstantModel::NameAndType {
                name_index: *name_index,
                descriptor_index: *descriptor_index,
            },
            Constant::Unusable => ConstantModel::Unusable,
        }
    }
}

/// Whether the constant takes two pool slots.
pub open spec fn is_wide(c: ConstantModel) -> bool {
    c is Long || c is Double
}

/// The payload width of a constant whose tag fixes it.
pub open spec fn fixed_width(tag: u8) -> Option<nat> {
    if tag == 3 || tag == 4 || tag == 9 || tag == 10 || tag == 11 || tag == 12 {
        Some(4)
    } else if tag == 5 || tag == 6 {
        Some(8)
    } else if tag == 7 || tag == 8 {
        Some(2)
    } else {
        None
    }
}

/// The constant with fixed-width tag `tag` whose payload starts at `q`.
pub open spec fn fixed_constant(s: Seq<u8>, tag: u8, q: int) -> ConstantModel {
    if tag == 3 {
        ConstantModel::Integer(be32(s, q) as i32)
    } else if tag == 4 {
        ConstantModel::Float(be32(s, q))
    } else if tag == 5 {
        ConstantModel::Long(be64(s, q) as i64)
    } else if tag == 6 {
        ConstantModel::Double(be64(s, q))
    } else if tag == 7 {
        ConstantModel::Class(be16(s, q))
    } else if tag == 8 {
        ConstantModel::String(be16(s, q))
    } else if tag == 9 {
        ConstantModel::FieldRef { class_index: be16(s, q), nametype_index: be16(s, q + 2) }
    } else if tag == 10 {
        ConstantModel::MethodRef { class_index: be16(s, q), nametype_index: be16(s, q + 2) }
    } else if tag == 11 {
        ConstantModel::InterfaceMethodRef {
            class_index: be16(s, q),
            nametype_index: be16(s, q + 2),
        }
    } else {
        ConstantModel::NameAndType { name_index: be16(s, q), descriptor_index: be16(s, q + 2) }
    }
}

/// The payload of a constant with tag `tag`, starting at `q`: the constant and
/// where the next entry starts.
pub open spec fn spec_constant_body(s: Seq<u8>, tag: u8, q: nat) -> Result<
    (ConstantModel, nat),
    ParsingError,
> {
    if tag == 1 {
        if q + 2 > s.len() {
            Err(ParsingError::MissingField)
        } else {
            let n = be16(s, q as int);
            if q + 2 + n > s.len() {
                Err(ParsingError::MissingField)
            } else {
                Ok((ConstantModel::Utf8(s.subrange(q + 2 as int, q + 2 + n as int)), (q + 2 + n) as nat))
            }
        }
    } else {
        match fixed_width(tag) {
            Some(w) => if q + w > s.len() {
                Err(ParsingError::MissingField)
            } else {
                Ok((fixed_constant(s, tag, q as int), q + w))
            },
            None => Err(ParsingError::UnhandledConstant(tag)),
        }
    }
}

/// One tagged pool entry starting at `p`.
pub open spec fn spec_constant(s: Seq<u8>, p: nat) -> Result<(ConstantModel, nat), ParsingError> {
    if p + 1 > s.len() {
        Err(ParsingError::MissingField)
    } else {
        spec_constant_body(s, s[p as int], p + 1)
    }
}

/// `xs` put in front of the items of a successful read.
pub open spec fn prepend<T>(xs: Seq<T>, r: Result<(Seq<T>, nat), ParsingError>) -> Result<
    (Seq<T>, nat),
    ParsingError,
> {
    match r {
        Ok((ys, q)) => Ok((xs + ys, q)),
        Err(e) => Err(e),
    }
}

/// Putting two sequences in front, one after the other, is putting their
/// concatenation in front.
pub proof fn lemma_prepend_assoc<T>(xs: Seq<T>, ys: Seq<T>, r: Result<(Seq<T>, nat), ParsingError>)
    ensures
        prepend(xs, prepend(ys, r)) == prepend(xs + ys, r),
{
    if let Ok((zs, q)) = r {
        assert(xs + (ys + zs) =~= (xs + ys) + zs);
    }
}

/// The next `k` pool slots, starting at `p`. A wide constant fills two slots,
/// the second `Unusable`; one that would overrun the pool is an invalid index.
pub open spec fn spec_slots(s: Seq<u8>, p: nat, k: nat) -> Result<
    (Seq<ConstantModel>, nat),
    ParsingError,
>
    decreases k,
{
    if k == 0 {
        Ok((Seq::empty(), p))
    } else {
        match spec_constant(s, p) {
            Err(e) => Err(e),
            Ok((c, q)) => if !is_wide(c) {
                prepend(seq![c], spec_slots(s, q, (k - 1) as nat))
            } else if k < 2 {
                Err(ParsingError::InvalidIndex)
            } else {
                prepend(seq![c, ConstantModel::Unusable], spec_slots(s, q, (k - 2) as nat))
            },
        }
    }
}

/// Where a read of `k` slots from `p` stops being able to go on: the offset
/// of the tag of the first entry that fails, or of the wide constant that
/// would overrun the pool; `p` moved past every entry read when none fails.
pub open spec fn failing_entry_at(s: Seq<u8>, p: nat, k: nat) -> nat
    decreases k,
{
    if k == 0 {
        p
    } else {
        match spec_constant(s, p) {
            Err(_) => p,
            Ok((c, q)) => if !is_wide(c) {
                failing_entry_at(s, q, (k - 1) as nat)
            } else if k < 2 {
                p
            } else {
                failing_entry_at(s, q, (k - 2) as nat)
            },
        }
    }
}

/// The number of slots that a pool declared with `count` holds.
pub open spec fn slot_count(count: u16) -> nat {
    if count == 0 {
        0
    } else {
        (count - 1) as nat
    }
}

/// The pool of `count` declared entries whose first tag is at `p`.
pub open spec fn spec_pool(s: Seq<u8>, p: nat, count: u16) -> Result<
    (Seq<ConstantModel>, nat),
    ParsingError,
> {
    spec_slots(s, p, slot_count(count))
}

/// The entry at 1-based `index`, if it names a usable slot.
pub open spec fn pool_entry(pool: Seq<ConstantModel>, index: int) -> Option<ConstantModel> {
    if 1 <= index <= pool.len() && !(pool[index - 1] is Unusable) {
        Some(pool[index - 1])
    } else {
        None
    }
}

/// The bytes of the `Utf8` entry at `index`.
pub open spec fn pool_utf8(pool: Seq<ConstantModel>, index: int) -> Option<Seq<u8>> {
    match pool_entry(pool, index) {
        Some(ConstantModel::Utf8(b)) => Some(b),
        _ => None,
    }
}

/// The text that the bytes `b` decode to, malformed sequences replaced.
pub uninterp spec fn lossy_text(b: Seq<u8>) -> Seq<char>;

/// Relies on `String::from_utf8_lossy`: a decode that never fails and depends
/// on the bytes alone.
#[verifier::external_body]
pub(crate) fn decode_text(b: &[u8]) -> (r: String)
    ensures
        r@ == lossy_text(b@),
        b@.len() == 0 ==> r@.len() == 0,
{
    String::from_utf8_lossy(b).into_owned()
}

/// Reads the payload of a constant whose tag has just been read. An
/// unrecognised tag fails without consuming anything.
pub fn read_constant(stream: &mut Stream, tag: u8) -> (r: Result<Constant, ParsingError>)
    ensures
        final(stream).bytes() == old(stream).bytes(),
        match spec_constant_body(old(stream).bytes(), tag, old(stream).pos()) {
            Ok((c, q)) => r matches Ok(x) && x@ == c && final(stream).pos() == q,
            Err(e) => r == Err::<Constant, ParsingError>(e),
        },
        r matches Err(ParsingError::UnhandledConstant(_)) ==> final(stream).pos() == old(
            stream,
        ).pos(),
{
    let ghost s = stream.bytes();
    let ghost q = stream.pos();
    match tag {
        1 => {
            let length = read_field_u16(stream)?;
            match stream.read_bytes(length as usize) {
                Some(bytes) => {
                    let mut data: Vec<u8> = Vec::new();
                    let mut i: usize = 0;
                    while i < bytes.len()
                        invariant
                            i <= bytes@.len(),
                            data@ == bytes@.subrange(0, i as int),
                        decreases bytes@.len() - i,
                    {
                        data.push(bytes[i]);
                        i = i + 1;
                    }
                    assert(data@ == bytes@);
                    Ok(Constant::Utf8(data))
                },
                None => Err(ParsingError::MissingField),
            }
        },
        3 => {
            let v = read_field_u32(stream)?;
            Ok(Constant::Integer(v as i32))
        },
        4 => {
            let v = read_field_u32(stream)?;
            Ok(Constant::Float(v))
        },
        5 | 6 => {
            let hi = read_field_u32(stream)?;
            let lo = read_field_u32(stream)?;
            let v: u64 = (hi as u64) * 0x1_0000_0000 + lo as u64;
            if tag == 5 {
                Ok(Constant::Long(v as i64))
            } else {
                Ok(Constant::Double(v))
            }
        },
        7 => {
            let name_index = read_field_u16(stream)?;
            Ok(Constant::Class(name_index))
        },
        8 => {
            let string_index = read_field_u16(stream)?;
            Ok(Constant::String(string_index))
        },
        9 | 10 | 11 | 12 => {
            let a = read_field_u16(stream)?;
            let b = read_field_u16(stream)?;
            if tag == 9 {
                Ok(Constant::FieldRef { class_index: a, nametype_index: b })
            } else if tag == 10 {
                Ok(Constant::MethodRef { class_index: a, nametype_index: b })
            } else if tag == 11 {
                Ok(Constant::InterfaceMethodRef { class_index: a, nametype_index: b })
            } else {
                Ok(Constant::NameAndType { name_index: a, descriptor_index: b })
            }
        },
        _ => Err(ParsingError::UnhandledConstant(tag)),
    }
}

/// The constant pool: slot `i` holds the entry of 1-based index `i + 1`.
#[derive(Debug)]
pub struct ConstantPool {
    pub items: Vec<Constant>,
}

/// The models of a sequence of constants.
pub open spec fn constants_view(items: Seq<Constant>) -> Seq<ConstantModel> {
    items.map_values(|c: Constant| c@)
}

impl View for ConstantPool {
    type V = Seq<ConstantModel>;

    open spec fn view(&self) -> Seq<ConstantModel> {
        constants_view(self.items@)
    }
}

impl FromSeries for ConstantPool {
    open spec fn parsed_from(
        s: Seq<u8>,
        p: nat,
        count: u16,
        r: Result<ConstantPool, ParsingError>,
        s2: Seq<u8>,
        q: nat,
    ) -> bool {
        &&& s2 == s
        &&& match spec_pool(s, p, count) {
            Ok((v, q1)) => r matches Ok(pool) && pool@ == v && q == q1,
            Err(e) => r == Err::<ConstantPool, ParsingError>(e),
        }
        &&& r matches Err(ParsingError::UnhandledConstant(_)) ==> q == failing_entry_at(
            s,
            p,
            slot_count(count),
        ) + 1
    }

    /// Reads the entries of a pool declared with `count`, which holds
    /// `count - 1` slots.
    fn parse(stream: &mut Stream, count: u16) -> (r: Result<ConstantPool, ParsingError>) {
        let ghost s = stream.bytes();
        let ghost p0 = stream.pos();
        let total: usize = if count == 0 {
            0
        } else {
            (count - 1) as usize
        };
        let mut items: Vec<Constant> = Vec::new();
        while items.len() < total
            invariant
                items.len() <= total,
                total == slot_count(count),
                s == old(stream).bytes(),
                p0 == old(stream).pos(),
                stream.bytes() == s,
                failing_entry_at(s, p0, total as nat) == failing_entry_at(
                    s,
                    stream.pos(),
                    (total - items.len()) as nat,
                ),
                spec_pool(s, p0, count) == prepend(
                    constants_view(items@),
                    spec_slots(s, stream.pos(), (total - items.len()) as nat),
                ),
            decreases total - items.len(),
        {
            let ghost k = (total - items.len()) as nat;
            let ghost pos = stream.pos();
            let ghost before = constants_view(items@);
            let tag = match read_field_u8(stream) {
                Ok(t) => t,
                Err(e) => {
                    assert(spec_slots(s, pos, k) == Err::<(Seq<ConstantModel>, nat), ParsingError>(e));
                    return Err(e);
                },
            };
            let c = match read_constant(stream, tag) {
                Ok(c) => c,
                Err(e) => {
                    assert(e matches ParsingError::UnhandledConstant(_) ==> stream.pos() == pos + 1);
                    assert(spec_slots(s, pos, k) == Err::<(Seq<ConstantModel>, nat), ParsingError>(e));
                    return Err(e);
                },
            };
            let wide = match c {
                Constant::Long(_) | Constant::Double(_) => true,
                _ => false,
            };
            proof {
                assert(spec_constant(s, pos) == Ok::<(ConstantModel, nat), ParsingError>((c@, stream.pos())));
            }
            let ghost q = stream.pos();
            items.push(c);
            assert(constants_view(items@) =~= before.push(c@));
            if wide {
                if items.len() >= total {
                    return Err(ParsingError::InvalidIndex);
                }
                items.push(Constant::Unusable);
                assert(constants_view(items@) =~= before + seq![c@, ConstantModel::Unusable]);
                proof {
                    lemma_prepend_assoc(
                        before,
                        seq![c@, ConstantModel::Unusable],
                        spec_slots(s, q, (k - 2) as nat),
                    );
                }
            } else {
                assert(constants_view(items@) =~= before + seq![c@]);
                proof {
                    lemma_prepend_assoc(before, seq![c@], spec_slots(s, q, (k - 1) as nat));
                }
            }
        }
        Ok(ConstantPool { items })
    }
}

impl ConstantPool {
    /// The entry at 1-based `index`. Index 0, an index past the pool and the
    /// second slot of a wide constant name no entry.
    pub fn get(&self, index: u16) -> (r: Option<&Constant>)
        ensures
            match r {
                Some(c) => pool_entry(self@, index as int) == Some(c@),
                None => pool_entry(self@, index as int) is None,
            },
    {
        if index == 0 || index as usize > self.items.len() {
            return None;
        }
        let c = &self.items[index as usize - 1];
        match c {
            Constant::Unusable => None,
            _ => Some(c),
        }
    }

    /// The raw bytes of the `Utf8` entry at `index`.
    pub fn utf8_bytes(&self, index: u16) -> (r: Option<&Vec<u8>>)
        ensures
            match r {
                Some(b) => pool_utf8(self@, index as int) == Some(b@),
                None => pool_utf8(self@, index as int) is None,
            },
    {
        match self.get(index) {
            Some(Constant::Utf8(b)) => Some(b),
            _ => None,
        }
    }

    /// The text of the `Utf8` entry at `index`, decoded leniently.
    pub fn utf8(&self, index: u16) -> (r: Option<String>)
        ensures
            match r {
                Some(t) => pool_utf8(self@, index as int) matches Some(b) && t@ == lossy_text(b),
                None => pool_utf8(self@, index as int) is None,
            },
    {
        match self.utf8_bytes(index) {
            Some(b) => Some(decode_text(b.as_slice())),
            None => None,
        }
    }

    /// The value of the `Integer` entry at `index`.
    pub fn integer(&self, index: u16) -> (r: Option<i32>)
        ensures
            match pool_entry(self@, index as int) {
                Some(ConstantModel::Integer(v)) => r == Some(v),
                _ => r is None,
            },
    {
        match self.get(index) {
            Some(Constant::Integer(v)) => Some(*v),
            _ => None,
        }
    }

    /// The name of the class that the `Class` entry at `index` names.
    pub fn class(&self, index: u16) -> (r: Option<String>)
        ensures
            match pool_entry(self@, index as int) {
                Some(ConstantModel::Class(n)) => match pool_utf8(self@, n as int) {
                    Some(b) => r matches Some(t) && t@ == lossy_text(b),
                    None => r is None,
                },
                _ => r is None,
            },
    {
        match self.get(index) {
            Some(Constant::Class(name_index)) => self.utf8(*name_index),
            _ => None,
        }
    }

    /// The name and the descriptor that the `NameAndType` entry at `index`
    /// names.
    pub fn name_and_type(&self, index: u16) -> (r: Option<(String, String)>)
        ensures
            match pool_entry(self@, index as int) {
                Some(ConstantModel::NameAndType { name_index, descriptor_index }) => match (
                    pool_utf8(self@, name_index as int),
                    pool_utf8(self@, descriptor_index as int),
                ) {
                    (Some(n), Some(d)) => r matches Some((tn, td)) && tn@ == lossy_text(n)
                        && td@ == lossy_text(d),
                    _ => r is None,
                },
                _ => r is None,
            },
    {
        match self.get(index) {
            Some(Constant::NameAndType { name_index, descriptor_index }) => {
                let n = self.utf8(*name_index);
                let d = self.utf8(*descriptor_index);
                match (n, d) {
                    (Some(n), Some(d)) => Some((n, d)),
                    _ => None,
                }
            },
            _ => None,
        }
    }

    /// The class index and the name-and-type index of the `FieldRef` entry at
    /// `index`.
    pub fn field(&self, index: u16) -> (r: Option<(u16, u16)>)
        ensures
            match pool_entry(self@, index as int) {
                Some(ConstantModel::FieldRef { class_index, nametype_index }) => r == Some(
                    (class_index, nametype_index),
                ),
                _ => r is None,
            },
    {
        match self.get(index) {
            Some(Constant::FieldRef { class_index, nametype_index }) => Some(
                (*class_index, *nametype_index),
            ),
            _ => None,
        }
    }

    /// The class index and the name-and-type index of the `MethodRef` entry at
    /// `index`.
    pub fn method(&self, index: u16) -> (r: Option<(u16, u16)>)
        ensures
            match pool_entry(self@, index as int) {
                Some(ConstantModel::MethodRef { class_index, nametype_index }) => r == Some(
                    (class_index, nametype_index),
                ),
                _ => r is None,
            },
    {
        match self.get(index) {
            Some(Constant::MethodRef { class_index, nametype_index }) => Some(
                (*class_index, *nametype_index),
            ),
            _ => None,
        }
    }
}

/// `t` is `s` cut after its first `t.len()` bytes.
pub open spec fn is_prefix_of(t: Seq<u8>, s: Seq<u8>) -> bool {
    t.len() <= s.len() && t == s.subrange(0, t.len() as int)
}

/// What a successful read gives when only the first `k` bytes are there:
/// the same where it ended within them, a missing field where it did not.
pub open spec fn cut_result<T>(r: Result<(T, nat), ParsingError>, k: nat) -> Result<
    (T, nat),
    ParsingError,
> {
    match r {
        Ok((v, q)) => if q <= k {
            Ok((v, q))
        } else {
            Err(ParsingError::MissingField)
        },
        Err(e) => Err(e),
    }
}

/// A pool entry read from a prefix of its input.
pub proof fn lemma_constant_prefix(s: Seq<u8>, t: Seq<u8>, p: nat)
    requires
        is_prefix_of(t, s),
        spec_constant(s, p) is Ok,
    ensures
        spec_constant(s, p)->Ok_0.1 > p,
        p <= t.len() ==> spec_constant(t, p) == cut_result(spec_constant(s, p), t.len()),
{
    if p + 1 <= t.len() {
        assert(t[p as int] == s[p as int]);
        let q: int = p as int + 1;
        if q + 2 <= t.len() {
            assert(t[q] == s[q] && t[q + 1] == s[q + 1]);
        }
        if q + 8 <= t.len() {
            assert(t[q + 2] == s[q + 2] && t[q + 3] == s[q + 3]);
            assert(t[q + 4] == s[q + 4] && t[q + 5] == s[q + 5]);
            assert(t[q + 6] == s[q + 6] && t[q + 7] == s[q + 7]);
        } else if q + 4 <= t.len() {
            assert(t[q + 2] == s[q + 2] && t[q + 3] == s[q + 3]);
        }
        if s[p as int] == 1 && q + 2 <= t.len() {
            let n = be16(s, q);
            if q + 2 + n <= t.len() {
                assert(t.subrange(q + 2, q + 2 + n) =~= s.subrange(q + 2, q + 2 + n));
            }
        }
    }
}

/// Pool slots read from a prefix of their input.
pub proof fn lemma_slots_prefix(s: Seq<u8>, t: Seq<u8>, p: nat, k: nat)
    requires
        is_prefix_of(t, s),
        spec_slots(s, p, k) is Ok,
    ensures
        spec_slots(s, p, k)->Ok_0.1 >= p,
        p <= t.len() ==> spec_slots(t, p, k) == cut_result(spec_slots(s, p, k), t.len()),
    decreases k,
{
    if k > 0 {
        lemma_constant_prefix(s, t, p);
        let (c, q) = spec_constant(s, p)->Ok_0;
        if !is_wide(c) {
            lemma_slots_prefix(s, t, q, (k - 1) as nat);
        } else {
            lemma_slots_prefix(s, t, q, (k - 2) as nat);
        }
    }
}

/// Slots laid out as the format has them: a slot is unusable exactly when it
/// follows a wide constant, and a wide constant is never in the last slot.
pub open spec fn slots_wf(items: Seq<ConstantModel>) -> bool {
    &&& forall|i: int|
        0 <= i < items.len() ==> ((#[trigger] items[i] is Unusable) <==> (i >= 1 && is_wide(
            items[i - 1],
        )))
    &&& forall|i: int| 0 <= i < items.len() && is_wide(#[trigger] items[i]) ==> i + 1 < items.len()
}

/// Read slots are `k` in number and laid out as the format has them.
pub proof fn lemma_slots_wf(s: Seq<u8>, p: nat, k: nat)
    requires
        spec_slots(s, p, k) is Ok,
    ensures
        spec_slots(s, p, k)->Ok_0.0.len() == k,
        slots_wf(spec_slots(s, p, k)->Ok_0.0),
    decreases k,
{
    if k > 0 {
        let (c, q) = spec_constant(s, p)->Ok_0;
        assert(!(c is Unusable));
        let w: nat = if is_wide(c) { 2 } else { 1 };
        lemma_slots_wf(s, q, (k - w) as nat);
        let rest = spec_slots(s, q, (k - w) as nat)->Ok_0.0;
        let head = if is_wide(c) { seq![c, ConstantModel::Unusable] } else { seq![c] };
        let items = head + rest;
        assert(spec_slots(s, p, k)->Ok_0.0 == items);
        assert forall|i: int| 0 <= i < items.len() implies ((#[trigger] items[i] is Unusable) <==> (i
            >= 1 && is_wide(items[i - 1]))) by {
            if i >= w {
                assert(items[i] == rest[i - w]);
                if i > w {
                    assert(items[i - 1] == rest[i - w - 1]);
                }
            }
        }
        assert forall|i: int| 0 <= i < items.len() && is_wide(#[trigger] items[i]) implies i + 1
            < items.len() by {
            if i >= w {
                assert(items[i] == rest[i - w]);
            }
        }
    }
}

/// In a loaded pool of `count` declared entries, index 0 names nothing, and
/// every index from 1 to `count - 1` names an entry, but the slot that
/// follows a wide constant.
pub proof fn lemma_pool_indices(s: Seq<u8>, p: nat, count: u16)
    requires
        spec_pool(s, p, count) is Ok,
    ensures
        ({
            let pool = spec_pool(s, p, count)->Ok_0.0;
            &&& pool.len() == slot_count(count)
            &&& pool_entry(pool, 0) is None
            &&& forall|i: int|
                1 <= i < count ==> ((#[trigger] pool_entry(pool, i) is Some) <==> !(i >= 2
                    && is_wide(pool[i - 2])))
        }),
{
    lemma_slots_wf(s, p, slot_count(count));
    let pool = spec_pool(s, p, count)->Ok_0.0;
    assert forall|i: int| 1 <= i < count implies ((#[trigger] pool_entry(pool, i) is Some) <==> !(i
        >= 2 && is_wide(pool[i - 2]))) by {
        assert(pool[i - 1] is Unusable <==> (i - 1 >= 1 && is_wide(pool[i - 2])));
    }
}

/// The big-endian bytes of `v`.
pub open spec fn u16_bytes(v: u16) -> Seq<u8> {
    seq![(v / 256) as u8, (v % 256) as u8]
}

/// The big-endian bytes of `v`.
pub open spec fn u32_bytes(v: u32) -> Seq<u8> {
    u16_bytes((v / 0x1_0000) as u16) + u16_bytes((v % 0x1_0000) as u16)
}

/// The big-endian bytes of `v`.
pub open spec fn u64_bytes(v: u64) -> Seq<u8> {
    u32_bytes((v / 0x1_0000_0000) as u32) + u32_bytes((v % 0x1_0000_0000) as u32)
}

/// The tagged bytes that encode a pool entry; the slot after a wide
/// constant encodes to nothing.
pub open spec fn encode_constant(c: ConstantModel) -> Seq<u8> {
    match c {
        ConstantModel::Utf8(b) => seq![1u8] + u16_bytes(b.len() as u16) + b,
        ConstantModel::Integer(v) => seq![3u8] + u32_bytes(v as u32),
        ConstantModel::Float(v) => seq![4u8] + u32_bytes(v),
        ConstantModel::Long(v) => seq![5u8] + u64_bytes(v as u64),
        ConstantModel::Double(v) => seq![6u8] + u64_bytes(v),
        ConstantModel::Class(i) => seq![7u8] + u16_bytes(i),
        ConstantModel::String(i) => seq![8u8] + u16_bytes(i),
        ConstantModel::FieldRef { class_index, nametype_index } => seq![9u8] + u16_bytes(
            class_index,
        ) + u16_bytes(nametype_index),
        ConstantModel::MethodRef { class_index, nametype_index } => seq![10u8] + u16_bytes(
            class_index,
        ) + u16_bytes(nametype_index),
        ConstantModel::InterfaceMethodRef { class_index, nametype_index } => seq![11u8]
            + u16_bytes(class_index) + u16_bytes(nametype_index),
        ConstantModel::NameAndType { name_index, descriptor_index } => seq![12u8] + u16_bytes(
            name_index,
        ) + u16_bytes(descriptor_index),
        ConstantModel::Unusable => Seq::empty(),
    }
}

/// The bytes that encode a run of pool slots, in order.
pub open spec fn encode_slots(items: Seq<ConstantModel>) -> Seq<u8>
    decreases items.len(),
{
    if items.len() == 0 {
        Seq::empty()
    } else {
        encode_constant(items[0]) + encode_slots(items.drop_first())
    }
}

pub(crate) proof fn lemma_be16_bytes(s: Seq<u8>, p: int)
    requires
        0 <= p,
        p + 2 <= s.len(),
    ensures
        s.subrange(p, p + 2) == u16_bytes(be16(s, p)),
{
    let a = s[p] as int;
    let b = s[p + 1] as int;
    assert((a * 256 + b) / 256 == a && (a * 256 + b) % 256 == b) by (nonlinear_arith)
        requires
            0 <= a < 256,
            0 <= b < 256,
    ;
    assert(s.subrange(p, p + 2) =~= u16_bytes(be16(s, p)));
}

proof fn lemma_be32_bytes(s: Seq<u8>, p: int)
    requires
        0 <= p,
        p + 4 <= s.len(),
    ensures
        s.subrange(p, p + 4) == u32_bytes(be32(s, p)),
{
    let hi = be16(s, p) as int;
    let lo = be16(s, p + 2) as int;
    assert(be32(s, p) == hi * 0x1_0000 + lo);
    assert((hi * 0x1_0000 + lo) / 0x1_0000 == hi && (hi * 0x1_0000 + lo) % 0x1_0000 == lo)
        by (nonlinear_arith)
        requires
            0 <= hi < 0x1_0000,
            0 <= lo < 0x1_0000,
    ;
    lemma_be16_bytes(s, p);
    lemma_be16_bytes(s, p + 2);
    assert(s.subrange(p, p + 4) =~= s.subrange(p, p + 2) + s.subrange(p + 2, p + 4));
}

proof fn lemma_be64_bytes(s: Seq<u8>, p: int)
    requires
        0 <= p,
        p + 8 <= s.len(),
    ensures
        s.subrange(p, p + 8) == u64_bytes(be64(s, p)),
{
    let hi = be32(s, p) as int;
    let lo = be32(s, p + 4) as int;
    assert((hi * 0x1_0000_0000 + lo) / 0x1_0000_0000 == hi && (hi * 0x1_0000_0000 + lo)
        % 0x1_0000_0000 == lo) by (nonlinear_arith)
        requires
            0 <= hi < 0x1_0000_0000,
            0 <= lo < 0x1_0000_0000,
    ;
    assert(hi * 0x1_0000_0000 + lo <= 0xffff_ffff_ffff_ffff) by (nonlinear_arith)
        requires
            0 <= hi < 0x1_0000_0000,
            0 <= lo < 0x1_0000_0000,
    ;
    lemma_be32_bytes(s, p);
    lemma_be32_bytes(s, p + 4);
    assert(s.subrange(p, p + 8) =~= s.subrange(p, p + 4) + s.subrange(p + 4, p + 8));
}

/// A read pool entry encodes back to the bytes it was read from.
proof fn lemma_constant_round_trip(s: Seq<u8>, p: nat)
    requires
        spec_constant(s, p) is Ok,
    ensures
        ({
            let (c, q) = spec_constant(s, p)->Ok_0;
            p < q <= s.len() && s.subrange(p as int, q as int) == encode_constant(c)
        }),
{
    let (c, q) = spec_constant(s, p)->Ok_0;
    let tag = s[p as int];
    let r: int = p as int + 1;
    if tag == 1 {
        lemma_be16_bytes(s, r);
        let n = be16(s, r);
        assert(s.subrange(p as int, q as int) =~= seq![tag] + s.subrange(r, r + 2) + s.subrange(
            r + 2,
            q as int,
        ));
    } else if tag == 3 || tag == 4 {
        lemma_be32_bytes(s, r);
        let v = be32(s, r);
        assert((v as i32) as u32 == v) by (bit_vector);
        assert(s.subrange(p as int, q as int) =~= seq![tag] + s.subrange(r, r + 4));
        assert(encode_constant(c) == seq![tag] + u32_bytes(v));
    } else if tag == 5 || tag == 6 {
        lemma_be64_bytes(s, r);
        let v = be64(s, r);
        assert((v as i64) as u64 == v) by (bit_vector);
        assert(s.subrange(p as int, q as int) =~= seq![tag] + s.subrange(r, r + 8));
        assert(encode_constant(c) == seq![tag] + u64_bytes(v));
    } else if tag == 7 || tag == 8 {
        lemma_be16_bytes(s, r);
        assert(s.subrange(p as int, q as int) =~= seq![tag] + s.subrange(r, r + 2));
        assert(encode_constant(c) == seq![tag] + u16_bytes(be16(s, r)));
    } else {
        lemma_be16_bytes(s, r);
        lemma_be16_bytes(s, r + 2);
        assert(s.subrange(p as int, q as int) =~= seq![tag] + s.subrange(r, r + 2) + s.subrange(
            r + 2,
            r + 4,
        ));
        assert(encode_constant(c) == seq![tag] + u16_bytes(be16(s, r)) + u16_bytes(be16(s, r + 2)));
    }
}

/// Read pool slots encode back to the bytes they were read from.
proof fn lemma_slots_round_trip(s: Seq<u8>, p: nat, k: nat)
    requires
        p <= s.len(),
        spec_slots(s, p, k) is Ok,
    ensures
        ({
            let (items, q) = spec_slots(s, p, k)->Ok_0;
            p <= q <= s.len() && s.subrange(p as int, q as int) == encode_slots(items)
        }),
    decreases k,
{
    if k == 0 {
        assert(s.subrange(p as int, p as int) =~= Seq::<u8>::empty());
    } else {
        lemma_constant_round_trip(s, p);
        let (c, q1) = spec_constant(s, p)->Ok_0;
        let w: nat = if is_wide(c) { 2 } else { 1 };
        lemma_slots_round_trip(s, q1, (k - w) as nat);
        let (rest, q) = spec_slots(s, q1, (k - w) as nat)->Ok_0;
        let items = spec_slots(s, p, k)->Ok_0.0;
        assert(s.subrange(p as int, q as int) =~= s.subrange(p as int, q1 as int) + s.subrange(
            q1 as int,
            q as int,
        ));
        if is_wide(c) {
            assert(items.drop_first() =~= seq![ConstantModel::Unusable] + rest);
            assert((seq![ConstantModel::Unusable] + rest).drop_first() =~= rest);
            assert(encode_slots(seq![ConstantModel::Unusable] + rest) =~= encode_slots(rest));
        } else {
            assert(items.drop_first() =~= rest);
        }
    }
}

/// Loading a constant pool and writing its slots back out, in order, gives
/// exactly the bytes it was loaded from: entries keep their order, hence
/// their indices.
pub proof fn lemma_pool_round_trip(s: Seq<u8>, p: nat, count: u16)
    requires
        p <= s.len(),
        spec_pool(s, p, count) is Ok,
    ensures
        ({
            let (pool, q) = spec_pool(s, p, count)->Ok_0;
            s.subrange(p as int, q as int) == encode_slots(pool)
        }),
{
    lemma_slots_round_trip(s, p, slot_count(count));
}

} // verus!
