use vstd::prelude::*;
use vstd::slice::slice_subrange;

use crate::errors::ParsingError;

verus! {

/// The big-endian 16-bit value of the two bytes of `s` at `p`.
pub open spec fn be16(s: Seq<u8>, p: int) -> u16 {
    (s[p] as int * 256 + s[p + 1] as int) as u16
}

/// The big-endian 32-bit value of the four bytes of `s` at `p`.
pub open spec fn be32(s: Seq<u8>, p: int) -> u32 {
    (((s[p] as int * 256 + s[p + 1] as int) * 256 + s[p + 2] as int) * 256
        + s[p + 3] as int) as u32
}

/// A fixed-width value read from big-endian bytes.
pub trait FromData: Sized {
    /// How many bytes the value takes.
    spec fn spec_size() -> nat;

    /// The value that `bytes` (exactly `spec_size()` of them) encode.
    spec fn spec_from_bytes(bytes: Seq<u8>) -> Self;

    fn size() -> (n: usize)
        ensures
            n == Self::spec_size(),
    ;

    fn parse(data: &[u8]) -> (r: Option<Self>)
        ensures
            data@.len() == Self::spec_size() ==> r == Some(Self::spec_from_bytes(data@)),
            data@.len() != Self::spec_size() ==> r is None,
    ;
}

impl FromData for u8 {
    open spec fn spec_size() -> nat {
        1
    }

    open spec fn spec_from_bytes(bytes: Seq<u8>) -> u8 {
        bytes[0]
    }

    fn size() -> (n: usize) {
        1
    }

    fn parse(data: &[u8]) -> (r: Option<u8>) {
        if data.len() == 1 {
            Some(data[0])
        } else {
            None
        }
    }
}

impl FromData for u16 {
    open spec fn spec_size() -> nat {
        2
    }

    open spec fn spec_from_bytes(bytes: Seq<u8>) -> u16 {
        be16(bytes, 0)
    }

    fn size() -> (n: usize) {
        2
    }

    fn parse(data: &[u8]) -> (r: Option<u16>) {
        if data.len() == 2 {
            Some((data[0] as u16) * 256 + data[1] as u16)
        } else {
            None
        }
    }
}

impl FromData for u32 {
    open spec fn spec_size() -> nat {
        4
    }

    open spec fn spec_from_bytes(bytes: Seq<u8>) -> u32 {
        be32(bytes, 0)
    }

    fn size() -> (n: usize) {
        4
    }

    fn parse(data: &[u8]) -> (r: Option<u32>) {
        if data.len() == 4 {
            let hi = (data[0] as u32) * 256 + data[1] as u32;
            let mid = hi * 256 + data[2] as u32;
            Some(mid * 256 + data[3] as u32)
        } else {
            None
        }
    }
}

/// A forward-only reader over a borrowed byte buffer. No read panics: a read
/// past the end returns `None` and leaves the position where it was.
pub struct Stream<'a> {
    data: &'a [u8],
    offset: usize,
}

impl<'a> Stream<'a> {
    /// The whole buffer being read.
    pub closed spec fn bytes(&self) -> Seq<u8> {
        self.data@
    }

    /// The offset of the next byte to be read.
    pub closed spec fn pos(&self) -> nat {
        self.offset as nat
    }

    /// Whether `n` more bytes can be read.
    pub open spec fn has(&self, n: int) -> bool {
        self.pos() + n <= self.bytes().len()
    }

    pub fn new(data: &'a [u8]) -> (s: Stream<'a>)
        ensures
            s.bytes() == data@,
            s.pos() == 0,
    {
        Stream { data, offset: 0 }
    }

    /// The offset of the next byte to be read.
    pub fn position(&self) -> (r: usize)
        ensures
            r == self.pos(),
    {
        self.offset
    }

    /// Skips `len` bytes unconditionally, also past the end of the buffer;
    /// every later read then finds nothing. The position saturates at
    /// `usize::MAX` rather than wrap.
    pub fn advance(&mut self, len: usize)
        ensures
            final(self).bytes() == old(self).bytes(),
            old(self).pos() + len <= usize::MAX ==> final(self).pos() == old(self).pos() + len,
            old(self).pos() + len > usize::MAX ==> final(self).pos() == usize::MAX,
    {
        self.offset = self.offset.saturating_add(len);
    }

    /// Moves forward by the width of a `T`.
    pub fn skip<T: FromData>(&mut self)
        ensures
            final(self).bytes() == old(self).bytes(),
            old(self).pos() + T::spec_size() <= usize::MAX ==> final(self).pos() == old(self).pos()
                + T::spec_size(),
            old(self).pos() + T::spec_size() > usize::MAX ==> final(self).pos() == usize::MAX,
    {
        let n = T::size();
        self.advance(n);
    }

    /// Reads the next `len` bytes.
    pub fn read_bytes(&mut self, len: usize) -> (r: Option<&'a [u8]>)
        ensures
            final(self).bytes() == old(self).bytes(),
            old(self).has(len as int) ==> {
                &&& r matches Some(b)
                &&& b@ == old(self).bytes().subrange(
                    old(self).pos() as int,
                    old(self).pos() + len as int,
                )
                &&& final(self).pos() == old(self).pos() + len
            },
            !old(self).has(len as int) ==> r is None && final(self).pos() == old(self).pos(),
    {
        if self.offset <= self.data.len() && len <= self.data.len() - self.offset {
            let slice = slice_subrange(self.data, self.offset, self.offset + len);
            self.offset = self.offset + len;
            Some(slice)
        } else {
            None
        }
    }

    /// Reads the next value of type `T`.
    pub fn read<T: FromData>(&mut self) -> (r: Option<T>)
        ensures
            final(self).bytes() == old(self).bytes(),
            old(self).has(T::spec_size() as int) ==> {
                &&& r == Some(
                    T::spec_from_bytes(
                        old(self).bytes().subrange(
                            old(self).pos() as int,
                            (old(self).pos() + T::spec_size()) as int,
                        ),
                    ),
                )
                &&& final(self).pos() == old(self).pos() + T::spec_size()
            },
            !old(self).has(T::spec_size() as int) ==> r is None && final(self).pos() == old(
                self,
            ).pos(),
    {
        let n = T::size();
        match self.read_bytes(n) {
            Some(b) => T::parse(b),
            None => None,
        }
    }

    /// Reads one element that knows its own layout.
    pub fn read_element<T: FromSlice>(&mut self) -> (r: Result<T, ParsingError>)
        ensures
            T::parsed_from(old(self).bytes(), old(self).pos(), r, final(self).bytes(), final(self).pos()),
    {
        T::parse(self)
    }

    /// Reads a collection of `count` elements.
    pub fn read_array<T: FromSeries>(&mut self, count: u16) -> (r: Result<T, ParsingError>)
        ensures
            T::parsed_from(old(self).bytes(), old(self).pos(), count, r, final(self).bytes(), final(self).pos()),
    {
        T::parse(self, count)
    }
}

/// Reads a `u8` field; the data ending first is a missing field.
pub fn read_field_u8(stream: &mut Stream) -> (r: Result<u8, ParsingError>)
    ensures
        final(stream).bytes() == old(stream).bytes(),
        old(stream).has(1) ==> r == Ok::<u8, ParsingError>(old(stream).bytes()[old(stream).pos() as int])
            && final(stream).pos() == old(stream).pos() + 1,
        !old(stream).has(1) ==> r == Err::<u8, ParsingError>(ParsingError::MissingField),
{
    match stream.read::<u8>() {
        Some(v) => Ok(v),
        None => Err(ParsingError::MissingField),
    }
}

/// Reads a big-endian `u16` field; the data ending first is a missing field.
pub fn read_field_u16(stream: &mut Stream) -> (r: Result<u16, ParsingError>)
    ensures
        final(stream).bytes() == old(stream).bytes(),
        old(stream).has(2) ==> r == Ok::<u16, ParsingError>(be16(old(stream).bytes(), old(stream).pos() as int))
            && final(stream).pos() == old(stream).pos() + 2,
        !old(stream).has(2) ==> r == Err::<u16, ParsingError>(ParsingError::MissingField),
{
    match stream.read::<u16>() {
        Some(v) => Ok(v),
        None => Err(ParsingError::MissingField),
    }
}

/// Reads a big-endian `u32` field; the data ending first is a missing field.
pub fn read_field_u32(stream: &mut Stream) -> (r: Result<u32, ParsingError>)
    ensures
        final(stream).bytes() == old(stream).bytes(),
        old(stream).has(4) ==> r == Ok::<u32, ParsingError>(be32(old(stream).bytes(), old(stream).pos() as int))
            && final(stream).pos() == old(stream).pos() + 4,
        !old(stream).has(4) ==> r == Err::<u32, ParsingError>(ParsingError::MissingField),
{
    match stream.read::<u32>() {
        Some(v) => Ok(v),
        None => Err(ParsingError::MissingField),
    }
}

/// A value that reads itself from a stream.
pub trait FromSlice: Sized {
    /// What a read that starts at `p` in `s`, and yields `r` leaving the stream
    /// over `s2` at `q`, must satisfy.
    spec fn parsed_from(s: Seq<u8>, p: nat, r: Result<Self, ParsingError>, s2: Seq<u8>, q: nat) -> bool;

    fn parse(stream: &mut Stream) -> (r: Result<Self, ParsingError>)
        ensures
            Self::parsed_from(old(stream).bytes(), old(stream).pos(), r, final(stream).bytes(), final(stream).pos()),
    ;
}

/// A collection that reads a given number of elements from a stream.
pub trait FromSeries: Sized {
    /// What a read of `count` elements that starts at `p` in `s`, and yields
    /// `r` leaving the stream over `s2` at `q`, must satisfy.
    spec fn parsed_from(
        s: Seq<u8>,
        p: nat,
        count: u16,
        r: Result<Self, ParsingError>,
        s2: Seq<u8>,
        q: nat,
    ) -> bool;

    fn parse(stream: &mut Stream, count: u16) -> (r: Result<Self, ParsingError>)
        ensures
            Self::parsed_from(
                old(stream).bytes(),
                old(stream).pos(),
                count,
                r,
                final(stream).bytes(),
                final(stream).pos(),
            ),
    ;
}

} // verus!
