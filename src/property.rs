//! A property: a name from the strings block and a raw value from the structure block.
use crate::format::{be32, be32_at, be64_at, read_be32, read_be64, str_from_utf8};
use vstd::prelude::*;
use vstd::slice::slice_subrange;
use vstd::string::StringSliceAdditionalSpecFns;
use vstd::utf8::valid_utf8;

verus! {

/// A property borrowed from the blob; nothing is copied.
#[derive(Debug, Clone, Copy)]
pub struct Property<'a> {
    pub name: &'a str,
    pub value: &'a [u8],
}

/// The four big-endian bytes of `x`.
pub open spec fn be32_bytes(x: u32) -> Seq<u8> {
    seq![(x >> 24u32) as u8, (x >> 16u32) as u8, (x >> 8u32) as u8, x as u8]
}

/// The eight big-endian bytes of `x`.
pub open spec fn be64_bytes(x: u64) -> Seq<u8> {
    be32_bytes((x >> 32u64) as u32) + be32_bytes(x as u32)
}

/// The bytes of a string value: everything before the final NUL, if the
/// value ends in one.
pub open spec fn string_bytes(v: Seq<u8>) -> Option<Seq<u8>> {
    if v.len() > 0 && v.last() == 0 {
        Some(v.drop_last())
    } else {
        None
    }
}

impl<'a> Property<'a> {
    pub fn new(name: &'a str, value: &'a [u8]) -> (r: Self)
        ensures
            r.name == name,
            r.value == value,
    {
        Property { name, value }
    }

    /// The property's name.
    pub fn name(&self) -> (r: &'a str)
        ensures
            r == self.name,
    {
        self.name
    }

    /// The property's raw value bytes.
    pub fn value(&self) -> (r: &'a [u8])
        ensures
            r == self.value,
    {
        self.value
    }

    /// The value as text: it must end in a NUL, and the bytes before it must
    /// be valid UTF-8.
    pub fn as_string(&self) -> (r: Option<&'a str>)
        ensures
            r is Some <==> (string_bytes(self.value@) matches Some(b) && valid_utf8(b)),
            r matches Some(s) ==> Some(s.spec_bytes()) == string_bytes(self.value@),
    {
        let n = self.value.len();
        if n == 0 {
            return None;
        }
        if self.value[n - 1] != 0 {
            return None;
        }
        let text = slice_subrange(self.value, 0, n - 1);
        assert(text@ =~= self.value@.drop_last());
        str_from_utf8(text)
    }

    /// The value as a big-endian 32-bit integer, if it is exactly 4 bytes long.
    pub fn as_u32(&self) -> (r: Option<u32>)
        ensures
            r is Some <==> self.value@.len() == 4,
            r matches Some(x) ==> x == be32_at(self.value@, 0),
    {
        if self.value.len() == 4 {
            Some(read_be32(self.value, 0))
        } else {
            None
        }
    }

    /// The value as a big-endian 64-bit integer, if it is exactly 8 bytes long.
    pub fn as_u64(&self) -> (r: Option<u64>)
        ensures
            r is Some <==> self.value@.len() == 8,
            r matches Some(x) ==> x == be64_at(self.value@, 0),
    {
        if self.value.len() == 8 {
            Some(read_be64(self.value, 0))
        } else {
            None
        }
    }
}

proof fn lemma_be32_split(b0: u8, b1: u8, b2: u8, b3: u8)
    ensures
        ({
            let x = be32(b0, b1, b2, b3);
            (x >> 24u32) as u8 == b0 && (x >> 16u32) as u8 == b1 && (x >> 8u32) as u8 == b2
                && x as u8 == b3
        }),
{
    let x = be32(b0, b1, b2, b3);
    assert(x == (b0 as u32) << 24u32 | (b1 as u32) << 16u32 | (b2 as u32) << 8u32 | (b3 as u32));
    assert({
        let x = (b0 as u32) << 24u32 | (b1 as u32) << 16u32 | (b2 as u32) << 8u32 | (b3 as u32);
        (x >> 24u32) as u8 == b0 && (x >> 16u32) as u8 == b1 && (x >> 8u32) as u8 == b2
            && x as u8 == b3
    }) by (bit_vector);
}

proof fn lemma_be32_join(x: u32)
    ensures
        be32((x >> 24u32) as u8, (x >> 16u32) as u8, (x >> 8u32) as u8, x as u8) == x,
{
    assert((((x >> 24u32) as u8) as u32) << 24u32 | (((x >> 16u32) as u8) as u32) << 16u32 | (((
    x >> 8u32) as u8) as u32) << 8u32 | ((x as u8) as u32) == x) by (bit_vector);
}

proof fn lemma_u64_halves(hi: u32, lo: u32)
    ensures
        (((hi as u64) << 32u64 | (lo as u64)) >> 32u64) as u32 == hi,
        ((hi as u64) << 32u64 | (lo as u64)) as u32 == lo,
{
    assert((((hi as u64) << 32u64 | (lo as u64)) >> 32u64) as u32 == hi) by (bit_vector);
    assert(((hi as u64) << 32u64 | (lo as u64)) as u32 == lo) by (bit_vector);
}

/// Reading four bytes as a big-endian 32-bit integer loses nothing: the
/// integer's big-endian bytes are the bytes that were read, and the other way round.
pub proof fn lemma_u32_round_trip(v: Seq<u8>, x: u32)
    requires
        v.len() == 4,
    ensures
        be32_bytes(be32_at(v, 0)) == v,
        be32_at(be32_bytes(x), 0) == x,
{
    lemma_be32_split(v[0], v[1], v[2], v[3]);
    assert(be32_bytes(be32_at(v, 0)) =~= v);
    lemma_be32_join(x);
}

/// Reading eight bytes as a big-endian 64-bit integer loses nothing: the
/// integer's big-endian bytes are the bytes that were read, and the other way round.
pub proof fn lemma_u64_round_trip(v: Seq<u8>, x: u64)
    requires
        v.len() == 8,
    ensures
        be64_bytes(be64_at(v, 0)) == v,
        be64_at(be64_bytes(x), 0) == x,
{
    let hi = be32_at(v, 0);
    let lo = be32_at(v, 4);
    lemma_u64_halves(hi, lo);
    lemma_be32_split(v[0], v[1], v[2], v[3]);
    lemma_be32_split(v[4], v[5], v[6], v[7]);
    assert(be64_bytes(be64_at(v, 0)) =~= v);
    let b = be64_bytes(x);
    lemma_be32_join((x >> 32u64) as u32);
    lemma_be32_join(x as u32);
    assert(be32_at(b, 0) == (x >> 32u64) as u32);
    assert(be32_at(b, 4) == x as u32);
    assert((((x >> 32u64) as u32) as u64) << 32u64 | ((x as u32) as u64) == x) by (bit_vector);
}

} // verus!
