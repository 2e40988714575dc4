//! The structure-block token format: byte-level readers and their models.
use crate::error::DtError;
use vstd::prelude::*;
use vstd::slice::slice_subrange;
use vstd::string::StringSliceAdditionalSpecFns;
use vstd::utf8::valid_utf8;

verus! {

/// Opens a node; its NUL-terminated name follows.
pub const FDT_BEGIN_NODE: u32 = 0x1;

/// Closes the innermost open node.
pub const FDT_END_NODE: u32 = 0x2;

/// A property: value length, name offset, then the value.
pub const FDT_PROP: u32 = 0x3;

/// Carries nothing; readers skip it.
pub const FDT_NOP: u32 = 0x4;

/// Ends the structure block.
pub const FDT_END: u32 = 0x9;

/// The big-endian 32-bit value of four bytes.
pub open spec fn be32(b0: u8, b1: u8, b2: u8, b3: u8) -> u32 {
    (b0 as u32) << 24u32 | (b1 as u32) << 16u32 | (b2 as u32) << 8u32 | (b3 as u32)
}

/// The big-endian 32-bit value stored at `s[i..i + 4]`.
pub open spec fn be32_at(s: Seq<u8>, i: int) -> u32 {
    be32(s[i], s[i + 1], s[i + 2], s[i + 3])
}

/// The big-endian 64-bit value stored at `s[i..i + 8]`.
pub open spec fn be64_at(s: Seq<u8>, i: int) -> u64 {
    (be32_at(s, i) as u64) << 32u64 | (be32_at(s, i + 4) as u64)
}

/// The smallest multiple of 4 that is at least `n`.
pub open spec fn align4(n: int) -> int {
    (n + 3) / 4 * 4
}

/// The index of the first NUL byte at or after `i`, or `s.len()` if there is none.
pub open spec fn nul_at(s: Seq<u8>, i: int) -> int
    decreases s.len() - i,
{
    if i < 0 || i >= s.len() {
        s.len() as int
    } else if s[i] == 0 {
        i
    } else {
        nul_at(s, i + 1)
    }
}

/// A length that leaves room to step one token past the end without overflow.
pub open spec fn addressable(s: Seq<u8>) -> bool {
    s.len() + 16 <= usize::MAX
}

/// One decoded token of the structure block, with the offsets of its payload
/// and of the token that follows it.
#[derive(Debug, Clone, Copy, PartialEq, Eq, Structural)]
pub enum Token {
    /// `BEGIN_NODE`; the name runs from the token's end up to `name_end` (the NUL).
    Begin { name_end: usize, next: usize },
    EndNode { next: usize },
    /// `PROP`; the name is `strings[name_start..name_end]`, the value
    /// `structure[value_start..value_end]`.
    Prop { name_start: usize, name_end: usize, value_start: usize, value_end: usize, next: usize },
    Nop { next: usize },
    End { next: usize },
}

impl Token {
    /// Offset of the token that follows this one.
    pub open spec fn next_spec(self) -> usize {
        match self {
            Token::Begin { next, .. } => next,
            Token::EndNode { next } => next,
            Token::Prop { next, .. } => next,
            Token::Nop { next } => next,
            Token::End { next } => next,
        }
    }

    /// Offset of the token that follows this one.
    pub fn next(&self) -> (r: usize)
        ensures
            r == self.next_spec(),
    {
        match self {
            Token::Begin { next, .. } => *next,
            Token::EndNode { next } => *next,
            Token::Prop { next, .. } => *next,
            Token::Nop { next } => *next,
            Token::End { next } => *next,
        }
    }
}

/// The `PROP` record whose token is at `off`: an 8-byte header (value length,
/// name offset into `t`), then the value, then padding to a 4-byte boundary.
pub open spec fn prop_token(s: Seq<u8>, t: Seq<u8>, off: int) -> Result<Token, DtError> {
    if off + 12 > s.len() {
        Err(DtError::OffsetOutOfBounds)
    } else {
        let len = be32_at(s, off + 4) as int;
        let name_start = be32_at(s, off + 8) as int;
        let name_end = nul_at(t, name_start);
        if name_start >= t.len() {
            Err(DtError::OffsetOutOfBounds)
        } else if name_end >= t.len() {
            Err(DtError::UnterminatedString)
        } else if !valid_utf8(t.subrange(name_start, name_end)) {
            Err(DtError::InvalidUtf8)
        } else if off + 12 + len > s.len() {
            Err(DtError::OffsetOutOfBounds)
        } else {
            Ok(
                Token::Prop {
                    name_start: name_start as usize,
                    name_end: name_end as usize,
                    value_start: (off + 12) as usize,
                    value_end: (off + 12 + len) as usize,
                    next: align4(off + 12 + len) as usize,
                },
            )
        }
    }
}

/// The token at offset `off` of structure block `s`, with strings block `t`.
pub open spec fn token(s: Seq<u8>, t: Seq<u8>, off: int) -> Result<Token, DtError> {
    if off < 0 || off + 4 > s.len() {
        Err(DtError::OffsetOutOfBounds)
    } else {
        let tag = be32_at(s, off);
        if tag == FDT_BEGIN_NODE {
            let name_end = nul_at(s, off + 4);
            if name_end >= s.len() {
                Err(DtError::UnterminatedString)
            } else if !valid_utf8(s.subrange(off + 4, name_end)) {
                Err(DtError::InvalidUtf8)
            } else {
                Ok(Token::Begin { name_end: name_end as usize, next: align4(name_end + 1) as usize })
            }
        } else if tag == FDT_END_NODE {
            Ok(Token::EndNode { next: (off + 4) as usize })
        } else if tag == FDT_PROP {
            prop_token(s, t, off)
        } else if tag == FDT_NOP {
            Ok(Token::Nop { next: (off + 4) as usize })
        } else if tag == FDT_END {
            Ok(Token::End { next: (off + 4) as usize })
        } else {
            Err(DtError::MalformedToken)
        }
    }
}

/// A decoded token always moves the cursor forward, and never further than
/// three padding bytes past the block's end.
pub proof fn lemma_token_advances(s: Seq<u8>, t: Seq<u8>, off: int)
    requires
        addressable(s),
        t.len() <= usize::MAX,
        token(s, t, off) is Ok,
    ensures
        off < token(s, t, off)->Ok_0.next_spec() <= s.len() + 3,
        token(s, t, off) matches Ok(Token::Begin { name_end, .. }) ==> (off + 4 <= name_end
            < s.len() && valid_utf8(s.subrange(off + 4, name_end as int))),
        token(s, t, off) matches Ok(
            Token::Prop { name_start, name_end, value_start, value_end, .. },
        ) ==> (name_start <= name_end < t.len() && valid_utf8(
            t.subrange(name_start as int, name_end as int),
        ) && off + 12 == value_start <= value_end <= s.len()),
{
    let tag = be32_at(s, off);
    if tag == FDT_BEGIN_NODE {
        lemma_nul_at_bounds(s, off + 4);
    } else if tag == FDT_PROP {
        lemma_nul_at_bounds(t, be32_at(s, off + 8) as int);
    }
}

/// `nul_at` finds the first NUL at or after `i`, or the end.
pub proof fn lemma_nul_at_bounds(s: Seq<u8>, i: int)
    ensures
        0 <= i <= s.len() ==> i <= nul_at(s, i),
        nul_at(s, i) <= s.len(),
        nul_at(s, i) < s.len() ==> s[nul_at(s, i)] == 0,
        0 <= i ==> forall|k: int| i <= k < nul_at(s, i) ==> s[k] != 0,
    decreases s.len() - i,
{
    if i >= 0 && i < s.len() && s[i] != 0 {
        lemma_nul_at_bounds(s, i + 1);
    }
}

/// Reads the big-endian 32-bit value at `s[i..i + 4]`.
pub fn read_be32(s: &[u8], i: usize) -> (r: u32)
    requires
        i + 4 <= s@.len(),
    ensures
        r == be32_at(s@, i as int),
{
    (s[i] as u32) << 24u32 | (s[i + 1] as u32) << 16u32 | (s[i + 2] as u32) << 8u32 | (s[i + 3] as u32)
}

/// Reads the big-endian 64-bit value at `s[i..i + 8]`.
pub fn read_be64(s: &[u8], i: usize) -> (r: u64)
    requires
        i + 8 <= s@.len(),
    ensures
        r == be64_at(s@, i as int),
{
    let hi = read_be32(s, i);
    assert(i + 4 < s.len());
    let lo = read_be32(s, i + 4);
    (hi as u64) << 32u64 | (lo as u64)
}

/// Rounds `n` up to the next multiple of 4.
pub fn align_offset(n: usize) -> (r: usize)
    requires
        n + 3 <= usize::MAX,
    ensures
        r == align4(n as int),
        n <= r <= n + 3,
        r % 4 == 0,
{
    (n + 3) / 4 * 4
}

/// Index of the first NUL byte at or after `start`, or `s.len()` if none.
pub fn find_nul(s: &[u8], start: usize) -> (r: usize)
    ensures
        r == nul_at(s@, start as int),
{
    if start >= s.len() {
        return s.len();
    }
    let mut i: usize = start;
    while i < s.len() && s[i] != 0
        invariant
            start <= i <= s@.len(),
            nul_at(s@, i as int) == nul_at(s@, start as int),
        decreases s@.len() - i,
    {
        i = i + 1;
    }
    i
}

/// Relies on `core::str::from_utf8`: it accepts exactly the byte strings that
/// are valid UTF-8, and the accepted `str` is made of those same bytes.
#[verifier::external_body]
pub(crate) fn str_from_utf8<'a>(b: &'a [u8]) -> (r: Option<&'a str>)
    ensures
        r is Some <==> valid_utf8(b@),
        r matches Some(s) ==> s.spec_bytes() == b@,
{
    core::str::from_utf8(b).ok()
}

/// The text of `s[start..end]`, if it is valid UTF-8.
pub fn utf8_slice<'a>(s: &'a [u8], start: usize, end: usize) -> (r: Option<&'a str>)
    requires
        start <= end <= s@.len(),
    ensures
        r is Some <==> valid_utf8(s@.subrange(start as int, end as int)),
        r matches Some(x) ==> x.spec_bytes() == s@.subrange(start as int, end as int),
{
    str_from_utf8(slice_subrange(s, start, end))
}

/// The raw 32-bit token word at `off`, or `None` if it does not fit in `s`.
pub fn read_struct_token(s: &[u8], off: usize) -> (r: Option<u32>)
    ensures
        off + 4 <= s@.len() ==> r == Some(be32_at(s@, off as int)),
        off + 4 > s@.len() ==> r is None,
{
    if off > s.len() || s.len() - off < 4 {
        None
    } else {
        Some(read_be32(s, off))
    }
}

/// Decodes the token at `off`: the cursor primitive every traversal is built on.
/// No byte outside `s` or `t` is read.
pub fn read_token(s: &[u8], t: &[u8], off: usize) -> (r: Result<Token, DtError>)
    requires
        addressable(s@),
    ensures
        r == token(s@, t@, off as int),
{
    let tag = match read_struct_token(s, off) {
        Some(tag) => tag,
        None => {
            return Err(DtError::OffsetOutOfBounds);
        },
    };
    if tag == FDT_BEGIN_NODE {
        let name_end = find_nul(s, off + 4);
        proof {
            lemma_nul_at_bounds(s@, off + 4);
        }
        if name_end >= s.len() {
            Err(DtError::UnterminatedString)
        } else if utf8_slice(s, off + 4, name_end).is_none() {
            Err(DtError::InvalidUtf8)
        } else {
            Ok(Token::Begin { name_end, next: align_offset(name_end + 1) })
        }
    } else if tag == FDT_END_NODE {
        Ok(Token::EndNode { next: off + 4 })
    } else if tag == FDT_PROP {
        parse_property(s, t, off)
    } else if tag == FDT_NOP {
        Ok(Token::Nop { next: off + 4 })
    } else if tag == FDT_END {
        Ok(Token::End { next: off + 4 })
    } else {
        Err(DtError::MalformedToken)
    }
}

fn parse_property(s: &[u8], t: &[u8], off: usize) -> (r: Result<Token, DtError>)
    requires
        addressable(s@),
        off + 4 <= s@.len(),
    ensures
        r == prop_token(s@, t@, off as int),
{
    if s.len() - off < 12 {
        return Err(DtError::OffsetOutOfBounds);
    }
    let len = read_be32(s, off + 4) as usize;
    let name_start = read_be32(s, off + 8) as usize;
    let name_end = find_nul(t, name_start);
    proof {
        lemma_nul_at_bounds(t@, name_start as int);
    }
    if name_start >= t.len() {
        Err(DtError::OffsetOutOfBounds)
    } else if name_end >= t.len() {
        Err(DtError::UnterminatedString)
    } else if utf8_slice(t, name_start, name_end).is_none() {
        Err(DtError::InvalidUtf8)
    } else if s.len() - (off + 12) < len {
        Err(DtError::OffsetOutOfBounds)
    } else {
        let value_end = off + 12 + len;
        Ok(
            Token::Prop {
                name_start,
                name_end,
                value_start: off + 12,
                value_end,
                next: align_offset(value_end),
            },
        )
    }
}

} // verus!
