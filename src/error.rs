use vstd::prelude::*;

verus! {

/// Why a blob, a node or a cursor step could not be decoded.
#[derive(Debug, Clone, Copy, PartialEq, Eq, Structural)]
pub enum DtError {
    /// The header's magic word is not `0xD00DFEED`.
    InvalidMagic,
    /// The header declares a total size of zero.
    EmptyBlob,
    /// The supplied region is shorter than the fixed header.
    TruncatedHeader,
    /// A block, name or value lies (partly) outside its validated range.
    OffsetOutOfBounds,
    /// An unknown token, or a token where the structure does not allow it.
    MalformedToken,
    /// A name has no NUL terminator inside its block.
    UnterminatedString,
    /// A name is not valid UTF-8.
    InvalidUtf8,
    /// The tree nests deeper than the walker was allowed to go.
    TooDeep,
}

} // verus!
