use vstd::prelude::*;

verus! {

/// Every way in which encoding or decoding can fail.
#[derive(Clone, Copy, Debug, PartialEq, Eq, Structural)]
pub enum CodecError {
    /// The reader holds fewer bytes than the field needs.
    UnexpectedEnd,
    /// A variable-length integer carries more groups than its width allows.
    OverlongVarNum,
    /// A boolean byte other than 0 or 1; the byte is kept.
    MalformedBoolean(u8),
    /// A string's byte length lies outside its cap.
    StringLength,
    /// String bytes that are not UTF-8.
    InvalidUtf8,
    /// A tagged union's discriminant names no variant; the index is kept.
    UnknownDiscriminant(i32),
    /// A tagged optional whose flag is set holds no payload.
    MissingPayload,
    /// A negative element count in front of a sequence.
    NegativeCount,
    /// The bytes do not start with a complete named binary tag.
    InvalidNbt,
    /// A size does not fit in a VarInt.
    SizeOverflow,
}

} // verus!
