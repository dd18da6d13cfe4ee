use vstd::prelude::*;

use crate::error::CodecError;
use crate::reader::ByteReader;

verus! {

/// `out_after` is what encoding leaves in a writer that held `out_before`,
/// given the encoding `spec` of the value and the call's result `r`. A failed
/// encode leaves the writer as it was.
pub open spec fn encoded(
    spec: Result<Seq<u8>, CodecError>,
    out_before: Seq<u8>,
    out_after: Seq<u8>,
    r: Result<(), CodecError>,
) -> bool {
    match spec {
        Ok(bytes) => r is Ok && out_after == out_before + bytes,
        Err(e) => r == Err::<(), CodecError>(e) && out_after == out_before,
    }
}

/// The largest size a VarInt can report.
pub open spec fn max_size() -> nat {
    0x7fff_ffff
}

/// A byte count as a size: itself where it fits in a VarInt, an overflow
/// otherwise.
pub open spec fn size_of_len(n: nat) -> Result<nat, CodecError> {
    if n <= max_size() {
        Ok(n)
    } else {
        Err(CodecError::SizeOverflow)
    }
}

/// The sum of two sizes: the first error, or an overflow where the sum does
/// not fit in a VarInt.
pub open spec fn add_size_spec(a: Result<nat, CodecError>, b: Result<nat, CodecError>) -> Result<
    nat,
    CodecError,
> {
    match a {
        Err(e) => Err(e),
        Ok(x) => match b {
            Err(e) => Err(e),
            Ok(y) => size_of_len(x + y),
        },
    }
}

/// `r` is the outcome `spec` of a size computation.
pub open spec fn sized(spec: Result<nat, CodecError>, r: Result<crate::varnum::VarInt, CodecError>) -> bool {
    match spec {
        Ok(n) => r is Ok && r->Ok_0.0 == n,
        Err(e) => r == Err::<crate::varnum::VarInt, CodecError>(e),
    }
}

/// `size` agrees with `encode`: where the encoding exists, the size is its
/// length (or an overflow where that length does not fit in a VarInt).
pub open spec fn size_matches(enc: Result<Seq<u8>, CodecError>, size: Result<nat, CodecError>) -> bool {
    enc is Ok ==> size == size_of_len(enc->Ok_0.len())
}

/// Sizes of two encodings that follow each other add up.
pub proof fn lemma_then_size(
    ea: Result<Seq<u8>, CodecError>,
    sa: Result<nat, CodecError>,
    eb: Result<Seq<u8>, CodecError>,
    sb: Result<nat, CodecError>,
)
    requires
        size_matches(ea, sa),
        size_matches(eb, sb),
    ensures
        size_matches(then_encode(ea, eb), add_size_spec(sa, sb)),
{
}

/// Adds the size of one more part to the size of the parts before it.
pub fn add_size(
    acc: Result<crate::varnum::VarInt, CodecError>,
    sa: Ghost<Result<nat, CodecError>>,
    size: Result<crate::varnum::VarInt, CodecError>,
    sb: Ghost<Result<nat, CodecError>>,
) -> (r: Result<crate::varnum::VarInt, CodecError>)
    requires
        sized(sa@, acc),
        sized(sb@, size),
        sa@ is Ok ==> sa@->Ok_0 <= max_size(),
        sb@ is Ok ==> sb@->Ok_0 <= max_size(),
    ensures
        sized(add_size_spec(sa@, sb@), r),
{
    match acc {
        Err(e) => Err(e),
        Ok(a) => match size {
            Err(e) => Err(e),
            Ok(b) => {
                if a.0 > 0x7fff_ffff - b.0 {
                    Err(CodecError::SizeOverflow)
                } else {
                    Ok(crate::varnum::VarInt(a.0 + b.0))
                }
            },
        },
    }
}

/// The outcome `r` of a decode and the reader it leaves, given what the
/// decoder's specification `spec` says of the bytes it was handed.
pub open spec fn decoded<T: DeepView>(
    spec: Result<(T::V, nat), CodecError>,
    before: ByteReader,
    after: ByteReader,
    r: Result<T, CodecError>,
) -> bool {
    &&& after.wf()
    &&& after.data() == before.data()
    &&& before.pos() <= after.pos()
    &&& match spec {
        Ok((v, n)) => r is Ok && r->Ok_0.deep_view() == v && after.pos() == before.pos() + n,
        Err(e) => r == Err::<T, CodecError>(e),
    }
}

/// A type with a wire encoding.
pub trait Encodable: DeepView {
    /// The bytes that encoding a value with model `m` writes, or the error
    /// encoding stops with.
    spec fn spec_encode(m: Self::V) -> Result<Seq<u8>, CodecError>;

    /// Appends the encoding of `self` to `out`.
    fn encode(&self, out: &mut Vec<u8>) -> (r: Result<(), CodecError>)
        ensures
            encoded(Self::spec_encode(self.deep_view()), old(out)@, final(out)@, r),
    ;

    /// What `size` returns for a value with model `m`: never a count beyond
    /// what a VarInt holds.
    spec fn spec_size(m: Self::V) -> Result<nat, CodecError>;

    /// The size is the length of the encoding wherever there is one.
    proof fn lemma_size_faithful(m: Self::V)
        ensures
            size_matches(Self::spec_encode(m), Self::spec_size(m)),
            Self::spec_size(m) is Ok ==> Self::spec_size(m)->Ok_0 <= max_size(),
    ;

    /// The number of bytes `encode` writes.
    fn size(&self) -> (r: Result<crate::varnum::VarInt, CodecError>)
        ensures
            sized(Self::spec_size(self.deep_view()), r),
    ;
}

/// A type that can be read from the front of a byte stream.
pub trait Decodable: DeepView + Sized {
    /// The model of the value at the front of `bytes` and the number of bytes
    /// it takes, or the error decoding stops with.
    spec fn spec_decode(bytes: Seq<u8>) -> Result<(Self::V, nat), CodecError>;

    /// A successful decode never takes more bytes than there are, and takes
    /// at least one when there are any.
    proof fn lemma_decode_len(bytes: Seq<u8>)
        ensures
            Self::spec_decode(bytes) is Ok ==> Self::spec_decode(bytes)->Ok_0.1 <= bytes.len(),
            Self::spec_decode(bytes) is Ok && bytes.len() > 0 ==> Self::spec_decode(bytes)->Ok_0.1
                > 0,
    ;

    fn decode(reader: &mut ByteReader) -> (r: Result<Self, CodecError>)
        requires
            old(reader).wf(),
        ensures
            decoded(Self::spec_decode(old(reader).rest()), *old(reader), *final(reader), r),
    ;
}

} // verus!

verus! {

/// A type whose encoder and decoder agree.
pub trait Codec: Encodable + Decodable {
    /// The models that values built by the schema have: encoding one
    /// succeeds, and decoding the result gives it back.
    spec fn valid(m: Self::V) -> bool;

    /// Whether an encoding marks its own end, so that bytes may follow it.
    spec fn delimited() -> bool;

    /// Decoding the encoding of a valid value gives back that value and takes
    /// exactly the bytes of the encoding, whatever follows them when the
    /// encoding marks its own end.
    proof fn lemma_round_trip(m: Self::V, rest: Seq<u8>)
        requires
            Self::valid(m),
            Self::delimited() || rest.len() == 0,
        ensures
            Self::spec_encode(m) is Ok,
            Self::spec_decode(Self::spec_encode(m)->Ok_0 + rest) == Ok::<(Self::V, nat), CodecError>(
                (m, Self::spec_encode(m)->Ok_0.len()),
            ),
    ;
}

} // verus!

verus! {

/// Appends all of `bytes` to `out`.
pub fn push_all(out: &mut Vec<u8>, bytes: &[u8])
    ensures
        final(out)@ == old(out)@ + bytes@,
{
    let mut i: usize = 0;
    while i < bytes.len()
        invariant
            i <= bytes@.len(),
            out@ == old(out)@ + bytes@.subrange(0, i as int),
        decreases bytes.len() - i,
    {
        out.push(bytes[i]);
        i = i + 1;
        assert(out@ =~= old(out)@ + bytes@.subrange(0, i as int));
    }
    assert(bytes@.subrange(0, bytes@.len() as int) =~= bytes@);
}

} // verus!

verus! {

/// The encoding of `a` followed by that of `b`, or the first error.
pub open spec fn then_encode(
    a: Result<Seq<u8>, CodecError>,
    b: Result<Seq<u8>, CodecError>,
) -> Result<Seq<u8>, CodecError> {
    match a {
        Err(e) => Err(e),
        Ok(x) => match b {
            Err(e) => Err(e),
            Ok(y) => Ok(x + y),
        },
    }
}

/// A count as a VarInt in front of the elements' encoding.
pub open spec fn count_then(count: i32, elements: Result<Seq<u8>, CodecError>) -> Result<Seq<u8>, CodecError> {
    then_encode(Ok(crate::varnum::varint_bytes(count)), elements)
}

/// Drops what was appended to `start` since the encode began.
pub fn roll_back(out: &mut Vec<u8>, start: Ghost<Seq<u8>>, appended: Ghost<Seq<u8>>, len: usize)
    requires
        old(out)@ == start@ + appended@,
        len == start@.len(),
    ensures
        final(out)@ == start@,
{
    out.truncate(len);
    assert(final(out)@ =~= start@);
}

/// A sequence whose element count is held apart from it.
pub trait SizeDecodable: DeepView + Sized {
    /// Decoding exactly `count` elements from the front of `bytes`.
    spec fn spec_decode_sized(bytes: Seq<u8>, count: int) -> Result<(Self::V, nat), CodecError>;

    proof fn lemma_decode_sized_len(bytes: Seq<u8>, count: int)
        ensures
            Self::spec_decode_sized(bytes, count) is Ok ==> Self::spec_decode_sized(
                bytes,
                count,
            )->Ok_0.1 <= bytes.len(),
    ;

    fn decode_sized(reader: &mut ByteReader, size: &crate::varnum::VarInt) -> (r: Result<Self, CodecError>)
        requires
            old(reader).wf(),
        ensures
            decoded(
                Self::spec_decode_sized(old(reader).rest(), size.0 as int),
                *old(reader),
                *final(reader),
                r,
            ),
    ;
}

/// A sequence written after a count that is held apart from it.
pub trait SizeEncodable: DeepView {
    /// The bytes of the elements alone, or the error encoding stops with.
    spec fn spec_elements(m: Self::V) -> Result<Seq<u8>, CodecError>;

    /// Appends `size` as a VarInt, then the elements.
    fn encode_sized(&self, out: &mut Vec<u8>, size: &crate::varnum::VarInt) -> (r: Result<(), CodecError>)
        ensures
            encoded(count_then(size.0, Self::spec_elements(self.deep_view())), old(out)@, final(out)@, r),
    ;

    /// What `predicted_size` returns.
    spec fn spec_elements_size(m: Self::V) -> Result<nat, CodecError>;

    proof fn lemma_elements_size(m: Self::V)
        ensures
            size_matches(Self::spec_elements(m), Self::spec_elements_size(m)),
            Self::spec_elements_size(m) is Ok ==> Self::spec_elements_size(m)->Ok_0 <= max_size(),
    ;

    /// The number of bytes of the elements, without the count.
    fn predicted_size(&self) -> (r: Result<crate::varnum::VarInt, CodecError>)
        ensures
            sized(Self::spec_elements_size(self.deep_view()), r),
    ;
}

/// A tagged union whose discriminant has been read already.
pub trait IndexDecodable: DeepView + Sized {
    /// Decoding the payload of the variant with discriminant `index`.
    spec fn spec_decode_index(bytes: Seq<u8>, index: int) -> Result<(Self::V, nat), CodecError>;

    fn decode_index(reader: &mut ByteReader, index: &crate::varnum::VarInt) -> (r: Result<Self, CodecError>)
        requires
            old(reader).wf(),
        ensures
            decoded(
                Self::spec_decode_index(old(reader).rest(), index.0 as int),
                *old(reader),
                *final(reader),
                r,
            ),
    ;
}

} // verus!

verus! {

/// Decoding a `T` from `bytes` after the first `offset` of them.
#[verifier::opaque]
pub open spec fn decode_at<T: Decodable>(bytes: Seq<u8>, offset: nat) -> Result<(T::V, nat), CodecError> {
    T::spec_decode(bytes.subrange(offset as int, bytes.len() as int))
}

/// A field that is on the wire only when `cond` holds of the fields before
/// it: absent, it takes no bytes and is `None`.
#[verifier::opaque]
pub open spec fn decode_if<T: Decodable>(cond: bool, bytes: Seq<u8>, offset: nat) -> Result<
    (Option<T::V>, nat),
    CodecError,
> {
    if cond {
        match T::spec_decode(bytes.subrange(offset as int, bytes.len() as int)) {
            Ok((v, n)) => Ok((Some(v), n)),
            Err(e) => Err(e),
        }
    } else {
        Ok((None, 0))
    }
}

pub proof fn lemma_decode_at<T: Decodable>(bytes: Seq<u8>, offset: nat)
    ensures
        decode_at::<T>(bytes, offset) == T::spec_decode(
            bytes.subrange(offset as int, bytes.len() as int),
        ),
{
    reveal(decode_at);
}

pub proof fn lemma_decode_if<T: Decodable>(cond: bool, bytes: Seq<u8>, offset: nat)
    ensures
        decode_if::<T>(cond, bytes, offset) == if cond {
            match T::spec_decode(bytes.subrange(offset as int, bytes.len() as int)) {
                Ok((v, n)) => Ok((Some(v), n)),
                Err(e) => Err(e),
            }
        } else {
            Ok::<(Option<T::V>, nat), CodecError>((None, 0))
        },
{
    reveal(decode_if);
}

pub proof fn lemma_concat_assoc(a: Seq<u8>, b: Seq<u8>, c: Seq<u8>)
    ensures
        a + b + c == a + (b + c),
{
    assert(a + b + c =~= a + (b + c));
}

/// A field of a record read back: where the bytes from `offset` on are the
/// encoding of `m` and then `tail`, the field decodes to `m` and leaves
/// `tail`.
pub proof fn lemma_field_round_trip<T: Codec>(m: T::V, bytes: Seq<u8>, offset: nat, tail: Seq<u8>)
    requires
        T::valid(m),
        T::delimited() || tail.len() == 0,
        offset <= bytes.len(),
        bytes.subrange(offset as int, bytes.len() as int) == T::spec_encode(m)->Ok_0 + tail,
    ensures
        T::spec_encode(m) is Ok,
        decode_at::<T>(bytes, offset) == Ok::<(T::V, nat), CodecError>(
            (m, T::spec_encode(m)->Ok_0.len()),
        ),
        bytes.subrange((offset + T::spec_encode(m)->Ok_0.len()) as int, bytes.len() as int) == tail,
{
    reveal(decode_at);
    T::lemma_round_trip(m, tail);
    let e = T::spec_encode(m)->Ok_0;
    assert(bytes.subrange((offset + e.len()) as int, bytes.len() as int) =~= (e + tail).subrange(
        e.len() as int,
        (e + tail).len() as int,
    ));
    assert((e + tail).subrange(e.len() as int, (e + tail).len() as int) =~= tail);
}

/// A conditional field of a record read back: present exactly when `cond`
/// holds, it decodes to `m` and leaves `tail`.
pub proof fn lemma_field_if_round_trip<T: Codec>(
    cond: bool,
    m: Option<T::V>,
    bytes: Seq<u8>,
    offset: nat,
    tail: Seq<u8>,
)
    requires
        cond ==> (m matches Some(v) && T::valid(v)),
        !cond ==> m is None,
        T::delimited() || tail.len() == 0,
        offset <= bytes.len(),
        bytes.subrange(offset as int, bytes.len() as int) == <Option<T> as Encodable>::spec_encode(
            m,
        )->Ok_0 + tail,
    ensures
        <Option<T> as Encodable>::spec_encode(m) is Ok,
        decode_if::<T>(cond, bytes, offset) == Ok::<(Option<T::V>, nat), CodecError>(
            (m, <Option<T> as Encodable>::spec_encode(m)->Ok_0.len()),
        ),
        bytes.subrange(
            (offset + <Option<T> as Encodable>::spec_encode(m)->Ok_0.len()) as int,
            bytes.len() as int,
        ) == tail,
{
    reveal(decode_if);
    if cond {
        reveal(decode_at);
        lemma_field_round_trip::<T>(m->Some_0, bytes, offset, tail);
    } else {
        assert(Seq::<u8>::empty() + tail =~= tail);
        assert(bytes.subrange(offset as int, bytes.len() as int) =~= tail);
    }
}

} // verus!

verus! {

} // verus!

verus! {

pub proof fn lemma_subrange_all(s: Seq<u8>)
    ensures
        s.subrange(0, s.len() as int) == s,
{
    assert(s.subrange(0, s.len() as int) =~= s);
}

} // verus!
