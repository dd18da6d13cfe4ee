use vstd::prelude::*;

use crate::codec::{push_all, size_of_len, Codec, Decodable, Encodable};
use crate::error::CodecError;
use crate::primitives::be_bytes;
use crate::nbt_walk::{agree, lemma_root_prefix, nbt_root, walk_root};
use crate::reader::ByteReader;
use crate::varnum::VarInt;

verus! {

/// A block position: `x` and `z` in 26 bits each, `y` in 12 bits.
#[derive(Clone, Copy, Debug, PartialEq, Eq, Structural)]
pub struct Position(pub i64, pub i64, pub i64);

/// Packs `(x, y, z)`: `x` in the high 26 bits, `z` in the middle 26, `y` in
/// the low 12.
pub open spec fn position_pack(x: i64, y: i64, z: i64) -> u64 {
    (((x as u64) & 0x3FF_FFFF) << 38u64) | (((z as u64) & 0x3FF_FFFF) << 12u64) | ((y as u64)
        & 0xFFF)
}

/// Unpacks a word, each coordinate sign-extended from its field.
pub open spec fn position_unpack(w: u64) -> (i64, i64, i64) {
    (((w as i64) >> 38u64), (((w << 52u64) as i64) >> 52u64), (((w << 26u64) as i64) >> 38u64))
}

/// The coordinates a packed word can hold.
pub open spec fn position_in_range(x: i64, y: i64, z: i64) -> bool {
    &&& -0x200_0000 <= x < 0x200_0000
    &&& -0x800 <= y < 0x800
    &&& -0x200_0000 <= z < 0x200_0000
}

/// Unpacking a packed position gives back its coordinates when they fit
/// their fields.
pub proof fn lemma_position_round_trip(x: i64, y: i64, z: i64)
    requires
        position_in_range(x, y, z),
    ensures
        position_unpack(position_pack(x, y, z)) == (x, y, z),
{
    let w = position_pack(x, y, z);
    assert(((w as i64) >> 38u64) == x) by (bit_vector)
        requires
            w == (((x as u64) & 0x3FF_FFFF) << 38u64) | (((z as u64) & 0x3FF_FFFF) << 12u64) | ((
            y as u64) & 0xFFF),
            -0x200_0000 <= x < 0x200_0000,
    ;
    assert((((w << 52u64) as i64) >> 52u64) == y) by (bit_vector)
        requires
            w == (((x as u64) & 0x3FF_FFFF) << 38u64) | (((z as u64) & 0x3FF_FFFF) << 12u64) | ((
            y as u64) & 0xFFF),
            -0x800 <= y < 0x800,
    ;
    assert((((w << 26u64) as i64) >> 38u64) == z) by (bit_vector)
        requires
            w == (((x as u64) & 0x3FF_FFFF) << 38u64) | (((z as u64) & 0x3FF_FFFF) << 12u64) | ((
            y as u64) & 0xFFF),
            -0x200_0000 <= z < 0x200_0000,
    ;
}

/// Unpacked coordinates always fit their fields.
pub proof fn lemma_position_unpack_in_range(w: u64)
    ensures
        position_in_range(position_unpack(w).0, position_unpack(w).1, position_unpack(w).2),
{
    assert(-0x200_0000 <= ((w as i64) >> 38u64) < 0x200_0000) by (bit_vector);
    assert(-0x800 <= (((w << 52u64) as i64) >> 52u64) < 0x800) by (bit_vector);
    assert(-0x200_0000 <= (((w << 26u64) as i64) >> 38u64) < 0x200_0000) by (bit_vector);
}

impl Position {
    pub fn new(x: i64, y: i64, z: i64) -> (r: Position)
        ensures
            r == Position(x, y, z),
    {
        Position(x, y, z)
    }
}

impl DeepView for Position {
    type V = (i64, i64, i64);

    open spec fn deep_view(&self) -> (i64, i64, i64) {
        (self.0, self.1, self.2)
    }
}

impl Encodable for Position {
    open spec fn spec_encode(m: (i64, i64, i64)) -> Result<Seq<u8>, CodecError> {
        <u64 as Encodable>::spec_encode(position_pack(m.0, m.1, m.2))
    }

    fn encode(&self, out: &mut Vec<u8>) -> (r: Result<(), CodecError>) {
        let w: u64 = (((self.0 as u64) & 0x3FF_FFFF) << 38u64) | (((self.2 as u64) & 0x3FF_FFFF)
            << 12u64) | ((self.1 as u64) & 0xFFF);
        w.encode(out)
    }

    open spec fn spec_size(m: (i64, i64, i64)) -> Result<nat, CodecError> {
        Ok(8)
    }

    proof fn lemma_size_faithful(m: (i64, i64, i64)) {
        crate::primitives::lemma_be_bytes_len(position_pack(m.0, m.1, m.2) as nat, 8);
    }

    fn size(&self) -> (r: Result<VarInt, CodecError>) {
        proof {
            crate::primitives::lemma_be_bytes_len(position_pack(self.0, self.1, self.2) as nat, 8);
        }
        Ok(VarInt(8))
    }
}

impl Decodable for Position {
    open spec fn spec_decode(bytes: Seq<u8>) -> Result<((i64, i64, i64), nat), CodecError> {
        match <u64 as Decodable>::spec_decode(bytes) {
            Ok((w, n)) => Ok((position_unpack(w), n)),
            Err(e) => Err(e),
        }
    }

    proof fn lemma_decode_len(bytes: Seq<u8>) {
    }

    fn decode(reader: &mut ByteReader) -> (r: Result<Position, CodecError>) {
        match u64::decode(reader) {
            Ok(w) => Ok(
                Position(
                    (w as i64) >> 38u64,
                    ((w << 52u64) as i64) >> 52u64,
                    ((w << 26u64) as i64) >> 38u64,
                ),
            ),
            Err(e) => Err(e),
        }
    }
}

impl Codec for Position {
    open spec fn valid(m: (i64, i64, i64)) -> bool {
        position_in_range(m.0, m.1, m.2)
    }

    open spec fn delimited() -> bool {
        true
    }

    proof fn lemma_round_trip(m: (i64, i64, i64), rest: Seq<u8>) {
        <u64 as Codec>::lemma_round_trip(position_pack(m.0, m.1, m.2), rest);
        lemma_position_round_trip(m.0, m.1, m.2);
    }
}

/// A rotation in steps of 360/256 degrees.
#[derive(Clone, Copy, Debug, PartialEq, Eq, Structural)]
pub struct Angle(pub u8);

impl Angle {
    pub fn new(byte: u8) -> (r: Angle)
        ensures
            r == Angle(byte),
    {
        Angle(byte)
    }
}

impl DeepView for Angle {
    type V = u8;

    open spec fn deep_view(&self) -> u8 {
        self.0
    }
}

impl Encodable for Angle {
    open spec fn spec_encode(m: u8) -> Result<Seq<u8>, CodecError> {
        <u8 as Encodable>::spec_encode(m)
    }

    fn encode(&self, out: &mut Vec<u8>) -> (r: Result<(), CodecError>) {
        self.0.encode(out)
    }

    open spec fn spec_size(m: u8) -> Result<nat, CodecError> {
        Ok(1)
    }

    proof fn lemma_size_faithful(m: u8) {
        <u8 as Encodable>::lemma_size_faithful(m);
    }

    fn size(&self) -> (r: Result<VarInt, CodecError>) {
        self.0.size()
    }
}

impl Decodable for Angle {
    open spec fn spec_decode(bytes: Seq<u8>) -> Result<(u8, nat), CodecError> {
        <u8 as Decodable>::spec_decode(bytes)
    }

    proof fn lemma_decode_len(bytes: Seq<u8>) {
    }

    fn decode(reader: &mut ByteReader) -> (r: Result<Angle, CodecError>) {
        match u8::decode(reader) {
            Ok(b) => Ok(Angle(b)),
            Err(e) => Err(e),
        }
    }
}

impl Codec for Angle {
    open spec fn valid(m: u8) -> bool {
        true
    }

    open spec fn delimited() -> bool {
        true
    }

    proof fn lemma_round_trip(m: u8, rest: Seq<u8>) {
        <u8 as Codec>::lemma_round_trip(m, rest);
    }
}

/// A UUID as its 128-bit big-endian number.
#[derive(Clone, Copy, Debug, PartialEq, Eq, Structural)]
pub struct McUuid(pub u128);

/// The sixteen bytes of a UUID: the high half, then the low half.
pub open spec fn uuid_bytes(v: u128) -> Seq<u8> {
    be_bytes((v / 0x1_0000_0000_0000_0000) as nat, 8) + be_bytes(
        (v % 0x1_0000_0000_0000_0000) as nat,
        8,
    )
}

impl McUuid {
    pub fn new(value: u128) -> (r: McUuid)
        ensures
            r == McUuid(value),
    {
        McUuid(value)
    }
}

impl DeepView for McUuid {
    type V = u128;

    open spec fn deep_view(&self) -> u128 {
        self.0
    }
}

impl Encodable for McUuid {
    open spec fn spec_encode(m: u128) -> Result<Seq<u8>, CodecError> {
        Ok(uuid_bytes(m))
    }

    fn encode(&self, out: &mut Vec<u8>) -> (r: Result<(), CodecError>) {
        let high = (self.0 / 0x1_0000_0000_0000_0000) as u64;
        let low = (self.0 % 0x1_0000_0000_0000_0000) as u64;
        let _ = high.encode(out);
        let _ = low.encode(out);
        assert(final(out)@ =~= old(out)@ + uuid_bytes(self.0));
        Ok(())
    }

    open spec fn spec_size(m: u128) -> Result<nat, CodecError> {
        Ok(16)
    }

    proof fn lemma_size_faithful(m: u128) {
        crate::primitives::lemma_be_bytes_len((m / 0x1_0000_0000_0000_0000) as nat, 8);
        crate::primitives::lemma_be_bytes_len((m % 0x1_0000_0000_0000_0000) as nat, 8);
    }

    fn size(&self) -> (r: Result<VarInt, CodecError>) {
        proof {
            crate::primitives::lemma_be_bytes_len((self.0 / 0x1_0000_0000_0000_0000) as nat, 8);
            crate::primitives::lemma_be_bytes_len((self.0 % 0x1_0000_0000_0000_0000) as nat, 8);
        }
        Ok(VarInt(16))
    }
}

impl Decodable for McUuid {
    open spec fn spec_decode(bytes: Seq<u8>) -> Result<(u128, nat), CodecError> {
        match <u64 as Decodable>::spec_decode(bytes) {
            Err(e) => Err(e),
            Ok((high, _)) => match <u64 as Decodable>::spec_decode(
                bytes.subrange(8, bytes.len() as int),
            ) {
                Err(e) => Err(e),
                Ok((low, _)) => Ok(((high * 0x1_0000_0000_0000_0000 + low) as u128, 16)),
            },
        }
    }

    proof fn lemma_decode_len(bytes: Seq<u8>) {
    }

    fn decode(reader: &mut ByteReader) -> (r: Result<McUuid, CodecError>) {
        let ghost rest0 = reader.rest();
        let high = match u64::decode(reader) {
            Ok(v) => v,
            Err(e) => return Err(e),
        };
        assert(reader.rest() =~= rest0.subrange(8, rest0.len() as int));
        let low = match u64::decode(reader) {
            Ok(v) => v,
            Err(e) => return Err(e),
        };
        assert((high as u128) * 0x1_0000_0000_0000_0000 + low as u128 <= u128::MAX) by (
        nonlinear_arith)
            requires
                high <= u64::MAX,
                low <= u64::MAX,
        ;
        Ok(McUuid((high as u128) * 0x1_0000_0000_0000_0000 + low as u128))
    }
}

impl Codec for McUuid {
    open spec fn valid(m: u128) -> bool {
        true
    }

    open spec fn delimited() -> bool {
        true
    }

    proof fn lemma_round_trip(m: u128, rest: Seq<u8>) {
        let high = (m / 0x1_0000_0000_0000_0000) as u64;
        let low = (m % 0x1_0000_0000_0000_0000) as u64;
        let lows = be_bytes(low as nat, 8) + rest;
        <u64 as Codec>::lemma_round_trip(high, lows);
        <u64 as Codec>::lemma_round_trip(low, rest);
        let s = uuid_bytes(m) + rest;
        assert(s =~= be_bytes(high as nat, 8) + lows);
        assert(s.subrange(8, s.len() as int) =~= lows);
        assert(m == (m / 0x1_0000_0000_0000_0000) * 0x1_0000_0000_0000_0000 + m % 0x1_0000_0000_0000_0000)
            by (nonlinear_arith);
    }
}

/// Whether the bytes of one complete named binary tag are accepted by the tag
/// reader, and how many bytes it takes; the answer of the tag reader.
pub uninterp spec fn nbt_span(bytes: Seq<u8>) -> Option<nat>;

/// Relies on nbt::Blob::from_reader. On bytes that `walk_root` walks to their
/// end (every array and list length non-negative and within the bytes, lists
/// and compounds nested at most `NBT_MAX_DEPTH` deep) it returns without
/// panicking: its allocations are sized by those lengths and its recursion
/// follows that nesting. It pulls bytes through `Read`, so the outcome and the
/// count of bytes taken depend on the bytes alone.
#[verifier::external_body]
fn nbt_blob_len(bytes: &[u8]) -> (r: Option<usize>)
    requires
        nbt_root(bytes@) == Some(bytes@.len() as int),
    ensures
        r matches Some(n) ==> nbt_span(bytes@) == Some(n as nat) && n <= bytes@.len(),
        r is None ==> nbt_span(bytes@) is None,
{
    let mut cursor = std::io::Cursor::new(bytes);
    match nbt::Blob::from_reader(&mut cursor) {
        Ok(_) => Some(cursor.position() as usize),
        Err(_) => None,
    }
}

/// A named binary tag, held as the bytes of its encoding.
pub struct NbtTag {
    bytes: Vec<u8>,
}

/// `bytes` are exactly one complete tag that the walk and the tag reader
/// both accept.
pub open spec fn nbt_complete(bytes: Seq<u8>) -> bool {
    &&& nbt_root(bytes) == Some(bytes.len() as int)
    &&& nbt_span(bytes) == Some(bytes.len())
}

/// Checks that `bytes` are exactly one complete tag.
fn check_complete(bytes: &[u8]) -> (r: bool)
    ensures
        r == nbt_complete(bytes@),
{
    match walk_root(bytes) {
        Some(n) => if n == bytes.len() {
            match nbt_blob_len(bytes) {
                Some(k) => k == n,
                None => false,
            }
        } else {
            false
        },
        None => false,
    }
}

impl NbtTag {
    /// Takes `bytes` as a tag when they are exactly one complete tag.
    pub fn new(bytes: Vec<u8>) -> (r: Result<NbtTag, CodecError>)
        ensures
            r is Ok <==> nbt_complete(bytes@),
            r matches Ok(t) ==> t.deep_view() == bytes@,
            r matches Err(e) ==> e == CodecError::InvalidNbt,
    {
        if check_complete(bytes.as_slice()) {
            Ok(NbtTag { bytes })
        } else {
            Err(CodecError::InvalidNbt)
        }
    }

    /// The bytes of the tag.
    pub fn bytes(&self) -> (r: &[u8])
        ensures
            r@ == self.deep_view(),
    {
        self.bytes.as_slice()
    }
}

impl DeepView for NbtTag {
    type V = Seq<u8>;

    closed spec fn deep_view(&self) -> Seq<u8> {
        self.bytes@
    }
}

impl Encodable for NbtTag {
    open spec fn spec_encode(m: Seq<u8>) -> Result<Seq<u8>, CodecError> {
        Ok(m)
    }

    fn encode(&self, out: &mut Vec<u8>) -> (r: Result<(), CodecError>) {
        push_all(out, self.bytes.as_slice());
        Ok(())
    }

    open spec fn spec_size(m: Seq<u8>) -> Result<nat, CodecError> {
        size_of_len(m.len())
    }

    proof fn lemma_size_faithful(m: Seq<u8>) {
        
    }

    fn size(&self) -> (r: Result<VarInt, CodecError>) {
        if self.bytes.len() > 0x7fff_ffff {
            Err(CodecError::SizeOverflow)
        } else {
            Ok(VarInt(self.bytes.len() as i32))
        }
    }
}

impl Decodable for NbtTag {
    /// The tag that the walk finds at the front, when the tag reader accepts
    /// exactly those bytes.
    open spec fn spec_decode(bytes: Seq<u8>) -> Result<(Seq<u8>, nat), CodecError> {
        match nbt_root(bytes) {
            Some(n) => if 0 < n <= bytes.len() && nbt_span(bytes.subrange(0, n)) == Some(
                n as nat,
            ) {
                Ok((bytes.subrange(0, n), n as nat))
            } else {
                Err(CodecError::InvalidNbt)
            },
            None => Err(CodecError::InvalidNbt),
        }
    }

    proof fn lemma_decode_len(bytes: Seq<u8>) {
    }

    fn decode(reader: &mut ByteReader) -> (r: Result<NbtTag, CodecError>) {
        let ghost rest0 = reader.rest();
        let n = match walk_root(reader.rest_slice()) {
            Some(n) => n,
            None => return Err(CodecError::InvalidNbt),
        };
        proof {
            lemma_root_prefix(rest0, rest0);
        }
        let bytes = match reader.read_bytes(n) {
            Ok(b) => b,
            Err(e) => return Err(e),
        };
        proof {
            lemma_root_prefix(rest0, bytes@);
        }
        match nbt_blob_len(bytes.as_slice()) {
            Some(k) => if k == n {
                Ok(NbtTag { bytes })
            } else {
                Err(CodecError::InvalidNbt)
            },
            None => Err(CodecError::InvalidNbt),
        }
    }
}

impl Codec for NbtTag {
    open spec fn valid(m: Seq<u8>) -> bool {
        nbt_complete(m)
    }

    open spec fn delimited() -> bool {
        true
    }

    proof fn lemma_round_trip(m: Seq<u8>, rest: Seq<u8>) {
        lemma_root_prefix(m, m + rest);
        assert(agree(m, m + rest, m.len() as int));
        assert((m + rest).subrange(0, m.len() as int) =~= m);
    }
}

} // verus!
