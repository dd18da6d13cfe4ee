use vstd::prelude::*;

use crate::codec::{decoded, Codec, Decodable, Encodable};
use crate::error::CodecError;
use crate::reader::ByteReader;
use crate::varnum::VarInt;

verus! {

/// 256 to the power `n`.
pub open spec fn pow256(n: nat) -> nat
    decreases n,
{
    if n == 0 {
        1
    } else {
        256 * pow256((n - 1) as nat)
    }
}

/// The low `n` bytes of `v`, most significant first.
pub open spec fn be_bytes(v: nat, n: nat) -> Seq<u8>
    decreases n,
{
    if n == 0 {
        seq![]
    } else {
        be_bytes(v / 256, (n - 1) as nat).push((v % 256) as u8)
    }
}

/// The number that `s` spells, most significant byte first.
pub open spec fn be_value(s: Seq<u8>) -> nat
    decreases s.len(),
{
    if s.len() == 0 {
        0
    } else {
        (be_value(s.drop_last()) * 256 + s.last()) as nat
    }
}

/// Reading an `n`-byte big-endian number from the front of `bytes`.
pub open spec fn fixed_parse(bytes: Seq<u8>, n: nat) -> Result<(nat, nat), CodecError> {
    if bytes.len() < n {
        Err(CodecError::UnexpectedEnd)
    } else {
        Ok((be_value(bytes.subrange(0, n as int)), n))
    }
}

proof fn lemma_pow256_values()
    ensures
        pow256(1) == 0x100,
        pow256(2) == 0x1_0000,
        pow256(4) == 0x1_0000_0000,
        pow256(8) == 0x1_0000_0000_0000_0000,
{
    reveal_with_fuel(pow256, 9);
}

pub proof fn lemma_be_bytes_len(v: nat, n: nat)
    ensures
        be_bytes(v, n).len() == n,
    decreases n,
{
    if n > 0 {
        lemma_be_bytes_len(v / 256, (n - 1) as nat);
    }
}

proof fn lemma_be_value_bound(s: Seq<u8>)
    ensures
        be_value(s) < pow256(s.len()),
    decreases s.len(),
{
    if s.len() > 0 {
        let t = s.drop_last();
        lemma_be_value_bound(t);
        let a = be_value(t);
        let p = pow256(t.len());
        let b = s.last();
        assert(a * 256 + b < 256 * p) by (nonlinear_arith)
            requires
                a < p,
                b < 256,
        ;
    }
}

/// The bytes of a number that fits in `n` bytes spell it back.
proof fn lemma_be_round_trip(v: nat, n: nat)
    requires
        v < pow256(n),
    ensures
        be_value(be_bytes(v, n)) == v,
    decreases n,
{
    if n > 0 {
        let p = pow256((n - 1) as nat);
        assert(v / 256 < p) by (nonlinear_arith)
            requires
                v < 256 * p,
        ;
        lemma_be_round_trip(v / 256, (n - 1) as nat);
        let s = be_bytes(v, n);
        assert(s.drop_last() =~= be_bytes(v / 256, (n - 1) as nat));
        assert(v == (v / 256) * 256 + v % 256) by (nonlinear_arith);
    }
}

/// An `n`-byte number at the front of any stream is read back.
proof fn lemma_fixed_round_trip(v: nat, n: nat, rest: Seq<u8>)
    requires
        v < pow256(n),
    ensures
        fixed_parse(be_bytes(v, n) + rest, n) == Ok::<(nat, nat), CodecError>((v, n)),
        be_bytes(v, n).len() == n,
{
    lemma_be_bytes_len(v, n);
    lemma_be_round_trip(v, n);
    assert((be_bytes(v, n) + rest).subrange(0, n as int) =~= be_bytes(v, n));
}

/// Reads an `n`-byte big-endian number.
fn read_be(reader: &mut ByteReader, n: usize) -> (r: Result<u64, CodecError>)
    requires
        old(reader).wf(),
        1 <= n <= 8,
    ensures
        decoded_fixed(fixed_parse(old(reader).rest(), n as nat), *old(reader), *final(reader), r),
{
    let bytes = match reader.read_bytes(n) {
        Ok(b) => b,
        Err(e) => return Err(e),
    };
    let mut acc: u64 = 0;
    let mut i: usize = 0;
    while i < n
        invariant
            bytes@.len() == n,
            n <= 8,
            i <= n,
            acc == be_value(bytes@.subrange(0, i as int)),
        decreases n - i,
    {
        proof {
            lemma_be_value_bound(bytes@.subrange(0, i as int));
            lemma_pow256_values();
            lemma_pow256_le(i as nat, 7);
            assert(bytes@.subrange(0, i + 1).drop_last() =~= bytes@.subrange(0, i as int));
            let p = pow256(i as nat);
            assert(acc * 256 + bytes@[i as int] < 256 * p) by (nonlinear_arith)
                requires
                    acc < p,
                    bytes@[i as int] < 256,
            ;
            assert(256 * p <= 256 * pow256(7)) by (nonlinear_arith)
                requires
                    p <= pow256(7),
            ;
            reveal_with_fuel(pow256, 8);
        }
        acc = acc * 256 + bytes[i] as u64;
        i = i + 1;
    }
    assert(bytes@.subrange(0, n as int) =~= bytes@);
    Ok(acc)
}

proof fn lemma_pow256_le(a: nat, b: nat)
    requires
        a <= b,
    ensures
        pow256(a) <= pow256(b),
    decreases b,
{
    if a < b {
        lemma_pow256_le(a, (b - 1) as nat);
    }
}

/// The outcome of a fixed-width read, as `decoded` states it for the number.
pub open spec fn decoded_fixed(
    spec: Result<(nat, nat), CodecError>,
    before: ByteReader,
    after: ByteReader,
    r: Result<u64, CodecError>,
) -> bool {
    &&& after.wf()
    &&& after.data() == before.data()
    &&& before.pos() <= after.pos()
    &&& match spec {
        Ok((v, n)) => r == Ok::<u64, CodecError>(v as u64) && after.pos() == before.pos() + n,
        Err(e) => r == Err::<u64, CodecError>(e),
    }
}

/// Appends the low `n` bytes of `v`, most significant first.
fn write_be(v: u64, n: usize, out: &mut Vec<u8>)
    requires
        n <= 8,
    ensures
        final(out)@ == old(out)@ + be_bytes(v as nat, n as nat),
    decreases n,
{
    if n > 0 {
        write_be(v / 256, n - 1, out);
        out.push((v % 256) as u8);
        assert(out@ =~= old(out)@ + be_bytes(v as nat, n as nat));
    } else {
        assert(out@ =~= old(out)@ + be_bytes(v as nat, n as nat));
    }
}

} // verus!

verus! {

impl Encodable for u8 {
    open spec fn spec_encode(m: u8) -> Result<Seq<u8>, CodecError> {
        Ok(be_bytes(m as nat, 1))
    }

    fn encode(&self, out: &mut Vec<u8>) -> (r: Result<(), CodecError>) {
        write_be(*self as u64, 1, out);
        Ok(())
    }

    open spec fn spec_size(m: u8) -> Result<nat, CodecError> {
        Ok(1)
    }

    proof fn lemma_size_faithful(m: u8) {
        lemma_be_bytes_len(m as nat, 1);
    }

    fn size(&self) -> (r: Result<VarInt, CodecError>) {
        proof {
            lemma_be_bytes_len(*self as nat, 1);
        }
        Ok(VarInt(1))
    }
}

impl Decodable for u8 {
    open spec fn spec_decode(bytes: Seq<u8>) -> Result<(u8, nat), CodecError> {
        match fixed_parse(bytes, 1) {
            Ok((v, n)) => Ok((v as u8, n)),
            Err(e) => Err(e),
        }
    }

    proof fn lemma_decode_len(bytes: Seq<u8>) {
    }

    fn decode(reader: &mut ByteReader) -> (r: Result<u8, CodecError>) {
        proof {
            if old(reader).rest().len() >= 1 {
                lemma_be_value_bound(old(reader).rest().subrange(0, 1));
                lemma_pow256_values();
            }
        }
        match read_be(reader, 1) {
            Ok(v) => Ok(v as u8),
            Err(e) => Err(e),
        }
    }
}

impl Codec for u8 {
    open spec fn valid(m: u8) -> bool {
        true
    }

    open spec fn delimited() -> bool {
        true
    }

    proof fn lemma_round_trip(m: u8, rest: Seq<u8>) {
        lemma_pow256_values();
        lemma_fixed_round_trip(m as nat, 1, rest);
    }
}

impl Encodable for i8 {
    open spec fn spec_encode(m: i8) -> Result<Seq<u8>, CodecError> {
        Ok(be_bytes(m as u8 as nat, 1))
    }

    fn encode(&self, out: &mut Vec<u8>) -> (r: Result<(), CodecError>) {
        write_be((#[verifier::truncate] (*self as u8)) as u64, 1, out);
        Ok(())
    }

    open spec fn spec_size(m: i8) -> Result<nat, CodecError> {
        Ok(1)
    }

    proof fn lemma_size_faithful(m: i8) {
        lemma_be_bytes_len(m as u8 as nat, 1);
    }

    fn size(&self) -> (r: Result<VarInt, CodecError>) {
        proof {
            lemma_be_bytes_len(*self as u8 as nat, 1);
        }
        Ok(VarInt(1))
    }
}

impl Decodable for i8 {
    open spec fn spec_decode(bytes: Seq<u8>) -> Result<(i8, nat), CodecError> {
        match fixed_parse(bytes, 1) {
            Ok((v, n)) => Ok((v as u8 as i8, n)),
            Err(e) => Err(e),
        }
    }

    proof fn lemma_decode_len(bytes: Seq<u8>) {
    }

    fn decode(reader: &mut ByteReader) -> (r: Result<i8, CodecError>) {
        proof {
            if old(reader).rest().len() >= 1 {
                lemma_be_value_bound(old(reader).rest().subrange(0, 1));
                lemma_pow256_values();
            }
        }
        match read_be(reader, 1) {
            Ok(v) => Ok(#[verifier::truncate] ((v as u8) as i8)),
            Err(e) => Err(e),
        }
    }
}

impl Codec for i8 {
    open spec fn valid(m: i8) -> bool {
        true
    }

    open spec fn delimited() -> bool {
        true
    }

    proof fn lemma_round_trip(m: i8, rest: Seq<u8>) {
        lemma_pow256_values();
        lemma_fixed_round_trip(m as u8 as nat, 1, rest);
        assert((m as u8) as i8 == m) by (bit_vector);
    }
}

impl Encodable for u16 {
    open spec fn spec_encode(m: u16) -> Result<Seq<u8>, CodecError> {
        Ok(be_bytes(m as nat, 2))
    }

    fn encode(&self, out: &mut Vec<u8>) -> (r: Result<(), CodecError>) {
        write_be(*self as u64, 2, out);
        Ok(())
    }

    open spec fn spec_size(m: u16) -> Result<nat, CodecError> {
        Ok(2)
    }

    proof fn lemma_size_faithful(m: u16) {
        lemma_be_bytes_len(m as nat, 2);
    }

    fn size(&self) -> (r: Result<VarInt, CodecError>) {
        proof {
            lemma_be_bytes_len(*self as nat, 2);
        }
        Ok(VarInt(2))
    }
}

impl Decodable for u16 {
    open spec fn spec_decode(bytes: Seq<u8>) -> Result<(u16, nat), CodecError> {
        match fixed_parse(bytes, 2) {
            Ok((v, n)) => Ok((v as u16, n)),
            Err(e) => Err(e),
        }
    }

    proof fn lemma_decode_len(bytes: Seq<u8>) {
    }

    fn decode(reader: &mut ByteReader) -> (r: Result<u16, CodecError>) {
        proof {
            if old(reader).rest().len() >= 2 {
                lemma_be_value_bound(old(reader).rest().subrange(0, 2));
                lemma_pow256_values();
            }
        }
        match read_be(reader, 2) {
            Ok(v) => Ok(v as u16),
            Err(e) => Err(e),
        }
    }
}

impl Codec for u16 {
    open spec fn valid(m: u16) -> bool {
        true
    }

    open spec fn delimited() -> bool {
        true
    }

    proof fn lemma_round_trip(m: u16, rest: Seq<u8>) {
        lemma_pow256_values();
        lemma_fixed_round_trip(m as nat, 2, rest);
    }
}

impl Encodable for i16 {
    open spec fn spec_encode(m: i16) -> Result<Seq<u8>, CodecError> {
        Ok(be_bytes(m as u16 as nat, 2))
    }

    fn encode(&self, out: &mut Vec<u8>) -> (r: Result<(), CodecError>) {
        write_be((#[verifier::truncate] (*self as u16)) as u64, 2, out);
        Ok(())
    }

    open spec fn spec_size(m: i16) -> Result<nat, CodecError> {
        Ok(2)
    }

    proof fn lemma_size_faithful(m: i16) {
        lemma_be_bytes_len(m as u16 as nat, 2);
    }

    fn size(&self) -> (r: Result<VarInt, CodecError>) {
        proof {
            lemma_be_bytes_len(*self as u16 as nat, 2);
        }
        Ok(VarInt(2))
    }
}

impl Decodable for i16 {
    open spec fn spec_decode(bytes: Seq<u8>) -> Result<(i16, nat), CodecError> {
        match fixed_parse(bytes, 2) {
            Ok((v, n)) => Ok((v as u16 as i16, n)),
            Err(e) => Err(e),
        }
    }

    proof fn lemma_decode_len(bytes: Seq<u8>) {
    }

    fn decode(reader: &mut ByteReader) -> (r: Result<i16, CodecError>) {
        proof {
            if old(reader).rest().len() >= 2 {
                lemma_be_value_bound(old(reader).rest().subrange(0, 2));
                lemma_pow256_values();
            }
        }
        match read_be(reader, 2) {
            Ok(v) => Ok(#[verifier::truncate] ((v as u16) as i16)),
            Err(e) => Err(e),
        }
    }
}

impl Codec for i16 {
    open spec fn valid(m: i16) -> bool {
        true
    }

    open spec fn delimited() -> bool {
        true
    }

    proof fn lemma_round_trip(m: i16, rest: Seq<u8>) {
        lemma_pow256_values();
        lemma_fixed_round_trip(m as u16 as nat, 2, rest);
        assert((m as u16) as i16 == m) by (bit_vector);
    }
}

impl Encodable for u32 {
    open spec fn spec_encode(m: u32) -> Result<Seq<u8>, CodecError> {
        Ok(be_bytes(m as nat, 4))
    }

    fn encode(&self, out: &mut Vec<u8>) -> (r: Result<(), CodecError>) {
        write_be(*self as u64, 4, out);
        Ok(())
    }

    open spec fn spec_size(m: u32) -> Result<nat, CodecError> {
        Ok(4)
    }

    proof fn lemma_size_faithful(m: u32) {
        lemma_be_bytes_len(m as nat, 4);
    }

    fn size(&self) -> (r: Result<VarInt, CodecError>) {
        proof {
            lemma_be_bytes_len(*self as nat, 4);
        }
        Ok(VarInt(4))
    }
}

impl Decodable for u32 {
    open spec fn spec_decode(bytes: Seq<u8>) -> Result<(u32, nat), CodecError> {
        match fixed_parse(bytes, 4) {
            Ok((v, n)) => Ok((v as u32, n)),
            Err(e) => Err(e),
        }
    }

    proof fn lemma_decode_len(bytes: Seq<u8>) {
    }

    fn decode(reader: &mut ByteReader) -> (r: Result<u32, CodecError>) {
        proof {
            if old(reader).rest().len() >= 4 {
                lemma_be_value_bound(old(reader).rest().subrange(0, 4));
                lemma_pow256_values();
            }
        }
        match read_be(reader, 4) {
            Ok(v) => Ok(v as u32),
            Err(e) => Err(e),
        }
    }
}

impl Codec for u32 {
    open spec fn valid(m: u32) -> bool {
        true
    }

    open spec fn delimited() -> bool {
        true
    }

    proof fn lemma_round_trip(m: u32, rest: Seq<u8>) {
        lemma_pow256_values();
        lemma_fixed_round_trip(m as nat, 4, rest);
    }
}

impl Encodable for i32 {
    open spec fn spec_encode(m: i32) -> Result<Seq<u8>, CodecError> {
        Ok(be_bytes(m as u32 as nat, 4))
    }

    fn encode(&self, out: &mut Vec<u8>) -> (r: Result<(), CodecError>) {
        write_be((#[verifier::truncate] (*self as u32)) as u64, 4, out);
        Ok(())
    }

    open spec fn spec_size(m: i32) -> Result<nat, CodecError> {
        Ok(4)
    }

    proof fn lemma_size_faithful(m: i32) {
        lemma_be_bytes_len(m as u32 as nat, 4);
    }

    fn size(&self) -> (r: Result<VarInt, CodecError>) {
        proof {
            lemma_be_bytes_len(*self as u32 as nat, 4);
        }
        Ok(VarInt(4))
    }
}

impl Decodable for i32 {
    open spec fn spec_decode(bytes: Seq<u8>) -> Result<(i32, nat), CodecError> {
        match fixed_parse(bytes, 4) {
            Ok((v, n)) => Ok((v as u32 as i32, n)),
            Err(e) => Err(e),
        }
    }

    proof fn lemma_decode_len(bytes: Seq<u8>) {
    }

    fn decode(reader: &mut ByteReader) -> (r: Result<i32, CodecError>) {
        proof {
            if old(reader).rest().len() >= 4 {
                lemma_be_value_bound(old(reader).rest().subrange(0, 4));
                lemma_pow256_values();
            }
        }
        match read_be(reader, 4) {
            Ok(v) => Ok(#[verifier::truncate] ((v as u32) as i32)),
            Err(e) => Err(e),
        }
    }
}

impl Codec for i32 {
    open spec fn valid(m: i32) -> bool {
        true
    }

    open spec fn delimited() -> bool {
        true
    }

    proof fn lemma_round_trip(m: i32, rest: Seq<u8>) {
        lemma_pow256_values();
        lemma_fixed_round_trip(m as u32 as nat, 4, rest);
        assert((m as u32) as i32 == m) by (bit_vector);
    }
}

impl Encodable for u64 {
    open spec fn spec_encode(m: u64) -> Result<Seq<u8>, CodecError> {
        Ok(be_bytes(m as nat, 8))
    }

    fn encode(&self, out: &mut Vec<u8>) -> (r: Result<(), CodecError>) {
        write_be(*self as u64, 8, out);
        Ok(())
    }

    open spec fn spec_size(m: u64) -> Result<nat, CodecError> {
        Ok(8)
    }

    proof fn lemma_size_faithful(m: u64) {
        lemma_be_bytes_len(m as nat, 8);
    }

    fn size(&self) -> (r: Result<VarInt, CodecError>) {
        proof {
            lemma_be_bytes_len(*self as nat, 8);
        }
        Ok(VarInt(8))
    }
}

impl Decodable for u64 {
    open spec fn spec_decode(bytes: Seq<u8>) -> Result<(u64, nat), CodecError> {
        match fixed_parse(bytes, 8) {
            Ok((v, n)) => Ok((v as u64, n)),
            Err(e) => Err(e),
        }
    }

    proof fn lemma_decode_len(bytes: Seq<u8>) {
    }

    fn decode(reader: &mut ByteReader) -> (r: Result<u64, CodecError>) {
        proof {
            if old(reader).rest().len() >= 8 {
                lemma_be_value_bound(old(reader).rest().subrange(0, 8));
                lemma_pow256_values();
            }
        }
        match read_be(reader, 8) {
            Ok(v) => Ok(v as u64),
            Err(e) => Err(e),
        }
    }
}

impl Codec for u64 {
    open spec fn valid(m: u64) -> bool {
        true
    }

    open spec fn delimited() -> bool {
        true
    }

    proof fn lemma_round_trip(m: u64, rest: Seq<u8>) {
        lemma_pow256_values();
        lemma_fixed_round_trip(m as nat, 8, rest);
    }
}

impl Encodable for i64 {
    open spec fn spec_encode(m: i64) -> Result<Seq<u8>, CodecError> {
        Ok(be_bytes(m as u64 as nat, 8))
    }

    fn encode(&self, out: &mut Vec<u8>) -> (r: Result<(), CodecError>) {
        write_be((#[verifier::truncate] (*self as u64)) as u64, 8, out);
        Ok(())
    }

    open spec fn spec_size(m: i64) -> Result<nat, CodecError> {
        Ok(8)
    }

    proof fn lemma_size_faithful(m: i64) {
        lemma_be_bytes_len(m as u64 as nat, 8);
    }

    fn size(&self) -> (r: Result<VarInt, CodecError>) {
        proof {
            lemma_be_bytes_len(*self as u64 as nat, 8);
        }
        Ok(VarInt(8))
    }
}

impl Decodable for i64 {
    open spec fn spec_decode(bytes: Seq<u8>) -> Result<(i64, nat), CodecError> {
        match fixed_parse(bytes, 8) {
            Ok((v, n)) => Ok((v as u64 as i64, n)),
            Err(e) => Err(e),
        }
    }

    proof fn lemma_decode_len(bytes: Seq<u8>) {
    }

    fn decode(reader: &mut ByteReader) -> (r: Result<i64, CodecError>) {
        proof {
            if old(reader).rest().len() >= 8 {
                lemma_be_value_bound(old(reader).rest().subrange(0, 8));
                lemma_pow256_values();
            }
        }
        match read_be(reader, 8) {
            Ok(v) => Ok(#[verifier::truncate] ((v as u64) as i64)),
            Err(e) => Err(e),
        }
    }
}

impl Codec for i64 {
    open spec fn valid(m: i64) -> bool {
        true
    }

    open spec fn delimited() -> bool {
        true
    }

    proof fn lemma_round_trip(m: i64, rest: Seq<u8>) {
        lemma_pow256_values();
        lemma_fixed_round_trip(m as u64 as nat, 8, rest);
        assert((m as u64) as i64 == m) by (bit_vector);
    }
}

} // verus!

verus! {

impl Encodable for bool {
    open spec fn spec_encode(m: bool) -> Result<Seq<u8>, CodecError> {
        Ok(seq![if m { 1u8 } else { 0u8 }])
    }

    fn encode(&self, out: &mut Vec<u8>) -> (r: Result<(), CodecError>) {
        out.push(if *self { 1u8 } else { 0u8 });
        assert(out@ =~= old(out)@ + seq![if *self { 1u8 } else { 0u8 }]);
        Ok(())
    }

    open spec fn spec_size(m: bool) -> Result<nat, CodecError> {
        Ok(1)
    }

    proof fn lemma_size_faithful(m: bool) {
        
    }

    fn size(&self) -> (r: Result<VarInt, CodecError>) {
        Ok(VarInt(1))
    }
}

impl Decodable for bool {
    /// Only the bytes 0 and 1 are booleans.
    open spec fn spec_decode(bytes: Seq<u8>) -> Result<(bool, nat), CodecError> {
        if bytes.len() == 0 {
            Err(CodecError::UnexpectedEnd)
        } else if bytes[0] == 0 {
            Ok((false, 1))
        } else if bytes[0] == 1 {
            Ok((true, 1))
        } else {
            Err(CodecError::MalformedBoolean(bytes[0]))
        }
    }

    proof fn lemma_decode_len(bytes: Seq<u8>) {
    }

    /// A malformed byte is consumed all the same.
    fn decode(reader: &mut ByteReader) -> (r: Result<bool, CodecError>)
        ensures
            old(reader).rest().len() >= 1 ==> final(reader).pos() == old(reader).pos() + 1,
    {
        let b = match reader.read_u8() {
            Ok(b) => b,
            Err(e) => return Err(e),
        };
        if b == 0 {
            Ok(false)
        } else if b == 1 {
            Ok(true)
        } else {
            Err(CodecError::MalformedBoolean(b))
        }
    }
}

impl Codec for bool {
    open spec fn valid(m: bool) -> bool {
        true
    }

    open spec fn delimited() -> bool {
        true
    }

    proof fn lemma_round_trip(m: bool, rest: Seq<u8>) {
        let s = Self::spec_encode(m)->Ok_0 + rest;
        assert(s[0] == if m { 1u8 } else { 0u8 });
    }
}

/// Decoding any byte other than 0 and 1 as a boolean fails as malformed.
pub proof fn lemma_bool_strict(bytes: Seq<u8>)
    requires
        bytes.len() >= 1,
        bytes[0] != 0 && bytes[0] != 1,
    ensures
        <bool as Decodable>::spec_decode(bytes) == Err::<(bool, nat), CodecError>(
            CodecError::MalformedBoolean(bytes[0]),
        ),
{
}

/// A 32-bit IEEE 754 number, held as its bit pattern.
#[derive(Clone, Copy, Debug, PartialEq, Eq, Structural)]
pub struct Float(pub u32);

/// A 64-bit IEEE 754 number, held as its bit pattern.
#[derive(Clone, Copy, Debug, PartialEq, Eq, Structural)]
pub struct Double(pub u64);

impl DeepView for Float {
    type V = u32;

    open spec fn deep_view(&self) -> u32 {
        self.0
    }
}

impl DeepView for Double {
    type V = u64;

    open spec fn deep_view(&self) -> u64 {
        self.0
    }
}

impl Encodable for Float {
    open spec fn spec_encode(m: u32) -> Result<Seq<u8>, CodecError> {
        <u32 as Encodable>::spec_encode(m)
    }

    fn encode(&self, out: &mut Vec<u8>) -> (r: Result<(), CodecError>) {
        self.0.encode(out)
    }

    open spec fn spec_size(m: u32) -> Result<nat, CodecError> {
        <u32 as Encodable>::spec_size(m)
    }

    proof fn lemma_size_faithful(m: u32) {
        <u32 as Encodable>::lemma_size_faithful(m);
    }

    fn size(&self) -> (r: Result<VarInt, CodecError>) {
        self.0.size()
    }
}

impl Decodable for Float {
    open spec fn spec_decode(bytes: Seq<u8>) -> Result<(u32, nat), CodecError> {
        <u32 as Decodable>::spec_decode(bytes)
    }

    proof fn lemma_decode_len(bytes: Seq<u8>) {
    }

    fn decode(reader: &mut ByteReader) -> (r: Result<Float, CodecError>) {
        match u32::decode(reader) {
            Ok(v) => Ok(Float(v)),
            Err(e) => Err(e),
        }
    }
}

impl Codec for Float {
    open spec fn valid(m: u32) -> bool {
        true
    }

    open spec fn delimited() -> bool {
        true
    }

    proof fn lemma_round_trip(m: u32, rest: Seq<u8>) {
        <u32 as Codec>::lemma_round_trip(m, rest);
    }
}

impl Encodable for Double {
    open spec fn spec_encode(m: u64) -> Result<Seq<u8>, CodecError> {
        <u64 as Encodable>::spec_encode(m)
    }

    fn encode(&self, out: &mut Vec<u8>) -> (r: Result<(), CodecError>) {
        self.0.encode(out)
    }

    open spec fn spec_size(m: u64) -> Result<nat, CodecError> {
        <u64 as Encodable>::spec_size(m)
    }

    proof fn lemma_size_faithful(m: u64) {
        <u64 as Encodable>::lemma_size_faithful(m);
    }

    fn size(&self) -> (r: Result<VarInt, CodecError>) {
        self.0.size()
    }
}

impl Decodable for Double {
    open spec fn spec_decode(bytes: Seq<u8>) -> Result<(u64, nat), CodecError> {
        <u64 as Decodable>::spec_decode(bytes)
    }

    proof fn lemma_decode_len(bytes: Seq<u8>) {
    }

    fn decode(reader: &mut ByteReader) -> (r: Result<Double, CodecError>) {
        match u64::decode(reader) {
            Ok(v) => Ok(Double(v)),
            Err(e) => Err(e),
        }
    }
}

impl Codec for Double {
    open spec fn valid(m: u64) -> bool {
        true
    }

    open spec fn delimited() -> bool {
        true
    }

    proof fn lemma_round_trip(m: u64, rest: Seq<u8>) {
        <u64 as Codec>::lemma_round_trip(m, rest);
    }
}

} // verus!
