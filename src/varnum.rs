use vstd::prelude::*;

use crate::codec::{Codec, Decodable, Encodable};
use crate::error::CodecError;
use crate::reader::ByteReader;

verus! {

/// A signed 32-bit integer carried in one to five bytes of 7-bit groups.
#[derive(Clone, Copy, Debug, PartialEq, Eq, Structural)]
pub struct VarInt(pub i32);

/// A signed 64-bit integer carried in one to ten bytes of 7-bit groups.
#[derive(Clone, Copy, Debug, PartialEq, Eq, Structural)]
pub struct VarLong(pub i64);

/// The most groups a VarInt may take.
pub const VARINT_MAX_GROUPS: usize = 5;

/// The most groups a VarLong may take.
pub const VARLONG_MAX_GROUPS: usize = 10;

/// 128 to the power `n`.
pub open spec fn pow128(n: nat) -> nat
    decreases n,
{
    if n == 0 {
        1
    } else {
        128 * pow128((n - 1) as nat)
    }
}

/// The 7-bit groups of `v`, least significant first; every byte but the last
/// carries the continuation bit.
pub open spec fn leb_bytes(v: nat) -> Seq<u8>
    decreases v,
{
    if v < 128 {
        seq![v as u8]
    } else {
        seq![(v % 128 + 128) as u8] + leb_bytes(v / 128)
    }
}

/// Reads 7-bit groups from the front of `bytes`, at most `max` of them: the
/// value they spell (not yet cut to any width) and the bytes they take.
pub open spec fn leb_parse(bytes: Seq<u8>, max: nat) -> Result<(nat, nat), CodecError>
    decreases max,
{
    if max == 0 {
        Err(CodecError::OverlongVarNum)
    } else if bytes.len() == 0 {
        Err(CodecError::UnexpectedEnd)
    } else if bytes[0] < 128 {
        Ok((bytes[0] as nat, 1))
    } else {
        match leb_parse(bytes.drop_first(), (max - 1) as nat) {
            Ok((v, n)) => Ok(((bytes[0] - 128) as nat + 128 * v, n + 1)),
            Err(e) => Err(e),
        }
    }
}

/// The wire form of a VarInt: the groups of its two's-complement bit pattern.
pub open spec fn varint_bytes(x: i32) -> Seq<u8> {
    leb_bytes(x as u32 as nat)
}

/// The wire form of a VarLong.
pub open spec fn varlong_bytes(x: i64) -> Seq<u8> {
    leb_bytes(x as u64 as nat)
}

/// Decoding a VarInt: at most five groups, the value cut to 32 bits.
pub open spec fn varint_parse(bytes: Seq<u8>) -> Result<(i32, nat), CodecError> {
    match leb_parse(bytes, 5) {
        Ok((v, n)) => Ok((v as u32 as i32, n)),
        Err(e) => Err(e),
    }
}

/// Decoding a VarLong: at most ten groups, the value cut to 64 bits.
pub open spec fn varlong_parse(bytes: Seq<u8>) -> Result<(i64, nat), CodecError> {
    match leb_parse(bytes, 10) {
        Ok((v, n)) => Ok((v as u64 as i64, n)),
        Err(e) => Err(e),
    }
}

proof fn lemma_pow128_monotone(a: nat, b: nat)
    requires
        a <= b,
    ensures
        pow128(a) <= pow128(b),
    decreases b,
{
    if a < b {
        lemma_pow128_monotone(a, (b - 1) as nat);
    }
}

/// A successful parse takes between one and `max` bytes, all present, and
/// spells a value below 128 to the power of its length.
proof fn lemma_leb_parse_bounds(bytes: Seq<u8>, max: nat)
    ensures
        leb_parse(bytes, max) is Ok ==> {
            let (v, n) = leb_parse(bytes, max)->Ok_0;
            1 <= n <= max && n <= bytes.len() && v < pow128(n)
        },
    decreases max,
{
    reveal_with_fuel(pow128, 2);
    if max > 0 && bytes.len() > 0 && bytes[0] >= 128 {
        let t = bytes.drop_first();
        lemma_leb_parse_bounds(t, (max - 1) as nat);
        if leb_parse(t, (max - 1) as nat) is Ok {
            let (v1, n1) = leb_parse(t, (max - 1) as nat)->Ok_0;
            let low = (bytes[0] - 128) as nat;
            assert(low + 128 * v1 < 128 * pow128(n1)) by (nonlinear_arith)
                requires
                    low < 128,
                    v1 < pow128(n1),
            ;
            assert(pow128(n1 + 1) == 128 * pow128(n1));
        }
    }
}

/// The groups of `v` number at most `k` when `v` is below 128 to the `k`.
proof fn lemma_leb_len(v: nat, k: nat)
    requires
        v < pow128(k),
        k >= 1,
    ensures
        1 <= leb_bytes(v).len() <= k,
    decreases v,
{
    if v >= 128 {
        let p = pow128((k - 1) as nat);
        assert(pow128(k) == 128 * p);
        assert(v / 128 < p) by (nonlinear_arith)
            requires
                v < 128 * p,
        ;
        if k == 1 {
            assert(v < 128);
        } else {
            lemma_leb_len(v / 128, (k - 1) as nat);
        }
    }
}

proof fn lemma_pow128_ten()
    ensures
        pow128(5) == 0x8_0000_0000,
        pow128(9) == 0x8000_0000_0000_0000,
        pow128(10) == 0x40_0000_0000_0000_0000,
{
    reveal_with_fuel(pow128, 11);
}

/// Parsing the groups of `v`, whatever follows them, gives back `v` and their
/// length.
proof fn lemma_leb_round_trip(v: nat, rest: Seq<u8>, max: nat)
    requires
        leb_bytes(v).len() <= max,
    ensures
        leb_parse(leb_bytes(v) + rest, max) == Ok::<(nat, nat), CodecError>(
            (v, leb_bytes(v).len()),
        ),
    decreases v,
{
    let s = leb_bytes(v) + rest;
    if v < 128 {
        assert(s[0] == v as u8);
    } else {
        lemma_leb_round_trip(v / 128, rest, (max - 1) as nat);
        assert(s.drop_first() =~= leb_bytes(v / 128) + rest);
        assert(s[0] == (v % 128 + 128) as u8);
    }
}

/// `max` bytes that all carry the continuation bit end a parse of at most
/// `max` groups as overlong.
proof fn lemma_leb_overlong(bytes: Seq<u8>, max: nat)
    requires
        bytes.len() >= max,
        forall|i: int| 0 <= i < max ==> bytes[i] >= 128,
    ensures
        leb_parse(bytes, max) == Err::<(nat, nat), CodecError>(CodecError::OverlongVarNum),
    decreases max,
{
    if max > 0 {
        let t = bytes.drop_first();
        assert forall|i: int| 0 <= i < max - 1 implies t[i] >= 128 by {
            assert(t[i] == bytes[i + 1]);
        }
        lemma_leb_overlong(t, (max - 1) as nat);
    }
}

/// Reads at most `max` groups.
fn read_leb(reader: &mut ByteReader, max: usize) -> (r: Result<(u128, usize), CodecError>)
    requires
        old(reader).wf(),
        max <= 10,
    ensures
        final(reader).wf(),
        final(reader).data() == old(reader).data(),
        old(reader).pos() <= final(reader).pos(),
        match leb_parse(old(reader).rest(), max as nat) {
            Ok((v, n)) => r == Ok::<(u128, usize), CodecError>((v as u128, n as usize))
                && final(reader).pos() == old(reader).pos() + n,
            Err(e) => r == Err::<(u128, usize), CodecError>(e),
        },
        leb_parse(old(reader).rest(), max as nat) == Err::<(nat, nat), CodecError>(
            CodecError::OverlongVarNum,
        ) ==> final(reader).pos() == old(reader).pos() + max,
    decreases max,
{
    if max == 0 {
        return Err(CodecError::OverlongVarNum);
    }
    let ghost rest0 = reader.rest();
    let b = match reader.read_u8() {
        Ok(b) => b,
        Err(e) => return Err(e),
    };
    if b < 128 {
        Ok((b as u128, 1))
    } else {
        assert(reader.rest() =~= rest0.drop_first());
        match read_leb(reader, max - 1) {
            Ok((v, n)) => {
                proof {
                    lemma_leb_parse_bounds(rest0.drop_first(), (max - 1) as nat);
                    lemma_pow128_monotone(n as nat, 9);
                    lemma_pow128_ten();
                }
                Ok(((b - 128) as u128 + 128 * v, n + 1))
            },
            Err(e) => Err(e),
        }
    }
}

/// Appends the groups of `v`.
fn write_leb(v: u64, out: &mut Vec<u8>)
    ensures
        final(out)@ == old(out)@ + leb_bytes(v as nat),
{
    let mut temp = v;
    while temp >= 128
        invariant
            out@ + leb_bytes(temp as nat) == old(out)@ + leb_bytes(v as nat),
        decreases temp,
    {
        let ghost before = out@;
        out.push((temp % 128 + 128) as u8);
        assert(leb_bytes(temp as nat) == seq![(temp % 128 + 128) as u8] + leb_bytes(
            (temp / 128) as nat,
        ));
        assert(out@ + leb_bytes((temp / 128) as nat) =~= before + leb_bytes(temp as nat));
        temp = temp / 128;
    }
    let ghost before = out@;
    out.push(temp as u8);
    assert(out@ =~= before + leb_bytes(temp as nat));
}

/// The number of groups of `v`.
fn leb_len(v: u64) -> (r: usize)
    requires
        leb_bytes(v as nat).len() <= 10,
    ensures
        r == leb_bytes(v as nat).len(),
{
    let mut temp = v;
    let mut n: usize = 1;
    while temp >= 128
        invariant
            n + leb_bytes(temp as nat).len() == leb_bytes(v as nat).len() + 1,
            leb_bytes(v as nat).len() <= 10,
        decreases temp,
    {
        assert(leb_bytes(temp as nat) == seq![(temp % 128 + 128) as u8] + leb_bytes(
            (temp / 128) as nat,
        ));
        proof {
            lemma_pow128_ten();
            lemma_leb_len((temp / 128) as nat, 10);
        }
        n = n + 1;
        temp = temp / 128;
    }
    n
}

pub proof fn lemma_varint_len(x: i32)
    ensures
        1 <= varint_bytes(x).len() <= 5,
{
    lemma_pow128_ten();
    lemma_leb_len(x as u32 as nat, 5);
}

pub proof fn lemma_varlong_len(x: i64)
    ensures
        1 <= varlong_bytes(x).len() <= 10,
{
    lemma_pow128_ten();
    lemma_leb_len(x as u64 as nat, 10);
}

/// `v` as an `i32` when it is one.
pub open spec fn fits_i32(v: int) -> bool {
    i32::MIN <= v <= i32::MAX
}

/// `v` as an `i64` when it is one.
pub open spec fn fits_i64(v: int) -> bool {
    i64::MIN <= v <= i64::MAX
}

impl VarInt {
    pub open spec fn spec_value(&self) -> int {
        self.0 as int
    }

    /// The sum, or `None` where it leaves the 32-bit range.
    pub fn checked_add(self, rhs: VarInt) -> (r: Option<VarInt>)
        ensures
            fits_i32(self.0 + rhs.0) ==> r == Some(VarInt((self.0 + rhs.0) as i32)),
            !fits_i32(self.0 + rhs.0) ==> r is None,
    {
        let s = self.0 as i64 + rhs.0 as i64;
        if s < i32::MIN as i64 || s > i32::MAX as i64 {
            None
        } else {
            Some(VarInt(s as i32))
        }
    }

    /// The difference, or `None` where it leaves the 32-bit range.
    pub fn checked_sub(self, rhs: VarInt) -> (r: Option<VarInt>)
        ensures
            fits_i32(self.0 - rhs.0) ==> r == Some(VarInt((self.0 - rhs.0) as i32)),
            !fits_i32(self.0 - rhs.0) ==> r is None,
    {
        let s = self.0 as i64 - rhs.0 as i64;
        if s < i32::MIN as i64 || s > i32::MAX as i64 {
            None
        } else {
            Some(VarInt(s as i32))
        }
    }

    /// The product, or `None` where it leaves the 32-bit range.
    pub fn checked_mul(self, rhs: VarInt) -> (r: Option<VarInt>)
        ensures
            fits_i32(self.0 * rhs.0) ==> r == Some(VarInt((self.0 * rhs.0) as i32)),
            !fits_i32(self.0 * rhs.0) ==> r is None,
    {
        let a = self.0 as i64;
        let b = rhs.0 as i64;
        assert(-0x4000_0000_0000_0000 <= a * b <= 0x4000_0000_0000_0000) by (nonlinear_arith)
            requires
                -0x8000_0000 <= a <= 0x7fff_ffff,
                -0x8000_0000 <= b <= 0x7fff_ffff,
        ;
        let p = a * b;
        if p < i32::MIN as i64 || p > i32::MAX as i64 {
            None
        } else {
            Some(VarInt(p as i32))
        }
    }

    /// A count or length as a VarInt, or `None` where it does not fit.
    pub fn from_usize(n: usize) -> (r: Option<VarInt>)
        ensures
            n <= i32::MAX ==> r == Some(VarInt(n as i32)),
            n > i32::MAX ==> r is None,
    {
        if n > 0x7fff_ffff {
            None
        } else {
            Some(VarInt(n as i32))
        }
    }

    /// A 64-bit value as a VarInt, or `None` where it does not fit.
    pub fn from_i64(v: i64) -> (r: Option<VarInt>)
        ensures
            fits_i32(v as int) ==> r == Some(VarInt(v as i32)),
            !fits_i32(v as int) ==> r is None,
    {
        if v < i32::MIN as i64 || v > i32::MAX as i64 {
            None
        } else {
            Some(VarInt(v as i32))
        }
    }

    pub fn value(&self) -> (r: i32)
        ensures
            r == self.0,
    {
        self.0
    }

    /// Decodes a VarInt and also reports how many bytes it took.
    pub fn decode_and_size(reader: &mut ByteReader) -> (r: Result<(VarInt, VarInt), CodecError>)
        requires
            old(reader).wf(),
        ensures
            final(reader).wf(),
            final(reader).data() == old(reader).data(),
            old(reader).pos() <= final(reader).pos(),
            match varint_parse(old(reader).rest()) {
                Ok((v, n)) => r is Ok && r->Ok_0.0.0 == n && r->Ok_0.1.0 == v && final(reader).pos()
                    == old(reader).pos() + n,
                Err(e) => r == Err::<(VarInt, VarInt), CodecError>(e),
            },
    {
        match read_leb(reader, VARINT_MAX_GROUPS) {
            Ok((v, n)) => {
                proof {
                    lemma_leb_parse_bounds(old(reader).rest(), 5);
                    lemma_pow128_monotone(n as nat, 5);
                    lemma_pow128_ten();
                }
                Ok((VarInt(n as i32), VarInt(#[verifier::truncate] ((#[verifier::truncate] (v as u32)) as i32))))
            },
            Err(e) => Err(e),
        }
    }
}

impl VarLong {
    pub open spec fn spec_value(&self) -> int {
        self.0 as int
    }

    /// The sum, or `None` where it leaves the 64-bit range.
    pub fn checked_add(self, rhs: VarLong) -> (r: Option<VarLong>)
        ensures
            fits_i64(self.0 + rhs.0) ==> r == Some(VarLong((self.0 + rhs.0) as i64)),
            !fits_i64(self.0 + rhs.0) ==> r is None,
    {
        if (rhs.0 > 0 && self.0 > i64::MAX - rhs.0) || (rhs.0 < 0 && self.0 < i64::MIN - rhs.0) {
            None
        } else {
            Some(VarLong(self.0 + rhs.0))
        }
    }

    /// The difference, or `None` where it leaves the 64-bit range.
    pub fn checked_sub(self, rhs: VarLong) -> (r: Option<VarLong>)
        ensures
            fits_i64(self.0 - rhs.0) ==> r == Some(VarLong((self.0 - rhs.0) as i64)),
            !fits_i64(self.0 - rhs.0) ==> r is None,
    {
        let d = self.0 as i128 - rhs.0 as i128;
        if d < i64::MIN as i128 || d > i64::MAX as i128 {
            None
        } else {
            Some(VarLong(d as i64))
        }
    }

    /// The product, or `None` where it leaves the 64-bit range.
    pub fn checked_mul(self, rhs: VarLong) -> (r: Option<VarLong>)
        ensures
            fits_i64(self.0 * rhs.0) ==> r == Some(VarLong((self.0 * rhs.0) as i64)),
            !fits_i64(self.0 * rhs.0) ==> r is None,
    {
        let a = self.0 as i128;
        let b = rhs.0 as i128;
        assert(-0x4000_0000_0000_0000_0000_0000_0000_0000 <= a * b <= 0x4000_0000_0000_0000_0000_0000_0000_0000)
            by (nonlinear_arith)
            requires
                -0x8000_0000_0000_0000 <= a <= 0x7fff_ffff_ffff_ffff,
                -0x8000_0000_0000_0000 <= b <= 0x7fff_ffff_ffff_ffff,
        ;
        let p = a * b;
        if p < i64::MIN as i128 || p > i64::MAX as i128 {
            None
        } else {
            Some(VarLong(p as i64))
        }
    }

    /// An unsigned 64-bit value as a VarLong, or `None` where it does not fit.
    pub fn from_u64(v: u64) -> (r: Option<VarLong>)
        ensures
            v <= i64::MAX ==> r == Some(VarLong(v as i64)),
            v > i64::MAX ==> r is None,
    {
        if v > 0x7fff_ffff_ffff_ffff {
            None
        } else {
            Some(VarLong(v as i64))
        }
    }

    /// A count or length as a VarLong, or `None` where it does not fit.
    pub fn from_usize(n: usize) -> (r: Option<VarLong>)
        ensures
            n <= i64::MAX ==> r == Some(VarLong(n as i64)),
            n > i64::MAX ==> r is None,
    {
        if n as u64 > 0x7fff_ffff_ffff_ffff {
            None
        } else {
            Some(VarLong(n as i64))
        }
    }

    /// A VarLong as a VarInt, or `None` where it does not fit.
    pub fn to_varint(self) -> (r: Option<VarInt>)
        ensures
            fits_i32(self.0 as int) ==> r == Some(VarInt(self.0 as i32)),
            !fits_i32(self.0 as int) ==> r is None,
    {
        VarInt::from_i64(self.0)
    }

    pub fn value(&self) -> (r: i64)
        ensures
            r == self.0,
    {
        self.0
    }

    /// Decodes a VarLong and also reports how many bytes it took.
    pub fn decode_and_size(reader: &mut ByteReader) -> (r: Result<(VarInt, VarLong), CodecError>)
        requires
            old(reader).wf(),
        ensures
            final(reader).wf(),
            final(reader).data() == old(reader).data(),
            old(reader).pos() <= final(reader).pos(),
            match varlong_parse(old(reader).rest()) {
                Ok((v, n)) => r is Ok && r->Ok_0.0.0 == n && r->Ok_0.1.0 == v && final(reader).pos()
                    == old(reader).pos() + n,
                Err(e) => r == Err::<(VarInt, VarLong), CodecError>(e),
            },
    {
        match read_leb(reader, VARLONG_MAX_GROUPS) {
            Ok((v, n)) => {
                proof {
                    lemma_leb_parse_bounds(old(reader).rest(), 10);
                    lemma_pow128_monotone(n as nat, 10);
                    lemma_pow128_ten();
                }
                Ok((VarInt(n as i32), VarLong(#[verifier::truncate] ((#[verifier::truncate] (v as u64)) as i64))))
            },
            Err(e) => Err(e),
        }
    }
}

impl DeepView for VarInt {
    type V = i32;

    open spec fn deep_view(&self) -> i32 {
        self.0
    }
}

impl DeepView for VarLong {
    type V = i64;

    open spec fn deep_view(&self) -> i64 {
        self.0
    }
}

impl Encodable for VarInt {
    open spec fn spec_encode(m: i32) -> Result<Seq<u8>, CodecError> {
        Ok(varint_bytes(m))
    }

    fn encode(&self, out: &mut Vec<u8>) -> (r: Result<(), CodecError>) {
        write_leb(self.0 as u32 as u64, out);
        Ok(())
    }

    open spec fn spec_size(m: i32) -> Result<nat, CodecError> {
        Ok(varint_bytes(m).len())
    }

    proof fn lemma_size_faithful(m: i32) {
        lemma_varint_len(m);
    }

    fn size(&self) -> (r: Result<VarInt, CodecError>) {
        proof {
            lemma_varint_len(self.0);
        }
        let n = leb_len(self.0 as u32 as u64);
        Ok(VarInt(n as i32))
    }
}

impl Decodable for VarInt {
    open spec fn spec_decode(bytes: Seq<u8>) -> Result<(i32, nat), CodecError> {
        varint_parse(bytes)
    }

    proof fn lemma_decode_len(bytes: Seq<u8>) {
        lemma_leb_parse_bounds(bytes, 5);
    }

    /// An overlong VarInt is rejected after its five bytes, before a sixth is
    /// read.
    fn decode(reader: &mut ByteReader) -> (r: Result<VarInt, CodecError>)
        ensures
            varint_parse(old(reader).rest()) == Err::<(i32, nat), CodecError>(
                CodecError::OverlongVarNum,
            ) ==> final(reader).pos() == old(reader).pos() + 5,
    {
        proof {
            lemma_leb_parse_bounds(old(reader).rest(), 5);
            lemma_pow128_ten();
            if leb_parse(old(reader).rest(), 5) is Ok {
                lemma_pow128_monotone(leb_parse(old(reader).rest(), 5)->Ok_0.1, 5);
            }
        }
        match read_leb(reader, VARINT_MAX_GROUPS) {
            Ok((v, n)) => Ok(VarInt(#[verifier::truncate] ((#[verifier::truncate] (v as u32)) as i32))),
            Err(e) => Err(e),
        }
    }
}

impl Encodable for VarLong {
    open spec fn spec_encode(m: i64) -> Result<Seq<u8>, CodecError> {
        Ok(varlong_bytes(m))
    }

    fn encode(&self, out: &mut Vec<u8>) -> (r: Result<(), CodecError>) {
        write_leb(self.0 as u64, out);
        Ok(())
    }

    open spec fn spec_size(m: i64) -> Result<nat, CodecError> {
        Ok(varlong_bytes(m).len())
    }

    proof fn lemma_size_faithful(m: i64) {
        lemma_varlong_len(m);
    }

    fn size(&self) -> (r: Result<VarInt, CodecError>) {
        proof {
            lemma_varlong_len(self.0);
        }
        let n = leb_len(self.0 as u64);
        Ok(VarInt(n as i32))
    }
}

impl Decodable for VarLong {
    open spec fn spec_decode(bytes: Seq<u8>) -> Result<(i64, nat), CodecError> {
        varlong_parse(bytes)
    }

    proof fn lemma_decode_len(bytes: Seq<u8>) {
        lemma_leb_parse_bounds(bytes, 10);
    }

    /// An overlong VarLong is rejected after its ten bytes, before an
    /// eleventh is read.
    fn decode(reader: &mut ByteReader) -> (r: Result<VarLong, CodecError>)
        ensures
            varlong_parse(old(reader).rest()) == Err::<(i64, nat), CodecError>(
                CodecError::OverlongVarNum,
            ) ==> final(reader).pos() == old(reader).pos() + 10,
    {
        proof {
            lemma_leb_parse_bounds(old(reader).rest(), 10);
            lemma_pow128_ten();
            if leb_parse(old(reader).rest(), 10) is Ok {
                lemma_pow128_monotone(leb_parse(old(reader).rest(), 10)->Ok_0.1, 10);
            }
        }
        match read_leb(reader, VARLONG_MAX_GROUPS) {
            Ok((v, n)) => Ok(VarLong(#[verifier::truncate] ((#[verifier::truncate] (v as u64)) as i64))),
            Err(e) => Err(e),
        }
    }
}

/// Decoding the encoding of a VarInt, whatever follows it, gives back the
/// value and takes exactly its bytes.
pub proof fn lemma_varint_round_trip(x: i32, rest: Seq<u8>)
    ensures
        varint_parse(varint_bytes(x) + rest) == Ok::<(i32, nat), CodecError>(
            (x, varint_bytes(x).len()),
        ),
{
    lemma_varint_len(x);
    lemma_leb_round_trip(x as u32 as nat, rest, 5);
    assert((x as u32) as i32 == x) by (bit_vector);
}

/// Decoding the encoding of a VarLong, whatever follows it, gives back the
/// value and takes exactly its bytes.
pub proof fn lemma_varlong_round_trip(x: i64, rest: Seq<u8>)
    ensures
        varlong_parse(varlong_bytes(x) + rest) == Ok::<(i64, nat), CodecError>(
            (x, varlong_bytes(x).len()),
        ),
{
    lemma_varlong_len(x);
    lemma_leb_round_trip(x as u64 as nat, rest, 10);
    assert((x as u64) as i64 == x) by (bit_vector);
}

/// No VarInt encoding is a prefix of the encoding of another value.
pub proof fn lemma_varint_prefix_free(a: i32, b: i32)
    requires
        a != b,
    ensures
        !varint_bytes(a).is_prefix_of(varint_bytes(b)),
{
    if varint_bytes(a).is_prefix_of(varint_bytes(b)) {
        let sa = varint_bytes(a);
        let sb = varint_bytes(b);
        let tail = sb.subrange(sa.len() as int, sb.len() as int);
        assert(sb =~= sa + tail);
        lemma_varint_round_trip(a, tail);
        lemma_varint_round_trip(b, Seq::empty());
        assert(sb + Seq::<u8>::empty() =~= sb);
    }
}

/// No VarLong encoding is a prefix of the encoding of another value.
pub proof fn lemma_varlong_prefix_free(a: i64, b: i64)
    requires
        a != b,
    ensures
        !varlong_bytes(a).is_prefix_of(varlong_bytes(b)),
{
    if varlong_bytes(a).is_prefix_of(varlong_bytes(b)) {
        let sa = varlong_bytes(a);
        let sb = varlong_bytes(b);
        let tail = sb.subrange(sa.len() as int, sb.len() as int);
        assert(sb =~= sa + tail);
        lemma_varlong_round_trip(a, tail);
        lemma_varlong_round_trip(b, Seq::empty());
        assert(sb + Seq::<u8>::empty() =~= sb);
    }
}

/// A stream whose first five bytes all carry the continuation bit does not
/// decode as a VarInt: it is overlong (and `VarInt::decode` stops after those
/// five bytes).
pub proof fn lemma_varint_overlong(bytes: Seq<u8>)
    requires
        bytes.len() >= 5,
        forall|i: int| 0 <= i < 5 ==> bytes[i] >= 128,
    ensures
        varint_parse(bytes) == Err::<(i32, nat), CodecError>(CodecError::OverlongVarNum),
{
    lemma_leb_overlong(bytes, 5);
}

/// A stream whose first ten bytes all carry the continuation bit does not
/// decode as a VarLong: it is overlong (and `VarLong::decode` stops after
/// those ten bytes).
pub proof fn lemma_varlong_overlong(bytes: Seq<u8>)
    requires
        bytes.len() >= 10,
        forall|i: int| 0 <= i < 10 ==> bytes[i] >= 128,
    ensures
        varlong_parse(bytes) == Err::<(i64, nat), CodecError>(CodecError::OverlongVarNum),
{
    lemma_leb_overlong(bytes, 10);
}

} // verus!

verus! {

impl Codec for VarInt {
    open spec fn valid(m: i32) -> bool {
        true
    }

    open spec fn delimited() -> bool {
        true
    }

    proof fn lemma_round_trip(m: i32, rest: Seq<u8>) {
        lemma_varint_round_trip(m, rest);
    }
}

impl Codec for VarLong {
    open spec fn valid(m: i64) -> bool {
        true
    }

    open spec fn delimited() -> bool {
        true
    }

    proof fn lemma_round_trip(m: i64, rest: Seq<u8>) {
        lemma_varlong_round_trip(m, rest);
    }
}

} // verus!

verus! {

impl From<i32> for VarInt {
    fn from(v: i32) -> (r: VarInt) {
        VarInt(v)
    }
}

impl vstd::std_specs::convert::FromSpecImpl<i32> for VarInt {
    open spec fn obeys_from_spec() -> bool {
        true
    }

    open spec fn from_spec(v: i32) -> VarInt {
        VarInt(v)
    }
}

impl From<i64> for VarLong {
    fn from(v: i64) -> (r: VarLong) {
        VarLong(v)
    }
}

impl vstd::std_specs::convert::FromSpecImpl<i64> for VarLong {
    open spec fn obeys_from_spec() -> bool {
        true
    }

    open spec fn from_spec(v: i64) -> VarLong {
        VarLong(v)
    }
}

} // verus!
