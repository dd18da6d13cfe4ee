use vstd::prelude::*;

use crate::codec::{
    add_size, add_size_spec, count_then, lemma_then_size, max_size, size_matches, encoded,
    roll_back, sized, then_encode, Codec, Decodable, Encodable, SizeDecodable,
    SizeEncodable,
};
use crate::error::CodecError;
use crate::reader::ByteReader;
use crate::varnum::{lemma_varint_round_trip, varint_bytes, varint_parse, VarInt};

verus! {

/// The encodings of the elements of `m` one after another, or the first
/// error.
#[verifier::opaque]
pub open spec fn seq_encode<T: Encodable>(m: Seq<T::V>) -> Result<Seq<u8>, CodecError>
    decreases m.len(),
{
    if m.len() == 0 {
        Ok(Seq::empty())
    } else {
        then_encode(seq_encode::<T>(m.drop_last()), T::spec_encode(m.last()))
    }
}

/// Decoding elements until the bytes run out.
pub open spec fn seq_parse_all<T: Decodable>(bytes: Seq<u8>) -> Result<Seq<T::V>, CodecError>
    decreases bytes.len(),
{
    if bytes.len() == 0 {
        Ok(Seq::empty())
    } else {
        match T::spec_decode(bytes) {
            Err(e) => Err(e),
            Ok((v, n)) => if n == 0 || n > bytes.len() {
                Err(CodecError::UnexpectedEnd)
            } else {
                match seq_parse_all::<T>(bytes.subrange(n as int, bytes.len() as int)) {
                    Ok(s) => Ok(seq![v] + s),
                    Err(e) => Err(e),
                }
            },
        }
    }
}

/// Decoding exactly `count` elements: their models and the bytes they take.
pub open spec fn seq_parse_n<T: Decodable>(bytes: Seq<u8>, count: nat) -> Result<
    (Seq<T::V>, nat),
    CodecError,
>
    decreases count,
{
    if count == 0 {
        Ok((Seq::empty(), 0))
    } else {
        match T::spec_decode(bytes) {
            Err(e) => Err(e),
            Ok((v, n)) => if n > bytes.len() {
                Err(CodecError::UnexpectedEnd)
            } else {
                match seq_parse_n::<T>(
                    bytes.subrange(n as int, bytes.len() as int),
                    (count - 1) as nat,
                ) {
                    Ok((s, k)) => Ok((seq![v] + s, n + k)),
                    Err(e) => Err(e),
                }
            },
        }
    }
}

/// `s` in front of the sequence `r` holds, when it holds one.
pub open spec fn prepend<V>(s: Seq<V>, r: Result<Seq<V>, CodecError>) -> Result<Seq<V>, CodecError> {
    match r {
        Ok(t) => Ok(s + t),
        Err(e) => Err(e),
    }
}

/// `s` in front of the sequence `r` holds, and `k` more bytes taken.
pub open spec fn prepend_n<V>(s: Seq<V>, k: nat, r: Result<(Seq<V>, nat), CodecError>) -> Result<
    (Seq<V>, nat),
    CodecError,
> {
    match r {
        Ok((t, j)) => Ok((s + t, k + j)),
        Err(e) => Err(e),
    }
}

/// Elements that a sequence can carry with no framing between them.
pub open spec fn elements_valid<T: Codec>(m: Seq<T::V>) -> bool {
    &&& T::delimited()
    &&& forall|i: int|
        0 <= i < m.len() ==> #[trigger] T::valid(m[i]) && T::spec_encode(m[i])->Ok_0.len() > 0
}

/// A prefix of a sequence encodes when the sequence does, to a prefix of its
/// bytes; an error in a prefix is the error of the whole.
proof fn lemma_seq_encode_prefix<T: Encodable>(m: Seq<T::V>, i: int)
    requires
        0 <= i <= m.len(),
    ensures
        seq_encode::<T>(m) is Ok ==> seq_encode::<T>(m.subrange(0, i)) is Ok && seq_encode::<T>(
            m.subrange(0, i),
        )->Ok_0.len() <= seq_encode::<T>(m)->Ok_0.len(),
        seq_encode::<T>(m.subrange(0, i)) is Err ==> seq_encode::<T>(m) == seq_encode::<T>(
            m.subrange(0, i),
        ),
    decreases m.len() - i,
{
    reveal(seq_encode);
    if i < m.len() {
        lemma_seq_encode_prefix::<T>(m, i + 1);
        assert(m.subrange(0, i + 1).drop_last() =~= m.subrange(0, i));
    } else {
        assert(m.subrange(0, i) =~= m);
    }
}

/// The encoding of a sequence is that of its first element, then that of the
/// others.
proof fn lemma_seq_encode_cons<T: Encodable>(m: Seq<T::V>)
    requires
        m.len() > 0,
    ensures
        seq_encode::<T>(m) == then_encode(T::spec_encode(m[0]), seq_encode::<T>(m.drop_first())),
    decreases m.len(),
{
    reveal(seq_encode);
    if m.len() == 1 {
        assert(m.drop_last() =~= Seq::<T::V>::empty());
        assert(m.drop_first() =~= Seq::<T::V>::empty());
        if let Ok(b) = T::spec_encode(m[0]) {
            assert(Seq::<u8>::empty() + b =~= b);
            assert(b + Seq::<u8>::empty() =~= b);
        }
    } else {
        let d = m.drop_last();
        lemma_seq_encode_cons::<T>(d);
        assert(d.drop_first() =~= m.drop_first().drop_last());
        assert(d[0] == m[0]);
        assert(m.drop_first().last() == m.last());
        match T::spec_encode(m[0]) {
            Err(e) => {},
            Ok(a) => match seq_encode::<T>(d.drop_first()) {
                Err(e) => {},
                Ok(b) => match T::spec_encode(m.last()) {
                    Err(e) => {},
                    Ok(c) => {
                        assert(a + b + c =~= a + (b + c));
                    },
                },
            },
        }
    }
}

/// Decoding the encoding of a sequence, with nothing after it, gives it back.
proof fn lemma_seq_round_trip<T: Codec>(m: Seq<T::V>)
    requires
        elements_valid::<T>(m),
    ensures
        seq_encode::<T>(m) is Ok,
        seq_parse_all::<T>(seq_encode::<T>(m)->Ok_0) == Ok::<Seq<T::V>, CodecError>(m),
    decreases m.len(),
{
    reveal(seq_encode);
    if m.len() == 0 {
        assert(m =~= Seq::<T::V>::empty());
    } else {
        let t = m.drop_first();
        assert(elements_valid::<T>(t)) by {
            assert forall|i: int| 0 <= i < t.len() implies #[trigger] T::valid(t[i])
                && T::spec_encode(t[i])->Ok_0.len() > 0 by {
                assert(t[i] == m[i + 1]);
            }
        }
        assert(T::valid(m[0]) && T::spec_encode(m[0])->Ok_0.len() > 0);
        lemma_seq_round_trip::<T>(t);
        lemma_seq_encode_cons::<T>(m);
        let tail = seq_encode::<T>(t)->Ok_0;
        T::lemma_round_trip(m[0], tail);
        let a = T::spec_encode(m[0])->Ok_0;
        let bytes = a + tail;
        assert(bytes.subrange(a.len() as int, bytes.len() as int) =~= tail);
        assert(seq![m[0]] + t =~= m);
    }
}

/// Decoding `count` elements from the encoding of a sequence of that many,
/// whatever follows, gives it back and takes exactly its bytes.
proof fn lemma_seq_n_round_trip<T: Codec>(m: Seq<T::V>, rest: Seq<u8>)
    requires
        elements_valid::<T>(m),
    ensures
        seq_encode::<T>(m) is Ok,
        seq_parse_n::<T>(seq_encode::<T>(m)->Ok_0 + rest, m.len()) == Ok::<
            (Seq<T::V>, nat),
            CodecError,
        >((m, seq_encode::<T>(m)->Ok_0.len())),
    decreases m.len(),
{
    reveal(seq_encode);
    if m.len() == 0 {
        assert(m =~= Seq::<T::V>::empty());
    } else {
        let t = m.drop_first();
        assert(elements_valid::<T>(t)) by {
            assert forall|i: int| 0 <= i < t.len() implies #[trigger] T::valid(t[i])
                && T::spec_encode(t[i])->Ok_0.len() > 0 by {
                assert(t[i] == m[i + 1]);
            }
        }
        assert(T::valid(m[0]));
        lemma_seq_n_round_trip::<T>(t, rest);
        lemma_seq_encode_cons::<T>(m);
        let tail = seq_encode::<T>(t)->Ok_0;
        T::lemma_round_trip(m[0], tail + rest);
        let a = T::spec_encode(m[0])->Ok_0;
        let bytes = seq_encode::<T>(m)->Ok_0 + rest;
        assert(bytes =~= a + (tail + rest));
        assert(bytes.subrange(a.len() as int, bytes.len() as int) =~= tail + rest);
        assert(seq![m[0]] + t =~= m);
    }
}

proof fn lemma_seq_parse_n_len<T: Decodable>(bytes: Seq<u8>, count: nat)
    ensures
        seq_parse_n::<T>(bytes, count) is Ok ==> seq_parse_n::<T>(bytes, count)->Ok_0.1
            <= bytes.len(),
    decreases count,
{
    if count > 0 {
        if let Ok((v, n)) = T::spec_decode(bytes) {
            if n <= bytes.len() {
                lemma_seq_parse_n_len::<T>(
                    bytes.subrange(n as int, bytes.len() as int),
                    (count - 1) as nat,
                );
            }
        }
    }
}

/// The sum of the sizes of the elements of `m`, or the first failure.
#[verifier::opaque]
pub open spec fn seq_size<T: Encodable>(m: Seq<T::V>) -> Result<nat, CodecError>
    decreases m.len(),
{
    if m.len() == 0 {
        Ok(0)
    } else {
        add_size_spec(seq_size::<T>(m.drop_last()), T::spec_size(m.last()))
    }
}

proof fn lemma_seq_size_faithful<T: Encodable>(m: Seq<T::V>)
    ensures
        size_matches(seq_encode::<T>(m), seq_size::<T>(m)),
        seq_size::<T>(m) is Ok ==> seq_size::<T>(m)->Ok_0 <= max_size(),
    decreases m.len(),
{
    reveal(seq_encode);
    reveal(seq_size);
    if m.len() > 0 {
        lemma_seq_size_faithful::<T>(m.drop_last());
        T::lemma_size_faithful(m.last());
        lemma_then_size(
            seq_encode::<T>(m.drop_last()),
            seq_size::<T>(m.drop_last()),
            T::spec_encode(m.last()),
            T::spec_size(m.last()),
        );
    }
}

/// A failure in the size of a prefix is the failure of the whole.
proof fn lemma_seq_size_prefix<T: Encodable>(m: Seq<T::V>, i: int)
    requires
        0 <= i <= m.len(),
    ensures
        seq_size::<T>(m.subrange(0, i)) is Err ==> seq_size::<T>(m) == seq_size::<T>(
            m.subrange(0, i),
        ),
    decreases m.len() - i,
{
    reveal(seq_size);
    if i < m.len() {
        lemma_seq_size_prefix::<T>(m, i + 1);
        assert(m.subrange(0, i + 1).drop_last() =~= m.subrange(0, i));
    } else {
        assert(m.subrange(0, i) =~= m);
    }
}

/// Appends the encodings of the elements of `v`; where one fails, nothing.
fn encode_elements<T: Encodable>(v: &Vec<T>, out: &mut Vec<u8>) -> (r: Result<(), CodecError>)
    ensures
        encoded(seq_encode::<T>(v.deep_view()), old(out)@, final(out)@, r),
{
    let ghost m = v.deep_view();
    let ghost o0 = out@;
    let start = out.len();
    proof {
        reveal(seq_encode);
        assert(out@ =~= o0 + seq_encode::<T>(m.subrange(0, 0))->Ok_0);
    }
    let mut i: usize = 0;
    while i < v.len()
        invariant
            m == v.deep_view(),
            o0 == old(out)@,
            start == o0.len(),
            i <= v@.len(),
            seq_encode::<T>(m.subrange(0, i as int)) is Ok,
            out@ == o0 + seq_encode::<T>(m.subrange(0, i as int))->Ok_0,
        decreases v.len() - i,
    {
        proof {
            reveal(seq_encode);
        }
        assert(m.subrange(0, i + 1).drop_last() =~= m.subrange(0, i as int));
        assert(m.subrange(0, i + 1).last() == v@[i as int].deep_view());
        match v[i].encode(out) {
            Ok(_) => {
                assert(out@ =~= o0 + seq_encode::<T>(m.subrange(0, i + 1))->Ok_0);
            },
            Err(e) => {
                proof {
                    lemma_seq_encode_prefix::<T>(m, i + 1);
                }
                roll_back(out, Ghost(o0), Ghost(seq_encode::<T>(m.subrange(0, i as int))->Ok_0), start);
                return Err(e);
            },
        }
        i = i + 1;
    }
    assert(m.subrange(0, i as int) =~= m);
    proof {
        reveal(seq_encode);
    }
    Ok(())
}

/// The total size of the encodings of the elements of `v`.
fn elements_size<T: Encodable>(v: &Vec<T>) -> (r: Result<VarInt, CodecError>)
    ensures
        sized(seq_size::<T>(v.deep_view()), r),
{
    let ghost m = v.deep_view();
    proof {
        reveal(seq_size);
        assert(m.subrange(0, 0) =~= Seq::<T::V>::empty());
    }
    let mut total = VarInt(0);
    let mut i: usize = 0;
    while i < v.len()
        invariant
            m == v.deep_view(),
            i <= v@.len(),
            seq_size::<T>(m.subrange(0, i as int)) == Ok::<nat, CodecError>(total.0 as nat),
            0 <= total.0,
        decreases v.len() - i,
    {
        proof {
            reveal(seq_size);
            assert(m.subrange(0, i + 1).drop_last() =~= m.subrange(0, i as int));
            assert(m.subrange(0, i + 1).last() == v@[i as int].deep_view());
            T::lemma_size_faithful(v@[i as int].deep_view());
            lemma_seq_size_prefix::<T>(m, i + 1);
        }
        let s = v[i].size();
        match add_size(
            Ok(total),
            Ghost(Ok(total.0 as nat)),
            s,
            Ghost(T::spec_size(v@[i as int].deep_view())),
        ) {
            Ok(t) => total = t,
            Err(e) => return Err(e),
        }
        i = i + 1;
    }
    assert(m.subrange(0, i as int) =~= m);
    Ok(total)
}

impl<T: Encodable> Encodable for Vec<T> {
    /// The elements one after another, with no framing.
    open spec fn spec_encode(m: Seq<T::V>) -> Result<Seq<u8>, CodecError> {
        seq_encode::<T>(m)
    }

    fn encode(&self, out: &mut Vec<u8>) -> (r: Result<(), CodecError>) {
        encode_elements(self, out)
    }

    open spec fn spec_size(m: Seq<T::V>) -> Result<nat, CodecError> {
        seq_size::<T>(m)
    }

    proof fn lemma_size_faithful(m: Seq<T::V>) {
        lemma_seq_size_faithful::<T>(m);
    }

    fn size(&self) -> (r: Result<VarInt, CodecError>) {
        elements_size(self)
    }
}

impl<T: Decodable> Decodable for Vec<T> {
    /// Elements until the end of the reader.
    open spec fn spec_decode(bytes: Seq<u8>) -> Result<(Seq<T::V>, nat), CodecError> {
        match seq_parse_all::<T>(bytes) {
            Ok(s) => Ok((s, bytes.len())),
            Err(e) => Err(e),
        }
    }

    proof fn lemma_decode_len(bytes: Seq<u8>) {
    }

    fn decode(reader: &mut ByteReader) -> (r: Result<Vec<T>, CodecError>) {
        let ghost rest0 = reader.rest();
        let mut items: Vec<T> = Vec::new();
        while reader.remaining() > 0
            invariant
                reader.wf(),
                reader.data() == old(reader).data(),
                old(reader).pos() <= reader.pos(),
                rest0 == old(reader).rest(),
                seq_parse_all::<T>(rest0) == prepend(
                    items.deep_view(),
                    seq_parse_all::<T>(reader.rest()),
                ),
            decreases reader.rest().len(),
        {
            let ghost rest = reader.rest();
            let ghost before = *reader;
            let ghost dv = items.deep_view();
            proof {
                T::lemma_decode_len(rest);
            }
            match T::decode(reader) {
                Ok(v) => {
                    let ghost n = (reader.pos() - before.pos()) as nat;
                    assert(reader.rest() =~= rest.subrange(n as int, rest.len() as int));
                    items.push(v);
                    assert(items.deep_view() =~= dv.push(v.deep_view()));
                    proof {
                        match seq_parse_all::<T>(reader.rest()) {
                            Ok(s) => {
                                assert(dv + (seq![v.deep_view()] + s) =~= dv.push(v.deep_view())
                                    + s);
                            },
                            Err(e) => {},
                        }
                    }
                },
                Err(e) => {
                    return Err(e);
                },
            }
        }
        assert(reader.rest().len() == 0);
        assert(items.deep_view() + Seq::empty() =~= items.deep_view());
        Ok(items)
    }
}

impl<T: Codec> Codec for Vec<T> {
    open spec fn valid(m: Seq<T::V>) -> bool {
        elements_valid::<T>(m)
    }

    /// The sequence runs to the end of the reader.
    open spec fn delimited() -> bool {
        false
    }

    proof fn lemma_round_trip(m: Seq<T::V>, rest: Seq<u8>) {
        lemma_seq_round_trip::<T>(m);
        assert(seq_encode::<T>(m)->Ok_0 + rest =~= seq_encode::<T>(m)->Ok_0);
    }
}

impl<T: Decodable> SizeDecodable for Vec<T> {
    /// Exactly `count` elements; a negative count fails.
    open spec fn spec_decode_sized(bytes: Seq<u8>, count: int) -> Result<(Seq<T::V>, nat), CodecError> {
        if count < 0 {
            Err(CodecError::NegativeCount)
        } else {
            seq_parse_n::<T>(bytes, count as nat)
        }
    }

    proof fn lemma_decode_sized_len(bytes: Seq<u8>, count: int) {
        if count >= 0 {
            lemma_seq_parse_n_len::<T>(bytes, count as nat);
        }
    }

    fn decode_sized(reader: &mut ByteReader, size: &VarInt) -> (r: Result<Vec<T>, CodecError>) {
        if size.0 < 0 {
            return Err(CodecError::NegativeCount);
        }
        let count = size.0 as usize;
        let ghost rest0 = reader.rest();
        let mut items: Vec<T> = Vec::new();
        let mut i: usize = 0;
        while i < count
            invariant
                reader.wf(),
                reader.data() == old(reader).data(),
                old(reader).pos() <= reader.pos(),
                rest0 == old(reader).rest(),
                i <= count,
                count == size.0,
                seq_parse_n::<T>(rest0, count as nat) == prepend_n(
                    items.deep_view(),
                    (reader.pos() - old(reader).pos()) as nat,
                    seq_parse_n::<T>(reader.rest(), (count - i) as nat),
                ),
            decreases count - i,
        {
            let ghost rest = reader.rest();
            let ghost before = *reader;
            let ghost dv = items.deep_view();
            proof {
                T::lemma_decode_len(rest);
            }
            match T::decode(reader) {
                Ok(v) => {
                    let ghost n = (reader.pos() - before.pos()) as nat;
                    assert(reader.rest() =~= rest.subrange(n as int, rest.len() as int));
                    items.push(v);
                    assert(items.deep_view() =~= dv.push(v.deep_view()));
                    proof {
                        match seq_parse_n::<T>(reader.rest(), (count - i - 1) as nat) {
                            Ok((s, k)) => {
                                assert(dv + (seq![v.deep_view()] + s) =~= dv.push(v.deep_view())
                                    + s);
                            },
                            Err(e) => {},
                        }
                    }
                },
                Err(e) => {
                    return Err(e);
                },
            }
            i = i + 1;
        }
        assert(items.deep_view() + Seq::empty() =~= items.deep_view());
        Ok(items)
    }
}

impl<T: Encodable> SizeEncodable for Vec<T> {
    open spec fn spec_elements(m: Seq<T::V>) -> Result<Seq<u8>, CodecError> {
        seq_encode::<T>(m)
    }

    fn encode_sized(&self, out: &mut Vec<u8>, size: &VarInt) -> (r: Result<(), CodecError>) {
        let start = out.len();
        let _ = size.encode(out);
        let r = encode_elements(self, out);
        proof {
            if r is Ok {
                assert(out@ =~= old(out)@ + (varint_bytes(size.0) + seq_encode::<T>(
                    self.deep_view(),
                )->Ok_0));
            }
        }
        if r.is_err() {
            roll_back(out, Ghost(old(out)@), Ghost(varint_bytes(size.0)), start);
        }
        r
    }

    open spec fn spec_elements_size(m: Seq<T::V>) -> Result<nat, CodecError> {
        seq_size::<T>(m)
    }

    proof fn lemma_elements_size(m: Seq<T::V>) {
        lemma_seq_size_faithful::<T>(m);
    }

    fn predicted_size(&self) -> (r: Result<VarInt, CodecError>) {
        elements_size(self)
    }
}

} // verus!

verus! {

impl<T: SizeEncodable> Encodable for (VarInt, T) {
    /// The count, then the elements.
    open spec fn spec_encode(m: (i32, T::V)) -> Result<Seq<u8>, CodecError> {
        count_then(m.0, T::spec_elements(m.1))
    }

    fn encode(&self, out: &mut Vec<u8>) -> (r: Result<(), CodecError>) {
        self.1.encode_sized(out, &self.0)
    }

    open spec fn spec_size(m: (i32, T::V)) -> Result<nat, CodecError> {
        add_size_spec(Ok(varint_bytes(m.0).len()), T::spec_elements_size(m.1))
    }

    proof fn lemma_size_faithful(m: (i32, T::V)) {
        crate::varnum::lemma_varint_len(m.0);
        T::lemma_elements_size(m.1);
        lemma_then_size(
            Ok(varint_bytes(m.0)),
            Ok(varint_bytes(m.0).len()),
            T::spec_elements(m.1),
            T::spec_elements_size(m.1),
        );
    }

    fn size(&self) -> (r: Result<VarInt, CodecError>) {
        proof {
            crate::varnum::lemma_varint_len(self.0.0);
            T::lemma_elements_size(self.1.deep_view());
        }
        add_size(
            self.0.size(),
            Ghost(Ok(varint_bytes(self.0.0).len())),
            self.1.predicted_size(),
            Ghost(T::spec_elements_size(self.1.deep_view())),
        )
    }
}

impl<T: SizeDecodable> Decodable for (VarInt, T) {
    /// A count, then exactly that many elements.
    open spec fn spec_decode(bytes: Seq<u8>) -> Result<((i32, T::V), nat), CodecError> {
        match varint_parse(bytes) {
            Err(e) => Err(e),
            Ok((c, n)) => match T::spec_decode_sized(
                bytes.subrange(n as int, bytes.len() as int),
                c as int,
            ) {
                Err(e) => Err(e),
                Ok((v, k)) => Ok(((c, v), n + k)),
            },
        }
    }

    proof fn lemma_decode_len(bytes: Seq<u8>) {
        <VarInt as Decodable>::lemma_decode_len(bytes);
        if let Ok((c, n)) = varint_parse(bytes) {
            T::lemma_decode_sized_len(bytes.subrange(n as int, bytes.len() as int), c as int);
        }
    }

    fn decode(reader: &mut ByteReader) -> (r: Result<(VarInt, T), CodecError>) {
        let ghost rest0 = reader.rest();
        let size = match VarInt::decode(reader) {
            Ok(s) => s,
            Err(e) => return Err(e),
        };
        let ghost n = (reader.pos() - old(reader).pos()) as nat;
        assert(reader.rest() =~= rest0.subrange(n as int, rest0.len() as int));
        match T::decode_sized(reader, &size) {
            Ok(items) => Ok((size, items)),
            Err(e) => Err(e),
        }
    }
}

impl<T: Codec> Codec for (VarInt, Vec<T>) {
    /// The count is the number of elements.
    open spec fn valid(m: (i32, Seq<T::V>)) -> bool {
        &&& m.0 == m.1.len()
        &&& elements_valid::<T>(m.1)
    }

    open spec fn delimited() -> bool {
        true
    }

    proof fn lemma_round_trip(m: (i32, Seq<T::V>), rest: Seq<u8>) {
        lemma_seq_n_round_trip::<T>(m.1, rest);
        let e = seq_encode::<T>(m.1)->Ok_0;
        lemma_varint_round_trip(m.0, e + rest);
        let bytes = varint_bytes(m.0) + e + rest;
        assert(bytes =~= varint_bytes(m.0) + (e + rest));
        assert(bytes.subrange(varint_bytes(m.0).len() as int, bytes.len() as int) =~= e + rest);
    }
}

impl<T: Encodable> Encodable for Option<T> {
    /// The payload when there is one; nothing otherwise.
    open spec fn spec_encode(m: Option<T::V>) -> Result<Seq<u8>, CodecError> {
        match m {
            Some(v) => T::spec_encode(v),
            None => Ok(Seq::empty()),
        }
    }

    fn encode(&self, out: &mut Vec<u8>) -> (r: Result<(), CodecError>) {
        match self {
            Some(x) => x.encode(out),
            None => {
                assert(out@ =~= old(out)@ + Seq::<u8>::empty());
                Ok(())
            },
        }
    }

    /// The payload's size when there is one; zero otherwise.
    open spec fn spec_size(m: Option<T::V>) -> Result<nat, CodecError> {
        match m {
            Some(v) => T::spec_size(v),
            None => Ok(0),
        }
    }

    proof fn lemma_size_faithful(m: Option<T::V>) {
        if let Some(v) = m {
            T::lemma_size_faithful(v);
        }
    }

    fn size(&self) -> (r: Result<VarInt, CodecError>) {
        match self {
            Some(x) => x.size(),
            None => Ok(VarInt(0)),
        }
    }
}

impl<T: Decodable> Decodable for Option<T> {
    /// Always a payload: whether one is there is decided by the enclosing
    /// record.
    open spec fn spec_decode(bytes: Seq<u8>) -> Result<(Option<T::V>, nat), CodecError> {
        match T::spec_decode(bytes) {
            Ok((v, n)) => Ok((Some(v), n)),
            Err(e) => Err(e),
        }
    }

    proof fn lemma_decode_len(bytes: Seq<u8>) {
        T::lemma_decode_len(bytes);
    }

    fn decode(reader: &mut ByteReader) -> (r: Result<Option<T>, CodecError>) {
        match T::decode(reader) {
            Ok(v) => Ok(Some(v)),
            Err(e) => Err(e),
        }
    }
}

impl<T: Codec> Codec for Option<T> {
    open spec fn valid(m: Option<T::V>) -> bool {
        m matches Some(v) && T::valid(v)
    }

    open spec fn delimited() -> bool {
        T::delimited()
    }

    proof fn lemma_round_trip(m: Option<T::V>, rest: Seq<u8>) {
        T::lemma_round_trip(m->Some_0, rest);
    }
}

impl<T: Encodable> Encodable for (bool, Option<T>) {
    /// The flag, then the payload when the flag is set; a set flag with no
    /// payload fails.
    open spec fn spec_encode(m: (bool, Option<T::V>)) -> Result<Seq<u8>, CodecError> {
        if m.0 {
            match m.1 {
                Some(v) => then_encode(Ok(seq![1u8]), T::spec_encode(v)),
                None => Err(CodecError::MissingPayload),
            }
        } else {
            Ok(seq![0u8])
        }
    }

    fn encode(&self, out: &mut Vec<u8>) -> (r: Result<(), CodecError>) {
        if self.0 && self.1.is_none() {
            return Err(CodecError::MissingPayload);
        }
        let start = out.len();
        let _ = self.0.encode(out);
        match &self.1 {
            Some(x) => {
                if self.0 {
                    let r = x.encode(out);
                    proof {
                        if r is Ok {
                            assert(out@ =~= old(out)@ + (seq![1u8] + T::spec_encode(
                                x.deep_view(),
                            )->Ok_0));
                        }
                    }
                    let ghost flag = seq![1u8];
                    if r.is_err() {
                        roll_back(out, Ghost(old(out)@), Ghost(flag), start);
                    }
                    r
                } else {
                    Ok(())
                }
            },
            None => Ok(()),
        }
    }

    /// The flag, plus the payload where the flag is set and there is one.
    open spec fn spec_size(m: (bool, Option<T::V>)) -> Result<nat, CodecError> {
        if m.0 {
            match m.1 {
                Some(v) => add_size_spec(Ok(1), T::spec_size(v)),
                None => Ok(1),
            }
        } else {
            Ok(1)
        }
    }

    proof fn lemma_size_faithful(m: (bool, Option<T::V>)) {
        if let Some(v) = m.1 {
            T::lemma_size_faithful(v);
            lemma_then_size(Ok(seq![1u8]), Ok(1), T::spec_encode(v), T::spec_size(v));
        }
    }

    fn size(&self) -> (r: Result<VarInt, CodecError>) {
        if self.0 {
            match &self.1 {
                Some(x) => {
                    proof {
                        T::lemma_size_faithful(x.deep_view());
                    }
                    add_size(Ok(VarInt(1)), Ghost(Ok(1)), x.size(), Ghost(T::spec_size(x.deep_view())))
                },
                None => Ok(VarInt(1)),
            }
        } else {
            Ok(VarInt(1))
        }
    }
}

impl<T: Decodable> Decodable for (bool, Option<T>) {
    /// A boolean, then a payload when it is true.
    open spec fn spec_decode(bytes: Seq<u8>) -> Result<((bool, Option<T::V>), nat), CodecError> {
        match <bool as Decodable>::spec_decode(bytes) {
            Err(e) => Err(e),
            Ok((f, n)) => if f {
                match T::spec_decode(bytes.subrange(1, bytes.len() as int)) {
                    Ok((v, k)) => Ok(((true, Some(v)), 1 + k)),
                    Err(e) => Err(e),
                }
            } else {
                Ok(((false, None), 1))
            },
        }
    }

    proof fn lemma_decode_len(bytes: Seq<u8>) {
        if bytes.len() > 0 {
            T::lemma_decode_len(bytes.subrange(1, bytes.len() as int));
        }
    }

    fn decode(reader: &mut ByteReader) -> (r: Result<(bool, Option<T>), CodecError>) {
        let ghost rest0 = reader.rest();
        let present = match bool::decode(reader) {
            Ok(b) => b,
            Err(e) => return Err(e),
        };
        if present {
            assert(reader.rest() =~= rest0.subrange(1, rest0.len() as int));
            match T::decode(reader) {
                Ok(v) => Ok((true, Some(v))),
                Err(e) => Err(e),
            }
        } else {
            Ok((false, None))
        }
    }
}

impl<T: Codec> Codec for (bool, Option<T>) {
    /// The flag is set exactly when a payload is there.
    open spec fn valid(m: (bool, Option<T::V>)) -> bool {
        &&& m.0 <==> m.1 is Some
        &&& m.1 matches Some(v) ==> T::valid(v)
    }

    open spec fn delimited() -> bool {
        T::delimited()
    }

    proof fn lemma_round_trip(m: (bool, Option<T::V>), rest: Seq<u8>) {
        if m.0 {
            let v = m.1->Some_0;
            T::lemma_round_trip(v, rest);
            let bytes = seq![1u8] + T::spec_encode(v)->Ok_0 + rest;
            assert(bytes.subrange(1, bytes.len() as int) =~= T::spec_encode(v)->Ok_0 + rest);
            assert(bytes[0] == 1u8);
        } else {
            let bytes = seq![0u8] + rest;
            assert(bytes[0] == 0u8);
        }
    }
}

impl<X: Encodable, Y: Encodable, Z: Encodable> Encodable for (X, Y, Z) {
    /// The three parts in order, with no framing.
    open spec fn spec_encode(m: (X::V, Y::V, Z::V)) -> Result<Seq<u8>, CodecError> {
        then_encode(then_encode(X::spec_encode(m.0), Y::spec_encode(m.1)), Z::spec_encode(m.2))
    }

    fn encode(&self, out: &mut Vec<u8>) -> (r: Result<(), CodecError>) {
        let ghost o0 = out@;
        let start = out.len();
        let ghost ea = X::spec_encode(self.0.deep_view())->Ok_0;
        let ghost eb = Y::spec_encode(self.1.deep_view())->Ok_0;
        match self.0.encode(out) {
            Ok(_) => {},
            Err(e) => return Err(e),
        }
        match self.1.encode(out) {
            Ok(_) => {},
            Err(e) => {
                roll_back(out, Ghost(o0), Ghost(ea), start);
                return Err(e);
            },
        }
        assert(out@ =~= o0 + (ea + eb));
        match self.2.encode(out) {
            Ok(_) => {},
            Err(e) => {
                roll_back(out, Ghost(o0), Ghost(ea + eb), start);
                return Err(e);
            },
        }
        assert(out@ =~= o0 + (ea + eb + Z::spec_encode(self.2.deep_view())->Ok_0));
        Ok(())
    }

    open spec fn spec_size(m: (X::V, Y::V, Z::V)) -> Result<nat, CodecError> {
        add_size_spec(add_size_spec(X::spec_size(m.0), Y::spec_size(m.1)), Z::spec_size(m.2))
    }

    proof fn lemma_size_faithful(m: (X::V, Y::V, Z::V)) {
        X::lemma_size_faithful(m.0);
        Y::lemma_size_faithful(m.1);
        Z::lemma_size_faithful(m.2);
        lemma_then_size(X::spec_encode(m.0), X::spec_size(m.0), Y::spec_encode(m.1), Y::spec_size(m.1));
        lemma_then_size(
            then_encode(X::spec_encode(m.0), Y::spec_encode(m.1)),
            add_size_spec(X::spec_size(m.0), Y::spec_size(m.1)),
            Z::spec_encode(m.2),
            Z::spec_size(m.2),
        );
    }

    fn size(&self) -> (r: Result<VarInt, CodecError>) {
        proof {
            X::lemma_size_faithful(self.0.deep_view());
            Y::lemma_size_faithful(self.1.deep_view());
            Z::lemma_size_faithful(self.2.deep_view());
        }
        let ab = add_size(
            self.0.size(),
            Ghost(X::spec_size(self.0.deep_view())),
            self.1.size(),
            Ghost(Y::spec_size(self.1.deep_view())),
        );
        add_size(
            ab,
            Ghost(add_size_spec(X::spec_size(self.0.deep_view()), Y::spec_size(self.1.deep_view()))),
            self.2.size(),
            Ghost(Z::spec_size(self.2.deep_view())),
        )
    }
}

impl<X: Decodable, Y: Decodable, Z: Decodable> Decodable for (X, Y, Z) {
    open spec fn spec_decode(bytes: Seq<u8>) -> Result<((X::V, Y::V, Z::V), nat), CodecError> {
        match X::spec_decode(bytes) {
            Err(e) => Err(e),
            Ok((x, n1)) => match Y::spec_decode(bytes.subrange(n1 as int, bytes.len() as int)) {
                Err(e) => Err(e),
                Ok((y, n2)) => match Z::spec_decode(
                    bytes.subrange((n1 + n2) as int, bytes.len() as int),
                ) {
                    Err(e) => Err(e),
                    Ok((z, n3)) => Ok(((x, y, z), n1 + n2 + n3)),
                },
            },
        }
    }

    proof fn lemma_decode_len(bytes: Seq<u8>) {
        X::lemma_decode_len(bytes);
        if let Ok((x, n1)) = X::spec_decode(bytes) {
            let b1 = bytes.subrange(n1 as int, bytes.len() as int);
            Y::lemma_decode_len(b1);
            if let Ok((y, n2)) = Y::spec_decode(b1) {
                Z::lemma_decode_len(bytes.subrange((n1 + n2) as int, bytes.len() as int));
            }
        }
    }

    fn decode(reader: &mut ByteReader) -> (r: Result<(X, Y, Z), CodecError>) {
        let ghost rest0 = reader.rest();
        let ghost start = reader.pos();
        proof {
            X::lemma_decode_len(rest0);
        }
        let x = match X::decode(reader) {
            Ok(v) => v,
            Err(e) => return Err(e),
        };
        let ghost n1 = (reader.pos() - start) as nat;
        assert(reader.rest() =~= rest0.subrange(n1 as int, rest0.len() as int));
        proof {
            Y::lemma_decode_len(reader.rest());
        }
        let y = match Y::decode(reader) {
            Ok(v) => v,
            Err(e) => return Err(e),
        };
        let ghost n2 = (reader.pos() - start - n1) as nat;
        assert(reader.rest() =~= rest0.subrange((n1 + n2) as int, rest0.len() as int));
        let z = match Z::decode(reader) {
            Ok(v) => v,
            Err(e) => return Err(e),
        };
        Ok((x, y, z))
    }
}

impl<X: Codec, Y: Codec, Z: Codec> Codec for (X, Y, Z) {
    open spec fn valid(m: (X::V, Y::V, Z::V)) -> bool {
        &&& X::delimited() && Y::delimited()
        &&& X::valid(m.0) && Y::valid(m.1) && Z::valid(m.2)
    }

    open spec fn delimited() -> bool {
        Z::delimited()
    }

    proof fn lemma_round_trip(m: (X::V, Y::V, Z::V), rest: Seq<u8>) {
        Z::lemma_round_trip(m.2, rest);
        let c = Z::spec_encode(m.2)->Ok_0;
        Y::lemma_round_trip(m.1, c + rest);
        let b = Y::spec_encode(m.1)->Ok_0;
        X::lemma_round_trip(m.0, b + c + rest);
        let a = X::spec_encode(m.0)->Ok_0;
        let bytes = a + b + c + rest;
        assert(bytes =~= a + (b + c + rest));
        assert(b + c + rest =~= b + (c + rest));
        assert(bytes.subrange(a.len() as int, bytes.len() as int) =~= b + (c + rest));
        assert(bytes.subrange((a.len() + b.len()) as int, bytes.len() as int) =~= c + rest);
    }
}

} // verus!
