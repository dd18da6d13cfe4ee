use vstd::prelude::*;
use vstd::utf8::{decode_utf8, encode_utf8, valid_utf8};

use crate::codec::{decoded, encoded, max_size, push_all, size_matches, size_of_len, sized, Codec, Decodable, Encodable};
use crate::error::CodecError;
use crate::reader::ByteReader;
use crate::varnum::{lemma_varint_len, lemma_varint_round_trip, varint_bytes, varint_parse, VarInt};

verus! {

broadcast use vstd::utf8::encode_utf8_valid_utf8, vstd::utf8::encode_utf8_decode_utf8;

/// The largest cap any string type may declare.
pub const MAX_STRING_LIMIT: i32 = 262144;

/// A text field with a static cap `limit()` on its length.
pub trait McString: Sized + DeepView {
    /// The characters of the string.
    spec fn chars(&self) -> Seq<char>;

    /// The cap on the string's length.
    spec fn spec_limit() -> int;

    fn new(internal: String) -> (r: Self)
        ensures
            r.chars() == internal@,
    ;

    fn string(&self) -> (r: &String)
        ensures
            r@ == self.chars(),
    ;

    fn limit() -> (r: VarInt)
        ensures
            r.0 == Self::spec_limit(),
            0 <= r.0 <= MAX_STRING_LIMIT,
    ;
}

/// The encoding of the characters `s` under the cap `limit`: the UTF-8 byte
/// length as a VarInt, then the bytes; more than `limit` bytes fail.
#[verifier::opaque]
pub open spec fn string_encode(s: Seq<char>, limit: int) -> Result<Seq<u8>, CodecError> {
    let b = encode_utf8(s);
    if b.len() > limit {
        Err(CodecError::StringLength)
    } else {
        Ok(varint_bytes(b.len() as i32) + b)
    }
}

/// Decoding a string under the cap `limit`: a length outside `0..=4 * limit`
/// fails before any byte of the text is read.
#[verifier::opaque]
pub open spec fn string_parse(bytes: Seq<u8>, limit: int) -> Result<(Seq<char>, nat), CodecError> {
    match varint_parse(bytes) {
        Err(e) => Err(e),
        Ok((len, n)) => if len < 0 || len > 4 * limit {
            Err(CodecError::StringLength)
        } else if bytes.len() < n + len {
            Err(CodecError::UnexpectedEnd)
        } else if !valid_utf8(bytes.subrange(n as int, n + len)) {
            Err(CodecError::InvalidUtf8)
        } else {
            Ok((decode_utf8(bytes.subrange(n as int, n + len)), n + len as nat))
        },
    }
}

/// Relies on String::from_utf8: it accepts exactly the UTF-8 byte sequences,
/// and the string it returns holds those bytes.
#[verifier::external_body]
fn utf8_to_string(bytes: Vec<u8>) -> (r: Option<String>)
    ensures
        r is Some <==> valid_utf8(bytes@),
        r matches Some(s) ==> encode_utf8(s@) == bytes@,
{
    String::from_utf8(bytes).ok()
}

/// Appends the encoding of `s` under the cap `limit`.
pub fn encode_string(s: &String, limit: i32, out: &mut Vec<u8>) -> (r: Result<(), CodecError>)
    requires
        0 <= limit <= MAX_STRING_LIMIT,
    ensures
        encoded(string_encode(s@, limit as int), old(out)@, final(out)@, r),
        r is Err ==> final(out)@ == old(out)@,
{
    proof {
        reveal(string_encode);
        reveal(string_parse);
    }
    let bytes = s.as_str().as_bytes();
    if bytes.len() > limit as usize {
        return Err(CodecError::StringLength);
    }
    let len = VarInt(bytes.len() as i32);
    let _ = len.encode(out);
    push_all(out, bytes);
    assert(final(out)@ =~= old(out)@ + (varint_bytes(bytes@.len() as i32) + bytes@));
    Ok(())
}

/// The size of a string: the length of its UTF-8 byte count as a VarInt plus
/// that count, whatever the cap; only a size that does not fit in a VarInt
/// fails.
pub open spec fn string_size_spec(s: Seq<char>) -> Result<nat, CodecError> {
    let n = encode_utf8(s).len();
    if n > max_size() {
        Err(CodecError::SizeOverflow)
    } else {
        size_of_len(varint_bytes(n as i32).len() + n)
    }
}

/// The size of a string agrees with its encoding under any cap.
pub proof fn lemma_string_size(s: Seq<char>, limit: int)
    requires
        0 <= limit <= MAX_STRING_LIMIT,
    ensures
        size_matches(string_encode(s, limit), string_size_spec(s)),
        string_size_spec(s) is Ok ==> string_size_spec(s)->Ok_0 <= max_size(),
{
    reveal(string_encode);
}

/// The size of the encoding of `s`.
pub fn string_size(s: &String) -> (r: Result<VarInt, CodecError>)
    ensures
        sized(string_size_spec(s@), r),
{
    let bytes = s.as_str().as_bytes();
    if bytes.len() > 0x7fff_ffff {
        return Err(CodecError::SizeOverflow);
    }
    let len = VarInt(bytes.len() as i32);
    proof {
        lemma_varint_len(len.0);
    }
    let n = match len.size() {
        Ok(n) => n,
        Err(e) => return Err(e),
    };
    if len.0 > 0x7fff_ffff - n.0 {
        Err(CodecError::SizeOverflow)
    } else {
        Ok(VarInt(n.0 + len.0))
    }
}

/// Decodes a string under the cap `limit`.
pub fn decode_string(reader: &mut ByteReader, limit: i32) -> (r: Result<String, CodecError>)
    requires
        old(reader).wf(),
        0 <= limit <= MAX_STRING_LIMIT,
    ensures
        decoded(string_parse(old(reader).rest(), limit as int), *old(reader), *final(reader), r),
        varint_parse(old(reader).rest()) is Ok ==> ({
            let (len, n) = varint_parse(old(reader).rest())->Ok_0;
            (len < 0 || len > 4 * limit) ==> final(reader).pos() == old(reader).pos() + n
        }),
{
    proof {
        reveal(string_encode);
        reveal(string_parse);
    }
    let ghost rest0 = reader.rest();
    let len = match VarInt::decode(reader) {
        Ok(v) => v,
        Err(e) => return Err(e),
    };
    let ghost n = (reader.pos() - old(reader).pos()) as nat;
    assert(reader.rest() =~= rest0.subrange(n as int, rest0.len() as int));
    if len.0 < 0 || len.0 > 4 * limit {
        return Err(CodecError::StringLength);
    }
    let bytes = match reader.read_bytes(len.0 as usize) {
        Ok(b) => b,
        Err(e) => return Err(e),
    };
    assert(bytes@ =~= rest0.subrange(n as int, n + len.0));
    match utf8_to_string(bytes) {
        Some(s) => Ok(s),
        None => Err(CodecError::InvalidUtf8),
    }
}

/// Decoding the encoding of characters that fit the cap gives them back.
pub proof fn lemma_string_round_trip(s: Seq<char>, limit: int, rest: Seq<u8>)
    requires
        0 <= limit <= MAX_STRING_LIMIT,
        encode_utf8(s).len() <= limit,
    ensures
        string_encode(s, limit) is Ok,
        string_parse(string_encode(s, limit)->Ok_0 + rest, limit) == Ok::<(Seq<char>, nat), CodecError>(
            (s, string_encode(s, limit)->Ok_0.len()),
        ),
{
    reveal(string_encode);
    reveal(string_parse);
    let b = encode_utf8(s);
    let whole = varint_bytes(b.len() as i32) + b + rest;
    assert(whole =~= varint_bytes(b.len() as i32) + (b + rest));
    lemma_varint_round_trip(b.len() as i32, b + rest);
    let n = varint_bytes(b.len() as i32).len();
    assert(whole.subrange(n as int, (n + b.len()) as int) =~= b);
}


/// Chat text in its JSON form.
pub struct ChatJson(pub String);

impl DeepView for ChatJson {
    type V = Seq<char>;

    open spec fn deep_view(&self) -> Seq<char> {
        self.0@
    }
}

impl McString for ChatJson {
    open spec fn chars(&self) -> Seq<char> {
        self.0@
    }

    open spec fn spec_limit() -> int {
        262144
    }

    fn new(internal: String) -> (r: Self) {
        ChatJson(internal)
    }

    fn string(&self) -> (r: &String) {
        &self.0
    }

    fn limit() -> (r: VarInt) {
        VarInt(262144)
    }
}

impl Encodable for ChatJson {
    open spec fn spec_encode(m: Seq<char>) -> Result<Seq<u8>, CodecError> {
        string_encode(m, 262144)
    }

    open spec fn spec_size(m: Seq<char>) -> Result<nat, CodecError> {
        string_size_spec(m)
    }

    proof fn lemma_size_faithful(m: Seq<char>) {
        lemma_string_size(m, 262144);
    }

    fn encode(&self, out: &mut Vec<u8>) -> (r: Result<(), CodecError>) {
        encode_string(&self.0, 262144, out)
    }

    fn size(&self) -> (r: Result<VarInt, CodecError>) {
        string_size(&self.0)
    }
}

impl Decodable for ChatJson {
    open spec fn spec_decode(bytes: Seq<u8>) -> Result<(Seq<char>, nat), CodecError> {
        string_parse(bytes, 262144)
    }

    proof fn lemma_decode_len(bytes: Seq<u8>) {
        reveal(string_parse);
        <VarInt as Decodable>::lemma_decode_len(bytes);
    }

    fn decode(reader: &mut ByteReader) -> (r: Result<ChatJson, CodecError>) {
        match decode_string(reader, 262144) {
            Ok(s) => Ok(ChatJson(s)),
            Err(e) => Err(e),
        }
    }
}

impl Codec for ChatJson {
    open spec fn valid(m: Seq<char>) -> bool {
        encode_utf8(m).len() <= 262144
    }

    open spec fn delimited() -> bool {
        true
    }

    proof fn lemma_round_trip(m: Seq<char>, rest: Seq<u8>) {
        lemma_string_round_trip(m, 262144, rest);
    }
}

/// A namespaced identifier.
pub struct Identifier(pub String);

impl DeepView for Identifier {
    type V = Seq<char>;

    open spec fn deep_view(&self) -> Seq<char> {
        self.0@
    }
}

impl McString for Identifier {
    open spec fn chars(&self) -> Seq<char> {
        self.0@
    }

    open spec fn spec_limit() -> int {
        32767
    }

    fn new(internal: String) -> (r: Self) {
        Identifier(internal)
    }

    fn string(&self) -> (r: &String) {
        &self.0
    }

    fn limit() -> (r: VarInt) {
        VarInt(32767)
    }
}

impl Encodable for Identifier {
    open spec fn spec_encode(m: Seq<char>) -> Result<Seq<u8>, CodecError> {
        string_encode(m, 32767)
    }

    open spec fn spec_size(m: Seq<char>) -> Result<nat, CodecError> {
        string_size_spec(m)
    }

    proof fn lemma_size_faithful(m: Seq<char>) {
        lemma_string_size(m, 32767);
    }

    fn encode(&self, out: &mut Vec<u8>) -> (r: Result<(), CodecError>) {
        encode_string(&self.0, 32767, out)
    }

    fn size(&self) -> (r: Result<VarInt, CodecError>) {
        string_size(&self.0)
    }
}

impl Decodable for Identifier {
    open spec fn spec_decode(bytes: Seq<u8>) -> Result<(Seq<char>, nat), CodecError> {
        string_parse(bytes, 32767)
    }

    proof fn lemma_decode_len(bytes: Seq<u8>) {
        reveal(string_parse);
        <VarInt as Decodable>::lemma_decode_len(bytes);
    }

    fn decode(reader: &mut ByteReader) -> (r: Result<Identifier, CodecError>) {
        match decode_string(reader, 32767) {
            Ok(s) => Ok(Identifier(s)),
            Err(e) => Err(e),
        }
    }
}

impl Codec for Identifier {
    open spec fn valid(m: Seq<char>) -> bool {
        encode_utf8(m).len() <= 32767
    }

    open spec fn delimited() -> bool {
        true
    }

    proof fn lemma_round_trip(m: Seq<char>, rest: Seq<u8>) {
        lemma_string_round_trip(m, 32767, rest);
    }
}

/// General text.
pub struct BigString(pub String);

impl DeepView for BigString {
    type V = Seq<char>;

    open spec fn deep_view(&self) -> Seq<char> {
        self.0@
    }
}

impl McString for BigString {
    open spec fn chars(&self) -> Seq<char> {
        self.0@
    }

    open spec fn spec_limit() -> int {
        32767
    }

    fn new(internal: String) -> (r: Self) {
        BigString(internal)
    }

    fn string(&self) -> (r: &String) {
        &self.0
    }

    fn limit() -> (r: VarInt) {
        VarInt(32767)
    }
}

impl Encodable for BigString {
    open spec fn spec_encode(m: Seq<char>) -> Result<Seq<u8>, CodecError> {
        string_encode(m, 32767)
    }

    open spec fn spec_size(m: Seq<char>) -> Result<nat, CodecError> {
        string_size_spec(m)
    }

    proof fn lemma_size_faithful(m: Seq<char>) {
        lemma_string_size(m, 32767);
    }

    fn encode(&self, out: &mut Vec<u8>) -> (r: Result<(), CodecError>) {
        encode_string(&self.0, 32767, out)
    }

    fn size(&self) -> (r: Result<VarInt, CodecError>) {
        string_size(&self.0)
    }
}

impl Decodable for BigString {
    open spec fn spec_decode(bytes: Seq<u8>) -> Result<(Seq<char>, nat), CodecError> {
        string_parse(bytes, 32767)
    }

    proof fn lemma_decode_len(bytes: Seq<u8>) {
        reveal(string_parse);
        <VarInt as Decodable>::lemma_decode_len(bytes);
    }

    fn decode(reader: &mut ByteReader) -> (r: Result<BigString, CodecError>) {
        match decode_string(reader, 32767) {
            Ok(s) => Ok(BigString(s)),
            Err(e) => Err(e),
        }
    }
}

impl Codec for BigString {
    open spec fn valid(m: Seq<char>) -> bool {
        encode_utf8(m).len() <= 32767
    }

    open spec fn delimited() -> bool {
        true
    }

    proof fn lemma_round_trip(m: Seq<char>, rest: Seq<u8>) {
        lemma_string_round_trip(m, 32767, rest);
    }
}

/// The server address a client connects to.
pub struct HandshakeServerAddress(pub String);

impl DeepView for HandshakeServerAddress {
    type V = Seq<char>;

    open spec fn deep_view(&self) -> Seq<char> {
        self.0@
    }
}

impl McString for HandshakeServerAddress {
    open spec fn chars(&self) -> Seq<char> {
        self.0@
    }

    open spec fn spec_limit() -> int {
        255
    }

    fn new(internal: String) -> (r: Self) {
        HandshakeServerAddress(internal)
    }

    fn string(&self) -> (r: &String) {
        &self.0
    }

    fn limit() -> (r: VarInt) {
        VarInt(255)
    }
}

impl Encodable for HandshakeServerAddress {
    open spec fn spec_encode(m: Seq<char>) -> Result<Seq<u8>, CodecError> {
        string_encode(m, 255)
    }

    open spec fn spec_size(m: Seq<char>) -> Result<nat, CodecError> {
        string_size_spec(m)
    }

    proof fn lemma_size_faithful(m: Seq<char>) {
        lemma_string_size(m, 255);
    }

    fn encode(&self, out: &mut Vec<u8>) -> (r: Result<(), CodecError>) {
        encode_string(&self.0, 255, out)
    }

    fn size(&self) -> (r: Result<VarInt, CodecError>) {
        string_size(&self.0)
    }
}

impl Decodable for HandshakeServerAddress {
    open spec fn spec_decode(bytes: Seq<u8>) -> Result<(Seq<char>, nat), CodecError> {
        string_parse(bytes, 255)
    }

    proof fn lemma_decode_len(bytes: Seq<u8>) {
        reveal(string_parse);
        <VarInt as Decodable>::lemma_decode_len(bytes);
    }

    fn decode(reader: &mut ByteReader) -> (r: Result<HandshakeServerAddress, CodecError>) {
        match decode_string(reader, 255) {
            Ok(s) => Ok(HandshakeServerAddress(s)),
            Err(e) => Err(e),
        }
    }
}

impl Codec for HandshakeServerAddress {
    open spec fn valid(m: Seq<char>) -> bool {
        encode_utf8(m).len() <= 255
    }

    open spec fn delimited() -> bool {
        true
    }

    proof fn lemma_round_trip(m: Seq<char>, rest: Seq<u8>) {
        lemma_string_round_trip(m, 255, rest);
    }
}

/// The server id token of an encryption request.
pub struct EncryptionRequestServerId(pub String);

impl DeepView for EncryptionRequestServerId {
    type V = Seq<char>;

    open spec fn deep_view(&self) -> Seq<char> {
        self.0@
    }
}

impl McString for EncryptionRequestServerId {
    open spec fn chars(&self) -> Seq<char> {
        self.0@
    }

    open spec fn spec_limit() -> int {
        20
    }

    fn new(internal: String) -> (r: Self) {
        EncryptionRequestServerId(internal)
    }

    fn string(&self) -> (r: &String) {
        &self.0
    }

    fn limit() -> (r: VarInt) {
        VarInt(20)
    }
}

impl Encodable for EncryptionRequestServerId {
    open spec fn spec_encode(m: Seq<char>) -> Result<Seq<u8>, CodecError> {
        string_encode(m, 20)
    }

    open spec fn spec_size(m: Seq<char>) -> Result<nat, CodecError> {
        string_size_spec(m)
    }

    proof fn lemma_size_faithful(m: Seq<char>) {
        lemma_string_size(m, 20);
    }

    fn encode(&self, out: &mut Vec<u8>) -> (r: Result<(), CodecError>) {
        encode_string(&self.0, 20, out)
    }

    fn size(&self) -> (r: Result<VarInt, CodecError>) {
        string_size(&self.0)
    }
}

impl Decodable for EncryptionRequestServerId {
    open spec fn spec_decode(bytes: Seq<u8>) -> Result<(Seq<char>, nat), CodecError> {
        string_parse(bytes, 20)
    }

    proof fn lemma_decode_len(bytes: Seq<u8>) {
        reveal(string_parse);
        <VarInt as Decodable>::lemma_decode_len(bytes);
    }

    fn decode(reader: &mut ByteReader) -> (r: Result<EncryptionRequestServerId, CodecError>) {
        match decode_string(reader, 20) {
            Ok(s) => Ok(EncryptionRequestServerId(s)),
            Err(e) => Err(e),
        }
    }
}

impl Codec for EncryptionRequestServerId {
    open spec fn valid(m: Seq<char>) -> bool {
        encode_utf8(m).len() <= 20
    }

    open spec fn delimited() -> bool {
        true
    }

    proof fn lemma_round_trip(m: Seq<char>, rest: Seq<u8>) {
        lemma_string_round_trip(m, 20, rest);
    }
}

/// The player name a login success carries.
pub struct LoginSuccessName(pub String);

impl DeepView for LoginSuccessName {
    type V = Seq<char>;

    open spec fn deep_view(&self) -> Seq<char> {
        self.0@
    }
}

impl McString for LoginSuccessName {
    open spec fn chars(&self) -> Seq<char> {
        self.0@
    }

    open spec fn spec_limit() -> int {
        16
    }

    fn new(internal: String) -> (r: Self) {
        LoginSuccessName(internal)
    }

    fn string(&self) -> (r: &String) {
        &self.0
    }

    fn limit() -> (r: VarInt) {
        VarInt(16)
    }
}

impl Encodable for LoginSuccessName {
    open spec fn spec_encode(m: Seq<char>) -> Result<Seq<u8>, CodecError> {
        string_encode(m, 16)
    }

    open spec fn spec_size(m: Seq<char>) -> Result<nat, CodecError> {
        string_size_spec(m)
    }

    proof fn lemma_size_faithful(m: Seq<char>) {
        lemma_string_size(m, 16);
    }

    fn encode(&self, out: &mut Vec<u8>) -> (r: Result<(), CodecError>) {
        encode_string(&self.0, 16, out)
    }

    fn size(&self) -> (r: Result<VarInt, CodecError>) {
        string_size(&self.0)
    }
}

impl Decodable for LoginSuccessName {
    open spec fn spec_decode(bytes: Seq<u8>) -> Result<(Seq<char>, nat), CodecError> {
        string_parse(bytes, 16)
    }

    proof fn lemma_decode_len(bytes: Seq<u8>) {
        reveal(string_parse);
        <VarInt as Decodable>::lemma_decode_len(bytes);
    }

    fn decode(reader: &mut ByteReader) -> (r: Result<LoginSuccessName, CodecError>) {
        match decode_string(reader, 16) {
            Ok(s) => Ok(LoginSuccessName(s)),
            Err(e) => Err(e),
        }
    }
}

impl Codec for LoginSuccessName {
    open spec fn valid(m: Seq<char>) -> bool {
        encode_utf8(m).len() <= 16
    }

    open spec fn delimited() -> bool {
        true
    }

    proof fn lemma_round_trip(m: Seq<char>, rest: Seq<u8>) {
        lemma_string_round_trip(m, 16, rest);
    }
}

/// The player name a login start carries.
pub struct LoginNameString(pub String);

impl DeepView for LoginNameString {
    type V = Seq<char>;

    open spec fn deep_view(&self) -> Seq<char> {
        self.0@
    }
}

impl McString for LoginNameString {
    open spec fn chars(&self) -> Seq<char> {
        self.0@
    }

    open spec fn spec_limit() -> int {
        16
    }

    fn new(internal: String) -> (r: Self) {
        LoginNameString(internal)
    }

    fn string(&self) -> (r: &String) {
        &self.0
    }

    fn limit() -> (r: VarInt) {
        VarInt(16)
    }
}

impl Encodable for LoginNameString {
    open spec fn spec_encode(m: Seq<char>) -> Result<Seq<u8>, CodecError> {
        string_encode(m, 16)
    }

    open spec fn spec_size(m: Seq<char>) -> Result<nat, CodecError> {
        string_size_spec(m)
    }

    proof fn lemma_size_faithful(m: Seq<char>) {
        lemma_string_size(m, 16);
    }

    fn encode(&self, out: &mut Vec<u8>) -> (r: Result<(), CodecError>) {
        encode_string(&self.0, 16, out)
    }

    fn size(&self) -> (r: Result<VarInt, CodecError>) {
        string_size(&self.0)
    }
}

impl Decodable for LoginNameString {
    open spec fn spec_decode(bytes: Seq<u8>) -> Result<(Seq<char>, nat), CodecError> {
        string_parse(bytes, 16)
    }

    proof fn lemma_decode_len(bytes: Seq<u8>) {
        reveal(string_parse);
        <VarInt as Decodable>::lemma_decode_len(bytes);
    }

    fn decode(reader: &mut ByteReader) -> (r: Result<LoginNameString, CodecError>) {
        match decode_string(reader, 16) {
            Ok(s) => Ok(LoginNameString(s)),
            Err(e) => Err(e),
        }
    }
}

impl Codec for LoginNameString {
    open spec fn valid(m: Seq<char>) -> bool {
        encode_utf8(m).len() <= 16
    }

    open spec fn delimited() -> bool {
        true
    }

    proof fn lemma_round_trip(m: Seq<char>, rest: Seq<u8>) {
        lemma_string_round_trip(m, 16, rest);
    }
}

/// The name of a scoreboard objective.
pub struct ObjectiveName(pub String);

impl DeepView for ObjectiveName {
    type V = Seq<char>;

    open spec fn deep_view(&self) -> Seq<char> {
        self.0@
    }
}

impl McString for ObjectiveName {
    open spec fn chars(&self) -> Seq<char> {
        self.0@
    }

    open spec fn spec_limit() -> int {
        16
    }

    fn new(internal: String) -> (r: Self) {
        ObjectiveName(internal)
    }

    fn string(&self) -> (r: &String) {
        &self.0
    }

    fn limit() -> (r: VarInt) {
        VarInt(16)
    }
}

impl Encodable for ObjectiveName {
    open spec fn spec_encode(m: Seq<char>) -> Result<Seq<u8>, CodecError> {
        string_encode(m, 16)
    }

    open spec fn spec_size(m: Seq<char>) -> Result<nat, CodecError> {
        string_size_spec(m)
    }

    proof fn lemma_size_faithful(m: Seq<char>) {
        lemma_string_size(m, 16);
    }

    fn encode(&self, out: &mut Vec<u8>) -> (r: Result<(), CodecError>) {
        encode_string(&self.0, 16, out)
    }

    fn size(&self) -> (r: Result<VarInt, CodecError>) {
        string_size(&self.0)
    }
}

impl Decodable for ObjectiveName {
    open spec fn spec_decode(bytes: Seq<u8>) -> Result<(Seq<char>, nat), CodecError> {
        string_parse(bytes, 16)
    }

    proof fn lemma_decode_len(bytes: Seq<u8>) {
        reveal(string_parse);
        <VarInt as Decodable>::lemma_decode_len(bytes);
    }

    fn decode(reader: &mut ByteReader) -> (r: Result<ObjectiveName, CodecError>) {
        match decode_string(reader, 16) {
            Ok(s) => Ok(ObjectiveName(s)),
            Err(e) => Err(e),
        }
    }
}

impl Codec for ObjectiveName {
    open spec fn valid(m: Seq<char>) -> bool {
        encode_utf8(m).len() <= 16
    }

    open spec fn delimited() -> bool {
        true
    }

    proof fn lemma_round_trip(m: Seq<char>, rest: Seq<u8>) {
        lemma_string_round_trip(m, 16, rest);
    }
}

/// The name of a score holder.
pub struct ScoreName(pub String);

impl DeepView for ScoreName {
    type V = Seq<char>;

    open spec fn deep_view(&self) -> Seq<char> {
        self.0@
    }
}

impl McString for ScoreName {
    open spec fn chars(&self) -> Seq<char> {
        self.0@
    }

    open spec fn spec_limit() -> int {
        40
    }

    fn new(internal: String) -> (r: Self) {
        ScoreName(internal)
    }

    fn string(&self) -> (r: &String) {
        &self.0
    }

    fn limit() -> (r: VarInt) {
        VarInt(40)
    }
}

impl Encodable for ScoreName {
    open spec fn spec_encode(m: Seq<char>) -> Result<Seq<u8>, CodecError> {
        string_encode(m, 40)
    }

    open spec fn spec_size(m: Seq<char>) -> Result<nat, CodecError> {
        string_size_spec(m)
    }

    proof fn lemma_size_faithful(m: Seq<char>) {
        lemma_string_size(m, 40);
    }

    fn encode(&self, out: &mut Vec<u8>) -> (r: Result<(), CodecError>) {
        encode_string(&self.0, 40, out)
    }

    fn size(&self) -> (r: Result<VarInt, CodecError>) {
        string_size(&self.0)
    }
}

impl Decodable for ScoreName {
    open spec fn spec_decode(bytes: Seq<u8>) -> Result<(Seq<char>, nat), CodecError> {
        string_parse(bytes, 40)
    }

    proof fn lemma_decode_len(bytes: Seq<u8>) {
        reveal(string_parse);
        <VarInt as Decodable>::lemma_decode_len(bytes);
    }

    fn decode(reader: &mut ByteReader) -> (r: Result<ScoreName, CodecError>) {
        match decode_string(reader, 40) {
            Ok(s) => Ok(ScoreName(s)),
            Err(e) => Err(e),
        }
    }
}

impl Codec for ScoreName {
    open spec fn valid(m: Seq<char>) -> bool {
        encode_utf8(m).len() <= 40
    }

    open spec fn delimited() -> bool {
        true
    }

    proof fn lemma_round_trip(m: Seq<char>, rest: Seq<u8>) {
        lemma_string_round_trip(m, 40, rest);
    }
}

/// The hex digest of a resource pack.
pub struct ResourcePackHash(pub String);

impl DeepView for ResourcePackHash {
    type V = Seq<char>;

    open spec fn deep_view(&self) -> Seq<char> {
        self.0@
    }
}

impl McString for ResourcePackHash {
    open spec fn chars(&self) -> Seq<char> {
        self.0@
    }

    open spec fn spec_limit() -> int {
        40
    }

    fn new(internal: String) -> (r: Self) {
        ResourcePackHash(internal)
    }

    fn string(&self) -> (r: &String) {
        &self.0
    }

    fn limit() -> (r: VarInt) {
        VarInt(40)
    }
}

impl Encodable for ResourcePackHash {
    open spec fn spec_encode(m: Seq<char>) -> Result<Seq<u8>, CodecError> {
        string_encode(m, 40)
    }

    open spec fn spec_size(m: Seq<char>) -> Result<nat, CodecError> {
        string_size_spec(m)
    }

    proof fn lemma_size_faithful(m: Seq<char>) {
        lemma_string_size(m, 40);
    }

    fn encode(&self, out: &mut Vec<u8>) -> (r: Result<(), CodecError>) {
        encode_string(&self.0, 40, out)
    }

    fn size(&self) -> (r: Result<VarInt, CodecError>) {
        string_size(&self.0)
    }
}

impl Decodable for ResourcePackHash {
    open spec fn spec_decode(bytes: Seq<u8>) -> Result<(Seq<char>, nat), CodecError> {
        string_parse(bytes, 40)
    }

    proof fn lemma_decode_len(bytes: Seq<u8>) {
        reveal(string_parse);
        <VarInt as Decodable>::lemma_decode_len(bytes);
    }

    fn decode(reader: &mut ByteReader) -> (r: Result<ResourcePackHash, CodecError>) {
        match decode_string(reader, 40) {
            Ok(s) => Ok(ResourcePackHash(s)),
            Err(e) => Err(e),
        }
    }
}

impl Codec for ResourcePackHash {
    open spec fn valid(m: Seq<char>) -> bool {
        encode_utf8(m).len() <= 40
    }

    open spec fn delimited() -> bool {
        true
    }

    proof fn lemma_round_trip(m: Seq<char>, rest: Seq<u8>) {
        lemma_string_round_trip(m, 40, rest);
    }
}

} // verus!

verus! {

impl From<String> for ChatJson {
    fn from(internal: String) -> (r: ChatJson) {
        ChatJson(internal)
    }
}

impl vstd::std_specs::convert::FromSpecImpl<String> for ChatJson {
    open spec fn obeys_from_spec() -> bool {
        true
    }

    open spec fn from_spec(internal: String) -> ChatJson {
        ChatJson(internal)
    }
}

impl From<ChatJson> for String {
    fn from(value: ChatJson) -> (r: String) {
        value.0
    }
}

impl vstd::std_specs::convert::FromSpecImpl<ChatJson> for String {
    open spec fn obeys_from_spec() -> bool {
        true
    }

    open spec fn from_spec(value: ChatJson) -> String {
        value.0
    }
}

impl From<String> for Identifier {
    fn from(internal: String) -> (r: Identifier) {
        Identifier(internal)
    }
}

impl vstd::std_specs::convert::FromSpecImpl<String> for Identifier {
    open spec fn obeys_from_spec() -> bool {
        true
    }

    open spec fn from_spec(internal: String) -> Identifier {
        Identifier(internal)
    }
}

impl From<Identifier> for String {
    fn from(value: Identifier) -> (r: String) {
        value.0
    }
}

impl vstd::std_specs::convert::FromSpecImpl<Identifier> for String {
    open spec fn obeys_from_spec() -> bool {
        true
    }

    open spec fn from_spec(value: Identifier) -> String {
        value.0
    }
}

impl From<String> for BigString {
    fn from(internal: String) -> (r: BigString) {
        BigString(internal)
    }
}

impl vstd::std_specs::convert::FromSpecImpl<String> for BigString {
    open spec fn obeys_from_spec() -> bool {
        true
    }

    open spec fn from_spec(internal: String) -> BigString {
        BigString(internal)
    }
}

impl From<BigString> for String {
    fn from(value: BigString) -> (r: String) {
        value.0
    }
}

impl vstd::std_specs::convert::FromSpecImpl<BigString> for String {
    open spec fn obeys_from_spec() -> bool {
        true
    }

    open spec fn from_spec(value: BigString) -> String {
        value.0
    }
}

impl From<String> for HandshakeServerAddress {
    fn from(internal: String) -> (r: HandshakeServerAddress) {
        HandshakeServerAddress(internal)
    }
}

impl vstd::std_specs::convert::FromSpecImpl<String> for HandshakeServerAddress {
    open spec fn obeys_from_spec() -> bool {
        true
    }

    open spec fn from_spec(internal: String) -> HandshakeServerAddress {
        HandshakeServerAddress(internal)
    }
}

impl From<HandshakeServerAddress> for String {
    fn from(value: HandshakeServerAddress) -> (r: String) {
        value.0
    }
}

impl vstd::std_specs::convert::FromSpecImpl<HandshakeServerAddress> for String {
    open spec fn obeys_from_spec() -> bool {
        true
    }

    open spec fn from_spec(value: HandshakeServerAddress) -> String {
        value.0
    }
}

impl From<String> for EncryptionRequestServerId {
    fn from(internal: String) -> (r: EncryptionRequestServerId) {
        EncryptionRequestServerId(internal)
    }
}

impl vstd::std_specs::convert::FromSpecImpl<String> for EncryptionRequestServerId {
    open spec fn obeys_from_spec() -> bool {
        true
    }

    open spec fn from_spec(internal: String) -> EncryptionRequestServerId {
        EncryptionRequestServerId(internal)
    }
}

impl From<EncryptionRequestServerId> for String {
    fn from(value: EncryptionRequestServerId) -> (r: String) {
        value.0
    }
}

impl vstd::std_specs::convert::FromSpecImpl<EncryptionRequestServerId> for String {
    open spec fn obeys_from_spec() -> bool {
        true
    }

    open spec fn from_spec(value: EncryptionRequestServerId) -> String {
        value.0
    }
}

impl From<String> for LoginSuccessName {
    fn from(internal: String) -> (r: LoginSuccessName) {
        LoginSuccessName(internal)
    }
}

impl vstd::std_specs::convert::FromSpecImpl<String> for LoginSuccessName {
    open spec fn obeys_from_spec() -> bool {
        true
    }

    open spec fn from_spec(internal: String) -> LoginSuccessName {
        LoginSuccessName(internal)
    }
}

impl From<LoginSuccessName> for String {
    fn from(value: LoginSuccessName) -> (r: String) {
        value.0
    }
}

impl vstd::std_specs::convert::FromSpecImpl<LoginSuccessName> for String {
    open spec fn obeys_from_spec() -> bool {
        true
    }

    open spec fn from_spec(value: LoginSuccessName) -> String {
        value.0
    }
}

impl From<String> for LoginNameString {
    fn from(internal: String) -> (r: LoginNameString) {
        LoginNameString(internal)
    }
}

impl vstd::std_specs::convert::FromSpecImpl<String> for LoginNameString {
    open spec fn obeys_from_spec() -> bool {
        true
    }

    open spec fn from_spec(internal: String) -> LoginNameString {
        LoginNameString(internal)
    }
}

impl From<LoginNameString> for String {
    fn from(value: LoginNameString) -> (r: String) {
        value.0
    }
}

impl vstd::std_specs::convert::FromSpecImpl<LoginNameString> for String {
    open spec fn obeys_from_spec() -> bool {
        true
    }

    open spec fn from_spec(value: LoginNameString) -> String {
        value.0
    }
}

impl From<String> for ObjectiveName {
    fn from(internal: String) -> (r: ObjectiveName) {
        ObjectiveName(internal)
    }
}

impl vstd::std_specs::convert::FromSpecImpl<String> for ObjectiveName {
    open spec fn obeys_from_spec() -> bool {
        true
    }

    open spec fn from_spec(internal: String) -> ObjectiveName {
        ObjectiveName(internal)
    }
}

impl From<ObjectiveName> for String {
    fn from(value: ObjectiveName) -> (r: String) {
        value.0
    }
}

impl vstd::std_specs::convert::FromSpecImpl<ObjectiveName> for String {
    open spec fn obeys_from_spec() -> bool {
        true
    }

    open spec fn from_spec(value: ObjectiveName) -> String {
        value.0
    }
}

impl From<String> for ScoreName {
    fn from(internal: String) -> (r: ScoreName) {
        ScoreName(internal)
    }
}

impl vstd::std_specs::convert::FromSpecImpl<String> for ScoreName {
    open spec fn obeys_from_spec() -> bool {
        true
    }

    open spec fn from_spec(internal: String) -> ScoreName {
        ScoreName(internal)
    }
}

impl From<ScoreName> for String {
    fn from(value: ScoreName) -> (r: String) {
        value.0
    }
}

impl vstd::std_specs::convert::FromSpecImpl<ScoreName> for String {
    open spec fn obeys_from_spec() -> bool {
        true
    }

    open spec fn from_spec(value: ScoreName) -> String {
        value.0
    }
}

impl From<String> for ResourcePackHash {
    fn from(internal: String) -> (r: ResourcePackHash) {
        ResourcePackHash(internal)
    }
}

impl vstd::std_specs::convert::FromSpecImpl<String> for ResourcePackHash {
    open spec fn obeys_from_spec() -> bool {
        true
    }

    open spec fn from_spec(internal: String) -> ResourcePackHash {
        ResourcePackHash(internal)
    }
}

impl From<ResourcePackHash> for String {
    fn from(value: ResourcePackHash) -> (r: String) {
        value.0
    }
}

impl vstd::std_specs::convert::FromSpecImpl<ResourcePackHash> for String {
    open spec fn obeys_from_spec() -> bool {
        true
    }

    open spec fn from_spec(value: ResourcePackHash) -> String {
        value.0
    }
}

} // verus!
