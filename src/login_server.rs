use vstd::prelude::*;

use crate::codec::{
    add_size, add_size_spec, lemma_then_size, decode_at, lemma_concat_assoc, lemma_decode_at,
    lemma_subrange_all, lemma_field_round_trip, roll_back, then_encode, Codec, Decodable,
    Encodable,
};
use crate::error::CodecError;
use crate::reader::ByteReader;
use crate::varnum::VarInt;
use crate::strings::LoginNameString;

verus! {

/// Starts a login with the player's name.
pub struct LoginStart {
    pub name: LoginNameString,
}

/// The model of a `LoginStart`: each field by its model.
pub struct LoginStartView {
    pub name: Seq<char>,
}

impl DeepView for LoginStart {
    type V = LoginStartView;

    open spec fn deep_view(&self) -> LoginStartView {
        LoginStartView {
            name: self.name.deep_view(),
        }
    }
}

impl Encodable for LoginStart {
    /// The fields in order, with no framing.
    open spec fn spec_encode(m: LoginStartView) -> Result<Seq<u8>, CodecError> {
        <LoginNameString as Encodable>::spec_encode(m.name)
    }

    /// The sum of the fields' sizes.
    open spec fn spec_size(m: LoginStartView) -> Result<nat, CodecError> {
        <LoginNameString as Encodable>::spec_size(m.name)
    }

    proof fn lemma_size_faithful(m: LoginStartView) {
        <LoginNameString as Encodable>::lemma_size_faithful(m.name);
    }

    fn encode(&self, out: &mut Vec<u8>) -> (r: Result<(), CodecError>) {
        self.name.encode(out)
    }

    fn size(&self) -> (r: Result<VarInt, CodecError>) {
        self.name.size()
    }
}

impl Decodable for LoginStart {
    open spec fn spec_decode(bytes: Seq<u8>) -> Result<(LoginStartView, nat), CodecError> {
        match decode_at::<LoginNameString>(bytes, 0) {
            Err(e) => Err(e),
            Ok((name, n0)) => Ok((LoginStartView { name }, n0)),
        }
    }

    proof fn lemma_decode_len(bytes: Seq<u8>) {
        lemma_decode_at::<LoginNameString>(bytes, 0);
        <LoginNameString as Decodable>::lemma_decode_len(bytes.subrange((0) as int, bytes.len() as int));
    }

    fn decode(reader: &mut ByteReader) -> (r: Result<LoginStart, CodecError>) {
        let ghost r0 = *reader;
        let ghost rest0 = reader.rest();
        proof {
            ByteReader::lemma_rest_since(r0, *reader);
            lemma_decode_at::<LoginNameString>(rest0, (reader.pos() - r0.pos()) as nat);
        }
        let name = match <LoginNameString>::decode(reader) {
            Ok(v) => v,
            Err(e) => return Err(e),
        };
        Ok(LoginStart { name })
    }
}

impl Codec for LoginStart {
    open spec fn valid(m: LoginStartView) -> bool {
        &&& <LoginNameString as Codec>::valid(m.name)
    }

    open spec fn delimited() -> bool {
        <LoginNameString as Codec>::delimited()
    }

    proof fn lemma_round_trip(m: LoginStartView, rest: Seq<u8>) {
        let e0 = <LoginNameString as Encodable>::spec_encode(m.name)->Ok_0;
        let t0 = e0 + rest;
        assert(decode_at::<LoginNameString>(t0, (0) as nat) == Ok::<(<LoginNameString as DeepView>::V, nat), CodecError>((m.name, e0.len()))
            && <LoginNameString as Encodable>::spec_encode(m.name) == Ok::<Seq<u8>, CodecError>(e0)) by {
            lemma_subrange_all(t0);
            lemma_field_round_trip::<LoginNameString>(m.name, t0, (0) as nat, rest);
        }
    }
}
/// Answers an encryption request: the shared secret and the echoed token.
pub struct EncryptionResponse {
    pub shared_secret: (VarInt, Vec<u8>),
    pub verify_token: (VarInt, Vec<u8>),
}

/// The model of a `EncryptionResponse`: each field by its model.
pub struct EncryptionResponseView {
    pub shared_secret: (i32, Seq<u8>),
    pub verify_token: (i32, Seq<u8>),
}

impl DeepView for EncryptionResponse {
    type V = EncryptionResponseView;

    open spec fn deep_view(&self) -> EncryptionResponseView {
        EncryptionResponseView {
            shared_secret: self.shared_secret.deep_view(),
            verify_token: self.verify_token.deep_view(),
        }
    }
}

impl Encodable for EncryptionResponse {
    /// The fields in order, with no framing.
    open spec fn spec_encode(m: EncryptionResponseView) -> Result<Seq<u8>, CodecError> {
        then_encode(<(VarInt, Vec<u8>) as Encodable>::spec_encode(m.shared_secret), <(VarInt, Vec<u8>) as Encodable>::spec_encode(m.verify_token))
    }

    /// The sum of the fields' sizes.
    open spec fn spec_size(m: EncryptionResponseView) -> Result<nat, CodecError> {
        add_size_spec(<(VarInt, Vec<u8>) as Encodable>::spec_size(m.shared_secret), <(VarInt, Vec<u8>) as Encodable>::spec_size(m.verify_token))
    }

    proof fn lemma_size_faithful(m: EncryptionResponseView) {
        <(VarInt, Vec<u8>) as Encodable>::lemma_size_faithful(m.shared_secret);
        <(VarInt, Vec<u8>) as Encodable>::lemma_size_faithful(m.verify_token);
        lemma_then_size(<(VarInt, Vec<u8>) as Encodable>::spec_encode(m.shared_secret), <(VarInt, Vec<u8>) as Encodable>::spec_size(m.shared_secret), <(VarInt, Vec<u8>) as Encodable>::spec_encode(m.verify_token), <(VarInt, Vec<u8>) as Encodable>::spec_size(m.verify_token));
    }

    fn encode(&self, out: &mut Vec<u8>) -> (r: Result<(), CodecError>) {
        let ghost o0 = out@;
        let start = out.len();
        let ghost e0 = <(VarInt, Vec<u8>) as Encodable>::spec_encode(self.shared_secret.deep_view())->Ok_0;
        let ghost e1 = <(VarInt, Vec<u8>) as Encodable>::spec_encode(self.verify_token.deep_view())->Ok_0;
        match self.shared_secret.encode(out) {
            Ok(_) => {},
            Err(e) => return Err(e),
        }
        match self.verify_token.encode(out) {
            Ok(_) => {},
            Err(e) => {
                roll_back(out, Ghost(o0), Ghost(e0), start);
                return Err(e);
            },
        }
        proof {
            lemma_concat_assoc(o0, e0, e1);
        }
        Ok(())
    }

    fn size(&self) -> (r: Result<VarInt, CodecError>) {
        proof {
            <(VarInt, Vec<u8>) as Encodable>::lemma_size_faithful(self.shared_secret.deep_view());
            <(VarInt, Vec<u8>) as Encodable>::lemma_size_faithful(self.verify_token.deep_view());
        }
        let ghost w0 = <(VarInt, Vec<u8>) as Encodable>::spec_size(self.shared_secret.deep_view());
        let ghost w1 = <(VarInt, Vec<u8>) as Encodable>::spec_size(self.verify_token.deep_view());
        let t0 = self.shared_secret.size();
        let t1 = add_size(t0, Ghost(w0), self.verify_token.size(), Ghost(w1));
        t1
    }
}

impl Decodable for EncryptionResponse {
    open spec fn spec_decode(bytes: Seq<u8>) -> Result<(EncryptionResponseView, nat), CodecError> {
        match decode_at::<(VarInt, Vec<u8>)>(bytes, 0) {
            Err(e) => Err(e),
            Ok((shared_secret, n0)) => match decode_at::<(VarInt, Vec<u8>)>(bytes, n0) {
                Err(e) => Err(e),
                Ok((verify_token, n1)) => Ok((EncryptionResponseView { shared_secret, verify_token }, n0 + n1)),
            },
        }
    }

    proof fn lemma_decode_len(bytes: Seq<u8>) {
        lemma_decode_at::<(VarInt, Vec<u8>)>(bytes, 0);
        <(VarInt, Vec<u8>) as Decodable>::lemma_decode_len(bytes.subrange((0) as int, bytes.len() as int));
        if let Ok((shared_secret, n0)) = decode_at::<(VarInt, Vec<u8>)>(bytes, 0) {
            lemma_decode_at::<(VarInt, Vec<u8>)>(bytes, n0);
            <(VarInt, Vec<u8>) as Decodable>::lemma_decode_len(bytes.subrange((n0) as int, bytes.len() as int));
        }
    }

    fn decode(reader: &mut ByteReader) -> (r: Result<EncryptionResponse, CodecError>) {
        let ghost r0 = *reader;
        let ghost rest0 = reader.rest();
        proof {
            ByteReader::lemma_rest_since(r0, *reader);
            lemma_decode_at::<(VarInt, Vec<u8>)>(rest0, (reader.pos() - r0.pos()) as nat);
        }
        let shared_secret = match <(VarInt, Vec<u8>)>::decode(reader) {
            Ok(v) => v,
            Err(e) => return Err(e),
        };
        proof {
            ByteReader::lemma_rest_since(r0, *reader);
            lemma_decode_at::<(VarInt, Vec<u8>)>(rest0, (reader.pos() - r0.pos()) as nat);
        }
        let verify_token = match <(VarInt, Vec<u8>)>::decode(reader) {
            Ok(v) => v,
            Err(e) => return Err(e),
        };
        Ok(EncryptionResponse { shared_secret, verify_token })
    }
}

impl Codec for EncryptionResponse {
    open spec fn valid(m: EncryptionResponseView) -> bool {
        &&& <(VarInt, Vec<u8>) as Codec>::valid(m.shared_secret)
        &&& <(VarInt, Vec<u8>) as Codec>::delimited()
        &&& <(VarInt, Vec<u8>) as Codec>::valid(m.verify_token)
    }

    open spec fn delimited() -> bool {
        <(VarInt, Vec<u8>) as Codec>::delimited()
    }

    proof fn lemma_round_trip(m: EncryptionResponseView, rest: Seq<u8>) {
        let e0 = <(VarInt, Vec<u8>) as Encodable>::spec_encode(m.shared_secret)->Ok_0;
        let e1 = <(VarInt, Vec<u8>) as Encodable>::spec_encode(m.verify_token)->Ok_0;
        let t1 = e1 + rest;
        let t0 = e0 + t1;
        assert(decode_at::<(VarInt, Vec<u8>)>(t0, (0) as nat) == Ok::<(<(VarInt, Vec<u8>) as DeepView>::V, nat), CodecError>((m.shared_secret, e0.len()))
            && <(VarInt, Vec<u8>) as Encodable>::spec_encode(m.shared_secret) == Ok::<Seq<u8>, CodecError>(e0)
            && decode_at::<(VarInt, Vec<u8>)>(t0, (e0.len()) as nat) == Ok::<(<(VarInt, Vec<u8>) as DeepView>::V, nat), CodecError>((m.verify_token, e1.len()))
            && <(VarInt, Vec<u8>) as Encodable>::spec_encode(m.verify_token) == Ok::<Seq<u8>, CodecError>(e1)) by {
            lemma_subrange_all(t0);
            lemma_field_round_trip::<(VarInt, Vec<u8>)>(m.shared_secret, t0, (0) as nat, t1);
            lemma_field_round_trip::<(VarInt, Vec<u8>)>(m.verify_token, t0, (e0.len()) as nat, rest);
        }
        assert(e0 + e1 + rest == t0) by {
            lemma_concat_assoc(e0, e1, rest);
        }
        assert(Self::spec_encode(m) == Ok::<Seq<u8>, CodecError>(e0 + e1));
    }
}
/// Answers a plugin request; its data runs to the end of the frame.
pub struct LoginPluginResponse {
    pub message_id: VarInt,
    pub successful: bool,
    pub data: Vec<u8>,
}

/// The model of a `LoginPluginResponse`: each field by its model.
pub struct LoginPluginResponseView {
    pub message_id: i32,
    pub successful: bool,
    pub data: Seq<u8>,
}

impl DeepView for LoginPluginResponse {
    type V = LoginPluginResponseView;

    open spec fn deep_view(&self) -> LoginPluginResponseView {
        LoginPluginResponseView {
            message_id: self.message_id.deep_view(),
            successful: self.successful.deep_view(),
            data: self.data.deep_view(),
        }
    }
}

impl Encodable for LoginPluginResponse {
    /// The fields in order, with no framing.
    open spec fn spec_encode(m: LoginPluginResponseView) -> Result<Seq<u8>, CodecError> {
        then_encode(then_encode(<VarInt as Encodable>::spec_encode(m.message_id), <bool as Encodable>::spec_encode(m.successful)), <Vec<u8> as Encodable>::spec_encode(m.data))
    }

    /// The sum of the fields' sizes.
    open spec fn spec_size(m: LoginPluginResponseView) -> Result<nat, CodecError> {
        add_size_spec(add_size_spec(<VarInt as Encodable>::spec_size(m.message_id), <bool as Encodable>::spec_size(m.successful)), <Vec<u8> as Encodable>::spec_size(m.data))
    }

    proof fn lemma_size_faithful(m: LoginPluginResponseView) {
        <VarInt as Encodable>::lemma_size_faithful(m.message_id);
        <bool as Encodable>::lemma_size_faithful(m.successful);
        <Vec<u8> as Encodable>::lemma_size_faithful(m.data);
        lemma_then_size(<VarInt as Encodable>::spec_encode(m.message_id), <VarInt as Encodable>::spec_size(m.message_id), <bool as Encodable>::spec_encode(m.successful), <bool as Encodable>::spec_size(m.successful));
        lemma_then_size(then_encode(<VarInt as Encodable>::spec_encode(m.message_id), <bool as Encodable>::spec_encode(m.successful)), add_size_spec(<VarInt as Encodable>::spec_size(m.message_id), <bool as Encodable>::spec_size(m.successful)), <Vec<u8> as Encodable>::spec_encode(m.data), <Vec<u8> as Encodable>::spec_size(m.data));
    }

    fn encode(&self, out: &mut Vec<u8>) -> (r: Result<(), CodecError>) {
        let ghost o0 = out@;
        let start = out.len();
        let ghost e0 = <VarInt as Encodable>::spec_encode(self.message_id.deep_view())->Ok_0;
        let ghost e1 = <bool as Encodable>::spec_encode(self.successful.deep_view())->Ok_0;
        let ghost e2 = <Vec<u8> as Encodable>::spec_encode(self.data.deep_view())->Ok_0;
        match self.message_id.encode(out) {
            Ok(_) => {},
            Err(e) => return Err(e),
        }
        match self.successful.encode(out) {
            Ok(_) => {},
            Err(e) => {
                roll_back(out, Ghost(o0), Ghost(e0), start);
                return Err(e);
            },
        }
        proof {
            lemma_concat_assoc(o0, e0, e1);
        }
        match self.data.encode(out) {
            Ok(_) => {},
            Err(e) => {
                roll_back(out, Ghost(o0), Ghost(e0 + e1), start);
                return Err(e);
            },
        }
        proof {
            lemma_concat_assoc(o0, e0 + e1, e2);
        }
        Ok(())
    }

    fn size(&self) -> (r: Result<VarInt, CodecError>) {
        proof {
            <VarInt as Encodable>::lemma_size_faithful(self.message_id.deep_view());
            <bool as Encodable>::lemma_size_faithful(self.successful.deep_view());
            <Vec<u8> as Encodable>::lemma_size_faithful(self.data.deep_view());
        }
        let ghost w0 = <VarInt as Encodable>::spec_size(self.message_id.deep_view());
        let ghost w1 = <bool as Encodable>::spec_size(self.successful.deep_view());
        let ghost w2 = <Vec<u8> as Encodable>::spec_size(self.data.deep_view());
        let t0 = self.message_id.size();
        let t1 = add_size(t0, Ghost(w0), self.successful.size(), Ghost(w1));
        let ghost c1 = add_size_spec(w0, w1);
        let t2 = add_size(t1, Ghost(c1), self.data.size(), Ghost(w2));
        t2
    }
}

impl Decodable for LoginPluginResponse {
    open spec fn spec_decode(bytes: Seq<u8>) -> Result<(LoginPluginResponseView, nat), CodecError> {
        match decode_at::<VarInt>(bytes, 0) {
            Err(e) => Err(e),
            Ok((message_id, n0)) => match decode_at::<bool>(bytes, n0) {
                Err(e) => Err(e),
                Ok((successful, n1)) => match decode_at::<Vec<u8>>(bytes, n0 + n1) {
                    Err(e) => Err(e),
                    Ok((data, n2)) => Ok((LoginPluginResponseView { message_id, successful, data }, n0 + n1 + n2)),
                },
            },
        }
    }

    proof fn lemma_decode_len(bytes: Seq<u8>) {
        lemma_decode_at::<VarInt>(bytes, 0);
        <VarInt as Decodable>::lemma_decode_len(bytes.subrange((0) as int, bytes.len() as int));
        if let Ok((message_id, n0)) = decode_at::<VarInt>(bytes, 0) {
            lemma_decode_at::<bool>(bytes, n0);
            <bool as Decodable>::lemma_decode_len(bytes.subrange((n0) as int, bytes.len() as int));
            if let Ok((successful, n1)) = decode_at::<bool>(bytes, n0) {
                lemma_decode_at::<Vec<u8>>(bytes, n0 + n1);
                <Vec<u8> as Decodable>::lemma_decode_len(bytes.subrange((n0 + n1) as int, bytes.len() as int));
            }
        }
    }

    fn decode(reader: &mut ByteReader) -> (r: Result<LoginPluginResponse, CodecError>) {
        let ghost r0 = *reader;
        let ghost rest0 = reader.rest();
        proof {
            ByteReader::lemma_rest_since(r0, *reader);
            lemma_decode_at::<VarInt>(rest0, (reader.pos() - r0.pos()) as nat);
        }
        let message_id = match <VarInt>::decode(reader) {
            Ok(v) => v,
            Err(e) => return Err(e),
        };
        proof {
            ByteReader::lemma_rest_since(r0, *reader);
            lemma_decode_at::<bool>(rest0, (reader.pos() - r0.pos()) as nat);
        }
        let successful = match <bool>::decode(reader) {
            Ok(v) => v,
            Err(e) => return Err(e),
        };
        proof {
            ByteReader::lemma_rest_since(r0, *reader);
            lemma_decode_at::<Vec<u8>>(rest0, (reader.pos() - r0.pos()) as nat);
        }
        let data = match <Vec<u8>>::decode(reader) {
            Ok(v) => v,
            Err(e) => return Err(e),
        };
        Ok(LoginPluginResponse { message_id, successful, data })
    }
}

impl Codec for LoginPluginResponse {
    open spec fn valid(m: LoginPluginResponseView) -> bool {
        &&& <VarInt as Codec>::valid(m.message_id)
        &&& <VarInt as Codec>::delimited()
        &&& <bool as Codec>::valid(m.successful)
        &&& <bool as Codec>::delimited()
        &&& <Vec<u8> as Codec>::valid(m.data)
    }

    open spec fn delimited() -> bool {
        <Vec<u8> as Codec>::delimited()
    }

    proof fn lemma_round_trip(m: LoginPluginResponseView, rest: Seq<u8>) {
        let e0 = <VarInt as Encodable>::spec_encode(m.message_id)->Ok_0;
        let e1 = <bool as Encodable>::spec_encode(m.successful)->Ok_0;
        let e2 = <Vec<u8> as Encodable>::spec_encode(m.data)->Ok_0;
        let t2 = e2 + rest;
        let t1 = e1 + t2;
        let t0 = e0 + t1;
        assert(decode_at::<VarInt>(t0, (0) as nat) == Ok::<(<VarInt as DeepView>::V, nat), CodecError>((m.message_id, e0.len()))
            && <VarInt as Encodable>::spec_encode(m.message_id) == Ok::<Seq<u8>, CodecError>(e0)
            && decode_at::<bool>(t0, (e0.len()) as nat) == Ok::<(<bool as DeepView>::V, nat), CodecError>((m.successful, e1.len()))
            && <bool as Encodable>::spec_encode(m.successful) == Ok::<Seq<u8>, CodecError>(e1)
            && decode_at::<Vec<u8>>(t0, (e0.len() + e1.len()) as nat) == Ok::<(<Vec<u8> as DeepView>::V, nat), CodecError>((m.data, e2.len()))
            && <Vec<u8> as Encodable>::spec_encode(m.data) == Ok::<Seq<u8>, CodecError>(e2)) by {
            lemma_subrange_all(t0);
            lemma_field_round_trip::<VarInt>(m.message_id, t0, (0) as nat, t1);
            lemma_field_round_trip::<bool>(m.successful, t0, (e0.len()) as nat, t2);
            lemma_field_round_trip::<Vec<u8>>(m.data, t0, (e0.len() + e1.len()) as nat, rest);
        }
        assert(e0 + e1 + e2 + rest == t0) by {
            lemma_concat_assoc(e0, e1, t2);
            lemma_concat_assoc(e0 + e1, e2, rest);
        }
        assert(Self::spec_encode(m) == Ok::<Seq<u8>, CodecError>(e0 + e1 + e2));
    }
}

} // verus!
