use vstd::prelude::*;

use crate::codec::{
    add_size, add_size_spec, lemma_then_size, decode_at, lemma_concat_assoc, lemma_decode_at,
    lemma_subrange_all, lemma_field_round_trip, roll_back, then_encode, Codec, Decodable,
    Encodable,
};
use crate::error::CodecError;
use crate::reader::ByteReader;
use crate::varnum::VarInt;
use crate::scalars::McUuid;
use crate::strings::{ChatJson, EncryptionRequestServerId, Identifier, LoginSuccessName};

verus! {

/// Ends a login with a reason.
pub struct Disconnect {
    pub reason: ChatJson,
}

/// The model of a `Disconnect`: each field by its model.
pub struct DisconnectView {
    pub reason: Seq<char>,
}

impl DeepView for Disconnect {
    type V = DisconnectView;

    open spec fn deep_view(&self) -> DisconnectView {
        DisconnectView {
            reason: self.reason.deep_view(),
        }
    }
}

impl Encodable for Disconnect {
    /// The fields in order, with no framing.
    open spec fn spec_encode(m: DisconnectView) -> Result<Seq<u8>, CodecError> {
        <ChatJson as Encodable>::spec_encode(m.reason)
    }

    /// The sum of the fields' sizes.
    open spec fn spec_size(m: DisconnectView) -> Result<nat, CodecError> {
        <ChatJson as Encodable>::spec_size(m.reason)
    }

    proof fn lemma_size_faithful(m: DisconnectView) {
        <ChatJson as Encodable>::lemma_size_faithful(m.reason);
    }

    fn encode(&self, out: &mut Vec<u8>) -> (r: Result<(), CodecError>) {
        self.reason.encode(out)
    }

    fn size(&self) -> (r: Result<VarInt, CodecError>) {
        self.reason.size()
    }
}

impl Decodable for Disconnect {
    open spec fn spec_decode(bytes: Seq<u8>) -> Result<(DisconnectView, nat), CodecError> {
        match decode_at::<ChatJson>(bytes, 0) {
            Err(e) => Err(e),
            Ok((reason, n0)) => Ok((DisconnectView { reason }, n0)),
        }
    }

    proof fn lemma_decode_len(bytes: Seq<u8>) {
        lemma_decode_at::<ChatJson>(bytes, 0);
        <ChatJson as Decodable>::lemma_decode_len(bytes.subrange((0) as int, bytes.len() as int));
    }

    fn decode(reader: &mut ByteReader) -> (r: Result<Disconnect, CodecError>) {
        let ghost r0 = *reader;
        let ghost rest0 = reader.rest();
        proof {
            ByteReader::lemma_rest_since(r0, *reader);
            lemma_decode_at::<ChatJson>(rest0, (reader.pos() - r0.pos()) as nat);
        }
        let reason = match <ChatJson>::decode(reader) {
            Ok(v) => v,
            Err(e) => return Err(e),
        };
        Ok(Disconnect { reason })
    }
}

impl Codec for Disconnect {
    open spec fn valid(m: DisconnectView) -> bool {
        &&& <ChatJson as Codec>::valid(m.reason)
    }

    open spec fn delimited() -> bool {
        <ChatJson as Codec>::delimited()
    }

    proof fn lemma_round_trip(m: DisconnectView, rest: Seq<u8>) {
        let e0 = <ChatJson as Encodable>::spec_encode(m.reason)->Ok_0;
        let t0 = e0 + rest;
        assert(decode_at::<ChatJson>(t0, (0) as nat) == Ok::<(<ChatJson as DeepView>::V, nat), CodecError>((m.reason, e0.len()))
            && <ChatJson as Encodable>::spec_encode(m.reason) == Ok::<Seq<u8>, CodecError>(e0)) by {
            lemma_subrange_all(t0);
            lemma_field_round_trip::<ChatJson>(m.reason, t0, (0) as nat, rest);
        }
    }
}
/// Starts encryption: the server id, its public key and a token to echo.
pub struct EncryptionRequest {
    pub server_id: EncryptionRequestServerId,
    pub public_key: (VarInt, Vec<u8>),
    pub verify_token: (VarInt, Vec<u8>),
}

/// The model of a `EncryptionRequest`: each field by its model.
pub struct EncryptionRequestView {
    pub server_id: Seq<char>,
    pub public_key: (i32, Seq<u8>),
    pub verify_token: (i32, Seq<u8>),
}

impl DeepView for EncryptionRequest {
    type V = EncryptionRequestView;

    open spec fn deep_view(&self) -> EncryptionRequestView {
        EncryptionRequestView {
            server_id: self.server_id.deep_view(),
            public_key: self.public_key.deep_view(),
            verify_token: self.verify_token.deep_view(),
        }
    }
}

impl Encodable for EncryptionRequest {
    /// The fields in order, with no framing.
    open spec fn spec_encode(m: EncryptionRequestView) -> Result<Seq<u8>, CodecError> {
        then_encode(then_encode(<EncryptionRequestServerId as Encodable>::spec_encode(m.server_id), <(VarInt, Vec<u8>) as Encodable>::spec_encode(m.public_key)), <(VarInt, Vec<u8>) as Encodable>::spec_encode(m.verify_token))
    }

    /// The sum of the fields' sizes.
    open spec fn spec_size(m: EncryptionRequestView) -> Result<nat, CodecError> {
        add_size_spec(add_size_spec(<EncryptionRequestServerId as Encodable>::spec_size(m.server_id), <(VarInt, Vec<u8>) as Encodable>::spec_size(m.public_key)), <(VarInt, Vec<u8>) as Encodable>::spec_size(m.verify_token))
    }

    proof fn lemma_size_faithful(m: EncryptionRequestView) {
        <EncryptionRequestServerId as Encodable>::lemma_size_faithful(m.server_id);
        <(VarInt, Vec<u8>) as Encodable>::lemma_size_faithful(m.public_key);
        <(VarInt, Vec<u8>) as Encodable>::lemma_size_faithful(m.verify_token);
        lemma_then_size(<EncryptionRequestServerId as Encodable>::spec_encode(m.server_id), <EncryptionRequestServerId as Encodable>::spec_size(m.server_id), <(VarInt, Vec<u8>) as Encodable>::spec_encode(m.public_key), <(VarInt, Vec<u8>) as Encodable>::spec_size(m.public_key));
        lemma_then_size(then_encode(<EncryptionRequestServerId as Encodable>::spec_encode(m.server_id), <(VarInt, Vec<u8>) as Encodable>::spec_encode(m.public_key)), add_size_spec(<EncryptionRequestServerId as Encodable>::spec_size(m.server_id), <(VarInt, Vec<u8>) as Encodable>::spec_size(m.public_key)), <(VarInt, Vec<u8>) as Encodable>::spec_encode(m.verify_token), <(VarInt, Vec<u8>) as Encodable>::spec_size(m.verify_token));
    }

    fn encode(&self, out: &mut Vec<u8>) -> (r: Result<(), CodecError>) {
        let ghost o0 = out@;
        let start = out.len();
        let ghost e0 = <EncryptionRequestServerId as Encodable>::spec_encode(self.server_id.deep_view())->Ok_0;
        let ghost e1 = <(VarInt, Vec<u8>) as Encodable>::spec_encode(self.public_key.deep_view())->Ok_0;
        let ghost e2 = <(VarInt, Vec<u8>) as Encodable>::spec_encode(self.verify_token.deep_view())->Ok_0;
        match self.server_id.encode(out) {
            Ok(_) => {},
            Err(e) => return Err(e),
        }
        match self.public_key.encode(out) {
            Ok(_) => {},
            Err(e) => {
                roll_back(out, Ghost(o0), Ghost(e0), start);
                return Err(e);
            },
        }
        proof {
            lemma_concat_assoc(o0, e0, e1);
        }
        match self.verify_token.encode(out) {
            Ok(_) => {},
            Err(e) => {
                roll_back(out, Ghost(o0), Ghost(e0 + e1), start);
                return Err(e);
            },
        }
        proof {
            lemma_concat_assoc(o0, e0 + e1, e2);
        }
        Ok(())
    }

    fn size(&self) -> (r: Result<VarInt, CodecError>) {
        proof {
            <EncryptionRequestServerId as Encodable>::lemma_size_faithful(self.server_id.deep_view());
            <(VarInt, Vec<u8>) as Encodable>::lemma_size_faithful(self.public_key.deep_view());
            <(VarInt, Vec<u8>) as Encodable>::lemma_size_faithful(self.verify_token.deep_view());
        }
        let ghost w0 = <EncryptionRequestServerId as Encodable>::spec_size(self.server_id.deep_view());
        let ghost w1 = <(VarInt, Vec<u8>) as Encodable>::spec_size(self.public_key.deep_view());
        let ghost w2 = <(VarInt, Vec<u8>) as Encodable>::spec_size(self.verify_token.deep_view());
        let t0 = self.server_id.size();
        let t1 = add_size(t0, Ghost(w0), self.public_key.size(), Ghost(w1));
        let ghost c1 = add_size_spec(w0, w1);
        let t2 = add_size(t1, Ghost(c1), self.verify_token.size(), Ghost(w2));
        t2
    }
}

impl Decodable for EncryptionRequest {
    open spec fn spec_decode(bytes: Seq<u8>) -> Result<(EncryptionRequestView, nat), CodecError> {
        match decode_at::<EncryptionRequestServerId>(bytes, 0) {
            Err(e) => Err(e),
            Ok((server_id, n0)) => match decode_at::<(VarInt, Vec<u8>)>(bytes, n0) {
                Err(e) => Err(e),
                Ok((public_key, n1)) => match decode_at::<(VarInt, Vec<u8>)>(bytes, n0 + n1) {
                    Err(e) => Err(e),
                    Ok((verify_token, n2)) => Ok((EncryptionRequestView { server_id, public_key, verify_token }, n0 + n1 + n2)),
                },
            },
        }
    }

    proof fn lemma_decode_len(bytes: Seq<u8>) {
        lemma_decode_at::<EncryptionRequestServerId>(bytes, 0);
        <EncryptionRequestServerId as Decodable>::lemma_decode_len(bytes.subrange((0) as int, bytes.len() as int));
        if let Ok((server_id, n0)) = decode_at::<EncryptionRequestServerId>(bytes, 0) {
            lemma_decode_at::<(VarInt, Vec<u8>)>(bytes, n0);
            <(VarInt, Vec<u8>) as Decodable>::lemma_decode_len(bytes.subrange((n0) as int, bytes.len() as int));
            if let Ok((public_key, n1)) = decode_at::<(VarInt, Vec<u8>)>(bytes, n0) {
                lemma_decode_at::<(VarInt, Vec<u8>)>(bytes, n0 + n1);
                <(VarInt, Vec<u8>) as Decodable>::lemma_decode_len(bytes.subrange((n0 + n1) as int, bytes.len() as int));
            }
        }
    }

    fn decode(reader: &mut ByteReader) -> (r: Result<EncryptionRequest, CodecError>) {
        let ghost r0 = *reader;
        let ghost rest0 = reader.rest();
        proof {
            ByteReader::lemma_rest_since(r0, *reader);
            lemma_decode_at::<EncryptionRequestServerId>(rest0, (reader.pos() - r0.pos()) as nat);
        }
        let server_id = match <EncryptionRequestServerId>::decode(reader) {
            Ok(v) => v,
            Err(e) => return Err(e),
        };
        proof {
            ByteReader::lemma_rest_since(r0, *reader);
            lemma_decode_at::<(VarInt, Vec<u8>)>(rest0, (reader.pos() - r0.pos()) as nat);
        }
        let public_key = match <(VarInt, Vec<u8>)>::decode(reader) {
            Ok(v) => v,
            Err(e) => return Err(e),
        };
        proof {
            ByteReader::lemma_rest_since(r0, *reader);
            lemma_decode_at::<(VarInt, Vec<u8>)>(rest0, (reader.pos() - r0.pos()) as nat);
        }
        let verify_token = match <(VarInt, Vec<u8>)>::decode(reader) {
            Ok(v) => v,
            Err(e) => return Err(e),
        };
        Ok(EncryptionRequest { server_id, public_key, verify_token })
    }
}

impl Codec for EncryptionRequest {
    open spec fn valid(m: EncryptionRequestView) -> bool {
        &&& <EncryptionRequestServerId as Codec>::valid(m.server_id)
        &&& <EncryptionRequestServerId as Codec>::delimited()
        &&& <(VarInt, Vec<u8>) as Codec>::valid(m.public_key)
        &&& <(VarInt, Vec<u8>) as Codec>::delimited()
        &&& <(VarInt, Vec<u8>) as Codec>::valid(m.verify_token)
    }

    open spec fn delimited() -> bool {
        <(VarInt, Vec<u8>) as Codec>::delimited()
    }

    proof fn lemma_round_trip(m: EncryptionRequestView, rest: Seq<u8>) {
        let e0 = <EncryptionRequestServerId as Encodable>::spec_encode(m.server_id)->Ok_0;
        let e1 = <(VarInt, Vec<u8>) as Encodable>::spec_encode(m.public_key)->Ok_0;
        let e2 = <(VarInt, Vec<u8>) as Encodable>::spec_encode(m.verify_token)->Ok_0;
        let t2 = e2 + rest;
        let t1 = e1 + t2;
        let t0 = e0 + t1;
        assert(decode_at::<EncryptionRequestServerId>(t0, (0) as nat) == Ok::<(<EncryptionRequestServerId as DeepView>::V, nat), CodecError>((m.server_id, e0.len()))
            && <EncryptionRequestServerId as Encodable>::spec_encode(m.server_id) == Ok::<Seq<u8>, CodecError>(e0)
            && decode_at::<(VarInt, Vec<u8>)>(t0, (e0.len()) as nat) == Ok::<(<(VarInt, Vec<u8>) as DeepView>::V, nat), CodecError>((m.public_key, e1.len()))
            && <(VarInt, Vec<u8>) as Encodable>::spec_encode(m.public_key) == Ok::<Seq<u8>, CodecError>(e1)
            && decode_at::<(VarInt, Vec<u8>)>(t0, (e0.len() + e1.len()) as nat) == Ok::<(<(VarInt, Vec<u8>) as DeepView>::V, nat), CodecError>((m.verify_token, e2.len()))
            && <(VarInt, Vec<u8>) as Encodable>::spec_encode(m.verify_token) == Ok::<Seq<u8>, CodecError>(e2)) by {
            lemma_subrange_all(t0);
            lemma_field_round_trip::<EncryptionRequestServerId>(m.server_id, t0, (0) as nat, t1);
            lemma_field_round_trip::<(VarInt, Vec<u8>)>(m.public_key, t0, (e0.len()) as nat, t2);
            lemma_field_round_trip::<(VarInt, Vec<u8>)>(m.verify_token, t0, (e0.len() + e1.len()) as nat, rest);
        }
        assert(e0 + e1 + e2 + rest == t0) by {
            lemma_concat_assoc(e0, e1, t2);
            lemma_concat_assoc(e0 + e1, e2, rest);
        }
        assert(Self::spec_encode(m) == Ok::<Seq<u8>, CodecError>(e0 + e1 + e2));
    }
}
/// Ends a login with the player's identity.
pub struct LoginSuccess {
    pub uuid: McUuid,
    pub username: LoginSuccessName,
}

/// The model of a `LoginSuccess`: each field by its model.
pub struct LoginSuccessView {
    pub uuid: u128,
    pub username: Seq<char>,
}

impl DeepView for LoginSuccess {
    type V = LoginSuccessView;

    open spec fn deep_view(&self) -> LoginSuccessView {
        LoginSuccessView {
            uuid: self.uuid.deep_view(),
            username: self.username.deep_view(),
        }
    }
}

impl Encodable for LoginSuccess {
    /// The fields in order, with no framing.
    open spec fn spec_encode(m: LoginSuccessView) -> Result<Seq<u8>, CodecError> {
        then_encode(<McUuid as Encodable>::spec_encode(m.uuid), <LoginSuccessName as Encodable>::spec_encode(m.username))
    }

    /// The sum of the fields' sizes.
    open spec fn spec_size(m: LoginSuccessView) -> Result<nat, CodecError> {
        add_size_spec(<McUuid as Encodable>::spec_size(m.uuid), <LoginSuccessName as Encodable>::spec_size(m.username))
    }

    proof fn lemma_size_faithful(m: LoginSuccessView) {
        <McUuid as Encodable>::lemma_size_faithful(m.uuid);
        <LoginSuccessName as Encodable>::lemma_size_faithful(m.username);
        lemma_then_size(<McUuid as Encodable>::spec_encode(m.uuid), <McUuid as Encodable>::spec_size(m.uuid), <LoginSuccessName as Encodable>::spec_encode(m.username), <LoginSuccessName as Encodable>::spec_size(m.username));
    }

    fn encode(&self, out: &mut Vec<u8>) -> (r: Result<(), CodecError>) {
        let ghost o0 = out@;
        let start = out.len();
        let ghost e0 = <McUuid as Encodable>::spec_encode(self.uuid.deep_view())->Ok_0;
        let ghost e1 = <LoginSuccessName as Encodable>::spec_encode(self.username.deep_view())->Ok_0;
        match self.uuid.encode(out) {
            Ok(_) => {},
            Err(e) => return Err(e),
        }
        match self.username.encode(out) {
            Ok(_) => {},
            Err(e) => {
                roll_back(out, Ghost(o0), Ghost(e0), start);
                return Err(e);
            },
        }
        proof {
            lemma_concat_assoc(o0, e0, e1);
        }
        Ok(())
    }

    fn size(&self) -> (r: Result<VarInt, CodecError>) {
        proof {
            <McUuid as Encodable>::lemma_size_faithful(self.uuid.deep_view());
            <LoginSuccessName as Encodable>::lemma_size_faithful(self.username.deep_view());
        }
        let ghost w0 = <McUuid as Encodable>::spec_size(self.uuid.deep_view());
        let ghost w1 = <LoginSuccessName as Encodable>::spec_size(self.username.deep_view());
        let t0 = self.uuid.size();
        let t1 = add_size(t0, Ghost(w0), self.username.size(), Ghost(w1));
        t1
    }
}

impl Decodable for LoginSuccess {
    open spec fn spec_decode(bytes: Seq<u8>) -> Result<(LoginSuccessView, nat), CodecError> {
        match decode_at::<McUuid>(bytes, 0) {
            Err(e) => Err(e),
            Ok((uuid, n0)) => match decode_at::<LoginSuccessName>(bytes, n0) {
                Err(e) => Err(e),
                Ok((username, n1)) => Ok((LoginSuccessView { uuid, username }, n0 + n1)),
            },
        }
    }

    proof fn lemma_decode_len(bytes: Seq<u8>) {
        lemma_decode_at::<McUuid>(bytes, 0);
        <McUuid as Decodable>::lemma_decode_len(bytes.subrange((0) as int, bytes.len() as int));
        if let Ok((uuid, n0)) = decode_at::<McUuid>(bytes, 0) {
            lemma_decode_at::<LoginSuccessName>(bytes, n0);
            <LoginSuccessName as Decodable>::lemma_decode_len(bytes.subrange((n0) as int, bytes.len() as int));
        }
    }

    fn decode(reader: &mut ByteReader) -> (r: Result<LoginSuccess, CodecError>) {
        let ghost r0 = *reader;
        let ghost rest0 = reader.rest();
        proof {
            ByteReader::lemma_rest_since(r0, *reader);
            lemma_decode_at::<McUuid>(rest0, (reader.pos() - r0.pos()) as nat);
        }
        let uuid = match <McUuid>::decode(reader) {
            Ok(v) => v,
            Err(e) => return Err(e),
        };
        proof {
            ByteReader::lemma_rest_since(r0, *reader);
            lemma_decode_at::<LoginSuccessName>(rest0, (reader.pos() - r0.pos()) as nat);
        }
        let username = match <LoginSuccessName>::decode(reader) {
            Ok(v) => v,
            Err(e) => return Err(e),
        };
        Ok(LoginSuccess { uuid, username })
    }
}

impl Codec for LoginSuccess {
    open spec fn valid(m: LoginSuccessView) -> bool {
        &&& <McUuid as Codec>::valid(m.uuid)
        &&& <McUuid as Codec>::delimited()
        &&& <LoginSuccessName as Codec>::valid(m.username)
    }

    open spec fn delimited() -> bool {
        <LoginSuccessName as Codec>::delimited()
    }

    proof fn lemma_round_trip(m: LoginSuccessView, rest: Seq<u8>) {
        let e0 = <McUuid as Encodable>::spec_encode(m.uuid)->Ok_0;
        let e1 = <LoginSuccessName as Encodable>::spec_encode(m.username)->Ok_0;
        let t1 = e1 + rest;
        let t0 = e0 + t1;
        assert(decode_at::<McUuid>(t0, (0) as nat) == Ok::<(<McUuid as DeepView>::V, nat), CodecError>((m.uuid, e0.len()))
            && <McUuid as Encodable>::spec_encode(m.uuid) == Ok::<Seq<u8>, CodecError>(e0)
            && decode_at::<LoginSuccessName>(t0, (e0.len()) as nat) == Ok::<(<LoginSuccessName as DeepView>::V, nat), CodecError>((m.username, e1.len()))
            && <LoginSuccessName as Encodable>::spec_encode(m.username) == Ok::<Seq<u8>, CodecError>(e1)) by {
            lemma_subrange_all(t0);
            lemma_field_round_trip::<McUuid>(m.uuid, t0, (0) as nat, t1);
            lemma_field_round_trip::<LoginSuccessName>(m.username, t0, (e0.len()) as nat, rest);
        }
        assert(e0 + e1 + rest == t0) by {
            lemma_concat_assoc(e0, e1, rest);
        }
        assert(Self::spec_encode(m) == Ok::<Seq<u8>, CodecError>(e0 + e1));
    }
}
/// Sets the size from which frames are compressed.
pub struct SetCompression {
    pub threshold: VarInt,
}

/// The model of a `SetCompression`: each field by its model.
pub struct SetCompressionView {
    pub threshold: i32,
}

impl DeepView for SetCompression {
    type V = SetCompressionView;

    open spec fn deep_view(&self) -> SetCompressionView {
        SetCompressionView {
            threshold: self.threshold.deep_view(),
        }
    }
}

impl Encodable for SetCompression {
    /// The fields in order, with no framing.
    open spec fn spec_encode(m: SetCompressionView) -> Result<Seq<u8>, CodecError> {
        <VarInt as Encodable>::spec_encode(m.threshold)
    }

    /// The sum of the fields' sizes.
    open spec fn spec_size(m: SetCompressionView) -> Result<nat, CodecError> {
        <VarInt as Encodable>::spec_size(m.threshold)
    }

    proof fn lemma_size_faithful(m: SetCompressionView) {
        <VarInt as Encodable>::lemma_size_faithful(m.threshold);
    }

    fn encode(&self, out: &mut Vec<u8>) -> (r: Result<(), CodecError>) {
        self.threshold.encode(out)
    }

    fn size(&self) -> (r: Result<VarInt, CodecError>) {
        self.threshold.size()
    }
}

impl Decodable for SetCompression {
    open spec fn spec_decode(bytes: Seq<u8>) -> Result<(SetCompressionView, nat), CodecError> {
        match decode_at::<VarInt>(bytes, 0) {
            Err(e) => Err(e),
            Ok((threshold, n0)) => Ok((SetCompressionView { threshold }, n0)),
        }
    }

    proof fn lemma_decode_len(bytes: Seq<u8>) {
        lemma_decode_at::<VarInt>(bytes, 0);
        <VarInt as Decodable>::lemma_decode_len(bytes.subrange((0) as int, bytes.len() as int));
    }

    fn decode(reader: &mut ByteReader) -> (r: Result<SetCompression, CodecError>) {
        let ghost r0 = *reader;
        let ghost rest0 = reader.rest();
        proof {
            ByteReader::lemma_rest_since(r0, *reader);
            lemma_decode_at::<VarInt>(rest0, (reader.pos() - r0.pos()) as nat);
        }
        let threshold = match <VarInt>::decode(reader) {
            Ok(v) => v,
            Err(e) => return Err(e),
        };
        Ok(SetCompression { threshold })
    }
}

impl Codec for SetCompression {
    open spec fn valid(m: SetCompressionView) -> bool {
        &&& <VarInt as Codec>::valid(m.threshold)
    }

    open spec fn delimited() -> bool {
        <VarInt as Codec>::delimited()
    }

    proof fn lemma_round_trip(m: SetCompressionView, rest: Seq<u8>) {
        let e0 = <VarInt as Encodable>::spec_encode(m.threshold)->Ok_0;
        let t0 = e0 + rest;
        assert(decode_at::<VarInt>(t0, (0) as nat) == Ok::<(<VarInt as DeepView>::V, nat), CodecError>((m.threshold, e0.len()))
            && <VarInt as Encodable>::spec_encode(m.threshold) == Ok::<Seq<u8>, CodecError>(e0)) by {
            lemma_subrange_all(t0);
            lemma_field_round_trip::<VarInt>(m.threshold, t0, (0) as nat, rest);
        }
    }
}
/// A plugin message during login; its data runs to the end of the frame.
pub struct LoginPluginRequest {
    pub message_id: VarInt,
    pub channel: Identifier,
    pub data: Vec<u8>,
}

/// The model of a `LoginPluginRequest`: each field by its model.
pub struct LoginPluginRequestView {
    pub message_id: i32,
    pub channel: Seq<char>,
    pub data: Seq<u8>,
}

impl DeepView for LoginPluginRequest {
    type V = LoginPluginRequestView;

    open spec fn deep_view(&self) -> LoginPluginRequestView {
        LoginPluginRequestView {
            message_id: self.message_id.deep_view(),
            channel: self.channel.deep_view(),
            data: self.data.deep_view(),
        }
    }
}

impl Encodable for LoginPluginRequest {
    /// The fields in order, with no framing.
    open spec fn spec_encode(m: LoginPluginRequestView) -> Result<Seq<u8>, CodecError> {
        then_encode(then_encode(<VarInt as Encodable>::spec_encode(m.message_id), <Identifier as Encodable>::spec_encode(m.channel)), <Vec<u8> as Encodable>::spec_encode(m.data))
    }

    /// The sum of the fields' sizes.
    open spec fn spec_size(m: LoginPluginRequestView) -> Result<nat, CodecError> {
        add_size_spec(add_size_spec(<VarInt as Encodable>::spec_size(m.message_id), <Identifier as Encodable>::spec_size(m.channel)), <Vec<u8> as Encodable>::spec_size(m.data))
    }

    proof fn lemma_size_faithful(m: LoginPluginRequestView) {
        <VarInt as Encodable>::lemma_size_faithful(m.message_id);
        <Identifier as Encodable>::lemma_size_faithful(m.channel);
        <Vec<u8> as Encodable>::lemma_size_faithful(m.data);
        lemma_then_size(<VarInt as Encodable>::spec_encode(m.message_id), <VarInt as Encodable>::spec_size(m.message_id), <Identifier as Encodable>::spec_encode(m.channel), <Identifier as Encodable>::spec_size(m.channel));
        lemma_then_size(then_encode(<VarInt as Encodable>::spec_encode(m.message_id), <Identifier as Encodable>::spec_encode(m.channel)), add_size_spec(<VarInt as Encodable>::spec_size(m.message_id), <Identifier as Encodable>::spec_size(m.channel)), <Vec<u8> as Encodable>::spec_encode(m.data), <Vec<u8> as Encodable>::spec_size(m.data));
    }

    fn encode(&self, out: &mut Vec<u8>) -> (r: Result<(), CodecError>) {
        let ghost o0 = out@;
        let start = out.len();
        let ghost e0 = <VarInt as Encodable>::spec_encode(self.message_id.deep_view())->Ok_0;
        let ghost e1 = <Identifier as Encodable>::spec_encode(self.channel.deep_view())->Ok_0;
        let ghost e2 = <Vec<u8> as Encodable>::spec_encode(self.data.deep_view())->Ok_0;
        match self.message_id.encode(out) {
            Ok(_) => {},
            Err(e) => return Err(e),
        }
        match self.channel.encode(out) {
            Ok(_) => {},
            Err(e) => {
                roll_back(out, Ghost(o0), Ghost(e0), start);
                return Err(e);
            },
        }
        proof {
            lemma_concat_assoc(o0, e0, e1);
        }
        match self.data.encode(out) {
            Ok(_) => {},
            Err(e) => {
                roll_back(out, Ghost(o0), Ghost(e0 + e1), start);
                return Err(e);
            },
        }
        proof {
            lemma_concat_assoc(o0, e0 + e1, e2);
        }
        Ok(())
    }

    fn size(&self) -> (r: Result<VarInt, CodecError>) {
        proof {
            <VarInt as Encodable>::lemma_size_faithful(self.message_id.deep_view());
            <Identifier as Encodable>::lemma_size_faithful(self.channel.deep_view());
            <Vec<u8> as Encodable>::lemma_size_faithful(self.data.deep_view());
        }
        let ghost w0 = <VarInt as Encodable>::spec_size(self.message_id.deep_view());
        let ghost w1 = <Identifier as Encodable>::spec_size(self.channel.deep_view());
        let ghost w2 = <Vec<u8> as Encodable>::spec_size(self.data.deep_view());
        let t0 = self.message_id.size();
        let t1 = add_size(t0, Ghost(w0), self.channel.size(), Ghost(w1));
        let ghost c1 = add_size_spec(w0, w1);
        let t2 = add_size(t1, Ghost(c1), self.data.size(), Ghost(w2));
        t2
    }
}

impl Decodable for LoginPluginRequest {
    open spec fn spec_decode(bytes: Seq<u8>) -> Result<(LoginPluginRequestView, nat), CodecError> {
        match decode_at::<VarInt>(bytes, 0) {
            Err(e) => Err(e),
            Ok((message_id, n0)) => match decode_at::<Identifier>(bytes, n0) {
                Err(e) => Err(e),
                Ok((channel, n1)) => match decode_at::<Vec<u8>>(bytes, n0 + n1) {
                    Err(e) => Err(e),
                    Ok((data, n2)) => Ok((LoginPluginRequestView { message_id, channel, data }, n0 + n1 + n2)),
                },
            },
        }
    }

    proof fn lemma_decode_len(bytes: Seq<u8>) {
        lemma_decode_at::<VarInt>(bytes, 0);
        <VarInt as Decodable>::lemma_decode_len(bytes.subrange((0) as int, bytes.len() as int));
        if let Ok((message_id, n0)) = decode_at::<VarInt>(bytes, 0) {
            lemma_decode_at::<Identifier>(bytes, n0);
            <Identifier as Decodable>::lemma_decode_len(bytes.subrange((n0) as int, bytes.len() as int));
            if let Ok((channel, n1)) = decode_at::<Identifier>(bytes, n0) {
                lemma_decode_at::<Vec<u8>>(bytes, n0 + n1);
                <Vec<u8> as Decodable>::lemma_decode_len(bytes.subrange((n0 + n1) as int, bytes.len() as int));
            }
        }
    }

    fn decode(reader: &mut ByteReader) -> (r: Result<LoginPluginRequest, CodecError>) {
        let ghost r0 = *reader;
        let ghost rest0 = reader.rest();
        proof {
            ByteReader::lemma_rest_since(r0, *reader);
            lemma_decode_at::<VarInt>(rest0, (reader.pos() - r0.pos()) as nat);
        }
        let message_id = match <VarInt>::decode(reader) {
            Ok(v) => v,
            Err(e) => return Err(e),
        };
        proof {
            ByteReader::lemma_rest_since(r0, *reader);
            lemma_decode_at::<Identifier>(rest0, (reader.pos() - r0.pos()) as nat);
        }
        let channel = match <Identifier>::decode(reader) {
            Ok(v) => v,
            Err(e) => return Err(e),
        };
        proof {
            ByteReader::lemma_rest_since(r0, *reader);
            lemma_decode_at::<Vec<u8>>(rest0, (reader.pos() - r0.pos()) as nat);
        }
        let data = match <Vec<u8>>::decode(reader) {
            Ok(v) => v,
            Err(e) => return Err(e),
        };
        Ok(LoginPluginRequest { message_id, channel, data })
    }
}

impl Codec for LoginPluginRequest {
    open spec fn valid(m: LoginPluginRequestView) -> bool {
        &&& <VarInt as Codec>::valid(m.message_id)
        &&& <VarInt as Codec>::delimited()
        &&& <Identifier as Codec>::valid(m.channel)
        &&& <Identifier as Codec>::delimited()
        &&& <Vec<u8> as Codec>::valid(m.data)
    }

    open spec fn delimited() -> bool {
        <Vec<u8> as Codec>::delimited()
    }

    proof fn lemma_round_trip(m: LoginPluginRequestView, rest: Seq<u8>) {
        let e0 = <VarInt as Encodable>::spec_encode(m.message_id)->Ok_0;
        let e1 = <Identifier as Encodable>::spec_encode(m.channel)->Ok_0;
        let e2 = <Vec<u8> as Encodable>::spec_encode(m.data)->Ok_0;
        let t2 = e2 + rest;
        let t1 = e1 + t2;
        let t0 = e0 + t1;
        assert(decode_at::<VarInt>(t0, (0) as nat) == Ok::<(<VarInt as DeepView>::V, nat), CodecError>((m.message_id, e0.len()))
            && <VarInt as Encodable>::spec_encode(m.message_id) == Ok::<Seq<u8>, CodecError>(e0)
            && decode_at::<Identifier>(t0, (e0.len()) as nat) == Ok::<(<Identifier as DeepView>::V, nat), CodecError>((m.channel, e1.len()))
            && <Identifier as Encodable>::spec_encode(m.channel) == Ok::<Seq<u8>, CodecError>(e1)
            && decode_at::<Vec<u8>>(t0, (e0.len() + e1.len()) as nat) == Ok::<(<Vec<u8> as DeepView>::V, nat), CodecError>((m.data, e2.len()))
            && <Vec<u8> as Encodable>::spec_encode(m.data) == Ok::<Seq<u8>, CodecError>(e2)) by {
            lemma_subrange_all(t0);
            lemma_field_round_trip::<VarInt>(m.message_id, t0, (0) as nat, t1);
            lemma_field_round_trip::<Identifier>(m.channel, t0, (e0.len()) as nat, t2);
            lemma_field_round_trip::<Vec<u8>>(m.data, t0, (e0.len() + e1.len()) as nat, rest);
        }
        assert(e0 + e1 + e2 + rest == t0) by {
            lemma_concat_assoc(e0, e1, t2);
            lemma_concat_assoc(e0 + e1, e2, rest);
        }
        assert(Self::spec_encode(m) == Ok::<Seq<u8>, CodecError>(e0 + e1 + e2));
    }
}

} // verus!
