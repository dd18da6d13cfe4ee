use vstd::prelude::*;

use crate::codec::{
    add_size, add_size_spec, lemma_then_size, decode_at, lemma_concat_assoc, lemma_decode_at,
    lemma_subrange_all, lemma_field_round_trip, roll_back, then_encode, Codec, Decodable,
    Encodable, IndexDecodable,
};
use crate::error::CodecError;
use crate::reader::ByteReader;
use crate::varnum::{lemma_varint_len, lemma_varint_round_trip, varint_bytes, varint_parse, VarInt};
use crate::strings::HandshakeServerAddress;

verus! {

/// The phase a handshake asks for.
#[derive(Clone, Copy, Debug, PartialEq, Eq, Structural)]
pub enum NextState {
    Status,
    Login,
}

impl DeepView for NextState {
    type V = NextState;

    open spec fn deep_view(&self) -> NextState {
        *self
    }
}

impl Encodable for NextState {
    /// The discriminant as a VarInt, then the payload if the variant has one.
    open spec fn spec_encode(m: NextState) -> Result<Seq<u8>, CodecError> {
        match m {
            NextState::Status => Ok(varint_bytes(1)),
            NextState::Login => Ok(varint_bytes(2)),
        }
    }

    /// The discriminant's size, plus the payload's where there is one.
    open spec fn spec_size(m: NextState) -> Result<nat, CodecError> {
        match m {
            NextState::Status => Ok(varint_bytes(1).len()),
            NextState::Login => Ok(varint_bytes(2).len()),
        }
    }

    proof fn lemma_size_faithful(m: NextState) {
        match m {
            NextState::Status => lemma_varint_len(1),
            NextState::Login => lemma_varint_len(2),
        }
    }

    fn encode(&self, out: &mut Vec<u8>) -> (r: Result<(), CodecError>) {
        match self {
            NextState::Status => VarInt(1).encode(out),
            NextState::Login => VarInt(2).encode(out),
        }
    }

    fn size(&self) -> (r: Result<VarInt, CodecError>) {
        match self {
            NextState::Status => VarInt(1).size(),
            NextState::Login => VarInt(2).size(),
        }
    }
}

impl IndexDecodable for NextState {
    /// The variant with discriminant `index`; an index that names none fails.
    open spec fn spec_decode_index(bytes: Seq<u8>, index: int) -> Result<(NextState, nat), CodecError> {
        if index == 1 {
            Ok((NextState::Status, 0))
        } else if index == 2 {
            Ok((NextState::Login, 0))
        } else {
            Err(CodecError::UnknownDiscriminant(index as i32))
        }
    }

    fn decode_index(reader: &mut ByteReader, index: &VarInt) -> (r: Result<NextState, CodecError>) {
        match index.0 {
            1 => Ok(NextState::Status),
            2 => Ok(NextState::Login),
            _ => Err(CodecError::UnknownDiscriminant(index.0)),
        }
    }
}

impl Decodable for NextState {
    open spec fn spec_decode(bytes: Seq<u8>) -> Result<(NextState, nat), CodecError> {
        match varint_parse(bytes) {
            Err(e) => Err(e),
            Ok((i, n)) => match Self::spec_decode_index(
                bytes.subrange(n as int, bytes.len() as int),
                i as int,
            ) {
                Ok((v, k)) => Ok((v, n + k)),
                Err(e) => Err(e),
            },
        }
    }

    proof fn lemma_decode_len(bytes: Seq<u8>) {
        <VarInt as Decodable>::lemma_decode_len(bytes);
        if let Ok((i, n)) = varint_parse(bytes) {
        }
    }

    fn decode(reader: &mut ByteReader) -> (r: Result<NextState, CodecError>) {
        let ghost rest0 = reader.rest();
        let index = match VarInt::decode(reader) {
            Ok(i) => i,
            Err(e) => return Err(e),
        };
        assert(reader.rest() =~= rest0.subrange(reader.pos() - old(reader).pos(), rest0.len() as int));
        Self::decode_index(reader, &index)
    }
}

impl Codec for NextState {
    open spec fn valid(m: NextState) -> bool {
        true
    }

    open spec fn delimited() -> bool {
        true
    }

    proof fn lemma_round_trip(m: NextState, rest: Seq<u8>) {
        match m {
            NextState::Status => {
                lemma_varint_round_trip(1, rest);
                assert(rest.subrange(0, rest.len() as int) =~= rest);
            },
            NextState::Login => {
                lemma_varint_round_trip(2, rest);
                assert(rest.subrange(0, rest.len() as int) =~= rest);
            },
        }
    }
}
/// The first message a client sends.
pub struct Handshake {
    pub protocol_version: VarInt,
    pub server_address: HandshakeServerAddress,
    pub server_port: u16,
    pub next_state: NextState,
}

/// The model of a `Handshake`: each field by its model.
pub struct HandshakeView {
    pub protocol_version: i32,
    pub server_address: Seq<char>,
    pub server_port: u16,
    pub next_state: NextState,
}

impl DeepView for Handshake {
    type V = HandshakeView;

    open spec fn deep_view(&self) -> HandshakeView {
        HandshakeView {
            protocol_version: self.protocol_version.deep_view(),
            server_address: self.server_address.deep_view(),
            server_port: self.server_port.deep_view(),
            next_state: self.next_state.deep_view(),
        }
    }
}

impl Encodable for Handshake {
    /// The fields in order, with no framing.
    open spec fn spec_encode(m: HandshakeView) -> Result<Seq<u8>, CodecError> {
        then_encode(then_encode(then_encode(<VarInt as Encodable>::spec_encode(m.protocol_version), <HandshakeServerAddress as Encodable>::spec_encode(m.server_address)), <u16 as Encodable>::spec_encode(m.server_port)), <NextState as Encodable>::spec_encode(m.next_state))
    }

    /// The sum of the fields' sizes.
    open spec fn spec_size(m: HandshakeView) -> Result<nat, CodecError> {
        add_size_spec(add_size_spec(add_size_spec(<VarInt as Encodable>::spec_size(m.protocol_version), <HandshakeServerAddress as Encodable>::spec_size(m.server_address)), <u16 as Encodable>::spec_size(m.server_port)), <NextState as Encodable>::spec_size(m.next_state))
    }

    proof fn lemma_size_faithful(m: HandshakeView) {
        <VarInt as Encodable>::lemma_size_faithful(m.protocol_version);
        <HandshakeServerAddress as Encodable>::lemma_size_faithful(m.server_address);
        <u16 as Encodable>::lemma_size_faithful(m.server_port);
        <NextState as Encodable>::lemma_size_faithful(m.next_state);
        lemma_then_size(<VarInt as Encodable>::spec_encode(m.protocol_version), <VarInt as Encodable>::spec_size(m.protocol_version), <HandshakeServerAddress as Encodable>::spec_encode(m.server_address), <HandshakeServerAddress as Encodable>::spec_size(m.server_address));
        lemma_then_size(then_encode(<VarInt as Encodable>::spec_encode(m.protocol_version), <HandshakeServerAddress as Encodable>::spec_encode(m.server_address)), add_size_spec(<VarInt as Encodable>::spec_size(m.protocol_version), <HandshakeServerAddress as Encodable>::spec_size(m.server_address)), <u16 as Encodable>::spec_encode(m.server_port), <u16 as Encodable>::spec_size(m.server_port));
        lemma_then_size(then_encode(then_encode(<VarInt as Encodable>::spec_encode(m.protocol_version), <HandshakeServerAddress as Encodable>::spec_encode(m.server_address)), <u16 as Encodable>::spec_encode(m.server_port)), add_size_spec(add_size_spec(<VarInt as Encodable>::spec_size(m.protocol_version), <HandshakeServerAddress as Encodable>::spec_size(m.server_address)), <u16 as Encodable>::spec_size(m.server_port)), <NextState as Encodable>::spec_encode(m.next_state), <NextState as Encodable>::spec_size(m.next_state));
    }

    fn encode(&self, out: &mut Vec<u8>) -> (r: Result<(), CodecError>) {
        let ghost o0 = out@;
        let start = out.len();
        let ghost e0 = <VarInt as Encodable>::spec_encode(self.protocol_version.deep_view())->Ok_0;
        let ghost e1 = <HandshakeServerAddress as Encodable>::spec_encode(self.server_address.deep_view())->Ok_0;
        let ghost e2 = <u16 as Encodable>::spec_encode(self.server_port.deep_view())->Ok_0;
        let ghost e3 = <NextState as Encodable>::spec_encode(self.next_state.deep_view())->Ok_0;
        match self.protocol_version.encode(out) {
            Ok(_) => {},
            Err(e) => return Err(e),
        }
        match self.server_address.encode(out) {
            Ok(_) => {},
            Err(e) => {
                roll_back(out, Ghost(o0), Ghost(e0), start);
                return Err(e);
            },
        }
        proof {
            lemma_concat_assoc(o0, e0, e1);
        }
        match self.server_port.encode(out) {
            Ok(_) => {},
            Err(e) => {
                roll_back(out, Ghost(o0), Ghost(e0 + e1), start);
                return Err(e);
            },
        }
        proof {
            lemma_concat_assoc(o0, e0 + e1, e2);
        }
        match self.next_state.encode(out) {
            Ok(_) => {},
            Err(e) => {
                roll_back(out, Ghost(o0), Ghost(e0 + e1 + e2), start);
                return Err(e);
            },
        }
        proof {
            lemma_concat_assoc(o0, e0 + e1 + e2, e3);
        }
        Ok(())
    }

    fn size(&self) -> (r: Result<VarInt, CodecError>) {
        proof {
            <VarInt as Encodable>::lemma_size_faithful(self.protocol_version.deep_view());
            <HandshakeServerAddress as Encodable>::lemma_size_faithful(self.server_address.deep_view());
            <u16 as Encodable>::lemma_size_faithful(self.server_port.deep_view());
            <NextState as Encodable>::lemma_size_faithful(self.next_state.deep_view());
        }
        let ghost w0 = <VarInt as Encodable>::spec_size(self.protocol_version.deep_view());
        let ghost w1 = <HandshakeServerAddress as Encodable>::spec_size(self.server_address.deep_view());
        let ghost w2 = <u16 as Encodable>::spec_size(self.server_port.deep_view());
        let ghost w3 = <NextState as Encodable>::spec_size(self.next_state.deep_view());
        let t0 = self.protocol_version.size();
        let t1 = add_size(t0, Ghost(w0), self.server_address.size(), Ghost(w1));
        let ghost c1 = add_size_spec(w0, w1);
        let t2 = add_size(t1, Ghost(c1), self.server_port.size(), Ghost(w2));
        let ghost c2 = add_size_spec(c1, w2);
        let t3 = add_size(t2, Ghost(c2), self.next_state.size(), Ghost(w3));
        t3
    }
}

impl Decodable for Handshake {
    open spec fn spec_decode(bytes: Seq<u8>) -> Result<(HandshakeView, nat), CodecError> {
        match decode_at::<VarInt>(bytes, 0) {
            Err(e) => Err(e),
            Ok((protocol_version, n0)) => match decode_at::<HandshakeServerAddress>(bytes, n0) {
                Err(e) => Err(e),
                Ok((server_address, n1)) => match decode_at::<u16>(bytes, n0 + n1) {
                    Err(e) => Err(e),
                    Ok((server_port, n2)) => match decode_at::<NextState>(bytes, n0 + n1 + n2) {
                        Err(e) => Err(e),
                        Ok((next_state, n3)) => Ok((HandshakeView { protocol_version, server_address, server_port, next_state }, n0 + n1 + n2 + n3)),
                    },
                },
            },
        }
    }

    proof fn lemma_decode_len(bytes: Seq<u8>) {
        lemma_decode_at::<VarInt>(bytes, 0);
        <VarInt as Decodable>::lemma_decode_len(bytes.subrange((0) as int, bytes.len() as int));
        if let Ok((protocol_version, n0)) = decode_at::<VarInt>(bytes, 0) {
            lemma_decode_at::<HandshakeServerAddress>(bytes, n0);
            <HandshakeServerAddress as Decodable>::lemma_decode_len(bytes.subrange((n0) as int, bytes.len() as int));
            if let Ok((server_address, n1)) = decode_at::<HandshakeServerAddress>(bytes, n0) {
                lemma_decode_at::<u16>(bytes, n0 + n1);
                <u16 as Decodable>::lemma_decode_len(bytes.subrange((n0 + n1) as int, bytes.len() as int));
                if let Ok((server_port, n2)) = decode_at::<u16>(bytes, n0 + n1) {
                    lemma_decode_at::<NextState>(bytes, n0 + n1 + n2);
                    <NextState as Decodable>::lemma_decode_len(bytes.subrange((n0 + n1 + n2) as int, bytes.len() as int));
                }
            }
        }
    }

    fn decode(reader: &mut ByteReader) -> (r: Result<Handshake, CodecError>) {
        let ghost r0 = *reader;
        let ghost rest0 = reader.rest();
        proof {
            ByteReader::lemma_rest_since(r0, *reader);
            lemma_decode_at::<VarInt>(rest0, (reader.pos() - r0.pos()) as nat);
        }
        let protocol_version = match <VarInt>::decode(reader) {
            Ok(v) => v,
            Err(e) => return Err(e),
        };
        proof {
            ByteReader::lemma_rest_since(r0, *reader);
            lemma_decode_at::<HandshakeServerAddress>(rest0, (reader.pos() - r0.pos()) as nat);
        }
        let server_address = match <HandshakeServerAddress>::decode(reader) {
            Ok(v) => v,
            Err(e) => return Err(e),
        };
        proof {
            ByteReader::lemma_rest_since(r0, *reader);
            lemma_decode_at::<u16>(rest0, (reader.pos() - r0.pos()) as nat);
        }
        let server_port = match <u16>::decode(reader) {
            Ok(v) => v,
            Err(e) => return Err(e),
        };
        proof {
            ByteReader::lemma_rest_since(r0, *reader);
            lemma_decode_at::<NextState>(rest0, (reader.pos() - r0.pos()) as nat);
        }
        let next_state = match <NextState>::decode(reader) {
            Ok(v) => v,
            Err(e) => return Err(e),
        };
        Ok(Handshake { protocol_version, server_address, server_port, next_state })
    }
}

impl Codec for Handshake {
    open spec fn valid(m: HandshakeView) -> bool {
        &&& <VarInt as Codec>::valid(m.protocol_version)
        &&& <VarInt as Codec>::delimited()
        &&& <HandshakeServerAddress as Codec>::valid(m.server_address)
        &&& <HandshakeServerAddress as Codec>::delimited()
        &&& <u16 as Codec>::valid(m.server_port)
        &&& <u16 as Codec>::delimited()
        &&& <NextState as Codec>::valid(m.next_state)
    }

    open spec fn delimited() -> bool {
        <NextState as Codec>::delimited()
    }

    proof fn lemma_round_trip(m: HandshakeView, rest: Seq<u8>) {
        let e0 = <VarInt as Encodable>::spec_encode(m.protocol_version)->Ok_0;
        let e1 = <HandshakeServerAddress as Encodable>::spec_encode(m.server_address)->Ok_0;
        let e2 = <u16 as Encodable>::spec_encode(m.server_port)->Ok_0;
        let e3 = <NextState as Encodable>::spec_encode(m.next_state)->Ok_0;
        let t3 = e3 + rest;
        let t2 = e2 + t3;
        let t1 = e1 + t2;
        let t0 = e0 + t1;
        assert(decode_at::<VarInt>(t0, (0) as nat) == Ok::<(<VarInt as DeepView>::V, nat), CodecError>((m.protocol_version, e0.len()))
            && <VarInt as Encodable>::spec_encode(m.protocol_version) == Ok::<Seq<u8>, CodecError>(e0)
            && decode_at::<HandshakeServerAddress>(t0, (e0.len()) as nat) == Ok::<(<HandshakeServerAddress as DeepView>::V, nat), CodecError>((m.server_address, e1.len()))
            && <HandshakeServerAddress as Encodable>::spec_encode(m.server_address) == Ok::<Seq<u8>, CodecError>(e1)
            && decode_at::<u16>(t0, (e0.len() + e1.len()) as nat) == Ok::<(<u16 as DeepView>::V, nat), CodecError>((m.server_port, e2.len()))
            && <u16 as Encodable>::spec_encode(m.server_port) == Ok::<Seq<u8>, CodecError>(e2)
            && decode_at::<NextState>(t0, (e0.len() + e1.len() + e2.len()) as nat) == Ok::<(<NextState as DeepView>::V, nat), CodecError>((m.next_state, e3.len()))
            && <NextState as Encodable>::spec_encode(m.next_state) == Ok::<Seq<u8>, CodecError>(e3)) by {
            lemma_subrange_all(t0);
            lemma_field_round_trip::<VarInt>(m.protocol_version, t0, (0) as nat, t1);
            lemma_field_round_trip::<HandshakeServerAddress>(m.server_address, t0, (e0.len()) as nat, t2);
            lemma_field_round_trip::<u16>(m.server_port, t0, (e0.len() + e1.len()) as nat, t3);
            lemma_field_round_trip::<NextState>(m.next_state, t0, (e0.len() + e1.len() + e2.len()) as nat, rest);
        }
        assert(e0 + e1 + e2 + e3 + rest == t0) by {
            lemma_concat_assoc(e0, e1, t2);
            lemma_concat_assoc(e0 + e1, e2, t3);
            lemma_concat_assoc(e0 + e1 + e2, e3, rest);
        }
        assert(Self::spec_encode(m) == Ok::<Seq<u8>, CodecError>(e0 + e1 + e2 + e3));
    }
}

} // verus!
