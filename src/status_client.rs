use vstd::prelude::*;

use crate::codec::{
    decode_at, lemma_decode_at, lemma_subrange_all, lemma_field_round_trip, Codec, Decodable,
    Encodable,
};
use crate::error::CodecError;
use crate::reader::ByteReader;
use crate::varnum::VarInt;
use crate::strings::BigString;

verus! {

/// The server status as JSON text.
pub struct StatusResponse {
    pub json_response: BigString,
}

/// The model of a `StatusResponse`: each field by its model.
pub struct StatusResponseView {
    pub json_response: Seq<char>,
}

impl DeepView for StatusResponse {
    type V = StatusResponseView;

    open spec fn deep_view(&self) -> StatusResponseView {
        StatusResponseView {
            json_response: self.json_response.deep_view(),
        }
    }
}

impl Encodable for StatusResponse {
    /// The fields in order, with no framing.
    open spec fn spec_encode(m: StatusResponseView) -> Result<Seq<u8>, CodecError> {
        <BigString as Encodable>::spec_encode(m.json_response)
    }

    /// The sum of the fields' sizes.
    open spec fn spec_size(m: StatusResponseView) -> Result<nat, CodecError> {
        <BigString as Encodable>::spec_size(m.json_response)
    }

    proof fn lemma_size_faithful(m: StatusResponseView) {
        <BigString as Encodable>::lemma_size_faithful(m.json_response);
    }

    fn encode(&self, out: &mut Vec<u8>) -> (r: Result<(), CodecError>) {
        self.json_response.encode(out)
    }

    fn size(&self) -> (r: Result<VarInt, CodecError>) {
        self.json_response.size()
    }
}

impl Decodable for StatusResponse {
    open spec fn spec_decode(bytes: Seq<u8>) -> Result<(StatusResponseView, nat), CodecError> {
        match decode_at::<BigString>(bytes, 0) {
            Err(e) => Err(e),
            Ok((json_response, n0)) => Ok((StatusResponseView { json_response }, n0)),
        }
    }

    proof fn lemma_decode_len(bytes: Seq<u8>) {
        lemma_decode_at::<BigString>(bytes, 0);
        <BigString as Decodable>::lemma_decode_len(bytes.subrange((0) as int, bytes.len() as int));
    }

    fn decode(reader: &mut ByteReader) -> (r: Result<StatusResponse, CodecError>) {
        let ghost r0 = *reader;
        let ghost rest0 = reader.rest();
        proof {
            ByteReader::lemma_rest_since(r0, *reader);
            lemma_decode_at::<BigString>(rest0, (reader.pos() - r0.pos()) as nat);
        }
        let json_response = match <BigString>::decode(reader) {
            Ok(v) => v,
            Err(e) => return Err(e),
        };
        Ok(StatusResponse { json_response })
    }
}

impl Codec for StatusResponse {
    open spec fn valid(m: StatusResponseView) -> bool {
        &&& <BigString as Codec>::valid(m.json_response)
    }

    open spec fn delimited() -> bool {
        <BigString as Codec>::delimited()
    }

    proof fn lemma_round_trip(m: StatusResponseView, rest: Seq<u8>) {
        let e0 = <BigString as Encodable>::spec_encode(m.json_response)->Ok_0;
        let t0 = e0 + rest;
        assert(decode_at::<BigString>(t0, (0) as nat) == Ok::<(<BigString as DeepView>::V, nat), CodecError>((m.json_response, e0.len()))
            && <BigString as Encodable>::spec_encode(m.json_response) == Ok::<Seq<u8>, CodecError>(e0)) by {
            lemma_subrange_all(t0);
            lemma_field_round_trip::<BigString>(m.json_response, t0, (0) as nat, rest);
        }
    }
}
/// Echoes the payload of a ping.
pub struct Pong {
    pub payload: i64,
}

/// The model of a `Pong`: each field by its model.
pub struct PongView {
    pub payload: i64,
}

impl DeepView for Pong {
    type V = PongView;

    open spec fn deep_view(&self) -> PongView {
        PongView {
            payload: self.payload.deep_view(),
        }
    }
}

impl Encodable for Pong {
    /// The fields in order, with no framing.
    open spec fn spec_encode(m: PongView) -> Result<Seq<u8>, CodecError> {
        <i64 as Encodable>::spec_encode(m.payload)
    }

    /// The sum of the fields' sizes.
    open spec fn spec_size(m: PongView) -> Result<nat, CodecError> {
        <i64 as Encodable>::spec_size(m.payload)
    }

    proof fn lemma_size_faithful(m: PongView) {
        <i64 as Encodable>::lemma_size_faithful(m.payload);
    }

    fn encode(&self, out: &mut Vec<u8>) -> (r: Result<(), CodecError>) {
        self.payload.encode(out)
    }

    fn size(&self) -> (r: Result<VarInt, CodecError>) {
        self.payload.size()
    }
}

impl Decodable for Pong {
    open spec fn spec_decode(bytes: Seq<u8>) -> Result<(PongView, nat), CodecError> {
        match decode_at::<i64>(bytes, 0) {
            Err(e) => Err(e),
            Ok((payload, n0)) => Ok((PongView { payload }, n0)),
        }
    }

    proof fn lemma_decode_len(bytes: Seq<u8>) {
        lemma_decode_at::<i64>(bytes, 0);
        <i64 as Decodable>::lemma_decode_len(bytes.subrange((0) as int, bytes.len() as int));
    }

    fn decode(reader: &mut ByteReader) -> (r: Result<Pong, CodecError>) {
        let ghost r0 = *reader;
        let ghost rest0 = reader.rest();
        proof {
            ByteReader::lemma_rest_since(r0, *reader);
            lemma_decode_at::<i64>(rest0, (reader.pos() - r0.pos()) as nat);
        }
        let payload = match <i64>::decode(reader) {
            Ok(v) => v,
            Err(e) => return Err(e),
        };
        Ok(Pong { payload })
    }
}

impl Codec for Pong {
    open spec fn valid(m: PongView) -> bool {
        &&& <i64 as Codec>::valid(m.payload)
    }

    open spec fn delimited() -> bool {
        <i64 as Codec>::delimited()
    }

    proof fn lemma_round_trip(m: PongView, rest: Seq<u8>) {
        let e0 = <i64 as Encodable>::spec_encode(m.payload)->Ok_0;
        let t0 = e0 + rest;
        assert(decode_at::<i64>(t0, (0) as nat) == Ok::<(<i64 as DeepView>::V, nat), CodecError>((m.payload, e0.len()))
            && <i64 as Encodable>::spec_encode(m.payload) == Ok::<Seq<u8>, CodecError>(e0)) by {
            lemma_subrange_all(t0);
            lemma_field_round_trip::<i64>(m.payload, t0, (0) as nat, rest);
        }
    }
}

} // verus!
