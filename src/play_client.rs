use vstd::prelude::*;

use crate::codec::{
    add_size, add_size_spec, lemma_then_size, decode_at, decode_if, lemma_concat_assoc,
    lemma_decode_at, lemma_subrange_all, lemma_decode_if, lemma_field_if_round_trip,
    lemma_field_round_trip, roll_back, then_encode, Codec, Decodable, Encodable,
};
use crate::error::CodecError;
use crate::reader::ByteReader;
use crate::varnum::VarInt;
use crate::base_types::{SlotData, SlotDataView};
use crate::primitives::{Double, Float};
use crate::scalars::{Angle, McUuid, NbtTag, Position};
use crate::strings::{BigString, ChatJson, Identifier, ObjectiveName, ResourcePackHash, ScoreName};
use crate::varnum::VarLong;

verus! {

/// The client-bound play message: spawn entity.
pub struct SpawnEntity {
    pub entity_id: VarInt,
    pub uuid: McUuid,
    pub entity_type: VarInt,
    pub x: Double,
    pub y: Double,
    pub z: Double,
    pub pitch: Angle,
    pub yaw: Angle,
    pub data: i32,
    pub velocity_x: i16,
    pub velocity_y: i16,
    pub velocity_z: i16,
}

/// The model of a `SpawnEntity`: each field by its model.
pub struct SpawnEntityView {
    pub entity_id: i32,
    pub uuid: u128,
    pub entity_type: i32,
    pub x: u64,
    pub y: u64,
    pub z: u64,
    pub pitch: u8,
    pub yaw: u8,
    pub data: i32,
    pub velocity_x: i16,
    pub velocity_y: i16,
    pub velocity_z: i16,
}

impl DeepView for SpawnEntity {
    type V = SpawnEntityView;

    open spec fn deep_view(&self) -> SpawnEntityView {
        SpawnEntityView {
            entity_id: self.entity_id.deep_view(),
            uuid: self.uuid.deep_view(),
            entity_type: self.entity_type.deep_view(),
            x: self.x.deep_view(),
            y: self.y.deep_view(),
            z: self.z.deep_view(),
            pitch: self.pitch.deep_view(),
            yaw: self.yaw.deep_view(),
            data: self.data.deep_view(),
            velocity_x: self.velocity_x.deep_view(),
            velocity_y: self.velocity_y.deep_view(),
            velocity_z: self.velocity_z.deep_view(),
        }
    }
}

impl Encodable for SpawnEntity {
    /// The fields in order, with no framing.
    open spec fn spec_encode(m: SpawnEntityView) -> Result<Seq<u8>, CodecError> {
        then_encode(then_encode(then_encode(then_encode(then_encode(then_encode(then_encode(then_encode(then_encode(then_encode(then_encode(<VarInt as Encodable>::spec_encode(m.entity_id), <McUuid as Encodable>::spec_encode(m.uuid)), <VarInt as Encodable>::spec_encode(m.entity_type)), <Double as Encodable>::spec_encode(m.x)), <Double as Encodable>::spec_encode(m.y)), <Double as Encodable>::spec_encode(m.z)), <Angle as Encodable>::spec_encode(m.pitch)), <Angle as Encodable>::spec_encode(m.yaw)), <i32 as Encodable>::spec_encode(m.data)), <i16 as Encodable>::spec_encode(m.velocity_x)), <i16 as Encodable>::spec_encode(m.velocity_y)), <i16 as Encodable>::spec_encode(m.velocity_z))
    }

    /// The sum of the fields' sizes.
    open spec fn spec_size(m: SpawnEntityView) -> Result<nat, CodecError> {
        add_size_spec(add_size_spec(add_size_spec(add_size_spec(add_size_spec(add_size_spec(add_size_spec(add_size_spec(add_size_spec(add_size_spec(add_size_spec(<VarInt as Encodable>::spec_size(m.entity_id), <McUuid as Encodable>::spec_size(m.uuid)), <VarInt as Encodable>::spec_size(m.entity_type)), <Double as Encodable>::spec_size(m.x)), <Double as Encodable>::spec_size(m.y)), <Double as Encodable>::spec_size(m.z)), <Angle as Encodable>::spec_size(m.pitch)), <Angle as Encodable>::spec_size(m.yaw)), <i32 as Encodable>::spec_size(m.data)), <i16 as Encodable>::spec_size(m.velocity_x)), <i16 as Encodable>::spec_size(m.velocity_y)), <i16 as Encodable>::spec_size(m.velocity_z))
    }

    #[verifier::spinoff_prover]
    #[verifier::rlimit(100)]
    proof fn lemma_size_faithful(m: SpawnEntityView) {
        <VarInt as Encodable>::lemma_size_faithful(m.entity_id);
        <McUuid as Encodable>::lemma_size_faithful(m.uuid);
        <VarInt as Encodable>::lemma_size_faithful(m.entity_type);
        <Double as Encodable>::lemma_size_faithful(m.x);
        <Double as Encodable>::lemma_size_faithful(m.y);
        <Double as Encodable>::lemma_size_faithful(m.z);
        <Angle as Encodable>::lemma_size_faithful(m.pitch);
        <Angle as Encodable>::lemma_size_faithful(m.yaw);
        <i32 as Encodable>::lemma_size_faithful(m.data);
        <i16 as Encodable>::lemma_size_faithful(m.velocity_x);
        <i16 as Encodable>::lemma_size_faithful(m.velocity_y);
        <i16 as Encodable>::lemma_size_faithful(m.velocity_z);
        lemma_then_size(<VarInt as Encodable>::spec_encode(m.entity_id), <VarInt as Encodable>::spec_size(m.entity_id), <McUuid as Encodable>::spec_encode(m.uuid), <McUuid as Encodable>::spec_size(m.uuid));
        lemma_then_size(then_encode(<VarInt as Encodable>::spec_encode(m.entity_id), <McUuid as Encodable>::spec_encode(m.uuid)), add_size_spec(<VarInt as Encodable>::spec_size(m.entity_id), <McUuid as Encodable>::spec_size(m.uuid)), <VarInt as Encodable>::spec_encode(m.entity_type), <VarInt as Encodable>::spec_size(m.entity_type));
        lemma_then_size(then_encode(then_encode(<VarInt as Encodable>::spec_encode(m.entity_id), <McUuid as Encodable>::spec_encode(m.uuid)), <VarInt as Encodable>::spec_encode(m.entity_type)), add_size_spec(add_size_spec(<VarInt as Encodable>::spec_size(m.entity_id), <McUuid as Encodable>::spec_size(m.uuid)), <VarInt as Encodable>::spec_size(m.entity_type)), <Double as Encodable>::spec_encode(m.x), <Double as Encodable>::spec_size(m.x));
        lemma_then_size(then_encode(then_encode(then_encode(<VarInt as Encodable>::spec_encode(m.entity_id), <McUuid as Encodable>::spec_encode(m.uuid)), <VarInt as Encodable>::spec_encode(m.entity_type)), <Double as Encodable>::spec_encode(m.x)), add_size_spec(add_size_spec(add_size_spec(<VarInt as Encodable>::spec_size(m.entity_id), <McUuid as Encodable>::spec_size(m.uuid)), <VarInt as Encodable>::spec_size(m.entity_type)), <Double as Encodable>::spec_size(m.x)), <Double as Encodable>::spec_encode(m.y), <Double as Encodable>::spec_size(m.y));
        lemma_then_size(then_encode(then_encode(then_encode(then_encode(<VarInt as Encodable>::spec_encode(m.entity_id), <McUuid as Encodable>::spec_encode(m.uuid)), <VarInt as Encodable>::spec_encode(m.entity_type)), <Double as Encodable>::spec_encode(m.x)), <Double as Encodable>::spec_encode(m.y)), add_size_spec(add_size_spec(add_size_spec(add_size_spec(<VarInt as Encodable>::spec_size(m.entity_id), <McUuid as Encodable>::spec_size(m.uuid)), <VarInt as Encodable>::spec_size(m.entity_type)), <Double as Encodable>::spec_size(m.x)), <Double as Encodable>::spec_size(m.y)), <Double as Encodable>::spec_encode(m.z), <Double as Encodable>::spec_size(m.z));
        lemma_then_size(then_encode(then_encode(then_encode(then_encode(then_encode(<VarInt as Encodable>::spec_encode(m.entity_id), <McUuid as Encodable>::spec_encode(m.uuid)), <VarInt as Encodable>::spec_encode(m.entity_type)), <Double as Encodable>::spec_encode(m.x)), <Double as Encodable>::spec_encode(m.y)), <Double as Encodable>::spec_encode(m.z)), add_size_spec(add_size_spec(add_size_spec(add_size_spec(add_size_spec(<VarInt as Encodable>::spec_size(m.entity_id), <McUuid as Encodable>::spec_size(m.uuid)), <VarInt as Encodable>::spec_size(m.entity_type)), <Double as Encodable>::spec_size(m.x)), <Double as Encodable>::spec_size(m.y)), <Double as Encodable>::spec_size(m.z)), <Angle as Encodable>::spec_encode(m.pitch), <Angle as Encodable>::spec_size(m.pitch));
        lemma_then_size(then_encode(then_encode(then_encode(then_encode(then_encode(then_encode(<VarInt as Encodable>::spec_encode(m.entity_id), <McUuid as Encodable>::spec_encode(m.uuid)), <VarInt as Encodable>::spec_encode(m.entity_type)), <Double as Encodable>::spec_encode(m.x)), <Double as Encodable>::spec_encode(m.y)), <Double as Encodable>::spec_encode(m.z)), <Angle as Encodable>::spec_encode(m.pitch)), add_size_spec(add_size_spec(add_size_spec(add_size_spec(add_size_spec(add_size_spec(<VarInt as Encodable>::spec_size(m.entity_id), <McUuid as Encodable>::spec_size(m.uuid)), <VarInt as Encodable>::spec_size(m.entity_type)), <Double as Encodable>::spec_size(m.x)), <Double as Encodable>::spec_size(m.y)), <Double as Encodable>::spec_size(m.z)), <Angle as Encodable>::spec_size(m.pitch)), <Angle as Encodable>::spec_encode(m.yaw), <Angle as Encodable>::spec_size(m.yaw));
        lemma_then_size(then_encode(then_encode(then_encode(then_encode(then_encode(then_encode(then_encode(<VarInt as Encodable>::spec_encode(m.entity_id), <McUuid as Encodable>::spec_encode(m.uuid)), <VarInt as Encodable>::spec_encode(m.entity_type)), <Double as Encodable>::spec_encode(m.x)), <Double as Encodable>::spec_encode(m.y)), <Double as Encodable>::spec_encode(m.z)), <Angle as Encodable>::spec_encode(m.pitch)), <Angle as Encodable>::spec_encode(m.yaw)), add_size_spec(add_size_spec(add_size_spec(add_size_spec(add_size_spec(add_size_spec(add_size_spec(<VarInt as Encodable>::spec_size(m.entity_id), <McUuid as Encodable>::spec_size(m.uuid)), <VarInt as Encodable>::spec_size(m.entity_type)), <Double as Encodable>::spec_size(m.x)), <Double as Encodable>::spec_size(m.y)), <Double as Encodable>::spec_size(m.z)), <Angle as Encodable>::spec_size(m.pitch)), <Angle as Encodable>::spec_size(m.yaw)), <i32 as Encodable>::spec_encode(m.data), <i32 as Encodable>::spec_size(m.data));
        lemma_then_size(then_encode(then_encode(then_encode(then_encode(then_encode(then_encode(then_encode(then_encode(<VarInt as Encodable>::spec_encode(m.entity_id), <McUuid as Encodable>::spec_encode(m.uuid)), <VarInt as Encodable>::spec_encode(m.entity_type)), <Double as Encodable>::spec_encode(m.x)), <Double as Encodable>::spec_encode(m.y)), <Double as Encodable>::spec_encode(m.z)), <Angle as Encodable>::spec_encode(m.pitch)), <Angle as Encodable>::spec_encode(m.yaw)), <i32 as Encodable>::spec_encode(m.data)), add_size_spec(add_size_spec(add_size_spec(add_size_spec(add_size_spec(add_size_spec(add_size_spec(add_size_spec(<VarInt as Encodable>::spec_size(m.entity_id), <McUuid as Encodable>::spec_size(m.uuid)), <VarInt as Encodable>::spec_size(m.entity_type)), <Double as Encodable>::spec_size(m.x)), <Double as Encodable>::spec_size(m.y)), <Double as Encodable>::spec_size(m.z)), <Angle as Encodable>::spec_size(m.pitch)), <Angle as Encodable>::spec_size(m.yaw)), <i32 as Encodable>::spec_size(m.data)), <i16 as Encodable>::spec_encode(m.velocity_x), <i16 as Encodable>::spec_size(m.velocity_x));
        lemma_then_size(then_encode(then_encode(then_encode(then_encode(then_encode(then_encode(then_encode(then_encode(then_encode(<VarInt as Encodable>::spec_encode(m.entity_id), <McUuid as Encodable>::spec_encode(m.uuid)), <VarInt as Encodable>::spec_encode(m.entity_type)), <Double as Encodable>::spec_encode(m.x)), <Double as Encodable>::spec_encode(m.y)), <Double as Encodable>::spec_encode(m.z)), <Angle as Encodable>::spec_encode(m.pitch)), <Angle as Encodable>::spec_encode(m.yaw)), <i32 as Encodable>::spec_encode(m.data)), <i16 as Encodable>::spec_encode(m.velocity_x)), add_size_spec(add_size_spec(add_size_spec(add_size_spec(add_size_spec(add_size_spec(add_size_spec(add_size_spec(add_size_spec(<VarInt as Encodable>::spec_size(m.entity_id), <McUuid as Encodable>::spec_size(m.uuid)), <VarInt as Encodable>::spec_size(m.entity_type)), <Double as Encodable>::spec_size(m.x)), <Double as Encodable>::spec_size(m.y)), <Double as Encodable>::spec_size(m.z)), <Angle as Encodable>::spec_size(m.pitch)), <Angle as Encodable>::spec_size(m.yaw)), <i32 as Encodable>::spec_size(m.data)), <i16 as Encodable>::spec_size(m.velocity_x)), <i16 as Encodable>::spec_encode(m.velocity_y), <i16 as Encodable>::spec_size(m.velocity_y));
        lemma_then_size(then_encode(then_encode(then_encode(then_encode(then_encode(then_encode(then_encode(then_encode(then_encode(then_encode(<VarInt as Encodable>::spec_encode(m.entity_id), <McUuid as Encodable>::spec_encode(m.uuid)), <VarInt as Encodable>::spec_encode(m.entity_type)), <Double as Encodable>::spec_encode(m.x)), <Double as Encodable>::spec_encode(m.y)), <Double as Encodable>::spec_encode(m.z)), <Angle as Encodable>::spec_encode(m.pitch)), <Angle as Encodable>::spec_encode(m.yaw)), <i32 as Encodable>::spec_encode(m.data)), <i16 as Encodable>::spec_encode(m.velocity_x)), <i16 as Encodable>::spec_encode(m.velocity_y)), add_size_spec(add_size_spec(add_size_spec(add_size_spec(add_size_spec(add_size_spec(add_size_spec(add_size_spec(add_size_spec(add_size_spec(<VarInt as Encodable>::spec_size(m.entity_id), <McUuid as Encodable>::spec_size(m.uuid)), <VarInt as Encodable>::spec_size(m.entity_type)), <Double as Encodable>::spec_size(m.x)), <Double as Encodable>::spec_size(m.y)), <Double as Encodable>::spec_size(m.z)), <Angle as Encodable>::spec_size(m.pitch)), <Angle as Encodable>::spec_size(m.yaw)), <i32 as Encodable>::spec_size(m.data)), <i16 as Encodable>::spec_size(m.velocity_x)), <i16 as Encodable>::spec_size(m.velocity_y)), <i16 as Encodable>::spec_encode(m.velocity_z), <i16 as Encodable>::spec_size(m.velocity_z));
    }

    #[verifier::spinoff_prover]
    #[verifier::rlimit(100)]
    fn encode(&self, out: &mut Vec<u8>) -> (r: Result<(), CodecError>) {
        let ghost o0 = out@;
        let start = out.len();
        let ghost e0 = <VarInt as Encodable>::spec_encode(self.entity_id.deep_view())->Ok_0;
        let ghost e1 = <McUuid as Encodable>::spec_encode(self.uuid.deep_view())->Ok_0;
        let ghost e2 = <VarInt as Encodable>::spec_encode(self.entity_type.deep_view())->Ok_0;
        let ghost e3 = <Double as Encodable>::spec_encode(self.x.deep_view())->Ok_0;
        let ghost e4 = <Double as Encodable>::spec_encode(self.y.deep_view())->Ok_0;
        let ghost e5 = <Double as Encodable>::spec_encode(self.z.deep_view())->Ok_0;
        let ghost e6 = <Angle as Encodable>::spec_encode(self.pitch.deep_view())->Ok_0;
        let ghost e7 = <Angle as Encodable>::spec_encode(self.yaw.deep_view())->Ok_0;
        let ghost e8 = <i32 as Encodable>::spec_encode(self.data.deep_view())->Ok_0;
        let ghost e9 = <i16 as Encodable>::spec_encode(self.velocity_x.deep_view())->Ok_0;
        let ghost e10 = <i16 as Encodable>::spec_encode(self.velocity_y.deep_view())->Ok_0;
        let ghost e11 = <i16 as Encodable>::spec_encode(self.velocity_z.deep_view())->Ok_0;
        match self.entity_id.encode(out) {
            Ok(_) => {},
            Err(e) => return Err(e),
        }
        match self.uuid.encode(out) {
            Ok(_) => {},
            Err(e) => {
                roll_back(out, Ghost(o0), Ghost(e0), start);
                return Err(e);
            },
        }
        proof {
            lemma_concat_assoc(o0, e0, e1);
        }
        match self.entity_type.encode(out) {
            Ok(_) => {},
            Err(e) => {
                roll_back(out, Ghost(o0), Ghost(e0 + e1), start);
                return Err(e);
            },
        }
        proof {
            lemma_concat_assoc(o0, e0 + e1, e2);
        }
        match self.x.encode(out) {
            Ok(_) => {},
            Err(e) => {
                roll_back(out, Ghost(o0), Ghost(e0 + e1 + e2), start);
                return Err(e);
            },
        }
        proof {
            lemma_concat_assoc(o0, e0 + e1 + e2, e3);
        }
        match self.y.encode(out) {
            Ok(_) => {},
            Err(e) => {
                roll_back(out, Ghost(o0), Ghost(e0 + e1 + e2 + e3), start);
                return Err(e);
            },
        }
        proof {
            lemma_concat_assoc(o0, e0 + e1 + e2 + e3, e4);
        }
        match self.z.encode(out) {
            Ok(_) => {},
            Err(e) => {
                roll_back(out, Ghost(o0), Ghost(e0 + e1 + e2 + e3 + e4), start);
                return Err(e);
            },
        }
        proof {
            lemma_concat_assoc(o0, e0 + e1 + e2 + e3 + e4, e5);
        }
        match self.pitch.encode(out) {
            Ok(_) => {},
            Err(e) => {
                roll_back(out, Ghost(o0), Ghost(e0 + e1 + e2 + e3 + e4 + e5), start);
                return Err(e);
            },
        }
        proof {
            lemma_concat_assoc(o0, e0 + e1 + e2 + e3 + e4 + e5, e6);
        }
        match self.yaw.encode(out) {
            Ok(_) => {},
            Err(e) => {
                roll_back(out, Ghost(o0), Ghost(e0 + e1 + e2 + e3 + e4 + e5 + e6), start);
                return Err(e);
            },
        }
        proof {
            lemma_concat_assoc(o0, e0 + e1 + e2 + e3 + e4 + e5 + e6, e7);
        }
        match self.data.encode(out) {
            Ok(_) => {},
            Err(e) => {
                roll_back(out, Ghost(o0), Ghost(e0 + e1 + e2 + e3 + e4 + e5 + e6 + e7), start);
                return Err(e);
            },
        }
        proof {
            lemma_concat_assoc(o0, e0 + e1 + e2 + e3 + e4 + e5 + e6 + e7, e8);
        }
        match self.velocity_x.encode(out) {
            Ok(_) => {},
            Err(e) => {
                roll_back(out, Ghost(o0), Ghost(e0 + e1 + e2 + e3 + e4 + e5 + e6 + e7 + e8), start);
                return Err(e);
            },
        }
        proof {
            lemma_concat_assoc(o0, e0 + e1 + e2 + e3 + e4 + e5 + e6 + e7 + e8, e9);
        }
        match self.velocity_y.encode(out) {
            Ok(_) => {},
            Err(e) => {
                roll_back(out, Ghost(o0), Ghost(e0 + e1 + e2 + e3 + e4 + e5 + e6 + e7 + e8 + e9), start);
                return Err(e);
            },
        }
        proof {
            lemma_concat_assoc(o0, e0 + e1 + e2 + e3 + e4 + e5 + e6 + e7 + e8 + e9, e10);
        }
        match self.velocity_z.encode(out) {
            Ok(_) => {},
            Err(e) => {
                roll_back(out, Ghost(o0), Ghost(e0 + e1 + e2 + e3 + e4 + e5 + e6 + e7 + e8 + e9 + e10), start);
                return Err(e);
            },
        }
        proof {
            lemma_concat_assoc(o0, e0 + e1 + e2 + e3 + e4 + e5 + e6 + e7 + e8 + e9 + e10, e11);
        }
        Ok(())
    }

    #[verifier::spinoff_prover]
    #[verifier::rlimit(100)]
    fn size(&self) -> (r: Result<VarInt, CodecError>) {
        proof {
            <VarInt as Encodable>::lemma_size_faithful(self.entity_id.deep_view());
            <McUuid as Encodable>::lemma_size_faithful(self.uuid.deep_view());
            <VarInt as Encodable>::lemma_size_faithful(self.entity_type.deep_view());
            <Double as Encodable>::lemma_size_faithful(self.x.deep_view());
            <Double as Encodable>::lemma_size_faithful(self.y.deep_view());
            <Double as Encodable>::lemma_size_faithful(self.z.deep_view());
            <Angle as Encodable>::lemma_size_faithful(self.pitch.deep_view());
            <Angle as Encodable>::lemma_size_faithful(self.yaw.deep_view());
            <i32 as Encodable>::lemma_size_faithful(self.data.deep_view());
            <i16 as Encodable>::lemma_size_faithful(self.velocity_x.deep_view());
            <i16 as Encodable>::lemma_size_faithful(self.velocity_y.deep_view());
            <i16 as Encodable>::lemma_size_faithful(self.velocity_z.deep_view());
        }
        let ghost w0 = <VarInt as Encodable>::spec_size(self.entity_id.deep_view());
        let ghost w1 = <McUuid as Encodable>::spec_size(self.uuid.deep_view());
        let ghost w2 = <VarInt as Encodable>::spec_size(self.entity_type.deep_view());
        let ghost w3 = <Double as Encodable>::spec_size(self.x.deep_view());
        let ghost w4 = <Double as Encodable>::spec_size(self.y.deep_view());
        let ghost w5 = <Double as Encodable>::spec_size(self.z.deep_view());
        let ghost w6 = <Angle as Encodable>::spec_size(self.pitch.deep_view());
        let ghost w7 = <Angle as Encodable>::spec_size(self.yaw.deep_view());
        let ghost w8 = <i32 as Encodable>::spec_size(self.data.deep_view());
        let ghost w9 = <i16 as Encodable>::spec_size(self.velocity_x.deep_view());
        let ghost w10 = <i16 as Encodable>::spec_size(self.velocity_y.deep_view());
        let ghost w11 = <i16 as Encodable>::spec_size(self.velocity_z.deep_view());
        let t0 = self.entity_id.size();
        let t1 = add_size(t0, Ghost(w0), self.uuid.size(), Ghost(w1));
        let ghost c1 = add_size_spec(w0, w1);
        let t2 = add_size(t1, Ghost(c1), self.entity_type.size(), Ghost(w2));
        let ghost c2 = add_size_spec(c1, w2);
        let t3 = add_size(t2, Ghost(c2), self.x.size(), Ghost(w3));
        let ghost c3 = add_size_spec(c2, w3);
        let t4 = add_size(t3, Ghost(c3), self.y.size(), Ghost(w4));
        let ghost c4 = add_size_spec(c3, w4);
        let t5 = add_size(t4, Ghost(c4), self.z.size(), Ghost(w5));
        let ghost c5 = add_size_spec(c4, w5);
        let t6 = add_size(t5, Ghost(c5), self.pitch.size(), Ghost(w6));
        let ghost c6 = add_size_spec(c5, w6);
        let t7 = add_size(t6, Ghost(c6), self.yaw.size(), Ghost(w7));
        let ghost c7 = add_size_spec(c6, w7);
        let t8 = add_size(t7, Ghost(c7), self.data.size(), Ghost(w8));
        let ghost c8 = add_size_spec(c7, w8);
        let t9 = add_size(t8, Ghost(c8), self.velocity_x.size(), Ghost(w9));
        let ghost c9 = add_size_spec(c8, w9);
        let t10 = add_size(t9, Ghost(c9), self.velocity_y.size(), Ghost(w10));
        let ghost c10 = add_size_spec(c9, w10);
        let t11 = add_size(t10, Ghost(c10), self.velocity_z.size(), Ghost(w11));
        t11
    }
}

impl Decodable for SpawnEntity {
    open spec fn spec_decode(bytes: Seq<u8>) -> Result<(SpawnEntityView, nat), CodecError> {
        match decode_at::<VarInt>(bytes, 0) {
            Err(e) => Err(e),
            Ok((entity_id, n0)) => match decode_at::<McUuid>(bytes, n0) {
                Err(e) => Err(e),
                Ok((uuid, n1)) => match decode_at::<VarInt>(bytes, n0 + n1) {
                    Err(e) => Err(e),
                    Ok((entity_type, n2)) => match decode_at::<Double>(bytes, n0 + n1 + n2) {
                        Err(e) => Err(e),
                        Ok((x, n3)) => match decode_at::<Double>(bytes, n0 + n1 + n2 + n3) {
                            Err(e) => Err(e),
                            Ok((y, n4)) => match decode_at::<Double>(bytes, n0 + n1 + n2 + n3 + n4) {
                                Err(e) => Err(e),
                                Ok((z, n5)) => match decode_at::<Angle>(bytes, n0 + n1 + n2 + n3 + n4 + n5) {
                                    Err(e) => Err(e),
                                    Ok((pitch, n6)) => match decode_at::<Angle>(bytes, n0 + n1 + n2 + n3 + n4 + n5 + n6) {
                                        Err(e) => Err(e),
                                        Ok((yaw, n7)) => match decode_at::<i32>(bytes, n0 + n1 + n2 + n3 + n4 + n5 + n6 + n7) {
                                            Err(e) => Err(e),
                                            Ok((data, n8)) => match decode_at::<i16>(bytes, n0 + n1 + n2 + n3 + n4 + n5 + n6 + n7 + n8) {
                                                Err(e) => Err(e),
                                                Ok((velocity_x, n9)) => match decode_at::<i16>(bytes, n0 + n1 + n2 + n3 + n4 + n5 + n6 + n7 + n8 + n9) {
                                                    Err(e) => Err(e),
                                                    Ok((velocity_y, n10)) => match decode_at::<i16>(bytes, n0 + n1 + n2 + n3 + n4 + n5 + n6 + n7 + n8 + n9 + n10) {
                                                        Err(e) => Err(e),
                                                        Ok((velocity_z, n11)) => Ok((SpawnEntityView { entity_id, uuid, entity_type, x, y, z, pitch, yaw, data, velocity_x, velocity_y, velocity_z }, n0 + n1 + n2 + n3 + n4 + n5 + n6 + n7 + n8 + n9 + n10 + n11)),
                                                    },
                                                },
                                            },
                                        },
                                    },
                                },
                            },
                        },
                    },
                },
            },
        }
    }

    proof fn lemma_decode_len(bytes: Seq<u8>) {
        lemma_decode_at::<VarInt>(bytes, 0);
        <VarInt as Decodable>::lemma_decode_len(bytes.subrange((0) as int, bytes.len() as int));
        if let Ok((entity_id, n0)) = decode_at::<VarInt>(bytes, 0) {
            lemma_decode_at::<McUuid>(bytes, n0);
            <McUuid as Decodable>::lemma_decode_len(bytes.subrange((n0) as int, bytes.len() as int));
            if let Ok((uuid, n1)) = decode_at::<McUuid>(bytes, n0) {
                lemma_decode_at::<VarInt>(bytes, n0 + n1);
                <VarInt as Decodable>::lemma_decode_len(bytes.subrange((n0 + n1) as int, bytes.len() as int));
                if let Ok((entity_type, n2)) = decode_at::<VarInt>(bytes, n0 + n1) {
                    lemma_decode_at::<Double>(bytes, n0 + n1 + n2);
                    <Double as Decodable>::lemma_decode_len(bytes.subrange((n0 + n1 + n2) as int, bytes.len() as int));
                    if let Ok((x, n3)) = decode_at::<Double>(bytes, n0 + n1 + n2) {
                        lemma_decode_at::<Double>(bytes, n0 + n1 + n2 + n3);
                        <Double as Decodable>::lemma_decode_len(bytes.subrange((n0 + n1 + n2 + n3) as int, bytes.len() as int));
                        if let Ok((y, n4)) = decode_at::<Double>(bytes, n0 + n1 + n2 + n3) {
                            lemma_decode_at::<Double>(bytes, n0 + n1 + n2 + n3 + n4);
                            <Double as Decodable>::lemma_decode_len(bytes.subrange((n0 + n1 + n2 + n3 + n4) as int, bytes.len() as int));
                            if let Ok((z, n5)) = decode_at::<Double>(bytes, n0 + n1 + n2 + n3 + n4) {
                                lemma_decode_at::<Angle>(bytes, n0 + n1 + n2 + n3 + n4 + n5);
                                <Angle as Decodable>::lemma_decode_len(bytes.subrange((n0 + n1 + n2 + n3 + n4 + n5) as int, bytes.len() as int));
                                if let Ok((pitch, n6)) = decode_at::<Angle>(bytes, n0 + n1 + n2 + n3 + n4 + n5) {
                                    lemma_decode_at::<Angle>(bytes, n0 + n1 + n2 + n3 + n4 + n5 + n6);
                                    <Angle as Decodable>::lemma_decode_len(bytes.subrange((n0 + n1 + n2 + n3 + n4 + n5 + n6) as int, bytes.len() as int));
                                    if let Ok((yaw, n7)) = decode_at::<Angle>(bytes, n0 + n1 + n2 + n3 + n4 + n5 + n6) {
                                        lemma_decode_at::<i32>(bytes, n0 + n1 + n2 + n3 + n4 + n5 + n6 + n7);
                                        <i32 as Decodable>::lemma_decode_len(bytes.subrange((n0 + n1 + n2 + n3 + n4 + n5 + n6 + n7) as int, bytes.len() as int));
                                        if let Ok((data, n8)) = decode_at::<i32>(bytes, n0 + n1 + n2 + n3 + n4 + n5 + n6 + n7) {
                                            lemma_decode_at::<i16>(bytes, n0 + n1 + n2 + n3 + n4 + n5 + n6 + n7 + n8);
                                            <i16 as Decodable>::lemma_decode_len(bytes.subrange((n0 + n1 + n2 + n3 + n4 + n5 + n6 + n7 + n8) as int, bytes.len() as int));
                                            if let Ok((velocity_x, n9)) = decode_at::<i16>(bytes, n0 + n1 + n2 + n3 + n4 + n5 + n6 + n7 + n8) {
                                                lemma_decode_at::<i16>(bytes, n0 + n1 + n2 + n3 + n4 + n5 + n6 + n7 + n8 + n9);
                                                <i16 as Decodable>::lemma_decode_len(bytes.subrange((n0 + n1 + n2 + n3 + n4 + n5 + n6 + n7 + n8 + n9) as int, bytes.len() as int));
                                                if let Ok((velocity_y, n10)) = decode_at::<i16>(bytes, n0 + n1 + n2 + n3 + n4 + n5 + n6 + n7 + n8 + n9) {
                                                    lemma_decode_at::<i16>(bytes, n0 + n1 + n2 + n3 + n4 + n5 + n6 + n7 + n8 + n9 + n10);
                                                    <i16 as Decodable>::lemma_decode_len(bytes.subrange((n0 + n1 + n2 + n3 + n4 + n5 + n6 + n7 + n8 + n9 + n10) as int, bytes.len() as int));
                                                }
                                            }
                                        }
                                    }
                                }
                            }
                        }
                    }
                }
            }
        }
    }

    #[verifier::spinoff_prover]
    #[verifier::rlimit(100)]
    fn decode(reader: &mut ByteReader) -> (r: Result<SpawnEntity, CodecError>) {
        let ghost r0 = *reader;
        let ghost rest0 = reader.rest();
        proof {
            ByteReader::lemma_rest_since(r0, *reader);
            lemma_decode_at::<VarInt>(rest0, (reader.pos() - r0.pos()) as nat);
        }
        let entity_id = match <VarInt>::decode(reader) {
            Ok(v) => v,
            Err(e) => return Err(e),
        };
        proof {
            ByteReader::lemma_rest_since(r0, *reader);
            lemma_decode_at::<McUuid>(rest0, (reader.pos() - r0.pos()) as nat);
        }
        let uuid = match <McUuid>::decode(reader) {
            Ok(v) => v,
            Err(e) => return Err(e),
        };
        proof {
            ByteReader::lemma_rest_since(r0, *reader);
            lemma_decode_at::<VarInt>(rest0, (reader.pos() - r0.pos()) as nat);
        }
        let entity_type = match <VarInt>::decode(reader) {
            Ok(v) => v,
            Err(e) => return Err(e),
        };
        proof {
            ByteReader::lemma_rest_since(r0, *reader);
            lemma_decode_at::<Double>(rest0, (reader.pos() - r0.pos()) as nat);
        }
        let x = match <Double>::decode(reader) {
            Ok(v) => v,
            Err(e) => return Err(e),
        };
        proof {
            ByteReader::lemma_rest_since(r0, *reader);
            lemma_decode_at::<Double>(rest0, (reader.pos() - r0.pos()) as nat);
        }
        let y = match <Double>::decode(reader) {
            Ok(v) => v,
            Err(e) => return Err(e),
        };
        proof {
            ByteReader::lemma_rest_since(r0, *reader);
            lemma_decode_at::<Double>(rest0, (reader.pos() - r0.pos()) as nat);
        }
        let z = match <Double>::decode(reader) {
            Ok(v) => v,
            Err(e) => return Err(e),
        };
        proof {
            ByteReader::lemma_rest_since(r0, *reader);
            lemma_decode_at::<Angle>(rest0, (reader.pos() - r0.pos()) as nat);
        }
        let pitch = match <Angle>::decode(reader) {
            Ok(v) => v,
            Err(e) => return Err(e),
        };
        proof {
            ByteReader::lemma_rest_since(r0, *reader);
            lemma_decode_at::<Angle>(rest0, (reader.pos() - r0.pos()) as nat);
        }
        let yaw = match <Angle>::decode(reader) {
            Ok(v) => v,
            Err(e) => return Err(e),
        };
        proof {
            ByteReader::lemma_rest_since(r0, *reader);
            lemma_decode_at::<i32>(rest0, (reader.pos() - r0.pos()) as nat);
        }
        let data = match <i32>::decode(reader) {
            Ok(v) => v,
            Err(e) => return Err(e),
        };
        proof {
            ByteReader::lemma_rest_since(r0, *reader);
            lemma_decode_at::<i16>(rest0, (reader.pos() - r0.pos()) as nat);
        }
        let velocity_x = match <i16>::decode(reader) {
            Ok(v) => v,
            Err(e) => return Err(e),
        };
        proof {
            ByteReader::lemma_rest_since(r0, *reader);
            lemma_decode_at::<i16>(rest0, (reader.pos() - r0.pos()) as nat);
        }
        let velocity_y = match <i16>::decode(reader) {
            Ok(v) => v,
            Err(e) => return Err(e),
        };
        proof {
            ByteReader::lemma_rest_since(r0, *reader);
            lemma_decode_at::<i16>(rest0, (reader.pos() - r0.pos()) as nat);
        }
        let velocity_z = match <i16>::decode(reader) {
            Ok(v) => v,
            Err(e) => return Err(e),
        };
        Ok(SpawnEntity { entity_id, uuid, entity_type, x, y, z, pitch, yaw, data, velocity_x, velocity_y, velocity_z })
    }
}

impl Codec for SpawnEntity {
    open spec fn valid(m: SpawnEntityView) -> bool {
        &&& <VarInt as Codec>::valid(m.entity_id)
        &&& <VarInt as Codec>::delimited()
        &&& <McUuid as Codec>::valid(m.uuid)
        &&& <McUuid as Codec>::delimited()
        &&& <VarInt as Codec>::valid(m.entity_type)
        &&& <VarInt as Codec>::delimited()
        &&& <Double as Codec>::valid(m.x)
        &&& <Double as Codec>::delimited()
        &&& <Double as Codec>::valid(m.y)
        &&& <Double as Codec>::delimited()
        &&& <Double as Codec>::valid(m.z)
        &&& <Double as Codec>::delimited()
        &&& <Angle as Codec>::valid(m.pitch)
        &&& <Angle as Codec>::delimited()
        &&& <Angle as Codec>::valid(m.yaw)
        &&& <Angle as Codec>::delimited()
        &&& <i32 as Codec>::valid(m.data)
        &&& <i32 as Codec>::delimited()
        &&& <i16 as Codec>::valid(m.velocity_x)
        &&& <i16 as Codec>::delimited()
        &&& <i16 as Codec>::valid(m.velocity_y)
        &&& <i16 as Codec>::delimited()
        &&& <i16 as Codec>::valid(m.velocity_z)
    }

    open spec fn delimited() -> bool {
        <i16 as Codec>::delimited()
    }

    #[verifier::spinoff_prover]
    #[verifier::rlimit(100)]
    proof fn lemma_round_trip(m: SpawnEntityView, rest: Seq<u8>) {
        let e0 = <VarInt as Encodable>::spec_encode(m.entity_id)->Ok_0;
        let e1 = <McUuid as Encodable>::spec_encode(m.uuid)->Ok_0;
        let e2 = <VarInt as Encodable>::spec_encode(m.entity_type)->Ok_0;
        let e3 = <Double as Encodable>::spec_encode(m.x)->Ok_0;
        let e4 = <Double as Encodable>::spec_encode(m.y)->Ok_0;
        let e5 = <Double as Encodable>::spec_encode(m.z)->Ok_0;
        let e6 = <Angle as Encodable>::spec_encode(m.pitch)->Ok_0;
        let e7 = <Angle as Encodable>::spec_encode(m.yaw)->Ok_0;
        let e8 = <i32 as Encodable>::spec_encode(m.data)->Ok_0;
        let e9 = <i16 as Encodable>::spec_encode(m.velocity_x)->Ok_0;
        let e10 = <i16 as Encodable>::spec_encode(m.velocity_y)->Ok_0;
        let e11 = <i16 as Encodable>::spec_encode(m.velocity_z)->Ok_0;
        let t11 = e11 + rest;
        let t10 = e10 + t11;
        let t9 = e9 + t10;
        let t8 = e8 + t9;
        let t7 = e7 + t8;
        let t6 = e6 + t7;
        let t5 = e5 + t6;
        let t4 = e4 + t5;
        let t3 = e3 + t4;
        let t2 = e2 + t3;
        let t1 = e1 + t2;
        let t0 = e0 + t1;
        assert(decode_at::<VarInt>(t0, (0) as nat) == Ok::<(<VarInt as DeepView>::V, nat), CodecError>((m.entity_id, e0.len()))
            && <VarInt as Encodable>::spec_encode(m.entity_id) == Ok::<Seq<u8>, CodecError>(e0)
            && decode_at::<McUuid>(t0, (e0.len()) as nat) == Ok::<(<McUuid as DeepView>::V, nat), CodecError>((m.uuid, e1.len()))
            && <McUuid as Encodable>::spec_encode(m.uuid) == Ok::<Seq<u8>, CodecError>(e1)
            && decode_at::<VarInt>(t0, (e0.len() + e1.len()) as nat) == Ok::<(<VarInt as DeepView>::V, nat), CodecError>((m.entity_type, e2.len()))
            && <VarInt as Encodable>::spec_encode(m.entity_type) == Ok::<Seq<u8>, CodecError>(e2)
            && decode_at::<Double>(t0, (e0.len() + e1.len() + e2.len()) as nat) == Ok::<(<Double as DeepView>::V, nat), CodecError>((m.x, e3.len()))
            && <Double as Encodable>::spec_encode(m.x) == Ok::<Seq<u8>, CodecError>(e3)
            && decode_at::<Double>(t0, (e0.len() + e1.len() + e2.len() + e3.len()) as nat) == Ok::<(<Double as DeepView>::V, nat), CodecError>((m.y, e4.len()))
            && <Double as Encodable>::spec_encode(m.y) == Ok::<Seq<u8>, CodecError>(e4)
            && decode_at::<Double>(t0, (e0.len() + e1.len() + e2.len() + e3.len() + e4.len()) as nat) == Ok::<(<Double as DeepView>::V, nat), CodecError>((m.z, e5.len()))
            && <Double as Encodable>::spec_encode(m.z) == Ok::<Seq<u8>, CodecError>(e5)
            && decode_at::<Angle>(t0, (e0.len() + e1.len() + e2.len() + e3.len() + e4.len() + e5.len()) as nat) == Ok::<(<Angle as DeepView>::V, nat), CodecError>((m.pitch, e6.len()))
            && <Angle as Encodable>::spec_encode(m.pitch) == Ok::<Seq<u8>, CodecError>(e6)
            && decode_at::<Angle>(t0, (e0.len() + e1.len() + e2.len() + e3.len() + e4.len() + e5.len() + e6.len()) as nat) == Ok::<(<Angle as DeepView>::V, nat), CodecError>((m.yaw, e7.len()))
            && <Angle as Encodable>::spec_encode(m.yaw) == Ok::<Seq<u8>, CodecError>(e7)
            && decode_at::<i32>(t0, (e0.len() + e1.len() + e2.len() + e3.len() + e4.len() + e5.len() + e6.len() + e7.len()) as nat) == Ok::<(<i32 as DeepView>::V, nat), CodecError>((m.data, e8.len()))
            && <i32 as Encodable>::spec_encode(m.data) == Ok::<Seq<u8>, CodecError>(e8)
            && decode_at::<i16>(t0, (e0.len() + e1.len() + e2.len() + e3.len() + e4.len() + e5.len() + e6.len() + e7.len() + e8.len()) as nat) == Ok::<(<i16 as DeepView>::V, nat), CodecError>((m.velocity_x, e9.len()))
            && <i16 as Encodable>::spec_encode(m.velocity_x) == Ok::<Seq<u8>, CodecError>(e9)
            && decode_at::<i16>(t0, (e0.len() + e1.len() + e2.len() + e3.len() + e4.len() + e5.len() + e6.len() + e7.len() + e8.len() + e9.len()) as nat) == Ok::<(<i16 as DeepView>::V, nat), CodecError>((m.velocity_y, e10.len()))
            && <i16 as Encodable>::spec_encode(m.velocity_y) == Ok::<Seq<u8>, CodecError>(e10)
            && decode_at::<i16>(t0, (e0.len() + e1.len() + e2.len() + e3.len() + e4.len() + e5.len() + e6.len() + e7.len() + e8.len() + e9.len() + e10.len()) as nat) == Ok::<(<i16 as DeepView>::V, nat), CodecError>((m.velocity_z, e11.len()))
            && <i16 as Encodable>::spec_encode(m.velocity_z) == Ok::<Seq<u8>, CodecError>(e11)) by {
            lemma_subrange_all(t0);
            lemma_field_round_trip::<VarInt>(m.entity_id, t0, (0) as nat, t1);
            lemma_field_round_trip::<McUuid>(m.uuid, t0, (e0.len()) as nat, t2);
            lemma_field_round_trip::<VarInt>(m.entity_type, t0, (e0.len() + e1.len()) as nat, t3);
            lemma_field_round_trip::<Double>(m.x, t0, (e0.len() + e1.len() + e2.len()) as nat, t4);
            lemma_field_round_trip::<Double>(m.y, t0, (e0.len() + e1.len() + e2.len() + e3.len()) as nat, t5);
            lemma_field_round_trip::<Double>(m.z, t0, (e0.len() + e1.len() + e2.len() + e3.len() + e4.len()) as nat, t6);
            lemma_field_round_trip::<Angle>(m.pitch, t0, (e0.len() + e1.len() + e2.len() + e3.len() + e4.len() + e5.len()) as nat, t7);
            lemma_field_round_trip::<Angle>(m.yaw, t0, (e0.len() + e1.len() + e2.len() + e3.len() + e4.len() + e5.len() + e6.len()) as nat, t8);
            lemma_field_round_trip::<i32>(m.data, t0, (e0.len() + e1.len() + e2.len() + e3.len() + e4.len() + e5.len() + e6.len() + e7.len()) as nat, t9);
            lemma_field_round_trip::<i16>(m.velocity_x, t0, (e0.len() + e1.len() + e2.len() + e3.len() + e4.len() + e5.len() + e6.len() + e7.len() + e8.len()) as nat, t10);
            lemma_field_round_trip::<i16>(m.velocity_y, t0, (e0.len() + e1.len() + e2.len() + e3.len() + e4.len() + e5.len() + e6.len() + e7.len() + e8.len() + e9.len()) as nat, t11);
            lemma_field_round_trip::<i16>(m.velocity_z, t0, (e0.len() + e1.len() + e2.len() + e3.len() + e4.len() + e5.len() + e6.len() + e7.len() + e8.len() + e9.len() + e10.len()) as nat, rest);
        }
        assert(e0 + e1 + e2 + e3 + e4 + e5 + e6 + e7 + e8 + e9 + e10 + e11 + rest == t0) by {
            lemma_concat_assoc(e0, e1, t2);
            lemma_concat_assoc(e0 + e1, e2, t3);
            lemma_concat_assoc(e0 + e1 + e2, e3, t4);
            lemma_concat_assoc(e0 + e1 + e2 + e3, e4, t5);
            lemma_concat_assoc(e0 + e1 + e2 + e3 + e4, e5, t6);
            lemma_concat_assoc(e0 + e1 + e2 + e3 + e4 + e5, e6, t7);
            lemma_concat_assoc(e0 + e1 + e2 + e3 + e4 + e5 + e6, e7, t8);
            lemma_concat_assoc(e0 + e1 + e2 + e3 + e4 + e5 + e6 + e7, e8, t9);
            lemma_concat_assoc(e0 + e1 + e2 + e3 + e4 + e5 + e6 + e7 + e8, e9, t10);
            lemma_concat_assoc(e0 + e1 + e2 + e3 + e4 + e5 + e6 + e7 + e8 + e9, e10, t11);
            lemma_concat_assoc(e0 + e1 + e2 + e3 + e4 + e5 + e6 + e7 + e8 + e9 + e10, e11, rest);
        }
        assert(Self::spec_encode(m) == Ok::<Seq<u8>, CodecError>(e0 + e1 + e2 + e3 + e4 + e5 + e6 + e7 + e8 + e9 + e10 + e11));
    }
}
/// The client-bound play message: spawn experience orb.
pub struct SpawnExperienceOrb {
    pub entity_id: VarInt,
    pub x: Double,
    pub y: Double,
    pub z: Double,
    pub count: i16,
}

/// The model of a `SpawnExperienceOrb`: each field by its model.
pub struct SpawnExperienceOrbView {
    pub entity_id: i32,
    pub x: u64,
    pub y: u64,
    pub z: u64,
    pub count: i16,
}

impl DeepView for SpawnExperienceOrb {
    type V = SpawnExperienceOrbView;

    open spec fn deep_view(&self) -> SpawnExperienceOrbView {
        SpawnExperienceOrbView {
            entity_id: self.entity_id.deep_view(),
            x: self.x.deep_view(),
            y: self.y.deep_view(),
            z: self.z.deep_view(),
            count: self.count.deep_view(),
        }
    }
}

impl Encodable for SpawnExperienceOrb {
    /// The fields in order, with no framing.
    open spec fn spec_encode(m: SpawnExperienceOrbView) -> Result<Seq<u8>, CodecError> {
        then_encode(then_encode(then_encode(then_encode(<VarInt as Encodable>::spec_encode(m.entity_id), <Double as Encodable>::spec_encode(m.x)), <Double as Encodable>::spec_encode(m.y)), <Double as Encodable>::spec_encode(m.z)), <i16 as Encodable>::spec_encode(m.count))
    }

    /// The sum of the fields' sizes.
    open spec fn spec_size(m: SpawnExperienceOrbView) -> Result<nat, CodecError> {
        add_size_spec(add_size_spec(add_size_spec(add_size_spec(<VarInt as Encodable>::spec_size(m.entity_id), <Double as Encodable>::spec_size(m.x)), <Double as Encodable>::spec_size(m.y)), <Double as Encodable>::spec_size(m.z)), <i16 as Encodable>::spec_size(m.count))
    }

    proof fn lemma_size_faithful(m: SpawnExperienceOrbView) {
        <VarInt as Encodable>::lemma_size_faithful(m.entity_id);
        <Double as Encodable>::lemma_size_faithful(m.x);
        <Double as Encodable>::lemma_size_faithful(m.y);
        <Double as Encodable>::lemma_size_faithful(m.z);
        <i16 as Encodable>::lemma_size_faithful(m.count);
        lemma_then_size(<VarInt as Encodable>::spec_encode(m.entity_id), <VarInt as Encodable>::spec_size(m.entity_id), <Double as Encodable>::spec_encode(m.x), <Double as Encodable>::spec_size(m.x));
        lemma_then_size(then_encode(<VarInt as Encodable>::spec_encode(m.entity_id), <Double as Encodable>::spec_encode(m.x)), add_size_spec(<VarInt as Encodable>::spec_size(m.entity_id), <Double as Encodable>::spec_size(m.x)), <Double as Encodable>::spec_encode(m.y), <Double as Encodable>::spec_size(m.y));
        lemma_then_size(then_encode(then_encode(<VarInt as Encodable>::spec_encode(m.entity_id), <Double as Encodable>::spec_encode(m.x)), <Double as Encodable>::spec_encode(m.y)), add_size_spec(add_size_spec(<VarInt as Encodable>::spec_size(m.entity_id), <Double as Encodable>::spec_size(m.x)), <Double as Encodable>::spec_size(m.y)), <Double as Encodable>::spec_encode(m.z), <Double as Encodable>::spec_size(m.z));
        lemma_then_size(then_encode(then_encode(then_encode(<VarInt as Encodable>::spec_encode(m.entity_id), <Double as Encodable>::spec_encode(m.x)), <Double as Encodable>::spec_encode(m.y)), <Double as Encodable>::spec_encode(m.z)), add_size_spec(add_size_spec(add_size_spec(<VarInt as Encodable>::spec_size(m.entity_id), <Double as Encodable>::spec_size(m.x)), <Double as Encodable>::spec_size(m.y)), <Double as Encodable>::spec_size(m.z)), <i16 as Encodable>::spec_encode(m.count), <i16 as Encodable>::spec_size(m.count));
    }

    fn encode(&self, out: &mut Vec<u8>) -> (r: Result<(), CodecError>) {
        let ghost o0 = out@;
        let start = out.len();
        let ghost e0 = <VarInt as Encodable>::spec_encode(self.entity_id.deep_view())->Ok_0;
        let ghost e1 = <Double as Encodable>::spec_encode(self.x.deep_view())->Ok_0;
        let ghost e2 = <Double as Encodable>::spec_encode(self.y.deep_view())->Ok_0;
        let ghost e3 = <Double as Encodable>::spec_encode(self.z.deep_view())->Ok_0;
        let ghost e4 = <i16 as Encodable>::spec_encode(self.count.deep_view())->Ok_0;
        match self.entity_id.encode(out) {
            Ok(_) => {},
            Err(e) => return Err(e),
        }
        match self.x.encode(out) {
            Ok(_) => {},
            Err(e) => {
                roll_back(out, Ghost(o0), Ghost(e0), start);
                return Err(e);
            },
        }
        proof {
            lemma_concat_assoc(o0, e0, e1);
        }
        match self.y.encode(out) {
            Ok(_) => {},
            Err(e) => {
                roll_back(out, Ghost(o0), Ghost(e0 + e1), start);
                return Err(e);
            },
        }
        proof {
            lemma_concat_assoc(o0, e0 + e1, e2);
        }
        match self.z.encode(out) {
            Ok(_) => {},
            Err(e) => {
                roll_back(out, Ghost(o0), Ghost(e0 + e1 + e2), start);
                return Err(e);
            },
        }
        proof {
            lemma_concat_assoc(o0, e0 + e1 + e2, e3);
        }
        match self.count.encode(out) {
            Ok(_) => {},
            Err(e) => {
                roll_back(out, Ghost(o0), Ghost(e0 + e1 + e2 + e3), start);
                return Err(e);
            },
        }
        proof {
            lemma_concat_assoc(o0, e0 + e1 + e2 + e3, e4);
        }
        Ok(())
    }

    fn size(&self) -> (r: Result<VarInt, CodecError>) {
        proof {
            <VarInt as Encodable>::lemma_size_faithful(self.entity_id.deep_view());
            <Double as Encodable>::lemma_size_faithful(self.x.deep_view());
            <Double as Encodable>::lemma_size_faithful(self.y.deep_view());
            <Double as Encodable>::lemma_size_faithful(self.z.deep_view());
            <i16 as Encodable>::lemma_size_faithful(self.count.deep_view());
        }
        let ghost w0 = <VarInt as Encodable>::spec_size(self.entity_id.deep_view());
        let ghost w1 = <Double as Encodable>::spec_size(self.x.deep_view());
        let ghost w2 = <Double as Encodable>::spec_size(self.y.deep_view());
        let ghost w3 = <Double as Encodable>::spec_size(self.z.deep_view());
        let ghost w4 = <i16 as Encodable>::spec_size(self.count.deep_view());
        let t0 = self.entity_id.size();
        let t1 = add_size(t0, Ghost(w0), self.x.size(), Ghost(w1));
        let ghost c1 = add_size_spec(w0, w1);
        let t2 = add_size(t1, Ghost(c1), self.y.size(), Ghost(w2));
        let ghost c2 = add_size_spec(c1, w2);
        let t3 = add_size(t2, Ghost(c2), self.z.size(), Ghost(w3));
        let ghost c3 = add_size_spec(c2, w3);
        let t4 = add_size(t3, Ghost(c3), self.count.size(), Ghost(w4));
        t4
    }
}

impl Decodable for SpawnExperienceOrb {
    open spec fn spec_decode(bytes: Seq<u8>) -> Result<(SpawnExperienceOrbView, nat), CodecError> {
        match decode_at::<VarInt>(bytes, 0) {
            Err(e) => Err(e),
            Ok((entity_id, n0)) => match decode_at::<Double>(bytes, n0) {
                Err(e) => Err(e),
                Ok((x, n1)) => match decode_at::<Double>(bytes, n0 + n1) {
                    Err(e) => Err(e),
                    Ok((y, n2)) => match decode_at::<Double>(bytes, n0 + n1 + n2) {
                        Err(e) => Err(e),
                        Ok((z, n3)) => match decode_at::<i16>(bytes, n0 + n1 + n2 + n3) {
                            Err(e) => Err(e),
                            Ok((count, n4)) => Ok((SpawnExperienceOrbView { entity_id, x, y, z, count }, n0 + n1 + n2 + n3 + n4)),
                        },
                    },
                },
            },
        }
    }

    proof fn lemma_decode_len(bytes: Seq<u8>) {
        lemma_decode_at::<VarInt>(bytes, 0);
        <VarInt as Decodable>::lemma_decode_len(bytes.subrange((0) as int, bytes.len() as int));
        if let Ok((entity_id, n0)) = decode_at::<VarInt>(bytes, 0) {
            lemma_decode_at::<Double>(bytes, n0);
            <Double as Decodable>::lemma_decode_len(bytes.subrange((n0) as int, bytes.len() as int));
            if let Ok((x, n1)) = decode_at::<Double>(bytes, n0) {
                lemma_decode_at::<Double>(bytes, n0 + n1);
                <Double as Decodable>::lemma_decode_len(bytes.subrange((n0 + n1) as int, bytes.len() as int));
                if let Ok((y, n2)) = decode_at::<Double>(bytes, n0 + n1) {
                    lemma_decode_at::<Double>(bytes, n0 + n1 + n2);
                    <Double as Decodable>::lemma_decode_len(bytes.subrange((n0 + n1 + n2) as int, bytes.len() as int));
                    if let Ok((z, n3)) = decode_at::<Double>(bytes, n0 + n1 + n2) {
                        lemma_decode_at::<i16>(bytes, n0 + n1 + n2 + n3);
                        <i16 as Decodable>::lemma_decode_len(bytes.subrange((n0 + n1 + n2 + n3) as int, bytes.len() as int));
                    }
                }
            }
        }
    }

    fn decode(reader: &mut ByteReader) -> (r: Result<SpawnExperienceOrb, CodecError>) {
        let ghost r0 = *reader;
        let ghost rest0 = reader.rest();
        proof {
            ByteReader::lemma_rest_since(r0, *reader);
            lemma_decode_at::<VarInt>(rest0, (reader.pos() - r0.pos()) as nat);
        }
        let entity_id = match <VarInt>::decode(reader) {
            Ok(v) => v,
            Err(e) => return Err(e),
        };
        proof {
            ByteReader::lemma_rest_since(r0, *reader);
            lemma_decode_at::<Double>(rest0, (reader.pos() - r0.pos()) as nat);
        }
        let x = match <Double>::decode(reader) {
            Ok(v) => v,
            Err(e) => return Err(e),
        };
        proof {
            ByteReader::lemma_rest_since(r0, *reader);
            lemma_decode_at::<Double>(rest0, (reader.pos() - r0.pos()) as nat);
        }
        let y = match <Double>::decode(reader) {
            Ok(v) => v,
            Err(e) => return Err(e),
        };
        proof {
            ByteReader::lemma_rest_since(r0, *reader);
            lemma_decode_at::<Double>(rest0, (reader.pos() - r0.pos()) as nat);
        }
        let z = match <Double>::decode(reader) {
            Ok(v) => v,
            Err(e) => return Err(e),
        };
        proof {
            ByteReader::lemma_rest_since(r0, *reader);
            lemma_decode_at::<i16>(rest0, (reader.pos() - r0.pos()) as nat);
        }
        let count = match <i16>::decode(reader) {
            Ok(v) => v,
            Err(e) => return Err(e),
        };
        Ok(SpawnExperienceOrb { entity_id, x, y, z, count })
    }
}

impl Codec for SpawnExperienceOrb {
    open spec fn valid(m: SpawnExperienceOrbView) -> bool {
        &&& <VarInt as Codec>::valid(m.entity_id)
        &&& <VarInt as Codec>::delimited()
        &&& <Double as Codec>::valid(m.x)
        &&& <Double as Codec>::delimited()
        &&& <Double as Codec>::valid(m.y)
        &&& <Double as Codec>::delimited()
        &&& <Double as Codec>::valid(m.z)
        &&& <Double as Codec>::delimited()
        &&& <i16 as Codec>::valid(m.count)
    }

    open spec fn delimited() -> bool {
        <i16 as Codec>::delimited()
    }

    proof fn lemma_round_trip(m: SpawnExperienceOrbView, rest: Seq<u8>) {
        let e0 = <VarInt as Encodable>::spec_encode(m.entity_id)->Ok_0;
        let e1 = <Double as Encodable>::spec_encode(m.x)->Ok_0;
        let e2 = <Double as Encodable>::spec_encode(m.y)->Ok_0;
        let e3 = <Double as Encodable>::spec_encode(m.z)->Ok_0;
        let e4 = <i16 as Encodable>::spec_encode(m.count)->Ok_0;
        let t4 = e4 + rest;
        let t3 = e3 + t4;
        let t2 = e2 + t3;
        let t1 = e1 + t2;
        let t0 = e0 + t1;
        assert(decode_at::<VarInt>(t0, (0) as nat) == Ok::<(<VarInt as DeepView>::V, nat), CodecError>((m.entity_id, e0.len()))
            && <VarInt as Encodable>::spec_encode(m.entity_id) == Ok::<Seq<u8>, CodecError>(e0)
            && decode_at::<Double>(t0, (e0.len()) as nat) == Ok::<(<Double as DeepView>::V, nat), CodecError>((m.x, e1.len()))
            && <Double as Encodable>::spec_encode(m.x) == Ok::<Seq<u8>, CodecError>(e1)
            && decode_at::<Double>(t0, (e0.len() + e1.len()) as nat) == Ok::<(<Double as DeepView>::V, nat), CodecError>((m.y, e2.len()))
            && <Double as Encodable>::spec_encode(m.y) == Ok::<Seq<u8>, CodecError>(e2)
            && decode_at::<Double>(t0, (e0.len() + e1.len() + e2.len()) as nat) == Ok::<(<Double as DeepView>::V, nat), CodecError>((m.z, e3.len()))
            && <Double as Encodable>::spec_encode(m.z) == Ok::<Seq<u8>, CodecError>(e3)
            && decode_at::<i16>(t0, (e0.len() + e1.len() + e2.len() + e3.len()) as nat) == Ok::<(<i16 as DeepView>::V, nat), CodecError>((m.count, e4.len()))
            && <i16 as Encodable>::spec_encode(m.count) == Ok::<Seq<u8>, CodecError>(e4)) by {
            lemma_subrange_all(t0);
            lemma_field_round_trip::<VarInt>(m.entity_id, t0, (0) as nat, t1);
            lemma_field_round_trip::<Double>(m.x, t0, (e0.len()) as nat, t2);
            lemma_field_round_trip::<Double>(m.y, t0, (e0.len() + e1.len()) as nat, t3);
            lemma_field_round_trip::<Double>(m.z, t0, (e0.len() + e1.len() + e2.len()) as nat, t4);
            lemma_field_round_trip::<i16>(m.count, t0, (e0.len() + e1.len() + e2.len() + e3.len()) as nat, rest);
        }
        assert(e0 + e1 + e2 + e3 + e4 + rest == t0) by {
            lemma_concat_assoc(e0, e1, t2);
            lemma_concat_assoc(e0 + e1, e2, t3);
            lemma_concat_assoc(e0 + e1 + e2, e3, t4);
            lemma_concat_assoc(e0 + e1 + e2 + e3, e4, rest);
        }
        assert(Self::spec_encode(m) == Ok::<Seq<u8>, CodecError>(e0 + e1 + e2 + e3 + e4));
    }
}
/// The client-bound play message: spawn living entity.
pub struct SpawnLivingEntity {
    pub entity_id: VarInt,
    pub uuid: McUuid,
    pub entity_type: VarInt,
    pub x: Double,
    pub y: Double,
    pub z: Double,
    pub yaw: Angle,
    pub pitch: Angle,
    pub head_pitch: Angle,
    pub velocity_x: i16,
    pub velocity_y: i16,
    pub velocity_z: i16,
}

/// The model of a `SpawnLivingEntity`: each field by its model.
pub struct SpawnLivingEntityView {
    pub entity_id: i32,
    pub uuid: u128,
    pub entity_type: i32,
    pub x: u64,
    pub y: u64,
    pub z: u64,
    pub yaw: u8,
    pub pitch: u8,
    pub head_pitch: u8,
    pub velocity_x: i16,
    pub velocity_y: i16,
    pub velocity_z: i16,
}

impl DeepView for SpawnLivingEntity {
    type V = SpawnLivingEntityView;

    open spec fn deep_view(&self) -> SpawnLivingEntityView {
        SpawnLivingEntityView {
            entity_id: self.entity_id.deep_view(),
            uuid: self.uuid.deep_view(),
            entity_type: self.entity_type.deep_view(),
            x: self.x.deep_view(),
            y: self.y.deep_view(),
            z: self.z.deep_view(),
            yaw: self.yaw.deep_view(),
            pitch: self.pitch.deep_view(),
            head_pitch: self.head_pitch.deep_view(),
            velocity_x: self.velocity_x.deep_view(),
            velocity_y: self.velocity_y.deep_view(),
            velocity_z: self.velocity_z.deep_view(),
        }
    }
}

impl Encodable for SpawnLivingEntity {
    /// The fields in order, with no framing.
    open spec fn spec_encode(m: SpawnLivingEntityView) -> Result<Seq<u8>, CodecError> {
        then_encode(then_encode(then_encode(then_encode(then_encode(then_encode(then_encode(then_encode(then_encode(then_encode(then_encode(<VarInt as Encodable>::spec_encode(m.entity_id), <McUuid as Encodable>::spec_encode(m.uuid)), <VarInt as Encodable>::spec_encode(m.entity_type)), <Double as Encodable>::spec_encode(m.x)), <Double as Encodable>::spec_encode(m.y)), <Double as Encodable>::spec_encode(m.z)), <Angle as Encodable>::spec_encode(m.yaw)), <Angle as Encodable>::spec_encode(m.pitch)), <Angle as Encodable>::spec_encode(m.head_pitch)), <i16 as Encodable>::spec_encode(m.velocity_x)), <i16 as Encodable>::spec_encode(m.velocity_y)), <i16 as Encodable>::spec_encode(m.velocity_z))
    }

    /// The sum of the fields' sizes.
    open spec fn spec_size(m: SpawnLivingEntityView) -> Result<nat, CodecError> {
        add_size_spec(add_size_spec(add_size_spec(add_size_spec(add_size_spec(add_size_spec(add_size_spec(add_size_spec(add_size_spec(add_size_spec(add_size_spec(<VarInt as Encodable>::spec_size(m.entity_id), <McUuid as Encodable>::spec_size(m.uuid)), <VarInt as Encodable>::spec_size(m.entity_type)), <Double as Encodable>::spec_size(m.x)), <Double as Encodable>::spec_size(m.y)), <Double as Encodable>::spec_size(m.z)), <Angle as Encodable>::spec_size(m.yaw)), <Angle as Encodable>::spec_size(m.pitch)), <Angle as Encodable>::spec_size(m.head_pitch)), <i16 as Encodable>::spec_size(m.velocity_x)), <i16 as Encodable>::spec_size(m.velocity_y)), <i16 as Encodable>::spec_size(m.velocity_z))
    }

    #[verifier::spinoff_prover]
    #[verifier::rlimit(100)]
    proof fn lemma_size_faithful(m: SpawnLivingEntityView) {
        <VarInt as Encodable>::lemma_size_faithful(m.entity_id);
        <McUuid as Encodable>::lemma_size_faithful(m.uuid);
        <VarInt as Encodable>::lemma_size_faithful(m.entity_type);
        <Double as Encodable>::lemma_size_faithful(m.x);
        <Double as Encodable>::lemma_size_faithful(m.y);
        <Double as Encodable>::lemma_size_faithful(m.z);
        <Angle as Encodable>::lemma_size_faithful(m.yaw);
        <Angle as Encodable>::lemma_size_faithful(m.pitch);
        <Angle as Encodable>::lemma_size_faithful(m.head_pitch);
        <i16 as Encodable>::lemma_size_faithful(m.velocity_x);
        <i16 as Encodable>::lemma_size_faithful(m.velocity_y);
        <i16 as Encodable>::lemma_size_faithful(m.velocity_z);
        lemma_then_size(<VarInt as Encodable>::spec_encode(m.entity_id), <VarInt as Encodable>::spec_size(m.entity_id), <McUuid as Encodable>::spec_encode(m.uuid), <McUuid as Encodable>::spec_size(m.uuid));
        lemma_then_size(then_encode(<VarInt as Encodable>::spec_encode(m.entity_id), <McUuid as Encodable>::spec_encode(m.uuid)), add_size_spec(<VarInt as Encodable>::spec_size(m.entity_id), <McUuid as Encodable>::spec_size(m.uuid)), <VarInt as Encodable>::spec_encode(m.entity_type), <VarInt as Encodable>::spec_size(m.entity_type));
        lemma_then_size(then_encode(then_encode(<VarInt as Encodable>::spec_encode(m.entity_id), <McUuid as Encodable>::spec_encode(m.uuid)), <VarInt as Encodable>::spec_encode(m.entity_type)), add_size_spec(add_size_spec(<VarInt as Encodable>::spec_size(m.entity_id), <McUuid as Encodable>::spec_size(m.uuid)), <VarInt as Encodable>::spec_size(m.entity_type)), <Double as Encodable>::spec_encode(m.x), <Double as Encodable>::spec_size(m.x));
        lemma_then_size(then_encode(then_encode(then_encode(<VarInt as Encodable>::spec_encode(m.entity_id), <McUuid as Encodable>::spec_encode(m.uuid)), <VarInt as Encodable>::spec_encode(m.entity_type)), <Double as Encodable>::spec_encode(m.x)), add_size_spec(add_size_spec(add_size_spec(<VarInt as Encodable>::spec_size(m.entity_id), <McUuid as Encodable>::spec_size(m.uuid)), <VarInt as Encodable>::spec_size(m.entity_type)), <Double as Encodable>::spec_size(m.x)), <Double as Encodable>::spec_encode(m.y), <Double as Encodable>::spec_size(m.y));
        lemma_then_size(then_encode(then_encode(then_encode(then_encode(<VarInt as Encodable>::spec_encode(m.entity_id), <McUuid as Encodable>::spec_encode(m.uuid)), <VarInt as Encodable>::spec_encode(m.entity_type)), <Double as Encodable>::spec_encode(m.x)), <Double as Encodable>::spec_encode(m.y)), add_size_spec(add_size_spec(add_size_spec(add_size_spec(<VarInt as Encodable>::spec_size(m.entity_id), <McUuid as Encodable>::spec_size(m.uuid)), <VarInt as Encodable>::spec_size(m.entity_type)), <Double as Encodable>::spec_size(m.x)), <Double as Encodable>::spec_size(m.y)), <Double as Encodable>::spec_encode(m.z), <Double as Encodable>::spec_size(m.z));
        lemma_then_size(then_encode(then_encode(then_encode(then_encode(then_encode(<VarInt as Encodable>::spec_encode(m.entity_id), <McUuid as Encodable>::spec_encode(m.uuid)), <VarInt as Encodable>::spec_encode(m.entity_type)), <Double as Encodable>::spec_encode(m.x)), <Double as Encodable>::spec_encode(m.y)), <Double as Encodable>::spec_encode(m.z)), add_size_spec(add_size_spec(add_size_spec(add_size_spec(add_size_spec(<VarInt as Encodable>::spec_size(m.entity_id), <McUuid as Encodable>::spec_size(m.uuid)), <VarInt as Encodable>::spec_size(m.entity_type)), <Double as Encodable>::spec_size(m.x)), <Double as Encodable>::spec_size(m.y)), <Double as Encodable>::spec_size(m.z)), <Angle as Encodable>::spec_encode(m.yaw), <Angle as Encodable>::spec_size(m.yaw));
        lemma_then_size(then_encode(then_encode(then_encode(then_encode(then_encode(then_encode(<VarInt as Encodable>::spec_encode(m.entity_id), <McUuid as Encodable>::spec_encode(m.uuid)), <VarInt as Encodable>::spec_encode(m.entity_type)), <Double as Encodable>::spec_encode(m.x)), <Double as Encodable>::spec_encode(m.y)), <Double as Encodable>::spec_encode(m.z)), <Angle as Encodable>::spec_encode(m.yaw)), add_size_spec(add_size_spec(add_size_spec(add_size_spec(add_size_spec(add_size_spec(<VarInt as Encodable>::spec_size(m.entity_id), <McUuid as Encodable>::spec_size(m.uuid)), <VarInt as Encodable>::spec_size(m.entity_type)), <Double as Encodable>::spec_size(m.x)), <Double as Encodable>::spec_size(m.y)), <Double as Encodable>::spec_size(m.z)), <Angle as Encodable>::spec_size(m.yaw)), <Angle as Encodable>::spec_encode(m.pitch), <Angle as Encodable>::spec_size(m.pitch));
        lemma_then_size(then_encode(then_encode(then_encode(then_encode(then_encode(then_encode(then_encode(<VarInt as Encodable>::spec_encode(m.entity_id), <McUuid as Encodable>::spec_encode(m.uuid)), <VarInt as Encodable>::spec_encode(m.entity_type)), <Double as Encodable>::spec_encode(m.x)), <Double as Encodable>::spec_encode(m.y)), <Double as Encodable>::spec_encode(m.z)), <Angle as Encodable>::spec_encode(m.yaw)), <Angle as Encodable>::spec_encode(m.pitch)), add_size_spec(add_size_spec(add_size_spec(add_size_spec(add_size_spec(add_size_spec(add_size_spec(<VarInt as Encodable>::spec_size(m.entity_id), <McUuid as Encodable>::spec_size(m.uuid)), <VarInt as Encodable>::spec_size(m.entity_type)), <Double as Encodable>::spec_size(m.x)), <Double as Encodable>::spec_size(m.y)), <Double as Encodable>::spec_size(m.z)), <Angle as Encodable>::spec_size(m.yaw)), <Angle as Encodable>::spec_size(m.pitch)), <Angle as Encodable>::spec_encode(m.head_pitch), <Angle as Encodable>::spec_size(m.head_pitch));
        lemma_then_size(then_encode(then_encode(then_encode(then_encode(then_encode(then_encode(then_encode(then_encode(<VarInt as Encodable>::spec_encode(m.entity_id), <McUuid as Encodable>::spec_encode(m.uuid)), <VarInt as Encodable>::spec_encode(m.entity_type)), <Double as Encodable>::spec_encode(m.x)), <Double as Encodable>::spec_encode(m.y)), <Double as Encodable>::spec_encode(m.z)), <Angle as Encodable>::spec_encode(m.yaw)), <Angle as Encodable>::spec_encode(m.pitch)), <Angle as Encodable>::spec_encode(m.head_pitch)), add_size_spec(add_size_spec(add_size_spec(add_size_spec(add_size_spec(add_size_spec(add_size_spec(add_size_spec(<VarInt as Encodable>::spec_size(m.entity_id), <McUuid as Encodable>::spec_size(m.uuid)), <VarInt as Encodable>::spec_size(m.entity_type)), <Double as Encodable>::spec_size(m.x)), <Double as Encodable>::spec_size(m.y)), <Double as Encodable>::spec_size(m.z)), <Angle as Encodable>::spec_size(m.yaw)), <Angle as Encodable>::spec_size(m.pitch)), <Angle as Encodable>::spec_size(m.head_pitch)), <i16 as Encodable>::spec_encode(m.velocity_x), <i16 as Encodable>::spec_size(m.velocity_x));
        lemma_then_size(then_encode(then_encode(then_encode(then_encode(then_encode(then_encode(then_encode(then_encode(then_encode(<VarInt as Encodable>::spec_encode(m.entity_id), <McUuid as Encodable>::spec_encode(m.uuid)), <VarInt as Encodable>::spec_encode(m.entity_type)), <Double as Encodable>::spec_encode(m.x)), <Double as Encodable>::spec_encode(m.y)), <Double as Encodable>::spec_encode(m.z)), <Angle as Encodable>::spec_encode(m.yaw)), <Angle as Encodable>::spec_encode(m.pitch)), <Angle as Encodable>::spec_encode(m.head_pitch)), <i16 as Encodable>::spec_encode(m.velocity_x)), add_size_spec(add_size_spec(add_size_spec(add_size_spec(add_size_spec(add_size_spec(add_size_spec(add_size_spec(add_size_spec(<VarInt as Encodable>::spec_size(m.entity_id), <McUuid as Encodable>::spec_size(m.uuid)), <VarInt as Encodable>::spec_size(m.entity_type)), <Double as Encodable>::spec_size(m.x)), <Double as Encodable>::spec_size(m.y)), <Double as Encodable>::spec_size(m.z)), <Angle as Encodable>::spec_size(m.yaw)), <Angle as Encodable>::spec_size(m.pitch)), <Angle as Encodable>::spec_size(m.head_pitch)), <i16 as Encodable>::spec_size(m.velocity_x)), <i16 as Encodable>::spec_encode(m.velocity_y), <i16 as Encodable>::spec_size(m.velocity_y));
        lemma_then_size(then_encode(then_encode(then_encode(then_encode(then_encode(then_encode(then_encode(then_encode(then_encode(then_encode(<VarInt as Encodable>::spec_encode(m.entity_id), <McUuid as Encodable>::spec_encode(m.uuid)), <VarInt as Encodable>::spec_encode(m.entity_type)), <Double as Encodable>::spec_encode(m.x)), <Double as Encodable>::spec_encode(m.y)), <Double as Encodable>::spec_encode(m.z)), <Angle as Encodable>::spec_encode(m.yaw)), <Angle as Encodable>::spec_encode(m.pitch)), <Angle as Encodable>::spec_encode(m.head_pitch)), <i16 as Encodable>::spec_encode(m.velocity_x)), <i16 as Encodable>::spec_encode(m.velocity_y)), add_size_spec(add_size_spec(add_size_spec(add_size_spec(add_size_spec(add_size_spec(add_size_spec(add_size_spec(add_size_spec(add_size_spec(<VarInt as Encodable>::spec_size(m.entity_id), <McUuid as Encodable>::spec_size(m.uuid)), <VarInt as Encodable>::spec_size(m.entity_type)), <Double as Encodable>::spec_size(m.x)), <Double as Encodable>::spec_size(m.y)), <Double as Encodable>::spec_size(m.z)), <Angle as Encodable>::spec_size(m.yaw)), <Angle as Encodable>::spec_size(m.pitch)), <Angle as Encodable>::spec_size(m.head_pitch)), <i16 as Encodable>::spec_size(m.velocity_x)), <i16 as Encodable>::spec_size(m.velocity_y)), <i16 as Encodable>::spec_encode(m.velocity_z), <i16 as Encodable>::spec_size(m.velocity_z));
    }

    #[verifier::spinoff_prover]
    #[verifier::rlimit(100)]
    fn encode(&self, out: &mut Vec<u8>) -> (r: Result<(), CodecError>) {
        let ghost o0 = out@;
        let start = out.len();
        let ghost e0 = <VarInt as Encodable>::spec_encode(self.entity_id.deep_view())->Ok_0;
        let ghost e1 = <McUuid as Encodable>::spec_encode(self.uuid.deep_view())->Ok_0;
        let ghost e2 = <VarInt as Encodable>::spec_encode(self.entity_type.deep_view())->Ok_0;
        let ghost e3 = <Double as Encodable>::spec_encode(self.x.deep_view())->Ok_0;
        let ghost e4 = <Double as Encodable>::spec_encode(self.y.deep_view())->Ok_0;
        let ghost e5 = <Double as Encodable>::spec_encode(self.z.deep_view())->Ok_0;
        let ghost e6 = <Angle as Encodable>::spec_encode(self.yaw.deep_view())->Ok_0;
        let ghost e7 = <Angle as Encodable>::spec_encode(self.pitch.deep_view())->Ok_0;
        let ghost e8 = <Angle as Encodable>::spec_encode(self.head_pitch.deep_view())->Ok_0;
        let ghost e9 = <i16 as Encodable>::spec_encode(self.velocity_x.deep_view())->Ok_0;
        let ghost e10 = <i16 as Encodable>::spec_encode(self.velocity_y.deep_view())->Ok_0;
        let ghost e11 = <i16 as Encodable>::spec_encode(self.velocity_z.deep_view())->Ok_0;
        match self.entity_id.encode(out) {
            Ok(_) => {},
            Err(e) => return Err(e),
        }
        match self.uuid.encode(out) {
            Ok(_) => {},
            Err(e) => {
                roll_back(out, Ghost(o0), Ghost(e0), start);
                return Err(e);
            },
        }
        proof {
            lemma_concat_assoc(o0, e0, e1);
        }
        match self.entity_type.encode(out) {
            Ok(_) => {},
            Err(e) => {
                roll_back(out, Ghost(o0), Ghost(e0 + e1), start);
                return Err(e);
            },
        }
        proof {
            lemma_concat_assoc(o0, e0 + e1, e2);
        }
        match self.x.encode(out) {
            Ok(_) => {},
            Err(e) => {
                roll_back(out, Ghost(o0), Ghost(e0 + e1 + e2), start);
                return Err(e);
            },
        }
        proof {
            lemma_concat_assoc(o0, e0 + e1 + e2, e3);
        }
        match self.y.encode(out) {
            Ok(_) => {},
            Err(e) => {
                roll_back(out, Ghost(o0), Ghost(e0 + e1 + e2 + e3), start);
                return Err(e);
            },
        }
        proof {
            lemma_concat_assoc(o0, e0 + e1 + e2 + e3, e4);
        }
        match self.z.encode(out) {
            Ok(_) => {},
            Err(e) => {
                roll_back(out, Ghost(o0), Ghost(e0 + e1 + e2 + e3 + e4), start);
                return Err(e);
            },
        }
        proof {
            lemma_concat_assoc(o0, e0 + e1 + e2 + e3 + e4, e5);
        }
        match self.yaw.encode(out) {
            Ok(_) => {},
            Err(e) => {
                roll_back(out, Ghost(o0), Ghost(e0 + e1 + e2 + e3 + e4 + e5), start);
                return Err(e);
            },
        }
        proof {
            lemma_concat_assoc(o0, e0 + e1 + e2 + e3 + e4 + e5, e6);
        }
        match self.pitch.encode(out) {
            Ok(_) => {},
            Err(e) => {
                roll_back(out, Ghost(o0), Ghost(e0 + e1 + e2 + e3 + e4 + e5 + e6), start);
                return Err(e);
            },
        }
        proof {
            lemma_concat_assoc(o0, e0 + e1 + e2 + e3 + e4 + e5 + e6, e7);
        }
        match self.head_pitch.encode(out) {
            Ok(_) => {},
            Err(e) => {
                roll_back(out, Ghost(o0), Ghost(e0 + e1 + e2 + e3 + e4 + e5 + e6 + e7), start);
                return Err(e);
            },
        }
        proof {
            lemma_concat_assoc(o0, e0 + e1 + e2 + e3 + e4 + e5 + e6 + e7, e8);
        }
        match self.velocity_x.encode(out) {
            Ok(_) => {},
            Err(e) => {
                roll_back(out, Ghost(o0), Ghost(e0 + e1 + e2 + e3 + e4 + e5 + e6 + e7 + e8), start);
                return Err(e);
            },
        }
        proof {
            lemma_concat_assoc(o0, e0 + e1 + e2 + e3 + e4 + e5 + e6 + e7 + e8, e9);
        }
        match self.velocity_y.encode(out) {
            Ok(_) => {},
            Err(e) => {
                roll_back(out, Ghost(o0), Ghost(e0 + e1 + e2 + e3 + e4 + e5 + e6 + e7 + e8 + e9), start);
                return Err(e);
            },
        }
        proof {
            lemma_concat_assoc(o0, e0 + e1 + e2 + e3 + e4 + e5 + e6 + e7 + e8 + e9, e10);
        }
        match self.velocity_z.encode(out) {
            Ok(_) => {},
            Err(e) => {
                roll_back(out, Ghost(o0), Ghost(e0 + e1 + e2 + e3 + e4 + e5 + e6 + e7 + e8 + e9 + e10), start);
                return Err(e);
            },
        }
        proof {
            lemma_concat_assoc(o0, e0 + e1 + e2 + e3 + e4 + e5 + e6 + e7 + e8 + e9 + e10, e11);
        }
        Ok(())
    }

    #[verifier::spinoff_prover]
    #[verifier::rlimit(100)]
    fn size(&self) -> (r: Result<VarInt, CodecError>) {
        proof {
            <VarInt as Encodable>::lemma_size_faithful(self.entity_id.deep_view());
            <McUuid as Encodable>::lemma_size_faithful(self.uuid.deep_view());
            <VarInt as Encodable>::lemma_size_faithful(self.entity_type.deep_view());
            <Double as Encodable>::lemma_size_faithful(self.x.deep_view());
            <Double as Encodable>::lemma_size_faithful(self.y.deep_view());
            <Double as Encodable>::lemma_size_faithful(self.z.deep_view());
            <Angle as Encodable>::lemma_size_faithful(self.yaw.deep_view());
            <Angle as Encodable>::lemma_size_faithful(self.pitch.deep_view());
            <Angle as Encodable>::lemma_size_faithful(self.head_pitch.deep_view());
            <i16 as Encodable>::lemma_size_faithful(self.velocity_x.deep_view());
            <i16 as Encodable>::lemma_size_faithful(self.velocity_y.deep_view());
            <i16 as Encodable>::lemma_size_faithful(self.velocity_z.deep_view());
        }
        let ghost w0 = <VarInt as Encodable>::spec_size(self.entity_id.deep_view());
        let ghost w1 = <McUuid as Encodable>::spec_size(self.uuid.deep_view());
        let ghost w2 = <VarInt as Encodable>::spec_size(self.entity_type.deep_view());
        let ghost w3 = <Double as Encodable>::spec_size(self.x.deep_view());
        let ghost w4 = <Double as Encodable>::spec_size(self.y.deep_view());
        let ghost w5 = <Double as Encodable>::spec_size(self.z.deep_view());
        let ghost w6 = <Angle as Encodable>::spec_size(self.yaw.deep_view());
        let ghost w7 = <Angle as Encodable>::spec_size(self.pitch.deep_view());
        let ghost w8 = <Angle as Encodable>::spec_size(self.head_pitch.deep_view());
        let ghost w9 = <i16 as Encodable>::spec_size(self.velocity_x.deep_view());
        let ghost w10 = <i16 as Encodable>::spec_size(self.velocity_y.deep_view());
        let ghost w11 = <i16 as Encodable>::spec_size(self.velocity_z.deep_view());
        let t0 = self.entity_id.size();
        let t1 = add_size(t0, Ghost(w0), self.uuid.size(), Ghost(w1));
        let ghost c1 = add_size_spec(w0, w1);
        let t2 = add_size(t1, Ghost(c1), self.entity_type.size(), Ghost(w2));
        let ghost c2 = add_size_spec(c1, w2);
        let t3 = add_size(t2, Ghost(c2), self.x.size(), Ghost(w3));
        let ghost c3 = add_size_spec(c2, w3);
        let t4 = add_size(t3, Ghost(c3), self.y.size(), Ghost(w4));
        let ghost c4 = add_size_spec(c3, w4);
        let t5 = add_size(t4, Ghost(c4), self.z.size(), Ghost(w5));
        let ghost c5 = add_size_spec(c4, w5);
        let t6 = add_size(t5, Ghost(c5), self.yaw.size(), Ghost(w6));
        let ghost c6 = add_size_spec(c5, w6);
        let t7 = add_size(t6, Ghost(c6), self.pitch.size(), Ghost(w7));
        let ghost c7 = add_size_spec(c6, w7);
        let t8 = add_size(t7, Ghost(c7), self.head_pitch.size(), Ghost(w8));
        let ghost c8 = add_size_spec(c7, w8);
        let t9 = add_size(t8, Ghost(c8), self.velocity_x.size(), Ghost(w9));
        let ghost c9 = add_size_spec(c8, w9);
        let t10 = add_size(t9, Ghost(c9), self.velocity_y.size(), Ghost(w10));
        let ghost c10 = add_size_spec(c9, w10);
        let t11 = add_size(t10, Ghost(c10), self.velocity_z.size(), Ghost(w11));
        t11
    }
}

impl Decodable for SpawnLivingEntity {
    open spec fn spec_decode(bytes: Seq<u8>) -> Result<(SpawnLivingEntityView, nat), CodecError> {
        match decode_at::<VarInt>(bytes, 0) {
            Err(e) => Err(e),
            Ok((entity_id, n0)) => match decode_at::<McUuid>(bytes, n0) {
                Err(e) => Err(e),
                Ok((uuid, n1)) => match decode_at::<VarInt>(bytes, n0 + n1) {
                    Err(e) => Err(e),
                    Ok((entity_type, n2)) => match decode_at::<Double>(bytes, n0 + n1 + n2) {
                        Err(e) => Err(e),
                        Ok((x, n3)) => match decode_at::<Double>(bytes, n0 + n1 + n2 + n3) {
                            Err(e) => Err(e),
                            Ok((y, n4)) => match decode_at::<Double>(bytes, n0 + n1 + n2 + n3 + n4) {
                                Err(e) => Err(e),
                                Ok((z, n5)) => match decode_at::<Angle>(bytes, n0 + n1 + n2 + n3 + n4 + n5) {
                                    Err(e) => Err(e),
                                    Ok((yaw, n6)) => match decode_at::<Angle>(bytes, n0 + n1 + n2 + n3 + n4 + n5 + n6) {
                                        Err(e) => Err(e),
                                        Ok((pitch, n7)) => match decode_at::<Angle>(bytes, n0 + n1 + n2 + n3 + n4 + n5 + n6 + n7) {
                                            Err(e) => Err(e),
                                            Ok((head_pitch, n8)) => match decode_at::<i16>(bytes, n0 + n1 + n2 + n3 + n4 + n5 + n6 + n7 + n8) {
                                                Err(e) => Err(e),
                                                Ok((velocity_x, n9)) => match decode_at::<i16>(bytes, n0 + n1 + n2 + n3 + n4 + n5 + n6 + n7 + n8 + n9) {
                                                    Err(e) => Err(e),
                                                    Ok((velocity_y, n10)) => match decode_at::<i16>(bytes, n0 + n1 + n2 + n3 + n4 + n5 + n6 + n7 + n8 + n9 + n10) {
                                                        Err(e) => Err(e),
                                                        Ok((velocity_z, n11)) => Ok((SpawnLivingEntityView { entity_id, uuid, entity_type, x, y, z, yaw, pitch, head_pitch, velocity_x, velocity_y, velocity_z }, n0 + n1 + n2 + n3 + n4 + n5 + n6 + n7 + n8 + n9 + n10 + n11)),
                                                    },
                                                },
                                            },
                                        },
                                    },
                                },
                            },
                        },
                    },
                },
            },
        }
    }

    proof fn lemma_decode_len(bytes: Seq<u8>) {
        lemma_decode_at::<VarInt>(bytes, 0);
        <VarInt as Decodable>::lemma_decode_len(bytes.subrange((0) as int, bytes.len() as int));
        if let Ok((entity_id, n0)) = decode_at::<VarInt>(bytes, 0) {
            lemma_decode_at::<McUuid>(bytes, n0);
            <McUuid as Decodable>::lemma_decode_len(bytes.subrange((n0) as int, bytes.len() as int));
            if let Ok((uuid, n1)) = decode_at::<McUuid>(bytes, n0) {
                lemma_decode_at::<VarInt>(bytes, n0 + n1);
                <VarInt as Decodable>::lemma_decode_len(bytes.subrange((n0 + n1) as int, bytes.len() as int));
                if let Ok((entity_type, n2)) = decode_at::<VarInt>(bytes, n0 + n1) {
                    lemma_decode_at::<Double>(bytes, n0 + n1 + n2);
                    <Double as Decodable>::lemma_decode_len(bytes.subrange((n0 + n1 + n2) as int, bytes.len() as int));
                    if let Ok((x, n3)) = decode_at::<Double>(bytes, n0 + n1 + n2) {
                        lemma_decode_at::<Double>(bytes, n0 + n1 + n2 + n3);
                        <Double as Decodable>::lemma_decode_len(bytes.subrange((n0 + n1 + n2 + n3) as int, bytes.len() as int));
                        if let Ok((y, n4)) = decode_at::<Double>(bytes, n0 + n1 + n2 + n3) {
                            lemma_decode_at::<Double>(bytes, n0 + n1 + n2 + n3 + n4);
                            <Double as Decodable>::lemma_decode_len(bytes.subrange((n0 + n1 + n2 + n3 + n4) as int, bytes.len() as int));
                            if let Ok((z, n5)) = decode_at::<Double>(bytes, n0 + n1 + n2 + n3 + n4) {
                                lemma_decode_at::<Angle>(bytes, n0 + n1 + n2 + n3 + n4 + n5);
                                <Angle as Decodable>::lemma_decode_len(bytes.subrange((n0 + n1 + n2 + n3 + n4 + n5) as int, bytes.len() as int));
                                if let Ok((yaw, n6)) = decode_at::<Angle>(bytes, n0 + n1 + n2 + n3 + n4 + n5) {
                                    lemma_decode_at::<Angle>(bytes, n0 + n1 + n2 + n3 + n4 + n5 + n6);
                                    <Angle as Decodable>::lemma_decode_len(bytes.subrange((n0 + n1 + n2 + n3 + n4 + n5 + n6) as int, bytes.len() as int));
                                    if let Ok((pitch, n7)) = decode_at::<Angle>(bytes, n0 + n1 + n2 + n3 + n4 + n5 + n6) {
                                        lemma_decode_at::<Angle>(bytes, n0 + n1 + n2 + n3 + n4 + n5 + n6 + n7);
                                        <Angle as Decodable>::lemma_decode_len(bytes.subrange((n0 + n1 + n2 + n3 + n4 + n5 + n6 + n7) as int, bytes.len() as int));
                                        if let Ok((head_pitch, n8)) = decode_at::<Angle>(bytes, n0 + n1 + n2 + n3 + n4 + n5 + n6 + n7) {
                                            lemma_decode_at::<i16>(bytes, n0 + n1 + n2 + n3 + n4 + n5 + n6 + n7 + n8);
                                            <i16 as Decodable>::lemma_decode_len(bytes.subrange((n0 + n1 + n2 + n3 + n4 + n5 + n6 + n7 + n8) as int, bytes.len() as int));
                                            if let Ok((velocity_x, n9)) = decode_at::<i16>(bytes, n0 + n1 + n2 + n3 + n4 + n5 + n6 + n7 + n8) {
                                                lemma_decode_at::<i16>(bytes, n0 + n1 + n2 + n3 + n4 + n5 + n6 + n7 + n8 + n9);
                                                <i16 as Decodable>::lemma_decode_len(bytes.subrange((n0 + n1 + n2 + n3 + n4 + n5 + n6 + n7 + n8 + n9) as int, bytes.len() as int));
                                                if let Ok((velocity_y, n10)) = decode_at::<i16>(bytes, n0 + n1 + n2 + n3 + n4 + n5 + n6 + n7 + n8 + n9) {
                                                    lemma_decode_at::<i16>(bytes, n0 + n1 + n2 + n3 + n4 + n5 + n6 + n7 + n8 + n9 + n10);
                                                    <i16 as Decodable>::lemma_decode_len(bytes.subrange((n0 + n1 + n2 + n3 + n4 + n5 + n6 + n7 + n8 + n9 + n10) as int, bytes.len() as int));
                                                }
                                            }
                                        }
                                    }
                                }
                            }
                        }
                    }
                }
            }
        }
    }

    #[verifier::spinoff_prover]
    #[verifier::rlimit(100)]
    fn decode(reader: &mut ByteReader) -> (r: Result<SpawnLivingEntity, CodecError>) {
        let ghost r0 = *reader;
        let ghost rest0 = reader.rest();
        proof {
            ByteReader::lemma_rest_since(r0, *reader);
            lemma_decode_at::<VarInt>(rest0, (reader.pos() - r0.pos()) as nat);
        }
        let entity_id = match <VarInt>::decode(reader) {
            Ok(v) => v,
            Err(e) => return Err(e),
        };
        proof {
            ByteReader::lemma_rest_since(r0, *reader);
            lemma_decode_at::<McUuid>(rest0, (reader.pos() - r0.pos()) as nat);
        }
        let uuid = match <McUuid>::decode(reader) {
            Ok(v) => v,
            Err(e) => return Err(e),
        };
        proof {
            ByteReader::lemma_rest_since(r0, *reader);
            lemma_decode_at::<VarInt>(rest0, (reader.pos() - r0.pos()) as nat);
        }
        let entity_type = match <VarInt>::decode(reader) {
            Ok(v) => v,
            Err(e) => return Err(e),
        };
        proof {
            ByteReader::lemma_rest_since(r0, *reader);
            lemma_decode_at::<Double>(rest0, (reader.pos() - r0.pos()) as nat);
        }
        let x = match <Double>::decode(reader) {
            Ok(v) => v,
            Err(e) => return Err(e),
        };
        proof {
            ByteReader::lemma_rest_since(r0, *reader);
            lemma_decode_at::<Double>(rest0, (reader.pos() - r0.pos()) as nat);
        }
        let y = match <Double>::decode(reader) {
            Ok(v) => v,
            Err(e) => return Err(e),
        };
        proof {
            ByteReader::lemma_rest_since(r0, *reader);
            lemma_decode_at::<Double>(rest0, (reader.pos() - r0.pos()) as nat);
        }
        let z = match <Double>::decode(reader) {
            Ok(v) => v,
            Err(e) => return Err(e),
        };
        proof {
            ByteReader::lemma_rest_since(r0, *reader);
            lemma_decode_at::<Angle>(rest0, (reader.pos() - r0.pos()) as nat);
        }
        let yaw = match <Angle>::decode(reader) {
            Ok(v) => v,
            Err(e) => return Err(e),
        };
        proof {
            ByteReader::lemma_rest_since(r0, *reader);
            lemma_decode_at::<Angle>(rest0, (reader.pos() - r0.pos()) as nat);
        }
        let pitch = match <Angle>::decode(reader) {
            Ok(v) => v,
            Err(e) => return Err(e),
        };
        proof {
            ByteReader::lemma_rest_since(r0, *reader);
            lemma_decode_at::<Angle>(rest0, (reader.pos() - r0.pos()) as nat);
        }
        let head_pitch = match <Angle>::decode(reader) {
            Ok(v) => v,
            Err(e) => return Err(e),
        };
        proof {
            ByteReader::lemma_rest_since(r0, *reader);
            lemma_decode_at::<i16>(rest0, (reader.pos() - r0.pos()) as nat);
        }
        let velocity_x = match <i16>::decode(reader) {
            Ok(v) => v,
            Err(e) => return Err(e),
        };
        proof {
            ByteReader::lemma_rest_since(r0, *reader);
            lemma_decode_at::<i16>(rest0, (reader.pos() - r0.pos()) as nat);
        }
        let velocity_y = match <i16>::decode(reader) {
            Ok(v) => v,
            Err(e) => return Err(e),
        };
        proof {
            ByteReader::lemma_rest_since(r0, *reader);
            lemma_decode_at::<i16>(rest0, (reader.pos() - r0.pos()) as nat);
        }
        let velocity_z = match <i16>::decode(reader) {
            Ok(v) => v,
            Err(e) => return Err(e),
        };
        Ok(SpawnLivingEntity { entity_id, uuid, entity_type, x, y, z, yaw, pitch, head_pitch, velocity_x, velocity_y, velocity_z })
    }
}

impl Codec for SpawnLivingEntity {
    open spec fn valid(m: SpawnLivingEntityView) -> bool {
        &&& <VarInt as Codec>::valid(m.entity_id)
        &&& <VarInt as Codec>::delimited()
        &&& <McUuid as Codec>::valid(m.uuid)
        &&& <McUuid as Codec>::delimited()
        &&& <VarInt as Codec>::valid(m.entity_type)
        &&& <VarInt as Codec>::delimited()
        &&& <Double as Codec>::valid(m.x)
        &&& <Double as Codec>::delimited()
        &&& <Double as Codec>::valid(m.y)
        &&& <Double as Codec>::delimited()
        &&& <Double as Codec>::valid(m.z)
        &&& <Double as Codec>::delimited()
        &&& <Angle as Codec>::valid(m.yaw)
        &&& <Angle as Codec>::delimited()
        &&& <Angle as Codec>::valid(m.pitch)
        &&& <Angle as Codec>::delimited()
        &&& <Angle as Codec>::valid(m.head_pitch)
        &&& <Angle as Codec>::delimited()
        &&& <i16 as Codec>::valid(m.velocity_x)
        &&& <i16 as Codec>::delimited()
        &&& <i16 as Codec>::valid(m.velocity_y)
        &&& <i16 as Codec>::delimited()
        &&& <i16 as Codec>::valid(m.velocity_z)
    }

    open spec fn delimited() -> bool {
        <i16 as Codec>::delimited()
    }

    #[verifier::spinoff_prover]
    #[verifier::rlimit(100)]
    proof fn lemma_round_trip(m: SpawnLivingEntityView, rest: Seq<u8>) {
        let e0 = <VarInt as Encodable>::spec_encode(m.entity_id)->Ok_0;
        let e1 = <McUuid as Encodable>::spec_encode(m.uuid)->Ok_0;
        let e2 = <VarInt as Encodable>::spec_encode(m.entity_type)->Ok_0;
        let e3 = <Double as Encodable>::spec_encode(m.x)->Ok_0;
        let e4 = <Double as Encodable>::spec_encode(m.y)->Ok_0;
        let e5 = <Double as Encodable>::spec_encode(m.z)->Ok_0;
        let e6 = <Angle as Encodable>::spec_encode(m.yaw)->Ok_0;
        let e7 = <Angle as Encodable>::spec_encode(m.pitch)->Ok_0;
        let e8 = <Angle as Encodable>::spec_encode(m.head_pitch)->Ok_0;
        let e9 = <i16 as Encodable>::spec_encode(m.velocity_x)->Ok_0;
        let e10 = <i16 as Encodable>::spec_encode(m.velocity_y)->Ok_0;
        let e11 = <i16 as Encodable>::spec_encode(m.velocity_z)->Ok_0;
        let t11 = e11 + rest;
        let t10 = e10 + t11;
        let t9 = e9 + t10;
        let t8 = e8 + t9;
        let t7 = e7 + t8;
        let t6 = e6 + t7;
        let t5 = e5 + t6;
        let t4 = e4 + t5;
        let t3 = e3 + t4;
        let t2 = e2 + t3;
        let t1 = e1 + t2;
        let t0 = e0 + t1;
        assert(decode_at::<VarInt>(t0, (0) as nat) == Ok::<(<VarInt as DeepView>::V, nat), CodecError>((m.entity_id, e0.len()))
            && <VarInt as Encodable>::spec_encode(m.entity_id) == Ok::<Seq<u8>, CodecError>(e0)
            && decode_at::<McUuid>(t0, (e0.len()) as nat) == Ok::<(<McUuid as DeepView>::V, nat), CodecError>((m.uuid, e1.len()))
            && <McUuid as Encodable>::spec_encode(m.uuid) == Ok::<Seq<u8>, CodecError>(e1)
            && decode_at::<VarInt>(t0, (e0.len() + e1.len()) as nat) == Ok::<(<VarInt as DeepView>::V, nat), CodecError>((m.entity_type, e2.len()))
            && <VarInt as Encodable>::spec_encode(m.entity_type) == Ok::<Seq<u8>, CodecError>(e2)
            && decode_at::<Double>(t0, (e0.len() + e1.len() + e2.len()) as nat) == Ok::<(<Double as DeepView>::V, nat), CodecError>((m.x, e3.len()))
            && <Double as Encodable>::spec_encode(m.x) == Ok::<Seq<u8>, CodecError>(e3)
            && decode_at::<Double>(t0, (e0.len() + e1.len() + e2.len() + e3.len()) as nat) == Ok::<(<Double as DeepView>::V, nat), CodecError>((m.y, e4.len()))
            && <Double as Encodable>::spec_encode(m.y) == Ok::<Seq<u8>, CodecError>(e4)
            && decode_at::<Double>(t0, (e0.len() + e1.len() + e2.len() + e3.len() + e4.len()) as nat) == Ok::<(<Double as DeepView>::V, nat), CodecError>((m.z, e5.len()))
            && <Double as Encodable>::spec_encode(m.z) == Ok::<Seq<u8>, CodecError>(e5)
            && decode_at::<Angle>(t0, (e0.len() + e1.len() + e2.len() + e3.len() + e4.len() + e5.len()) as nat) == Ok::<(<Angle as DeepView>::V, nat), CodecError>((m.yaw, e6.len()))
            && <Angle as Encodable>::spec_encode(m.yaw) == Ok::<Seq<u8>, CodecError>(e6)
            && decode_at::<Angle>(t0, (e0.len() + e1.len() + e2.len() + e3.len() + e4.len() + e5.len() + e6.len()) as nat) == Ok::<(<Angle as DeepView>::V, nat), CodecError>((m.pitch, e7.len()))
            && <Angle as Encodable>::spec_encode(m.pitch) == Ok::<Seq<u8>, CodecError>(e7)
            && decode_at::<Angle>(t0, (e0.len() + e1.len() + e2.len() + e3.len() + e4.len() + e5.len() + e6.len() + e7.len()) as nat) == Ok::<(<Angle as DeepView>::V, nat), CodecError>((m.head_pitch, e8.len()))
            && <Angle as Encodable>::spec_encode(m.head_pitch) == Ok::<Seq<u8>, CodecError>(e8)
            && decode_at::<i16>(t0, (e0.len() + e1.len() + e2.len() + e3.len() + e4.len() + e5.len() + e6.len() + e7.len() + e8.len()) as nat) == Ok::<(<i16 as DeepView>::V, nat), CodecError>((m.velocity_x, e9.len()))
            && <i16 as Encodable>::spec_encode(m.velocity_x) == Ok::<Seq<u8>, CodecError>(e9)
            && decode_at::<i16>(t0, (e0.len() + e1.len() + e2.len() + e3.len() + e4.len() + e5.len() + e6.len() + e7.len() + e8.len() + e9.len()) as nat) == Ok::<(<i16 as DeepView>::V, nat), CodecError>((m.velocity_y, e10.len()))
            && <i16 as Encodable>::spec_encode(m.velocity_y) == Ok::<Seq<u8>, CodecError>(e10)
            && decode_at::<i16>(t0, (e0.len() + e1.len() + e2.len() + e3.len() + e4.len() + e5.len() + e6.len() + e7.len() + e8.len() + e9.len() + e10.len()) as nat) == Ok::<(<i16 as DeepView>::V, nat), CodecError>((m.velocity_z, e11.len()))
            && <i16 as Encodable>::spec_encode(m.velocity_z) == Ok::<Seq<u8>, CodecError>(e11)) by {
            lemma_subrange_all(t0);
            lemma_field_round_trip::<VarInt>(m.entity_id, t0, (0) as nat, t1);
            lemma_field_round_trip::<McUuid>(m.uuid, t0, (e0.len()) as nat, t2);
            lemma_field_round_trip::<VarInt>(m.entity_type, t0, (e0.len() + e1.len()) as nat, t3);
            lemma_field_round_trip::<Double>(m.x, t0, (e0.len() + e1.len() + e2.len()) as nat, t4);
            lemma_field_round_trip::<Double>(m.y, t0, (e0.len() + e1.len() + e2.len() + e3.len()) as nat, t5);
            lemma_field_round_trip::<Double>(m.z, t0, (e0.len() + e1.len() + e2.len() + e3.len() + e4.len()) as nat, t6);
            lemma_field_round_trip::<Angle>(m.yaw, t0, (e0.len() + e1.len() + e2.len() + e3.len() + e4.len() + e5.len()) as nat, t7);
            lemma_field_round_trip::<Angle>(m.pitch, t0, (e0.len() + e1.len() + e2.len() + e3.len() + e4.len() + e5.len() + e6.len()) as nat, t8);
            lemma_field_round_trip::<Angle>(m.head_pitch, t0, (e0.len() + e1.len() + e2.len() + e3.len() + e4.len() + e5.len() + e6.len() + e7.len()) as nat, t9);
            lemma_field_round_trip::<i16>(m.velocity_x, t0, (e0.len() + e1.len() + e2.len() + e3.len() + e4.len() + e5.len() + e6.len() + e7.len() + e8.len()) as nat, t10);
            lemma_field_round_trip::<i16>(m.velocity_y, t0, (e0.len() + e1.len() + e2.len() + e3.len() + e4.len() + e5.len() + e6.len() + e7.len() + e8.len() + e9.len()) as nat, t11);
            lemma_field_round_trip::<i16>(m.velocity_z, t0, (e0.len() + e1.len() + e2.len() + e3.len() + e4.len() + e5.len() + e6.len() + e7.len() + e8.len() + e9.len() + e10.len()) as nat, rest);
        }
        assert(e0 + e1 + e2 + e3 + e4 + e5 + e6 + e7 + e8 + e9 + e10 + e11 + rest == t0) by {
            lemma_concat_assoc(e0, e1, t2);
            lemma_concat_assoc(e0 + e1, e2, t3);
            lemma_concat_assoc(e0 + e1 + e2, e3, t4);
            lemma_concat_assoc(e0 + e1 + e2 + e3, e4, t5);
            lemma_concat_assoc(e0 + e1 + e2 + e3 + e4, e5, t6);
            lemma_concat_assoc(e0 + e1 + e2 + e3 + e4 + e5, e6, t7);
            lemma_concat_assoc(e0 + e1 + e2 + e3 + e4 + e5 + e6, e7, t8);
            lemma_concat_assoc(e0 + e1 + e2 + e3 + e4 + e5 + e6 + e7, e8, t9);
            lemma_concat_assoc(e0 + e1 + e2 + e3 + e4 + e5 + e6 + e7 + e8, e9, t10);
            lemma_concat_assoc(e0 + e1 + e2 + e3 + e4 + e5 + e6 + e7 + e8 + e9, e10, t11);
            lemma_concat_assoc(e0 + e1 + e2 + e3 + e4 + e5 + e6 + e7 + e8 + e9 + e10, e11, rest);
        }
        assert(Self::spec_encode(m) == Ok::<Seq<u8>, CodecError>(e0 + e1 + e2 + e3 + e4 + e5 + e6 + e7 + e8 + e9 + e10 + e11));
    }
}
/// The client-bound play message: spawn painting.
pub struct SpawnPainting {
    pub entity_id: VarInt,
    pub uuid: McUuid,
    pub motive: VarInt,
    pub location: Position,
    pub direction: i8,
}

/// The model of a `SpawnPainting`: each field by its model.
pub struct SpawnPaintingView {
    pub entity_id: i32,
    pub uuid: u128,
    pub motive: i32,
    pub location: (i64, i64, i64),
    pub direction: i8,
}

impl DeepView for SpawnPainting {
    type V = SpawnPaintingView;

    open spec fn deep_view(&self) -> SpawnPaintingView {
        SpawnPaintingView {
            entity_id: self.entity_id.deep_view(),
            uuid: self.uuid.deep_view(),
            motive: self.motive.deep_view(),
            location: self.location.deep_view(),
            direction: self.direction.deep_view(),
        }
    }
}

impl Encodable for SpawnPainting {
    /// The fields in order, with no framing.
    open spec fn spec_encode(m: SpawnPaintingView) -> Result<Seq<u8>, CodecError> {
        then_encode(then_encode(then_encode(then_encode(<VarInt as Encodable>::spec_encode(m.entity_id), <McUuid as Encodable>::spec_encode(m.uuid)), <VarInt as Encodable>::spec_encode(m.motive)), <Position as Encodable>::spec_encode(m.location)), <i8 as Encodable>::spec_encode(m.direction))
    }

    /// The sum of the fields' sizes.
    open spec fn spec_size(m: SpawnPaintingView) -> Result<nat, CodecError> {
        add_size_spec(add_size_spec(add_size_spec(add_size_spec(<VarInt as Encodable>::spec_size(m.entity_id), <McUuid as Encodable>::spec_size(m.uuid)), <VarInt as Encodable>::spec_size(m.motive)), <Position as Encodable>::spec_size(m.location)), <i8 as Encodable>::spec_size(m.direction))
    }

    proof fn lemma_size_faithful(m: SpawnPaintingView) {
        <VarInt as Encodable>::lemma_size_faithful(m.entity_id);
        <McUuid as Encodable>::lemma_size_faithful(m.uuid);
        <VarInt as Encodable>::lemma_size_faithful(m.motive);
        <Position as Encodable>::lemma_size_faithful(m.location);
        <i8 as Encodable>::lemma_size_faithful(m.direction);
        lemma_then_size(<VarInt as Encodable>::spec_encode(m.entity_id), <VarInt as Encodable>::spec_size(m.entity_id), <McUuid as Encodable>::spec_encode(m.uuid), <McUuid as Encodable>::spec_size(m.uuid));
        lemma_then_size(then_encode(<VarInt as Encodable>::spec_encode(m.entity_id), <McUuid as Encodable>::spec_encode(m.uuid)), add_size_spec(<VarInt as Encodable>::spec_size(m.entity_id), <McUuid as Encodable>::spec_size(m.uuid)), <VarInt as Encodable>::spec_encode(m.motive), <VarInt as Encodable>::spec_size(m.motive));
        lemma_then_size(then_encode(then_encode(<VarInt as Encodable>::spec_encode(m.entity_id), <McUuid as Encodable>::spec_encode(m.uuid)), <VarInt as Encodable>::spec_encode(m.motive)), add_size_spec(add_size_spec(<VarInt as Encodable>::spec_size(m.entity_id), <McUuid as Encodable>::spec_size(m.uuid)), <VarInt as Encodable>::spec_size(m.motive)), <Position as Encodable>::spec_encode(m.location), <Position as Encodable>::spec_size(m.location));
        lemma_then_size(then_encode(then_encode(then_encode(<VarInt as Encodable>::spec_encode(m.entity_id), <McUuid as Encodable>::spec_encode(m.uuid)), <VarInt as Encodable>::spec_encode(m.motive)), <Position as Encodable>::spec_encode(m.location)), add_size_spec(add_size_spec(add_size_spec(<VarInt as Encodable>::spec_size(m.entity_id), <McUuid as Encodable>::spec_size(m.uuid)), <VarInt as Encodable>::spec_size(m.motive)), <Position as Encodable>::spec_size(m.location)), <i8 as Encodable>::spec_encode(m.direction), <i8 as Encodable>::spec_size(m.direction));
    }

    fn encode(&self, out: &mut Vec<u8>) -> (r: Result<(), CodecError>) {
        let ghost o0 = out@;
        let start = out.len();
        let ghost e0 = <VarInt as Encodable>::spec_encode(self.entity_id.deep_view())->Ok_0;
        let ghost e1 = <McUuid as Encodable>::spec_encode(self.uuid.deep_view())->Ok_0;
        let ghost e2 = <VarInt as Encodable>::spec_encode(self.motive.deep_view())->Ok_0;
        let ghost e3 = <Position as Encodable>::spec_encode(self.location.deep_view())->Ok_0;
        let ghost e4 = <i8 as Encodable>::spec_encode(self.direction.deep_view())->Ok_0;
        match self.entity_id.encode(out) {
            Ok(_) => {},
            Err(e) => return Err(e),
        }
        match self.uuid.encode(out) {
            Ok(_) => {},
            Err(e) => {
                roll_back(out, Ghost(o0), Ghost(e0), start);
                return Err(e);
            },
        }
        proof {
            lemma_concat_assoc(o0, e0, e1);
        }
        match self.motive.encode(out) {
            Ok(_) => {},
            Err(e) => {
                roll_back(out, Ghost(o0), Ghost(e0 + e1), start);
                return Err(e);
            },
        }
        proof {
            lemma_concat_assoc(o0, e0 + e1, e2);
        }
        match self.location.encode(out) {
            Ok(_) => {},
            Err(e) => {
                roll_back(out, Ghost(o0), Ghost(e0 + e1 + e2), start);
                return Err(e);
            },
        }
        proof {
            lemma_concat_assoc(o0, e0 + e1 + e2, e3);
        }
        match self.direction.encode(out) {
            Ok(_) => {},
            Err(e) => {
                roll_back(out, Ghost(o0), Ghost(e0 + e1 + e2 + e3), start);
                return Err(e);
            },
        }
        proof {
            lemma_concat_assoc(o0, e0 + e1 + e2 + e3, e4);
        }
        Ok(())
    }

    fn size(&self) -> (r: Result<VarInt, CodecError>) {
        proof {
            <VarInt as Encodable>::lemma_size_faithful(self.entity_id.deep_view());
            <McUuid as Encodable>::lemma_size_faithful(self.uuid.deep_view());
            <VarInt as Encodable>::lemma_size_faithful(self.motive.deep_view());
            <Position as Encodable>::lemma_size_faithful(self.location.deep_view());
            <i8 as Encodable>::lemma_size_faithful(self.direction.deep_view());
        }
        let ghost w0 = <VarInt as Encodable>::spec_size(self.entity_id.deep_view());
        let ghost w1 = <McUuid as Encodable>::spec_size(self.uuid.deep_view());
        let ghost w2 = <VarInt as Encodable>::spec_size(self.motive.deep_view());
        let ghost w3 = <Position as Encodable>::spec_size(self.location.deep_view());
        let ghost w4 = <i8 as Encodable>::spec_size(self.direction.deep_view());
        let t0 = self.entity_id.size();
        let t1 = add_size(t0, Ghost(w0), self.uuid.size(), Ghost(w1));
        let ghost c1 = add_size_spec(w0, w1);
        let t2 = add_size(t1, Ghost(c1), self.motive.size(), Ghost(w2));
        let ghost c2 = add_size_spec(c1, w2);
        let t3 = add_size(t2, Ghost(c2), self.location.size(), Ghost(w3));
        let ghost c3 = add_size_spec(c2, w3);
        let t4 = add_size(t3, Ghost(c3), self.direction.size(), Ghost(w4));
        t4
    }
}

impl Decodable for SpawnPainting {
    open spec fn spec_decode(bytes: Seq<u8>) -> Result<(SpawnPaintingView, nat), CodecError> {
        match decode_at::<VarInt>(bytes, 0) {
            Err(e) => Err(e),
            Ok((entity_id, n0)) => match decode_at::<McUuid>(bytes, n0) {
                Err(e) => Err(e),
                Ok((uuid, n1)) => match decode_at::<VarInt>(bytes, n0 + n1) {
                    Err(e) => Err(e),
                    Ok((motive, n2)) => match decode_at::<Position>(bytes, n0 + n1 + n2) {
                        Err(e) => Err(e),
                        Ok((location, n3)) => match decode_at::<i8>(bytes, n0 + n1 + n2 + n3) {
                            Err(e) => Err(e),
                            Ok((direction, n4)) => Ok((SpawnPaintingView { entity_id, uuid, motive, location, direction }, n0 + n1 + n2 + n3 + n4)),
                        },
                    },
                },
            },
        }
    }

    proof fn lemma_decode_len(bytes: Seq<u8>) {
        lemma_decode_at::<VarInt>(bytes, 0);
        <VarInt as Decodable>::lemma_decode_len(bytes.subrange((0) as int, bytes.len() as int));
        if let Ok((entity_id, n0)) = decode_at::<VarInt>(bytes, 0) {
            lemma_decode_at::<McUuid>(bytes, n0);
            <McUuid as Decodable>::lemma_decode_len(bytes.subrange((n0) as int, bytes.len() as int));
            if let Ok((uuid, n1)) = decode_at::<McUuid>(bytes, n0) {
                lemma_decode_at::<VarInt>(bytes, n0 + n1);
                <VarInt as Decodable>::lemma_decode_len(bytes.subrange((n0 + n1) as int, bytes.len() as int));
                if let Ok((motive, n2)) = decode_at::<VarInt>(bytes, n0 + n1) {
                    lemma_decode_at::<Position>(bytes, n0 + n1 + n2);
                    <Position as Decodable>::lemma_decode_len(bytes.subrange((n0 + n1 + n2) as int, bytes.len() as int));
                    if let Ok((location, n3)) = decode_at::<Position>(bytes, n0 + n1 + n2) {
                        lemma_decode_at::<i8>(bytes, n0 + n1 + n2 + n3);
                        <i8 as Decodable>::lemma_decode_len(bytes.subrange((n0 + n1 + n2 + n3) as int, bytes.len() as int));
                    }
                }
            }
        }
    }

    fn decode(reader: &mut ByteReader) -> (r: Result<SpawnPainting, CodecError>) {
        let ghost r0 = *reader;
        let ghost rest0 = reader.rest();
        proof {
            ByteReader::lemma_rest_since(r0, *reader);
            lemma_decode_at::<VarInt>(rest0, (reader.pos() - r0.pos()) as nat);
        }
        let entity_id = match <VarInt>::decode(reader) {
            Ok(v) => v,
            Err(e) => return Err(e),
        };
        proof {
            ByteReader::lemma_rest_since(r0, *reader);
            lemma_decode_at::<McUuid>(rest0, (reader.pos() - r0.pos()) as nat);
        }
        let uuid = match <McUuid>::decode(reader) {
            Ok(v) => v,
            Err(e) => return Err(e),
        };
        proof {
            ByteReader::lemma_rest_since(r0, *reader);
            lemma_decode_at::<VarInt>(rest0, (reader.pos() - r0.pos()) as nat);
        }
        let motive = match <VarInt>::decode(reader) {
            Ok(v) => v,
            Err(e) => return Err(e),
        };
        proof {
            ByteReader::lemma_rest_since(r0, *reader);
            lemma_decode_at::<Position>(rest0, (reader.pos() - r0.pos()) as nat);
        }
        let location = match <Position>::decode(reader) {
            Ok(v) => v,
            Err(e) => return Err(e),
        };
        proof {
            ByteReader::lemma_rest_since(r0, *reader);
            lemma_decode_at::<i8>(rest0, (reader.pos() - r0.pos()) as nat);
        }
        let direction = match <i8>::decode(reader) {
            Ok(v) => v,
            Err(e) => return Err(e),
        };
        Ok(SpawnPainting { entity_id, uuid, motive, location, direction })
    }
}

impl Codec for SpawnPainting {
    open spec fn valid(m: SpawnPaintingView) -> bool {
        &&& <VarInt as Codec>::valid(m.entity_id)
        &&& <VarInt as Codec>::delimited()
        &&& <McUuid as Codec>::valid(m.uuid)
        &&& <McUuid as Codec>::delimited()
        &&& <VarInt as Codec>::valid(m.motive)
        &&& <VarInt as Codec>::delimited()
        &&& <Position as Codec>::valid(m.location)
        &&& <Position as Codec>::delimited()
        &&& <i8 as Codec>::valid(m.direction)
    }

    open spec fn delimited() -> bool {
        <i8 as Codec>::delimited()
    }

    proof fn lemma_round_trip(m: SpawnPaintingView, rest: Seq<u8>) {
        let e0 = <VarInt as Encodable>::spec_encode(m.entity_id)->Ok_0;
        let e1 = <McUuid as Encodable>::spec_encode(m.uuid)->Ok_0;
        let e2 = <VarInt as Encodable>::spec_encode(m.motive)->Ok_0;
        let e3 = <Position as Encodable>::spec_encode(m.location)->Ok_0;
        let e4 = <i8 as Encodable>::spec_encode(m.direction)->Ok_0;
        let t4 = e4 + rest;
        let t3 = e3 + t4;
        let t2 = e2 + t3;
        let t1 = e1 + t2;
        let t0 = e0 + t1;
        assert(decode_at::<VarInt>(t0, (0) as nat) == Ok::<(<VarInt as DeepView>::V, nat), CodecError>((m.entity_id, e0.len()))
            && <VarInt as Encodable>::spec_encode(m.entity_id) == Ok::<Seq<u8>, CodecError>(e0)
            && decode_at::<McUuid>(t0, (e0.len()) as nat) == Ok::<(<McUuid as DeepView>::V, nat), CodecError>((m.uuid, e1.len()))
            && <McUuid as Encodable>::spec_encode(m.uuid) == Ok::<Seq<u8>, CodecError>(e1)
            && decode_at::<VarInt>(t0, (e0.len() + e1.len()) as nat) == Ok::<(<VarInt as DeepView>::V, nat), CodecError>((m.motive, e2.len()))
            && <VarInt as Encodable>::spec_encode(m.motive) == Ok::<Seq<u8>, CodecError>(e2)
            && decode_at::<Position>(t0, (e0.len() + e1.len() + e2.len()) as nat) == Ok::<(<Position as DeepView>::V, nat), CodecError>((m.location, e3.len()))
            && <Position as Encodable>::spec_encode(m.location) == Ok::<Seq<u8>, CodecError>(e3)
            && decode_at::<i8>(t0, (e0.len() + e1.len() + e2.len() + e3.len()) as nat) == Ok::<(<i8 as DeepView>::V, nat), CodecError>((m.direction, e4.len()))
            && <i8 as Encodable>::spec_encode(m.direction) == Ok::<Seq<u8>, CodecError>(e4)) by {
            lemma_subrange_all(t0);
            lemma_field_round_trip::<VarInt>(m.entity_id, t0, (0) as nat, t1);
            lemma_field_round_trip::<McUuid>(m.uuid, t0, (e0.len()) as nat, t2);
            lemma_field_round_trip::<VarInt>(m.motive, t0, (e0.len() + e1.len()) as nat, t3);
            lemma_field_round_trip::<Position>(m.location, t0, (e0.len() + e1.len() + e2.len()) as nat, t4);
            lemma_field_round_trip::<i8>(m.direction, t0, (e0.len() + e1.len() + e2.len() + e3.len()) as nat, rest);
        }
        assert(e0 + e1 + e2 + e3 + e4 + rest == t0) by {
            lemma_concat_assoc(e0, e1, t2);
            lemma_concat_assoc(e0 + e1, e2, t3);
            lemma_concat_assoc(e0 + e1 + e2, e3, t4);
            lemma_concat_assoc(e0 + e1 + e2 + e3, e4, rest);
        }
        assert(Self::spec_encode(m) == Ok::<Seq<u8>, CodecError>(e0 + e1 + e2 + e3 + e4));
    }
}
/// The client-bound play message: spawn player.
pub struct SpawnPlayer {
    pub entity_id: VarInt,
    pub uuid: McUuid,
    pub x: Double,
    pub y: Double,
    pub z: Double,
    pub yaw: Angle,
    pub pitch: Angle,
}

/// The model of a `SpawnPlayer`: each field by its model.
pub struct SpawnPlayerView {
    pub entity_id: i32,
    pub uuid: u128,
    pub x: u64,
    pub y: u64,
    pub z: u64,
    pub yaw: u8,
    pub pitch: u8,
}

impl DeepView for SpawnPlayer {
    type V = SpawnPlayerView;

    open spec fn deep_view(&self) -> SpawnPlayerView {
        SpawnPlayerView {
            entity_id: self.entity_id.deep_view(),
            uuid: self.uuid.deep_view(),
            x: self.x.deep_view(),
            y: self.y.deep_view(),
            z: self.z.deep_view(),
            yaw: self.yaw.deep_view(),
            pitch: self.pitch.deep_view(),
        }
    }
}

impl Encodable for SpawnPlayer {
    /// The fields in order, with no framing.
    open spec fn spec_encode(m: SpawnPlayerView) -> Result<Seq<u8>, CodecError> {
        then_encode(then_encode(then_encode(then_encode(then_encode(then_encode(<VarInt as Encodable>::spec_encode(m.entity_id), <McUuid as Encodable>::spec_encode(m.uuid)), <Double as Encodable>::spec_encode(m.x)), <Double as Encodable>::spec_encode(m.y)), <Double as Encodable>::spec_encode(m.z)), <Angle as Encodable>::spec_encode(m.yaw)), <Angle as Encodable>::spec_encode(m.pitch))
    }

    /// The sum of the fields' sizes.
    open spec fn spec_size(m: SpawnPlayerView) -> Result<nat, CodecError> {
        add_size_spec(add_size_spec(add_size_spec(add_size_spec(add_size_spec(add_size_spec(<VarInt as Encodable>::spec_size(m.entity_id), <McUuid as Encodable>::spec_size(m.uuid)), <Double as Encodable>::spec_size(m.x)), <Double as Encodable>::spec_size(m.y)), <Double as Encodable>::spec_size(m.z)), <Angle as Encodable>::spec_size(m.yaw)), <Angle as Encodable>::spec_size(m.pitch))
    }

    proof fn lemma_size_faithful(m: SpawnPlayerView) {
        <VarInt as Encodable>::lemma_size_faithful(m.entity_id);
        <McUuid as Encodable>::lemma_size_faithful(m.uuid);
        <Double as Encodable>::lemma_size_faithful(m.x);
        <Double as Encodable>::lemma_size_faithful(m.y);
        <Double as Encodable>::lemma_size_faithful(m.z);
        <Angle as Encodable>::lemma_size_faithful(m.yaw);
        <Angle as Encodable>::lemma_size_faithful(m.pitch);
        lemma_then_size(<VarInt as Encodable>::spec_encode(m.entity_id), <VarInt as Encodable>::spec_size(m.entity_id), <McUuid as Encodable>::spec_encode(m.uuid), <McUuid as Encodable>::spec_size(m.uuid));
        lemma_then_size(then_encode(<VarInt as Encodable>::spec_encode(m.entity_id), <McUuid as Encodable>::spec_encode(m.uuid)), add_size_spec(<VarInt as Encodable>::spec_size(m.entity_id), <McUuid as Encodable>::spec_size(m.uuid)), <Double as Encodable>::spec_encode(m.x), <Double as Encodable>::spec_size(m.x));
        lemma_then_size(then_encode(then_encode(<VarInt as Encodable>::spec_encode(m.entity_id), <McUuid as Encodable>::spec_encode(m.uuid)), <Double as Encodable>::spec_encode(m.x)), add_size_spec(add_size_spec(<VarInt as Encodable>::spec_size(m.entity_id), <McUuid as Encodable>::spec_size(m.uuid)), <Double as Encodable>::spec_size(m.x)), <Double as Encodable>::spec_encode(m.y), <Double as Encodable>::spec_size(m.y));
        lemma_then_size(then_encode(then_encode(then_encode(<VarInt as Encodable>::spec_encode(m.entity_id), <McUuid as Encodable>::spec_encode(m.uuid)), <Double as Encodable>::spec_encode(m.x)), <Double as Encodable>::spec_encode(m.y)), add_size_spec(add_size_spec(add_size_spec(<VarInt as Encodable>::spec_size(m.entity_id), <McUuid as Encodable>::spec_size(m.uuid)), <Double as Encodable>::spec_size(m.x)), <Double as Encodable>::spec_size(m.y)), <Double as Encodable>::spec_encode(m.z), <Double as Encodable>::spec_size(m.z));
        lemma_then_size(then_encode(then_encode(then_encode(then_encode(<VarInt as Encodable>::spec_encode(m.entity_id), <McUuid as Encodable>::spec_encode(m.uuid)), <Double as Encodable>::spec_encode(m.x)), <Double as Encodable>::spec_encode(m.y)), <Double as Encodable>::spec_encode(m.z)), add_size_spec(add_size_spec(add_size_spec(add_size_spec(<VarInt as Encodable>::spec_size(m.entity_id), <McUuid as Encodable>::spec_size(m.uuid)), <Double as Encodable>::spec_size(m.x)), <Double as Encodable>::spec_size(m.y)), <Double as Encodable>::spec_size(m.z)), <Angle as Encodable>::spec_encode(m.yaw), <Angle as Encodable>::spec_size(m.yaw));
        lemma_then_size(then_encode(then_encode(then_encode(then_encode(then_encode(<VarInt as Encodable>::spec_encode(m.entity_id), <McUuid as Encodable>::spec_encode(m.uuid)), <Double as Encodable>::spec_encode(m.x)), <Double as Encodable>::spec_encode(m.y)), <Double as Encodable>::spec_encode(m.z)), <Angle as Encodable>::spec_encode(m.yaw)), add_size_spec(add_size_spec(add_size_spec(add_size_spec(add_size_spec(<VarInt as Encodable>::spec_size(m.entity_id), <McUuid as Encodable>::spec_size(m.uuid)), <Double as Encodable>::spec_size(m.x)), <Double as Encodable>::spec_size(m.y)), <Double as Encodable>::spec_size(m.z)), <Angle as Encodable>::spec_size(m.yaw)), <Angle as Encodable>::spec_encode(m.pitch), <Angle as Encodable>::spec_size(m.pitch));
    }

    fn encode(&self, out: &mut Vec<u8>) -> (r: Result<(), CodecError>) {
        let ghost o0 = out@;
        let start = out.len();
        let ghost e0 = <VarInt as Encodable>::spec_encode(self.entity_id.deep_view())->Ok_0;
        let ghost e1 = <McUuid as Encodable>::spec_encode(self.uuid.deep_view())->Ok_0;
        let ghost e2 = <Double as Encodable>::spec_encode(self.x.deep_view())->Ok_0;
        let ghost e3 = <Double as Encodable>::spec_encode(self.y.deep_view())->Ok_0;
        let ghost e4 = <Double as Encodable>::spec_encode(self.z.deep_view())->Ok_0;
        let ghost e5 = <Angle as Encodable>::spec_encode(self.yaw.deep_view())->Ok_0;
        let ghost e6 = <Angle as Encodable>::spec_encode(self.pitch.deep_view())->Ok_0;
        match self.entity_id.encode(out) {
            Ok(_) => {},
            Err(e) => return Err(e),
        }
        match self.uuid.encode(out) {
            Ok(_) => {},
            Err(e) => {
                roll_back(out, Ghost(o0), Ghost(e0), start);
                return Err(e);
            },
        }
        proof {
            lemma_concat_assoc(o0, e0, e1);
        }
        match self.x.encode(out) {
            Ok(_) => {},
            Err(e) => {
                roll_back(out, Ghost(o0), Ghost(e0 + e1), start);
                return Err(e);
            },
        }
        proof {
            lemma_concat_assoc(o0, e0 + e1, e2);
        }
        match self.y.encode(out) {
            Ok(_) => {},
            Err(e) => {
                roll_back(out, Ghost(o0), Ghost(e0 + e1 + e2), start);
                return Err(e);
            },
        }
        proof {
            lemma_concat_assoc(o0, e0 + e1 + e2, e3);
        }
        match self.z.encode(out) {
            Ok(_) => {},
            Err(e) => {
                roll_back(out, Ghost(o0), Ghost(e0 + e1 + e2 + e3), start);
                return Err(e);
            },
        }
        proof {
            lemma_concat_assoc(o0, e0 + e1 + e2 + e3, e4);
        }
        match self.yaw.encode(out) {
            Ok(_) => {},
            Err(e) => {
                roll_back(out, Ghost(o0), Ghost(e0 + e1 + e2 + e3 + e4), start);
                return Err(e);
            },
        }
        proof {
            lemma_concat_assoc(o0, e0 + e1 + e2 + e3 + e4, e5);
        }
        match self.pitch.encode(out) {
            Ok(_) => {},
            Err(e) => {
                roll_back(out, Ghost(o0), Ghost(e0 + e1 + e2 + e3 + e4 + e5), start);
                return Err(e);
            },
        }
        proof {
            lemma_concat_assoc(o0, e0 + e1 + e2 + e3 + e4 + e5, e6);
        }
        Ok(())
    }

    fn size(&self) -> (r: Result<VarInt, CodecError>) {
        proof {
            <VarInt as Encodable>::lemma_size_faithful(self.entity_id.deep_view());
            <McUuid as Encodable>::lemma_size_faithful(self.uuid.deep_view());
            <Double as Encodable>::lemma_size_faithful(self.x.deep_view());
            <Double as Encodable>::lemma_size_faithful(self.y.deep_view());
            <Double as Encodable>::lemma_size_faithful(self.z.deep_view());
            <Angle as Encodable>::lemma_size_faithful(self.yaw.deep_view());
            <Angle as Encodable>::lemma_size_faithful(self.pitch.deep_view());
        }
        let ghost w0 = <VarInt as Encodable>::spec_size(self.entity_id.deep_view());
        let ghost w1 = <McUuid as Encodable>::spec_size(self.uuid.deep_view());
        let ghost w2 = <Double as Encodable>::spec_size(self.x.deep_view());
        let ghost w3 = <Double as Encodable>::spec_size(self.y.deep_view());
        let ghost w4 = <Double as Encodable>::spec_size(self.z.deep_view());
        let ghost w5 = <Angle as Encodable>::spec_size(self.yaw.deep_view());
        let ghost w6 = <Angle as Encodable>::spec_size(self.pitch.deep_view());
        let t0 = self.entity_id.size();
        let t1 = add_size(t0, Ghost(w0), self.uuid.size(), Ghost(w1));
        let ghost c1 = add_size_spec(w0, w1);
        let t2 = add_size(t1, Ghost(c1), self.x.size(), Ghost(w2));
        let ghost c2 = add_size_spec(c1, w2);
        let t3 = add_size(t2, Ghost(c2), self.y.size(), Ghost(w3));
        let ghost c3 = add_size_spec(c2, w3);
        let t4 = add_size(t3, Ghost(c3), self.z.size(), Ghost(w4));
        let ghost c4 = add_size_spec(c3, w4);
        let t5 = add_size(t4, Ghost(c4), self.yaw.size(), Ghost(w5));
        let ghost c5 = add_size_spec(c4, w5);
        let t6 = add_size(t5, Ghost(c5), self.pitch.size(), Ghost(w6));
        t6
    }
}

impl Decodable for SpawnPlayer {
    open spec fn spec_decode(bytes: Seq<u8>) -> Result<(SpawnPlayerView, nat), CodecError> {
        match decode_at::<VarInt>(bytes, 0) {
            Err(e) => Err(e),
            Ok((entity_id, n0)) => match decode_at::<McUuid>(bytes, n0) {
                Err(e) => Err(e),
                Ok((uuid, n1)) => match decode_at::<Double>(bytes, n0 + n1) {
                    Err(e) => Err(e),
                    Ok((x, n2)) => match decode_at::<Double>(bytes, n0 + n1 + n2) {
                        Err(e) => Err(e),
                        Ok((y, n3)) => match decode_at::<Double>(bytes, n0 + n1 + n2 + n3) {
                            Err(e) => Err(e),
                            Ok((z, n4)) => match decode_at::<Angle>(bytes, n0 + n1 + n2 + n3 + n4) {
                                Err(e) => Err(e),
                                Ok((yaw, n5)) => match decode_at::<Angle>(bytes, n0 + n1 + n2 + n3 + n4 + n5) {
                                    Err(e) => Err(e),
                                    Ok((pitch, n6)) => Ok((SpawnPlayerView { entity_id, uuid, x, y, z, yaw, pitch }, n0 + n1 + n2 + n3 + n4 + n5 + n6)),
                                },
                            },
                        },
                    },
                },
            },
        }
    }

    proof fn lemma_decode_len(bytes: Seq<u8>) {
        lemma_decode_at::<VarInt>(bytes, 0);
        <VarInt as Decodable>::lemma_decode_len(bytes.subrange((0) as int, bytes.len() as int));
        if let Ok((entity_id, n0)) = decode_at::<VarInt>(bytes, 0) {
            lemma_decode_at::<McUuid>(bytes, n0);
            <McUuid as Decodable>::lemma_decode_len(bytes.subrange((n0) as int, bytes.len() as int));
            if let Ok((uuid, n1)) = decode_at::<McUuid>(bytes, n0) {
                lemma_decode_at::<Double>(bytes, n0 + n1);
                <Double as Decodable>::lemma_decode_len(bytes.subrange((n0 + n1) as int, bytes.len() as int));
                if let Ok((x, n2)) = decode_at::<Double>(bytes, n0 + n1) {
                    lemma_decode_at::<Double>(bytes, n0 + n1 + n2);
                    <Double as Decodable>::lemma_decode_len(bytes.subrange((n0 + n1 + n2) as int, bytes.len() as int));
                    if let Ok((y, n3)) = decode_at::<Double>(bytes, n0 + n1 + n2) {
                        lemma_decode_at::<Double>(bytes, n0 + n1 + n2 + n3);
                        <Double as Decodable>::lemma_decode_len(bytes.subrange((n0 + n1 + n2 + n3) as int, bytes.len() as int));
                        if let Ok((z, n4)) = decode_at::<Double>(bytes, n0 + n1 + n2 + n3) {
                            lemma_decode_at::<Angle>(bytes, n0 + n1 + n2 + n3 + n4);
                            <Angle as Decodable>::lemma_decode_len(bytes.subrange((n0 + n1 + n2 + n3 + n4) as int, bytes.len() as int));
                            if let Ok((yaw, n5)) = decode_at::<Angle>(bytes, n0 + n1 + n2 + n3 + n4) {
                                lemma_decode_at::<Angle>(bytes, n0 + n1 + n2 + n3 + n4 + n5);
                                <Angle as Decodable>::lemma_decode_len(bytes.subrange((n0 + n1 + n2 + n3 + n4 + n5) as int, bytes.len() as int));
                            }
                        }
                    }
                }
            }
        }
    }

    fn decode(reader: &mut ByteReader) -> (r: Result<SpawnPlayer, CodecError>) {
        let ghost r0 = *reader;
        let ghost rest0 = reader.rest();
        proof {
            ByteReader::lemma_rest_since(r0, *reader);
            lemma_decode_at::<VarInt>(rest0, (reader.pos() - r0.pos()) as nat);
        }
        let entity_id = match <VarInt>::decode(reader) {
            Ok(v) => v,
            Err(e) => return Err(e),
        };
        proof {
            ByteReader::lemma_rest_since(r0, *reader);
            lemma_decode_at::<McUuid>(rest0, (reader.pos() - r0.pos()) as nat);
        }
        let uuid = match <McUuid>::decode(reader) {
            Ok(v) => v,
            Err(e) => return Err(e),
        };
        proof {
            ByteReader::lemma_rest_since(r0, *reader);
            lemma_decode_at::<Double>(rest0, (reader.pos() - r0.pos()) as nat);
        }
        let x = match <Double>::decode(reader) {
            Ok(v) => v,
            Err(e) => return Err(e),
        };
        proof {
            ByteReader::lemma_rest_since(r0, *reader);
            lemma_decode_at::<Double>(rest0, (reader.pos() - r0.pos()) as nat);
        }
        let y = match <Double>::decode(reader) {
            Ok(v) => v,
            Err(e) => return Err(e),
        };
        proof {
            ByteReader::lemma_rest_since(r0, *reader);
            lemma_decode_at::<Double>(rest0, (reader.pos() - r0.pos()) as nat);
        }
        let z = match <Double>::decode(reader) {
            Ok(v) => v,
            Err(e) => return Err(e),
        };
        proof {
            ByteReader::lemma_rest_since(r0, *reader);
            lemma_decode_at::<Angle>(rest0, (reader.pos() - r0.pos()) as nat);
        }
        let yaw = match <Angle>::decode(reader) {
            Ok(v) => v,
            Err(e) => return Err(e),
        };
        proof {
            ByteReader::lemma_rest_since(r0, *reader);
            lemma_decode_at::<Angle>(rest0, (reader.pos() - r0.pos()) as nat);
        }
        let pitch = match <Angle>::decode(reader) {
            Ok(v) => v,
            Err(e) => return Err(e),
        };
        Ok(SpawnPlayer { entity_id, uuid, x, y, z, yaw, pitch })
    }
}

impl Codec for SpawnPlayer {
    open spec fn valid(m: SpawnPlayerView) -> bool {
        &&& <VarInt as Codec>::valid(m.entity_id)
        &&& <VarInt as Codec>::delimited()
        &&& <McUuid as Codec>::valid(m.uuid)
        &&& <McUuid as Codec>::delimited()
        &&& <Double as Codec>::valid(m.x)
        &&& <Double as Codec>::delimited()
        &&& <Double as Codec>::valid(m.y)
        &&& <Double as Codec>::delimited()
        &&& <Double as Codec>::valid(m.z)
        &&& <Double as Codec>::delimited()
        &&& <Angle as Codec>::valid(m.yaw)
        &&& <Angle as Codec>::delimited()
        &&& <Angle as Codec>::valid(m.pitch)
    }

    open spec fn delimited() -> bool {
        <Angle as Codec>::delimited()
    }

    proof fn lemma_round_trip(m: SpawnPlayerView, rest: Seq<u8>) {
        let e0 = <VarInt as Encodable>::spec_encode(m.entity_id)->Ok_0;
        let e1 = <McUuid as Encodable>::spec_encode(m.uuid)->Ok_0;
        let e2 = <Double as Encodable>::spec_encode(m.x)->Ok_0;
        let e3 = <Double as Encodable>::spec_encode(m.y)->Ok_0;
        let e4 = <Double as Encodable>::spec_encode(m.z)->Ok_0;
        let e5 = <Angle as Encodable>::spec_encode(m.yaw)->Ok_0;
        let e6 = <Angle as Encodable>::spec_encode(m.pitch)->Ok_0;
        let t6 = e6 + rest;
        let t5 = e5 + t6;
        let t4 = e4 + t5;
        let t3 = e3 + t4;
        let t2 = e2 + t3;
        let t1 = e1 + t2;
        let t0 = e0 + t1;
        assert(decode_at::<VarInt>(t0, (0) as nat) == Ok::<(<VarInt as DeepView>::V, nat), CodecError>((m.entity_id, e0.len()))
            && <VarInt as Encodable>::spec_encode(m.entity_id) == Ok::<Seq<u8>, CodecError>(e0)
            && decode_at::<McUuid>(t0, (e0.len()) as nat) == Ok::<(<McUuid as DeepView>::V, nat), CodecError>((m.uuid, e1.len()))
            && <McUuid as Encodable>::spec_encode(m.uuid) == Ok::<Seq<u8>, CodecError>(e1)
            && decode_at::<Double>(t0, (e0.len() + e1.len()) as nat) == Ok::<(<Double as DeepView>::V, nat), CodecError>((m.x, e2.len()))
            && <Double as Encodable>::spec_encode(m.x) == Ok::<Seq<u8>, CodecError>(e2)
            && decode_at::<Double>(t0, (e0.len() + e1.len() + e2.len()) as nat) == Ok::<(<Double as DeepView>::V, nat), CodecError>((m.y, e3.len()))
            && <Double as Encodable>::spec_encode(m.y) == Ok::<Seq<u8>, CodecError>(e3)
            && decode_at::<Double>(t0, (e0.len() + e1.len() + e2.len() + e3.len()) as nat) == Ok::<(<Double as DeepView>::V, nat), CodecError>((m.z, e4.len()))
            && <Double as Encodable>::spec_encode(m.z) == Ok::<Seq<u8>, CodecError>(e4)
            && decode_at::<Angle>(t0, (e0.len() + e1.len() + e2.len() + e3.len() + e4.len()) as nat) == Ok::<(<Angle as DeepView>::V, nat), CodecError>((m.yaw, e5.len()))
            && <Angle as Encodable>::spec_encode(m.yaw) == Ok::<Seq<u8>, CodecError>(e5)
            && decode_at::<Angle>(t0, (e0.len() + e1.len() + e2.len() + e3.len() + e4.len() + e5.len()) as nat) == Ok::<(<Angle as DeepView>::V, nat), CodecError>((m.pitch, e6.len()))
            && <Angle as Encodable>::spec_encode(m.pitch) == Ok::<Seq<u8>, CodecError>(e6)) by {
            lemma_subrange_all(t0);
            lemma_field_round_trip::<VarInt>(m.entity_id, t0, (0) as nat, t1);
            lemma_field_round_trip::<McUuid>(m.uuid, t0, (e0.len()) as nat, t2);
            lemma_field_round_trip::<Double>(m.x, t0, (e0.len() + e1.len()) as nat, t3);
            lemma_field_round_trip::<Double>(m.y, t0, (e0.len() + e1.len() + e2.len()) as nat, t4);
            lemma_field_round_trip::<Double>(m.z, t0, (e0.len() + e1.len() + e2.len() + e3.len()) as nat, t5);
            lemma_field_round_trip::<Angle>(m.yaw, t0, (e0.len() + e1.len() + e2.len() + e3.len() + e4.len()) as nat, t6);
            lemma_field_round_trip::<Angle>(m.pitch, t0, (e0.len() + e1.len() + e2.len() + e3.len() + e4.len() + e5.len()) as nat, rest);
        }
        assert(e0 + e1 + e2 + e3 + e4 + e5 + e6 + rest == t0) by {
            lemma_concat_assoc(e0, e1, t2);
            lemma_concat_assoc(e0 + e1, e2, t3);
            lemma_concat_assoc(e0 + e1 + e2, e3, t4);
            lemma_concat_assoc(e0 + e1 + e2 + e3, e4, t5);
            lemma_concat_assoc(e0 + e1 + e2 + e3 + e4, e5, t6);
            lemma_concat_assoc(e0 + e1 + e2 + e3 + e4 + e5, e6, rest);
        }
        assert(Self::spec_encode(m) == Ok::<Seq<u8>, CodecError>(e0 + e1 + e2 + e3 + e4 + e5 + e6));
    }
}
/// The client-bound play message: sculk vibration signal block.
pub struct SculkVibrationSignalBlock {
    pub source_position: Position,
    pub destination_identifier: Identifier,
    pub destination: Position,
    pub arrival_ticks: VarInt,
}

/// The model of a `SculkVibrationSignalBlock`: each field by its model.
pub struct SculkVibrationSignalBlockView {
    pub source_position: (i64, i64, i64),
    pub destination_identifier: Seq<char>,
    pub destination: (i64, i64, i64),
    pub arrival_ticks: i32,
}

impl DeepView for SculkVibrationSignalBlock {
    type V = SculkVibrationSignalBlockView;

    open spec fn deep_view(&self) -> SculkVibrationSignalBlockView {
        SculkVibrationSignalBlockView {
            source_position: self.source_position.deep_view(),
            destination_identifier: self.destination_identifier.deep_view(),
            destination: self.destination.deep_view(),
            arrival_ticks: self.arrival_ticks.deep_view(),
        }
    }
}

impl Encodable for SculkVibrationSignalBlock {
    /// The fields in order, with no framing.
    open spec fn spec_encode(m: SculkVibrationSignalBlockView) -> Result<Seq<u8>, CodecError> {
        then_encode(then_encode(then_encode(<Position as Encodable>::spec_encode(m.source_position), <Identifier as Encodable>::spec_encode(m.destination_identifier)), <Position as Encodable>::spec_encode(m.destination)), <VarInt as Encodable>::spec_encode(m.arrival_ticks))
    }

    /// The sum of the fields' sizes.
    open spec fn spec_size(m: SculkVibrationSignalBlockView) -> Result<nat, CodecError> {
        add_size_spec(add_size_spec(add_size_spec(<Position as Encodable>::spec_size(m.source_position), <Identifier as Encodable>::spec_size(m.destination_identifier)), <Position as Encodable>::spec_size(m.destination)), <VarInt as Encodable>::spec_size(m.arrival_ticks))
    }

    proof fn lemma_size_faithful(m: SculkVibrationSignalBlockView) {
        <Position as Encodable>::lemma_size_faithful(m.source_position);
        <Identifier as Encodable>::lemma_size_faithful(m.destination_identifier);
        <Position as Encodable>::lemma_size_faithful(m.destination);
        <VarInt as Encodable>::lemma_size_faithful(m.arrival_ticks);
        lemma_then_size(<Position as Encodable>::spec_encode(m.source_position), <Position as Encodable>::spec_size(m.source_position), <Identifier as Encodable>::spec_encode(m.destination_identifier), <Identifier as Encodable>::spec_size(m.destination_identifier));
        lemma_then_size(then_encode(<Position as Encodable>::spec_encode(m.source_position), <Identifier as Encodable>::spec_encode(m.destination_identifier)), add_size_spec(<Position as Encodable>::spec_size(m.source_position), <Identifier as Encodable>::spec_size(m.destination_identifier)), <Position as Encodable>::spec_encode(m.destination), <Position as Encodable>::spec_size(m.destination));
        lemma_then_size(then_encode(then_encode(<Position as Encodable>::spec_encode(m.source_position), <Identifier as Encodable>::spec_encode(m.destination_identifier)), <Position as Encodable>::spec_encode(m.destination)), add_size_spec(add_size_spec(<Position as Encodable>::spec_size(m.source_position), <Identifier as Encodable>::spec_size(m.destination_identifier)), <Position as Encodable>::spec_size(m.destination)), <VarInt as Encodable>::spec_encode(m.arrival_ticks), <VarInt as Encodable>::spec_size(m.arrival_ticks));
    }

    fn encode(&self, out: &mut Vec<u8>) -> (r: Result<(), CodecError>) {
        let ghost o0 = out@;
        let start = out.len();
        let ghost e0 = <Position as Encodable>::spec_encode(self.source_position.deep_view())->Ok_0;
        let ghost e1 = <Identifier as Encodable>::spec_encode(self.destination_identifier.deep_view())->Ok_0;
        let ghost e2 = <Position as Encodable>::spec_encode(self.destination.deep_view())->Ok_0;
        let ghost e3 = <VarInt as Encodable>::spec_encode(self.arrival_ticks.deep_view())->Ok_0;
        match self.source_position.encode(out) {
            Ok(_) => {},
            Err(e) => return Err(e),
        }
        match self.destination_identifier.encode(out) {
            Ok(_) => {},
            Err(e) => {
                roll_back(out, Ghost(o0), Ghost(e0), start);
                return Err(e);
            },
        }
        proof {
            lemma_concat_assoc(o0, e0, e1);
        }
        match self.destination.encode(out) {
            Ok(_) => {},
            Err(e) => {
                roll_back(out, Ghost(o0), Ghost(e0 + e1), start);
                return Err(e);
            },
        }
        proof {
            lemma_concat_assoc(o0, e0 + e1, e2);
        }
        match self.arrival_ticks.encode(out) {
            Ok(_) => {},
            Err(e) => {
                roll_back(out, Ghost(o0), Ghost(e0 + e1 + e2), start);
                return Err(e);
            },
        }
        proof {
            lemma_concat_assoc(o0, e0 + e1 + e2, e3);
        }
        Ok(())
    }

    fn size(&self) -> (r: Result<VarInt, CodecError>) {
        proof {
            <Position as Encodable>::lemma_size_faithful(self.source_position.deep_view());
            <Identifier as Encodable>::lemma_size_faithful(self.destination_identifier.deep_view());
            <Position as Encodable>::lemma_size_faithful(self.destination.deep_view());
            <VarInt as Encodable>::lemma_size_faithful(self.arrival_ticks.deep_view());
        }
        let ghost w0 = <Position as Encodable>::spec_size(self.source_position.deep_view());
        let ghost w1 = <Identifier as Encodable>::spec_size(self.destination_identifier.deep_view());
        let ghost w2 = <Position as Encodable>::spec_size(self.destination.deep_view());
        let ghost w3 = <VarInt as Encodable>::spec_size(self.arrival_ticks.deep_view());
        let t0 = self.source_position.size();
        let t1 = add_size(t0, Ghost(w0), self.destination_identifier.size(), Ghost(w1));
        let ghost c1 = add_size_spec(w0, w1);
        let t2 = add_size(t1, Ghost(c1), self.destination.size(), Ghost(w2));
        let ghost c2 = add_size_spec(c1, w2);
        let t3 = add_size(t2, Ghost(c2), self.arrival_ticks.size(), Ghost(w3));
        t3
    }
}

impl Decodable for SculkVibrationSignalBlock {
    open spec fn spec_decode(bytes: Seq<u8>) -> Result<(SculkVibrationSignalBlockView, nat), CodecError> {
        match decode_at::<Position>(bytes, 0) {
            Err(e) => Err(e),
            Ok((source_position, n0)) => match decode_at::<Identifier>(bytes, n0) {
                Err(e) => Err(e),
                Ok((destination_identifier, n1)) => match decode_at::<Position>(bytes, n0 + n1) {
                    Err(e) => Err(e),
                    Ok((destination, n2)) => match decode_at::<VarInt>(bytes, n0 + n1 + n2) {
                        Err(e) => Err(e),
                        Ok((arrival_ticks, n3)) => Ok((SculkVibrationSignalBlockView { source_position, destination_identifier, destination, arrival_ticks }, n0 + n1 + n2 + n3)),
                    },
                },
            },
        }
    }

    proof fn lemma_decode_len(bytes: Seq<u8>) {
        lemma_decode_at::<Position>(bytes, 0);
        <Position as Decodable>::lemma_decode_len(bytes.subrange((0) as int, bytes.len() as int));
        if let Ok((source_position, n0)) = decode_at::<Position>(bytes, 0) {
            lemma_decode_at::<Identifier>(bytes, n0);
            <Identifier as Decodable>::lemma_decode_len(bytes.subrange((n0) as int, bytes.len() as int));
            if let Ok((destination_identifier, n1)) = decode_at::<Identifier>(bytes, n0) {
                lemma_decode_at::<Position>(bytes, n0 + n1);
                <Position as Decodable>::lemma_decode_len(bytes.subrange((n0 + n1) as int, bytes.len() as int));
                if let Ok((destination, n2)) = decode_at::<Position>(bytes, n0 + n1) {
                    lemma_decode_at::<VarInt>(bytes, n0 + n1 + n2);
                    <VarInt as Decodable>::lemma_decode_len(bytes.subrange((n0 + n1 + n2) as int, bytes.len() as int));
                }
            }
        }
    }

    fn decode(reader: &mut ByteReader) -> (r: Result<SculkVibrationSignalBlock, CodecError>) {
        let ghost r0 = *reader;
        let ghost rest0 = reader.rest();
        proof {
            ByteReader::lemma_rest_since(r0, *reader);
            lemma_decode_at::<Position>(rest0, (reader.pos() - r0.pos()) as nat);
        }
        let source_position = match <Position>::decode(reader) {
            Ok(v) => v,
            Err(e) => return Err(e),
        };
        proof {
            ByteReader::lemma_rest_since(r0, *reader);
            lemma_decode_at::<Identifier>(rest0, (reader.pos() - r0.pos()) as nat);
        }
        let destination_identifier = match <Identifier>::decode(reader) {
            Ok(v) => v,
            Err(e) => return Err(e),
        };
        proof {
            ByteReader::lemma_rest_since(r0, *reader);
            lemma_decode_at::<Position>(rest0, (reader.pos() - r0.pos()) as nat);
        }
        let destination = match <Position>::decode(reader) {
            Ok(v) => v,
            Err(e) => return Err(e),
        };
        proof {
            ByteReader::lemma_rest_since(r0, *reader);
            lemma_decode_at::<VarInt>(rest0, (reader.pos() - r0.pos()) as nat);
        }
        let arrival_ticks = match <VarInt>::decode(reader) {
            Ok(v) => v,
            Err(e) => return Err(e),
        };
        Ok(SculkVibrationSignalBlock { source_position, destination_identifier, destination, arrival_ticks })
    }
}

impl Codec for SculkVibrationSignalBlock {
    open spec fn valid(m: SculkVibrationSignalBlockView) -> bool {
        &&& <Position as Codec>::valid(m.source_position)
        &&& <Position as Codec>::delimited()
        &&& <Identifier as Codec>::valid(m.destination_identifier)
        &&& <Identifier as Codec>::delimited()
        &&& <Position as Codec>::valid(m.destination)
        &&& <Position as Codec>::delimited()
        &&& <VarInt as Codec>::valid(m.arrival_ticks)
    }

    open spec fn delimited() -> bool {
        <VarInt as Codec>::delimited()
    }

    proof fn lemma_round_trip(m: SculkVibrationSignalBlockView, rest: Seq<u8>) {
        let e0 = <Position as Encodable>::spec_encode(m.source_position)->Ok_0;
        let e1 = <Identifier as Encodable>::spec_encode(m.destination_identifier)->Ok_0;
        let e2 = <Position as Encodable>::spec_encode(m.destination)->Ok_0;
        let e3 = <VarInt as Encodable>::spec_encode(m.arrival_ticks)->Ok_0;
        let t3 = e3 + rest;
        let t2 = e2 + t3;
        let t1 = e1 + t2;
        let t0 = e0 + t1;
        assert(decode_at::<Position>(t0, (0) as nat) == Ok::<(<Position as DeepView>::V, nat), CodecError>((m.source_position, e0.len()))
            && <Position as Encodable>::spec_encode(m.source_position) == Ok::<Seq<u8>, CodecError>(e0)
            && decode_at::<Identifier>(t0, (e0.len()) as nat) == Ok::<(<Identifier as DeepView>::V, nat), CodecError>((m.destination_identifier, e1.len()))
            && <Identifier as Encodable>::spec_encode(m.destination_identifier) == Ok::<Seq<u8>, CodecError>(e1)
            && decode_at::<Position>(t0, (e0.len() + e1.len()) as nat) == Ok::<(<Position as DeepView>::V, nat), CodecError>((m.destination, e2.len()))
            && <Position as Encodable>::spec_encode(m.destination) == Ok::<Seq<u8>, CodecError>(e2)
            && decode_at::<VarInt>(t0, (e0.len() + e1.len() + e2.len()) as nat) == Ok::<(<VarInt as DeepView>::V, nat), CodecError>((m.arrival_ticks, e3.len()))
            && <VarInt as Encodable>::spec_encode(m.arrival_ticks) == Ok::<Seq<u8>, CodecError>(e3)) by {
            lemma_subrange_all(t0);
            lemma_field_round_trip::<Position>(m.source_position, t0, (0) as nat, t1);
            lemma_field_round_trip::<Identifier>(m.destination_identifier, t0, (e0.len()) as nat, t2);
            lemma_field_round_trip::<Position>(m.destination, t0, (e0.len() + e1.len()) as nat, t3);
            lemma_field_round_trip::<VarInt>(m.arrival_ticks, t0, (e0.len() + e1.len() + e2.len()) as nat, rest);
        }
        assert(e0 + e1 + e2 + e3 + rest == t0) by {
            lemma_concat_assoc(e0, e1, t2);
            lemma_concat_assoc(e0 + e1, e2, t3);
            lemma_concat_assoc(e0 + e1 + e2, e3, rest);
        }
        assert(Self::spec_encode(m) == Ok::<Seq<u8>, CodecError>(e0 + e1 + e2 + e3));
    }
}
/// The client-bound play message: sculk vibration signal entity.
pub struct SculkVibrationSignalEntity {
    pub source_position: Position,
    pub destination_identifier: Identifier,
    pub destination: VarInt,
    pub arrival_ticks: VarInt,
}

/// The model of a `SculkVibrationSignalEntity`: each field by its model.
pub struct SculkVibrationSignalEntityView {
    pub source_position: (i64, i64, i64),
    pub destination_identifier: Seq<char>,
    pub destination: i32,
    pub arrival_ticks: i32,
}

impl DeepView for SculkVibrationSignalEntity {
    type V = SculkVibrationSignalEntityView;

    open spec fn deep_view(&self) -> SculkVibrationSignalEntityView {
        SculkVibrationSignalEntityView {
            source_position: self.source_position.deep_view(),
            destination_identifier: self.destination_identifier.deep_view(),
            destination: self.destination.deep_view(),
            arrival_ticks: self.arrival_ticks.deep_view(),
        }
    }
}

impl Encodable for SculkVibrationSignalEntity {
    /// The fields in order, with no framing.
    open spec fn spec_encode(m: SculkVibrationSignalEntityView) -> Result<Seq<u8>, CodecError> {
        then_encode(then_encode(then_encode(<Position as Encodable>::spec_encode(m.source_position), <Identifier as Encodable>::spec_encode(m.destination_identifier)), <VarInt as Encodable>::spec_encode(m.destination)), <VarInt as Encodable>::spec_encode(m.arrival_ticks))
    }

    /// The sum of the fields' sizes.
    open spec fn spec_size(m: SculkVibrationSignalEntityView) -> Result<nat, CodecError> {
        add_size_spec(add_size_spec(add_size_spec(<Position as Encodable>::spec_size(m.source_position), <Identifier as Encodable>::spec_size(m.destination_identifier)), <VarInt as Encodable>::spec_size(m.destination)), <VarInt as Encodable>::spec_size(m.arrival_ticks))
    }

    proof fn lemma_size_faithful(m: SculkVibrationSignalEntityView) {
        <Position as Encodable>::lemma_size_faithful(m.source_position);
        <Identifier as Encodable>::lemma_size_faithful(m.destination_identifier);
        <VarInt as Encodable>::lemma_size_faithful(m.destination);
        <VarInt as Encodable>::lemma_size_faithful(m.arrival_ticks);
        lemma_then_size(<Position as Encodable>::spec_encode(m.source_position), <Position as Encodable>::spec_size(m.source_position), <Identifier as Encodable>::spec_encode(m.destination_identifier), <Identifier as Encodable>::spec_size(m.destination_identifier));
        lemma_then_size(then_encode(<Position as Encodable>::spec_encode(m.source_position), <Identifier as Encodable>::spec_encode(m.destination_identifier)), add_size_spec(<Position as Encodable>::spec_size(m.source_position), <Identifier as Encodable>::spec_size(m.destination_identifier)), <VarInt as Encodable>::spec_encode(m.destination), <VarInt as Encodable>::spec_size(m.destination));
        lemma_then_size(then_encode(then_encode(<Position as Encodable>::spec_encode(m.source_position), <Identifier as Encodable>::spec_encode(m.destination_identifier)), <VarInt as Encodable>::spec_encode(m.destination)), add_size_spec(add_size_spec(<Position as Encodable>::spec_size(m.source_position), <Identifier as Encodable>::spec_size(m.destination_identifier)), <VarInt as Encodable>::spec_size(m.destination)), <VarInt as Encodable>::spec_encode(m.arrival_ticks), <VarInt as Encodable>::spec_size(m.arrival_ticks));
    }

    fn encode(&self, out: &mut Vec<u8>) -> (r: Result<(), CodecError>) {
        let ghost o0 = out@;
        let start = out.len();
        let ghost e0 = <Position as Encodable>::spec_encode(self.source_position.deep_view())->Ok_0;
        let ghost e1 = <Identifier as Encodable>::spec_encode(self.destination_identifier.deep_view())->Ok_0;
        let ghost e2 = <VarInt as Encodable>::spec_encode(self.destination.deep_view())->Ok_0;
        let ghost e3 = <VarInt as Encodable>::spec_encode(self.arrival_ticks.deep_view())->Ok_0;
        match self.source_position.encode(out) {
            Ok(_) => {},
            Err(e) => return Err(e),
        }
        match self.destination_identifier.encode(out) {
            Ok(_) => {},
            Err(e) => {
                roll_back(out, Ghost(o0), Ghost(e0), start);
                return Err(e);
            },
        }
        proof {
            lemma_concat_assoc(o0, e0, e1);
        }
        match self.destination.encode(out) {
            Ok(_) => {},
            Err(e) => {
                roll_back(out, Ghost(o0), Ghost(e0 + e1), start);
                return Err(e);
            },
        }
        proof {
            lemma_concat_assoc(o0, e0 + e1, e2);
        }
        match self.arrival_ticks.encode(out) {
            Ok(_) => {},
            Err(e) => {
                roll_back(out, Ghost(o0), Ghost(e0 + e1 + e2), start);
                return Err(e);
            },
        }
        proof {
            lemma_concat_assoc(o0, e0 + e1 + e2, e3);
        }
        Ok(())
    }

    fn size(&self) -> (r: Result<VarInt, CodecError>) {
        proof {
            <Position as Encodable>::lemma_size_faithful(self.source_position.deep_view());
            <Identifier as Encodable>::lemma_size_faithful(self.destination_identifier.deep_view());
            <VarInt as Encodable>::lemma_size_faithful(self.destination.deep_view());
            <VarInt as Encodable>::lemma_size_faithful(self.arrival_ticks.deep_view());
        }
        let ghost w0 = <Position as Encodable>::spec_size(self.source_position.deep_view());
        let ghost w1 = <Identifier as Encodable>::spec_size(self.destination_identifier.deep_view());
        let ghost w2 = <VarInt as Encodable>::spec_size(self.destination.deep_view());
        let ghost w3 = <VarInt as Encodable>::spec_size(self.arrival_ticks.deep_view());
        let t0 = self.source_position.size();
        let t1 = add_size(t0, Ghost(w0), self.destination_identifier.size(), Ghost(w1));
        let ghost c1 = add_size_spec(w0, w1);
        let t2 = add_size(t1, Ghost(c1), self.destination.size(), Ghost(w2));
        let ghost c2 = add_size_spec(c1, w2);
        let t3 = add_size(t2, Ghost(c2), self.arrival_ticks.size(), Ghost(w3));
        t3
    }
}

impl Decodable for SculkVibrationSignalEntity {
    open spec fn spec_decode(bytes: Seq<u8>) -> Result<(SculkVibrationSignalEntityView, nat), CodecError> {
        match decode_at::<Position>(bytes, 0) {
            Err(e) => Err(e),
            Ok((source_position, n0)) => match decode_at::<Identifier>(bytes, n0) {
                Err(e) => Err(e),
                Ok((destination_identifier, n1)) => match decode_at::<VarInt>(bytes, n0 + n1) {
                    Err(e) => Err(e),
                    Ok((destination, n2)) => match decode_at::<VarInt>(bytes, n0 + n1 + n2) {
                        Err(e) => Err(e),
                        Ok((arrival_ticks, n3)) => Ok((SculkVibrationSignalEntityView { source_position, destination_identifier, destination, arrival_ticks }, n0 + n1 + n2 + n3)),
                    },
                },
            },
        }
    }

    proof fn lemma_decode_len(bytes: Seq<u8>) {
        lemma_decode_at::<Position>(bytes, 0);
        <Position as Decodable>::lemma_decode_len(bytes.subrange((0) as int, bytes.len() as int));
        if let Ok((source_position, n0)) = decode_at::<Position>(bytes, 0) {
            lemma_decode_at::<Identifier>(bytes, n0);
            <Identifier as Decodable>::lemma_decode_len(bytes.subrange((n0) as int, bytes.len() as int));
            if let Ok((destination_identifier, n1)) = decode_at::<Identifier>(bytes, n0) {
                lemma_decode_at::<VarInt>(bytes, n0 + n1);
                <VarInt as Decodable>::lemma_decode_len(bytes.subrange((n0 + n1) as int, bytes.len() as int));
                if let Ok((destination, n2)) = decode_at::<VarInt>(bytes, n0 + n1) {
                    lemma_decode_at::<VarInt>(bytes, n0 + n1 + n2);
                    <VarInt as Decodable>::lemma_decode_len(bytes.subrange((n0 + n1 + n2) as int, bytes.len() as int));
                }
            }
        }
    }

    fn decode(reader: &mut ByteReader) -> (r: Result<SculkVibrationSignalEntity, CodecError>) {
        let ghost r0 = *reader;
        let ghost rest0 = reader.rest();
        proof {
            ByteReader::lemma_rest_since(r0, *reader);
            lemma_decode_at::<Position>(rest0, (reader.pos() - r0.pos()) as nat);
        }
        let source_position = match <Position>::decode(reader) {
            Ok(v) => v,
            Err(e) => return Err(e),
        };
        proof {
            ByteReader::lemma_rest_since(r0, *reader);
            lemma_decode_at::<Identifier>(rest0, (reader.pos() - r0.pos()) as nat);
        }
        let destination_identifier = match <Identifier>::decode(reader) {
            Ok(v) => v,
            Err(e) => return Err(e),
        };
        proof {
            ByteReader::lemma_rest_since(r0, *reader);
            lemma_decode_at::<VarInt>(rest0, (reader.pos() - r0.pos()) as nat);
        }
        let destination = match <VarInt>::decode(reader) {
            Ok(v) => v,
            Err(e) => return Err(e),
        };
        proof {
            ByteReader::lemma_rest_since(r0, *reader);
            lemma_decode_at::<VarInt>(rest0, (reader.pos() - r0.pos()) as nat);
        }
        let arrival_ticks = match <VarInt>::decode(reader) {
            Ok(v) => v,
            Err(e) => return Err(e),
        };
        Ok(SculkVibrationSignalEntity { source_position, destination_identifier, destination, arrival_ticks })
    }
}

impl Codec for SculkVibrationSignalEntity {
    open spec fn valid(m: SculkVibrationSignalEntityView) -> bool {
        &&& <Position as Codec>::valid(m.source_position)
        &&& <Position as Codec>::delimited()
        &&& <Identifier as Codec>::valid(m.destination_identifier)
        &&& <Identifier as Codec>::delimited()
        &&& <VarInt as Codec>::valid(m.destination)
        &&& <VarInt as Codec>::delimited()
        &&& <VarInt as Codec>::valid(m.arrival_ticks)
    }

    open spec fn delimited() -> bool {
        <VarInt as Codec>::delimited()
    }

    proof fn lemma_round_trip(m: SculkVibrationSignalEntityView, rest: Seq<u8>) {
        let e0 = <Position as Encodable>::spec_encode(m.source_position)->Ok_0;
        let e1 = <Identifier as Encodable>::spec_encode(m.destination_identifier)->Ok_0;
        let e2 = <VarInt as Encodable>::spec_encode(m.destination)->Ok_0;
        let e3 = <VarInt as Encodable>::spec_encode(m.arrival_ticks)->Ok_0;
        let t3 = e3 + rest;
        let t2 = e2 + t3;
        let t1 = e1 + t2;
        let t0 = e0 + t1;
        assert(decode_at::<Position>(t0, (0) as nat) == Ok::<(<Position as DeepView>::V, nat), CodecError>((m.source_position, e0.len()))
            && <Position as Encodable>::spec_encode(m.source_position) == Ok::<Seq<u8>, CodecError>(e0)
            && decode_at::<Identifier>(t0, (e0.len()) as nat) == Ok::<(<Identifier as DeepView>::V, nat), CodecError>((m.destination_identifier, e1.len()))
            && <Identifier as Encodable>::spec_encode(m.destination_identifier) == Ok::<Seq<u8>, CodecError>(e1)
            && decode_at::<VarInt>(t0, (e0.len() + e1.len()) as nat) == Ok::<(<VarInt as DeepView>::V, nat), CodecError>((m.destination, e2.len()))
            && <VarInt as Encodable>::spec_encode(m.destination) == Ok::<Seq<u8>, CodecError>(e2)
            && decode_at::<VarInt>(t0, (e0.len() + e1.len() + e2.len()) as nat) == Ok::<(<VarInt as DeepView>::V, nat), CodecError>((m.arrival_ticks, e3.len()))
            && <VarInt as Encodable>::spec_encode(m.arrival_ticks) == Ok::<Seq<u8>, CodecError>(e3)) by {
            lemma_subrange_all(t0);
            lemma_field_round_trip::<Position>(m.source_position, t0, (0) as nat, t1);
            lemma_field_round_trip::<Identifier>(m.destination_identifier, t0, (e0.len()) as nat, t2);
            lemma_field_round_trip::<VarInt>(m.destination, t0, (e0.len() + e1.len()) as nat, t3);
            lemma_field_round_trip::<VarInt>(m.arrival_ticks, t0, (e0.len() + e1.len() + e2.len()) as nat, rest);
        }
        assert(e0 + e1 + e2 + e3 + rest == t0) by {
            lemma_concat_assoc(e0, e1, t2);
            lemma_concat_assoc(e0 + e1, e2, t3);
            lemma_concat_assoc(e0 + e1 + e2, e3, rest);
        }
        assert(Self::spec_encode(m) == Ok::<Seq<u8>, CodecError>(e0 + e1 + e2 + e3));
    }
}
/// The client-bound play message: entity animation.
pub struct EntityAnimation {
    pub entity_id: VarInt,
    pub animation: u8,
}

/// The model of a `EntityAnimation`: each field by its model.
pub struct EntityAnimationView {
    pub entity_id: i32,
    pub animation: u8,
}

impl DeepView for EntityAnimation {
    type V = EntityAnimationView;

    open spec fn deep_view(&self) -> EntityAnimationView {
        EntityAnimationView {
            entity_id: self.entity_id.deep_view(),
            animation: self.animation.deep_view(),
        }
    }
}

impl Encodable for EntityAnimation {
    /// The fields in order, with no framing.
    open spec fn spec_encode(m: EntityAnimationView) -> Result<Seq<u8>, CodecError> {
        then_encode(<VarInt as Encodable>::spec_encode(m.entity_id), <u8 as Encodable>::spec_encode(m.animation))
    }

    /// The sum of the fields' sizes.
    open spec fn spec_size(m: EntityAnimationView) -> Result<nat, CodecError> {
        add_size_spec(<VarInt as Encodable>::spec_size(m.entity_id), <u8 as Encodable>::spec_size(m.animation))
    }

    proof fn lemma_size_faithful(m: EntityAnimationView) {
        <VarInt as Encodable>::lemma_size_faithful(m.entity_id);
        <u8 as Encodable>::lemma_size_faithful(m.animation);
        lemma_then_size(<VarInt as Encodable>::spec_encode(m.entity_id), <VarInt as Encodable>::spec_size(m.entity_id), <u8 as Encodable>::spec_encode(m.animation), <u8 as Encodable>::spec_size(m.animation));
    }

    fn encode(&self, out: &mut Vec<u8>) -> (r: Result<(), CodecError>) {
        let ghost o0 = out@;
        let start = out.len();
        let ghost e0 = <VarInt as Encodable>::spec_encode(self.entity_id.deep_view())->Ok_0;
        let ghost e1 = <u8 as Encodable>::spec_encode(self.animation.deep_view())->Ok_0;
        match self.entity_id.encode(out) {
            Ok(_) => {},
            Err(e) => return Err(e),
        }
        match self.animation.encode(out) {
            Ok(_) => {},
            Err(e) => {
                roll_back(out, Ghost(o0), Ghost(e0), start);
                return Err(e);
            },
        }
        proof {
            lemma_concat_assoc(o0, e0, e1);
        }
        Ok(())
    }

    fn size(&self) -> (r: Result<VarInt, CodecError>) {
        proof {
            <VarInt as Encodable>::lemma_size_faithful(self.entity_id.deep_view());
            <u8 as Encodable>::lemma_size_faithful(self.animation.deep_view());
        }
        let ghost w0 = <VarInt as Encodable>::spec_size(self.entity_id.deep_view());
        let ghost w1 = <u8 as Encodable>::spec_size(self.animation.deep_view());
        let t0 = self.entity_id.size();
        let t1 = add_size(t0, Ghost(w0), self.animation.size(), Ghost(w1));
        t1
    }
}

impl Decodable for EntityAnimation {
    open spec fn spec_decode(bytes: Seq<u8>) -> Result<(EntityAnimationView, nat), CodecError> {
        match decode_at::<VarInt>(bytes, 0) {
            Err(e) => Err(e),
            Ok((entity_id, n0)) => match decode_at::<u8>(bytes, n0) {
                Err(e) => Err(e),
                Ok((animation, n1)) => Ok((EntityAnimationView { entity_id, animation }, n0 + n1)),
            },
        }
    }

    proof fn lemma_decode_len(bytes: Seq<u8>) {
        lemma_decode_at::<VarInt>(bytes, 0);
        <VarInt as Decodable>::lemma_decode_len(bytes.subrange((0) as int, bytes.len() as int));
        if let Ok((entity_id, n0)) = decode_at::<VarInt>(bytes, 0) {
            lemma_decode_at::<u8>(bytes, n0);
            <u8 as Decodable>::lemma_decode_len(bytes.subrange((n0) as int, bytes.len() as int));
        }
    }

    fn decode(reader: &mut ByteReader) -> (r: Result<EntityAnimation, CodecError>) {
        let ghost r0 = *reader;
        let ghost rest0 = reader.rest();
        proof {
            ByteReader::lemma_rest_since(r0, *reader);
            lemma_decode_at::<VarInt>(rest0, (reader.pos() - r0.pos()) as nat);
        }
        let entity_id = match <VarInt>::decode(reader) {
            Ok(v) => v,
            Err(e) => return Err(e),
        };
        proof {
            ByteReader::lemma_rest_since(r0, *reader);
            lemma_decode_at::<u8>(rest0, (reader.pos() - r0.pos()) as nat);
        }
        let animation = match <u8>::decode(reader) {
            Ok(v) => v,
            Err(e) => return Err(e),
        };
        Ok(EntityAnimation { entity_id, animation })
    }
}

impl Codec for EntityAnimation {
    open spec fn valid(m: EntityAnimationView) -> bool {
        &&& <VarInt as Codec>::valid(m.entity_id)
        &&& <VarInt as Codec>::delimited()
        &&& <u8 as Codec>::valid(m.animation)
    }

    open spec fn delimited() -> bool {
        <u8 as Codec>::delimited()
    }

    proof fn lemma_round_trip(m: EntityAnimationView, rest: Seq<u8>) {
        let e0 = <VarInt as Encodable>::spec_encode(m.entity_id)->Ok_0;
        let e1 = <u8 as Encodable>::spec_encode(m.animation)->Ok_0;
        let t1 = e1 + rest;
        let t0 = e0 + t1;
        assert(decode_at::<VarInt>(t0, (0) as nat) == Ok::<(<VarInt as DeepView>::V, nat), CodecError>((m.entity_id, e0.len()))
            && <VarInt as Encodable>::spec_encode(m.entity_id) == Ok::<Seq<u8>, CodecError>(e0)
            && decode_at::<u8>(t0, (e0.len()) as nat) == Ok::<(<u8 as DeepView>::V, nat), CodecError>((m.animation, e1.len()))
            && <u8 as Encodable>::spec_encode(m.animation) == Ok::<Seq<u8>, CodecError>(e1)) by {
            lemma_subrange_all(t0);
            lemma_field_round_trip::<VarInt>(m.entity_id, t0, (0) as nat, t1);
            lemma_field_round_trip::<u8>(m.animation, t0, (e0.len()) as nat, rest);
        }
        assert(e0 + e1 + rest == t0) by {
            lemma_concat_assoc(e0, e1, rest);
        }
        assert(Self::spec_encode(m) == Ok::<Seq<u8>, CodecError>(e0 + e1));
    }
}
/// The client-bound play message: statistics.
pub struct Statistics {
    pub statistic: (VarInt, Vec<VarInt>),
}

/// The model of a `Statistics`: each field by its model.
pub struct StatisticsView {
    pub statistic: (i32, Seq<i32>),
}

impl DeepView for Statistics {
    type V = StatisticsView;

    open spec fn deep_view(&self) -> StatisticsView {
        StatisticsView {
            statistic: self.statistic.deep_view(),
        }
    }
}

impl Encodable for Statistics {
    /// The fields in order, with no framing.
    open spec fn spec_encode(m: StatisticsView) -> Result<Seq<u8>, CodecError> {
        <(VarInt, Vec<VarInt>) as Encodable>::spec_encode(m.statistic)
    }

    /// The sum of the fields' sizes.
    open spec fn spec_size(m: StatisticsView) -> Result<nat, CodecError> {
        <(VarInt, Vec<VarInt>) as Encodable>::spec_size(m.statistic)
    }

    proof fn lemma_size_faithful(m: StatisticsView) {
        <(VarInt, Vec<VarInt>) as Encodable>::lemma_size_faithful(m.statistic);
    }

    fn encode(&self, out: &mut Vec<u8>) -> (r: Result<(), CodecError>) {
        self.statistic.encode(out)
    }

    fn size(&self) -> (r: Result<VarInt, CodecError>) {
        self.statistic.size()
    }
}

impl Decodable for Statistics {
    open spec fn spec_decode(bytes: Seq<u8>) -> Result<(StatisticsView, nat), CodecError> {
        match decode_at::<(VarInt, Vec<VarInt>)>(bytes, 0) {
            Err(e) => Err(e),
            Ok((statistic, n0)) => Ok((StatisticsView { statistic }, n0)),
        }
    }

    proof fn lemma_decode_len(bytes: Seq<u8>) {
        lemma_decode_at::<(VarInt, Vec<VarInt>)>(bytes, 0);
        <(VarInt, Vec<VarInt>) as Decodable>::lemma_decode_len(bytes.subrange((0) as int, bytes.len() as int));
    }

    fn decode(reader: &mut ByteReader) -> (r: Result<Statistics, CodecError>) {
        let ghost r0 = *reader;
        let ghost rest0 = reader.rest();
        proof {
            ByteReader::lemma_rest_since(r0, *reader);
            lemma_decode_at::<(VarInt, Vec<VarInt>)>(rest0, (reader.pos() - r0.pos()) as nat);
        }
        let statistic = match <(VarInt, Vec<VarInt>)>::decode(reader) {
            Ok(v) => v,
            Err(e) => return Err(e),
        };
        Ok(Statistics { statistic })
    }
}

impl Codec for Statistics {
    open spec fn valid(m: StatisticsView) -> bool {
        &&& <(VarInt, Vec<VarInt>) as Codec>::valid(m.statistic)
    }

    open spec fn delimited() -> bool {
        <(VarInt, Vec<VarInt>) as Codec>::delimited()
    }

    proof fn lemma_round_trip(m: StatisticsView, rest: Seq<u8>) {
        let e0 = <(VarInt, Vec<VarInt>) as Encodable>::spec_encode(m.statistic)->Ok_0;
        let t0 = e0 + rest;
        assert(decode_at::<(VarInt, Vec<VarInt>)>(t0, (0) as nat) == Ok::<(<(VarInt, Vec<VarInt>) as DeepView>::V, nat), CodecError>((m.statistic, e0.len()))
            && <(VarInt, Vec<VarInt>) as Encodable>::spec_encode(m.statistic) == Ok::<Seq<u8>, CodecError>(e0)) by {
            lemma_subrange_all(t0);
            lemma_field_round_trip::<(VarInt, Vec<VarInt>)>(m.statistic, t0, (0) as nat, rest);
        }
    }
}
/// The client-bound play message: acknowledge player digging.
pub struct AcknowledgePlayerDigging {
    pub location: Position,
    pub block: VarInt,
    pub status: VarInt,
    pub successful: bool,
}

/// The model of a `AcknowledgePlayerDigging`: each field by its model.
pub struct AcknowledgePlayerDiggingView {
    pub location: (i64, i64, i64),
    pub block: i32,
    pub status: i32,
    pub successful: bool,
}

impl DeepView for AcknowledgePlayerDigging {
    type V = AcknowledgePlayerDiggingView;

    open spec fn deep_view(&self) -> AcknowledgePlayerDiggingView {
        AcknowledgePlayerDiggingView {
            location: self.location.deep_view(),
            block: self.block.deep_view(),
            status: self.status.deep_view(),
            successful: self.successful.deep_view(),
        }
    }
}

impl Encodable for AcknowledgePlayerDigging {
    /// The fields in order, with no framing.
    open spec fn spec_encode(m: AcknowledgePlayerDiggingView) -> Result<Seq<u8>, CodecError> {
        then_encode(then_encode(then_encode(<Position as Encodable>::spec_encode(m.location), <VarInt as Encodable>::spec_encode(m.block)), <VarInt as Encodable>::spec_encode(m.status)), <bool as Encodable>::spec_encode(m.successful))
    }

    /// The sum of the fields' sizes.
    open spec fn spec_size(m: AcknowledgePlayerDiggingView) -> Result<nat, CodecError> {
        add_size_spec(add_size_spec(add_size_spec(<Position as Encodable>::spec_size(m.location), <VarInt as Encodable>::spec_size(m.block)), <VarInt as Encodable>::spec_size(m.status)), <bool as Encodable>::spec_size(m.successful))
    }

    proof fn lemma_size_faithful(m: AcknowledgePlayerDiggingView) {
        <Position as Encodable>::lemma_size_faithful(m.location);
        <VarInt as Encodable>::lemma_size_faithful(m.block);
        <VarInt as Encodable>::lemma_size_faithful(m.status);
        <bool as Encodable>::lemma_size_faithful(m.successful);
        lemma_then_size(<Position as Encodable>::spec_encode(m.location), <Position as Encodable>::spec_size(m.location), <VarInt as Encodable>::spec_encode(m.block), <VarInt as Encodable>::spec_size(m.block));
        lemma_then_size(then_encode(<Position as Encodable>::spec_encode(m.location), <VarInt as Encodable>::spec_encode(m.block)), add_size_spec(<Position as Encodable>::spec_size(m.location), <VarInt as Encodable>::spec_size(m.block)), <VarInt as Encodable>::spec_encode(m.status), <VarInt as Encodable>::spec_size(m.status));
        lemma_then_size(then_encode(then_encode(<Position as Encodable>::spec_encode(m.location), <VarInt as Encodable>::spec_encode(m.block)), <VarInt as Encodable>::spec_encode(m.status)), add_size_spec(add_size_spec(<Position as Encodable>::spec_size(m.location), <VarInt as Encodable>::spec_size(m.block)), <VarInt as Encodable>::spec_size(m.status)), <bool as Encodable>::spec_encode(m.successful), <bool as Encodable>::spec_size(m.successful));
    }

    fn encode(&self, out: &mut Vec<u8>) -> (r: Result<(), CodecError>) {
        let ghost o0 = out@;
        let start = out.len();
        let ghost e0 = <Position as Encodable>::spec_encode(self.location.deep_view())->Ok_0;
        let ghost e1 = <VarInt as Encodable>::spec_encode(self.block.deep_view())->Ok_0;
        let ghost e2 = <VarInt as Encodable>::spec_encode(self.status.deep_view())->Ok_0;
        let ghost e3 = <bool as Encodable>::spec_encode(self.successful.deep_view())->Ok_0;
        match self.location.encode(out) {
            Ok(_) => {},
            Err(e) => return Err(e),
        }
        match self.block.encode(out) {
            Ok(_) => {},
            Err(e) => {
                roll_back(out, Ghost(o0), Ghost(e0), start);
                return Err(e);
            },
        }
        proof {
            lemma_concat_assoc(o0, e0, e1);
        }
        match self.status.encode(out) {
            Ok(_) => {},
            Err(e) => {
                roll_back(out, Ghost(o0), Ghost(e0 + e1), start);
                return Err(e);
            },
        }
        proof {
            lemma_concat_assoc(o0, e0 + e1, e2);
        }
        match self.successful.encode(out) {
            Ok(_) => {},
            Err(e) => {
                roll_back(out, Ghost(o0), Ghost(e0 + e1 + e2), start);
                return Err(e);
            },
        }
        proof {
            lemma_concat_assoc(o0, e0 + e1 + e2, e3);
        }
        Ok(())
    }

    fn size(&self) -> (r: Result<VarInt, CodecError>) {
        proof {
            <Position as Encodable>::lemma_size_faithful(self.location.deep_view());
            <VarInt as Encodable>::lemma_size_faithful(self.block.deep_view());
            <VarInt as Encodable>::lemma_size_faithful(self.status.deep_view());
            <bool as Encodable>::lemma_size_faithful(self.successful.deep_view());
        }
        let ghost w0 = <Position as Encodable>::spec_size(self.location.deep_view());
        let ghost w1 = <VarInt as Encodable>::spec_size(self.block.deep_view());
        let ghost w2 = <VarInt as Encodable>::spec_size(self.status.deep_view());
        let ghost w3 = <bool as Encodable>::spec_size(self.successful.deep_view());
        let t0 = self.location.size();
        let t1 = add_size(t0, Ghost(w0), self.block.size(), Ghost(w1));
        let ghost c1 = add_size_spec(w0, w1);
        let t2 = add_size(t1, Ghost(c1), self.status.size(), Ghost(w2));
        let ghost c2 = add_size_spec(c1, w2);
        let t3 = add_size(t2, Ghost(c2), self.successful.size(), Ghost(w3));
        t3
    }
}

impl Decodable for AcknowledgePlayerDigging {
    open spec fn spec_decode(bytes: Seq<u8>) -> Result<(AcknowledgePlayerDiggingView, nat), CodecError> {
        match decode_at::<Position>(bytes, 0) {
            Err(e) => Err(e),
            Ok((location, n0)) => match decode_at::<VarInt>(bytes, n0) {
                Err(e) => Err(e),
                Ok((block, n1)) => match decode_at::<VarInt>(bytes, n0 + n1) {
                    Err(e) => Err(e),
                    Ok((status, n2)) => match decode_at::<bool>(bytes, n0 + n1 + n2) {
                        Err(e) => Err(e),
                        Ok((successful, n3)) => Ok((AcknowledgePlayerDiggingView { location, block, status, successful }, n0 + n1 + n2 + n3)),
                    },
                },
            },
        }
    }

    proof fn lemma_decode_len(bytes: Seq<u8>) {
        lemma_decode_at::<Position>(bytes, 0);
        <Position as Decodable>::lemma_decode_len(bytes.subrange((0) as int, bytes.len() as int));
        if let Ok((location, n0)) = decode_at::<Position>(bytes, 0) {
            lemma_decode_at::<VarInt>(bytes, n0);
            <VarInt as Decodable>::lemma_decode_len(bytes.subrange((n0) as int, bytes.len() as int));
            if let Ok((block, n1)) = decode_at::<VarInt>(bytes, n0) {
                lemma_decode_at::<VarInt>(bytes, n0 + n1);
                <VarInt as Decodable>::lemma_decode_len(bytes.subrange((n0 + n1) as int, bytes.len() as int));
                if let Ok((status, n2)) = decode_at::<VarInt>(bytes, n0 + n1) {
                    lemma_decode_at::<bool>(bytes, n0 + n1 + n2);
                    <bool as Decodable>::lemma_decode_len(bytes.subrange((n0 + n1 + n2) as int, bytes.len() as int));
                }
            }
        }
    }

    fn decode(reader: &mut ByteReader) -> (r: Result<AcknowledgePlayerDigging, CodecError>) {
        let ghost r0 = *reader;
        let ghost rest0 = reader.rest();
        proof {
            ByteReader::lemma_rest_since(r0, *reader);
            lemma_decode_at::<Position>(rest0, (reader.pos() - r0.pos()) as nat);
        }
        let location = match <Position>::decode(reader) {
            Ok(v) => v,
            Err(e) => return Err(e),
        };
        proof {
            ByteReader::lemma_rest_since(r0, *reader);
            lemma_decode_at::<VarInt>(rest0, (reader.pos() - r0.pos()) as nat);
        }
        let block = match <VarInt>::decode(reader) {
            Ok(v) => v,
            Err(e) => return Err(e),
        };
        proof {
            ByteReader::lemma_rest_since(r0, *reader);
            lemma_decode_at::<VarInt>(rest0, (reader.pos() - r0.pos()) as nat);
        }
        let status = match <VarInt>::decode(reader) {
            Ok(v) => v,
            Err(e) => return Err(e),
        };
        proof {
            ByteReader::lemma_rest_since(r0, *reader);
            lemma_decode_at::<bool>(rest0, (reader.pos() - r0.pos()) as nat);
        }
        let successful = match <bool>::decode(reader) {
            Ok(v) => v,
            Err(e) => return Err(e),
        };
        Ok(AcknowledgePlayerDigging { location, block, status, successful })
    }
}

impl Codec for AcknowledgePlayerDigging {
    open spec fn valid(m: AcknowledgePlayerDiggingView) -> bool {
        &&& <Position as Codec>::valid(m.location)
        &&& <Position as Codec>::delimited()
        &&& <VarInt as Codec>::valid(m.block)
        &&& <VarInt as Codec>::delimited()
        &&& <VarInt as Codec>::valid(m.status)
        &&& <VarInt as Codec>::delimited()
        &&& <bool as Codec>::valid(m.successful)
    }

    open spec fn delimited() -> bool {
        <bool as Codec>::delimited()
    }

    proof fn lemma_round_trip(m: AcknowledgePlayerDiggingView, rest: Seq<u8>) {
        let e0 = <Position as Encodable>::spec_encode(m.location)->Ok_0;
        let e1 = <VarInt as Encodable>::spec_encode(m.block)->Ok_0;
        let e2 = <VarInt as Encodable>::spec_encode(m.status)->Ok_0;
        let e3 = <bool as Encodable>::spec_encode(m.successful)->Ok_0;
        let t3 = e3 + rest;
        let t2 = e2 + t3;
        let t1 = e1 + t2;
        let t0 = e0 + t1;
        assert(decode_at::<Position>(t0, (0) as nat) == Ok::<(<Position as DeepView>::V, nat), CodecError>((m.location, e0.len()))
            && <Position as Encodable>::spec_encode(m.location) == Ok::<Seq<u8>, CodecError>(e0)
            && decode_at::<VarInt>(t0, (e0.len()) as nat) == Ok::<(<VarInt as DeepView>::V, nat), CodecError>((m.block, e1.len()))
            && <VarInt as Encodable>::spec_encode(m.block) == Ok::<Seq<u8>, CodecError>(e1)
            && decode_at::<VarInt>(t0, (e0.len() + e1.len()) as nat) == Ok::<(<VarInt as DeepView>::V, nat), CodecError>((m.status, e2.len()))
            && <VarInt as Encodable>::spec_encode(m.status) == Ok::<Seq<u8>, CodecError>(e2)
            && decode_at::<bool>(t0, (e0.len() + e1.len() + e2.len()) as nat) == Ok::<(<bool as DeepView>::V, nat), CodecError>((m.successful, e3.len()))
            && <bool as Encodable>::spec_encode(m.successful) == Ok::<Seq<u8>, CodecError>(e3)) by {
            lemma_subrange_all(t0);
            lemma_field_round_trip::<Position>(m.location, t0, (0) as nat, t1);
            lemma_field_round_trip::<VarInt>(m.block, t0, (e0.len()) as nat, t2);
            lemma_field_round_trip::<VarInt>(m.status, t0, (e0.len() + e1.len()) as nat, t3);
            lemma_field_round_trip::<bool>(m.successful, t0, (e0.len() + e1.len() + e2.len()) as nat, rest);
        }
        assert(e0 + e1 + e2 + e3 + rest == t0) by {
            lemma_concat_assoc(e0, e1, t2);
            lemma_concat_assoc(e0 + e1, e2, t3);
            lemma_concat_assoc(e0 + e1 + e2, e3, rest);
        }
        assert(Self::spec_encode(m) == Ok::<Seq<u8>, CodecError>(e0 + e1 + e2 + e3));
    }
}
/// The client-bound play message: block break animation.
pub struct BlockBreakAnimation {
    pub entity_id: VarInt,
    pub location: VarInt,
    pub destroy_stage: i8,
}

/// The model of a `BlockBreakAnimation`: each field by its model.
pub struct BlockBreakAnimationView {
    pub entity_id: i32,
    pub location: i32,
    pub destroy_stage: i8,
}

impl DeepView for BlockBreakAnimation {
    type V = BlockBreakAnimationView;

    open spec fn deep_view(&self) -> BlockBreakAnimationView {
        BlockBreakAnimationView {
            entity_id: self.entity_id.deep_view(),
            location: self.location.deep_view(),
            destroy_stage: self.destroy_stage.deep_view(),
        }
    }
}

impl Encodable for BlockBreakAnimation {
    /// The fields in order, with no framing.
    open spec fn spec_encode(m: BlockBreakAnimationView) -> Result<Seq<u8>, CodecError> {
        then_encode(then_encode(<VarInt as Encodable>::spec_encode(m.entity_id), <VarInt as Encodable>::spec_encode(m.location)), <i8 as Encodable>::spec_encode(m.destroy_stage))
    }

    /// The sum of the fields' sizes.
    open spec fn spec_size(m: BlockBreakAnimationView) -> Result<nat, CodecError> {
        add_size_spec(add_size_spec(<VarInt as Encodable>::spec_size(m.entity_id), <VarInt as Encodable>::spec_size(m.location)), <i8 as Encodable>::spec_size(m.destroy_stage))
    }

    proof fn lemma_size_faithful(m: BlockBreakAnimationView) {
        <VarInt as Encodable>::lemma_size_faithful(m.entity_id);
        <VarInt as Encodable>::lemma_size_faithful(m.location);
        <i8 as Encodable>::lemma_size_faithful(m.destroy_stage);
        lemma_then_size(<VarInt as Encodable>::spec_encode(m.entity_id), <VarInt as Encodable>::spec_size(m.entity_id), <VarInt as Encodable>::spec_encode(m.location), <VarInt as Encodable>::spec_size(m.location));
        lemma_then_size(then_encode(<VarInt as Encodable>::spec_encode(m.entity_id), <VarInt as Encodable>::spec_encode(m.location)), add_size_spec(<VarInt as Encodable>::spec_size(m.entity_id), <VarInt as Encodable>::spec_size(m.location)), <i8 as Encodable>::spec_encode(m.destroy_stage), <i8 as Encodable>::spec_size(m.destroy_stage));
    }

    fn encode(&self, out: &mut Vec<u8>) -> (r: Result<(), CodecError>) {
        let ghost o0 = out@;
        let start = out.len();
        let ghost e0 = <VarInt as Encodable>::spec_encode(self.entity_id.deep_view())->Ok_0;
        let ghost e1 = <VarInt as Encodable>::spec_encode(self.location.deep_view())->Ok_0;
        let ghost e2 = <i8 as Encodable>::spec_encode(self.destroy_stage.deep_view())->Ok_0;
        match self.entity_id.encode(out) {
            Ok(_) => {},
            Err(e) => return Err(e),
        }
        match self.location.encode(out) {
            Ok(_) => {},
            Err(e) => {
                roll_back(out, Ghost(o0), Ghost(e0), start);
                return Err(e);
            },
        }
        proof {
            lemma_concat_assoc(o0, e0, e1);
        }
        match self.destroy_stage.encode(out) {
            Ok(_) => {},
            Err(e) => {
                roll_back(out, Ghost(o0), Ghost(e0 + e1), start);
                return Err(e);
            },
        }
        proof {
            lemma_concat_assoc(o0, e0 + e1, e2);
        }
        Ok(())
    }

    fn size(&self) -> (r: Result<VarInt, CodecError>) {
        proof {
            <VarInt as Encodable>::lemma_size_faithful(self.entity_id.deep_view());
            <VarInt as Encodable>::lemma_size_faithful(self.location.deep_view());
            <i8 as Encodable>::lemma_size_faithful(self.destroy_stage.deep_view());
        }
        let ghost w0 = <VarInt as Encodable>::spec_size(self.entity_id.deep_view());
        let ghost w1 = <VarInt as Encodable>::spec_size(self.location.deep_view());
        let ghost w2 = <i8 as Encodable>::spec_size(self.destroy_stage.deep_view());
        let t0 = self.entity_id.size();
        let t1 = add_size(t0, Ghost(w0), self.location.size(), Ghost(w1));
        let ghost c1 = add_size_spec(w0, w1);
        let t2 = add_size(t1, Ghost(c1), self.destroy_stage.size(), Ghost(w2));
        t2
    }
}

impl Decodable for BlockBreakAnimation {
    open spec fn spec_decode(bytes: Seq<u8>) -> Result<(BlockBreakAnimationView, nat), CodecError> {
        match decode_at::<VarInt>(bytes, 0) {
            Err(e) => Err(e),
            Ok((entity_id, n0)) => match decode_at::<VarInt>(bytes, n0) {
                Err(e) => Err(e),
                Ok((location, n1)) => match decode_at::<i8>(bytes, n0 + n1) {
                    Err(e) => Err(e),
                    Ok((destroy_stage, n2)) => Ok((BlockBreakAnimationView { entity_id, location, destroy_stage }, n0 + n1 + n2)),
                },
            },
        }
    }

    proof fn lemma_decode_len(bytes: Seq<u8>) {
        lemma_decode_at::<VarInt>(bytes, 0);
        <VarInt as Decodable>::lemma_decode_len(bytes.subrange((0) as int, bytes.len() as int));
        if let Ok((entity_id, n0)) = decode_at::<VarInt>(bytes, 0) {
            lemma_decode_at::<VarInt>(bytes, n0);
            <VarInt as Decodable>::lemma_decode_len(bytes.subrange((n0) as int, bytes.len() as int));
            if let Ok((location, n1)) = decode_at::<VarInt>(bytes, n0) {
                lemma_decode_at::<i8>(bytes, n0 + n1);
                <i8 as Decodable>::lemma_decode_len(bytes.subrange((n0 + n1) as int, bytes.len() as int));
            }
        }
    }

    fn decode(reader: &mut ByteReader) -> (r: Result<BlockBreakAnimation, CodecError>) {
        let ghost r0 = *reader;
        let ghost rest0 = reader.rest();
        proof {
            ByteReader::lemma_rest_since(r0, *reader);
            lemma_decode_at::<VarInt>(rest0, (reader.pos() - r0.pos()) as nat);
        }
        let entity_id = match <VarInt>::decode(reader) {
            Ok(v) => v,
            Err(e) => return Err(e),
        };
        proof {
            ByteReader::lemma_rest_since(r0, *reader);
            lemma_decode_at::<VarInt>(rest0, (reader.pos() - r0.pos()) as nat);
        }
        let location = match <VarInt>::decode(reader) {
            Ok(v) => v,
            Err(e) => return Err(e),
        };
        proof {
            ByteReader::lemma_rest_since(r0, *reader);
            lemma_decode_at::<i8>(rest0, (reader.pos() - r0.pos()) as nat);
        }
        let destroy_stage = match <i8>::decode(reader) {
            Ok(v) => v,
            Err(e) => return Err(e),
        };
        Ok(BlockBreakAnimation { entity_id, location, destroy_stage })
    }
}

impl Codec for BlockBreakAnimation {
    open spec fn valid(m: BlockBreakAnimationView) -> bool {
        &&& <VarInt as Codec>::valid(m.entity_id)
        &&& <VarInt as Codec>::delimited()
        &&& <VarInt as Codec>::valid(m.location)
        &&& <VarInt as Codec>::delimited()
        &&& <i8 as Codec>::valid(m.destroy_stage)
    }

    open spec fn delimited() -> bool {
        <i8 as Codec>::delimited()
    }

    proof fn lemma_round_trip(m: BlockBreakAnimationView, rest: Seq<u8>) {
        let e0 = <VarInt as Encodable>::spec_encode(m.entity_id)->Ok_0;
        let e1 = <VarInt as Encodable>::spec_encode(m.location)->Ok_0;
        let e2 = <i8 as Encodable>::spec_encode(m.destroy_stage)->Ok_0;
        let t2 = e2 + rest;
        let t1 = e1 + t2;
        let t0 = e0 + t1;
        assert(decode_at::<VarInt>(t0, (0) as nat) == Ok::<(<VarInt as DeepView>::V, nat), CodecError>((m.entity_id, e0.len()))
            && <VarInt as Encodable>::spec_encode(m.entity_id) == Ok::<Seq<u8>, CodecError>(e0)
            && decode_at::<VarInt>(t0, (e0.len()) as nat) == Ok::<(<VarInt as DeepView>::V, nat), CodecError>((m.location, e1.len()))
            && <VarInt as Encodable>::spec_encode(m.location) == Ok::<Seq<u8>, CodecError>(e1)
            && decode_at::<i8>(t0, (e0.len() + e1.len()) as nat) == Ok::<(<i8 as DeepView>::V, nat), CodecError>((m.destroy_stage, e2.len()))
            && <i8 as Encodable>::spec_encode(m.destroy_stage) == Ok::<Seq<u8>, CodecError>(e2)) by {
            lemma_subrange_all(t0);
            lemma_field_round_trip::<VarInt>(m.entity_id, t0, (0) as nat, t1);
            lemma_field_round_trip::<VarInt>(m.location, t0, (e0.len()) as nat, t2);
            lemma_field_round_trip::<i8>(m.destroy_stage, t0, (e0.len() + e1.len()) as nat, rest);
        }
        assert(e0 + e1 + e2 + rest == t0) by {
            lemma_concat_assoc(e0, e1, t2);
            lemma_concat_assoc(e0 + e1, e2, rest);
        }
        assert(Self::spec_encode(m) == Ok::<Seq<u8>, CodecError>(e0 + e1 + e2));
    }
}
/// The client-bound play message: block entity data.
pub struct BlockEntityData {
    pub location: Position,
    pub action: u8,
    pub nbt_data: NbtTag,
}

/// The model of a `BlockEntityData`: each field by its model.
pub struct BlockEntityDataView {
    pub location: (i64, i64, i64),
    pub action: u8,
    pub nbt_data: Seq<u8>,
}

impl DeepView for BlockEntityData {
    type V = BlockEntityDataView;

    open spec fn deep_view(&self) -> BlockEntityDataView {
        BlockEntityDataView {
            location: self.location.deep_view(),
            action: self.action.deep_view(),
            nbt_data: self.nbt_data.deep_view(),
        }
    }
}

impl Encodable for BlockEntityData {
    /// The fields in order, with no framing.
    open spec fn spec_encode(m: BlockEntityDataView) -> Result<Seq<u8>, CodecError> {
        then_encode(then_encode(<Position as Encodable>::spec_encode(m.location), <u8 as Encodable>::spec_encode(m.action)), <NbtTag as Encodable>::spec_encode(m.nbt_data))
    }

    /// The sum of the fields' sizes.
    open spec fn spec_size(m: BlockEntityDataView) -> Result<nat, CodecError> {
        add_size_spec(add_size_spec(<Position as Encodable>::spec_size(m.location), <u8 as Encodable>::spec_size(m.action)), <NbtTag as Encodable>::spec_size(m.nbt_data))
    }

    proof fn lemma_size_faithful(m: BlockEntityDataView) {
        <Position as Encodable>::lemma_size_faithful(m.location);
        <u8 as Encodable>::lemma_size_faithful(m.action);
        <NbtTag as Encodable>::lemma_size_faithful(m.nbt_data);
        lemma_then_size(<Position as Encodable>::spec_encode(m.location), <Position as Encodable>::spec_size(m.location), <u8 as Encodable>::spec_encode(m.action), <u8 as Encodable>::spec_size(m.action));
        lemma_then_size(then_encode(<Position as Encodable>::spec_encode(m.location), <u8 as Encodable>::spec_encode(m.action)), add_size_spec(<Position as Encodable>::spec_size(m.location), <u8 as Encodable>::spec_size(m.action)), <NbtTag as Encodable>::spec_encode(m.nbt_data), <NbtTag as Encodable>::spec_size(m.nbt_data));
    }

    fn encode(&self, out: &mut Vec<u8>) -> (r: Result<(), CodecError>) {
        let ghost o0 = out@;
        let start = out.len();
        let ghost e0 = <Position as Encodable>::spec_encode(self.location.deep_view())->Ok_0;
        let ghost e1 = <u8 as Encodable>::spec_encode(self.action.deep_view())->Ok_0;
        let ghost e2 = <NbtTag as Encodable>::spec_encode(self.nbt_data.deep_view())->Ok_0;
        match self.location.encode(out) {
            Ok(_) => {},
            Err(e) => return Err(e),
        }
        match self.action.encode(out) {
            Ok(_) => {},
            Err(e) => {
                roll_back(out, Ghost(o0), Ghost(e0), start);
                return Err(e);
            },
        }
        proof {
            lemma_concat_assoc(o0, e0, e1);
        }
        match self.nbt_data.encode(out) {
            Ok(_) => {},
            Err(e) => {
                roll_back(out, Ghost(o0), Ghost(e0 + e1), start);
                return Err(e);
            },
        }
        proof {
            lemma_concat_assoc(o0, e0 + e1, e2);
        }
        Ok(())
    }

    fn size(&self) -> (r: Result<VarInt, CodecError>) {
        proof {
            <Position as Encodable>::lemma_size_faithful(self.location.deep_view());
            <u8 as Encodable>::lemma_size_faithful(self.action.deep_view());
            <NbtTag as Encodable>::lemma_size_faithful(self.nbt_data.deep_view());
        }
        let ghost w0 = <Position as Encodable>::spec_size(self.location.deep_view());
        let ghost w1 = <u8 as Encodable>::spec_size(self.action.deep_view());
        let ghost w2 = <NbtTag as Encodable>::spec_size(self.nbt_data.deep_view());
        let t0 = self.location.size();
        let t1 = add_size(t0, Ghost(w0), self.action.size(), Ghost(w1));
        let ghost c1 = add_size_spec(w0, w1);
        let t2 = add_size(t1, Ghost(c1), self.nbt_data.size(), Ghost(w2));
        t2
    }
}

impl Decodable for BlockEntityData {
    open spec fn spec_decode(bytes: Seq<u8>) -> Result<(BlockEntityDataView, nat), CodecError> {
        match decode_at::<Position>(bytes, 0) {
            Err(e) => Err(e),
            Ok((location, n0)) => match decode_at::<u8>(bytes, n0) {
                Err(e) => Err(e),
                Ok((action, n1)) => match decode_at::<NbtTag>(bytes, n0 + n1) {
                    Err(e) => Err(e),
                    Ok((nbt_data, n2)) => Ok((BlockEntityDataView { location, action, nbt_data }, n0 + n1 + n2)),
                },
            },
        }
    }

    proof fn lemma_decode_len(bytes: Seq<u8>) {
        lemma_decode_at::<Position>(bytes, 0);
        <Position as Decodable>::lemma_decode_len(bytes.subrange((0) as int, bytes.len() as int));
        if let Ok((location, n0)) = decode_at::<Position>(bytes, 0) {
            lemma_decode_at::<u8>(bytes, n0);
            <u8 as Decodable>::lemma_decode_len(bytes.subrange((n0) as int, bytes.len() as int));
            if let Ok((action, n1)) = decode_at::<u8>(bytes, n0) {
                lemma_decode_at::<NbtTag>(bytes, n0 + n1);
                <NbtTag as Decodable>::lemma_decode_len(bytes.subrange((n0 + n1) as int, bytes.len() as int));
            }
        }
    }

    fn decode(reader: &mut ByteReader) -> (r: Result<BlockEntityData, CodecError>) {
        let ghost r0 = *reader;
        let ghost rest0 = reader.rest();
        proof {
            ByteReader::lemma_rest_since(r0, *reader);
            lemma_decode_at::<Position>(rest0, (reader.pos() - r0.pos()) as nat);
        }
        let location = match <Position>::decode(reader) {
            Ok(v) => v,
            Err(e) => return Err(e),
        };
        proof {
            ByteReader::lemma_rest_since(r0, *reader);
            lemma_decode_at::<u8>(rest0, (reader.pos() - r0.pos()) as nat);
        }
        let action = match <u8>::decode(reader) {
            Ok(v) => v,
            Err(e) => return Err(e),
        };
        proof {
            ByteReader::lemma_rest_since(r0, *reader);
            lemma_decode_at::<NbtTag>(rest0, (reader.pos() - r0.pos()) as nat);
        }
        let nbt_data = match <NbtTag>::decode(reader) {
            Ok(v) => v,
            Err(e) => return Err(e),
        };
        Ok(BlockEntityData { location, action, nbt_data })
    }
}

impl Codec for BlockEntityData {
    open spec fn valid(m: BlockEntityDataView) -> bool {
        &&& <Position as Codec>::valid(m.location)
        &&& <Position as Codec>::delimited()
        &&& <u8 as Codec>::valid(m.action)
        &&& <u8 as Codec>::delimited()
        &&& <NbtTag as Codec>::valid(m.nbt_data)
    }

    open spec fn delimited() -> bool {
        <NbtTag as Codec>::delimited()
    }

    proof fn lemma_round_trip(m: BlockEntityDataView, rest: Seq<u8>) {
        let e0 = <Position as Encodable>::spec_encode(m.location)->Ok_0;
        let e1 = <u8 as Encodable>::spec_encode(m.action)->Ok_0;
        let e2 = <NbtTag as Encodable>::spec_encode(m.nbt_data)->Ok_0;
        let t2 = e2 + rest;
        let t1 = e1 + t2;
        let t0 = e0 + t1;
        assert(decode_at::<Position>(t0, (0) as nat) == Ok::<(<Position as DeepView>::V, nat), CodecError>((m.location, e0.len()))
            && <Position as Encodable>::spec_encode(m.location) == Ok::<Seq<u8>, CodecError>(e0)
            && decode_at::<u8>(t0, (e0.len()) as nat) == Ok::<(<u8 as DeepView>::V, nat), CodecError>((m.action, e1.len()))
            && <u8 as Encodable>::spec_encode(m.action) == Ok::<Seq<u8>, CodecError>(e1)
            && decode_at::<NbtTag>(t0, (e0.len() + e1.len()) as nat) == Ok::<(<NbtTag as DeepView>::V, nat), CodecError>((m.nbt_data, e2.len()))
            && <NbtTag as Encodable>::spec_encode(m.nbt_data) == Ok::<Seq<u8>, CodecError>(e2)) by {
            lemma_subrange_all(t0);
            lemma_field_round_trip::<Position>(m.location, t0, (0) as nat, t1);
            lemma_field_round_trip::<u8>(m.action, t0, (e0.len()) as nat, t2);
            lemma_field_round_trip::<NbtTag>(m.nbt_data, t0, (e0.len() + e1.len()) as nat, rest);
        }
        assert(e0 + e1 + e2 + rest == t0) by {
            lemma_concat_assoc(e0, e1, t2);
            lemma_concat_assoc(e0 + e1, e2, rest);
        }
        assert(Self::spec_encode(m) == Ok::<Seq<u8>, CodecError>(e0 + e1 + e2));
    }
}
/// The client-bound play message: block action.
pub struct BlockAction {
    pub location: Position,
    pub action_id: u8,
    pub action_param: u8,
    pub block_type: VarInt,
}

/// The model of a `BlockAction`: each field by its model.
pub struct BlockActionView {
    pub location: (i64, i64, i64),
    pub action_id: u8,
    pub action_param: u8,
    pub block_type: i32,
}

impl DeepView for BlockAction {
    type V = BlockActionView;

    open spec fn deep_view(&self) -> BlockActionView {
        BlockActionView {
            location: self.location.deep_view(),
            action_id: self.action_id.deep_view(),
            action_param: self.action_param.deep_view(),
            block_type: self.block_type.deep_view(),
        }
    }
}

impl Encodable for BlockAction {
    /// The fields in order, with no framing.
    open spec fn spec_encode(m: BlockActionView) -> Result<Seq<u8>, CodecError> {
        then_encode(then_encode(then_encode(<Position as Encodable>::spec_encode(m.location), <u8 as Encodable>::spec_encode(m.action_id)), <u8 as Encodable>::spec_encode(m.action_param)), <VarInt as Encodable>::spec_encode(m.block_type))
    }

    /// The sum of the fields' sizes.
    open spec fn spec_size(m: BlockActionView) -> Result<nat, CodecError> {
        add_size_spec(add_size_spec(add_size_spec(<Position as Encodable>::spec_size(m.location), <u8 as Encodable>::spec_size(m.action_id)), <u8 as Encodable>::spec_size(m.action_param)), <VarInt as Encodable>::spec_size(m.block_type))
    }

    proof fn lemma_size_faithful(m: BlockActionView) {
        <Position as Encodable>::lemma_size_faithful(m.location);
        <u8 as Encodable>::lemma_size_faithful(m.action_id);
        <u8 as Encodable>::lemma_size_faithful(m.action_param);
        <VarInt as Encodable>::lemma_size_faithful(m.block_type);
        lemma_then_size(<Position as Encodable>::spec_encode(m.location), <Position as Encodable>::spec_size(m.location), <u8 as Encodable>::spec_encode(m.action_id), <u8 as Encodable>::spec_size(m.action_id));
        lemma_then_size(then_encode(<Position as Encodable>::spec_encode(m.location), <u8 as Encodable>::spec_encode(m.action_id)), add_size_spec(<Position as Encodable>::spec_size(m.location), <u8 as Encodable>::spec_size(m.action_id)), <u8 as Encodable>::spec_encode(m.action_param), <u8 as Encodable>::spec_size(m.action_param));
        lemma_then_size(then_encode(then_encode(<Position as Encodable>::spec_encode(m.location), <u8 as Encodable>::spec_encode(m.action_id)), <u8 as Encodable>::spec_encode(m.action_param)), add_size_spec(add_size_spec(<Position as Encodable>::spec_size(m.location), <u8 as Encodable>::spec_size(m.action_id)), <u8 as Encodable>::spec_size(m.action_param)), <VarInt as Encodable>::spec_encode(m.block_type), <VarInt as Encodable>::spec_size(m.block_type));
    }

    fn encode(&self, out: &mut Vec<u8>) -> (r: Result<(), CodecError>) {
        let ghost o0 = out@;
        let start = out.len();
        let ghost e0 = <Position as Encodable>::spec_encode(self.location.deep_view())->Ok_0;
        let ghost e1 = <u8 as Encodable>::spec_encode(self.action_id.deep_view())->Ok_0;
        let ghost e2 = <u8 as Encodable>::spec_encode(self.action_param.deep_view())->Ok_0;
        let ghost e3 = <VarInt as Encodable>::spec_encode(self.block_type.deep_view())->Ok_0;
        match self.location.encode(out) {
            Ok(_) => {},
            Err(e) => return Err(e),
        }
        match self.action_id.encode(out) {
            Ok(_) => {},
            Err(e) => {
                roll_back(out, Ghost(o0), Ghost(e0), start);
                return Err(e);
            },
        }
        proof {
            lemma_concat_assoc(o0, e0, e1);
        }
        match self.action_param.encode(out) {
            Ok(_) => {},
            Err(e) => {
                roll_back(out, Ghost(o0), Ghost(e0 + e1), start);
                return Err(e);
            },
        }
        proof {
            lemma_concat_assoc(o0, e0 + e1, e2);
        }
        match self.block_type.encode(out) {
            Ok(_) => {},
            Err(e) => {
                roll_back(out, Ghost(o0), Ghost(e0 + e1 + e2), start);
                return Err(e);
            },
        }
        proof {
            lemma_concat_assoc(o0, e0 + e1 + e2, e3);
        }
        Ok(())
    }

    fn size(&self) -> (r: Result<VarInt, CodecError>) {
        proof {
            <Position as Encodable>::lemma_size_faithful(self.location.deep_view());
            <u8 as Encodable>::lemma_size_faithful(self.action_id.deep_view());
            <u8 as Encodable>::lemma_size_faithful(self.action_param.deep_view());
            <VarInt as Encodable>::lemma_size_faithful(self.block_type.deep_view());
        }
        let ghost w0 = <Position as Encodable>::spec_size(self.location.deep_view());
        let ghost w1 = <u8 as Encodable>::spec_size(self.action_id.deep_view());
        let ghost w2 = <u8 as Encodable>::spec_size(self.action_param.deep_view());
        let ghost w3 = <VarInt as Encodable>::spec_size(self.block_type.deep_view());
        let t0 = self.location.size();
        let t1 = add_size(t0, Ghost(w0), self.action_id.size(), Ghost(w1));
        let ghost c1 = add_size_spec(w0, w1);
        let t2 = add_size(t1, Ghost(c1), self.action_param.size(), Ghost(w2));
        let ghost c2 = add_size_spec(c1, w2);
        let t3 = add_size(t2, Ghost(c2), self.block_type.size(), Ghost(w3));
        t3
    }
}

impl Decodable for BlockAction {
    open spec fn spec_decode(bytes: Seq<u8>) -> Result<(BlockActionView, nat), CodecError> {
        match decode_at::<Position>(bytes, 0) {
            Err(e) => Err(e),
            Ok((location, n0)) => match decode_at::<u8>(bytes, n0) {
                Err(e) => Err(e),
                Ok((action_id, n1)) => match decode_at::<u8>(bytes, n0 + n1) {
                    Err(e) => Err(e),
                    Ok((action_param, n2)) => match decode_at::<VarInt>(bytes, n0 + n1 + n2) {
                        Err(e) => Err(e),
                        Ok((block_type, n3)) => Ok((BlockActionView { location, action_id, action_param, block_type }, n0 + n1 + n2 + n3)),
                    },
                },
            },
        }
    }

    proof fn lemma_decode_len(bytes: Seq<u8>) {
        lemma_decode_at::<Position>(bytes, 0);
        <Position as Decodable>::lemma_decode_len(bytes.subrange((0) as int, bytes.len() as int));
        if let Ok((location, n0)) = decode_at::<Position>(bytes, 0) {
            lemma_decode_at::<u8>(bytes, n0);
            <u8 as Decodable>::lemma_decode_len(bytes.subrange((n0) as int, bytes.len() as int));
            if let Ok((action_id, n1)) = decode_at::<u8>(bytes, n0) {
                lemma_decode_at::<u8>(bytes, n0 + n1);
                <u8 as Decodable>::lemma_decode_len(bytes.subrange((n0 + n1) as int, bytes.len() as int));
                if let Ok((action_param, n2)) = decode_at::<u8>(bytes, n0 + n1) {
                    lemma_decode_at::<VarInt>(bytes, n0 + n1 + n2);
                    <VarInt as Decodable>::lemma_decode_len(bytes.subrange((n0 + n1 + n2) as int, bytes.len() as int));
                }
            }
        }
    }

    fn decode(reader: &mut ByteReader) -> (r: Result<BlockAction, CodecError>) {
        let ghost r0 = *reader;
        let ghost rest0 = reader.rest();
        proof {
            ByteReader::lemma_rest_since(r0, *reader);
            lemma_decode_at::<Position>(rest0, (reader.pos() - r0.pos()) as nat);
        }
        let location = match <Position>::decode(reader) {
            Ok(v) => v,
            Err(e) => return Err(e),
        };
        proof {
            ByteReader::lemma_rest_since(r0, *reader);
            lemma_decode_at::<u8>(rest0, (reader.pos() - r0.pos()) as nat);
        }
        let action_id = match <u8>::decode(reader) {
            Ok(v) => v,
            Err(e) => return Err(e),
        };
        proof {
            ByteReader::lemma_rest_since(r0, *reader);
            lemma_decode_at::<u8>(rest0, (reader.pos() - r0.pos()) as nat);
        }
        let action_param = match <u8>::decode(reader) {
            Ok(v) => v,
            Err(e) => return Err(e),
        };
        proof {
            ByteReader::lemma_rest_since(r0, *reader);
            lemma_decode_at::<VarInt>(rest0, (reader.pos() - r0.pos()) as nat);
        }
        let block_type = match <VarInt>::decode(reader) {
            Ok(v) => v,
            Err(e) => return Err(e),
        };
        Ok(BlockAction { location, action_id, action_param, block_type })
    }
}

impl Codec for BlockAction {
    open spec fn valid(m: BlockActionView) -> bool {
        &&& <Position as Codec>::valid(m.location)
        &&& <Position as Codec>::delimited()
        &&& <u8 as Codec>::valid(m.action_id)
        &&& <u8 as Codec>::delimited()
        &&& <u8 as Codec>::valid(m.action_param)
        &&& <u8 as Codec>::delimited()
        &&& <VarInt as Codec>::valid(m.block_type)
    }

    open spec fn delimited() -> bool {
        <VarInt as Codec>::delimited()
    }

    proof fn lemma_round_trip(m: BlockActionView, rest: Seq<u8>) {
        let e0 = <Position as Encodable>::spec_encode(m.location)->Ok_0;
        let e1 = <u8 as Encodable>::spec_encode(m.action_id)->Ok_0;
        let e2 = <u8 as Encodable>::spec_encode(m.action_param)->Ok_0;
        let e3 = <VarInt as Encodable>::spec_encode(m.block_type)->Ok_0;
        let t3 = e3 + rest;
        let t2 = e2 + t3;
        let t1 = e1 + t2;
        let t0 = e0 + t1;
        assert(decode_at::<Position>(t0, (0) as nat) == Ok::<(<Position as DeepView>::V, nat), CodecError>((m.location, e0.len()))
            && <Position as Encodable>::spec_encode(m.location) == Ok::<Seq<u8>, CodecError>(e0)
            && decode_at::<u8>(t0, (e0.len()) as nat) == Ok::<(<u8 as DeepView>::V, nat), CodecError>((m.action_id, e1.len()))
            && <u8 as Encodable>::spec_encode(m.action_id) == Ok::<Seq<u8>, CodecError>(e1)
            && decode_at::<u8>(t0, (e0.len() + e1.len()) as nat) == Ok::<(<u8 as DeepView>::V, nat), CodecError>((m.action_param, e2.len()))
            && <u8 as Encodable>::spec_encode(m.action_param) == Ok::<Seq<u8>, CodecError>(e2)
            && decode_at::<VarInt>(t0, (e0.len() + e1.len() + e2.len()) as nat) == Ok::<(<VarInt as DeepView>::V, nat), CodecError>((m.block_type, e3.len()))
            && <VarInt as Encodable>::spec_encode(m.block_type) == Ok::<Seq<u8>, CodecError>(e3)) by {
            lemma_subrange_all(t0);
            lemma_field_round_trip::<Position>(m.location, t0, (0) as nat, t1);
            lemma_field_round_trip::<u8>(m.action_id, t0, (e0.len()) as nat, t2);
            lemma_field_round_trip::<u8>(m.action_param, t0, (e0.len() + e1.len()) as nat, t3);
            lemma_field_round_trip::<VarInt>(m.block_type, t0, (e0.len() + e1.len() + e2.len()) as nat, rest);
        }
        assert(e0 + e1 + e2 + e3 + rest == t0) by {
            lemma_concat_assoc(e0, e1, t2);
            lemma_concat_assoc(e0 + e1, e2, t3);
            lemma_concat_assoc(e0 + e1 + e2, e3, rest);
        }
        assert(Self::spec_encode(m) == Ok::<Seq<u8>, CodecError>(e0 + e1 + e2 + e3));
    }
}
/// The client-bound play message: block change.
pub struct BlockChange {
    pub location: Position,
    pub block_id: VarInt,
}

/// The model of a `BlockChange`: each field by its model.
pub struct BlockChangeView {
    pub location: (i64, i64, i64),
    pub block_id: i32,
}

impl DeepView for BlockChange {
    type V = BlockChangeView;

    open spec fn deep_view(&self) -> BlockChangeView {
        BlockChangeView {
            location: self.location.deep_view(),
            block_id: self.block_id.deep_view(),
        }
    }
}

impl Encodable for BlockChange {
    /// The fields in order, with no framing.
    open spec fn spec_encode(m: BlockChangeView) -> Result<Seq<u8>, CodecError> {
        then_encode(<Position as Encodable>::spec_encode(m.location), <VarInt as Encodable>::spec_encode(m.block_id))
    }

    /// The sum of the fields' sizes.
    open spec fn spec_size(m: BlockChangeView) -> Result<nat, CodecError> {
        add_size_spec(<Position as Encodable>::spec_size(m.location), <VarInt as Encodable>::spec_size(m.block_id))
    }

    proof fn lemma_size_faithful(m: BlockChangeView) {
        <Position as Encodable>::lemma_size_faithful(m.location);
        <VarInt as Encodable>::lemma_size_faithful(m.block_id);
        lemma_then_size(<Position as Encodable>::spec_encode(m.location), <Position as Encodable>::spec_size(m.location), <VarInt as Encodable>::spec_encode(m.block_id), <VarInt as Encodable>::spec_size(m.block_id));
    }

    fn encode(&self, out: &mut Vec<u8>) -> (r: Result<(), CodecError>) {
        let ghost o0 = out@;
        let start = out.len();
        let ghost e0 = <Position as Encodable>::spec_encode(self.location.deep_view())->Ok_0;
        let ghost e1 = <VarInt as Encodable>::spec_encode(self.block_id.deep_view())->Ok_0;
        match self.location.encode(out) {
            Ok(_) => {},
            Err(e) => return Err(e),
        }
        match self.block_id.encode(out) {
            Ok(_) => {},
            Err(e) => {
                roll_back(out, Ghost(o0), Ghost(e0), start);
                return Err(e);
            },
        }
        proof {
            lemma_concat_assoc(o0, e0, e1);
        }
        Ok(())
    }

    fn size(&self) -> (r: Result<VarInt, CodecError>) {
        proof {
            <Position as Encodable>::lemma_size_faithful(self.location.deep_view());
            <VarInt as Encodable>::lemma_size_faithful(self.block_id.deep_view());
        }
        let ghost w0 = <Position as Encodable>::spec_size(self.location.deep_view());
        let ghost w1 = <VarInt as Encodable>::spec_size(self.block_id.deep_view());
        let t0 = self.location.size();
        let t1 = add_size(t0, Ghost(w0), self.block_id.size(), Ghost(w1));
        t1
    }
}

impl Decodable for BlockChange {
    open spec fn spec_decode(bytes: Seq<u8>) -> Result<(BlockChangeView, nat), CodecError> {
        match decode_at::<Position>(bytes, 0) {
            Err(e) => Err(e),
            Ok((location, n0)) => match decode_at::<VarInt>(bytes, n0) {
                Err(e) => Err(e),
                Ok((block_id, n1)) => Ok((BlockChangeView { location, block_id }, n0 + n1)),
            },
        }
    }

    proof fn lemma_decode_len(bytes: Seq<u8>) {
        lemma_decode_at::<Position>(bytes, 0);
        <Position as Decodable>::lemma_decode_len(bytes.subrange((0) as int, bytes.len() as int));
        if let Ok((location, n0)) = decode_at::<Position>(bytes, 0) {
            lemma_decode_at::<VarInt>(bytes, n0);
            <VarInt as Decodable>::lemma_decode_len(bytes.subrange((n0) as int, bytes.len() as int));
        }
    }

    fn decode(reader: &mut ByteReader) -> (r: Result<BlockChange, CodecError>) {
        let ghost r0 = *reader;
        let ghost rest0 = reader.rest();
        proof {
            ByteReader::lemma_rest_since(r0, *reader);
            lemma_decode_at::<Position>(rest0, (reader.pos() - r0.pos()) as nat);
        }
        let location = match <Position>::decode(reader) {
            Ok(v) => v,
            Err(e) => return Err(e),
        };
        proof {
            ByteReader::lemma_rest_since(r0, *reader);
            lemma_decode_at::<VarInt>(rest0, (reader.pos() - r0.pos()) as nat);
        }
        let block_id = match <VarInt>::decode(reader) {
            Ok(v) => v,
            Err(e) => return Err(e),
        };
        Ok(BlockChange { location, block_id })
    }
}

impl Codec for BlockChange {
    open spec fn valid(m: BlockChangeView) -> bool {
        &&& <Position as Codec>::valid(m.location)
        &&& <Position as Codec>::delimited()
        &&& <VarInt as Codec>::valid(m.block_id)
    }

    open spec fn delimited() -> bool {
        <VarInt as Codec>::delimited()
    }

    proof fn lemma_round_trip(m: BlockChangeView, rest: Seq<u8>) {
        let e0 = <Position as Encodable>::spec_encode(m.location)->Ok_0;
        let e1 = <VarInt as Encodable>::spec_encode(m.block_id)->Ok_0;
        let t1 = e1 + rest;
        let t0 = e0 + t1;
        assert(decode_at::<Position>(t0, (0) as nat) == Ok::<(<Position as DeepView>::V, nat), CodecError>((m.location, e0.len()))
            && <Position as Encodable>::spec_encode(m.location) == Ok::<Seq<u8>, CodecError>(e0)
            && decode_at::<VarInt>(t0, (e0.len()) as nat) == Ok::<(<VarInt as DeepView>::V, nat), CodecError>((m.block_id, e1.len()))
            && <VarInt as Encodable>::spec_encode(m.block_id) == Ok::<Seq<u8>, CodecError>(e1)) by {
            lemma_subrange_all(t0);
            lemma_field_round_trip::<Position>(m.location, t0, (0) as nat, t1);
            lemma_field_round_trip::<VarInt>(m.block_id, t0, (e0.len()) as nat, rest);
        }
        assert(e0 + e1 + rest == t0) by {
            lemma_concat_assoc(e0, e1, rest);
        }
        assert(Self::spec_encode(m) == Ok::<Seq<u8>, CodecError>(e0 + e1));
    }
}
/// The client-bound play message: server difficulty.
pub struct ServerDifficulty {
    pub difficulty: u8,
    pub difficulty_locked: bool,
}

/// The model of a `ServerDifficulty`: each field by its model.
pub struct ServerDifficultyView {
    pub difficulty: u8,
    pub difficulty_locked: bool,
}

impl DeepView for ServerDifficulty {
    type V = ServerDifficultyView;

    open spec fn deep_view(&self) -> ServerDifficultyView {
        ServerDifficultyView {
            difficulty: self.difficulty.deep_view(),
            difficulty_locked: self.difficulty_locked.deep_view(),
        }
    }
}

impl Encodable for ServerDifficulty {
    /// The fields in order, with no framing.
    open spec fn spec_encode(m: ServerDifficultyView) -> Result<Seq<u8>, CodecError> {
        then_encode(<u8 as Encodable>::spec_encode(m.difficulty), <bool as Encodable>::spec_encode(m.difficulty_locked))
    }

    /// The sum of the fields' sizes.
    open spec fn spec_size(m: ServerDifficultyView) -> Result<nat, CodecError> {
        add_size_spec(<u8 as Encodable>::spec_size(m.difficulty), <bool as Encodable>::spec_size(m.difficulty_locked))
    }

    proof fn lemma_size_faithful(m: ServerDifficultyView) {
        <u8 as Encodable>::lemma_size_faithful(m.difficulty);
        <bool as Encodable>::lemma_size_faithful(m.difficulty_locked);
        lemma_then_size(<u8 as Encodable>::spec_encode(m.difficulty), <u8 as Encodable>::spec_size(m.difficulty), <bool as Encodable>::spec_encode(m.difficulty_locked), <bool as Encodable>::spec_size(m.difficulty_locked));
    }

    fn encode(&self, out: &mut Vec<u8>) -> (r: Result<(), CodecError>) {
        let ghost o0 = out@;
        let start = out.len();
        let ghost e0 = <u8 as Encodable>::spec_encode(self.difficulty.deep_view())->Ok_0;
        let ghost e1 = <bool as Encodable>::spec_encode(self.difficulty_locked.deep_view())->Ok_0;
        match self.difficulty.encode(out) {
            Ok(_) => {},
            Err(e) => return Err(e),
        }
        match self.difficulty_locked.encode(out) {
            Ok(_) => {},
            Err(e) => {
                roll_back(out, Ghost(o0), Ghost(e0), start);
                return Err(e);
            },
        }
        proof {
            lemma_concat_assoc(o0, e0, e1);
        }
        Ok(())
    }

    fn size(&self) -> (r: Result<VarInt, CodecError>) {
        proof {
            <u8 as Encodable>::lemma_size_faithful(self.difficulty.deep_view());
            <bool as Encodable>::lemma_size_faithful(self.difficulty_locked.deep_view());
        }
        let ghost w0 = <u8 as Encodable>::spec_size(self.difficulty.deep_view());
        let ghost w1 = <bool as Encodable>::spec_size(self.difficulty_locked.deep_view());
        let t0 = self.difficulty.size();
        let t1 = add_size(t0, Ghost(w0), self.difficulty_locked.size(), Ghost(w1));
        t1
    }
}

impl Decodable for ServerDifficulty {
    open spec fn spec_decode(bytes: Seq<u8>) -> Result<(ServerDifficultyView, nat), CodecError> {
        match decode_at::<u8>(bytes, 0) {
            Err(e) => Err(e),
            Ok((difficulty, n0)) => match decode_at::<bool>(bytes, n0) {
                Err(e) => Err(e),
                Ok((difficulty_locked, n1)) => Ok((ServerDifficultyView { difficulty, difficulty_locked }, n0 + n1)),
            },
        }
    }

    proof fn lemma_decode_len(bytes: Seq<u8>) {
        lemma_decode_at::<u8>(bytes, 0);
        <u8 as Decodable>::lemma_decode_len(bytes.subrange((0) as int, bytes.len() as int));
        if let Ok((difficulty, n0)) = decode_at::<u8>(bytes, 0) {
            lemma_decode_at::<bool>(bytes, n0);
            <bool as Decodable>::lemma_decode_len(bytes.subrange((n0) as int, bytes.len() as int));
        }
    }

    fn decode(reader: &mut ByteReader) -> (r: Result<ServerDifficulty, CodecError>) {
        let ghost r0 = *reader;
        let ghost rest0 = reader.rest();
        proof {
            ByteReader::lemma_rest_since(r0, *reader);
            lemma_decode_at::<u8>(rest0, (reader.pos() - r0.pos()) as nat);
        }
        let difficulty = match <u8>::decode(reader) {
            Ok(v) => v,
            Err(e) => return Err(e),
        };
        proof {
            ByteReader::lemma_rest_since(r0, *reader);
            lemma_decode_at::<bool>(rest0, (reader.pos() - r0.pos()) as nat);
        }
        let difficulty_locked = match <bool>::decode(reader) {
            Ok(v) => v,
            Err(e) => return Err(e),
        };
        Ok(ServerDifficulty { difficulty, difficulty_locked })
    }
}

impl Codec for ServerDifficulty {
    open spec fn valid(m: ServerDifficultyView) -> bool {
        &&& <u8 as Codec>::valid(m.difficulty)
        &&& <u8 as Codec>::delimited()
        &&& <bool as Codec>::valid(m.difficulty_locked)
    }

    open spec fn delimited() -> bool {
        <bool as Codec>::delimited()
    }

    proof fn lemma_round_trip(m: ServerDifficultyView, rest: Seq<u8>) {
        let e0 = <u8 as Encodable>::spec_encode(m.difficulty)->Ok_0;
        let e1 = <bool as Encodable>::spec_encode(m.difficulty_locked)->Ok_0;
        let t1 = e1 + rest;
        let t0 = e0 + t1;
        assert(decode_at::<u8>(t0, (0) as nat) == Ok::<(<u8 as DeepView>::V, nat), CodecError>((m.difficulty, e0.len()))
            && <u8 as Encodable>::spec_encode(m.difficulty) == Ok::<Seq<u8>, CodecError>(e0)
            && decode_at::<bool>(t0, (e0.len()) as nat) == Ok::<(<bool as DeepView>::V, nat), CodecError>((m.difficulty_locked, e1.len()))
            && <bool as Encodable>::spec_encode(m.difficulty_locked) == Ok::<Seq<u8>, CodecError>(e1)) by {
            lemma_subrange_all(t0);
            lemma_field_round_trip::<u8>(m.difficulty, t0, (0) as nat, t1);
            lemma_field_round_trip::<bool>(m.difficulty_locked, t0, (e0.len()) as nat, rest);
        }
        assert(e0 + e1 + rest == t0) by {
            lemma_concat_assoc(e0, e1, rest);
        }
        assert(Self::spec_encode(m) == Ok::<Seq<u8>, CodecError>(e0 + e1));
    }
}
/// The client-bound play message: chat message.
pub struct ChatMessage {
    pub chat_json: ChatJson,
    pub position: i8,
    pub sender: McUuid,
}

/// The model of a `ChatMessage`: each field by its model.
pub struct ChatMessageView {
    pub chat_json: Seq<char>,
    pub position: i8,
    pub sender: u128,
}

impl DeepView for ChatMessage {
    type V = ChatMessageView;

    open spec fn deep_view(&self) -> ChatMessageView {
        ChatMessageView {
            chat_json: self.chat_json.deep_view(),
            position: self.position.deep_view(),
            sender: self.sender.deep_view(),
        }
    }
}

impl Encodable for ChatMessage {
    /// The fields in order, with no framing.
    open spec fn spec_encode(m: ChatMessageView) -> Result<Seq<u8>, CodecError> {
        then_encode(then_encode(<ChatJson as Encodable>::spec_encode(m.chat_json), <i8 as Encodable>::spec_encode(m.position)), <McUuid as Encodable>::spec_encode(m.sender))
    }

    /// The sum of the fields' sizes.
    open spec fn spec_size(m: ChatMessageView) -> Result<nat, CodecError> {
        add_size_spec(add_size_spec(<ChatJson as Encodable>::spec_size(m.chat_json), <i8 as Encodable>::spec_size(m.position)), <McUuid as Encodable>::spec_size(m.sender))
    }

    proof fn lemma_size_faithful(m: ChatMessageView) {
        <ChatJson as Encodable>::lemma_size_faithful(m.chat_json);
        <i8 as Encodable>::lemma_size_faithful(m.position);
        <McUuid as Encodable>::lemma_size_faithful(m.sender);
        lemma_then_size(<ChatJson as Encodable>::spec_encode(m.chat_json), <ChatJson as Encodable>::spec_size(m.chat_json), <i8 as Encodable>::spec_encode(m.position), <i8 as Encodable>::spec_size(m.position));
        lemma_then_size(then_encode(<ChatJson as Encodable>::spec_encode(m.chat_json), <i8 as Encodable>::spec_encode(m.position)), add_size_spec(<ChatJson as Encodable>::spec_size(m.chat_json), <i8 as Encodable>::spec_size(m.position)), <McUuid as Encodable>::spec_encode(m.sender), <McUuid as Encodable>::spec_size(m.sender));
    }

    fn encode(&self, out: &mut Vec<u8>) -> (r: Result<(), CodecError>) {
        let ghost o0 = out@;
        let start = out.len();
        let ghost e0 = <ChatJson as Encodable>::spec_encode(self.chat_json.deep_view())->Ok_0;
        let ghost e1 = <i8 as Encodable>::spec_encode(self.position.deep_view())->Ok_0;
        let ghost e2 = <McUuid as Encodable>::spec_encode(self.sender.deep_view())->Ok_0;
        match self.chat_json.encode(out) {
            Ok(_) => {},
            Err(e) => return Err(e),
        }
        match self.position.encode(out) {
            Ok(_) => {},
            Err(e) => {
                roll_back(out, Ghost(o0), Ghost(e0), start);
                return Err(e);
            },
        }
        proof {
            lemma_concat_assoc(o0, e0, e1);
        }
        match self.sender.encode(out) {
            Ok(_) => {},
            Err(e) => {
                roll_back(out, Ghost(o0), Ghost(e0 + e1), start);
                return Err(e);
            },
        }
        proof {
            lemma_concat_assoc(o0, e0 + e1, e2);
        }
        Ok(())
    }

    fn size(&self) -> (r: Result<VarInt, CodecError>) {
        proof {
            <ChatJson as Encodable>::lemma_size_faithful(self.chat_json.deep_view());
            <i8 as Encodable>::lemma_size_faithful(self.position.deep_view());
            <McUuid as Encodable>::lemma_size_faithful(self.sender.deep_view());
        }
        let ghost w0 = <ChatJson as Encodable>::spec_size(self.chat_json.deep_view());
        let ghost w1 = <i8 as Encodable>::spec_size(self.position.deep_view());
        let ghost w2 = <McUuid as Encodable>::spec_size(self.sender.deep_view());
        let t0 = self.chat_json.size();
        let t1 = add_size(t0, Ghost(w0), self.position.size(), Ghost(w1));
        let ghost c1 = add_size_spec(w0, w1);
        let t2 = add_size(t1, Ghost(c1), self.sender.size(), Ghost(w2));
        t2
    }
}

impl Decodable for ChatMessage {
    open spec fn spec_decode(bytes: Seq<u8>) -> Result<(ChatMessageView, nat), CodecError> {
        match decode_at::<ChatJson>(bytes, 0) {
            Err(e) => Err(e),
            Ok((chat_json, n0)) => match decode_at::<i8>(bytes, n0) {
                Err(e) => Err(e),
                Ok((position, n1)) => match decode_at::<McUuid>(bytes, n0 + n1) {
                    Err(e) => Err(e),
                    Ok((sender, n2)) => Ok((ChatMessageView { chat_json, position, sender }, n0 + n1 + n2)),
                },
            },
        }
    }

    proof fn lemma_decode_len(bytes: Seq<u8>) {
        lemma_decode_at::<ChatJson>(bytes, 0);
        <ChatJson as Decodable>::lemma_decode_len(bytes.subrange((0) as int, bytes.len() as int));
        if let Ok((chat_json, n0)) = decode_at::<ChatJson>(bytes, 0) {
            lemma_decode_at::<i8>(bytes, n0);
            <i8 as Decodable>::lemma_decode_len(bytes.subrange((n0) as int, bytes.len() as int));
            if let Ok((position, n1)) = decode_at::<i8>(bytes, n0) {
                lemma_decode_at::<McUuid>(bytes, n0 + n1);
                <McUuid as Decodable>::lemma_decode_len(bytes.subrange((n0 + n1) as int, bytes.len() as int));
            }
        }
    }

    fn decode(reader: &mut ByteReader) -> (r: Result<ChatMessage, CodecError>) {
        let ghost r0 = *reader;
        let ghost rest0 = reader.rest();
        proof {
            ByteReader::lemma_rest_since(r0, *reader);
            lemma_decode_at::<ChatJson>(rest0, (reader.pos() - r0.pos()) as nat);
        }
        let chat_json = match <ChatJson>::decode(reader) {
            Ok(v) => v,
            Err(e) => return Err(e),
        };
        proof {
            ByteReader::lemma_rest_since(r0, *reader);
            lemma_decode_at::<i8>(rest0, (reader.pos() - r0.pos()) as nat);
        }
        let position = match <i8>::decode(reader) {
            Ok(v) => v,
            Err(e) => return Err(e),
        };
        proof {
            ByteReader::lemma_rest_since(r0, *reader);
            lemma_decode_at::<McUuid>(rest0, (reader.pos() - r0.pos()) as nat);
        }
        let sender = match <McUuid>::decode(reader) {
            Ok(v) => v,
            Err(e) => return Err(e),
        };
        Ok(ChatMessage { chat_json, position, sender })
    }
}

impl Codec for ChatMessage {
    open spec fn valid(m: ChatMessageView) -> bool {
        &&& <ChatJson as Codec>::valid(m.chat_json)
        &&& <ChatJson as Codec>::delimited()
        &&& <i8 as Codec>::valid(m.position)
        &&& <i8 as Codec>::delimited()
        &&& <McUuid as Codec>::valid(m.sender)
    }

    open spec fn delimited() -> bool {
        <McUuid as Codec>::delimited()
    }

    proof fn lemma_round_trip(m: ChatMessageView, rest: Seq<u8>) {
        let e0 = <ChatJson as Encodable>::spec_encode(m.chat_json)->Ok_0;
        let e1 = <i8 as Encodable>::spec_encode(m.position)->Ok_0;
        let e2 = <McUuid as Encodable>::spec_encode(m.sender)->Ok_0;
        let t2 = e2 + rest;
        let t1 = e1 + t2;
        let t0 = e0 + t1;
        assert(decode_at::<ChatJson>(t0, (0) as nat) == Ok::<(<ChatJson as DeepView>::V, nat), CodecError>((m.chat_json, e0.len()))
            && <ChatJson as Encodable>::spec_encode(m.chat_json) == Ok::<Seq<u8>, CodecError>(e0)
            && decode_at::<i8>(t0, (e0.len()) as nat) == Ok::<(<i8 as DeepView>::V, nat), CodecError>((m.position, e1.len()))
            && <i8 as Encodable>::spec_encode(m.position) == Ok::<Seq<u8>, CodecError>(e1)
            && decode_at::<McUuid>(t0, (e0.len() + e1.len()) as nat) == Ok::<(<McUuid as DeepView>::V, nat), CodecError>((m.sender, e2.len()))
            && <McUuid as Encodable>::spec_encode(m.sender) == Ok::<Seq<u8>, CodecError>(e2)) by {
            lemma_subrange_all(t0);
            lemma_field_round_trip::<ChatJson>(m.chat_json, t0, (0) as nat, t1);
            lemma_field_round_trip::<i8>(m.position, t0, (e0.len()) as nat, t2);
            lemma_field_round_trip::<McUuid>(m.sender, t0, (e0.len() + e1.len()) as nat, rest);
        }
        assert(e0 + e1 + e2 + rest == t0) by {
            lemma_concat_assoc(e0, e1, t2);
            lemma_concat_assoc(e0 + e1, e2, rest);
        }
        assert(Self::spec_encode(m) == Ok::<Seq<u8>, CodecError>(e0 + e1 + e2));
    }
}
/// The client-bound play message: clear titles.
pub struct ClearTitles {
    pub reset: bool,
}

/// The model of a `ClearTitles`: each field by its model.
pub struct ClearTitlesView {
    pub reset: bool,
}

impl DeepView for ClearTitles {
    type V = ClearTitlesView;

    open spec fn deep_view(&self) -> ClearTitlesView {
        ClearTitlesView {
            reset: self.reset.deep_view(),
        }
    }
}

impl Encodable for ClearTitles {
    /// The fields in order, with no framing.
    open spec fn spec_encode(m: ClearTitlesView) -> Result<Seq<u8>, CodecError> {
        <bool as Encodable>::spec_encode(m.reset)
    }

    /// The sum of the fields' sizes.
    open spec fn spec_size(m: ClearTitlesView) -> Result<nat, CodecError> {
        <bool as Encodable>::spec_size(m.reset)
    }

    proof fn lemma_size_faithful(m: ClearTitlesView) {
        <bool as Encodable>::lemma_size_faithful(m.reset);
    }

    fn encode(&self, out: &mut Vec<u8>) -> (r: Result<(), CodecError>) {
        self.reset.encode(out)
    }

    fn size(&self) -> (r: Result<VarInt, CodecError>) {
        self.reset.size()
    }
}

impl Decodable for ClearTitles {
    open spec fn spec_decode(bytes: Seq<u8>) -> Result<(ClearTitlesView, nat), CodecError> {
        match decode_at::<bool>(bytes, 0) {
            Err(e) => Err(e),
            Ok((reset, n0)) => Ok((ClearTitlesView { reset }, n0)),
        }
    }

    proof fn lemma_decode_len(bytes: Seq<u8>) {
        lemma_decode_at::<bool>(bytes, 0);
        <bool as Decodable>::lemma_decode_len(bytes.subrange((0) as int, bytes.len() as int));
    }

    fn decode(reader: &mut ByteReader) -> (r: Result<ClearTitles, CodecError>) {
        let ghost r0 = *reader;
        let ghost rest0 = reader.rest();
        proof {
            ByteReader::lemma_rest_since(r0, *reader);
            lemma_decode_at::<bool>(rest0, (reader.pos() - r0.pos()) as nat);
        }
        let reset = match <bool>::decode(reader) {
            Ok(v) => v,
            Err(e) => return Err(e),
        };
        Ok(ClearTitles { reset })
    }
}

impl Codec for ClearTitles {
    open spec fn valid(m: ClearTitlesView) -> bool {
        &&& <bool as Codec>::valid(m.reset)
    }

    open spec fn delimited() -> bool {
        <bool as Codec>::delimited()
    }

    proof fn lemma_round_trip(m: ClearTitlesView, rest: Seq<u8>) {
        let e0 = <bool as Encodable>::spec_encode(m.reset)->Ok_0;
        let t0 = e0 + rest;
        assert(decode_at::<bool>(t0, (0) as nat) == Ok::<(<bool as DeepView>::V, nat), CodecError>((m.reset, e0.len()))
            && <bool as Encodable>::spec_encode(m.reset) == Ok::<Seq<u8>, CodecError>(e0)) by {
            lemma_subrange_all(t0);
            lemma_field_round_trip::<bool>(m.reset, t0, (0) as nat, rest);
        }
    }
}
/// The client-bound play message: close window.
pub struct CloseWindow {
    pub window_id: u8,
}

/// The model of a `CloseWindow`: each field by its model.
pub struct CloseWindowView {
    pub window_id: u8,
}

impl DeepView for CloseWindow {
    type V = CloseWindowView;

    open spec fn deep_view(&self) -> CloseWindowView {
        CloseWindowView {
            window_id: self.window_id.deep_view(),
        }
    }
}

impl Encodable for CloseWindow {
    /// The fields in order, with no framing.
    open spec fn spec_encode(m: CloseWindowView) -> Result<Seq<u8>, CodecError> {
        <u8 as Encodable>::spec_encode(m.window_id)
    }

    /// The sum of the fields' sizes.
    open spec fn spec_size(m: CloseWindowView) -> Result<nat, CodecError> {
        <u8 as Encodable>::spec_size(m.window_id)
    }

    proof fn lemma_size_faithful(m: CloseWindowView) {
        <u8 as Encodable>::lemma_size_faithful(m.window_id);
    }

    fn encode(&self, out: &mut Vec<u8>) -> (r: Result<(), CodecError>) {
        self.window_id.encode(out)
    }

    fn size(&self) -> (r: Result<VarInt, CodecError>) {
        self.window_id.size()
    }
}

impl Decodable for CloseWindow {
    open spec fn spec_decode(bytes: Seq<u8>) -> Result<(CloseWindowView, nat), CodecError> {
        match decode_at::<u8>(bytes, 0) {
            Err(e) => Err(e),
            Ok((window_id, n0)) => Ok((CloseWindowView { window_id }, n0)),
        }
    }

    proof fn lemma_decode_len(bytes: Seq<u8>) {
        lemma_decode_at::<u8>(bytes, 0);
        <u8 as Decodable>::lemma_decode_len(bytes.subrange((0) as int, bytes.len() as int));
    }

    fn decode(reader: &mut ByteReader) -> (r: Result<CloseWindow, CodecError>) {
        let ghost r0 = *reader;
        let ghost rest0 = reader.rest();
        proof {
            ByteReader::lemma_rest_since(r0, *reader);
            lemma_decode_at::<u8>(rest0, (reader.pos() - r0.pos()) as nat);
        }
        let window_id = match <u8>::decode(reader) {
            Ok(v) => v,
            Err(e) => return Err(e),
        };
        Ok(CloseWindow { window_id })
    }
}

impl Codec for CloseWindow {
    open spec fn valid(m: CloseWindowView) -> bool {
        &&& <u8 as Codec>::valid(m.window_id)
    }

    open spec fn delimited() -> bool {
        <u8 as Codec>::delimited()
    }

    proof fn lemma_round_trip(m: CloseWindowView, rest: Seq<u8>) {
        let e0 = <u8 as Encodable>::spec_encode(m.window_id)->Ok_0;
        let t0 = e0 + rest;
        assert(decode_at::<u8>(t0, (0) as nat) == Ok::<(<u8 as DeepView>::V, nat), CodecError>((m.window_id, e0.len()))
            && <u8 as Encodable>::spec_encode(m.window_id) == Ok::<Seq<u8>, CodecError>(e0)) by {
            lemma_subrange_all(t0);
            lemma_field_round_trip::<u8>(m.window_id, t0, (0) as nat, rest);
        }
    }
}
/// The client-bound play message: window items.
pub struct WindowItems {
    pub window_id: u8,
    pub state_id: VarInt,
    pub slot_data: (VarInt, Vec<SlotData>),
}

/// The model of a `WindowItems`: each field by its model.
pub struct WindowItemsView {
    pub window_id: u8,
    pub state_id: i32,
    pub slot_data: (i32, Seq<SlotDataView>),
}

impl DeepView for WindowItems {
    type V = WindowItemsView;

    open spec fn deep_view(&self) -> WindowItemsView {
        WindowItemsView {
            window_id: self.window_id.deep_view(),
            state_id: self.state_id.deep_view(),
            slot_data: self.slot_data.deep_view(),
        }
    }
}

impl Encodable for WindowItems {
    /// The fields in order, with no framing.
    open spec fn spec_encode(m: WindowItemsView) -> Result<Seq<u8>, CodecError> {
        then_encode(then_encode(<u8 as Encodable>::spec_encode(m.window_id), <VarInt as Encodable>::spec_encode(m.state_id)), <(VarInt, Vec<SlotData>) as Encodable>::spec_encode(m.slot_data))
    }

    /// The sum of the fields' sizes.
    open spec fn spec_size(m: WindowItemsView) -> Result<nat, CodecError> {
        add_size_spec(add_size_spec(<u8 as Encodable>::spec_size(m.window_id), <VarInt as Encodable>::spec_size(m.state_id)), <(VarInt, Vec<SlotData>) as Encodable>::spec_size(m.slot_data))
    }

    proof fn lemma_size_faithful(m: WindowItemsView) {
        <u8 as Encodable>::lemma_size_faithful(m.window_id);
        <VarInt as Encodable>::lemma_size_faithful(m.state_id);
        <(VarInt, Vec<SlotData>) as Encodable>::lemma_size_faithful(m.slot_data);
        lemma_then_size(<u8 as Encodable>::spec_encode(m.window_id), <u8 as Encodable>::spec_size(m.window_id), <VarInt as Encodable>::spec_encode(m.state_id), <VarInt as Encodable>::spec_size(m.state_id));
        lemma_then_size(then_encode(<u8 as Encodable>::spec_encode(m.window_id), <VarInt as Encodable>::spec_encode(m.state_id)), add_size_spec(<u8 as Encodable>::spec_size(m.window_id), <VarInt as Encodable>::spec_size(m.state_id)), <(VarInt, Vec<SlotData>) as Encodable>::spec_encode(m.slot_data), <(VarInt, Vec<SlotData>) as Encodable>::spec_size(m.slot_data));
    }

    fn encode(&self, out: &mut Vec<u8>) -> (r: Result<(), CodecError>) {
        let ghost o0 = out@;
        let start = out.len();
        let ghost e0 = <u8 as Encodable>::spec_encode(self.window_id.deep_view())->Ok_0;
        let ghost e1 = <VarInt as Encodable>::spec_encode(self.state_id.deep_view())->Ok_0;
        let ghost e2 = <(VarInt, Vec<SlotData>) as Encodable>::spec_encode(self.slot_data.deep_view())->Ok_0;
        match self.window_id.encode(out) {
            Ok(_) => {},
            Err(e) => return Err(e),
        }
        match self.state_id.encode(out) {
            Ok(_) => {},
            Err(e) => {
                roll_back(out, Ghost(o0), Ghost(e0), start);
                return Err(e);
            },
        }
        proof {
            lemma_concat_assoc(o0, e0, e1);
        }
        match self.slot_data.encode(out) {
            Ok(_) => {},
            Err(e) => {
                roll_back(out, Ghost(o0), Ghost(e0 + e1), start);
                return Err(e);
            },
        }
        proof {
            lemma_concat_assoc(o0, e0 + e1, e2);
        }
        Ok(())
    }

    fn size(&self) -> (r: Result<VarInt, CodecError>) {
        proof {
            <u8 as Encodable>::lemma_size_faithful(self.window_id.deep_view());
            <VarInt as Encodable>::lemma_size_faithful(self.state_id.deep_view());
            <(VarInt, Vec<SlotData>) as Encodable>::lemma_size_faithful(self.slot_data.deep_view());
        }
        let ghost w0 = <u8 as Encodable>::spec_size(self.window_id.deep_view());
        let ghost w1 = <VarInt as Encodable>::spec_size(self.state_id.deep_view());
        let ghost w2 = <(VarInt, Vec<SlotData>) as Encodable>::spec_size(self.slot_data.deep_view());
        let t0 = self.window_id.size();
        let t1 = add_size(t0, Ghost(w0), self.state_id.size(), Ghost(w1));
        let ghost c1 = add_size_spec(w0, w1);
        let t2 = add_size(t1, Ghost(c1), self.slot_data.size(), Ghost(w2));
        t2
    }
}

impl Decodable for WindowItems {
    open spec fn spec_decode(bytes: Seq<u8>) -> Result<(WindowItemsView, nat), CodecError> {
        match decode_at::<u8>(bytes, 0) {
            Err(e) => Err(e),
            Ok((window_id, n0)) => match decode_at::<VarInt>(bytes, n0) {
                Err(e) => Err(e),
                Ok((state_id, n1)) => match decode_at::<(VarInt, Vec<SlotData>)>(bytes, n0 + n1) {
                    Err(e) => Err(e),
                    Ok((slot_data, n2)) => Ok((WindowItemsView { window_id, state_id, slot_data }, n0 + n1 + n2)),
                },
            },
        }
    }

    proof fn lemma_decode_len(bytes: Seq<u8>) {
        lemma_decode_at::<u8>(bytes, 0);
        <u8 as Decodable>::lemma_decode_len(bytes.subrange((0) as int, bytes.len() as int));
        if let Ok((window_id, n0)) = decode_at::<u8>(bytes, 0) {
            lemma_decode_at::<VarInt>(bytes, n0);
            <VarInt as Decodable>::lemma_decode_len(bytes.subrange((n0) as int, bytes.len() as int));
            if let Ok((state_id, n1)) = decode_at::<VarInt>(bytes, n0) {
                lemma_decode_at::<(VarInt, Vec<SlotData>)>(bytes, n0 + n1);
                <(VarInt, Vec<SlotData>) as Decodable>::lemma_decode_len(bytes.subrange((n0 + n1) as int, bytes.len() as int));
            }
        }
    }

    fn decode(reader: &mut ByteReader) -> (r: Result<WindowItems, CodecError>) {
        let ghost r0 = *reader;
        let ghost rest0 = reader.rest();
        proof {
            ByteReader::lemma_rest_since(r0, *reader);
            lemma_decode_at::<u8>(rest0, (reader.pos() - r0.pos()) as nat);
        }
        let window_id = match <u8>::decode(reader) {
            Ok(v) => v,
            Err(e) => return Err(e),
        };
        proof {
            ByteReader::lemma_rest_since(r0, *reader);
            lemma_decode_at::<VarInt>(rest0, (reader.pos() - r0.pos()) as nat);
        }
        let state_id = match <VarInt>::decode(reader) {
            Ok(v) => v,
            Err(e) => return Err(e),
        };
        proof {
            ByteReader::lemma_rest_since(r0, *reader);
            lemma_decode_at::<(VarInt, Vec<SlotData>)>(rest0, (reader.pos() - r0.pos()) as nat);
        }
        let slot_data = match <(VarInt, Vec<SlotData>)>::decode(reader) {
            Ok(v) => v,
            Err(e) => return Err(e),
        };
        Ok(WindowItems { window_id, state_id, slot_data })
    }
}

impl Codec for WindowItems {
    open spec fn valid(m: WindowItemsView) -> bool {
        &&& <u8 as Codec>::valid(m.window_id)
        &&& <u8 as Codec>::delimited()
        &&& <VarInt as Codec>::valid(m.state_id)
        &&& <VarInt as Codec>::delimited()
        &&& <(VarInt, Vec<SlotData>) as Codec>::valid(m.slot_data)
    }

    open spec fn delimited() -> bool {
        <(VarInt, Vec<SlotData>) as Codec>::delimited()
    }

    proof fn lemma_round_trip(m: WindowItemsView, rest: Seq<u8>) {
        let e0 = <u8 as Encodable>::spec_encode(m.window_id)->Ok_0;
        let e1 = <VarInt as Encodable>::spec_encode(m.state_id)->Ok_0;
        let e2 = <(VarInt, Vec<SlotData>) as Encodable>::spec_encode(m.slot_data)->Ok_0;
        let t2 = e2 + rest;
        let t1 = e1 + t2;
        let t0 = e0 + t1;
        assert(decode_at::<u8>(t0, (0) as nat) == Ok::<(<u8 as DeepView>::V, nat), CodecError>((m.window_id, e0.len()))
            && <u8 as Encodable>::spec_encode(m.window_id) == Ok::<Seq<u8>, CodecError>(e0)
            && decode_at::<VarInt>(t0, (e0.len()) as nat) == Ok::<(<VarInt as DeepView>::V, nat), CodecError>((m.state_id, e1.len()))
            && <VarInt as Encodable>::spec_encode(m.state_id) == Ok::<Seq<u8>, CodecError>(e1)
            && decode_at::<(VarInt, Vec<SlotData>)>(t0, (e0.len() + e1.len()) as nat) == Ok::<(<(VarInt, Vec<SlotData>) as DeepView>::V, nat), CodecError>((m.slot_data, e2.len()))
            && <(VarInt, Vec<SlotData>) as Encodable>::spec_encode(m.slot_data) == Ok::<Seq<u8>, CodecError>(e2)) by {
            lemma_subrange_all(t0);
            lemma_field_round_trip::<u8>(m.window_id, t0, (0) as nat, t1);
            lemma_field_round_trip::<VarInt>(m.state_id, t0, (e0.len()) as nat, t2);
            lemma_field_round_trip::<(VarInt, Vec<SlotData>)>(m.slot_data, t0, (e0.len() + e1.len()) as nat, rest);
        }
        assert(e0 + e1 + e2 + rest == t0) by {
            lemma_concat_assoc(e0, e1, t2);
            lemma_concat_assoc(e0 + e1, e2, rest);
        }
        assert(Self::spec_encode(m) == Ok::<Seq<u8>, CodecError>(e0 + e1 + e2));
    }
}
/// The client-bound play message: window property.
pub struct WindowProperty {
    pub window_id: u8,
    pub property: i16,
    pub value: i16,
}

/// The model of a `WindowProperty`: each field by its model.
pub struct WindowPropertyView {
    pub window_id: u8,
    pub property: i16,
    pub value: i16,
}

impl DeepView for WindowProperty {
    type V = WindowPropertyView;

    open spec fn deep_view(&self) -> WindowPropertyView {
        WindowPropertyView {
            window_id: self.window_id.deep_view(),
            property: self.property.deep_view(),
            value: self.value.deep_view(),
        }
    }
}

impl Encodable for WindowProperty {
    /// The fields in order, with no framing.
    open spec fn spec_encode(m: WindowPropertyView) -> Result<Seq<u8>, CodecError> {
        then_encode(then_encode(<u8 as Encodable>::spec_encode(m.window_id), <i16 as Encodable>::spec_encode(m.property)), <i16 as Encodable>::spec_encode(m.value))
    }

    /// The sum of the fields' sizes.
    open spec fn spec_size(m: WindowPropertyView) -> Result<nat, CodecError> {
        add_size_spec(add_size_spec(<u8 as Encodable>::spec_size(m.window_id), <i16 as Encodable>::spec_size(m.property)), <i16 as Encodable>::spec_size(m.value))
    }

    proof fn lemma_size_faithful(m: WindowPropertyView) {
        <u8 as Encodable>::lemma_size_faithful(m.window_id);
        <i16 as Encodable>::lemma_size_faithful(m.property);
        <i16 as Encodable>::lemma_size_faithful(m.value);
        lemma_then_size(<u8 as Encodable>::spec_encode(m.window_id), <u8 as Encodable>::spec_size(m.window_id), <i16 as Encodable>::spec_encode(m.property), <i16 as Encodable>::spec_size(m.property));
        lemma_then_size(then_encode(<u8 as Encodable>::spec_encode(m.window_id), <i16 as Encodable>::spec_encode(m.property)), add_size_spec(<u8 as Encodable>::spec_size(m.window_id), <i16 as Encodable>::spec_size(m.property)), <i16 as Encodable>::spec_encode(m.value), <i16 as Encodable>::spec_size(m.value));
    }

    fn encode(&self, out: &mut Vec<u8>) -> (r: Result<(), CodecError>) {
        let ghost o0 = out@;
        let start = out.len();
        let ghost e0 = <u8 as Encodable>::spec_encode(self.window_id.deep_view())->Ok_0;
        let ghost e1 = <i16 as Encodable>::spec_encode(self.property.deep_view())->Ok_0;
        let ghost e2 = <i16 as Encodable>::spec_encode(self.value.deep_view())->Ok_0;
        match self.window_id.encode(out) {
            Ok(_) => {},
            Err(e) => return Err(e),
        }
        match self.property.encode(out) {
            Ok(_) => {},
            Err(e) => {
                roll_back(out, Ghost(o0), Ghost(e0), start);
                return Err(e);
            },
        }
        proof {
            lemma_concat_assoc(o0, e0, e1);
        }
        match self.value.encode(out) {
            Ok(_) => {},
            Err(e) => {
                roll_back(out, Ghost(o0), Ghost(e0 + e1), start);
                return Err(e);
            },
        }
        proof {
            lemma_concat_assoc(o0, e0 + e1, e2);
        }
        Ok(())
    }

    fn size(&self) -> (r: Result<VarInt, CodecError>) {
        proof {
            <u8 as Encodable>::lemma_size_faithful(self.window_id.deep_view());
            <i16 as Encodable>::lemma_size_faithful(self.property.deep_view());
            <i16 as Encodable>::lemma_size_faithful(self.value.deep_view());
        }
        let ghost w0 = <u8 as Encodable>::spec_size(self.window_id.deep_view());
        let ghost w1 = <i16 as Encodable>::spec_size(self.property.deep_view());
        let ghost w2 = <i16 as Encodable>::spec_size(self.value.deep_view());
        let t0 = self.window_id.size();
        let t1 = add_size(t0, Ghost(w0), self.property.size(), Ghost(w1));
        let ghost c1 = add_size_spec(w0, w1);
        let t2 = add_size(t1, Ghost(c1), self.value.size(), Ghost(w2));
        t2
    }
}

impl Decodable for WindowProperty {
    open spec fn spec_decode(bytes: Seq<u8>) -> Result<(WindowPropertyView, nat), CodecError> {
        match decode_at::<u8>(bytes, 0) {
            Err(e) => Err(e),
            Ok((window_id, n0)) => match decode_at::<i16>(bytes, n0) {
                Err(e) => Err(e),
                Ok((property, n1)) => match decode_at::<i16>(bytes, n0 + n1) {
                    Err(e) => Err(e),
                    Ok((value, n2)) => Ok((WindowPropertyView { window_id, property, value }, n0 + n1 + n2)),
                },
            },
        }
    }

    proof fn lemma_decode_len(bytes: Seq<u8>) {
        lemma_decode_at::<u8>(bytes, 0);
        <u8 as Decodable>::lemma_decode_len(bytes.subrange((0) as int, bytes.len() as int));
        if let Ok((window_id, n0)) = decode_at::<u8>(bytes, 0) {
            lemma_decode_at::<i16>(bytes, n0);
            <i16 as Decodable>::lemma_decode_len(bytes.subrange((n0) as int, bytes.len() as int));
            if let Ok((property, n1)) = decode_at::<i16>(bytes, n0) {
                lemma_decode_at::<i16>(bytes, n0 + n1);
                <i16 as Decodable>::lemma_decode_len(bytes.subrange((n0 + n1) as int, bytes.len() as int));
            }
        }
    }

    fn decode(reader: &mut ByteReader) -> (r: Result<WindowProperty, CodecError>) {
        let ghost r0 = *reader;
        let ghost rest0 = reader.rest();
        proof {
            ByteReader::lemma_rest_since(r0, *reader);
            lemma_decode_at::<u8>(rest0, (reader.pos() - r0.pos()) as nat);
        }
        let window_id = match <u8>::decode(reader) {
            Ok(v) => v,
            Err(e) => return Err(e),
        };
        proof {
            ByteReader::lemma_rest_since(r0, *reader);
            lemma_decode_at::<i16>(rest0, (reader.pos() - r0.pos()) as nat);
        }
        let property = match <i16>::decode(reader) {
            Ok(v) => v,
            Err(e) => return Err(e),
        };
        proof {
            ByteReader::lemma_rest_since(r0, *reader);
            lemma_decode_at::<i16>(rest0, (reader.pos() - r0.pos()) as nat);
        }
        let value = match <i16>::decode(reader) {
            Ok(v) => v,
            Err(e) => return Err(e),
        };
        Ok(WindowProperty { window_id, property, value })
    }
}

impl Codec for WindowProperty {
    open spec fn valid(m: WindowPropertyView) -> bool {
        &&& <u8 as Codec>::valid(m.window_id)
        &&& <u8 as Codec>::delimited()
        &&& <i16 as Codec>::valid(m.property)
        &&& <i16 as Codec>::delimited()
        &&& <i16 as Codec>::valid(m.value)
    }

    open spec fn delimited() -> bool {
        <i16 as Codec>::delimited()
    }

    proof fn lemma_round_trip(m: WindowPropertyView, rest: Seq<u8>) {
        let e0 = <u8 as Encodable>::spec_encode(m.window_id)->Ok_0;
        let e1 = <i16 as Encodable>::spec_encode(m.property)->Ok_0;
        let e2 = <i16 as Encodable>::spec_encode(m.value)->Ok_0;
        let t2 = e2 + rest;
        let t1 = e1 + t2;
        let t0 = e0 + t1;
        assert(decode_at::<u8>(t0, (0) as nat) == Ok::<(<u8 as DeepView>::V, nat), CodecError>((m.window_id, e0.len()))
            && <u8 as Encodable>::spec_encode(m.window_id) == Ok::<Seq<u8>, CodecError>(e0)
            && decode_at::<i16>(t0, (e0.len()) as nat) == Ok::<(<i16 as DeepView>::V, nat), CodecError>((m.property, e1.len()))
            && <i16 as Encodable>::spec_encode(m.property) == Ok::<Seq<u8>, CodecError>(e1)
            && decode_at::<i16>(t0, (e0.len() + e1.len()) as nat) == Ok::<(<i16 as DeepView>::V, nat), CodecError>((m.value, e2.len()))
            && <i16 as Encodable>::spec_encode(m.value) == Ok::<Seq<u8>, CodecError>(e2)) by {
            lemma_subrange_all(t0);
            lemma_field_round_trip::<u8>(m.window_id, t0, (0) as nat, t1);
            lemma_field_round_trip::<i16>(m.property, t0, (e0.len()) as nat, t2);
            lemma_field_round_trip::<i16>(m.value, t0, (e0.len() + e1.len()) as nat, rest);
        }
        assert(e0 + e1 + e2 + rest == t0) by {
            lemma_concat_assoc(e0, e1, t2);
            lemma_concat_assoc(e0 + e1, e2, rest);
        }
        assert(Self::spec_encode(m) == Ok::<Seq<u8>, CodecError>(e0 + e1 + e2));
    }
}
/// The client-bound play message: set slot.
pub struct SetSlot {
    pub window_id: u8,
    pub state_id: VarInt,
    pub slot: i16,
    pub slot_data: SlotData,
}

/// The model of a `SetSlot`: each field by its model.
pub struct SetSlotView {
    pub window_id: u8,
    pub state_id: i32,
    pub slot: i16,
    pub slot_data: SlotDataView,
}

impl DeepView for SetSlot {
    type V = SetSlotView;

    open spec fn deep_view(&self) -> SetSlotView {
        SetSlotView {
            window_id: self.window_id.deep_view(),
            state_id: self.state_id.deep_view(),
            slot: self.slot.deep_view(),
            slot_data: self.slot_data.deep_view(),
        }
    }
}

impl Encodable for SetSlot {
    /// The fields in order, with no framing.
    open spec fn spec_encode(m: SetSlotView) -> Result<Seq<u8>, CodecError> {
        then_encode(then_encode(then_encode(<u8 as Encodable>::spec_encode(m.window_id), <VarInt as Encodable>::spec_encode(m.state_id)), <i16 as Encodable>::spec_encode(m.slot)), <SlotData as Encodable>::spec_encode(m.slot_data))
    }

    /// The sum of the fields' sizes.
    open spec fn spec_size(m: SetSlotView) -> Result<nat, CodecError> {
        add_size_spec(add_size_spec(add_size_spec(<u8 as Encodable>::spec_size(m.window_id), <VarInt as Encodable>::spec_size(m.state_id)), <i16 as Encodable>::spec_size(m.slot)), <SlotData as Encodable>::spec_size(m.slot_data))
    }

    proof fn lemma_size_faithful(m: SetSlotView) {
        <u8 as Encodable>::lemma_size_faithful(m.window_id);
        <VarInt as Encodable>::lemma_size_faithful(m.state_id);
        <i16 as Encodable>::lemma_size_faithful(m.slot);
        <SlotData as Encodable>::lemma_size_faithful(m.slot_data);
        lemma_then_size(<u8 as Encodable>::spec_encode(m.window_id), <u8 as Encodable>::spec_size(m.window_id), <VarInt as Encodable>::spec_encode(m.state_id), <VarInt as Encodable>::spec_size(m.state_id));
        lemma_then_size(then_encode(<u8 as Encodable>::spec_encode(m.window_id), <VarInt as Encodable>::spec_encode(m.state_id)), add_size_spec(<u8 as Encodable>::spec_size(m.window_id), <VarInt as Encodable>::spec_size(m.state_id)), <i16 as Encodable>::spec_encode(m.slot), <i16 as Encodable>::spec_size(m.slot));
        lemma_then_size(then_encode(then_encode(<u8 as Encodable>::spec_encode(m.window_id), <VarInt as Encodable>::spec_encode(m.state_id)), <i16 as Encodable>::spec_encode(m.slot)), add_size_spec(add_size_spec(<u8 as Encodable>::spec_size(m.window_id), <VarInt as Encodable>::spec_size(m.state_id)), <i16 as Encodable>::spec_size(m.slot)), <SlotData as Encodable>::spec_encode(m.slot_data), <SlotData as Encodable>::spec_size(m.slot_data));
    }

    fn encode(&self, out: &mut Vec<u8>) -> (r: Result<(), CodecError>) {
        let ghost o0 = out@;
        let start = out.len();
        let ghost e0 = <u8 as Encodable>::spec_encode(self.window_id.deep_view())->Ok_0;
        let ghost e1 = <VarInt as Encodable>::spec_encode(self.state_id.deep_view())->Ok_0;
        let ghost e2 = <i16 as Encodable>::spec_encode(self.slot.deep_view())->Ok_0;
        let ghost e3 = <SlotData as Encodable>::spec_encode(self.slot_data.deep_view())->Ok_0;
        match self.window_id.encode(out) {
            Ok(_) => {},
            Err(e) => return Err(e),
        }
        match self.state_id.encode(out) {
            Ok(_) => {},
            Err(e) => {
                roll_back(out, Ghost(o0), Ghost(e0), start);
                return Err(e);
            },
        }
        proof {
            lemma_concat_assoc(o0, e0, e1);
        }
        match self.slot.encode(out) {
            Ok(_) => {},
            Err(e) => {
                roll_back(out, Ghost(o0), Ghost(e0 + e1), start);
                return Err(e);
            },
        }
        proof {
            lemma_concat_assoc(o0, e0 + e1, e2);
        }
        match self.slot_data.encode(out) {
            Ok(_) => {},
            Err(e) => {
                roll_back(out, Ghost(o0), Ghost(e0 + e1 + e2), start);
                return Err(e);
            },
        }
        proof {
            lemma_concat_assoc(o0, e0 + e1 + e2, e3);
        }
        Ok(())
    }

    fn size(&self) -> (r: Result<VarInt, CodecError>) {
        proof {
            <u8 as Encodable>::lemma_size_faithful(self.window_id.deep_view());
            <VarInt as Encodable>::lemma_size_faithful(self.state_id.deep_view());
            <i16 as Encodable>::lemma_size_faithful(self.slot.deep_view());
            <SlotData as Encodable>::lemma_size_faithful(self.slot_data.deep_view());
        }
        let ghost w0 = <u8 as Encodable>::spec_size(self.window_id.deep_view());
        let ghost w1 = <VarInt as Encodable>::spec_size(self.state_id.deep_view());
        let ghost w2 = <i16 as Encodable>::spec_size(self.slot.deep_view());
        let ghost w3 = <SlotData as Encodable>::spec_size(self.slot_data.deep_view());
        let t0 = self.window_id.size();
        let t1 = add_size(t0, Ghost(w0), self.state_id.size(), Ghost(w1));
        let ghost c1 = add_size_spec(w0, w1);
        let t2 = add_size(t1, Ghost(c1), self.slot.size(), Ghost(w2));
        let ghost c2 = add_size_spec(c1, w2);
        let t3 = add_size(t2, Ghost(c2), self.slot_data.size(), Ghost(w3));
        t3
    }
}

impl Decodable for SetSlot {
    open spec fn spec_decode(bytes: Seq<u8>) -> Result<(SetSlotView, nat), CodecError> {
        match decode_at::<u8>(bytes, 0) {
            Err(e) => Err(e),
            Ok((window_id, n0)) => match decode_at::<VarInt>(bytes, n0) {
                Err(e) => Err(e),
                Ok((state_id, n1)) => match decode_at::<i16>(bytes, n0 + n1) {
                    Err(e) => Err(e),
                    Ok((slot, n2)) => match decode_at::<SlotData>(bytes, n0 + n1 + n2) {
                        Err(e) => Err(e),
                        Ok((slot_data, n3)) => Ok((SetSlotView { window_id, state_id, slot, slot_data }, n0 + n1 + n2 + n3)),
                    },
                },
            },
        }
    }

    proof fn lemma_decode_len(bytes: Seq<u8>) {
        lemma_decode_at::<u8>(bytes, 0);
        <u8 as Decodable>::lemma_decode_len(bytes.subrange((0) as int, bytes.len() as int));
        if let Ok((window_id, n0)) = decode_at::<u8>(bytes, 0) {
            lemma_decode_at::<VarInt>(bytes, n0);
            <VarInt as Decodable>::lemma_decode_len(bytes.subrange((n0) as int, bytes.len() as int));
            if let Ok((state_id, n1)) = decode_at::<VarInt>(bytes, n0) {
                lemma_decode_at::<i16>(bytes, n0 + n1);
                <i16 as Decodable>::lemma_decode_len(bytes.subrange((n0 + n1) as int, bytes.len() as int));
                if let Ok((slot, n2)) = decode_at::<i16>(bytes, n0 + n1) {
                    lemma_decode_at::<SlotData>(bytes, n0 + n1 + n2);
                    <SlotData as Decodable>::lemma_decode_len(bytes.subrange((n0 + n1 + n2) as int, bytes.len() as int));
                }
            }
        }
    }

    fn decode(reader: &mut ByteReader) -> (r: Result<SetSlot, CodecError>) {
        let ghost r0 = *reader;
        let ghost rest0 = reader.rest();
        proof {
            ByteReader::lemma_rest_since(r0, *reader);
            lemma_decode_at::<u8>(rest0, (reader.pos() - r0.pos()) as nat);
        }
        let window_id = match <u8>::decode(reader) {
            Ok(v) => v,
            Err(e) => return Err(e),
        };
        proof {
            ByteReader::lemma_rest_since(r0, *reader);
            lemma_decode_at::<VarInt>(rest0, (reader.pos() - r0.pos()) as nat);
        }
        let state_id = match <VarInt>::decode(reader) {
            Ok(v) => v,
            Err(e) => return Err(e),
        };
        proof {
            ByteReader::lemma_rest_since(r0, *reader);
            lemma_decode_at::<i16>(rest0, (reader.pos() - r0.pos()) as nat);
        }
        let slot = match <i16>::decode(reader) {
            Ok(v) => v,
            Err(e) => return Err(e),
        };
        proof {
            ByteReader::lemma_rest_since(r0, *reader);
            lemma_decode_at::<SlotData>(rest0, (reader.pos() - r0.pos()) as nat);
        }
        let slot_data = match <SlotData>::decode(reader) {
            Ok(v) => v,
            Err(e) => return Err(e),
        };
        Ok(SetSlot { window_id, state_id, slot, slot_data })
    }
}

impl Codec for SetSlot {
    open spec fn valid(m: SetSlotView) -> bool {
        &&& <u8 as Codec>::valid(m.window_id)
        &&& <u8 as Codec>::delimited()
        &&& <VarInt as Codec>::valid(m.state_id)
        &&& <VarInt as Codec>::delimited()
        &&& <i16 as Codec>::valid(m.slot)
        &&& <i16 as Codec>::delimited()
        &&& <SlotData as Codec>::valid(m.slot_data)
    }

    open spec fn delimited() -> bool {
        <SlotData as Codec>::delimited()
    }

    proof fn lemma_round_trip(m: SetSlotView, rest: Seq<u8>) {
        let e0 = <u8 as Encodable>::spec_encode(m.window_id)->Ok_0;
        let e1 = <VarInt as Encodable>::spec_encode(m.state_id)->Ok_0;
        let e2 = <i16 as Encodable>::spec_encode(m.slot)->Ok_0;
        let e3 = <SlotData as Encodable>::spec_encode(m.slot_data)->Ok_0;
        let t3 = e3 + rest;
        let t2 = e2 + t3;
        let t1 = e1 + t2;
        let t0 = e0 + t1;
        assert(decode_at::<u8>(t0, (0) as nat) == Ok::<(<u8 as DeepView>::V, nat), CodecError>((m.window_id, e0.len()))
            && <u8 as Encodable>::spec_encode(m.window_id) == Ok::<Seq<u8>, CodecError>(e0)
            && decode_at::<VarInt>(t0, (e0.len()) as nat) == Ok::<(<VarInt as DeepView>::V, nat), CodecError>((m.state_id, e1.len()))
            && <VarInt as Encodable>::spec_encode(m.state_id) == Ok::<Seq<u8>, CodecError>(e1)
            && decode_at::<i16>(t0, (e0.len() + e1.len()) as nat) == Ok::<(<i16 as DeepView>::V, nat), CodecError>((m.slot, e2.len()))
            && <i16 as Encodable>::spec_encode(m.slot) == Ok::<Seq<u8>, CodecError>(e2)
            && decode_at::<SlotData>(t0, (e0.len() + e1.len() + e2.len()) as nat) == Ok::<(<SlotData as DeepView>::V, nat), CodecError>((m.slot_data, e3.len()))
            && <SlotData as Encodable>::spec_encode(m.slot_data) == Ok::<Seq<u8>, CodecError>(e3)) by {
            lemma_subrange_all(t0);
            lemma_field_round_trip::<u8>(m.window_id, t0, (0) as nat, t1);
            lemma_field_round_trip::<VarInt>(m.state_id, t0, (e0.len()) as nat, t2);
            lemma_field_round_trip::<i16>(m.slot, t0, (e0.len() + e1.len()) as nat, t3);
            lemma_field_round_trip::<SlotData>(m.slot_data, t0, (e0.len() + e1.len() + e2.len()) as nat, rest);
        }
        assert(e0 + e1 + e2 + e3 + rest == t0) by {
            lemma_concat_assoc(e0, e1, t2);
            lemma_concat_assoc(e0 + e1, e2, t3);
            lemma_concat_assoc(e0 + e1 + e2, e3, rest);
        }
        assert(Self::spec_encode(m) == Ok::<Seq<u8>, CodecError>(e0 + e1 + e2 + e3));
    }
}
/// The client-bound play message: set cooldown.
pub struct SetCooldown {
    pub item_id: VarInt,
    pub cooldown_ticks: VarInt,
}

/// The model of a `SetCooldown`: each field by its model.
pub struct SetCooldownView {
    pub item_id: i32,
    pub cooldown_ticks: i32,
}

impl DeepView for SetCooldown {
    type V = SetCooldownView;

    open spec fn deep_view(&self) -> SetCooldownView {
        SetCooldownView {
            item_id: self.item_id.deep_view(),
            cooldown_ticks: self.cooldown_ticks.deep_view(),
        }
    }
}

impl Encodable for SetCooldown {
    /// The fields in order, with no framing.
    open spec fn spec_encode(m: SetCooldownView) -> Result<Seq<u8>, CodecError> {
        then_encode(<VarInt as Encodable>::spec_encode(m.item_id), <VarInt as Encodable>::spec_encode(m.cooldown_ticks))
    }

    /// The sum of the fields' sizes.
    open spec fn spec_size(m: SetCooldownView) -> Result<nat, CodecError> {
        add_size_spec(<VarInt as Encodable>::spec_size(m.item_id), <VarInt as Encodable>::spec_size(m.cooldown_ticks))
    }

    proof fn lemma_size_faithful(m: SetCooldownView) {
        <VarInt as Encodable>::lemma_size_faithful(m.item_id);
        <VarInt as Encodable>::lemma_size_faithful(m.cooldown_ticks);
        lemma_then_size(<VarInt as Encodable>::spec_encode(m.item_id), <VarInt as Encodable>::spec_size(m.item_id), <VarInt as Encodable>::spec_encode(m.cooldown_ticks), <VarInt as Encodable>::spec_size(m.cooldown_ticks));
    }

    fn encode(&self, out: &mut Vec<u8>) -> (r: Result<(), CodecError>) {
        let ghost o0 = out@;
        let start = out.len();
        let ghost e0 = <VarInt as Encodable>::spec_encode(self.item_id.deep_view())->Ok_0;
        let ghost e1 = <VarInt as Encodable>::spec_encode(self.cooldown_ticks.deep_view())->Ok_0;
        match self.item_id.encode(out) {
            Ok(_) => {},
            Err(e) => return Err(e),
        }
        match self.cooldown_ticks.encode(out) {
            Ok(_) => {},
            Err(e) => {
                roll_back(out, Ghost(o0), Ghost(e0), start);
                return Err(e);
            },
        }
        proof {
            lemma_concat_assoc(o0, e0, e1);
        }
        Ok(())
    }

    fn size(&self) -> (r: Result<VarInt, CodecError>) {
        proof {
            <VarInt as Encodable>::lemma_size_faithful(self.item_id.deep_view());
            <VarInt as Encodable>::lemma_size_faithful(self.cooldown_ticks.deep_view());
        }
        let ghost w0 = <VarInt as Encodable>::spec_size(self.item_id.deep_view());
        let ghost w1 = <VarInt as Encodable>::spec_size(self.cooldown_ticks.deep_view());
        let t0 = self.item_id.size();
        let t1 = add_size(t0, Ghost(w0), self.cooldown_ticks.size(), Ghost(w1));
        t1
    }
}

impl Decodable for SetCooldown {
    open spec fn spec_decode(bytes: Seq<u8>) -> Result<(SetCooldownView, nat), CodecError> {
        match decode_at::<VarInt>(bytes, 0) {
            Err(e) => Err(e),
            Ok((item_id, n0)) => match decode_at::<VarInt>(bytes, n0) {
                Err(e) => Err(e),
                Ok((cooldown_ticks, n1)) => Ok((SetCooldownView { item_id, cooldown_ticks }, n0 + n1)),
            },
        }
    }

    proof fn lemma_decode_len(bytes: Seq<u8>) {
        lemma_decode_at::<VarInt>(bytes, 0);
        <VarInt as Decodable>::lemma_decode_len(bytes.subrange((0) as int, bytes.len() as int));
        if let Ok((item_id, n0)) = decode_at::<VarInt>(bytes, 0) {
            lemma_decode_at::<VarInt>(bytes, n0);
            <VarInt as Decodable>::lemma_decode_len(bytes.subrange((n0) as int, bytes.len() as int));
        }
    }

    fn decode(reader: &mut ByteReader) -> (r: Result<SetCooldown, CodecError>) {
        let ghost r0 = *reader;
        let ghost rest0 = reader.rest();
        proof {
            ByteReader::lemma_rest_since(r0, *reader);
            lemma_decode_at::<VarInt>(rest0, (reader.pos() - r0.pos()) as nat);
        }
        let item_id = match <VarInt>::decode(reader) {
            Ok(v) => v,
            Err(e) => return Err(e),
        };
        proof {
            ByteReader::lemma_rest_since(r0, *reader);
            lemma_decode_at::<VarInt>(rest0, (reader.pos() - r0.pos()) as nat);
        }
        let cooldown_ticks = match <VarInt>::decode(reader) {
            Ok(v) => v,
            Err(e) => return Err(e),
        };
        Ok(SetCooldown { item_id, cooldown_ticks })
    }
}

impl Codec for SetCooldown {
    open spec fn valid(m: SetCooldownView) -> bool {
        &&& <VarInt as Codec>::valid(m.item_id)
        &&& <VarInt as Codec>::delimited()
        &&& <VarInt as Codec>::valid(m.cooldown_ticks)
    }

    open spec fn delimited() -> bool {
        <VarInt as Codec>::delimited()
    }

    proof fn lemma_round_trip(m: SetCooldownView, rest: Seq<u8>) {
        let e0 = <VarInt as Encodable>::spec_encode(m.item_id)->Ok_0;
        let e1 = <VarInt as Encodable>::spec_encode(m.cooldown_ticks)->Ok_0;
        let t1 = e1 + rest;
        let t0 = e0 + t1;
        assert(decode_at::<VarInt>(t0, (0) as nat) == Ok::<(<VarInt as DeepView>::V, nat), CodecError>((m.item_id, e0.len()))
            && <VarInt as Encodable>::spec_encode(m.item_id) == Ok::<Seq<u8>, CodecError>(e0)
            && decode_at::<VarInt>(t0, (e0.len()) as nat) == Ok::<(<VarInt as DeepView>::V, nat), CodecError>((m.cooldown_ticks, e1.len()))
            && <VarInt as Encodable>::spec_encode(m.cooldown_ticks) == Ok::<Seq<u8>, CodecError>(e1)) by {
            lemma_subrange_all(t0);
            lemma_field_round_trip::<VarInt>(m.item_id, t0, (0) as nat, t1);
            lemma_field_round_trip::<VarInt>(m.cooldown_ticks, t0, (e0.len()) as nat, rest);
        }
        assert(e0 + e1 + rest == t0) by {
            lemma_concat_assoc(e0, e1, rest);
        }
        assert(Self::spec_encode(m) == Ok::<Seq<u8>, CodecError>(e0 + e1));
    }
}
/// The client-bound play message: plugin message.
pub struct PluginMessage {
    pub channel: Identifier,
    pub data: Vec<u8>,
}

/// The model of a `PluginMessage`: each field by its model.
pub struct PluginMessageView {
    pub channel: Seq<char>,
    pub data: Seq<u8>,
}

impl DeepView for PluginMessage {
    type V = PluginMessageView;

    open spec fn deep_view(&self) -> PluginMessageView {
        PluginMessageView {
            channel: self.channel.deep_view(),
            data: self.data.deep_view(),
        }
    }
}

impl Encodable for PluginMessage {
    /// The fields in order, with no framing.
    open spec fn spec_encode(m: PluginMessageView) -> Result<Seq<u8>, CodecError> {
        then_encode(<Identifier as Encodable>::spec_encode(m.channel), <Vec<u8> as Encodable>::spec_encode(m.data))
    }

    /// The sum of the fields' sizes.
    open spec fn spec_size(m: PluginMessageView) -> Result<nat, CodecError> {
        add_size_spec(<Identifier as Encodable>::spec_size(m.channel), <Vec<u8> as Encodable>::spec_size(m.data))
    }

    proof fn lemma_size_faithful(m: PluginMessageView) {
        <Identifier as Encodable>::lemma_size_faithful(m.channel);
        <Vec<u8> as Encodable>::lemma_size_faithful(m.data);
        lemma_then_size(<Identifier as Encodable>::spec_encode(m.channel), <Identifier as Encodable>::spec_size(m.channel), <Vec<u8> as Encodable>::spec_encode(m.data), <Vec<u8> as Encodable>::spec_size(m.data));
    }

    fn encode(&self, out: &mut Vec<u8>) -> (r: Result<(), CodecError>) {
        let ghost o0 = out@;
        let start = out.len();
        let ghost e0 = <Identifier as Encodable>::spec_encode(self.channel.deep_view())->Ok_0;
        let ghost e1 = <Vec<u8> as Encodable>::spec_encode(self.data.deep_view())->Ok_0;
        match self.channel.encode(out) {
            Ok(_) => {},
            Err(e) => return Err(e),
        }
        match self.data.encode(out) {
            Ok(_) => {},
            Err(e) => {
                roll_back(out, Ghost(o0), Ghost(e0), start);
                return Err(e);
            },
        }
        proof {
            lemma_concat_assoc(o0, e0, e1);
        }
        Ok(())
    }

    fn size(&self) -> (r: Result<VarInt, CodecError>) {
        proof {
            <Identifier as Encodable>::lemma_size_faithful(self.channel.deep_view());
            <Vec<u8> as Encodable>::lemma_size_faithful(self.data.deep_view());
        }
        let ghost w0 = <Identifier as Encodable>::spec_size(self.channel.deep_view());
        let ghost w1 = <Vec<u8> as Encodable>::spec_size(self.data.deep_view());
        let t0 = self.channel.size();
        let t1 = add_size(t0, Ghost(w0), self.data.size(), Ghost(w1));
        t1
    }
}

impl Decodable for PluginMessage {
    open spec fn spec_decode(bytes: Seq<u8>) -> Result<(PluginMessageView, nat), CodecError> {
        match decode_at::<Identifier>(bytes, 0) {
            Err(e) => Err(e),
            Ok((channel, n0)) => match decode_at::<Vec<u8>>(bytes, n0) {
                Err(e) => Err(e),
                Ok((data, n1)) => Ok((PluginMessageView { channel, data }, n0 + n1)),
            },
        }
    }

    proof fn lemma_decode_len(bytes: Seq<u8>) {
        lemma_decode_at::<Identifier>(bytes, 0);
        <Identifier as Decodable>::lemma_decode_len(bytes.subrange((0) as int, bytes.len() as int));
        if let Ok((channel, n0)) = decode_at::<Identifier>(bytes, 0) {
            lemma_decode_at::<Vec<u8>>(bytes, n0);
            <Vec<u8> as Decodable>::lemma_decode_len(bytes.subrange((n0) as int, bytes.len() as int));
        }
    }

    fn decode(reader: &mut ByteReader) -> (r: Result<PluginMessage, CodecError>) {
        let ghost r0 = *reader;
        let ghost rest0 = reader.rest();
        proof {
            ByteReader::lemma_rest_since(r0, *reader);
            lemma_decode_at::<Identifier>(rest0, (reader.pos() - r0.pos()) as nat);
        }
        let channel = match <Identifier>::decode(reader) {
            Ok(v) => v,
            Err(e) => return Err(e),
        };
        proof {
            ByteReader::lemma_rest_since(r0, *reader);
            lemma_decode_at::<Vec<u8>>(rest0, (reader.pos() - r0.pos()) as nat);
        }
        let data = match <Vec<u8>>::decode(reader) {
            Ok(v) => v,
            Err(e) => return Err(e),
        };
        Ok(PluginMessage { channel, data })
    }
}

impl Codec for PluginMessage {
    open spec fn valid(m: PluginMessageView) -> bool {
        &&& <Identifier as Codec>::valid(m.channel)
        &&& <Identifier as Codec>::delimited()
        &&& <Vec<u8> as Codec>::valid(m.data)
    }

    open spec fn delimited() -> bool {
        <Vec<u8> as Codec>::delimited()
    }

    proof fn lemma_round_trip(m: PluginMessageView, rest: Seq<u8>) {
        let e0 = <Identifier as Encodable>::spec_encode(m.channel)->Ok_0;
        let e1 = <Vec<u8> as Encodable>::spec_encode(m.data)->Ok_0;
        let t1 = e1 + rest;
        let t0 = e0 + t1;
        assert(decode_at::<Identifier>(t0, (0) as nat) == Ok::<(<Identifier as DeepView>::V, nat), CodecError>((m.channel, e0.len()))
            && <Identifier as Encodable>::spec_encode(m.channel) == Ok::<Seq<u8>, CodecError>(e0)
            && decode_at::<Vec<u8>>(t0, (e0.len()) as nat) == Ok::<(<Vec<u8> as DeepView>::V, nat), CodecError>((m.data, e1.len()))
            && <Vec<u8> as Encodable>::spec_encode(m.data) == Ok::<Seq<u8>, CodecError>(e1)) by {
            lemma_subrange_all(t0);
            lemma_field_round_trip::<Identifier>(m.channel, t0, (0) as nat, t1);
            lemma_field_round_trip::<Vec<u8>>(m.data, t0, (e0.len()) as nat, rest);
        }
        assert(e0 + e1 + rest == t0) by {
            lemma_concat_assoc(e0, e1, rest);
        }
        assert(Self::spec_encode(m) == Ok::<Seq<u8>, CodecError>(e0 + e1));
    }
}
/// The client-bound play message: named sound effect.
pub struct NamedSoundEffect {
    pub sound_name: Identifier,
    pub sound_category: VarInt,
    pub effect_position_x: i32,
    pub effect_position_y: i32,
    pub effect_position_z: i32,
    pub volume: Float,
    pub pitch: Float,
}

/// The model of a `NamedSoundEffect`: each field by its model.
pub struct NamedSoundEffectView {
    pub sound_name: Seq<char>,
    pub sound_category: i32,
    pub effect_position_x: i32,
    pub effect_position_y: i32,
    pub effect_position_z: i32,
    pub volume: u32,
    pub pitch: u32,
}

impl DeepView for NamedSoundEffect {
    type V = NamedSoundEffectView;

    open spec fn deep_view(&self) -> NamedSoundEffectView {
        NamedSoundEffectView {
            sound_name: self.sound_name.deep_view(),
            sound_category: self.sound_category.deep_view(),
            effect_position_x: self.effect_position_x.deep_view(),
            effect_position_y: self.effect_position_y.deep_view(),
            effect_position_z: self.effect_position_z.deep_view(),
            volume: self.volume.deep_view(),
            pitch: self.pitch.deep_view(),
        }
    }
}

impl Encodable for NamedSoundEffect {
    /// The fields in order, with no framing.
    open spec fn spec_encode(m: NamedSoundEffectView) -> Result<Seq<u8>, CodecError> {
        then_encode(then_encode(then_encode(then_encode(then_encode(then_encode(<Identifier as Encodable>::spec_encode(m.sound_name), <VarInt as Encodable>::spec_encode(m.sound_category)), <i32 as Encodable>::spec_encode(m.effect_position_x)), <i32 as Encodable>::spec_encode(m.effect_position_y)), <i32 as Encodable>::spec_encode(m.effect_position_z)), <Float as Encodable>::spec_encode(m.volume)), <Float as Encodable>::spec_encode(m.pitch))
    }

    /// The sum of the fields' sizes.
    open spec fn spec_size(m: NamedSoundEffectView) -> Result<nat, CodecError> {
        add_size_spec(add_size_spec(add_size_spec(add_size_spec(add_size_spec(add_size_spec(<Identifier as Encodable>::spec_size(m.sound_name), <VarInt as Encodable>::spec_size(m.sound_category)), <i32 as Encodable>::spec_size(m.effect_position_x)), <i32 as Encodable>::spec_size(m.effect_position_y)), <i32 as Encodable>::spec_size(m.effect_position_z)), <Float as Encodable>::spec_size(m.volume)), <Float as Encodable>::spec_size(m.pitch))
    }

    proof fn lemma_size_faithful(m: NamedSoundEffectView) {
        <Identifier as Encodable>::lemma_size_faithful(m.sound_name);
        <VarInt as Encodable>::lemma_size_faithful(m.sound_category);
        <i32 as Encodable>::lemma_size_faithful(m.effect_position_x);
        <i32 as Encodable>::lemma_size_faithful(m.effect_position_y);
        <i32 as Encodable>::lemma_size_faithful(m.effect_position_z);
        <Float as Encodable>::lemma_size_faithful(m.volume);
        <Float as Encodable>::lemma_size_faithful(m.pitch);
        lemma_then_size(<Identifier as Encodable>::spec_encode(m.sound_name), <Identifier as Encodable>::spec_size(m.sound_name), <VarInt as Encodable>::spec_encode(m.sound_category), <VarInt as Encodable>::spec_size(m.sound_category));
        lemma_then_size(then_encode(<Identifier as Encodable>::spec_encode(m.sound_name), <VarInt as Encodable>::spec_encode(m.sound_category)), add_size_spec(<Identifier as Encodable>::spec_size(m.sound_name), <VarInt as Encodable>::spec_size(m.sound_category)), <i32 as Encodable>::spec_encode(m.effect_position_x), <i32 as Encodable>::spec_size(m.effect_position_x));
        lemma_then_size(then_encode(then_encode(<Identifier as Encodable>::spec_encode(m.sound_name), <VarInt as Encodable>::spec_encode(m.sound_category)), <i32 as Encodable>::spec_encode(m.effect_position_x)), add_size_spec(add_size_spec(<Identifier as Encodable>::spec_size(m.sound_name), <VarInt as Encodable>::spec_size(m.sound_category)), <i32 as Encodable>::spec_size(m.effect_position_x)), <i32 as Encodable>::spec_encode(m.effect_position_y), <i32 as Encodable>::spec_size(m.effect_position_y));
        lemma_then_size(then_encode(then_encode(then_encode(<Identifier as Encodable>::spec_encode(m.sound_name), <VarInt as Encodable>::spec_encode(m.sound_category)), <i32 as Encodable>::spec_encode(m.effect_position_x)), <i32 as Encodable>::spec_encode(m.effect_position_y)), add_size_spec(add_size_spec(add_size_spec(<Identifier as Encodable>::spec_size(m.sound_name), <VarInt as Encodable>::spec_size(m.sound_category)), <i32 as Encodable>::spec_size(m.effect_position_x)), <i32 as Encodable>::spec_size(m.effect_position_y)), <i32 as Encodable>::spec_encode(m.effect_position_z), <i32 as Encodable>::spec_size(m.effect_position_z));
        lemma_then_size(then_encode(then_encode(then_encode(then_encode(<Identifier as Encodable>::spec_encode(m.sound_name), <VarInt as Encodable>::spec_encode(m.sound_category)), <i32 as Encodable>::spec_encode(m.effect_position_x)), <i32 as Encodable>::spec_encode(m.effect_position_y)), <i32 as Encodable>::spec_encode(m.effect_position_z)), add_size_spec(add_size_spec(add_size_spec(add_size_spec(<Identifier as Encodable>::spec_size(m.sound_name), <VarInt as Encodable>::spec_size(m.sound_category)), <i32 as Encodable>::spec_size(m.effect_position_x)), <i32 as Encodable>::spec_size(m.effect_position_y)), <i32 as Encodable>::spec_size(m.effect_position_z)), <Float as Encodable>::spec_encode(m.volume), <Float as Encodable>::spec_size(m.volume));
        lemma_then_size(then_encode(then_encode(then_encode(then_encode(then_encode(<Identifier as Encodable>::spec_encode(m.sound_name), <VarInt as Encodable>::spec_encode(m.sound_category)), <i32 as Encodable>::spec_encode(m.effect_position_x)), <i32 as Encodable>::spec_encode(m.effect_position_y)), <i32 as Encodable>::spec_encode(m.effect_position_z)), <Float as Encodable>::spec_encode(m.volume)), add_size_spec(add_size_spec(add_size_spec(add_size_spec(add_size_spec(<Identifier as Encodable>::spec_size(m.sound_name), <VarInt as Encodable>::spec_size(m.sound_category)), <i32 as Encodable>::spec_size(m.effect_position_x)), <i32 as Encodable>::spec_size(m.effect_position_y)), <i32 as Encodable>::spec_size(m.effect_position_z)), <Float as Encodable>::spec_size(m.volume)), <Float as Encodable>::spec_encode(m.pitch), <Float as Encodable>::spec_size(m.pitch));
    }

    fn encode(&self, out: &mut Vec<u8>) -> (r: Result<(), CodecError>) {
        let ghost o0 = out@;
        let start = out.len();
        let ghost e0 = <Identifier as Encodable>::spec_encode(self.sound_name.deep_view())->Ok_0;
        let ghost e1 = <VarInt as Encodable>::spec_encode(self.sound_category.deep_view())->Ok_0;
        let ghost e2 = <i32 as Encodable>::spec_encode(self.effect_position_x.deep_view())->Ok_0;
        let ghost e3 = <i32 as Encodable>::spec_encode(self.effect_position_y.deep_view())->Ok_0;
        let ghost e4 = <i32 as Encodable>::spec_encode(self.effect_position_z.deep_view())->Ok_0;
        let ghost e5 = <Float as Encodable>::spec_encode(self.volume.deep_view())->Ok_0;
        let ghost e6 = <Float as Encodable>::spec_encode(self.pitch.deep_view())->Ok_0;
        match self.sound_name.encode(out) {
            Ok(_) => {},
            Err(e) => return Err(e),
        }
        match self.sound_category.encode(out) {
            Ok(_) => {},
            Err(e) => {
                roll_back(out, Ghost(o0), Ghost(e0), start);
                return Err(e);
            },
        }
        proof {
            lemma_concat_assoc(o0, e0, e1);
        }
        match self.effect_position_x.encode(out) {
            Ok(_) => {},
            Err(e) => {
                roll_back(out, Ghost(o0), Ghost(e0 + e1), start);
                return Err(e);
            },
        }
        proof {
            lemma_concat_assoc(o0, e0 + e1, e2);
        }
        match self.effect_position_y.encode(out) {
            Ok(_) => {},
            Err(e) => {
                roll_back(out, Ghost(o0), Ghost(e0 + e1 + e2), start);
                return Err(e);
            },
        }
        proof {
            lemma_concat_assoc(o0, e0 + e1 + e2, e3);
        }
        match self.effect_position_z.encode(out) {
            Ok(_) => {},
            Err(e) => {
                roll_back(out, Ghost(o0), Ghost(e0 + e1 + e2 + e3), start);
                return Err(e);
            },
        }
        proof {
            lemma_concat_assoc(o0, e0 + e1 + e2 + e3, e4);
        }
        match self.volume.encode(out) {
            Ok(_) => {},
            Err(e) => {
                roll_back(out, Ghost(o0), Ghost(e0 + e1 + e2 + e3 + e4), start);
                return Err(e);
            },
        }
        proof {
            lemma_concat_assoc(o0, e0 + e1 + e2 + e3 + e4, e5);
        }
        match self.pitch.encode(out) {
            Ok(_) => {},
            Err(e) => {
                roll_back(out, Ghost(o0), Ghost(e0 + e1 + e2 + e3 + e4 + e5), start);
                return Err(e);
            },
        }
        proof {
            lemma_concat_assoc(o0, e0 + e1 + e2 + e3 + e4 + e5, e6);
        }
        Ok(())
    }

    fn size(&self) -> (r: Result<VarInt, CodecError>) {
        proof {
            <Identifier as Encodable>::lemma_size_faithful(self.sound_name.deep_view());
            <VarInt as Encodable>::lemma_size_faithful(self.sound_category.deep_view());
            <i32 as Encodable>::lemma_size_faithful(self.effect_position_x.deep_view());
            <i32 as Encodable>::lemma_size_faithful(self.effect_position_y.deep_view());
            <i32 as Encodable>::lemma_size_faithful(self.effect_position_z.deep_view());
            <Float as Encodable>::lemma_size_faithful(self.volume.deep_view());
            <Float as Encodable>::lemma_size_faithful(self.pitch.deep_view());
        }
        let ghost w0 = <Identifier as Encodable>::spec_size(self.sound_name.deep_view());
        let ghost w1 = <VarInt as Encodable>::spec_size(self.sound_category.deep_view());
        let ghost w2 = <i32 as Encodable>::spec_size(self.effect_position_x.deep_view());
        let ghost w3 = <i32 as Encodable>::spec_size(self.effect_position_y.deep_view());
        let ghost w4 = <i32 as Encodable>::spec_size(self.effect_position_z.deep_view());
        let ghost w5 = <Float as Encodable>::spec_size(self.volume.deep_view());
        let ghost w6 = <Float as Encodable>::spec_size(self.pitch.deep_view());
        let t0 = self.sound_name.size();
        let t1 = add_size(t0, Ghost(w0), self.sound_category.size(), Ghost(w1));
        let ghost c1 = add_size_spec(w0, w1);
        let t2 = add_size(t1, Ghost(c1), self.effect_position_x.size(), Ghost(w2));
        let ghost c2 = add_size_spec(c1, w2);
        let t3 = add_size(t2, Ghost(c2), self.effect_position_y.size(), Ghost(w3));
        let ghost c3 = add_size_spec(c2, w3);
        let t4 = add_size(t3, Ghost(c3), self.effect_position_z.size(), Ghost(w4));
        let ghost c4 = add_size_spec(c3, w4);
        let t5 = add_size(t4, Ghost(c4), self.volume.size(), Ghost(w5));
        let ghost c5 = add_size_spec(c4, w5);
        let t6 = add_size(t5, Ghost(c5), self.pitch.size(), Ghost(w6));
        t6
    }
}

impl Decodable for NamedSoundEffect {
    open spec fn spec_decode(bytes: Seq<u8>) -> Result<(NamedSoundEffectView, nat), CodecError> {
        match decode_at::<Identifier>(bytes, 0) {
            Err(e) => Err(e),
            Ok((sound_name, n0)) => match decode_at::<VarInt>(bytes, n0) {
                Err(e) => Err(e),
                Ok((sound_category, n1)) => match decode_at::<i32>(bytes, n0 + n1) {
                    Err(e) => Err(e),
                    Ok((effect_position_x, n2)) => match decode_at::<i32>(bytes, n0 + n1 + n2) {
                        Err(e) => Err(e),
                        Ok((effect_position_y, n3)) => match decode_at::<i32>(bytes, n0 + n1 + n2 + n3) {
                            Err(e) => Err(e),
                            Ok((effect_position_z, n4)) => match decode_at::<Float>(bytes, n0 + n1 + n2 + n3 + n4) {
                                Err(e) => Err(e),
                                Ok((volume, n5)) => match decode_at::<Float>(bytes, n0 + n1 + n2 + n3 + n4 + n5) {
                                    Err(e) => Err(e),
                                    Ok((pitch, n6)) => Ok((NamedSoundEffectView { sound_name, sound_category, effect_position_x, effect_position_y, effect_position_z, volume, pitch }, n0 + n1 + n2 + n3 + n4 + n5 + n6)),
                                },
                            },
                        },
                    },
                },
            },
        }
    }

    proof fn lemma_decode_len(bytes: Seq<u8>) {
        lemma_decode_at::<Identifier>(bytes, 0);
        <Identifier as Decodable>::lemma_decode_len(bytes.subrange((0) as int, bytes.len() as int));
        if let Ok((sound_name, n0)) = decode_at::<Identifier>(bytes, 0) {
            lemma_decode_at::<VarInt>(bytes, n0);
            <VarInt as Decodable>::lemma_decode_len(bytes.subrange((n0) as int, bytes.len() as int));
            if let Ok((sound_category, n1)) = decode_at::<VarInt>(bytes, n0) {
                lemma_decode_at::<i32>(bytes, n0 + n1);
                <i32 as Decodable>::lemma_decode_len(bytes.subrange((n0 + n1) as int, bytes.len() as int));
                if let Ok((effect_position_x, n2)) = decode_at::<i32>(bytes, n0 + n1) {
                    lemma_decode_at::<i32>(bytes, n0 + n1 + n2);
                    <i32 as Decodable>::lemma_decode_len(bytes.subrange((n0 + n1 + n2) as int, bytes.len() as int));
                    if let Ok((effect_position_y, n3)) = decode_at::<i32>(bytes, n0 + n1 + n2) {
                        lemma_decode_at::<i32>(bytes, n0 + n1 + n2 + n3);
                        <i32 as Decodable>::lemma_decode_len(bytes.subrange((n0 + n1 + n2 + n3) as int, bytes.len() as int));
                        if let Ok((effect_position_z, n4)) = decode_at::<i32>(bytes, n0 + n1 + n2 + n3) {
                            lemma_decode_at::<Float>(bytes, n0 + n1 + n2 + n3 + n4);
                            <Float as Decodable>::lemma_decode_len(bytes.subrange((n0 + n1 + n2 + n3 + n4) as int, bytes.len() as int));
                            if let Ok((volume, n5)) = decode_at::<Float>(bytes, n0 + n1 + n2 + n3 + n4) {
                                lemma_decode_at::<Float>(bytes, n0 + n1 + n2 + n3 + n4 + n5);
                                <Float as Decodable>::lemma_decode_len(bytes.subrange((n0 + n1 + n2 + n3 + n4 + n5) as int, bytes.len() as int));
                            }
                        }
                    }
                }
            }
        }
    }

    fn decode(reader: &mut ByteReader) -> (r: Result<NamedSoundEffect, CodecError>) {
        let ghost r0 = *reader;
        let ghost rest0 = reader.rest();
        proof {
            ByteReader::lemma_rest_since(r0, *reader);
            lemma_decode_at::<Identifier>(rest0, (reader.pos() - r0.pos()) as nat);
        }
        let sound_name = match <Identifier>::decode(reader) {
            Ok(v) => v,
            Err(e) => return Err(e),
        };
        proof {
            ByteReader::lemma_rest_since(r0, *reader);
            lemma_decode_at::<VarInt>(rest0, (reader.pos() - r0.pos()) as nat);
        }
        let sound_category = match <VarInt>::decode(reader) {
            Ok(v) => v,
            Err(e) => return Err(e),
        };
        proof {
            ByteReader::lemma_rest_since(r0, *reader);
            lemma_decode_at::<i32>(rest0, (reader.pos() - r0.pos()) as nat);
        }
        let effect_position_x = match <i32>::decode(reader) {
            Ok(v) => v,
            Err(e) => return Err(e),
        };
        proof {
            ByteReader::lemma_rest_since(r0, *reader);
            lemma_decode_at::<i32>(rest0, (reader.pos() - r0.pos()) as nat);
        }
        let effect_position_y = match <i32>::decode(reader) {
            Ok(v) => v,
            Err(e) => return Err(e),
        };
        proof {
            ByteReader::lemma_rest_since(r0, *reader);
            lemma_decode_at::<i32>(rest0, (reader.pos() - r0.pos()) as nat);
        }
        let effect_position_z = match <i32>::decode(reader) {
            Ok(v) => v,
            Err(e) => return Err(e),
        };
        proof {
            ByteReader::lemma_rest_since(r0, *reader);
            lemma_decode_at::<Float>(rest0, (reader.pos() - r0.pos()) as nat);
        }
        let volume = match <Float>::decode(reader) {
            Ok(v) => v,
            Err(e) => return Err(e),
        };
        proof {
            ByteReader::lemma_rest_since(r0, *reader);
            lemma_decode_at::<Float>(rest0, (reader.pos() - r0.pos()) as nat);
        }
        let pitch = match <Float>::decode(reader) {
            Ok(v) => v,
            Err(e) => return Err(e),
        };
        Ok(NamedSoundEffect { sound_name, sound_category, effect_position_x, effect_position_y, effect_position_z, volume, pitch })
    }
}

impl Codec for NamedSoundEffect {
    open spec fn valid(m: NamedSoundEffectView) -> bool {
        &&& <Identifier as Codec>::valid(m.sound_name)
        &&& <Identifier as Codec>::delimited()
        &&& <VarInt as Codec>::valid(m.sound_category)
        &&& <VarInt as Codec>::delimited()
        &&& <i32 as Codec>::valid(m.effect_position_x)
        &&& <i32 as Codec>::delimited()
        &&& <i32 as Codec>::valid(m.effect_position_y)
        &&& <i32 as Codec>::delimited()
        &&& <i32 as Codec>::valid(m.effect_position_z)
        &&& <i32 as Codec>::delimited()
        &&& <Float as Codec>::valid(m.volume)
        &&& <Float as Codec>::delimited()
        &&& <Float as Codec>::valid(m.pitch)
    }

    open spec fn delimited() -> bool {
        <Float as Codec>::delimited()
    }

    proof fn lemma_round_trip(m: NamedSoundEffectView, rest: Seq<u8>) {
        let e0 = <Identifier as Encodable>::spec_encode(m.sound_name)->Ok_0;
        let e1 = <VarInt as Encodable>::spec_encode(m.sound_category)->Ok_0;
        let e2 = <i32 as Encodable>::spec_encode(m.effect_position_x)->Ok_0;
        let e3 = <i32 as Encodable>::spec_encode(m.effect_position_y)->Ok_0;
        let e4 = <i32 as Encodable>::spec_encode(m.effect_position_z)->Ok_0;
        let e5 = <Float as Encodable>::spec_encode(m.volume)->Ok_0;
        let e6 = <Float as Encodable>::spec_encode(m.pitch)->Ok_0;
        let t6 = e6 + rest;
        let t5 = e5 + t6;
        let t4 = e4 + t5;
        let t3 = e3 + t4;
        let t2 = e2 + t3;
        let t1 = e1 + t2;
        let t0 = e0 + t1;
        assert(decode_at::<Identifier>(t0, (0) as nat) == Ok::<(<Identifier as DeepView>::V, nat), CodecError>((m.sound_name, e0.len()))
            && <Identifier as Encodable>::spec_encode(m.sound_name) == Ok::<Seq<u8>, CodecError>(e0)
            && decode_at::<VarInt>(t0, (e0.len()) as nat) == Ok::<(<VarInt as DeepView>::V, nat), CodecError>((m.sound_category, e1.len()))
            && <VarInt as Encodable>::spec_encode(m.sound_category) == Ok::<Seq<u8>, CodecError>(e1)
            && decode_at::<i32>(t0, (e0.len() + e1.len()) as nat) == Ok::<(<i32 as DeepView>::V, nat), CodecError>((m.effect_position_x, e2.len()))
            && <i32 as Encodable>::spec_encode(m.effect_position_x) == Ok::<Seq<u8>, CodecError>(e2)
            && decode_at::<i32>(t0, (e0.len() + e1.len() + e2.len()) as nat) == Ok::<(<i32 as DeepView>::V, nat), CodecError>((m.effect_position_y, e3.len()))
            && <i32 as Encodable>::spec_encode(m.effect_position_y) == Ok::<Seq<u8>, CodecError>(e3)
            && decode_at::<i32>(t0, (e0.len() + e1.len() + e2.len() + e3.len()) as nat) == Ok::<(<i32 as DeepView>::V, nat), CodecError>((m.effect_position_z, e4.len()))
            && <i32 as Encodable>::spec_encode(m.effect_position_z) == Ok::<Seq<u8>, CodecError>(e4)
            && decode_at::<Float>(t0, (e0.len() + e1.len() + e2.len() + e3.len() + e4.len()) as nat) == Ok::<(<Float as DeepView>::V, nat), CodecError>((m.volume, e5.len()))
            && <Float as Encodable>::spec_encode(m.volume) == Ok::<Seq<u8>, CodecError>(e5)
            && decode_at::<Float>(t0, (e0.len() + e1.len() + e2.len() + e3.len() + e4.len() + e5.len()) as nat) == Ok::<(<Float as DeepView>::V, nat), CodecError>((m.pitch, e6.len()))
            && <Float as Encodable>::spec_encode(m.pitch) == Ok::<Seq<u8>, CodecError>(e6)) by {
            lemma_subrange_all(t0);
            lemma_field_round_trip::<Identifier>(m.sound_name, t0, (0) as nat, t1);
            lemma_field_round_trip::<VarInt>(m.sound_category, t0, (e0.len()) as nat, t2);
            lemma_field_round_trip::<i32>(m.effect_position_x, t0, (e0.len() + e1.len()) as nat, t3);
            lemma_field_round_trip::<i32>(m.effect_position_y, t0, (e0.len() + e1.len() + e2.len()) as nat, t4);
            lemma_field_round_trip::<i32>(m.effect_position_z, t0, (e0.len() + e1.len() + e2.len() + e3.len()) as nat, t5);
            lemma_field_round_trip::<Float>(m.volume, t0, (e0.len() + e1.len() + e2.len() + e3.len() + e4.len()) as nat, t6);
            lemma_field_round_trip::<Float>(m.pitch, t0, (e0.len() + e1.len() + e2.len() + e3.len() + e4.len() + e5.len()) as nat, rest);
        }
        assert(e0 + e1 + e2 + e3 + e4 + e5 + e6 + rest == t0) by {
            lemma_concat_assoc(e0, e1, t2);
            lemma_concat_assoc(e0 + e1, e2, t3);
            lemma_concat_assoc(e0 + e1 + e2, e3, t4);
            lemma_concat_assoc(e0 + e1 + e2 + e3, e4, t5);
            lemma_concat_assoc(e0 + e1 + e2 + e3 + e4, e5, t6);
            lemma_concat_assoc(e0 + e1 + e2 + e3 + e4 + e5, e6, rest);
        }
        assert(Self::spec_encode(m) == Ok::<Seq<u8>, CodecError>(e0 + e1 + e2 + e3 + e4 + e5 + e6));
    }
}
/// The client-bound play message: disconnect.
pub struct Disconnect {
    pub reason: ChatJson,
}

/// The model of a `Disconnect`: each field by its model.
pub struct DisconnectView {
    pub reason: Seq<char>,
}

impl DeepView for Disconnect {
    type V = DisconnectView;

    open spec fn deep_view(&self) -> DisconnectView {
        DisconnectView {
            reason: self.reason.deep_view(),
        }
    }
}

impl Encodable for Disconnect {
    /// The fields in order, with no framing.
    open spec fn spec_encode(m: DisconnectView) -> Result<Seq<u8>, CodecError> {
        <ChatJson as Encodable>::spec_encode(m.reason)
    }

    /// The sum of the fields' sizes.
    open spec fn spec_size(m: DisconnectView) -> Result<nat, CodecError> {
        <ChatJson as Encodable>::spec_size(m.reason)
    }

    proof fn lemma_size_faithful(m: DisconnectView) {
        <ChatJson as Encodable>::lemma_size_faithful(m.reason);
    }

    fn encode(&self, out: &mut Vec<u8>) -> (r: Result<(), CodecError>) {
        self.reason.encode(out)
    }

    fn size(&self) -> (r: Result<VarInt, CodecError>) {
        self.reason.size()
    }
}

impl Decodable for Disconnect {
    open spec fn spec_decode(bytes: Seq<u8>) -> Result<(DisconnectView, nat), CodecError> {
        match decode_at::<ChatJson>(bytes, 0) {
            Err(e) => Err(e),
            Ok((reason, n0)) => Ok((DisconnectView { reason }, n0)),
        }
    }

    proof fn lemma_decode_len(bytes: Seq<u8>) {
        lemma_decode_at::<ChatJson>(bytes, 0);
        <ChatJson as Decodable>::lemma_decode_len(bytes.subrange((0) as int, bytes.len() as int));
    }

    fn decode(reader: &mut ByteReader) -> (r: Result<Disconnect, CodecError>) {
        let ghost r0 = *reader;
        let ghost rest0 = reader.rest();
        proof {
            ByteReader::lemma_rest_since(r0, *reader);
            lemma_decode_at::<ChatJson>(rest0, (reader.pos() - r0.pos()) as nat);
        }
        let reason = match <ChatJson>::decode(reader) {
            Ok(v) => v,
            Err(e) => return Err(e),
        };
        Ok(Disconnect { reason })
    }
}

impl Codec for Disconnect {
    open spec fn valid(m: DisconnectView) -> bool {
        &&& <ChatJson as Codec>::valid(m.reason)
    }

    open spec fn delimited() -> bool {
        <ChatJson as Codec>::delimited()
    }

    proof fn lemma_round_trip(m: DisconnectView, rest: Seq<u8>) {
        let e0 = <ChatJson as Encodable>::spec_encode(m.reason)->Ok_0;
        let t0 = e0 + rest;
        assert(decode_at::<ChatJson>(t0, (0) as nat) == Ok::<(<ChatJson as DeepView>::V, nat), CodecError>((m.reason, e0.len()))
            && <ChatJson as Encodable>::spec_encode(m.reason) == Ok::<Seq<u8>, CodecError>(e0)) by {
            lemma_subrange_all(t0);
            lemma_field_round_trip::<ChatJson>(m.reason, t0, (0) as nat, rest);
        }
    }
}
/// The client-bound play message: entity status.
pub struct EntityStatus {
    pub entity_id: i32,
    pub entity_status: i8,
}

/// The model of a `EntityStatus`: each field by its model.
pub struct EntityStatusView {
    pub entity_id: i32,
    pub entity_status: i8,
}

impl DeepView for EntityStatus {
    type V = EntityStatusView;

    open spec fn deep_view(&self) -> EntityStatusView {
        EntityStatusView {
            entity_id: self.entity_id.deep_view(),
            entity_status: self.entity_status.deep_view(),
        }
    }
}

impl Encodable for EntityStatus {
    /// The fields in order, with no framing.
    open spec fn spec_encode(m: EntityStatusView) -> Result<Seq<u8>, CodecError> {
        then_encode(<i32 as Encodable>::spec_encode(m.entity_id), <i8 as Encodable>::spec_encode(m.entity_status))
    }

    /// The sum of the fields' sizes.
    open spec fn spec_size(m: EntityStatusView) -> Result<nat, CodecError> {
        add_size_spec(<i32 as Encodable>::spec_size(m.entity_id), <i8 as Encodable>::spec_size(m.entity_status))
    }

    proof fn lemma_size_faithful(m: EntityStatusView) {
        <i32 as Encodable>::lemma_size_faithful(m.entity_id);
        <i8 as Encodable>::lemma_size_faithful(m.entity_status);
        lemma_then_size(<i32 as Encodable>::spec_encode(m.entity_id), <i32 as Encodable>::spec_size(m.entity_id), <i8 as Encodable>::spec_encode(m.entity_status), <i8 as Encodable>::spec_size(m.entity_status));
    }

    fn encode(&self, out: &mut Vec<u8>) -> (r: Result<(), CodecError>) {
        let ghost o0 = out@;
        let start = out.len();
        let ghost e0 = <i32 as Encodable>::spec_encode(self.entity_id.deep_view())->Ok_0;
        let ghost e1 = <i8 as Encodable>::spec_encode(self.entity_status.deep_view())->Ok_0;
        match self.entity_id.encode(out) {
            Ok(_) => {},
            Err(e) => return Err(e),
        }
        match self.entity_status.encode(out) {
            Ok(_) => {},
            Err(e) => {
                roll_back(out, Ghost(o0), Ghost(e0), start);
                return Err(e);
            },
        }
        proof {
            lemma_concat_assoc(o0, e0, e1);
        }
        Ok(())
    }

    fn size(&self) -> (r: Result<VarInt, CodecError>) {
        proof {
            <i32 as Encodable>::lemma_size_faithful(self.entity_id.deep_view());
            <i8 as Encodable>::lemma_size_faithful(self.entity_status.deep_view());
        }
        let ghost w0 = <i32 as Encodable>::spec_size(self.entity_id.deep_view());
        let ghost w1 = <i8 as Encodable>::spec_size(self.entity_status.deep_view());
        let t0 = self.entity_id.size();
        let t1 = add_size(t0, Ghost(w0), self.entity_status.size(), Ghost(w1));
        t1
    }
}

impl Decodable for EntityStatus {
    open spec fn spec_decode(bytes: Seq<u8>) -> Result<(EntityStatusView, nat), CodecError> {
        match decode_at::<i32>(bytes, 0) {
            Err(e) => Err(e),
            Ok((entity_id, n0)) => match decode_at::<i8>(bytes, n0) {
                Err(e) => Err(e),
                Ok((entity_status, n1)) => Ok((EntityStatusView { entity_id, entity_status }, n0 + n1)),
            },
        }
    }

    proof fn lemma_decode_len(bytes: Seq<u8>) {
        lemma_decode_at::<i32>(bytes, 0);
        <i32 as Decodable>::lemma_decode_len(bytes.subrange((0) as int, bytes.len() as int));
        if let Ok((entity_id, n0)) = decode_at::<i32>(bytes, 0) {
            lemma_decode_at::<i8>(bytes, n0);
            <i8 as Decodable>::lemma_decode_len(bytes.subrange((n0) as int, bytes.len() as int));
        }
    }

    fn decode(reader: &mut ByteReader) -> (r: Result<EntityStatus, CodecError>) {
        let ghost r0 = *reader;
        let ghost rest0 = reader.rest();
        proof {
            ByteReader::lemma_rest_since(r0, *reader);
            lemma_decode_at::<i32>(rest0, (reader.pos() - r0.pos()) as nat);
        }
        let entity_id = match <i32>::decode(reader) {
            Ok(v) => v,
            Err(e) => return Err(e),
        };
        proof {
            ByteReader::lemma_rest_since(r0, *reader);
            lemma_decode_at::<i8>(rest0, (reader.pos() - r0.pos()) as nat);
        }
        let entity_status = match <i8>::decode(reader) {
            Ok(v) => v,
            Err(e) => return Err(e),
        };
        Ok(EntityStatus { entity_id, entity_status })
    }
}

impl Codec for EntityStatus {
    open spec fn valid(m: EntityStatusView) -> bool {
        &&& <i32 as Codec>::valid(m.entity_id)
        &&& <i32 as Codec>::delimited()
        &&& <i8 as Codec>::valid(m.entity_status)
    }

    open spec fn delimited() -> bool {
        <i8 as Codec>::delimited()
    }

    proof fn lemma_round_trip(m: EntityStatusView, rest: Seq<u8>) {
        let e0 = <i32 as Encodable>::spec_encode(m.entity_id)->Ok_0;
        let e1 = <i8 as Encodable>::spec_encode(m.entity_status)->Ok_0;
        let t1 = e1 + rest;
        let t0 = e0 + t1;
        assert(decode_at::<i32>(t0, (0) as nat) == Ok::<(<i32 as DeepView>::V, nat), CodecError>((m.entity_id, e0.len()))
            && <i32 as Encodable>::spec_encode(m.entity_id) == Ok::<Seq<u8>, CodecError>(e0)
            && decode_at::<i8>(t0, (e0.len()) as nat) == Ok::<(<i8 as DeepView>::V, nat), CodecError>((m.entity_status, e1.len()))
            && <i8 as Encodable>::spec_encode(m.entity_status) == Ok::<Seq<u8>, CodecError>(e1)) by {
            lemma_subrange_all(t0);
            lemma_field_round_trip::<i32>(m.entity_id, t0, (0) as nat, t1);
            lemma_field_round_trip::<i8>(m.entity_status, t0, (e0.len()) as nat, rest);
        }
        assert(e0 + e1 + rest == t0) by {
            lemma_concat_assoc(e0, e1, rest);
        }
        assert(Self::spec_encode(m) == Ok::<Seq<u8>, CodecError>(e0 + e1));
    }
}
/// The client-bound play message: explosion.
pub struct Explosion {
    pub x: Float,
    pub y: Float,
    pub z: Float,
    pub strength: Float,
    pub records: (VarInt, Vec<(u8, u8, u8)>),
    pub player_motion_x: Float,
    pub player_motion_y: Float,
    pub player_motion_z: Float,
}

/// The model of a `Explosion`: each field by its model.
pub struct ExplosionView {
    pub x: u32,
    pub y: u32,
    pub z: u32,
    pub strength: u32,
    pub records: (i32, Seq<(u8, u8, u8)>),
    pub player_motion_x: u32,
    pub player_motion_y: u32,
    pub player_motion_z: u32,
}

impl DeepView for Explosion {
    type V = ExplosionView;

    open spec fn deep_view(&self) -> ExplosionView {
        ExplosionView {
            x: self.x.deep_view(),
            y: self.y.deep_view(),
            z: self.z.deep_view(),
            strength: self.strength.deep_view(),
            records: self.records.deep_view(),
            player_motion_x: self.player_motion_x.deep_view(),
            player_motion_y: self.player_motion_y.deep_view(),
            player_motion_z: self.player_motion_z.deep_view(),
        }
    }
}

impl Encodable for Explosion {
    /// The fields in order, with no framing.
    open spec fn spec_encode(m: ExplosionView) -> Result<Seq<u8>, CodecError> {
        then_encode(then_encode(then_encode(then_encode(then_encode(then_encode(then_encode(<Float as Encodable>::spec_encode(m.x), <Float as Encodable>::spec_encode(m.y)), <Float as Encodable>::spec_encode(m.z)), <Float as Encodable>::spec_encode(m.strength)), <(VarInt, Vec<(u8, u8, u8)>) as Encodable>::spec_encode(m.records)), <Float as Encodable>::spec_encode(m.player_motion_x)), <Float as Encodable>::spec_encode(m.player_motion_y)), <Float as Encodable>::spec_encode(m.player_motion_z))
    }

    /// The sum of the fields' sizes.
    open spec fn spec_size(m: ExplosionView) -> Result<nat, CodecError> {
        add_size_spec(add_size_spec(add_size_spec(add_size_spec(add_size_spec(add_size_spec(add_size_spec(<Float as Encodable>::spec_size(m.x), <Float as Encodable>::spec_size(m.y)), <Float as Encodable>::spec_size(m.z)), <Float as Encodable>::spec_size(m.strength)), <(VarInt, Vec<(u8, u8, u8)>) as Encodable>::spec_size(m.records)), <Float as Encodable>::spec_size(m.player_motion_x)), <Float as Encodable>::spec_size(m.player_motion_y)), <Float as Encodable>::spec_size(m.player_motion_z))
    }

    #[verifier::spinoff_prover]
    #[verifier::rlimit(100)]
    proof fn lemma_size_faithful(m: ExplosionView) {
        <Float as Encodable>::lemma_size_faithful(m.x);
        <Float as Encodable>::lemma_size_faithful(m.y);
        <Float as Encodable>::lemma_size_faithful(m.z);
        <Float as Encodable>::lemma_size_faithful(m.strength);
        <(VarInt, Vec<(u8, u8, u8)>) as Encodable>::lemma_size_faithful(m.records);
        <Float as Encodable>::lemma_size_faithful(m.player_motion_x);
        <Float as Encodable>::lemma_size_faithful(m.player_motion_y);
        <Float as Encodable>::lemma_size_faithful(m.player_motion_z);
        lemma_then_size(<Float as Encodable>::spec_encode(m.x), <Float as Encodable>::spec_size(m.x), <Float as Encodable>::spec_encode(m.y), <Float as Encodable>::spec_size(m.y));
        lemma_then_size(then_encode(<Float as Encodable>::spec_encode(m.x), <Float as Encodable>::spec_encode(m.y)), add_size_spec(<Float as Encodable>::spec_size(m.x), <Float as Encodable>::spec_size(m.y)), <Float as Encodable>::spec_encode(m.z), <Float as Encodable>::spec_size(m.z));
        lemma_then_size(then_encode(then_encode(<Float as Encodable>::spec_encode(m.x), <Float as Encodable>::spec_encode(m.y)), <Float as Encodable>::spec_encode(m.z)), add_size_spec(add_size_spec(<Float as Encodable>::spec_size(m.x), <Float as Encodable>::spec_size(m.y)), <Float as Encodable>::spec_size(m.z)), <Float as Encodable>::spec_encode(m.strength), <Float as Encodable>::spec_size(m.strength));
        lemma_then_size(then_encode(then_encode(then_encode(<Float as Encodable>::spec_encode(m.x), <Float as Encodable>::spec_encode(m.y)), <Float as Encodable>::spec_encode(m.z)), <Float as Encodable>::spec_encode(m.strength)), add_size_spec(add_size_spec(add_size_spec(<Float as Encodable>::spec_size(m.x), <Float as Encodable>::spec_size(m.y)), <Float as Encodable>::spec_size(m.z)), <Float as Encodable>::spec_size(m.strength)), <(VarInt, Vec<(u8, u8, u8)>) as Encodable>::spec_encode(m.records), <(VarInt, Vec<(u8, u8, u8)>) as Encodable>::spec_size(m.records));
        lemma_then_size(then_encode(then_encode(then_encode(then_encode(<Float as Encodable>::spec_encode(m.x), <Float as Encodable>::spec_encode(m.y)), <Float as Encodable>::spec_encode(m.z)), <Float as Encodable>::spec_encode(m.strength)), <(VarInt, Vec<(u8, u8, u8)>) as Encodable>::spec_encode(m.records)), add_size_spec(add_size_spec(add_size_spec(add_size_spec(<Float as Encodable>::spec_size(m.x), <Float as Encodable>::spec_size(m.y)), <Float as Encodable>::spec_size(m.z)), <Float as Encodable>::spec_size(m.strength)), <(VarInt, Vec<(u8, u8, u8)>) as Encodable>::spec_size(m.records)), <Float as Encodable>::spec_encode(m.player_motion_x), <Float as Encodable>::spec_size(m.player_motion_x));
        lemma_then_size(then_encode(then_encode(then_encode(then_encode(then_encode(<Float as Encodable>::spec_encode(m.x), <Float as Encodable>::spec_encode(m.y)), <Float as Encodable>::spec_encode(m.z)), <Float as Encodable>::spec_encode(m.strength)), <(VarInt, Vec<(u8, u8, u8)>) as Encodable>::spec_encode(m.records)), <Float as Encodable>::spec_encode(m.player_motion_x)), add_size_spec(add_size_spec(add_size_spec(add_size_spec(add_size_spec(<Float as Encodable>::spec_size(m.x), <Float as Encodable>::spec_size(m.y)), <Float as Encodable>::spec_size(m.z)), <Float as Encodable>::spec_size(m.strength)), <(VarInt, Vec<(u8, u8, u8)>) as Encodable>::spec_size(m.records)), <Float as Encodable>::spec_size(m.player_motion_x)), <Float as Encodable>::spec_encode(m.player_motion_y), <Float as Encodable>::spec_size(m.player_motion_y));
        lemma_then_size(then_encode(then_encode(then_encode(then_encode(then_encode(then_encode(<Float as Encodable>::spec_encode(m.x), <Float as Encodable>::spec_encode(m.y)), <Float as Encodable>::spec_encode(m.z)), <Float as Encodable>::spec_encode(m.strength)), <(VarInt, Vec<(u8, u8, u8)>) as Encodable>::spec_encode(m.records)), <Float as Encodable>::spec_encode(m.player_motion_x)), <Float as Encodable>::spec_encode(m.player_motion_y)), add_size_spec(add_size_spec(add_size_spec(add_size_spec(add_size_spec(add_size_spec(<Float as Encodable>::spec_size(m.x), <Float as Encodable>::spec_size(m.y)), <Float as Encodable>::spec_size(m.z)), <Float as Encodable>::spec_size(m.strength)), <(VarInt, Vec<(u8, u8, u8)>) as Encodable>::spec_size(m.records)), <Float as Encodable>::spec_size(m.player_motion_x)), <Float as Encodable>::spec_size(m.player_motion_y)), <Float as Encodable>::spec_encode(m.player_motion_z), <Float as Encodable>::spec_size(m.player_motion_z));
    }

    #[verifier::spinoff_prover]
    #[verifier::rlimit(100)]
    fn encode(&self, out: &mut Vec<u8>) -> (r: Result<(), CodecError>) {
        let ghost o0 = out@;
        let start = out.len();
        let ghost e0 = <Float as Encodable>::spec_encode(self.x.deep_view())->Ok_0;
        let ghost e1 = <Float as Encodable>::spec_encode(self.y.deep_view())->Ok_0;
        let ghost e2 = <Float as Encodable>::spec_encode(self.z.deep_view())->Ok_0;
        let ghost e3 = <Float as Encodable>::spec_encode(self.strength.deep_view())->Ok_0;
        let ghost e4 = <(VarInt, Vec<(u8, u8, u8)>) as Encodable>::spec_encode(self.records.deep_view())->Ok_0;
        let ghost e5 = <Float as Encodable>::spec_encode(self.player_motion_x.deep_view())->Ok_0;
        let ghost e6 = <Float as Encodable>::spec_encode(self.player_motion_y.deep_view())->Ok_0;
        let ghost e7 = <Float as Encodable>::spec_encode(self.player_motion_z.deep_view())->Ok_0;
        match self.x.encode(out) {
            Ok(_) => {},
            Err(e) => return Err(e),
        }
        match self.y.encode(out) {
            Ok(_) => {},
            Err(e) => {
                roll_back(out, Ghost(o0), Ghost(e0), start);
                return Err(e);
            },
        }
        proof {
            lemma_concat_assoc(o0, e0, e1);
        }
        match self.z.encode(out) {
            Ok(_) => {},
            Err(e) => {
                roll_back(out, Ghost(o0), Ghost(e0 + e1), start);
                return Err(e);
            },
        }
        proof {
            lemma_concat_assoc(o0, e0 + e1, e2);
        }
        match self.strength.encode(out) {
            Ok(_) => {},
            Err(e) => {
                roll_back(out, Ghost(o0), Ghost(e0 + e1 + e2), start);
                return Err(e);
            },
        }
        proof {
            lemma_concat_assoc(o0, e0 + e1 + e2, e3);
        }
        match self.records.encode(out) {
            Ok(_) => {},
            Err(e) => {
                roll_back(out, Ghost(o0), Ghost(e0 + e1 + e2 + e3), start);
                return Err(e);
            },
        }
        proof {
            lemma_concat_assoc(o0, e0 + e1 + e2 + e3, e4);
        }
        match self.player_motion_x.encode(out) {
            Ok(_) => {},
            Err(e) => {
                roll_back(out, Ghost(o0), Ghost(e0 + e1 + e2 + e3 + e4), start);
                return Err(e);
            },
        }
        proof {
            lemma_concat_assoc(o0, e0 + e1 + e2 + e3 + e4, e5);
        }
        match self.player_motion_y.encode(out) {
            Ok(_) => {},
            Err(e) => {
                roll_back(out, Ghost(o0), Ghost(e0 + e1 + e2 + e3 + e4 + e5), start);
                return Err(e);
            },
        }
        proof {
            lemma_concat_assoc(o0, e0 + e1 + e2 + e3 + e4 + e5, e6);
        }
        match self.player_motion_z.encode(out) {
            Ok(_) => {},
            Err(e) => {
                roll_back(out, Ghost(o0), Ghost(e0 + e1 + e2 + e3 + e4 + e5 + e6), start);
                return Err(e);
            },
        }
        proof {
            lemma_concat_assoc(o0, e0 + e1 + e2 + e3 + e4 + e5 + e6, e7);
        }
        Ok(())
    }

    #[verifier::spinoff_prover]
    #[verifier::rlimit(100)]
    fn size(&self) -> (r: Result<VarInt, CodecError>) {
        proof {
            <Float as Encodable>::lemma_size_faithful(self.x.deep_view());
            <Float as Encodable>::lemma_size_faithful(self.y.deep_view());
            <Float as Encodable>::lemma_size_faithful(self.z.deep_view());
            <Float as Encodable>::lemma_size_faithful(self.strength.deep_view());
            <(VarInt, Vec<(u8, u8, u8)>) as Encodable>::lemma_size_faithful(self.records.deep_view());
            <Float as Encodable>::lemma_size_faithful(self.player_motion_x.deep_view());
            <Float as Encodable>::lemma_size_faithful(self.player_motion_y.deep_view());
            <Float as Encodable>::lemma_size_faithful(self.player_motion_z.deep_view());
        }
        let ghost w0 = <Float as Encodable>::spec_size(self.x.deep_view());
        let ghost w1 = <Float as Encodable>::spec_size(self.y.deep_view());
        let ghost w2 = <Float as Encodable>::spec_size(self.z.deep_view());
        let ghost w3 = <Float as Encodable>::spec_size(self.strength.deep_view());
        let ghost w4 = <(VarInt, Vec<(u8, u8, u8)>) as Encodable>::spec_size(self.records.deep_view());
        let ghost w5 = <Float as Encodable>::spec_size(self.player_motion_x.deep_view());
        let ghost w6 = <Float as Encodable>::spec_size(self.player_motion_y.deep_view());
        let ghost w7 = <Float as Encodable>::spec_size(self.player_motion_z.deep_view());
        let t0 = self.x.size();
        let t1 = add_size(t0, Ghost(w0), self.y.size(), Ghost(w1));
        let ghost c1 = add_size_spec(w0, w1);
        let t2 = add_size(t1, Ghost(c1), self.z.size(), Ghost(w2));
        let ghost c2 = add_size_spec(c1, w2);
        let t3 = add_size(t2, Ghost(c2), self.strength.size(), Ghost(w3));
        let ghost c3 = add_size_spec(c2, w3);
        let t4 = add_size(t3, Ghost(c3), self.records.size(), Ghost(w4));
        let ghost c4 = add_size_spec(c3, w4);
        let t5 = add_size(t4, Ghost(c4), self.player_motion_x.size(), Ghost(w5));
        let ghost c5 = add_size_spec(c4, w5);
        let t6 = add_size(t5, Ghost(c5), self.player_motion_y.size(), Ghost(w6));
        let ghost c6 = add_size_spec(c5, w6);
        let t7 = add_size(t6, Ghost(c6), self.player_motion_z.size(), Ghost(w7));
        t7
    }
}

impl Decodable for Explosion {
    open spec fn spec_decode(bytes: Seq<u8>) -> Result<(ExplosionView, nat), CodecError> {
        match decode_at::<Float>(bytes, 0) {
            Err(e) => Err(e),
            Ok((x, n0)) => match decode_at::<Float>(bytes, n0) {
                Err(e) => Err(e),
                Ok((y, n1)) => match decode_at::<Float>(bytes, n0 + n1) {
                    Err(e) => Err(e),
                    Ok((z, n2)) => match decode_at::<Float>(bytes, n0 + n1 + n2) {
                        Err(e) => Err(e),
                        Ok((strength, n3)) => match decode_at::<(VarInt, Vec<(u8, u8, u8)>)>(bytes, n0 + n1 + n2 + n3) {
                            Err(e) => Err(e),
                            Ok((records, n4)) => match decode_at::<Float>(bytes, n0 + n1 + n2 + n3 + n4) {
                                Err(e) => Err(e),
                                Ok((player_motion_x, n5)) => match decode_at::<Float>(bytes, n0 + n1 + n2 + n3 + n4 + n5) {
                                    Err(e) => Err(e),
                                    Ok((player_motion_y, n6)) => match decode_at::<Float>(bytes, n0 + n1 + n2 + n3 + n4 + n5 + n6) {
                                        Err(e) => Err(e),
                                        Ok((player_motion_z, n7)) => Ok((ExplosionView { x, y, z, strength, records, player_motion_x, player_motion_y, player_motion_z }, n0 + n1 + n2 + n3 + n4 + n5 + n6 + n7)),
                                    },
                                },
                            },
                        },
                    },
                },
            },
        }
    }

    proof fn lemma_decode_len(bytes: Seq<u8>) {
        lemma_decode_at::<Float>(bytes, 0);
        <Float as Decodable>::lemma_decode_len(bytes.subrange((0) as int, bytes.len() as int));
        if let Ok((x, n0)) = decode_at::<Float>(bytes, 0) {
            lemma_decode_at::<Float>(bytes, n0);
            <Float as Decodable>::lemma_decode_len(bytes.subrange((n0) as int, bytes.len() as int));
            if let Ok((y, n1)) = decode_at::<Float>(bytes, n0) {
                lemma_decode_at::<Float>(bytes, n0 + n1);
                <Float as Decodable>::lemma_decode_len(bytes.subrange((n0 + n1) as int, bytes.len() as int));
                if let Ok((z, n2)) = decode_at::<Float>(bytes, n0 + n1) {
                    lemma_decode_at::<Float>(bytes, n0 + n1 + n2);
                    <Float as Decodable>::lemma_decode_len(bytes.subrange((n0 + n1 + n2) as int, bytes.len() as int));
                    if let Ok((strength, n3)) = decode_at::<Float>(bytes, n0 + n1 + n2) {
                        lemma_decode_at::<(VarInt, Vec<(u8, u8, u8)>)>(bytes, n0 + n1 + n2 + n3);
                        <(VarInt, Vec<(u8, u8, u8)>) as Decodable>::lemma_decode_len(bytes.subrange((n0 + n1 + n2 + n3) as int, bytes.len() as int));
                        if let Ok((records, n4)) = decode_at::<(VarInt, Vec<(u8, u8, u8)>)>(bytes, n0 + n1 + n2 + n3) {
                            lemma_decode_at::<Float>(bytes, n0 + n1 + n2 + n3 + n4);
                            <Float as Decodable>::lemma_decode_len(bytes.subrange((n0 + n1 + n2 + n3 + n4) as int, bytes.len() as int));
                            if let Ok((player_motion_x, n5)) = decode_at::<Float>(bytes, n0 + n1 + n2 + n3 + n4) {
                                lemma_decode_at::<Float>(bytes, n0 + n1 + n2 + n3 + n4 + n5);
                                <Float as Decodable>::lemma_decode_len(bytes.subrange((n0 + n1 + n2 + n3 + n4 + n5) as int, bytes.len() as int));
                                if let Ok((player_motion_y, n6)) = decode_at::<Float>(bytes, n0 + n1 + n2 + n3 + n4 + n5) {
                                    lemma_decode_at::<Float>(bytes, n0 + n1 + n2 + n3 + n4 + n5 + n6);
                                    <Float as Decodable>::lemma_decode_len(bytes.subrange((n0 + n1 + n2 + n3 + n4 + n5 + n6) as int, bytes.len() as int));
                                }
                            }
                        }
                    }
                }
            }
        }
    }

    #[verifier::spinoff_prover]
    #[verifier::rlimit(100)]
    fn decode(reader: &mut ByteReader) -> (r: Result<Explosion, CodecError>) {
        let ghost r0 = *reader;
        let ghost rest0 = reader.rest();
        proof {
            ByteReader::lemma_rest_since(r0, *reader);
            lemma_decode_at::<Float>(rest0, (reader.pos() - r0.pos()) as nat);
        }
        let x = match <Float>::decode(reader) {
            Ok(v) => v,
            Err(e) => return Err(e),
        };
        proof {
            ByteReader::lemma_rest_since(r0, *reader);
            lemma_decode_at::<Float>(rest0, (reader.pos() - r0.pos()) as nat);
        }
        let y = match <Float>::decode(reader) {
            Ok(v) => v,
            Err(e) => return Err(e),
        };
        proof {
            ByteReader::lemma_rest_since(r0, *reader);
            lemma_decode_at::<Float>(rest0, (reader.pos() - r0.pos()) as nat);
        }
        let z = match <Float>::decode(reader) {
            Ok(v) => v,
            Err(e) => return Err(e),
        };
        proof {
            ByteReader::lemma_rest_since(r0, *reader);
            lemma_decode_at::<Float>(rest0, (reader.pos() - r0.pos()) as nat);
        }
        let strength = match <Float>::decode(reader) {
            Ok(v) => v,
            Err(e) => return Err(e),
        };
        proof {
            ByteReader::lemma_rest_since(r0, *reader);
            lemma_decode_at::<(VarInt, Vec<(u8, u8, u8)>)>(rest0, (reader.pos() - r0.pos()) as nat);
        }
        let records = match <(VarInt, Vec<(u8, u8, u8)>)>::decode(reader) {
            Ok(v) => v,
            Err(e) => return Err(e),
        };
        proof {
            ByteReader::lemma_rest_since(r0, *reader);
            lemma_decode_at::<Float>(rest0, (reader.pos() - r0.pos()) as nat);
        }
        let player_motion_x = match <Float>::decode(reader) {
            Ok(v) => v,
            Err(e) => return Err(e),
        };
        proof {
            ByteReader::lemma_rest_since(r0, *reader);
            lemma_decode_at::<Float>(rest0, (reader.pos() - r0.pos()) as nat);
        }
        let player_motion_y = match <Float>::decode(reader) {
            Ok(v) => v,
            Err(e) => return Err(e),
        };
        proof {
            ByteReader::lemma_rest_since(r0, *reader);
            lemma_decode_at::<Float>(rest0, (reader.pos() - r0.pos()) as nat);
        }
        let player_motion_z = match <Float>::decode(reader) {
            Ok(v) => v,
            Err(e) => return Err(e),
        };
        Ok(Explosion { x, y, z, strength, records, player_motion_x, player_motion_y, player_motion_z })
    }
}

impl Codec for Explosion {
    open spec fn valid(m: ExplosionView) -> bool {
        &&& <Float as Codec>::valid(m.x)
        &&& <Float as Codec>::delimited()
        &&& <Float as Codec>::valid(m.y)
        &&& <Float as Codec>::delimited()
        &&& <Float as Codec>::valid(m.z)
        &&& <Float as Codec>::delimited()
        &&& <Float as Codec>::valid(m.strength)
        &&& <Float as Codec>::delimited()
        &&& <(VarInt, Vec<(u8, u8, u8)>) as Codec>::valid(m.records)
        &&& <(VarInt, Vec<(u8, u8, u8)>) as Codec>::delimited()
        &&& <Float as Codec>::valid(m.player_motion_x)
        &&& <Float as Codec>::delimited()
        &&& <Float as Codec>::valid(m.player_motion_y)
        &&& <Float as Codec>::delimited()
        &&& <Float as Codec>::valid(m.player_motion_z)
    }

    open spec fn delimited() -> bool {
        <Float as Codec>::delimited()
    }

    #[verifier::spinoff_prover]
    #[verifier::rlimit(100)]
    proof fn lemma_round_trip(m: ExplosionView, rest: Seq<u8>) {
        let e0 = <Float as Encodable>::spec_encode(m.x)->Ok_0;
        let e1 = <Float as Encodable>::spec_encode(m.y)->Ok_0;
        let e2 = <Float as Encodable>::spec_encode(m.z)->Ok_0;
        let e3 = <Float as Encodable>::spec_encode(m.strength)->Ok_0;
        let e4 = <(VarInt, Vec<(u8, u8, u8)>) as Encodable>::spec_encode(m.records)->Ok_0;
        let e5 = <Float as Encodable>::spec_encode(m.player_motion_x)->Ok_0;
        let e6 = <Float as Encodable>::spec_encode(m.player_motion_y)->Ok_0;
        let e7 = <Float as Encodable>::spec_encode(m.player_motion_z)->Ok_0;
        let t7 = e7 + rest;
        let t6 = e6 + t7;
        let t5 = e5 + t6;
        let t4 = e4 + t5;
        let t3 = e3 + t4;
        let t2 = e2 + t3;
        let t1 = e1 + t2;
        let t0 = e0 + t1;
        assert(decode_at::<Float>(t0, (0) as nat) == Ok::<(<Float as DeepView>::V, nat), CodecError>((m.x, e0.len()))
            && <Float as Encodable>::spec_encode(m.x) == Ok::<Seq<u8>, CodecError>(e0)
            && decode_at::<Float>(t0, (e0.len()) as nat) == Ok::<(<Float as DeepView>::V, nat), CodecError>((m.y, e1.len()))
            && <Float as Encodable>::spec_encode(m.y) == Ok::<Seq<u8>, CodecError>(e1)
            && decode_at::<Float>(t0, (e0.len() + e1.len()) as nat) == Ok::<(<Float as DeepView>::V, nat), CodecError>((m.z, e2.len()))
            && <Float as Encodable>::spec_encode(m.z) == Ok::<Seq<u8>, CodecError>(e2)
            && decode_at::<Float>(t0, (e0.len() + e1.len() + e2.len()) as nat) == Ok::<(<Float as DeepView>::V, nat), CodecError>((m.strength, e3.len()))
            && <Float as Encodable>::spec_encode(m.strength) == Ok::<Seq<u8>, CodecError>(e3)
            && decode_at::<(VarInt, Vec<(u8, u8, u8)>)>(t0, (e0.len() + e1.len() + e2.len() + e3.len()) as nat) == Ok::<(<(VarInt, Vec<(u8, u8, u8)>) as DeepView>::V, nat), CodecError>((m.records, e4.len()))
            && <(VarInt, Vec<(u8, u8, u8)>) as Encodable>::spec_encode(m.records) == Ok::<Seq<u8>, CodecError>(e4)
            && decode_at::<Float>(t0, (e0.len() + e1.len() + e2.len() + e3.len() + e4.len()) as nat) == Ok::<(<Float as DeepView>::V, nat), CodecError>((m.player_motion_x, e5.len()))
            && <Float as Encodable>::spec_encode(m.player_motion_x) == Ok::<Seq<u8>, CodecError>(e5)
            && decode_at::<Float>(t0, (e0.len() + e1.len() + e2.len() + e3.len() + e4.len() + e5.len()) as nat) == Ok::<(<Float as DeepView>::V, nat), CodecError>((m.player_motion_y, e6.len()))
            && <Float as Encodable>::spec_encode(m.player_motion_y) == Ok::<Seq<u8>, CodecError>(e6)
            && decode_at::<Float>(t0, (e0.len() + e1.len() + e2.len() + e3.len() + e4.len() + e5.len() + e6.len()) as nat) == Ok::<(<Float as DeepView>::V, nat), CodecError>((m.player_motion_z, e7.len()))
            && <Float as Encodable>::spec_encode(m.player_motion_z) == Ok::<Seq<u8>, CodecError>(e7)) by {
            lemma_subrange_all(t0);
            lemma_field_round_trip::<Float>(m.x, t0, (0) as nat, t1);
            lemma_field_round_trip::<Float>(m.y, t0, (e0.len()) as nat, t2);
            lemma_field_round_trip::<Float>(m.z, t0, (e0.len() + e1.len()) as nat, t3);
            lemma_field_round_trip::<Float>(m.strength, t0, (e0.len() + e1.len() + e2.len()) as nat, t4);
            lemma_field_round_trip::<(VarInt, Vec<(u8, u8, u8)>)>(m.records, t0, (e0.len() + e1.len() + e2.len() + e3.len()) as nat, t5);
            lemma_field_round_trip::<Float>(m.player_motion_x, t0, (e0.len() + e1.len() + e2.len() + e3.len() + e4.len()) as nat, t6);
            lemma_field_round_trip::<Float>(m.player_motion_y, t0, (e0.len() + e1.len() + e2.len() + e3.len() + e4.len() + e5.len()) as nat, t7);
            lemma_field_round_trip::<Float>(m.player_motion_z, t0, (e0.len() + e1.len() + e2.len() + e3.len() + e4.len() + e5.len() + e6.len()) as nat, rest);
        }
        assert(e0 + e1 + e2 + e3 + e4 + e5 + e6 + e7 + rest == t0) by {
            lemma_concat_assoc(e0, e1, t2);
            lemma_concat_assoc(e0 + e1, e2, t3);
            lemma_concat_assoc(e0 + e1 + e2, e3, t4);
            lemma_concat_assoc(e0 + e1 + e2 + e3, e4, t5);
            lemma_concat_assoc(e0 + e1 + e2 + e3 + e4, e5, t6);
            lemma_concat_assoc(e0 + e1 + e2 + e3 + e4 + e5, e6, t7);
            lemma_concat_assoc(e0 + e1 + e2 + e3 + e4 + e5 + e6, e7, rest);
        }
        assert(Self::spec_encode(m) == Ok::<Seq<u8>, CodecError>(e0 + e1 + e2 + e3 + e4 + e5 + e6 + e7));
    }
}
/// The client-bound play message: unload chunk.
pub struct UnloadChunk {
    pub chunk_x: i32,
    pub chunk_z: i32,
}

/// The model of a `UnloadChunk`: each field by its model.
pub struct UnloadChunkView {
    pub chunk_x: i32,
    pub chunk_z: i32,
}

impl DeepView for UnloadChunk {
    type V = UnloadChunkView;

    open spec fn deep_view(&self) -> UnloadChunkView {
        UnloadChunkView {
            chunk_x: self.chunk_x.deep_view(),
            chunk_z: self.chunk_z.deep_view(),
        }
    }
}

impl Encodable for UnloadChunk {
    /// The fields in order, with no framing.
    open spec fn spec_encode(m: UnloadChunkView) -> Result<Seq<u8>, CodecError> {
        then_encode(<i32 as Encodable>::spec_encode(m.chunk_x), <i32 as Encodable>::spec_encode(m.chunk_z))
    }

    /// The sum of the fields' sizes.
    open spec fn spec_size(m: UnloadChunkView) -> Result<nat, CodecError> {
        add_size_spec(<i32 as Encodable>::spec_size(m.chunk_x), <i32 as Encodable>::spec_size(m.chunk_z))
    }

    proof fn lemma_size_faithful(m: UnloadChunkView) {
        <i32 as Encodable>::lemma_size_faithful(m.chunk_x);
        <i32 as Encodable>::lemma_size_faithful(m.chunk_z);
        lemma_then_size(<i32 as Encodable>::spec_encode(m.chunk_x), <i32 as Encodable>::spec_size(m.chunk_x), <i32 as Encodable>::spec_encode(m.chunk_z), <i32 as Encodable>::spec_size(m.chunk_z));
    }

    fn encode(&self, out: &mut Vec<u8>) -> (r: Result<(), CodecError>) {
        let ghost o0 = out@;
        let start = out.len();
        let ghost e0 = <i32 as Encodable>::spec_encode(self.chunk_x.deep_view())->Ok_0;
        let ghost e1 = <i32 as Encodable>::spec_encode(self.chunk_z.deep_view())->Ok_0;
        match self.chunk_x.encode(out) {
            Ok(_) => {},
            Err(e) => return Err(e),
        }
        match self.chunk_z.encode(out) {
            Ok(_) => {},
            Err(e) => {
                roll_back(out, Ghost(o0), Ghost(e0), start);
                return Err(e);
            },
        }
        proof {
            lemma_concat_assoc(o0, e0, e1);
        }
        Ok(())
    }

    fn size(&self) -> (r: Result<VarInt, CodecError>) {
        proof {
            <i32 as Encodable>::lemma_size_faithful(self.chunk_x.deep_view());
            <i32 as Encodable>::lemma_size_faithful(self.chunk_z.deep_view());
        }
        let ghost w0 = <i32 as Encodable>::spec_size(self.chunk_x.deep_view());
        let ghost w1 = <i32 as Encodable>::spec_size(self.chunk_z.deep_view());
        let t0 = self.chunk_x.size();
        let t1 = add_size(t0, Ghost(w0), self.chunk_z.size(), Ghost(w1));
        t1
    }
}

impl Decodable for UnloadChunk {
    open spec fn spec_decode(bytes: Seq<u8>) -> Result<(UnloadChunkView, nat), CodecError> {
        match decode_at::<i32>(bytes, 0) {
            Err(e) => Err(e),
            Ok((chunk_x, n0)) => match decode_at::<i32>(bytes, n0) {
                Err(e) => Err(e),
                Ok((chunk_z, n1)) => Ok((UnloadChunkView { chunk_x, chunk_z }, n0 + n1)),
            },
        }
    }

    proof fn lemma_decode_len(bytes: Seq<u8>) {
        lemma_decode_at::<i32>(bytes, 0);
        <i32 as Decodable>::lemma_decode_len(bytes.subrange((0) as int, bytes.len() as int));
        if let Ok((chunk_x, n0)) = decode_at::<i32>(bytes, 0) {
            lemma_decode_at::<i32>(bytes, n0);
            <i32 as Decodable>::lemma_decode_len(bytes.subrange((n0) as int, bytes.len() as int));
        }
    }

    fn decode(reader: &mut ByteReader) -> (r: Result<UnloadChunk, CodecError>) {
        let ghost r0 = *reader;
        let ghost rest0 = reader.rest();
        proof {
            ByteReader::lemma_rest_since(r0, *reader);
            lemma_decode_at::<i32>(rest0, (reader.pos() - r0.pos()) as nat);
        }
        let chunk_x = match <i32>::decode(reader) {
            Ok(v) => v,
            Err(e) => return Err(e),
        };
        proof {
            ByteReader::lemma_rest_since(r0, *reader);
            lemma_decode_at::<i32>(rest0, (reader.pos() - r0.pos()) as nat);
        }
        let chunk_z = match <i32>::decode(reader) {
            Ok(v) => v,
            Err(e) => return Err(e),
        };
        Ok(UnloadChunk { chunk_x, chunk_z })
    }
}

impl Codec for UnloadChunk {
    open spec fn valid(m: UnloadChunkView) -> bool {
        &&& <i32 as Codec>::valid(m.chunk_x)
        &&& <i32 as Codec>::delimited()
        &&& <i32 as Codec>::valid(m.chunk_z)
    }

    open spec fn delimited() -> bool {
        <i32 as Codec>::delimited()
    }

    proof fn lemma_round_trip(m: UnloadChunkView, rest: Seq<u8>) {
        let e0 = <i32 as Encodable>::spec_encode(m.chunk_x)->Ok_0;
        let e1 = <i32 as Encodable>::spec_encode(m.chunk_z)->Ok_0;
        let t1 = e1 + rest;
        let t0 = e0 + t1;
        assert(decode_at::<i32>(t0, (0) as nat) == Ok::<(<i32 as DeepView>::V, nat), CodecError>((m.chunk_x, e0.len()))
            && <i32 as Encodable>::spec_encode(m.chunk_x) == Ok::<Seq<u8>, CodecError>(e0)
            && decode_at::<i32>(t0, (e0.len()) as nat) == Ok::<(<i32 as DeepView>::V, nat), CodecError>((m.chunk_z, e1.len()))
            && <i32 as Encodable>::spec_encode(m.chunk_z) == Ok::<Seq<u8>, CodecError>(e1)) by {
            lemma_subrange_all(t0);
            lemma_field_round_trip::<i32>(m.chunk_x, t0, (0) as nat, t1);
            lemma_field_round_trip::<i32>(m.chunk_z, t0, (e0.len()) as nat, rest);
        }
        assert(e0 + e1 + rest == t0) by {
            lemma_concat_assoc(e0, e1, rest);
        }
        assert(Self::spec_encode(m) == Ok::<Seq<u8>, CodecError>(e0 + e1));
    }
}
/// The client-bound play message: change game state.
pub struct ChangeGameState {
    pub reason: u8,
    pub value: Float,
}

/// The model of a `ChangeGameState`: each field by its model.
pub struct ChangeGameStateView {
    pub reason: u8,
    pub value: u32,
}

impl DeepView for ChangeGameState {
    type V = ChangeGameStateView;

    open spec fn deep_view(&self) -> ChangeGameStateView {
        ChangeGameStateView {
            reason: self.reason.deep_view(),
            value: self.value.deep_view(),
        }
    }
}

impl Encodable for ChangeGameState {
    /// The fields in order, with no framing.
    open spec fn spec_encode(m: ChangeGameStateView) -> Result<Seq<u8>, CodecError> {
        then_encode(<u8 as Encodable>::spec_encode(m.reason), <Float as Encodable>::spec_encode(m.value))
    }

    /// The sum of the fields' sizes.
    open spec fn spec_size(m: ChangeGameStateView) -> Result<nat, CodecError> {
        add_size_spec(<u8 as Encodable>::spec_size(m.reason), <Float as Encodable>::spec_size(m.value))
    }

    proof fn lemma_size_faithful(m: ChangeGameStateView) {
        <u8 as Encodable>::lemma_size_faithful(m.reason);
        <Float as Encodable>::lemma_size_faithful(m.value);
        lemma_then_size(<u8 as Encodable>::spec_encode(m.reason), <u8 as Encodable>::spec_size(m.reason), <Float as Encodable>::spec_encode(m.value), <Float as Encodable>::spec_size(m.value));
    }

    fn encode(&self, out: &mut Vec<u8>) -> (r: Result<(), CodecError>) {
        let ghost o0 = out@;
        let start = out.len();
        let ghost e0 = <u8 as Encodable>::spec_encode(self.reason.deep_view())->Ok_0;
        let ghost e1 = <Float as Encodable>::spec_encode(self.value.deep_view())->Ok_0;
        match self.reason.encode(out) {
            Ok(_) => {},
            Err(e) => return Err(e),
        }
        match self.value.encode(out) {
            Ok(_) => {},
            Err(e) => {
                roll_back(out, Ghost(o0), Ghost(e0), start);
                return Err(e);
            },
        }
        proof {
            lemma_concat_assoc(o0, e0, e1);
        }
        Ok(())
    }

    fn size(&self) -> (r: Result<VarInt, CodecError>) {
        proof {
            <u8 as Encodable>::lemma_size_faithful(self.reason.deep_view());
            <Float as Encodable>::lemma_size_faithful(self.value.deep_view());
        }
        let ghost w0 = <u8 as Encodable>::spec_size(self.reason.deep_view());
        let ghost w1 = <Float as Encodable>::spec_size(self.value.deep_view());
        let t0 = self.reason.size();
        let t1 = add_size(t0, Ghost(w0), self.value.size(), Ghost(w1));
        t1
    }
}

impl Decodable for ChangeGameState {
    open spec fn spec_decode(bytes: Seq<u8>) -> Result<(ChangeGameStateView, nat), CodecError> {
        match decode_at::<u8>(bytes, 0) {
            Err(e) => Err(e),
            Ok((reason, n0)) => match decode_at::<Float>(bytes, n0) {
                Err(e) => Err(e),
                Ok((value, n1)) => Ok((ChangeGameStateView { reason, value }, n0 + n1)),
            },
        }
    }

    proof fn lemma_decode_len(bytes: Seq<u8>) {
        lemma_decode_at::<u8>(bytes, 0);
        <u8 as Decodable>::lemma_decode_len(bytes.subrange((0) as int, bytes.len() as int));
        if let Ok((reason, n0)) = decode_at::<u8>(bytes, 0) {
            lemma_decode_at::<Float>(bytes, n0);
            <Float as Decodable>::lemma_decode_len(bytes.subrange((n0) as int, bytes.len() as int));
        }
    }

    fn decode(reader: &mut ByteReader) -> (r: Result<ChangeGameState, CodecError>) {
        let ghost r0 = *reader;
        let ghost rest0 = reader.rest();
        proof {
            ByteReader::lemma_rest_since(r0, *reader);
            lemma_decode_at::<u8>(rest0, (reader.pos() - r0.pos()) as nat);
        }
        let reason = match <u8>::decode(reader) {
            Ok(v) => v,
            Err(e) => return Err(e),
        };
        proof {
            ByteReader::lemma_rest_since(r0, *reader);
            lemma_decode_at::<Float>(rest0, (reader.pos() - r0.pos()) as nat);
        }
        let value = match <Float>::decode(reader) {
            Ok(v) => v,
            Err(e) => return Err(e),
        };
        Ok(ChangeGameState { reason, value })
    }
}

impl Codec for ChangeGameState {
    open spec fn valid(m: ChangeGameStateView) -> bool {
        &&& <u8 as Codec>::valid(m.reason)
        &&& <u8 as Codec>::delimited()
        &&& <Float as Codec>::valid(m.value)
    }

    open spec fn delimited() -> bool {
        <Float as Codec>::delimited()
    }

    proof fn lemma_round_trip(m: ChangeGameStateView, rest: Seq<u8>) {
        let e0 = <u8 as Encodable>::spec_encode(m.reason)->Ok_0;
        let e1 = <Float as Encodable>::spec_encode(m.value)->Ok_0;
        let t1 = e1 + rest;
        let t0 = e0 + t1;
        assert(decode_at::<u8>(t0, (0) as nat) == Ok::<(<u8 as DeepView>::V, nat), CodecError>((m.reason, e0.len()))
            && <u8 as Encodable>::spec_encode(m.reason) == Ok::<Seq<u8>, CodecError>(e0)
            && decode_at::<Float>(t0, (e0.len()) as nat) == Ok::<(<Float as DeepView>::V, nat), CodecError>((m.value, e1.len()))
            && <Float as Encodable>::spec_encode(m.value) == Ok::<Seq<u8>, CodecError>(e1)) by {
            lemma_subrange_all(t0);
            lemma_field_round_trip::<u8>(m.reason, t0, (0) as nat, t1);
            lemma_field_round_trip::<Float>(m.value, t0, (e0.len()) as nat, rest);
        }
        assert(e0 + e1 + rest == t0) by {
            lemma_concat_assoc(e0, e1, rest);
        }
        assert(Self::spec_encode(m) == Ok::<Seq<u8>, CodecError>(e0 + e1));
    }
}
/// The client-bound play message: open horse window.
pub struct OpenHorseWindow {
    pub window_id: i8,
    pub number_of_slots: VarInt,
    pub entity_id: i32,
}

/// The model of a `OpenHorseWindow`: each field by its model.
pub struct OpenHorseWindowView {
    pub window_id: i8,
    pub number_of_slots: i32,
    pub entity_id: i32,
}

impl DeepView for OpenHorseWindow {
    type V = OpenHorseWindowView;

    open spec fn deep_view(&self) -> OpenHorseWindowView {
        OpenHorseWindowView {
            window_id: self.window_id.deep_view(),
            number_of_slots: self.number_of_slots.deep_view(),
            entity_id: self.entity_id.deep_view(),
        }
    }
}

impl Encodable for OpenHorseWindow {
    /// The fields in order, with no framing.
    open spec fn spec_encode(m: OpenHorseWindowView) -> Result<Seq<u8>, CodecError> {
        then_encode(then_encode(<i8 as Encodable>::spec_encode(m.window_id), <VarInt as Encodable>::spec_encode(m.number_of_slots)), <i32 as Encodable>::spec_encode(m.entity_id))
    }

    /// The sum of the fields' sizes.
    open spec fn spec_size(m: OpenHorseWindowView) -> Result<nat, CodecError> {
        add_size_spec(add_size_spec(<i8 as Encodable>::spec_size(m.window_id), <VarInt as Encodable>::spec_size(m.number_of_slots)), <i32 as Encodable>::spec_size(m.entity_id))
    }

    proof fn lemma_size_faithful(m: OpenHorseWindowView) {
        <i8 as Encodable>::lemma_size_faithful(m.window_id);
        <VarInt as Encodable>::lemma_size_faithful(m.number_of_slots);
        <i32 as Encodable>::lemma_size_faithful(m.entity_id);
        lemma_then_size(<i8 as Encodable>::spec_encode(m.window_id), <i8 as Encodable>::spec_size(m.window_id), <VarInt as Encodable>::spec_encode(m.number_of_slots), <VarInt as Encodable>::spec_size(m.number_of_slots));
        lemma_then_size(then_encode(<i8 as Encodable>::spec_encode(m.window_id), <VarInt as Encodable>::spec_encode(m.number_of_slots)), add_size_spec(<i8 as Encodable>::spec_size(m.window_id), <VarInt as Encodable>::spec_size(m.number_of_slots)), <i32 as Encodable>::spec_encode(m.entity_id), <i32 as Encodable>::spec_size(m.entity_id));
    }

    fn encode(&self, out: &mut Vec<u8>) -> (r: Result<(), CodecError>) {
        let ghost o0 = out@;
        let start = out.len();
        let ghost e0 = <i8 as Encodable>::spec_encode(self.window_id.deep_view())->Ok_0;
        let ghost e1 = <VarInt as Encodable>::spec_encode(self.number_of_slots.deep_view())->Ok_0;
        let ghost e2 = <i32 as Encodable>::spec_encode(self.entity_id.deep_view())->Ok_0;
        match self.window_id.encode(out) {
            Ok(_) => {},
            Err(e) => return Err(e),
        }
        match self.number_of_slots.encode(out) {
            Ok(_) => {},
            Err(e) => {
                roll_back(out, Ghost(o0), Ghost(e0), start);
                return Err(e);
            },
        }
        proof {
            lemma_concat_assoc(o0, e0, e1);
        }
        match self.entity_id.encode(out) {
            Ok(_) => {},
            Err(e) => {
                roll_back(out, Ghost(o0), Ghost(e0 + e1), start);
                return Err(e);
            },
        }
        proof {
            lemma_concat_assoc(o0, e0 + e1, e2);
        }
        Ok(())
    }

    fn size(&self) -> (r: Result<VarInt, CodecError>) {
        proof {
            <i8 as Encodable>::lemma_size_faithful(self.window_id.deep_view());
            <VarInt as Encodable>::lemma_size_faithful(self.number_of_slots.deep_view());
            <i32 as Encodable>::lemma_size_faithful(self.entity_id.deep_view());
        }
        let ghost w0 = <i8 as Encodable>::spec_size(self.window_id.deep_view());
        let ghost w1 = <VarInt as Encodable>::spec_size(self.number_of_slots.deep_view());
        let ghost w2 = <i32 as Encodable>::spec_size(self.entity_id.deep_view());
        let t0 = self.window_id.size();
        let t1 = add_size(t0, Ghost(w0), self.number_of_slots.size(), Ghost(w1));
        let ghost c1 = add_size_spec(w0, w1);
        let t2 = add_size(t1, Ghost(c1), self.entity_id.size(), Ghost(w2));
        t2
    }
}

impl Decodable for OpenHorseWindow {
    open spec fn spec_decode(bytes: Seq<u8>) -> Result<(OpenHorseWindowView, nat), CodecError> {
        match decode_at::<i8>(bytes, 0) {
            Err(e) => Err(e),
            Ok((window_id, n0)) => match decode_at::<VarInt>(bytes, n0) {
                Err(e) => Err(e),
                Ok((number_of_slots, n1)) => match decode_at::<i32>(bytes, n0 + n1) {
                    Err(e) => Err(e),
                    Ok((entity_id, n2)) => Ok((OpenHorseWindowView { window_id, number_of_slots, entity_id }, n0 + n1 + n2)),
                },
            },
        }
    }

    proof fn lemma_decode_len(bytes: Seq<u8>) {
        lemma_decode_at::<i8>(bytes, 0);
        <i8 as Decodable>::lemma_decode_len(bytes.subrange((0) as int, bytes.len() as int));
        if let Ok((window_id, n0)) = decode_at::<i8>(bytes, 0) {
            lemma_decode_at::<VarInt>(bytes, n0);
            <VarInt as Decodable>::lemma_decode_len(bytes.subrange((n0) as int, bytes.len() as int));
            if let Ok((number_of_slots, n1)) = decode_at::<VarInt>(bytes, n0) {
                lemma_decode_at::<i32>(bytes, n0 + n1);
                <i32 as Decodable>::lemma_decode_len(bytes.subrange((n0 + n1) as int, bytes.len() as int));
            }
        }
    }

    fn decode(reader: &mut ByteReader) -> (r: Result<OpenHorseWindow, CodecError>) {
        let ghost r0 = *reader;
        let ghost rest0 = reader.rest();
        proof {
            ByteReader::lemma_rest_since(r0, *reader);
            lemma_decode_at::<i8>(rest0, (reader.pos() - r0.pos()) as nat);
        }
        let window_id = match <i8>::decode(reader) {
            Ok(v) => v,
            Err(e) => return Err(e),
        };
        proof {
            ByteReader::lemma_rest_since(r0, *reader);
            lemma_decode_at::<VarInt>(rest0, (reader.pos() - r0.pos()) as nat);
        }
        let number_of_slots = match <VarInt>::decode(reader) {
            Ok(v) => v,
            Err(e) => return Err(e),
        };
        proof {
            ByteReader::lemma_rest_since(r0, *reader);
            lemma_decode_at::<i32>(rest0, (reader.pos() - r0.pos()) as nat);
        }
        let entity_id = match <i32>::decode(reader) {
            Ok(v) => v,
            Err(e) => return Err(e),
        };
        Ok(OpenHorseWindow { window_id, number_of_slots, entity_id })
    }
}

impl Codec for OpenHorseWindow {
    open spec fn valid(m: OpenHorseWindowView) -> bool {
        &&& <i8 as Codec>::valid(m.window_id)
        &&& <i8 as Codec>::delimited()
        &&& <VarInt as Codec>::valid(m.number_of_slots)
        &&& <VarInt as Codec>::delimited()
        &&& <i32 as Codec>::valid(m.entity_id)
    }

    open spec fn delimited() -> bool {
        <i32 as Codec>::delimited()
    }

    proof fn lemma_round_trip(m: OpenHorseWindowView, rest: Seq<u8>) {
        let e0 = <i8 as Encodable>::spec_encode(m.window_id)->Ok_0;
        let e1 = <VarInt as Encodable>::spec_encode(m.number_of_slots)->Ok_0;
        let e2 = <i32 as Encodable>::spec_encode(m.entity_id)->Ok_0;
        let t2 = e2 + rest;
        let t1 = e1 + t2;
        let t0 = e0 + t1;
        assert(decode_at::<i8>(t0, (0) as nat) == Ok::<(<i8 as DeepView>::V, nat), CodecError>((m.window_id, e0.len()))
            && <i8 as Encodable>::spec_encode(m.window_id) == Ok::<Seq<u8>, CodecError>(e0)
            && decode_at::<VarInt>(t0, (e0.len()) as nat) == Ok::<(<VarInt as DeepView>::V, nat), CodecError>((m.number_of_slots, e1.len()))
            && <VarInt as Encodable>::spec_encode(m.number_of_slots) == Ok::<Seq<u8>, CodecError>(e1)
            && decode_at::<i32>(t0, (e0.len() + e1.len()) as nat) == Ok::<(<i32 as DeepView>::V, nat), CodecError>((m.entity_id, e2.len()))
            && <i32 as Encodable>::spec_encode(m.entity_id) == Ok::<Seq<u8>, CodecError>(e2)) by {
            lemma_subrange_all(t0);
            lemma_field_round_trip::<i8>(m.window_id, t0, (0) as nat, t1);
            lemma_field_round_trip::<VarInt>(m.number_of_slots, t0, (e0.len()) as nat, t2);
            lemma_field_round_trip::<i32>(m.entity_id, t0, (e0.len() + e1.len()) as nat, rest);
        }
        assert(e0 + e1 + e2 + rest == t0) by {
            lemma_concat_assoc(e0, e1, t2);
            lemma_concat_assoc(e0 + e1, e2, rest);
        }
        assert(Self::spec_encode(m) == Ok::<Seq<u8>, CodecError>(e0 + e1 + e2));
    }
}
/// The client-bound play message: initialize world border.
pub struct InitializeWorldBorder {
    pub x: Double,
    pub z: Double,
    pub old_diameter: Double,
    pub new_diameter: Double,
    pub speed: VarLong,
    pub portal_teleport_boundary: VarInt,
    pub warning_blocks: VarInt,
    pub warning_time: VarInt,
}

/// The model of a `InitializeWorldBorder`: each field by its model.
pub struct InitializeWorldBorderView {
    pub x: u64,
    pub z: u64,
    pub old_diameter: u64,
    pub new_diameter: u64,
    pub speed: i64,
    pub portal_teleport_boundary: i32,
    pub warning_blocks: i32,
    pub warning_time: i32,
}

impl DeepView for InitializeWorldBorder {
    type V = InitializeWorldBorderView;

    open spec fn deep_view(&self) -> InitializeWorldBorderView {
        InitializeWorldBorderView {
            x: self.x.deep_view(),
            z: self.z.deep_view(),
            old_diameter: self.old_diameter.deep_view(),
            new_diameter: self.new_diameter.deep_view(),
            speed: self.speed.deep_view(),
            portal_teleport_boundary: self.portal_teleport_boundary.deep_view(),
            warning_blocks: self.warning_blocks.deep_view(),
            warning_time: self.warning_time.deep_view(),
        }
    }
}

impl Encodable for InitializeWorldBorder {
    /// The fields in order, with no framing.
    open spec fn spec_encode(m: InitializeWorldBorderView) -> Result<Seq<u8>, CodecError> {
        then_encode(then_encode(then_encode(then_encode(then_encode(then_encode(then_encode(<Double as Encodable>::spec_encode(m.x), <Double as Encodable>::spec_encode(m.z)), <Double as Encodable>::spec_encode(m.old_diameter)), <Double as Encodable>::spec_encode(m.new_diameter)), <VarLong as Encodable>::spec_encode(m.speed)), <VarInt as Encodable>::spec_encode(m.portal_teleport_boundary)), <VarInt as Encodable>::spec_encode(m.warning_blocks)), <VarInt as Encodable>::spec_encode(m.warning_time))
    }

    /// The sum of the fields' sizes.
    open spec fn spec_size(m: InitializeWorldBorderView) -> Result<nat, CodecError> {
        add_size_spec(add_size_spec(add_size_spec(add_size_spec(add_size_spec(add_size_spec(add_size_spec(<Double as Encodable>::spec_size(m.x), <Double as Encodable>::spec_size(m.z)), <Double as Encodable>::spec_size(m.old_diameter)), <Double as Encodable>::spec_size(m.new_diameter)), <VarLong as Encodable>::spec_size(m.speed)), <VarInt as Encodable>::spec_size(m.portal_teleport_boundary)), <VarInt as Encodable>::spec_size(m.warning_blocks)), <VarInt as Encodable>::spec_size(m.warning_time))
    }

    #[verifier::spinoff_prover]
    #[verifier::rlimit(100)]
    proof fn lemma_size_faithful(m: InitializeWorldBorderView) {
        <Double as Encodable>::lemma_size_faithful(m.x);
        <Double as Encodable>::lemma_size_faithful(m.z);
        <Double as Encodable>::lemma_size_faithful(m.old_diameter);
        <Double as Encodable>::lemma_size_faithful(m.new_diameter);
        <VarLong as Encodable>::lemma_size_faithful(m.speed);
        <VarInt as Encodable>::lemma_size_faithful(m.portal_teleport_boundary);
        <VarInt as Encodable>::lemma_size_faithful(m.warning_blocks);
        <VarInt as Encodable>::lemma_size_faithful(m.warning_time);
        lemma_then_size(<Double as Encodable>::spec_encode(m.x), <Double as Encodable>::spec_size(m.x), <Double as Encodable>::spec_encode(m.z), <Double as Encodable>::spec_size(m.z));
        lemma_then_size(then_encode(<Double as Encodable>::spec_encode(m.x), <Double as Encodable>::spec_encode(m.z)), add_size_spec(<Double as Encodable>::spec_size(m.x), <Double as Encodable>::spec_size(m.z)), <Double as Encodable>::spec_encode(m.old_diameter), <Double as Encodable>::spec_size(m.old_diameter));
        lemma_then_size(then_encode(then_encode(<Double as Encodable>::spec_encode(m.x), <Double as Encodable>::spec_encode(m.z)), <Double as Encodable>::spec_encode(m.old_diameter)), add_size_spec(add_size_spec(<Double as Encodable>::spec_size(m.x), <Double as Encodable>::spec_size(m.z)), <Double as Encodable>::spec_size(m.old_diameter)), <Double as Encodable>::spec_encode(m.new_diameter), <Double as Encodable>::spec_size(m.new_diameter));
        lemma_then_size(then_encode(then_encode(then_encode(<Double as Encodable>::spec_encode(m.x), <Double as Encodable>::spec_encode(m.z)), <Double as Encodable>::spec_encode(m.old_diameter)), <Double as Encodable>::spec_encode(m.new_diameter)), add_size_spec(add_size_spec(add_size_spec(<Double as Encodable>::spec_size(m.x), <Double as Encodable>::spec_size(m.z)), <Double as Encodable>::spec_size(m.old_diameter)), <Double as Encodable>::spec_size(m.new_diameter)), <VarLong as Encodable>::spec_encode(m.speed), <VarLong as Encodable>::spec_size(m.speed));
        lemma_then_size(then_encode(then_encode(then_encode(then_encode(<Double as Encodable>::spec_encode(m.x), <Double as Encodable>::spec_encode(m.z)), <Double as Encodable>::spec_encode(m.old_diameter)), <Double as Encodable>::spec_encode(m.new_diameter)), <VarLong as Encodable>::spec_encode(m.speed)), add_size_spec(add_size_spec(add_size_spec(add_size_spec(<Double as Encodable>::spec_size(m.x), <Double as Encodable>::spec_size(m.z)), <Double as Encodable>::spec_size(m.old_diameter)), <Double as Encodable>::spec_size(m.new_diameter)), <VarLong as Encodable>::spec_size(m.speed)), <VarInt as Encodable>::spec_encode(m.portal_teleport_boundary), <VarInt as Encodable>::spec_size(m.portal_teleport_boundary));
        lemma_then_size(then_encode(then_encode(then_encode(then_encode(then_encode(<Double as Encodable>::spec_encode(m.x), <Double as Encodable>::spec_encode(m.z)), <Double as Encodable>::spec_encode(m.old_diameter)), <Double as Encodable>::spec_encode(m.new_diameter)), <VarLong as Encodable>::spec_encode(m.speed)), <VarInt as Encodable>::spec_encode(m.portal_teleport_boundary)), add_size_spec(add_size_spec(add_size_spec(add_size_spec(add_size_spec(<Double as Encodable>::spec_size(m.x), <Double as Encodable>::spec_size(m.z)), <Double as Encodable>::spec_size(m.old_diameter)), <Double as Encodable>::spec_size(m.new_diameter)), <VarLong as Encodable>::spec_size(m.speed)), <VarInt as Encodable>::spec_size(m.portal_teleport_boundary)), <VarInt as Encodable>::spec_encode(m.warning_blocks), <VarInt as Encodable>::spec_size(m.warning_blocks));
        lemma_then_size(then_encode(then_encode(then_encode(then_encode(then_encode(then_encode(<Double as Encodable>::spec_encode(m.x), <Double as Encodable>::spec_encode(m.z)), <Double as Encodable>::spec_encode(m.old_diameter)), <Double as Encodable>::spec_encode(m.new_diameter)), <VarLong as Encodable>::spec_encode(m.speed)), <VarInt as Encodable>::spec_encode(m.portal_teleport_boundary)), <VarInt as Encodable>::spec_encode(m.warning_blocks)), add_size_spec(add_size_spec(add_size_spec(add_size_spec(add_size_spec(add_size_spec(<Double as Encodable>::spec_size(m.x), <Double as Encodable>::spec_size(m.z)), <Double as Encodable>::spec_size(m.old_diameter)), <Double as Encodable>::spec_size(m.new_diameter)), <VarLong as Encodable>::spec_size(m.speed)), <VarInt as Encodable>::spec_size(m.portal_teleport_boundary)), <VarInt as Encodable>::spec_size(m.warning_blocks)), <VarInt as Encodable>::spec_encode(m.warning_time), <VarInt as Encodable>::spec_size(m.warning_time));
    }

    #[verifier::spinoff_prover]
    #[verifier::rlimit(100)]
    fn encode(&self, out: &mut Vec<u8>) -> (r: Result<(), CodecError>) {
        let ghost o0 = out@;
        let start = out.len();
        let ghost e0 = <Double as Encodable>::spec_encode(self.x.deep_view())->Ok_0;
        let ghost e1 = <Double as Encodable>::spec_encode(self.z.deep_view())->Ok_0;
        let ghost e2 = <Double as Encodable>::spec_encode(self.old_diameter.deep_view())->Ok_0;
        let ghost e3 = <Double as Encodable>::spec_encode(self.new_diameter.deep_view())->Ok_0;
        let ghost e4 = <VarLong as Encodable>::spec_encode(self.speed.deep_view())->Ok_0;
        let ghost e5 = <VarInt as Encodable>::spec_encode(self.portal_teleport_boundary.deep_view())->Ok_0;
        let ghost e6 = <VarInt as Encodable>::spec_encode(self.warning_blocks.deep_view())->Ok_0;
        let ghost e7 = <VarInt as Encodable>::spec_encode(self.warning_time.deep_view())->Ok_0;
        match self.x.encode(out) {
            Ok(_) => {},
            Err(e) => return Err(e),
        }
        match self.z.encode(out) {
            Ok(_) => {},
            Err(e) => {
                roll_back(out, Ghost(o0), Ghost(e0), start);
                return Err(e);
            },
        }
        proof {
            lemma_concat_assoc(o0, e0, e1);
        }
        match self.old_diameter.encode(out) {
            Ok(_) => {},
            Err(e) => {
                roll_back(out, Ghost(o0), Ghost(e0 + e1), start);
                return Err(e);
            },
        }
        proof {
            lemma_concat_assoc(o0, e0 + e1, e2);
        }
        match self.new_diameter.encode(out) {
            Ok(_) => {},
            Err(e) => {
                roll_back(out, Ghost(o0), Ghost(e0 + e1 + e2), start);
                return Err(e);
            },
        }
        proof {
            lemma_concat_assoc(o0, e0 + e1 + e2, e3);
        }
        match self.speed.encode(out) {
            Ok(_) => {},
            Err(e) => {
                roll_back(out, Ghost(o0), Ghost(e0 + e1 + e2 + e3), start);
                return Err(e);
            },
        }
        proof {
            lemma_concat_assoc(o0, e0 + e1 + e2 + e3, e4);
        }
        match self.portal_teleport_boundary.encode(out) {
            Ok(_) => {},
            Err(e) => {
                roll_back(out, Ghost(o0), Ghost(e0 + e1 + e2 + e3 + e4), start);
                return Err(e);
            },
        }
        proof {
            lemma_concat_assoc(o0, e0 + e1 + e2 + e3 + e4, e5);
        }
        match self.warning_blocks.encode(out) {
            Ok(_) => {},
            Err(e) => {
                roll_back(out, Ghost(o0), Ghost(e0 + e1 + e2 + e3 + e4 + e5), start);
                return Err(e);
            },
        }
        proof {
            lemma_concat_assoc(o0, e0 + e1 + e2 + e3 + e4 + e5, e6);
        }
        match self.warning_time.encode(out) {
            Ok(_) => {},
            Err(e) => {
                roll_back(out, Ghost(o0), Ghost(e0 + e1 + e2 + e3 + e4 + e5 + e6), start);
                return Err(e);
            },
        }
        proof {
            lemma_concat_assoc(o0, e0 + e1 + e2 + e3 + e4 + e5 + e6, e7);
        }
        Ok(())
    }

    #[verifier::spinoff_prover]
    #[verifier::rlimit(100)]
    fn size(&self) -> (r: Result<VarInt, CodecError>) {
        proof {
            <Double as Encodable>::lemma_size_faithful(self.x.deep_view());
            <Double as Encodable>::lemma_size_faithful(self.z.deep_view());
            <Double as Encodable>::lemma_size_faithful(self.old_diameter.deep_view());
            <Double as Encodable>::lemma_size_faithful(self.new_diameter.deep_view());
            <VarLong as Encodable>::lemma_size_faithful(self.speed.deep_view());
            <VarInt as Encodable>::lemma_size_faithful(self.portal_teleport_boundary.deep_view());
            <VarInt as Encodable>::lemma_size_faithful(self.warning_blocks.deep_view());
            <VarInt as Encodable>::lemma_size_faithful(self.warning_time.deep_view());
        }
        let ghost w0 = <Double as Encodable>::spec_size(self.x.deep_view());
        let ghost w1 = <Double as Encodable>::spec_size(self.z.deep_view());
        let ghost w2 = <Double as Encodable>::spec_size(self.old_diameter.deep_view());
        let ghost w3 = <Double as Encodable>::spec_size(self.new_diameter.deep_view());
        let ghost w4 = <VarLong as Encodable>::spec_size(self.speed.deep_view());
        let ghost w5 = <VarInt as Encodable>::spec_size(self.portal_teleport_boundary.deep_view());
        let ghost w6 = <VarInt as Encodable>::spec_size(self.warning_blocks.deep_view());
        let ghost w7 = <VarInt as Encodable>::spec_size(self.warning_time.deep_view());
        let t0 = self.x.size();
        let t1 = add_size(t0, Ghost(w0), self.z.size(), Ghost(w1));
        let ghost c1 = add_size_spec(w0, w1);
        let t2 = add_size(t1, Ghost(c1), self.old_diameter.size(), Ghost(w2));
        let ghost c2 = add_size_spec(c1, w2);
        let t3 = add_size(t2, Ghost(c2), self.new_diameter.size(), Ghost(w3));
        let ghost c3 = add_size_spec(c2, w3);
        let t4 = add_size(t3, Ghost(c3), self.speed.size(), Ghost(w4));
        let ghost c4 = add_size_spec(c3, w4);
        let t5 = add_size(t4, Ghost(c4), self.portal_teleport_boundary.size(), Ghost(w5));
        let ghost c5 = add_size_spec(c4, w5);
        let t6 = add_size(t5, Ghost(c5), self.warning_blocks.size(), Ghost(w6));
        let ghost c6 = add_size_spec(c5, w6);
        let t7 = add_size(t6, Ghost(c6), self.warning_time.size(), Ghost(w7));
        t7
    }
}

impl Decodable for InitializeWorldBorder {
    open spec fn spec_decode(bytes: Seq<u8>) -> Result<(InitializeWorldBorderView, nat), CodecError> {
        match decode_at::<Double>(bytes, 0) {
            Err(e) => Err(e),
            Ok((x, n0)) => match decode_at::<Double>(bytes, n0) {
                Err(e) => Err(e),
                Ok((z, n1)) => match decode_at::<Double>(bytes, n0 + n1) {
                    Err(e) => Err(e),
                    Ok((old_diameter, n2)) => match decode_at::<Double>(bytes, n0 + n1 + n2) {
                        Err(e) => Err(e),
                        Ok((new_diameter, n3)) => match decode_at::<VarLong>(bytes, n0 + n1 + n2 + n3) {
                            Err(e) => Err(e),
                            Ok((speed, n4)) => match decode_at::<VarInt>(bytes, n0 + n1 + n2 + n3 + n4) {
                                Err(e) => Err(e),
                                Ok((portal_teleport_boundary, n5)) => match decode_at::<VarInt>(bytes, n0 + n1 + n2 + n3 + n4 + n5) {
                                    Err(e) => Err(e),
                                    Ok((warning_blocks, n6)) => match decode_at::<VarInt>(bytes, n0 + n1 + n2 + n3 + n4 + n5 + n6) {
                                        Err(e) => Err(e),
                                        Ok((warning_time, n7)) => Ok((InitializeWorldBorderView { x, z, old_diameter, new_diameter, speed, portal_teleport_boundary, warning_blocks, warning_time }, n0 + n1 + n2 + n3 + n4 + n5 + n6 + n7)),
                                    },
                                },
                            },
                        },
                    },
                },
            },
        }
    }

    proof fn lemma_decode_len(bytes: Seq<u8>) {
        lemma_decode_at::<Double>(bytes, 0);
        <Double as Decodable>::lemma_decode_len(bytes.subrange((0) as int, bytes.len() as int));
        if let Ok((x, n0)) = decode_at::<Double>(bytes, 0) {
            lemma_decode_at::<Double>(bytes, n0);
            <Double as Decodable>::lemma_decode_len(bytes.subrange((n0) as int, bytes.len() as int));
            if let Ok((z, n1)) = decode_at::<Double>(bytes, n0) {
                lemma_decode_at::<Double>(bytes, n0 + n1);
                <Double as Decodable>::lemma_decode_len(bytes.subrange((n0 + n1) as int, bytes.len() as int));
                if let Ok((old_diameter, n2)) = decode_at::<Double>(bytes, n0 + n1) {
                    lemma_decode_at::<Double>(bytes, n0 + n1 + n2);
                    <Double as Decodable>::lemma_decode_len(bytes.subrange((n0 + n1 + n2) as int, bytes.len() as int));
                    if let Ok((new_diameter, n3)) = decode_at::<Double>(bytes, n0 + n1 + n2) {
                        lemma_decode_at::<VarLong>(bytes, n0 + n1 + n2 + n3);
                        <VarLong as Decodable>::lemma_decode_len(bytes.subrange((n0 + n1 + n2 + n3) as int, bytes.len() as int));
                        if let Ok((speed, n4)) = decode_at::<VarLong>(bytes, n0 + n1 + n2 + n3) {
                            lemma_decode_at::<VarInt>(bytes, n0 + n1 + n2 + n3 + n4);
                            <VarInt as Decodable>::lemma_decode_len(bytes.subrange((n0 + n1 + n2 + n3 + n4) as int, bytes.len() as int));
                            if let Ok((portal_teleport_boundary, n5)) = decode_at::<VarInt>(bytes, n0 + n1 + n2 + n3 + n4) {
                                lemma_decode_at::<VarInt>(bytes, n0 + n1 + n2 + n3 + n4 + n5);
                                <VarInt as Decodable>::lemma_decode_len(bytes.subrange((n0 + n1 + n2 + n3 + n4 + n5) as int, bytes.len() as int));
                                if let Ok((warning_blocks, n6)) = decode_at::<VarInt>(bytes, n0 + n1 + n2 + n3 + n4 + n5) {
                                    lemma_decode_at::<VarInt>(bytes, n0 + n1 + n2 + n3 + n4 + n5 + n6);
                                    <VarInt as Decodable>::lemma_decode_len(bytes.subrange((n0 + n1 + n2 + n3 + n4 + n5 + n6) as int, bytes.len() as int));
                                }
                            }
                        }
                    }
                }
            }
        }
    }

    #[verifier::spinoff_prover]
    #[verifier::rlimit(100)]
    fn decode(reader: &mut ByteReader) -> (r: Result<InitializeWorldBorder, CodecError>) {
        let ghost r0 = *reader;
        let ghost rest0 = reader.rest();
        proof {
            ByteReader::lemma_rest_since(r0, *reader);
            lemma_decode_at::<Double>(rest0, (reader.pos() - r0.pos()) as nat);
        }
        let x = match <Double>::decode(reader) {
            Ok(v) => v,
            Err(e) => return Err(e),
        };
        proof {
            ByteReader::lemma_rest_since(r0, *reader);
            lemma_decode_at::<Double>(rest0, (reader.pos() - r0.pos()) as nat);
        }
        let z = match <Double>::decode(reader) {
            Ok(v) => v,
            Err(e) => return Err(e),
        };
        proof {
            ByteReader::lemma_rest_since(r0, *reader);
            lemma_decode_at::<Double>(rest0, (reader.pos() - r0.pos()) as nat);
        }
        let old_diameter = match <Double>::decode(reader) {
            Ok(v) => v,
            Err(e) => return Err(e),
        };
        proof {
            ByteReader::lemma_rest_since(r0, *reader);
            lemma_decode_at::<Double>(rest0, (reader.pos() - r0.pos()) as nat);
        }
        let new_diameter = match <Double>::decode(reader) {
            Ok(v) => v,
            Err(e) => return Err(e),
        };
        proof {
            ByteReader::lemma_rest_since(r0, *reader);
            lemma_decode_at::<VarLong>(rest0, (reader.pos() - r0.pos()) as nat);
        }
        let speed = match <VarLong>::decode(reader) {
            Ok(v) => v,
            Err(e) => return Err(e),
        };
        proof {
            ByteReader::lemma_rest_since(r0, *reader);
            lemma_decode_at::<VarInt>(rest0, (reader.pos() - r0.pos()) as nat);
        }
        let portal_teleport_boundary = match <VarInt>::decode(reader) {
            Ok(v) => v,
            Err(e) => return Err(e),
        };
        proof {
            ByteReader::lemma_rest_since(r0, *reader);
            lemma_decode_at::<VarInt>(rest0, (reader.pos() - r0.pos()) as nat);
        }
        let warning_blocks = match <VarInt>::decode(reader) {
            Ok(v) => v,
            Err(e) => return Err(e),
        };
        proof {
            ByteReader::lemma_rest_since(r0, *reader);
            lemma_decode_at::<VarInt>(rest0, (reader.pos() - r0.pos()) as nat);
        }
        let warning_time = match <VarInt>::decode(reader) {
            Ok(v) => v,
            Err(e) => return Err(e),
        };
        Ok(InitializeWorldBorder { x, z, old_diameter, new_diameter, speed, portal_teleport_boundary, warning_blocks, warning_time })
    }
}

impl Codec for InitializeWorldBorder {
    open spec fn valid(m: InitializeWorldBorderView) -> bool {
        &&& <Double as Codec>::valid(m.x)
        &&& <Double as Codec>::delimited()
        &&& <Double as Codec>::valid(m.z)
        &&& <Double as Codec>::delimited()
        &&& <Double as Codec>::valid(m.old_diameter)
        &&& <Double as Codec>::delimited()
        &&& <Double as Codec>::valid(m.new_diameter)
        &&& <Double as Codec>::delimited()
        &&& <VarLong as Codec>::valid(m.speed)
        &&& <VarLong as Codec>::delimited()
        &&& <VarInt as Codec>::valid(m.portal_teleport_boundary)
        &&& <VarInt as Codec>::delimited()
        &&& <VarInt as Codec>::valid(m.warning_blocks)
        &&& <VarInt as Codec>::delimited()
        &&& <VarInt as Codec>::valid(m.warning_time)
    }

    open spec fn delimited() -> bool {
        <VarInt as Codec>::delimited()
    }

    #[verifier::spinoff_prover]
    #[verifier::rlimit(100)]
    proof fn lemma_round_trip(m: InitializeWorldBorderView, rest: Seq<u8>) {
        let e0 = <Double as Encodable>::spec_encode(m.x)->Ok_0;
        let e1 = <Double as Encodable>::spec_encode(m.z)->Ok_0;
        let e2 = <Double as Encodable>::spec_encode(m.old_diameter)->Ok_0;
        let e3 = <Double as Encodable>::spec_encode(m.new_diameter)->Ok_0;
        let e4 = <VarLong as Encodable>::spec_encode(m.speed)->Ok_0;
        let e5 = <VarInt as Encodable>::spec_encode(m.portal_teleport_boundary)->Ok_0;
        let e6 = <VarInt as Encodable>::spec_encode(m.warning_blocks)->Ok_0;
        let e7 = <VarInt as Encodable>::spec_encode(m.warning_time)->Ok_0;
        let t7 = e7 + rest;
        let t6 = e6 + t7;
        let t5 = e5 + t6;
        let t4 = e4 + t5;
        let t3 = e3 + t4;
        let t2 = e2 + t3;
        let t1 = e1 + t2;
        let t0 = e0 + t1;
        assert(decode_at::<Double>(t0, (0) as nat) == Ok::<(<Double as DeepView>::V, nat), CodecError>((m.x, e0.len()))
            && <Double as Encodable>::spec_encode(m.x) == Ok::<Seq<u8>, CodecError>(e0)
            && decode_at::<Double>(t0, (e0.len()) as nat) == Ok::<(<Double as DeepView>::V, nat), CodecError>((m.z, e1.len()))
            && <Double as Encodable>::spec_encode(m.z) == Ok::<Seq<u8>, CodecError>(e1)
            && decode_at::<Double>(t0, (e0.len() + e1.len()) as nat) == Ok::<(<Double as DeepView>::V, nat), CodecError>((m.old_diameter, e2.len()))
            && <Double as Encodable>::spec_encode(m.old_diameter) == Ok::<Seq<u8>, CodecError>(e2)
            && decode_at::<Double>(t0, (e0.len() + e1.len() + e2.len()) as nat) == Ok::<(<Double as DeepView>::V, nat), CodecError>((m.new_diameter, e3.len()))
            && <Double as Encodable>::spec_encode(m.new_diameter) == Ok::<Seq<u8>, CodecError>(e3)
            && decode_at::<VarLong>(t0, (e0.len() + e1.len() + e2.len() + e3.len()) as nat) == Ok::<(<VarLong as DeepView>::V, nat), CodecError>((m.speed, e4.len()))
            && <VarLong as Encodable>::spec_encode(m.speed) == Ok::<Seq<u8>, CodecError>(e4)
            && decode_at::<VarInt>(t0, (e0.len() + e1.len() + e2.len() + e3.len() + e4.len()) as nat) == Ok::<(<VarInt as DeepView>::V, nat), CodecError>((m.portal_teleport_boundary, e5.len()))
            && <VarInt as Encodable>::spec_encode(m.portal_teleport_boundary) == Ok::<Seq<u8>, CodecError>(e5)
            && decode_at::<VarInt>(t0, (e0.len() + e1.len() + e2.len() + e3.len() + e4.len() + e5.len()) as nat) == Ok::<(<VarInt as DeepView>::V, nat), CodecError>((m.warning_blocks, e6.len()))
            && <VarInt as Encodable>::spec_encode(m.warning_blocks) == Ok::<Seq<u8>, CodecError>(e6)
            && decode_at::<VarInt>(t0, (e0.len() + e1.len() + e2.len() + e3.len() + e4.len() + e5.len() + e6.len()) as nat) == Ok::<(<VarInt as DeepView>::V, nat), CodecError>((m.warning_time, e7.len()))
            && <VarInt as Encodable>::spec_encode(m.warning_time) == Ok::<Seq<u8>, CodecError>(e7)) by {
            lemma_subrange_all(t0);
            lemma_field_round_trip::<Double>(m.x, t0, (0) as nat, t1);
            lemma_field_round_trip::<Double>(m.z, t0, (e0.len()) as nat, t2);
            lemma_field_round_trip::<Double>(m.old_diameter, t0, (e0.len() + e1.len()) as nat, t3);
            lemma_field_round_trip::<Double>(m.new_diameter, t0, (e0.len() + e1.len() + e2.len()) as nat, t4);
            lemma_field_round_trip::<VarLong>(m.speed, t0, (e0.len() + e1.len() + e2.len() + e3.len()) as nat, t5);
            lemma_field_round_trip::<VarInt>(m.portal_teleport_boundary, t0, (e0.len() + e1.len() + e2.len() + e3.len() + e4.len()) as nat, t6);
            lemma_field_round_trip::<VarInt>(m.warning_blocks, t0, (e0.len() + e1.len() + e2.len() + e3.len() + e4.len() + e5.len()) as nat, t7);
            lemma_field_round_trip::<VarInt>(m.warning_time, t0, (e0.len() + e1.len() + e2.len() + e3.len() + e4.len() + e5.len() + e6.len()) as nat, rest);
        }
        assert(e0 + e1 + e2 + e3 + e4 + e5 + e6 + e7 + rest == t0) by {
            lemma_concat_assoc(e0, e1, t2);
            lemma_concat_assoc(e0 + e1, e2, t3);
            lemma_concat_assoc(e0 + e1 + e2, e3, t4);
            lemma_concat_assoc(e0 + e1 + e2 + e3, e4, t5);
            lemma_concat_assoc(e0 + e1 + e2 + e3 + e4, e5, t6);
            lemma_concat_assoc(e0 + e1 + e2 + e3 + e4 + e5, e6, t7);
            lemma_concat_assoc(e0 + e1 + e2 + e3 + e4 + e5 + e6, e7, rest);
        }
        assert(Self::spec_encode(m) == Ok::<Seq<u8>, CodecError>(e0 + e1 + e2 + e3 + e4 + e5 + e6 + e7));
    }
}
/// The client-bound play message: keep alive.
pub struct KeepAlive {
    pub keep_alive_id: i64,
}

/// The model of a `KeepAlive`: each field by its model.
pub struct KeepAliveView {
    pub keep_alive_id: i64,
}

impl DeepView for KeepAlive {
    type V = KeepAliveView;

    open spec fn deep_view(&self) -> KeepAliveView {
        KeepAliveView {
            keep_alive_id: self.keep_alive_id.deep_view(),
        }
    }
}

impl Encodable for KeepAlive {
    /// The fields in order, with no framing.
    open spec fn spec_encode(m: KeepAliveView) -> Result<Seq<u8>, CodecError> {
        <i64 as Encodable>::spec_encode(m.keep_alive_id)
    }

    /// The sum of the fields' sizes.
    open spec fn spec_size(m: KeepAliveView) -> Result<nat, CodecError> {
        <i64 as Encodable>::spec_size(m.keep_alive_id)
    }

    proof fn lemma_size_faithful(m: KeepAliveView) {
        <i64 as Encodable>::lemma_size_faithful(m.keep_alive_id);
    }

    fn encode(&self, out: &mut Vec<u8>) -> (r: Result<(), CodecError>) {
        self.keep_alive_id.encode(out)
    }

    fn size(&self) -> (r: Result<VarInt, CodecError>) {
        self.keep_alive_id.size()
    }
}

impl Decodable for KeepAlive {
    open spec fn spec_decode(bytes: Seq<u8>) -> Result<(KeepAliveView, nat), CodecError> {
        match decode_at::<i64>(bytes, 0) {
            Err(e) => Err(e),
            Ok((keep_alive_id, n0)) => Ok((KeepAliveView { keep_alive_id }, n0)),
        }
    }

    proof fn lemma_decode_len(bytes: Seq<u8>) {
        lemma_decode_at::<i64>(bytes, 0);
        <i64 as Decodable>::lemma_decode_len(bytes.subrange((0) as int, bytes.len() as int));
    }

    fn decode(reader: &mut ByteReader) -> (r: Result<KeepAlive, CodecError>) {
        let ghost r0 = *reader;
        let ghost rest0 = reader.rest();
        proof {
            ByteReader::lemma_rest_since(r0, *reader);
            lemma_decode_at::<i64>(rest0, (reader.pos() - r0.pos()) as nat);
        }
        let keep_alive_id = match <i64>::decode(reader) {
            Ok(v) => v,
            Err(e) => return Err(e),
        };
        Ok(KeepAlive { keep_alive_id })
    }
}

impl Codec for KeepAlive {
    open spec fn valid(m: KeepAliveView) -> bool {
        &&& <i64 as Codec>::valid(m.keep_alive_id)
    }

    open spec fn delimited() -> bool {
        <i64 as Codec>::delimited()
    }

    proof fn lemma_round_trip(m: KeepAliveView, rest: Seq<u8>) {
        let e0 = <i64 as Encodable>::spec_encode(m.keep_alive_id)->Ok_0;
        let t0 = e0 + rest;
        assert(decode_at::<i64>(t0, (0) as nat) == Ok::<(<i64 as DeepView>::V, nat), CodecError>((m.keep_alive_id, e0.len()))
            && <i64 as Encodable>::spec_encode(m.keep_alive_id) == Ok::<Seq<u8>, CodecError>(e0)) by {
            lemma_subrange_all(t0);
            lemma_field_round_trip::<i64>(m.keep_alive_id, t0, (0) as nat, rest);
        }
    }
}
/// The client-bound play message: chunk data.
pub struct ChunkData {
    pub chunk_x: i32,
    pub chunk_z: i32,
    pub primary_bit_mask: (VarInt, Vec<i64>),
    pub height_maps: NbtTag,
    pub biomes: (VarInt, Vec<VarInt>),
    pub data: (VarInt, Vec<i8>),
    pub block_entities: (VarInt, Vec<NbtTag>),
}

/// The model of a `ChunkData`: each field by its model.
pub struct ChunkDataView {
    pub chunk_x: i32,
    pub chunk_z: i32,
    pub primary_bit_mask: (i32, Seq<i64>),
    pub height_maps: Seq<u8>,
    pub biomes: (i32, Seq<i32>),
    pub data: (i32, Seq<i8>),
    pub block_entities: (i32, Seq<Seq<u8>>),
}

impl DeepView for ChunkData {
    type V = ChunkDataView;

    open spec fn deep_view(&self) -> ChunkDataView {
        ChunkDataView {
            chunk_x: self.chunk_x.deep_view(),
            chunk_z: self.chunk_z.deep_view(),
            primary_bit_mask: self.primary_bit_mask.deep_view(),
            height_maps: self.height_maps.deep_view(),
            biomes: self.biomes.deep_view(),
            data: self.data.deep_view(),
            block_entities: self.block_entities.deep_view(),
        }
    }
}

impl Encodable for ChunkData {
    /// The fields in order, with no framing.
    open spec fn spec_encode(m: ChunkDataView) -> Result<Seq<u8>, CodecError> {
        then_encode(then_encode(then_encode(then_encode(then_encode(then_encode(<i32 as Encodable>::spec_encode(m.chunk_x), <i32 as Encodable>::spec_encode(m.chunk_z)), <(VarInt, Vec<i64>) as Encodable>::spec_encode(m.primary_bit_mask)), <NbtTag as Encodable>::spec_encode(m.height_maps)), <(VarInt, Vec<VarInt>) as Encodable>::spec_encode(m.biomes)), <(VarInt, Vec<i8>) as Encodable>::spec_encode(m.data)), <(VarInt, Vec<NbtTag>) as Encodable>::spec_encode(m.block_entities))
    }

    /// The sum of the fields' sizes.
    open spec fn spec_size(m: ChunkDataView) -> Result<nat, CodecError> {
        add_size_spec(add_size_spec(add_size_spec(add_size_spec(add_size_spec(add_size_spec(<i32 as Encodable>::spec_size(m.chunk_x), <i32 as Encodable>::spec_size(m.chunk_z)), <(VarInt, Vec<i64>) as Encodable>::spec_size(m.primary_bit_mask)), <NbtTag as Encodable>::spec_size(m.height_maps)), <(VarInt, Vec<VarInt>) as Encodable>::spec_size(m.biomes)), <(VarInt, Vec<i8>) as Encodable>::spec_size(m.data)), <(VarInt, Vec<NbtTag>) as Encodable>::spec_size(m.block_entities))
    }

    proof fn lemma_size_faithful(m: ChunkDataView) {
        <i32 as Encodable>::lemma_size_faithful(m.chunk_x);
        <i32 as Encodable>::lemma_size_faithful(m.chunk_z);
        <(VarInt, Vec<i64>) as Encodable>::lemma_size_faithful(m.primary_bit_mask);
        <NbtTag as Encodable>::lemma_size_faithful(m.height_maps);
        <(VarInt, Vec<VarInt>) as Encodable>::lemma_size_faithful(m.biomes);
        <(VarInt, Vec<i8>) as Encodable>::lemma_size_faithful(m.data);
        <(VarInt, Vec<NbtTag>) as Encodable>::lemma_size_faithful(m.block_entities);
        lemma_then_size(<i32 as Encodable>::spec_encode(m.chunk_x), <i32 as Encodable>::spec_size(m.chunk_x), <i32 as Encodable>::spec_encode(m.chunk_z), <i32 as Encodable>::spec_size(m.chunk_z));
        lemma_then_size(then_encode(<i32 as Encodable>::spec_encode(m.chunk_x), <i32 as Encodable>::spec_encode(m.chunk_z)), add_size_spec(<i32 as Encodable>::spec_size(m.chunk_x), <i32 as Encodable>::spec_size(m.chunk_z)), <(VarInt, Vec<i64>) as Encodable>::spec_encode(m.primary_bit_mask), <(VarInt, Vec<i64>) as Encodable>::spec_size(m.primary_bit_mask));
        lemma_then_size(then_encode(then_encode(<i32 as Encodable>::spec_encode(m.chunk_x), <i32 as Encodable>::spec_encode(m.chunk_z)), <(VarInt, Vec<i64>) as Encodable>::spec_encode(m.primary_bit_mask)), add_size_spec(add_size_spec(<i32 as Encodable>::spec_size(m.chunk_x), <i32 as Encodable>::spec_size(m.chunk_z)), <(VarInt, Vec<i64>) as Encodable>::spec_size(m.primary_bit_mask)), <NbtTag as Encodable>::spec_encode(m.height_maps), <NbtTag as Encodable>::spec_size(m.height_maps));
        lemma_then_size(then_encode(then_encode(then_encode(<i32 as Encodable>::spec_encode(m.chunk_x), <i32 as Encodable>::spec_encode(m.chunk_z)), <(VarInt, Vec<i64>) as Encodable>::spec_encode(m.primary_bit_mask)), <NbtTag as Encodable>::spec_encode(m.height_maps)), add_size_spec(add_size_spec(add_size_spec(<i32 as Encodable>::spec_size(m.chunk_x), <i32 as Encodable>::spec_size(m.chunk_z)), <(VarInt, Vec<i64>) as Encodable>::spec_size(m.primary_bit_mask)), <NbtTag as Encodable>::spec_size(m.height_maps)), <(VarInt, Vec<VarInt>) as Encodable>::spec_encode(m.biomes), <(VarInt, Vec<VarInt>) as Encodable>::spec_size(m.biomes));
        lemma_then_size(then_encode(then_encode(then_encode(then_encode(<i32 as Encodable>::spec_encode(m.chunk_x), <i32 as Encodable>::spec_encode(m.chunk_z)), <(VarInt, Vec<i64>) as Encodable>::spec_encode(m.primary_bit_mask)), <NbtTag as Encodable>::spec_encode(m.height_maps)), <(VarInt, Vec<VarInt>) as Encodable>::spec_encode(m.biomes)), add_size_spec(add_size_spec(add_size_spec(add_size_spec(<i32 as Encodable>::spec_size(m.chunk_x), <i32 as Encodable>::spec_size(m.chunk_z)), <(VarInt, Vec<i64>) as Encodable>::spec_size(m.primary_bit_mask)), <NbtTag as Encodable>::spec_size(m.height_maps)), <(VarInt, Vec<VarInt>) as Encodable>::spec_size(m.biomes)), <(VarInt, Vec<i8>) as Encodable>::spec_encode(m.data), <(VarInt, Vec<i8>) as Encodable>::spec_size(m.data));
        lemma_then_size(then_encode(then_encode(then_encode(then_encode(then_encode(<i32 as Encodable>::spec_encode(m.chunk_x), <i32 as Encodable>::spec_encode(m.chunk_z)), <(VarInt, Vec<i64>) as Encodable>::spec_encode(m.primary_bit_mask)), <NbtTag as Encodable>::spec_encode(m.height_maps)), <(VarInt, Vec<VarInt>) as Encodable>::spec_encode(m.biomes)), <(VarInt, Vec<i8>) as Encodable>::spec_encode(m.data)), add_size_spec(add_size_spec(add_size_spec(add_size_spec(add_size_spec(<i32 as Encodable>::spec_size(m.chunk_x), <i32 as Encodable>::spec_size(m.chunk_z)), <(VarInt, Vec<i64>) as Encodable>::spec_size(m.primary_bit_mask)), <NbtTag as Encodable>::spec_size(m.height_maps)), <(VarInt, Vec<VarInt>) as Encodable>::spec_size(m.biomes)), <(VarInt, Vec<i8>) as Encodable>::spec_size(m.data)), <(VarInt, Vec<NbtTag>) as Encodable>::spec_encode(m.block_entities), <(VarInt, Vec<NbtTag>) as Encodable>::spec_size(m.block_entities));
    }

    fn encode(&self, out: &mut Vec<u8>) -> (r: Result<(), CodecError>) {
        let ghost o0 = out@;
        let start = out.len();
        let ghost e0 = <i32 as Encodable>::spec_encode(self.chunk_x.deep_view())->Ok_0;
        let ghost e1 = <i32 as Encodable>::spec_encode(self.chunk_z.deep_view())->Ok_0;
        let ghost e2 = <(VarInt, Vec<i64>) as Encodable>::spec_encode(self.primary_bit_mask.deep_view())->Ok_0;
        let ghost e3 = <NbtTag as Encodable>::spec_encode(self.height_maps.deep_view())->Ok_0;
        let ghost e4 = <(VarInt, Vec<VarInt>) as Encodable>::spec_encode(self.biomes.deep_view())->Ok_0;
        let ghost e5 = <(VarInt, Vec<i8>) as Encodable>::spec_encode(self.data.deep_view())->Ok_0;
        let ghost e6 = <(VarInt, Vec<NbtTag>) as Encodable>::spec_encode(self.block_entities.deep_view())->Ok_0;
        match self.chunk_x.encode(out) {
            Ok(_) => {},
            Err(e) => return Err(e),
        }
        match self.chunk_z.encode(out) {
            Ok(_) => {},
            Err(e) => {
                roll_back(out, Ghost(o0), Ghost(e0), start);
                return Err(e);
            },
        }
        proof {
            lemma_concat_assoc(o0, e0, e1);
        }
        match self.primary_bit_mask.encode(out) {
            Ok(_) => {},
            Err(e) => {
                roll_back(out, Ghost(o0), Ghost(e0 + e1), start);
                return Err(e);
            },
        }
        proof {
            lemma_concat_assoc(o0, e0 + e1, e2);
        }
        match self.height_maps.encode(out) {
            Ok(_) => {},
            Err(e) => {
                roll_back(out, Ghost(o0), Ghost(e0 + e1 + e2), start);
                return Err(e);
            },
        }
        proof {
            lemma_concat_assoc(o0, e0 + e1 + e2, e3);
        }
        match self.biomes.encode(out) {
            Ok(_) => {},
            Err(e) => {
                roll_back(out, Ghost(o0), Ghost(e0 + e1 + e2 + e3), start);
                return Err(e);
            },
        }
        proof {
            lemma_concat_assoc(o0, e0 + e1 + e2 + e3, e4);
        }
        match self.data.encode(out) {
            Ok(_) => {},
            Err(e) => {
                roll_back(out, Ghost(o0), Ghost(e0 + e1 + e2 + e3 + e4), start);
                return Err(e);
            },
        }
        proof {
            lemma_concat_assoc(o0, e0 + e1 + e2 + e3 + e4, e5);
        }
        match self.block_entities.encode(out) {
            Ok(_) => {},
            Err(e) => {
                roll_back(out, Ghost(o0), Ghost(e0 + e1 + e2 + e3 + e4 + e5), start);
                return Err(e);
            },
        }
        proof {
            lemma_concat_assoc(o0, e0 + e1 + e2 + e3 + e4 + e5, e6);
        }
        Ok(())
    }

    fn size(&self) -> (r: Result<VarInt, CodecError>) {
        proof {
            <i32 as Encodable>::lemma_size_faithful(self.chunk_x.deep_view());
            <i32 as Encodable>::lemma_size_faithful(self.chunk_z.deep_view());
            <(VarInt, Vec<i64>) as Encodable>::lemma_size_faithful(self.primary_bit_mask.deep_view());
            <NbtTag as Encodable>::lemma_size_faithful(self.height_maps.deep_view());
            <(VarInt, Vec<VarInt>) as Encodable>::lemma_size_faithful(self.biomes.deep_view());
            <(VarInt, Vec<i8>) as Encodable>::lemma_size_faithful(self.data.deep_view());
            <(VarInt, Vec<NbtTag>) as Encodable>::lemma_size_faithful(self.block_entities.deep_view());
        }
        let ghost w0 = <i32 as Encodable>::spec_size(self.chunk_x.deep_view());
        let ghost w1 = <i32 as Encodable>::spec_size(self.chunk_z.deep_view());
        let ghost w2 = <(VarInt, Vec<i64>) as Encodable>::spec_size(self.primary_bit_mask.deep_view());
        let ghost w3 = <NbtTag as Encodable>::spec_size(self.height_maps.deep_view());
        let ghost w4 = <(VarInt, Vec<VarInt>) as Encodable>::spec_size(self.biomes.deep_view());
        let ghost w5 = <(VarInt, Vec<i8>) as Encodable>::spec_size(self.data.deep_view());
        let ghost w6 = <(VarInt, Vec<NbtTag>) as Encodable>::spec_size(self.block_entities.deep_view());
        let t0 = self.chunk_x.size();
        let t1 = add_size(t0, Ghost(w0), self.chunk_z.size(), Ghost(w1));
        let ghost c1 = add_size_spec(w0, w1);
        let t2 = add_size(t1, Ghost(c1), self.primary_bit_mask.size(), Ghost(w2));
        let ghost c2 = add_size_spec(c1, w2);
        let t3 = add_size(t2, Ghost(c2), self.height_maps.size(), Ghost(w3));
        let ghost c3 = add_size_spec(c2, w3);
        let t4 = add_size(t3, Ghost(c3), self.biomes.size(), Ghost(w4));
        let ghost c4 = add_size_spec(c3, w4);
        let t5 = add_size(t4, Ghost(c4), self.data.size(), Ghost(w5));
        let ghost c5 = add_size_spec(c4, w5);
        let t6 = add_size(t5, Ghost(c5), self.block_entities.size(), Ghost(w6));
        t6
    }
}

impl Decodable for ChunkData {
    open spec fn spec_decode(bytes: Seq<u8>) -> Result<(ChunkDataView, nat), CodecError> {
        match decode_at::<i32>(bytes, 0) {
            Err(e) => Err(e),
            Ok((chunk_x, n0)) => match decode_at::<i32>(bytes, n0) {
                Err(e) => Err(e),
                Ok((chunk_z, n1)) => match decode_at::<(VarInt, Vec<i64>)>(bytes, n0 + n1) {
                    Err(e) => Err(e),
                    Ok((primary_bit_mask, n2)) => match decode_at::<NbtTag>(bytes, n0 + n1 + n2) {
                        Err(e) => Err(e),
                        Ok((height_maps, n3)) => match decode_at::<(VarInt, Vec<VarInt>)>(bytes, n0 + n1 + n2 + n3) {
                            Err(e) => Err(e),
                            Ok((biomes, n4)) => match decode_at::<(VarInt, Vec<i8>)>(bytes, n0 + n1 + n2 + n3 + n4) {
                                Err(e) => Err(e),
                                Ok((data, n5)) => match decode_at::<(VarInt, Vec<NbtTag>)>(bytes, n0 + n1 + n2 + n3 + n4 + n5) {
                                    Err(e) => Err(e),
                                    Ok((block_entities, n6)) => Ok((ChunkDataView { chunk_x, chunk_z, primary_bit_mask, height_maps, biomes, data, block_entities }, n0 + n1 + n2 + n3 + n4 + n5 + n6)),
                                },
                            },
                        },
                    },
                },
            },
        }
    }

    proof fn lemma_decode_len(bytes: Seq<u8>) {
        lemma_decode_at::<i32>(bytes, 0);
        <i32 as Decodable>::lemma_decode_len(bytes.subrange((0) as int, bytes.len() as int));
        if let Ok((chunk_x, n0)) = decode_at::<i32>(bytes, 0) {
            lemma_decode_at::<i32>(bytes, n0);
            <i32 as Decodable>::lemma_decode_len(bytes.subrange((n0) as int, bytes.len() as int));
            if let Ok((chunk_z, n1)) = decode_at::<i32>(bytes, n0) {
                lemma_decode_at::<(VarInt, Vec<i64>)>(bytes, n0 + n1);
                <(VarInt, Vec<i64>) as Decodable>::lemma_decode_len(bytes.subrange((n0 + n1) as int, bytes.len() as int));
                if let Ok((primary_bit_mask, n2)) = decode_at::<(VarInt, Vec<i64>)>(bytes, n0 + n1) {
                    lemma_decode_at::<NbtTag>(bytes, n0 + n1 + n2);
                    <NbtTag as Decodable>::lemma_decode_len(bytes.subrange((n0 + n1 + n2) as int, bytes.len() as int));
                    if let Ok((height_maps, n3)) = decode_at::<NbtTag>(bytes, n0 + n1 + n2) {
                        lemma_decode_at::<(VarInt, Vec<VarInt>)>(bytes, n0 + n1 + n2 + n3);
                        <(VarInt, Vec<VarInt>) as Decodable>::lemma_decode_len(bytes.subrange((n0 + n1 + n2 + n3) as int, bytes.len() as int));
                        if let Ok((biomes, n4)) = decode_at::<(VarInt, Vec<VarInt>)>(bytes, n0 + n1 + n2 + n3) {
                            lemma_decode_at::<(VarInt, Vec<i8>)>(bytes, n0 + n1 + n2 + n3 + n4);
                            <(VarInt, Vec<i8>) as Decodable>::lemma_decode_len(bytes.subrange((n0 + n1 + n2 + n3 + n4) as int, bytes.len() as int));
                            if let Ok((data, n5)) = decode_at::<(VarInt, Vec<i8>)>(bytes, n0 + n1 + n2 + n3 + n4) {
                                lemma_decode_at::<(VarInt, Vec<NbtTag>)>(bytes, n0 + n1 + n2 + n3 + n4 + n5);
                                <(VarInt, Vec<NbtTag>) as Decodable>::lemma_decode_len(bytes.subrange((n0 + n1 + n2 + n3 + n4 + n5) as int, bytes.len() as int));
                            }
                        }
                    }
                }
            }
        }
    }

    fn decode(reader: &mut ByteReader) -> (r: Result<ChunkData, CodecError>) {
        let ghost r0 = *reader;
        let ghost rest0 = reader.rest();
        proof {
            ByteReader::lemma_rest_since(r0, *reader);
            lemma_decode_at::<i32>(rest0, (reader.pos() - r0.pos()) as nat);
        }
        let chunk_x = match <i32>::decode(reader) {
            Ok(v) => v,
            Err(e) => return Err(e),
        };
        proof {
            ByteReader::lemma_rest_since(r0, *reader);
            lemma_decode_at::<i32>(rest0, (reader.pos() - r0.pos()) as nat);
        }
        let chunk_z = match <i32>::decode(reader) {
            Ok(v) => v,
            Err(e) => return Err(e),
        };
        proof {
            ByteReader::lemma_rest_since(r0, *reader);
            lemma_decode_at::<(VarInt, Vec<i64>)>(rest0, (reader.pos() - r0.pos()) as nat);
        }
        let primary_bit_mask = match <(VarInt, Vec<i64>)>::decode(reader) {
            Ok(v) => v,
            Err(e) => return Err(e),
        };
        proof {
            ByteReader::lemma_rest_since(r0, *reader);
            lemma_decode_at::<NbtTag>(rest0, (reader.pos() - r0.pos()) as nat);
        }
        let height_maps = match <NbtTag>::decode(reader) {
            Ok(v) => v,
            Err(e) => return Err(e),
        };
        proof {
            ByteReader::lemma_rest_since(r0, *reader);
            lemma_decode_at::<(VarInt, Vec<VarInt>)>(rest0, (reader.pos() - r0.pos()) as nat);
        }
        let biomes = match <(VarInt, Vec<VarInt>)>::decode(reader) {
            Ok(v) => v,
            Err(e) => return Err(e),
        };
        proof {
            ByteReader::lemma_rest_since(r0, *reader);
            lemma_decode_at::<(VarInt, Vec<i8>)>(rest0, (reader.pos() - r0.pos()) as nat);
        }
        let data = match <(VarInt, Vec<i8>)>::decode(reader) {
            Ok(v) => v,
            Err(e) => return Err(e),
        };
        proof {
            ByteReader::lemma_rest_since(r0, *reader);
            lemma_decode_at::<(VarInt, Vec<NbtTag>)>(rest0, (reader.pos() - r0.pos()) as nat);
        }
        let block_entities = match <(VarInt, Vec<NbtTag>)>::decode(reader) {
            Ok(v) => v,
            Err(e) => return Err(e),
        };
        Ok(ChunkData { chunk_x, chunk_z, primary_bit_mask, height_maps, biomes, data, block_entities })
    }
}

impl Codec for ChunkData {
    open spec fn valid(m: ChunkDataView) -> bool {
        &&& <i32 as Codec>::valid(m.chunk_x)
        &&& <i32 as Codec>::delimited()
        &&& <i32 as Codec>::valid(m.chunk_z)
        &&& <i32 as Codec>::delimited()
        &&& <(VarInt, Vec<i64>) as Codec>::valid(m.primary_bit_mask)
        &&& <(VarInt, Vec<i64>) as Codec>::delimited()
        &&& <NbtTag as Codec>::valid(m.height_maps)
        &&& <NbtTag as Codec>::delimited()
        &&& <(VarInt, Vec<VarInt>) as Codec>::valid(m.biomes)
        &&& <(VarInt, Vec<VarInt>) as Codec>::delimited()
        &&& <(VarInt, Vec<i8>) as Codec>::valid(m.data)
        &&& <(VarInt, Vec<i8>) as Codec>::delimited()
        &&& <(VarInt, Vec<NbtTag>) as Codec>::valid(m.block_entities)
    }

    open spec fn delimited() -> bool {
        <(VarInt, Vec<NbtTag>) as Codec>::delimited()
    }

    proof fn lemma_round_trip(m: ChunkDataView, rest: Seq<u8>) {
        let e0 = <i32 as Encodable>::spec_encode(m.chunk_x)->Ok_0;
        let e1 = <i32 as Encodable>::spec_encode(m.chunk_z)->Ok_0;
        let e2 = <(VarInt, Vec<i64>) as Encodable>::spec_encode(m.primary_bit_mask)->Ok_0;
        let e3 = <NbtTag as Encodable>::spec_encode(m.height_maps)->Ok_0;
        let e4 = <(VarInt, Vec<VarInt>) as Encodable>::spec_encode(m.biomes)->Ok_0;
        let e5 = <(VarInt, Vec<i8>) as Encodable>::spec_encode(m.data)->Ok_0;
        let e6 = <(VarInt, Vec<NbtTag>) as Encodable>::spec_encode(m.block_entities)->Ok_0;
        let t6 = e6 + rest;
        let t5 = e5 + t6;
        let t4 = e4 + t5;
        let t3 = e3 + t4;
        let t2 = e2 + t3;
        let t1 = e1 + t2;
        let t0 = e0 + t1;
        assert(decode_at::<i32>(t0, (0) as nat) == Ok::<(<i32 as DeepView>::V, nat), CodecError>((m.chunk_x, e0.len()))
            && <i32 as Encodable>::spec_encode(m.chunk_x) == Ok::<Seq<u8>, CodecError>(e0)
            && decode_at::<i32>(t0, (e0.len()) as nat) == Ok::<(<i32 as DeepView>::V, nat), CodecError>((m.chunk_z, e1.len()))
            && <i32 as Encodable>::spec_encode(m.chunk_z) == Ok::<Seq<u8>, CodecError>(e1)
            && decode_at::<(VarInt, Vec<i64>)>(t0, (e0.len() + e1.len()) as nat) == Ok::<(<(VarInt, Vec<i64>) as DeepView>::V, nat), CodecError>((m.primary_bit_mask, e2.len()))
            && <(VarInt, Vec<i64>) as Encodable>::spec_encode(m.primary_bit_mask) == Ok::<Seq<u8>, CodecError>(e2)
            && decode_at::<NbtTag>(t0, (e0.len() + e1.len() + e2.len()) as nat) == Ok::<(<NbtTag as DeepView>::V, nat), CodecError>((m.height_maps, e3.len()))
            && <NbtTag as Encodable>::spec_encode(m.height_maps) == Ok::<Seq<u8>, CodecError>(e3)
            && decode_at::<(VarInt, Vec<VarInt>)>(t0, (e0.len() + e1.len() + e2.len() + e3.len()) as nat) == Ok::<(<(VarInt, Vec<VarInt>) as DeepView>::V, nat), CodecError>((m.biomes, e4.len()))
            && <(VarInt, Vec<VarInt>) as Encodable>::spec_encode(m.biomes) == Ok::<Seq<u8>, CodecError>(e4)
            && decode_at::<(VarInt, Vec<i8>)>(t0, (e0.len() + e1.len() + e2.len() + e3.len() + e4.len()) as nat) == Ok::<(<(VarInt, Vec<i8>) as DeepView>::V, nat), CodecError>((m.data, e5.len()))
            && <(VarInt, Vec<i8>) as Encodable>::spec_encode(m.data) == Ok::<Seq<u8>, CodecError>(e5)
            && decode_at::<(VarInt, Vec<NbtTag>)>(t0, (e0.len() + e1.len() + e2.len() + e3.len() + e4.len() + e5.len()) as nat) == Ok::<(<(VarInt, Vec<NbtTag>) as DeepView>::V, nat), CodecError>((m.block_entities, e6.len()))
            && <(VarInt, Vec<NbtTag>) as Encodable>::spec_encode(m.block_entities) == Ok::<Seq<u8>, CodecError>(e6)) by {
            lemma_subrange_all(t0);
            lemma_field_round_trip::<i32>(m.chunk_x, t0, (0) as nat, t1);
            lemma_field_round_trip::<i32>(m.chunk_z, t0, (e0.len()) as nat, t2);
            lemma_field_round_trip::<(VarInt, Vec<i64>)>(m.primary_bit_mask, t0, (e0.len() + e1.len()) as nat, t3);
            lemma_field_round_trip::<NbtTag>(m.height_maps, t0, (e0.len() + e1.len() + e2.len()) as nat, t4);
            lemma_field_round_trip::<(VarInt, Vec<VarInt>)>(m.biomes, t0, (e0.len() + e1.len() + e2.len() + e3.len()) as nat, t5);
            lemma_field_round_trip::<(VarInt, Vec<i8>)>(m.data, t0, (e0.len() + e1.len() + e2.len() + e3.len() + e4.len()) as nat, t6);
            lemma_field_round_trip::<(VarInt, Vec<NbtTag>)>(m.block_entities, t0, (e0.len() + e1.len() + e2.len() + e3.len() + e4.len() + e5.len()) as nat, rest);
        }
        assert(e0 + e1 + e2 + e3 + e4 + e5 + e6 + rest == t0) by {
            lemma_concat_assoc(e0, e1, t2);
            lemma_concat_assoc(e0 + e1, e2, t3);
            lemma_concat_assoc(e0 + e1 + e2, e3, t4);
            lemma_concat_assoc(e0 + e1 + e2 + e3, e4, t5);
            lemma_concat_assoc(e0 + e1 + e2 + e3 + e4, e5, t6);
            lemma_concat_assoc(e0 + e1 + e2 + e3 + e4 + e5, e6, rest);
        }
        assert(Self::spec_encode(m) == Ok::<Seq<u8>, CodecError>(e0 + e1 + e2 + e3 + e4 + e5 + e6));
    }
}
/// The client-bound play message: effect.
pub struct Effect {
    pub effect_id: i32,
    pub location: Position,
    pub data: i32,
    pub disable_relative_volume: bool,
}

/// The model of a `Effect`: each field by its model.
pub struct EffectView {
    pub effect_id: i32,
    pub location: (i64, i64, i64),
    pub data: i32,
    pub disable_relative_volume: bool,
}

impl DeepView for Effect {
    type V = EffectView;

    open spec fn deep_view(&self) -> EffectView {
        EffectView {
            effect_id: self.effect_id.deep_view(),
            location: self.location.deep_view(),
            data: self.data.deep_view(),
            disable_relative_volume: self.disable_relative_volume.deep_view(),
        }
    }
}

impl Encodable for Effect {
    /// The fields in order, with no framing.
    open spec fn spec_encode(m: EffectView) -> Result<Seq<u8>, CodecError> {
        then_encode(then_encode(then_encode(<i32 as Encodable>::spec_encode(m.effect_id), <Position as Encodable>::spec_encode(m.location)), <i32 as Encodable>::spec_encode(m.data)), <bool as Encodable>::spec_encode(m.disable_relative_volume))
    }

    /// The sum of the fields' sizes.
    open spec fn spec_size(m: EffectView) -> Result<nat, CodecError> {
        add_size_spec(add_size_spec(add_size_spec(<i32 as Encodable>::spec_size(m.effect_id), <Position as Encodable>::spec_size(m.location)), <i32 as Encodable>::spec_size(m.data)), <bool as Encodable>::spec_size(m.disable_relative_volume))
    }

    proof fn lemma_size_faithful(m: EffectView) {
        <i32 as Encodable>::lemma_size_faithful(m.effect_id);
        <Position as Encodable>::lemma_size_faithful(m.location);
        <i32 as Encodable>::lemma_size_faithful(m.data);
        <bool as Encodable>::lemma_size_faithful(m.disable_relative_volume);
        lemma_then_size(<i32 as Encodable>::spec_encode(m.effect_id), <i32 as Encodable>::spec_size(m.effect_id), <Position as Encodable>::spec_encode(m.location), <Position as Encodable>::spec_size(m.location));
        lemma_then_size(then_encode(<i32 as Encodable>::spec_encode(m.effect_id), <Position as Encodable>::spec_encode(m.location)), add_size_spec(<i32 as Encodable>::spec_size(m.effect_id), <Position as Encodable>::spec_size(m.location)), <i32 as Encodable>::spec_encode(m.data), <i32 as Encodable>::spec_size(m.data));
        lemma_then_size(then_encode(then_encode(<i32 as Encodable>::spec_encode(m.effect_id), <Position as Encodable>::spec_encode(m.location)), <i32 as Encodable>::spec_encode(m.data)), add_size_spec(add_size_spec(<i32 as Encodable>::spec_size(m.effect_id), <Position as Encodable>::spec_size(m.location)), <i32 as Encodable>::spec_size(m.data)), <bool as Encodable>::spec_encode(m.disable_relative_volume), <bool as Encodable>::spec_size(m.disable_relative_volume));
    }

    fn encode(&self, out: &mut Vec<u8>) -> (r: Result<(), CodecError>) {
        let ghost o0 = out@;
        let start = out.len();
        let ghost e0 = <i32 as Encodable>::spec_encode(self.effect_id.deep_view())->Ok_0;
        let ghost e1 = <Position as Encodable>::spec_encode(self.location.deep_view())->Ok_0;
        let ghost e2 = <i32 as Encodable>::spec_encode(self.data.deep_view())->Ok_0;
        let ghost e3 = <bool as Encodable>::spec_encode(self.disable_relative_volume.deep_view())->Ok_0;
        match self.effect_id.encode(out) {
            Ok(_) => {},
            Err(e) => return Err(e),
        }
        match self.location.encode(out) {
            Ok(_) => {},
            Err(e) => {
                roll_back(out, Ghost(o0), Ghost(e0), start);
                return Err(e);
            },
        }
        proof {
            lemma_concat_assoc(o0, e0, e1);
        }
        match self.data.encode(out) {
            Ok(_) => {},
            Err(e) => {
                roll_back(out, Ghost(o0), Ghost(e0 + e1), start);
                return Err(e);
            },
        }
        proof {
            lemma_concat_assoc(o0, e0 + e1, e2);
        }
        match self.disable_relative_volume.encode(out) {
            Ok(_) => {},
            Err(e) => {
                roll_back(out, Ghost(o0), Ghost(e0 + e1 + e2), start);
                return Err(e);
            },
        }
        proof {
            lemma_concat_assoc(o0, e0 + e1 + e2, e3);
        }
        Ok(())
    }

    fn size(&self) -> (r: Result<VarInt, CodecError>) {
        proof {
            <i32 as Encodable>::lemma_size_faithful(self.effect_id.deep_view());
            <Position as Encodable>::lemma_size_faithful(self.location.deep_view());
            <i32 as Encodable>::lemma_size_faithful(self.data.deep_view());
            <bool as Encodable>::lemma_size_faithful(self.disable_relative_volume.deep_view());
        }
        let ghost w0 = <i32 as Encodable>::spec_size(self.effect_id.deep_view());
        let ghost w1 = <Position as Encodable>::spec_size(self.location.deep_view());
        let ghost w2 = <i32 as Encodable>::spec_size(self.data.deep_view());
        let ghost w3 = <bool as Encodable>::spec_size(self.disable_relative_volume.deep_view());
        let t0 = self.effect_id.size();
        let t1 = add_size(t0, Ghost(w0), self.location.size(), Ghost(w1));
        let ghost c1 = add_size_spec(w0, w1);
        let t2 = add_size(t1, Ghost(c1), self.data.size(), Ghost(w2));
        let ghost c2 = add_size_spec(c1, w2);
        let t3 = add_size(t2, Ghost(c2), self.disable_relative_volume.size(), Ghost(w3));
        t3
    }
}

impl Decodable for Effect {
    open spec fn spec_decode(bytes: Seq<u8>) -> Result<(EffectView, nat), CodecError> {
        match decode_at::<i32>(bytes, 0) {
            Err(e) => Err(e),
            Ok((effect_id, n0)) => match decode_at::<Position>(bytes, n0) {
                Err(e) => Err(e),
                Ok((location, n1)) => match decode_at::<i32>(bytes, n0 + n1) {
                    Err(e) => Err(e),
                    Ok((data, n2)) => match decode_at::<bool>(bytes, n0 + n1 + n2) {
                        Err(e) => Err(e),
                        Ok((disable_relative_volume, n3)) => Ok((EffectView { effect_id, location, data, disable_relative_volume }, n0 + n1 + n2 + n3)),
                    },
                },
            },
        }
    }

    proof fn lemma_decode_len(bytes: Seq<u8>) {
        lemma_decode_at::<i32>(bytes, 0);
        <i32 as Decodable>::lemma_decode_len(bytes.subrange((0) as int, bytes.len() as int));
        if let Ok((effect_id, n0)) = decode_at::<i32>(bytes, 0) {
            lemma_decode_at::<Position>(bytes, n0);
            <Position as Decodable>::lemma_decode_len(bytes.subrange((n0) as int, bytes.len() as int));
            if let Ok((location, n1)) = decode_at::<Position>(bytes, n0) {
                lemma_decode_at::<i32>(bytes, n0 + n1);
                <i32 as Decodable>::lemma_decode_len(bytes.subrange((n0 + n1) as int, bytes.len() as int));
                if let Ok((data, n2)) = decode_at::<i32>(bytes, n0 + n1) {
                    lemma_decode_at::<bool>(bytes, n0 + n1 + n2);
                    <bool as Decodable>::lemma_decode_len(bytes.subrange((n0 + n1 + n2) as int, bytes.len() as int));
                }
            }
        }
    }

    fn decode(reader: &mut ByteReader) -> (r: Result<Effect, CodecError>) {
        let ghost r0 = *reader;
        let ghost rest0 = reader.rest();
        proof {
            ByteReader::lemma_rest_since(r0, *reader);
            lemma_decode_at::<i32>(rest0, (reader.pos() - r0.pos()) as nat);
        }
        let effect_id = match <i32>::decode(reader) {
            Ok(v) => v,
            Err(e) => return Err(e),
        };
        proof {
            ByteReader::lemma_rest_since(r0, *reader);
            lemma_decode_at::<Position>(rest0, (reader.pos() - r0.pos()) as nat);
        }
        let location = match <Position>::decode(reader) {
            Ok(v) => v,
            Err(e) => return Err(e),
        };
        proof {
            ByteReader::lemma_rest_since(r0, *reader);
            lemma_decode_at::<i32>(rest0, (reader.pos() - r0.pos()) as nat);
        }
        let data = match <i32>::decode(reader) {
            Ok(v) => v,
            Err(e) => return Err(e),
        };
        proof {
            ByteReader::lemma_rest_since(r0, *reader);
            lemma_decode_at::<bool>(rest0, (reader.pos() - r0.pos()) as nat);
        }
        let disable_relative_volume = match <bool>::decode(reader) {
            Ok(v) => v,
            Err(e) => return Err(e),
        };
        Ok(Effect { effect_id, location, data, disable_relative_volume })
    }
}

impl Codec for Effect {
    open spec fn valid(m: EffectView) -> bool {
        &&& <i32 as Codec>::valid(m.effect_id)
        &&& <i32 as Codec>::delimited()
        &&& <Position as Codec>::valid(m.location)
        &&& <Position as Codec>::delimited()
        &&& <i32 as Codec>::valid(m.data)
        &&& <i32 as Codec>::delimited()
        &&& <bool as Codec>::valid(m.disable_relative_volume)
    }

    open spec fn delimited() -> bool {
        <bool as Codec>::delimited()
    }

    proof fn lemma_round_trip(m: EffectView, rest: Seq<u8>) {
        let e0 = <i32 as Encodable>::spec_encode(m.effect_id)->Ok_0;
        let e1 = <Position as Encodable>::spec_encode(m.location)->Ok_0;
        let e2 = <i32 as Encodable>::spec_encode(m.data)->Ok_0;
        let e3 = <bool as Encodable>::spec_encode(m.disable_relative_volume)->Ok_0;
        let t3 = e3 + rest;
        let t2 = e2 + t3;
        let t1 = e1 + t2;
        let t0 = e0 + t1;
        assert(decode_at::<i32>(t0, (0) as nat) == Ok::<(<i32 as DeepView>::V, nat), CodecError>((m.effect_id, e0.len()))
            && <i32 as Encodable>::spec_encode(m.effect_id) == Ok::<Seq<u8>, CodecError>(e0)
            && decode_at::<Position>(t0, (e0.len()) as nat) == Ok::<(<Position as DeepView>::V, nat), CodecError>((m.location, e1.len()))
            && <Position as Encodable>::spec_encode(m.location) == Ok::<Seq<u8>, CodecError>(e1)
            && decode_at::<i32>(t0, (e0.len() + e1.len()) as nat) == Ok::<(<i32 as DeepView>::V, nat), CodecError>((m.data, e2.len()))
            && <i32 as Encodable>::spec_encode(m.data) == Ok::<Seq<u8>, CodecError>(e2)
            && decode_at::<bool>(t0, (e0.len() + e1.len() + e2.len()) as nat) == Ok::<(<bool as DeepView>::V, nat), CodecError>((m.disable_relative_volume, e3.len()))
            && <bool as Encodable>::spec_encode(m.disable_relative_volume) == Ok::<Seq<u8>, CodecError>(e3)) by {
            lemma_subrange_all(t0);
            lemma_field_round_trip::<i32>(m.effect_id, t0, (0) as nat, t1);
            lemma_field_round_trip::<Position>(m.location, t0, (e0.len()) as nat, t2);
            lemma_field_round_trip::<i32>(m.data, t0, (e0.len() + e1.len()) as nat, t3);
            lemma_field_round_trip::<bool>(m.disable_relative_volume, t0, (e0.len() + e1.len() + e2.len()) as nat, rest);
        }
        assert(e0 + e1 + e2 + e3 + rest == t0) by {
            lemma_concat_assoc(e0, e1, t2);
            lemma_concat_assoc(e0 + e1, e2, t3);
            lemma_concat_assoc(e0 + e1 + e2, e3, rest);
        }
        assert(Self::spec_encode(m) == Ok::<Seq<u8>, CodecError>(e0 + e1 + e2 + e3));
    }
}
/// The client-bound play message: join game.
pub struct JoinGame {
    pub entity_id: i32,
    pub is_hardcore: bool,
    pub gamemode: u8,
    pub previous_gamemode: i8,
    pub world_names: (VarInt, Vec<Identifier>),
    pub dimension_codec: NbtTag,
    pub dimension: NbtTag,
    pub world_name: Identifier,
    pub hashed_seed: i64,
    pub max_players: VarInt,
    pub view_distance: VarInt,
    pub reduced_debug_info: bool,
    pub enable_respawn_screen: bool,
    pub is_debug: bool,
    pub is_flat: bool,
}

/// The model of a `JoinGame`: each field by its model.
pub struct JoinGameView {
    pub entity_id: i32,
    pub is_hardcore: bool,
    pub gamemode: u8,
    pub previous_gamemode: i8,
    pub world_names: (i32, Seq<Seq<char>>),
    pub dimension_codec: Seq<u8>,
    pub dimension: Seq<u8>,
    pub world_name: Seq<char>,
    pub hashed_seed: i64,
    pub max_players: i32,
    pub view_distance: i32,
    pub reduced_debug_info: bool,
    pub enable_respawn_screen: bool,
    pub is_debug: bool,
    pub is_flat: bool,
}

impl DeepView for JoinGame {
    type V = JoinGameView;

    open spec fn deep_view(&self) -> JoinGameView {
        JoinGameView {
            entity_id: self.entity_id.deep_view(),
            is_hardcore: self.is_hardcore.deep_view(),
            gamemode: self.gamemode.deep_view(),
            previous_gamemode: self.previous_gamemode.deep_view(),
            world_names: self.world_names.deep_view(),
            dimension_codec: self.dimension_codec.deep_view(),
            dimension: self.dimension.deep_view(),
            world_name: self.world_name.deep_view(),
            hashed_seed: self.hashed_seed.deep_view(),
            max_players: self.max_players.deep_view(),
            view_distance: self.view_distance.deep_view(),
            reduced_debug_info: self.reduced_debug_info.deep_view(),
            enable_respawn_screen: self.enable_respawn_screen.deep_view(),
            is_debug: self.is_debug.deep_view(),
            is_flat: self.is_flat.deep_view(),
        }
    }
}

impl Encodable for JoinGame {
    /// The fields in order, with no framing.
    open spec fn spec_encode(m: JoinGameView) -> Result<Seq<u8>, CodecError> {
        then_encode(then_encode(then_encode(then_encode(then_encode(then_encode(then_encode(then_encode(then_encode(then_encode(then_encode(then_encode(then_encode(then_encode(<i32 as Encodable>::spec_encode(m.entity_id), <bool as Encodable>::spec_encode(m.is_hardcore)), <u8 as Encodable>::spec_encode(m.gamemode)), <i8 as Encodable>::spec_encode(m.previous_gamemode)), <(VarInt, Vec<Identifier>) as Encodable>::spec_encode(m.world_names)), <NbtTag as Encodable>::spec_encode(m.dimension_codec)), <NbtTag as Encodable>::spec_encode(m.dimension)), <Identifier as Encodable>::spec_encode(m.world_name)), <i64 as Encodable>::spec_encode(m.hashed_seed)), <VarInt as Encodable>::spec_encode(m.max_players)), <VarInt as Encodable>::spec_encode(m.view_distance)), <bool as Encodable>::spec_encode(m.reduced_debug_info)), <bool as Encodable>::spec_encode(m.enable_respawn_screen)), <bool as Encodable>::spec_encode(m.is_debug)), <bool as Encodable>::spec_encode(m.is_flat))
    }

    /// The sum of the fields' sizes.
    open spec fn spec_size(m: JoinGameView) -> Result<nat, CodecError> {
        add_size_spec(add_size_spec(add_size_spec(add_size_spec(add_size_spec(add_size_spec(add_size_spec(add_size_spec(add_size_spec(add_size_spec(add_size_spec(add_size_spec(add_size_spec(add_size_spec(<i32 as Encodable>::spec_size(m.entity_id), <bool as Encodable>::spec_size(m.is_hardcore)), <u8 as Encodable>::spec_size(m.gamemode)), <i8 as Encodable>::spec_size(m.previous_gamemode)), <(VarInt, Vec<Identifier>) as Encodable>::spec_size(m.world_names)), <NbtTag as Encodable>::spec_size(m.dimension_codec)), <NbtTag as Encodable>::spec_size(m.dimension)), <Identifier as Encodable>::spec_size(m.world_name)), <i64 as Encodable>::spec_size(m.hashed_seed)), <VarInt as Encodable>::spec_size(m.max_players)), <VarInt as Encodable>::spec_size(m.view_distance)), <bool as Encodable>::spec_size(m.reduced_debug_info)), <bool as Encodable>::spec_size(m.enable_respawn_screen)), <bool as Encodable>::spec_size(m.is_debug)), <bool as Encodable>::spec_size(m.is_flat))
    }

    #[verifier::spinoff_prover]
    #[verifier::rlimit(100)]
    proof fn lemma_size_faithful(m: JoinGameView) {
        <i32 as Encodable>::lemma_size_faithful(m.entity_id);
        <bool as Encodable>::lemma_size_faithful(m.is_hardcore);
        <u8 as Encodable>::lemma_size_faithful(m.gamemode);
        <i8 as Encodable>::lemma_size_faithful(m.previous_gamemode);
        <(VarInt, Vec<Identifier>) as Encodable>::lemma_size_faithful(m.world_names);
        <NbtTag as Encodable>::lemma_size_faithful(m.dimension_codec);
        <NbtTag as Encodable>::lemma_size_faithful(m.dimension);
        <Identifier as Encodable>::lemma_size_faithful(m.world_name);
        <i64 as Encodable>::lemma_size_faithful(m.hashed_seed);
        <VarInt as Encodable>::lemma_size_faithful(m.max_players);
        <VarInt as Encodable>::lemma_size_faithful(m.view_distance);
        <bool as Encodable>::lemma_size_faithful(m.reduced_debug_info);
        <bool as Encodable>::lemma_size_faithful(m.enable_respawn_screen);
        <bool as Encodable>::lemma_size_faithful(m.is_debug);
        <bool as Encodable>::lemma_size_faithful(m.is_flat);
        lemma_then_size(<i32 as Encodable>::spec_encode(m.entity_id), <i32 as Encodable>::spec_size(m.entity_id), <bool as Encodable>::spec_encode(m.is_hardcore), <bool as Encodable>::spec_size(m.is_hardcore));
        lemma_then_size(then_encode(<i32 as Encodable>::spec_encode(m.entity_id), <bool as Encodable>::spec_encode(m.is_hardcore)), add_size_spec(<i32 as Encodable>::spec_size(m.entity_id), <bool as Encodable>::spec_size(m.is_hardcore)), <u8 as Encodable>::spec_encode(m.gamemode), <u8 as Encodable>::spec_size(m.gamemode));
        lemma_then_size(then_encode(then_encode(<i32 as Encodable>::spec_encode(m.entity_id), <bool as Encodable>::spec_encode(m.is_hardcore)), <u8 as Encodable>::spec_encode(m.gamemode)), add_size_spec(add_size_spec(<i32 as Encodable>::spec_size(m.entity_id), <bool as Encodable>::spec_size(m.is_hardcore)), <u8 as Encodable>::spec_size(m.gamemode)), <i8 as Encodable>::spec_encode(m.previous_gamemode), <i8 as Encodable>::spec_size(m.previous_gamemode));
        lemma_then_size(then_encode(then_encode(then_encode(<i32 as Encodable>::spec_encode(m.entity_id), <bool as Encodable>::spec_encode(m.is_hardcore)), <u8 as Encodable>::spec_encode(m.gamemode)), <i8 as Encodable>::spec_encode(m.previous_gamemode)), add_size_spec(add_size_spec(add_size_spec(<i32 as Encodable>::spec_size(m.entity_id), <bool as Encodable>::spec_size(m.is_hardcore)), <u8 as Encodable>::spec_size(m.gamemode)), <i8 as Encodable>::spec_size(m.previous_gamemode)), <(VarInt, Vec<Identifier>) as Encodable>::spec_encode(m.world_names), <(VarInt, Vec<Identifier>) as Encodable>::spec_size(m.world_names));
        lemma_then_size(then_encode(then_encode(then_encode(then_encode(<i32 as Encodable>::spec_encode(m.entity_id), <bool as Encodable>::spec_encode(m.is_hardcore)), <u8 as Encodable>::spec_encode(m.gamemode)), <i8 as Encodable>::spec_encode(m.previous_gamemode)), <(VarInt, Vec<Identifier>) as Encodable>::spec_encode(m.world_names)), add_size_spec(add_size_spec(add_size_spec(add_size_spec(<i32 as Encodable>::spec_size(m.entity_id), <bool as Encodable>::spec_size(m.is_hardcore)), <u8 as Encodable>::spec_size(m.gamemode)), <i8 as Encodable>::spec_size(m.previous_gamemode)), <(VarInt, Vec<Identifier>) as Encodable>::spec_size(m.world_names)), <NbtTag as Encodable>::spec_encode(m.dimension_codec), <NbtTag as Encodable>::spec_size(m.dimension_codec));
        lemma_then_size(then_encode(then_encode(then_encode(then_encode(then_encode(<i32 as Encodable>::spec_encode(m.entity_id), <bool as Encodable>::spec_encode(m.is_hardcore)), <u8 as Encodable>::spec_encode(m.gamemode)), <i8 as Encodable>::spec_encode(m.previous_gamemode)), <(VarInt, Vec<Identifier>) as Encodable>::spec_encode(m.world_names)), <NbtTag as Encodable>::spec_encode(m.dimension_codec)), add_size_spec(add_size_spec(add_size_spec(add_size_spec(add_size_spec(<i32 as Encodable>::spec_size(m.entity_id), <bool as Encodable>::spec_size(m.is_hardcore)), <u8 as Encodable>::spec_size(m.gamemode)), <i8 as Encodable>::spec_size(m.previous_gamemode)), <(VarInt, Vec<Identifier>) as Encodable>::spec_size(m.world_names)), <NbtTag as Encodable>::spec_size(m.dimension_codec)), <NbtTag as Encodable>::spec_encode(m.dimension), <NbtTag as Encodable>::spec_size(m.dimension));
        lemma_then_size(then_encode(then_encode(then_encode(then_encode(then_encode(then_encode(<i32 as Encodable>::spec_encode(m.entity_id), <bool as Encodable>::spec_encode(m.is_hardcore)), <u8 as Encodable>::spec_encode(m.gamemode)), <i8 as Encodable>::spec_encode(m.previous_gamemode)), <(VarInt, Vec<Identifier>) as Encodable>::spec_encode(m.world_names)), <NbtTag as Encodable>::spec_encode(m.dimension_codec)), <NbtTag as Encodable>::spec_encode(m.dimension)), add_size_spec(add_size_spec(add_size_spec(add_size_spec(add_size_spec(add_size_spec(<i32 as Encodable>::spec_size(m.entity_id), <bool as Encodable>::spec_size(m.is_hardcore)), <u8 as Encodable>::spec_size(m.gamemode)), <i8 as Encodable>::spec_size(m.previous_gamemode)), <(VarInt, Vec<Identifier>) as Encodable>::spec_size(m.world_names)), <NbtTag as Encodable>::spec_size(m.dimension_codec)), <NbtTag as Encodable>::spec_size(m.dimension)), <Identifier as Encodable>::spec_encode(m.world_name), <Identifier as Encodable>::spec_size(m.world_name));
        lemma_then_size(then_encode(then_encode(then_encode(then_encode(then_encode(then_encode(then_encode(<i32 as Encodable>::spec_encode(m.entity_id), <bool as Encodable>::spec_encode(m.is_hardcore)), <u8 as Encodable>::spec_encode(m.gamemode)), <i8 as Encodable>::spec_encode(m.previous_gamemode)), <(VarInt, Vec<Identifier>) as Encodable>::spec_encode(m.world_names)), <NbtTag as Encodable>::spec_encode(m.dimension_codec)), <NbtTag as Encodable>::spec_encode(m.dimension)), <Identifier as Encodable>::spec_encode(m.world_name)), add_size_spec(add_size_spec(add_size_spec(add_size_spec(add_size_spec(add_size_spec(add_size_spec(<i32 as Encodable>::spec_size(m.entity_id), <bool as Encodable>::spec_size(m.is_hardcore)), <u8 as Encodable>::spec_size(m.gamemode)), <i8 as Encodable>::spec_size(m.previous_gamemode)), <(VarInt, Vec<Identifier>) as Encodable>::spec_size(m.world_names)), <NbtTag as Encodable>::spec_size(m.dimension_codec)), <NbtTag as Encodable>::spec_size(m.dimension)), <Identifier as Encodable>::spec_size(m.world_name)), <i64 as Encodable>::spec_encode(m.hashed_seed), <i64 as Encodable>::spec_size(m.hashed_seed));
        lemma_then_size(then_encode(then_encode(then_encode(then_encode(then_encode(then_encode(then_encode(then_encode(<i32 as Encodable>::spec_encode(m.entity_id), <bool as Encodable>::spec_encode(m.is_hardcore)), <u8 as Encodable>::spec_encode(m.gamemode)), <i8 as Encodable>::spec_encode(m.previous_gamemode)), <(VarInt, Vec<Identifier>) as Encodable>::spec_encode(m.world_names)), <NbtTag as Encodable>::spec_encode(m.dimension_codec)), <NbtTag as Encodable>::spec_encode(m.dimension)), <Identifier as Encodable>::spec_encode(m.world_name)), <i64 as Encodable>::spec_encode(m.hashed_seed)), add_size_spec(add_size_spec(add_size_spec(add_size_spec(add_size_spec(add_size_spec(add_size_spec(add_size_spec(<i32 as Encodable>::spec_size(m.entity_id), <bool as Encodable>::spec_size(m.is_hardcore)), <u8 as Encodable>::spec_size(m.gamemode)), <i8 as Encodable>::spec_size(m.previous_gamemode)), <(VarInt, Vec<Identifier>) as Encodable>::spec_size(m.world_names)), <NbtTag as Encodable>::spec_size(m.dimension_codec)), <NbtTag as Encodable>::spec_size(m.dimension)), <Identifier as Encodable>::spec_size(m.world_name)), <i64 as Encodable>::spec_size(m.hashed_seed)), <VarInt as Encodable>::spec_encode(m.max_players), <VarInt as Encodable>::spec_size(m.max_players));
        lemma_then_size(then_encode(then_encode(then_encode(then_encode(then_encode(then_encode(then_encode(then_encode(then_encode(<i32 as Encodable>::spec_encode(m.entity_id), <bool as Encodable>::spec_encode(m.is_hardcore)), <u8 as Encodable>::spec_encode(m.gamemode)), <i8 as Encodable>::spec_encode(m.previous_gamemode)), <(VarInt, Vec<Identifier>) as Encodable>::spec_encode(m.world_names)), <NbtTag as Encodable>::spec_encode(m.dimension_codec)), <NbtTag as Encodable>::spec_encode(m.dimension)), <Identifier as Encodable>::spec_encode(m.world_name)), <i64 as Encodable>::spec_encode(m.hashed_seed)), <VarInt as Encodable>::spec_encode(m.max_players)), add_size_spec(add_size_spec(add_size_spec(add_size_spec(add_size_spec(add_size_spec(add_size_spec(add_size_spec(add_size_spec(<i32 as Encodable>::spec_size(m.entity_id), <bool as Encodable>::spec_size(m.is_hardcore)), <u8 as Encodable>::spec_size(m.gamemode)), <i8 as Encodable>::spec_size(m.previous_gamemode)), <(VarInt, Vec<Identifier>) as Encodable>::spec_size(m.world_names)), <NbtTag as Encodable>::spec_size(m.dimension_codec)), <NbtTag as Encodable>::spec_size(m.dimension)), <Identifier as Encodable>::spec_size(m.world_name)), <i64 as Encodable>::spec_size(m.hashed_seed)), <VarInt as Encodable>::spec_size(m.max_players)), <VarInt as Encodable>::spec_encode(m.view_distance), <VarInt as Encodable>::spec_size(m.view_distance));
        lemma_then_size(then_encode(then_encode(then_encode(then_encode(then_encode(then_encode(then_encode(then_encode(then_encode(then_encode(<i32 as Encodable>::spec_encode(m.entity_id), <bool as Encodable>::spec_encode(m.is_hardcore)), <u8 as Encodable>::spec_encode(m.gamemode)), <i8 as Encodable>::spec_encode(m.previous_gamemode)), <(VarInt, Vec<Identifier>) as Encodable>::spec_encode(m.world_names)), <NbtTag as Encodable>::spec_encode(m.dimension_codec)), <NbtTag as Encodable>::spec_encode(m.dimension)), <Identifier as Encodable>::spec_encode(m.world_name)), <i64 as Encodable>::spec_encode(m.hashed_seed)), <VarInt as Encodable>::spec_encode(m.max_players)), <VarInt as Encodable>::spec_encode(m.view_distance)), add_size_spec(add_size_spec(add_size_spec(add_size_spec(add_size_spec(add_size_spec(add_size_spec(add_size_spec(add_size_spec(add_size_spec(<i32 as Encodable>::spec_size(m.entity_id), <bool as Encodable>::spec_size(m.is_hardcore)), <u8 as Encodable>::spec_size(m.gamemode)), <i8 as Encodable>::spec_size(m.previous_gamemode)), <(VarInt, Vec<Identifier>) as Encodable>::spec_size(m.world_names)), <NbtTag as Encodable>::spec_size(m.dimension_codec)), <NbtTag as Encodable>::spec_size(m.dimension)), <Identifier as Encodable>::spec_size(m.world_name)), <i64 as Encodable>::spec_size(m.hashed_seed)), <VarInt as Encodable>::spec_size(m.max_players)), <VarInt as Encodable>::spec_size(m.view_distance)), <bool as Encodable>::spec_encode(m.reduced_debug_info), <bool as Encodable>::spec_size(m.reduced_debug_info));
        lemma_then_size(then_encode(then_encode(then_encode(then_encode(then_encode(then_encode(then_encode(then_encode(then_encode(then_encode(then_encode(<i32 as Encodable>::spec_encode(m.entity_id), <bool as Encodable>::spec_encode(m.is_hardcore)), <u8 as Encodable>::spec_encode(m.gamemode)), <i8 as Encodable>::spec_encode(m.previous_gamemode)), <(VarInt, Vec<Identifier>) as Encodable>::spec_encode(m.world_names)), <NbtTag as Encodable>::spec_encode(m.dimension_codec)), <NbtTag as Encodable>::spec_encode(m.dimension)), <Identifier as Encodable>::spec_encode(m.world_name)), <i64 as Encodable>::spec_encode(m.hashed_seed)), <VarInt as Encodable>::spec_encode(m.max_players)), <VarInt as Encodable>::spec_encode(m.view_distance)), <bool as Encodable>::spec_encode(m.reduced_debug_info)), add_size_spec(add_size_spec(add_size_spec(add_size_spec(add_size_spec(add_size_spec(add_size_spec(add_size_spec(add_size_spec(add_size_spec(add_size_spec(<i32 as Encodable>::spec_size(m.entity_id), <bool as Encodable>::spec_size(m.is_hardcore)), <u8 as Encodable>::spec_size(m.gamemode)), <i8 as Encodable>::spec_size(m.previous_gamemode)), <(VarInt, Vec<Identifier>) as Encodable>::spec_size(m.world_names)), <NbtTag as Encodable>::spec_size(m.dimension_codec)), <NbtTag as Encodable>::spec_size(m.dimension)), <Identifier as Encodable>::spec_size(m.world_name)), <i64 as Encodable>::spec_size(m.hashed_seed)), <VarInt as Encodable>::spec_size(m.max_players)), <VarInt as Encodable>::spec_size(m.view_distance)), <bool as Encodable>::spec_size(m.reduced_debug_info)), <bool as Encodable>::spec_encode(m.enable_respawn_screen), <bool as Encodable>::spec_size(m.enable_respawn_screen));
        lemma_then_size(then_encode(then_encode(then_encode(then_encode(then_encode(then_encode(then_encode(then_encode(then_encode(then_encode(then_encode(then_encode(<i32 as Encodable>::spec_encode(m.entity_id), <bool as Encodable>::spec_encode(m.is_hardcore)), <u8 as Encodable>::spec_encode(m.gamemode)), <i8 as Encodable>::spec_encode(m.previous_gamemode)), <(VarInt, Vec<Identifier>) as Encodable>::spec_encode(m.world_names)), <NbtTag as Encodable>::spec_encode(m.dimension_codec)), <NbtTag as Encodable>::spec_encode(m.dimension)), <Identifier as Encodable>::spec_encode(m.world_name)), <i64 as Encodable>::spec_encode(m.hashed_seed)), <VarInt as Encodable>::spec_encode(m.max_players)), <VarInt as Encodable>::spec_encode(m.view_distance)), <bool as Encodable>::spec_encode(m.reduced_debug_info)), <bool as Encodable>::spec_encode(m.enable_respawn_screen)), add_size_spec(add_size_spec(add_size_spec(add_size_spec(add_size_spec(add_size_spec(add_size_spec(add_size_spec(add_size_spec(add_size_spec(add_size_spec(add_size_spec(<i32 as Encodable>::spec_size(m.entity_id), <bool as Encodable>::spec_size(m.is_hardcore)), <u8 as Encodable>::spec_size(m.gamemode)), <i8 as Encodable>::spec_size(m.previous_gamemode)), <(VarInt, Vec<Identifier>) as Encodable>::spec_size(m.world_names)), <NbtTag as Encodable>::spec_size(m.dimension_codec)), <NbtTag as Encodable>::spec_size(m.dimension)), <Identifier as Encodable>::spec_size(m.world_name)), <i64 as Encodable>::spec_size(m.hashed_seed)), <VarInt as Encodable>::spec_size(m.max_players)), <VarInt as Encodable>::spec_size(m.view_distance)), <bool as Encodable>::spec_size(m.reduced_debug_info)), <bool as Encodable>::spec_size(m.enable_respawn_screen)), <bool as Encodable>::spec_encode(m.is_debug), <bool as Encodable>::spec_size(m.is_debug));
        lemma_then_size(then_encode(then_encode(then_encode(then_encode(then_encode(then_encode(then_encode(then_encode(then_encode(then_encode(then_encode(then_encode(then_encode(<i32 as Encodable>::spec_encode(m.entity_id), <bool as Encodable>::spec_encode(m.is_hardcore)), <u8 as Encodable>::spec_encode(m.gamemode)), <i8 as Encodable>::spec_encode(m.previous_gamemode)), <(VarInt, Vec<Identifier>) as Encodable>::spec_encode(m.world_names)), <NbtTag as Encodable>::spec_encode(m.dimension_codec)), <NbtTag as Encodable>::spec_encode(m.dimension)), <Identifier as Encodable>::spec_encode(m.world_name)), <i64 as Encodable>::spec_encode(m.hashed_seed)), <VarInt as Encodable>::spec_encode(m.max_players)), <VarInt as Encodable>::spec_encode(m.view_distance)), <bool as Encodable>::spec_encode(m.reduced_debug_info)), <bool as Encodable>::spec_encode(m.enable_respawn_screen)), <bool as Encodable>::spec_encode(m.is_debug)), add_size_spec(add_size_spec(add_size_spec(add_size_spec(add_size_spec(add_size_spec(add_size_spec(add_size_spec(add_size_spec(add_size_spec(add_size_spec(add_size_spec(add_size_spec(<i32 as Encodable>::spec_size(m.entity_id), <bool as Encodable>::spec_size(m.is_hardcore)), <u8 as Encodable>::spec_size(m.gamemode)), <i8 as Encodable>::spec_size(m.previous_gamemode)), <(VarInt, Vec<Identifier>) as Encodable>::spec_size(m.world_names)), <NbtTag as Encodable>::spec_size(m.dimension_codec)), <NbtTag as Encodable>::spec_size(m.dimension)), <Identifier as Encodable>::spec_size(m.world_name)), <i64 as Encodable>::spec_size(m.hashed_seed)), <VarInt as Encodable>::spec_size(m.max_players)), <VarInt as Encodable>::spec_size(m.view_distance)), <bool as Encodable>::spec_size(m.reduced_debug_info)), <bool as Encodable>::spec_size(m.enable_respawn_screen)), <bool as Encodable>::spec_size(m.is_debug)), <bool as Encodable>::spec_encode(m.is_flat), <bool as Encodable>::spec_size(m.is_flat));
    }

    #[verifier::spinoff_prover]
    #[verifier::rlimit(100)]
    fn encode(&self, out: &mut Vec<u8>) -> (r: Result<(), CodecError>) {
        let ghost o0 = out@;
        let start = out.len();
        let ghost e0 = <i32 as Encodable>::spec_encode(self.entity_id.deep_view())->Ok_0;
        let ghost e1 = <bool as Encodable>::spec_encode(self.is_hardcore.deep_view())->Ok_0;
        let ghost e2 = <u8 as Encodable>::spec_encode(self.gamemode.deep_view())->Ok_0;
        let ghost e3 = <i8 as Encodable>::spec_encode(self.previous_gamemode.deep_view())->Ok_0;
        let ghost e4 = <(VarInt, Vec<Identifier>) as Encodable>::spec_encode(self.world_names.deep_view())->Ok_0;
        let ghost e5 = <NbtTag as Encodable>::spec_encode(self.dimension_codec.deep_view())->Ok_0;
        let ghost e6 = <NbtTag as Encodable>::spec_encode(self.dimension.deep_view())->Ok_0;
        let ghost e7 = <Identifier as Encodable>::spec_encode(self.world_name.deep_view())->Ok_0;
        let ghost e8 = <i64 as Encodable>::spec_encode(self.hashed_seed.deep_view())->Ok_0;
        let ghost e9 = <VarInt as Encodable>::spec_encode(self.max_players.deep_view())->Ok_0;
        let ghost e10 = <VarInt as Encodable>::spec_encode(self.view_distance.deep_view())->Ok_0;
        let ghost e11 = <bool as Encodable>::spec_encode(self.reduced_debug_info.deep_view())->Ok_0;
        let ghost e12 = <bool as Encodable>::spec_encode(self.enable_respawn_screen.deep_view())->Ok_0;
        let ghost e13 = <bool as Encodable>::spec_encode(self.is_debug.deep_view())->Ok_0;
        let ghost e14 = <bool as Encodable>::spec_encode(self.is_flat.deep_view())->Ok_0;
        match self.entity_id.encode(out) {
            Ok(_) => {},
            Err(e) => return Err(e),
        }
        match self.is_hardcore.encode(out) {
            Ok(_) => {},
            Err(e) => {
                roll_back(out, Ghost(o0), Ghost(e0), start);
                return Err(e);
            },
        }
        proof {
            lemma_concat_assoc(o0, e0, e1);
        }
        match self.gamemode.encode(out) {
            Ok(_) => {},
            Err(e) => {
                roll_back(out, Ghost(o0), Ghost(e0 + e1), start);
                return Err(e);
            },
        }
        proof {
            lemma_concat_assoc(o0, e0 + e1, e2);
        }
        match self.previous_gamemode.encode(out) {
            Ok(_) => {},
            Err(e) => {
                roll_back(out, Ghost(o0), Ghost(e0 + e1 + e2), start);
                return Err(e);
            },
        }
        proof {
            lemma_concat_assoc(o0, e0 + e1 + e2, e3);
        }
        match self.world_names.encode(out) {
            Ok(_) => {},
            Err(e) => {
                roll_back(out, Ghost(o0), Ghost(e0 + e1 + e2 + e3), start);
                return Err(e);
            },
        }
        proof {
            lemma_concat_assoc(o0, e0 + e1 + e2 + e3, e4);
        }
        match self.dimension_codec.encode(out) {
            Ok(_) => {},
            Err(e) => {
                roll_back(out, Ghost(o0), Ghost(e0 + e1 + e2 + e3 + e4), start);
                return Err(e);
            },
        }
        proof {
            lemma_concat_assoc(o0, e0 + e1 + e2 + e3 + e4, e5);
        }
        match self.dimension.encode(out) {
            Ok(_) => {},
            Err(e) => {
                roll_back(out, Ghost(o0), Ghost(e0 + e1 + e2 + e3 + e4 + e5), start);
                return Err(e);
            },
        }
        proof {
            lemma_concat_assoc(o0, e0 + e1 + e2 + e3 + e4 + e5, e6);
        }
        match self.world_name.encode(out) {
            Ok(_) => {},
            Err(e) => {
                roll_back(out, Ghost(o0), Ghost(e0 + e1 + e2 + e3 + e4 + e5 + e6), start);
                return Err(e);
            },
        }
        proof {
            lemma_concat_assoc(o0, e0 + e1 + e2 + e3 + e4 + e5 + e6, e7);
        }
        match self.hashed_seed.encode(out) {
            Ok(_) => {},
            Err(e) => {
                roll_back(out, Ghost(o0), Ghost(e0 + e1 + e2 + e3 + e4 + e5 + e6 + e7), start);
                return Err(e);
            },
        }
        proof {
            lemma_concat_assoc(o0, e0 + e1 + e2 + e3 + e4 + e5 + e6 + e7, e8);
        }
        match self.max_players.encode(out) {
            Ok(_) => {},
            Err(e) => {
                roll_back(out, Ghost(o0), Ghost(e0 + e1 + e2 + e3 + e4 + e5 + e6 + e7 + e8), start);
                return Err(e);
            },
        }
        proof {
            lemma_concat_assoc(o0, e0 + e1 + e2 + e3 + e4 + e5 + e6 + e7 + e8, e9);
        }
        match self.view_distance.encode(out) {
            Ok(_) => {},
            Err(e) => {
                roll_back(out, Ghost(o0), Ghost(e0 + e1 + e2 + e3 + e4 + e5 + e6 + e7 + e8 + e9), start);
                return Err(e);
            },
        }
        proof {
            lemma_concat_assoc(o0, e0 + e1 + e2 + e3 + e4 + e5 + e6 + e7 + e8 + e9, e10);
        }
        match self.reduced_debug_info.encode(out) {
            Ok(_) => {},
            Err(e) => {
                roll_back(out, Ghost(o0), Ghost(e0 + e1 + e2 + e3 + e4 + e5 + e6 + e7 + e8 + e9 + e10), start);
                return Err(e);
            },
        }
        proof {
            lemma_concat_assoc(o0, e0 + e1 + e2 + e3 + e4 + e5 + e6 + e7 + e8 + e9 + e10, e11);
        }
        match self.enable_respawn_screen.encode(out) {
            Ok(_) => {},
            Err(e) => {
                roll_back(out, Ghost(o0), Ghost(e0 + e1 + e2 + e3 + e4 + e5 + e6 + e7 + e8 + e9 + e10 + e11), start);
                return Err(e);
            },
        }
        proof {
            lemma_concat_assoc(o0, e0 + e1 + e2 + e3 + e4 + e5 + e6 + e7 + e8 + e9 + e10 + e11, e12);
        }
        match self.is_debug.encode(out) {
            Ok(_) => {},
            Err(e) => {
                roll_back(out, Ghost(o0), Ghost(e0 + e1 + e2 + e3 + e4 + e5 + e6 + e7 + e8 + e9 + e10 + e11 + e12), start);
                return Err(e);
            },
        }
        proof {
            lemma_concat_assoc(o0, e0 + e1 + e2 + e3 + e4 + e5 + e6 + e7 + e8 + e9 + e10 + e11 + e12, e13);
        }
        match self.is_flat.encode(out) {
            Ok(_) => {},
            Err(e) => {
                roll_back(out, Ghost(o0), Ghost(e0 + e1 + e2 + e3 + e4 + e5 + e6 + e7 + e8 + e9 + e10 + e11 + e12 + e13), start);
                return Err(e);
            },
        }
        proof {
            lemma_concat_assoc(o0, e0 + e1 + e2 + e3 + e4 + e5 + e6 + e7 + e8 + e9 + e10 + e11 + e12 + e13, e14);
        }
        Ok(())
    }

    #[verifier::spinoff_prover]
    #[verifier::rlimit(100)]
    fn size(&self) -> (r: Result<VarInt, CodecError>) {
        proof {
            <i32 as Encodable>::lemma_size_faithful(self.entity_id.deep_view());
            <bool as Encodable>::lemma_size_faithful(self.is_hardcore.deep_view());
            <u8 as Encodable>::lemma_size_faithful(self.gamemode.deep_view());
            <i8 as Encodable>::lemma_size_faithful(self.previous_gamemode.deep_view());
            <(VarInt, Vec<Identifier>) as Encodable>::lemma_size_faithful(self.world_names.deep_view());
            <NbtTag as Encodable>::lemma_size_faithful(self.dimension_codec.deep_view());
            <NbtTag as Encodable>::lemma_size_faithful(self.dimension.deep_view());
            <Identifier as Encodable>::lemma_size_faithful(self.world_name.deep_view());
            <i64 as Encodable>::lemma_size_faithful(self.hashed_seed.deep_view());
            <VarInt as Encodable>::lemma_size_faithful(self.max_players.deep_view());
            <VarInt as Encodable>::lemma_size_faithful(self.view_distance.deep_view());
            <bool as Encodable>::lemma_size_faithful(self.reduced_debug_info.deep_view());
            <bool as Encodable>::lemma_size_faithful(self.enable_respawn_screen.deep_view());
            <bool as Encodable>::lemma_size_faithful(self.is_debug.deep_view());
            <bool as Encodable>::lemma_size_faithful(self.is_flat.deep_view());
        }
        let ghost w0 = <i32 as Encodable>::spec_size(self.entity_id.deep_view());
        let ghost w1 = <bool as Encodable>::spec_size(self.is_hardcore.deep_view());
        let ghost w2 = <u8 as Encodable>::spec_size(self.gamemode.deep_view());
        let ghost w3 = <i8 as Encodable>::spec_size(self.previous_gamemode.deep_view());
        let ghost w4 = <(VarInt, Vec<Identifier>) as Encodable>::spec_size(self.world_names.deep_view());
        let ghost w5 = <NbtTag as Encodable>::spec_size(self.dimension_codec.deep_view());
        let ghost w6 = <NbtTag as Encodable>::spec_size(self.dimension.deep_view());
        let ghost w7 = <Identifier as Encodable>::spec_size(self.world_name.deep_view());
        let ghost w8 = <i64 as Encodable>::spec_size(self.hashed_seed.deep_view());
        let ghost w9 = <VarInt as Encodable>::spec_size(self.max_players.deep_view());
        let ghost w10 = <VarInt as Encodable>::spec_size(self.view_distance.deep_view());
        let ghost w11 = <bool as Encodable>::spec_size(self.reduced_debug_info.deep_view());
        let ghost w12 = <bool as Encodable>::spec_size(self.enable_respawn_screen.deep_view());
        let ghost w13 = <bool as Encodable>::spec_size(self.is_debug.deep_view());
        let ghost w14 = <bool as Encodable>::spec_size(self.is_flat.deep_view());
        let t0 = self.entity_id.size();
        let t1 = add_size(t0, Ghost(w0), self.is_hardcore.size(), Ghost(w1));
        let ghost c1 = add_size_spec(w0, w1);
        let t2 = add_size(t1, Ghost(c1), self.gamemode.size(), Ghost(w2));
        let ghost c2 = add_size_spec(c1, w2);
        let t3 = add_size(t2, Ghost(c2), self.previous_gamemode.size(), Ghost(w3));
        let ghost c3 = add_size_spec(c2, w3);
        let t4 = add_size(t3, Ghost(c3), self.world_names.size(), Ghost(w4));
        let ghost c4 = add_size_spec(c3, w4);
        let t5 = add_size(t4, Ghost(c4), self.dimension_codec.size(), Ghost(w5));
        let ghost c5 = add_size_spec(c4, w5);
        let t6 = add_size(t5, Ghost(c5), self.dimension.size(), Ghost(w6));
        let ghost c6 = add_size_spec(c5, w6);
        let t7 = add_size(t6, Ghost(c6), self.world_name.size(), Ghost(w7));
        let ghost c7 = add_size_spec(c6, w7);
        let t8 = add_size(t7, Ghost(c7), self.hashed_seed.size(), Ghost(w8));
        let ghost c8 = add_size_spec(c7, w8);
        let t9 = add_size(t8, Ghost(c8), self.max_players.size(), Ghost(w9));
        let ghost c9 = add_size_spec(c8, w9);
        let t10 = add_size(t9, Ghost(c9), self.view_distance.size(), Ghost(w10));
        let ghost c10 = add_size_spec(c9, w10);
        let t11 = add_size(t10, Ghost(c10), self.reduced_debug_info.size(), Ghost(w11));
        let ghost c11 = add_size_spec(c10, w11);
        let t12 = add_size(t11, Ghost(c11), self.enable_respawn_screen.size(), Ghost(w12));
        let ghost c12 = add_size_spec(c11, w12);
        let t13 = add_size(t12, Ghost(c12), self.is_debug.size(), Ghost(w13));
        let ghost c13 = add_size_spec(c12, w13);
        let t14 = add_size(t13, Ghost(c13), self.is_flat.size(), Ghost(w14));
        t14
    }
}

impl Decodable for JoinGame {
    open spec fn spec_decode(bytes: Seq<u8>) -> Result<(JoinGameView, nat), CodecError> {
        match decode_at::<i32>(bytes, 0) {
            Err(e) => Err(e),
            Ok((entity_id, n0)) => match decode_at::<bool>(bytes, n0) {
                Err(e) => Err(e),
                Ok((is_hardcore, n1)) => match decode_at::<u8>(bytes, n0 + n1) {
                    Err(e) => Err(e),
                    Ok((gamemode, n2)) => match decode_at::<i8>(bytes, n0 + n1 + n2) {
                        Err(e) => Err(e),
                        Ok((previous_gamemode, n3)) => match decode_at::<(VarInt, Vec<Identifier>)>(bytes, n0 + n1 + n2 + n3) {
                            Err(e) => Err(e),
                            Ok((world_names, n4)) => match decode_at::<NbtTag>(bytes, n0 + n1 + n2 + n3 + n4) {
                                Err(e) => Err(e),
                                Ok((dimension_codec, n5)) => match decode_at::<NbtTag>(bytes, n0 + n1 + n2 + n3 + n4 + n5) {
                                    Err(e) => Err(e),
                                    Ok((dimension, n6)) => match decode_at::<Identifier>(bytes, n0 + n1 + n2 + n3 + n4 + n5 + n6) {
                                        Err(e) => Err(e),
                                        Ok((world_name, n7)) => match decode_at::<i64>(bytes, n0 + n1 + n2 + n3 + n4 + n5 + n6 + n7) {
                                            Err(e) => Err(e),
                                            Ok((hashed_seed, n8)) => match decode_at::<VarInt>(bytes, n0 + n1 + n2 + n3 + n4 + n5 + n6 + n7 + n8) {
                                                Err(e) => Err(e),
                                                Ok((max_players, n9)) => match decode_at::<VarInt>(bytes, n0 + n1 + n2 + n3 + n4 + n5 + n6 + n7 + n8 + n9) {
                                                    Err(e) => Err(e),
                                                    Ok((view_distance, n10)) => match decode_at::<bool>(bytes, n0 + n1 + n2 + n3 + n4 + n5 + n6 + n7 + n8 + n9 + n10) {
                                                        Err(e) => Err(e),
                                                        Ok((reduced_debug_info, n11)) => match decode_at::<bool>(bytes, n0 + n1 + n2 + n3 + n4 + n5 + n6 + n7 + n8 + n9 + n10 + n11) {
                                                            Err(e) => Err(e),
                                                            Ok((enable_respawn_screen, n12)) => match decode_at::<bool>(bytes, n0 + n1 + n2 + n3 + n4 + n5 + n6 + n7 + n8 + n9 + n10 + n11 + n12) {
                                                                Err(e) => Err(e),
                                                                Ok((is_debug, n13)) => match decode_at::<bool>(bytes, n0 + n1 + n2 + n3 + n4 + n5 + n6 + n7 + n8 + n9 + n10 + n11 + n12 + n13) {
                                                                    Err(e) => Err(e),
                                                                    Ok((is_flat, n14)) => Ok((JoinGameView { entity_id, is_hardcore, gamemode, previous_gamemode, world_names, dimension_codec, dimension, world_name, hashed_seed, max_players, view_distance, reduced_debug_info, enable_respawn_screen, is_debug, is_flat }, n0 + n1 + n2 + n3 + n4 + n5 + n6 + n7 + n8 + n9 + n10 + n11 + n12 + n13 + n14)),
                                                                },
                                                            },
                                                        },
                                                    },
                                                },
                                            },
                                        },
                                    },
                                },
                            },
                        },
                    },
                },
            },
        }
    }

    proof fn lemma_decode_len(bytes: Seq<u8>) {
        lemma_decode_at::<i32>(bytes, 0);
        <i32 as Decodable>::lemma_decode_len(bytes.subrange((0) as int, bytes.len() as int));
        if let Ok((entity_id, n0)) = decode_at::<i32>(bytes, 0) {
            lemma_decode_at::<bool>(bytes, n0);
            <bool as Decodable>::lemma_decode_len(bytes.subrange((n0) as int, bytes.len() as int));
            if let Ok((is_hardcore, n1)) = decode_at::<bool>(bytes, n0) {
                lemma_decode_at::<u8>(bytes, n0 + n1);
                <u8 as Decodable>::lemma_decode_len(bytes.subrange((n0 + n1) as int, bytes.len() as int));
                if let Ok((gamemode, n2)) = decode_at::<u8>(bytes, n0 + n1) {
                    lemma_decode_at::<i8>(bytes, n0 + n1 + n2);
                    <i8 as Decodable>::lemma_decode_len(bytes.subrange((n0 + n1 + n2) as int, bytes.len() as int));
                    if let Ok((previous_gamemode, n3)) = decode_at::<i8>(bytes, n0 + n1 + n2) {
                        lemma_decode_at::<(VarInt, Vec<Identifier>)>(bytes, n0 + n1 + n2 + n3);
                        <(VarInt, Vec<Identifier>) as Decodable>::lemma_decode_len(bytes.subrange((n0 + n1 + n2 + n3) as int, bytes.len() as int));
                        if let Ok((world_names, n4)) = decode_at::<(VarInt, Vec<Identifier>)>(bytes, n0 + n1 + n2 + n3) {
                            lemma_decode_at::<NbtTag>(bytes, n0 + n1 + n2 + n3 + n4);
                            <NbtTag as Decodable>::lemma_decode_len(bytes.subrange((n0 + n1 + n2 + n3 + n4) as int, bytes.len() as int));
                            if let Ok((dimension_codec, n5)) = decode_at::<NbtTag>(bytes, n0 + n1 + n2 + n3 + n4) {
                                lemma_decode_at::<NbtTag>(bytes, n0 + n1 + n2 + n3 + n4 + n5);
                                <NbtTag as Decodable>::lemma_decode_len(bytes.subrange((n0 + n1 + n2 + n3 + n4 + n5) as int, bytes.len() as int));
                                if let Ok((dimension, n6)) = decode_at::<NbtTag>(bytes, n0 + n1 + n2 + n3 + n4 + n5) {
                                    lemma_decode_at::<Identifier>(bytes, n0 + n1 + n2 + n3 + n4 + n5 + n6);
                                    <Identifier as Decodable>::lemma_decode_len(bytes.subrange((n0 + n1 + n2 + n3 + n4 + n5 + n6) as int, bytes.len() as int));
                                    if let Ok((world_name, n7)) = decode_at::<Identifier>(bytes, n0 + n1 + n2 + n3 + n4 + n5 + n6) {
                                        lemma_decode_at::<i64>(bytes, n0 + n1 + n2 + n3 + n4 + n5 + n6 + n7);
                                        <i64 as Decodable>::lemma_decode_len(bytes.subrange((n0 + n1 + n2 + n3 + n4 + n5 + n6 + n7) as int, bytes.len() as int));
                                        if let Ok((hashed_seed, n8)) = decode_at::<i64>(bytes, n0 + n1 + n2 + n3 + n4 + n5 + n6 + n7) {
                                            lemma_decode_at::<VarInt>(bytes, n0 + n1 + n2 + n3 + n4 + n5 + n6 + n7 + n8);
                                            <VarInt as Decodable>::lemma_decode_len(bytes.subrange((n0 + n1 + n2 + n3 + n4 + n5 + n6 + n7 + n8) as int, bytes.len() as int));
                                            if let Ok((max_players, n9)) = decode_at::<VarInt>(bytes, n0 + n1 + n2 + n3 + n4 + n5 + n6 + n7 + n8) {
                                                lemma_decode_at::<VarInt>(bytes, n0 + n1 + n2 + n3 + n4 + n5 + n6 + n7 + n8 + n9);
                                                <VarInt as Decodable>::lemma_decode_len(bytes.subrange((n0 + n1 + n2 + n3 + n4 + n5 + n6 + n7 + n8 + n9) as int, bytes.len() as int));
                                                if let Ok((view_distance, n10)) = decode_at::<VarInt>(bytes, n0 + n1 + n2 + n3 + n4 + n5 + n6 + n7 + n8 + n9) {
                                                    lemma_decode_at::<bool>(bytes, n0 + n1 + n2 + n3 + n4 + n5 + n6 + n7 + n8 + n9 + n10);
                                                    <bool as Decodable>::lemma_decode_len(bytes.subrange((n0 + n1 + n2 + n3 + n4 + n5 + n6 + n7 + n8 + n9 + n10) as int, bytes.len() as int));
                                                    if let Ok((reduced_debug_info, n11)) = decode_at::<bool>(bytes, n0 + n1 + n2 + n3 + n4 + n5 + n6 + n7 + n8 + n9 + n10) {
                                                        lemma_decode_at::<bool>(bytes, n0 + n1 + n2 + n3 + n4 + n5 + n6 + n7 + n8 + n9 + n10 + n11);
                                                        <bool as Decodable>::lemma_decode_len(bytes.subrange((n0 + n1 + n2 + n3 + n4 + n5 + n6 + n7 + n8 + n9 + n10 + n11) as int, bytes.len() as int));
                                                        if let Ok((enable_respawn_screen, n12)) = decode_at::<bool>(bytes, n0 + n1 + n2 + n3 + n4 + n5 + n6 + n7 + n8 + n9 + n10 + n11) {
                                                            lemma_decode_at::<bool>(bytes, n0 + n1 + n2 + n3 + n4 + n5 + n6 + n7 + n8 + n9 + n10 + n11 + n12);
                                                            <bool as Decodable>::lemma_decode_len(bytes.subrange((n0 + n1 + n2 + n3 + n4 + n5 + n6 + n7 + n8 + n9 + n10 + n11 + n12) as int, bytes.len() as int));
                                                            if let Ok((is_debug, n13)) = decode_at::<bool>(bytes, n0 + n1 + n2 + n3 + n4 + n5 + n6 + n7 + n8 + n9 + n10 + n11 + n12) {
                                                                lemma_decode_at::<bool>(bytes, n0 + n1 + n2 + n3 + n4 + n5 + n6 + n7 + n8 + n9 + n10 + n11 + n12 + n13);
                                                                <bool as Decodable>::lemma_decode_len(bytes.subrange((n0 + n1 + n2 + n3 + n4 + n5 + n6 + n7 + n8 + n9 + n10 + n11 + n12 + n13) as int, bytes.len() as int));
                                                            }
                                                        }
                                                    }
                                                }
                                            }
                                        }
                                    }
                                }
                            }
                        }
                    }
                }
            }
        }
    }

    #[verifier::spinoff_prover]
    #[verifier::rlimit(100)]
    fn decode(reader: &mut ByteReader) -> (r: Result<JoinGame, CodecError>) {
        let ghost r0 = *reader;
        let ghost rest0 = reader.rest();
        proof {
            ByteReader::lemma_rest_since(r0, *reader);
            lemma_decode_at::<i32>(rest0, (reader.pos() - r0.pos()) as nat);
        }
        let entity_id = match <i32>::decode(reader) {
            Ok(v) => v,
            Err(e) => return Err(e),
        };
        proof {
            ByteReader::lemma_rest_since(r0, *reader);
            lemma_decode_at::<bool>(rest0, (reader.pos() - r0.pos()) as nat);
        }
        let is_hardcore = match <bool>::decode(reader) {
            Ok(v) => v,
            Err(e) => return Err(e),
        };
        proof {
            ByteReader::lemma_rest_since(r0, *reader);
            lemma_decode_at::<u8>(rest0, (reader.pos() - r0.pos()) as nat);
        }
        let gamemode = match <u8>::decode(reader) {
            Ok(v) => v,
            Err(e) => return Err(e),
        };
        proof {
            ByteReader::lemma_rest_since(r0, *reader);
            lemma_decode_at::<i8>(rest0, (reader.pos() - r0.pos()) as nat);
        }
        let previous_gamemode = match <i8>::decode(reader) {
            Ok(v) => v,
            Err(e) => return Err(e),
        };
        proof {
            ByteReader::lemma_rest_since(r0, *reader);
            lemma_decode_at::<(VarInt, Vec<Identifier>)>(rest0, (reader.pos() - r0.pos()) as nat);
        }
        let world_names = match <(VarInt, Vec<Identifier>)>::decode(reader) {
            Ok(v) => v,
            Err(e) => return Err(e),
        };
        proof {
            ByteReader::lemma_rest_since(r0, *reader);
            lemma_decode_at::<NbtTag>(rest0, (reader.pos() - r0.pos()) as nat);
        }
        let dimension_codec = match <NbtTag>::decode(reader) {
            Ok(v) => v,
            Err(e) => return Err(e),
        };
        proof {
            ByteReader::lemma_rest_since(r0, *reader);
            lemma_decode_at::<NbtTag>(rest0, (reader.pos() - r0.pos()) as nat);
        }
        let dimension = match <NbtTag>::decode(reader) {
            Ok(v) => v,
            Err(e) => return Err(e),
        };
        proof {
            ByteReader::lemma_rest_since(r0, *reader);
            lemma_decode_at::<Identifier>(rest0, (reader.pos() - r0.pos()) as nat);
        }
        let world_name = match <Identifier>::decode(reader) {
            Ok(v) => v,
            Err(e) => return Err(e),
        };
        proof {
            ByteReader::lemma_rest_since(r0, *reader);
            lemma_decode_at::<i64>(rest0, (reader.pos() - r0.pos()) as nat);
        }
        let hashed_seed = match <i64>::decode(reader) {
            Ok(v) => v,
            Err(e) => return Err(e),
        };
        proof {
            ByteReader::lemma_rest_since(r0, *reader);
            lemma_decode_at::<VarInt>(rest0, (reader.pos() - r0.pos()) as nat);
        }
        let max_players = match <VarInt>::decode(reader) {
            Ok(v) => v,
            Err(e) => return Err(e),
        };
        proof {
            ByteReader::lemma_rest_since(r0, *reader);
            lemma_decode_at::<VarInt>(rest0, (reader.pos() - r0.pos()) as nat);
        }
        let view_distance = match <VarInt>::decode(reader) {
            Ok(v) => v,
            Err(e) => return Err(e),
        };
        proof {
            ByteReader::lemma_rest_since(r0, *reader);
            lemma_decode_at::<bool>(rest0, (reader.pos() - r0.pos()) as nat);
        }
        let reduced_debug_info = match <bool>::decode(reader) {
            Ok(v) => v,
            Err(e) => return Err(e),
        };
        proof {
            ByteReader::lemma_rest_since(r0, *reader);
            lemma_decode_at::<bool>(rest0, (reader.pos() - r0.pos()) as nat);
        }
        let enable_respawn_screen = match <bool>::decode(reader) {
            Ok(v) => v,
            Err(e) => return Err(e),
        };
        proof {
            ByteReader::lemma_rest_since(r0, *reader);
            lemma_decode_at::<bool>(rest0, (reader.pos() - r0.pos()) as nat);
        }
        let is_debug = match <bool>::decode(reader) {
            Ok(v) => v,
            Err(e) => return Err(e),
        };
        proof {
            ByteReader::lemma_rest_since(r0, *reader);
            lemma_decode_at::<bool>(rest0, (reader.pos() - r0.pos()) as nat);
        }
        let is_flat = match <bool>::decode(reader) {
            Ok(v) => v,
            Err(e) => return Err(e),
        };
        Ok(JoinGame { entity_id, is_hardcore, gamemode, previous_gamemode, world_names, dimension_codec, dimension, world_name, hashed_seed, max_players, view_distance, reduced_debug_info, enable_respawn_screen, is_debug, is_flat })
    }
}

impl Codec for JoinGame {
    open spec fn valid(m: JoinGameView) -> bool {
        &&& <i32 as Codec>::valid(m.entity_id)
        &&& <i32 as Codec>::delimited()
        &&& <bool as Codec>::valid(m.is_hardcore)
        &&& <bool as Codec>::delimited()
        &&& <u8 as Codec>::valid(m.gamemode)
        &&& <u8 as Codec>::delimited()
        &&& <i8 as Codec>::valid(m.previous_gamemode)
        &&& <i8 as Codec>::delimited()
        &&& <(VarInt, Vec<Identifier>) as Codec>::valid(m.world_names)
        &&& <(VarInt, Vec<Identifier>) as Codec>::delimited()
        &&& <NbtTag as Codec>::valid(m.dimension_codec)
        &&& <NbtTag as Codec>::delimited()
        &&& <NbtTag as Codec>::valid(m.dimension)
        &&& <NbtTag as Codec>::delimited()
        &&& <Identifier as Codec>::valid(m.world_name)
        &&& <Identifier as Codec>::delimited()
        &&& <i64 as Codec>::valid(m.hashed_seed)
        &&& <i64 as Codec>::delimited()
        &&& <VarInt as Codec>::valid(m.max_players)
        &&& <VarInt as Codec>::delimited()
        &&& <VarInt as Codec>::valid(m.view_distance)
        &&& <VarInt as Codec>::delimited()
        &&& <bool as Codec>::valid(m.reduced_debug_info)
        &&& <bool as Codec>::delimited()
        &&& <bool as Codec>::valid(m.enable_respawn_screen)
        &&& <bool as Codec>::delimited()
        &&& <bool as Codec>::valid(m.is_debug)
        &&& <bool as Codec>::delimited()
        &&& <bool as Codec>::valid(m.is_flat)
    }

    open spec fn delimited() -> bool {
        <bool as Codec>::delimited()
    }

    #[verifier::spinoff_prover]
    #[verifier::rlimit(100)]
    proof fn lemma_round_trip(m: JoinGameView, rest: Seq<u8>) {
        let e0 = <i32 as Encodable>::spec_encode(m.entity_id)->Ok_0;
        let e1 = <bool as Encodable>::spec_encode(m.is_hardcore)->Ok_0;
        let e2 = <u8 as Encodable>::spec_encode(m.gamemode)->Ok_0;
        let e3 = <i8 as Encodable>::spec_encode(m.previous_gamemode)->Ok_0;
        let e4 = <(VarInt, Vec<Identifier>) as Encodable>::spec_encode(m.world_names)->Ok_0;
        let e5 = <NbtTag as Encodable>::spec_encode(m.dimension_codec)->Ok_0;
        let e6 = <NbtTag as Encodable>::spec_encode(m.dimension)->Ok_0;
        let e7 = <Identifier as Encodable>::spec_encode(m.world_name)->Ok_0;
        let e8 = <i64 as Encodable>::spec_encode(m.hashed_seed)->Ok_0;
        let e9 = <VarInt as Encodable>::spec_encode(m.max_players)->Ok_0;
        let e10 = <VarInt as Encodable>::spec_encode(m.view_distance)->Ok_0;
        let e11 = <bool as Encodable>::spec_encode(m.reduced_debug_info)->Ok_0;
        let e12 = <bool as Encodable>::spec_encode(m.enable_respawn_screen)->Ok_0;
        let e13 = <bool as Encodable>::spec_encode(m.is_debug)->Ok_0;
        let e14 = <bool as Encodable>::spec_encode(m.is_flat)->Ok_0;
        let t14 = e14 + rest;
        let t13 = e13 + t14;
        let t12 = e12 + t13;
        let t11 = e11 + t12;
        let t10 = e10 + t11;
        let t9 = e9 + t10;
        let t8 = e8 + t9;
        let t7 = e7 + t8;
        let t6 = e6 + t7;
        let t5 = e5 + t6;
        let t4 = e4 + t5;
        let t3 = e3 + t4;
        let t2 = e2 + t3;
        let t1 = e1 + t2;
        let t0 = e0 + t1;
        assert(decode_at::<i32>(t0, (0) as nat) == Ok::<(<i32 as DeepView>::V, nat), CodecError>((m.entity_id, e0.len()))
            && <i32 as Encodable>::spec_encode(m.entity_id) == Ok::<Seq<u8>, CodecError>(e0)
            && decode_at::<bool>(t0, (e0.len()) as nat) == Ok::<(<bool as DeepView>::V, nat), CodecError>((m.is_hardcore, e1.len()))
            && <bool as Encodable>::spec_encode(m.is_hardcore) == Ok::<Seq<u8>, CodecError>(e1)
            && decode_at::<u8>(t0, (e0.len() + e1.len()) as nat) == Ok::<(<u8 as DeepView>::V, nat), CodecError>((m.gamemode, e2.len()))
            && <u8 as Encodable>::spec_encode(m.gamemode) == Ok::<Seq<u8>, CodecError>(e2)
            && decode_at::<i8>(t0, (e0.len() + e1.len() + e2.len()) as nat) == Ok::<(<i8 as DeepView>::V, nat), CodecError>((m.previous_gamemode, e3.len()))
            && <i8 as Encodable>::spec_encode(m.previous_gamemode) == Ok::<Seq<u8>, CodecError>(e3)
            && decode_at::<(VarInt, Vec<Identifier>)>(t0, (e0.len() + e1.len() + e2.len() + e3.len()) as nat) == Ok::<(<(VarInt, Vec<Identifier>) as DeepView>::V, nat), CodecError>((m.world_names, e4.len()))
            && <(VarInt, Vec<Identifier>) as Encodable>::spec_encode(m.world_names) == Ok::<Seq<u8>, CodecError>(e4)
            && decode_at::<NbtTag>(t0, (e0.len() + e1.len() + e2.len() + e3.len() + e4.len()) as nat) == Ok::<(<NbtTag as DeepView>::V, nat), CodecError>((m.dimension_codec, e5.len()))
            && <NbtTag as Encodable>::spec_encode(m.dimension_codec) == Ok::<Seq<u8>, CodecError>(e5)
            && decode_at::<NbtTag>(t0, (e0.len() + e1.len() + e2.len() + e3.len() + e4.len() + e5.len()) as nat) == Ok::<(<NbtTag as DeepView>::V, nat), CodecError>((m.dimension, e6.len()))
            && <NbtTag as Encodable>::spec_encode(m.dimension) == Ok::<Seq<u8>, CodecError>(e6)
            && decode_at::<Identifier>(t0, (e0.len() + e1.len() + e2.len() + e3.len() + e4.len() + e5.len() + e6.len()) as nat) == Ok::<(<Identifier as DeepView>::V, nat), CodecError>((m.world_name, e7.len()))
            && <Identifier as Encodable>::spec_encode(m.world_name) == Ok::<Seq<u8>, CodecError>(e7)
            && decode_at::<i64>(t0, (e0.len() + e1.len() + e2.len() + e3.len() + e4.len() + e5.len() + e6.len() + e7.len()) as nat) == Ok::<(<i64 as DeepView>::V, nat), CodecError>((m.hashed_seed, e8.len()))
            && <i64 as Encodable>::spec_encode(m.hashed_seed) == Ok::<Seq<u8>, CodecError>(e8)
            && decode_at::<VarInt>(t0, (e0.len() + e1.len() + e2.len() + e3.len() + e4.len() + e5.len() + e6.len() + e7.len() + e8.len()) as nat) == Ok::<(<VarInt as DeepView>::V, nat), CodecError>((m.max_players, e9.len()))
            && <VarInt as Encodable>::spec_encode(m.max_players) == Ok::<Seq<u8>, CodecError>(e9)
            && decode_at::<VarInt>(t0, (e0.len() + e1.len() + e2.len() + e3.len() + e4.len() + e5.len() + e6.len() + e7.len() + e8.len() + e9.len()) as nat) == Ok::<(<VarInt as DeepView>::V, nat), CodecError>((m.view_distance, e10.len()))
            && <VarInt as Encodable>::spec_encode(m.view_distance) == Ok::<Seq<u8>, CodecError>(e10)
            && decode_at::<bool>(t0, (e0.len() + e1.len() + e2.len() + e3.len() + e4.len() + e5.len() + e6.len() + e7.len() + e8.len() + e9.len() + e10.len()) as nat) == Ok::<(<bool as DeepView>::V, nat), CodecError>((m.reduced_debug_info, e11.len()))
            && <bool as Encodable>::spec_encode(m.reduced_debug_info) == Ok::<Seq<u8>, CodecError>(e11)
            && decode_at::<bool>(t0, (e0.len() + e1.len() + e2.len() + e3.len() + e4.len() + e5.len() + e6.len() + e7.len() + e8.len() + e9.len() + e10.len() + e11.len()) as nat) == Ok::<(<bool as DeepView>::V, nat), CodecError>((m.enable_respawn_screen, e12.len()))
            && <bool as Encodable>::spec_encode(m.enable_respawn_screen) == Ok::<Seq<u8>, CodecError>(e12)
            && decode_at::<bool>(t0, (e0.len() + e1.len() + e2.len() + e3.len() + e4.len() + e5.len() + e6.len() + e7.len() + e8.len() + e9.len() + e10.len() + e11.len() + e12.len()) as nat) == Ok::<(<bool as DeepView>::V, nat), CodecError>((m.is_debug, e13.len()))
            && <bool as Encodable>::spec_encode(m.is_debug) == Ok::<Seq<u8>, CodecError>(e13)
            && decode_at::<bool>(t0, (e0.len() + e1.len() + e2.len() + e3.len() + e4.len() + e5.len() + e6.len() + e7.len() + e8.len() + e9.len() + e10.len() + e11.len() + e12.len() + e13.len()) as nat) == Ok::<(<bool as DeepView>::V, nat), CodecError>((m.is_flat, e14.len()))
            && <bool as Encodable>::spec_encode(m.is_flat) == Ok::<Seq<u8>, CodecError>(e14)) by {
            lemma_subrange_all(t0);
            lemma_field_round_trip::<i32>(m.entity_id, t0, (0) as nat, t1);
            lemma_field_round_trip::<bool>(m.is_hardcore, t0, (e0.len()) as nat, t2);
            lemma_field_round_trip::<u8>(m.gamemode, t0, (e0.len() + e1.len()) as nat, t3);
            lemma_field_round_trip::<i8>(m.previous_gamemode, t0, (e0.len() + e1.len() + e2.len()) as nat, t4);
            lemma_field_round_trip::<(VarInt, Vec<Identifier>)>(m.world_names, t0, (e0.len() + e1.len() + e2.len() + e3.len()) as nat, t5);
            lemma_field_round_trip::<NbtTag>(m.dimension_codec, t0, (e0.len() + e1.len() + e2.len() + e3.len() + e4.len()) as nat, t6);
            lemma_field_round_trip::<NbtTag>(m.dimension, t0, (e0.len() + e1.len() + e2.len() + e3.len() + e4.len() + e5.len()) as nat, t7);
            lemma_field_round_trip::<Identifier>(m.world_name, t0, (e0.len() + e1.len() + e2.len() + e3.len() + e4.len() + e5.len() + e6.len()) as nat, t8);
            lemma_field_round_trip::<i64>(m.hashed_seed, t0, (e0.len() + e1.len() + e2.len() + e3.len() + e4.len() + e5.len() + e6.len() + e7.len()) as nat, t9);
            lemma_field_round_trip::<VarInt>(m.max_players, t0, (e0.len() + e1.len() + e2.len() + e3.len() + e4.len() + e5.len() + e6.len() + e7.len() + e8.len()) as nat, t10);
            lemma_field_round_trip::<VarInt>(m.view_distance, t0, (e0.len() + e1.len() + e2.len() + e3.len() + e4.len() + e5.len() + e6.len() + e7.len() + e8.len() + e9.len()) as nat, t11);
            lemma_field_round_trip::<bool>(m.reduced_debug_info, t0, (e0.len() + e1.len() + e2.len() + e3.len() + e4.len() + e5.len() + e6.len() + e7.len() + e8.len() + e9.len() + e10.len()) as nat, t12);
            lemma_field_round_trip::<bool>(m.enable_respawn_screen, t0, (e0.len() + e1.len() + e2.len() + e3.len() + e4.len() + e5.len() + e6.len() + e7.len() + e8.len() + e9.len() + e10.len() + e11.len()) as nat, t13);
            lemma_field_round_trip::<bool>(m.is_debug, t0, (e0.len() + e1.len() + e2.len() + e3.len() + e4.len() + e5.len() + e6.len() + e7.len() + e8.len() + e9.len() + e10.len() + e11.len() + e12.len()) as nat, t14);
            lemma_field_round_trip::<bool>(m.is_flat, t0, (e0.len() + e1.len() + e2.len() + e3.len() + e4.len() + e5.len() + e6.len() + e7.len() + e8.len() + e9.len() + e10.len() + e11.len() + e12.len() + e13.len()) as nat, rest);
        }
        assert(e0 + e1 + e2 + e3 + e4 + e5 + e6 + e7 + e8 + e9 + e10 + e11 + e12 + e13 + e14 + rest == t0) by {
            lemma_concat_assoc(e0, e1, t2);
            lemma_concat_assoc(e0 + e1, e2, t3);
            lemma_concat_assoc(e0 + e1 + e2, e3, t4);
            lemma_concat_assoc(e0 + e1 + e2 + e3, e4, t5);
            lemma_concat_assoc(e0 + e1 + e2 + e3 + e4, e5, t6);
            lemma_concat_assoc(e0 + e1 + e2 + e3 + e4 + e5, e6, t7);
            lemma_concat_assoc(e0 + e1 + e2 + e3 + e4 + e5 + e6, e7, t8);
            lemma_concat_assoc(e0 + e1 + e2 + e3 + e4 + e5 + e6 + e7, e8, t9);
            lemma_concat_assoc(e0 + e1 + e2 + e3 + e4 + e5 + e6 + e7 + e8, e9, t10);
            lemma_concat_assoc(e0 + e1 + e2 + e3 + e4 + e5 + e6 + e7 + e8 + e9, e10, t11);
            lemma_concat_assoc(e0 + e1 + e2 + e3 + e4 + e5 + e6 + e7 + e8 + e9 + e10, e11, t12);
            lemma_concat_assoc(e0 + e1 + e2 + e3 + e4 + e5 + e6 + e7 + e8 + e9 + e10 + e11, e12, t13);
            lemma_concat_assoc(e0 + e1 + e2 + e3 + e4 + e5 + e6 + e7 + e8 + e9 + e10 + e11 + e12, e13, t14);
            lemma_concat_assoc(e0 + e1 + e2 + e3 + e4 + e5 + e6 + e7 + e8 + e9 + e10 + e11 + e12 + e13, e14, rest);
        }
        assert(Self::spec_encode(m) == Ok::<Seq<u8>, CodecError>(e0 + e1 + e2 + e3 + e4 + e5 + e6 + e7 + e8 + e9 + e10 + e11 + e12 + e13 + e14));
    }
}
/// The client-bound play message: entity position.
pub struct EntityPosition {
    pub entity_id: VarInt,
    pub delta_x: i16,
    pub delta_y: i16,
    pub delta_z: i16,
    pub on_ground: bool,
}

/// The model of a `EntityPosition`: each field by its model.
pub struct EntityPositionView {
    pub entity_id: i32,
    pub delta_x: i16,
    pub delta_y: i16,
    pub delta_z: i16,
    pub on_ground: bool,
}

impl DeepView for EntityPosition {
    type V = EntityPositionView;

    open spec fn deep_view(&self) -> EntityPositionView {
        EntityPositionView {
            entity_id: self.entity_id.deep_view(),
            delta_x: self.delta_x.deep_view(),
            delta_y: self.delta_y.deep_view(),
            delta_z: self.delta_z.deep_view(),
            on_ground: self.on_ground.deep_view(),
        }
    }
}

impl Encodable for EntityPosition {
    /// The fields in order, with no framing.
    open spec fn spec_encode(m: EntityPositionView) -> Result<Seq<u8>, CodecError> {
        then_encode(then_encode(then_encode(then_encode(<VarInt as Encodable>::spec_encode(m.entity_id), <i16 as Encodable>::spec_encode(m.delta_x)), <i16 as Encodable>::spec_encode(m.delta_y)), <i16 as Encodable>::spec_encode(m.delta_z)), <bool as Encodable>::spec_encode(m.on_ground))
    }

    /// The sum of the fields' sizes.
    open spec fn spec_size(m: EntityPositionView) -> Result<nat, CodecError> {
        add_size_spec(add_size_spec(add_size_spec(add_size_spec(<VarInt as Encodable>::spec_size(m.entity_id), <i16 as Encodable>::spec_size(m.delta_x)), <i16 as Encodable>::spec_size(m.delta_y)), <i16 as Encodable>::spec_size(m.delta_z)), <bool as Encodable>::spec_size(m.on_ground))
    }

    proof fn lemma_size_faithful(m: EntityPositionView) {
        <VarInt as Encodable>::lemma_size_faithful(m.entity_id);
        <i16 as Encodable>::lemma_size_faithful(m.delta_x);
        <i16 as Encodable>::lemma_size_faithful(m.delta_y);
        <i16 as Encodable>::lemma_size_faithful(m.delta_z);
        <bool as Encodable>::lemma_size_faithful(m.on_ground);
        lemma_then_size(<VarInt as Encodable>::spec_encode(m.entity_id), <VarInt as Encodable>::spec_size(m.entity_id), <i16 as Encodable>::spec_encode(m.delta_x), <i16 as Encodable>::spec_size(m.delta_x));
        lemma_then_size(then_encode(<VarInt as Encodable>::spec_encode(m.entity_id), <i16 as Encodable>::spec_encode(m.delta_x)), add_size_spec(<VarInt as Encodable>::spec_size(m.entity_id), <i16 as Encodable>::spec_size(m.delta_x)), <i16 as Encodable>::spec_encode(m.delta_y), <i16 as Encodable>::spec_size(m.delta_y));
        lemma_then_size(then_encode(then_encode(<VarInt as Encodable>::spec_encode(m.entity_id), <i16 as Encodable>::spec_encode(m.delta_x)), <i16 as Encodable>::spec_encode(m.delta_y)), add_size_spec(add_size_spec(<VarInt as Encodable>::spec_size(m.entity_id), <i16 as Encodable>::spec_size(m.delta_x)), <i16 as Encodable>::spec_size(m.delta_y)), <i16 as Encodable>::spec_encode(m.delta_z), <i16 as Encodable>::spec_size(m.delta_z));
        lemma_then_size(then_encode(then_encode(then_encode(<VarInt as Encodable>::spec_encode(m.entity_id), <i16 as Encodable>::spec_encode(m.delta_x)), <i16 as Encodable>::spec_encode(m.delta_y)), <i16 as Encodable>::spec_encode(m.delta_z)), add_size_spec(add_size_spec(add_size_spec(<VarInt as Encodable>::spec_size(m.entity_id), <i16 as Encodable>::spec_size(m.delta_x)), <i16 as Encodable>::spec_size(m.delta_y)), <i16 as Encodable>::spec_size(m.delta_z)), <bool as Encodable>::spec_encode(m.on_ground), <bool as Encodable>::spec_size(m.on_ground));
    }

    fn encode(&self, out: &mut Vec<u8>) -> (r: Result<(), CodecError>) {
        let ghost o0 = out@;
        let start = out.len();
        let ghost e0 = <VarInt as Encodable>::spec_encode(self.entity_id.deep_view())->Ok_0;
        let ghost e1 = <i16 as Encodable>::spec_encode(self.delta_x.deep_view())->Ok_0;
        let ghost e2 = <i16 as Encodable>::spec_encode(self.delta_y.deep_view())->Ok_0;
        let ghost e3 = <i16 as Encodable>::spec_encode(self.delta_z.deep_view())->Ok_0;
        let ghost e4 = <bool as Encodable>::spec_encode(self.on_ground.deep_view())->Ok_0;
        match self.entity_id.encode(out) {
            Ok(_) => {},
            Err(e) => return Err(e),
        }
        match self.delta_x.encode(out) {
            Ok(_) => {},
            Err(e) => {
                roll_back(out, Ghost(o0), Ghost(e0), start);
                return Err(e);
            },
        }
        proof {
            lemma_concat_assoc(o0, e0, e1);
        }
        match self.delta_y.encode(out) {
            Ok(_) => {},
            Err(e) => {
                roll_back(out, Ghost(o0), Ghost(e0 + e1), start);
                return Err(e);
            },
        }
        proof {
            lemma_concat_assoc(o0, e0 + e1, e2);
        }
        match self.delta_z.encode(out) {
            Ok(_) => {},
            Err(e) => {
                roll_back(out, Ghost(o0), Ghost(e0 + e1 + e2), start);
                return Err(e);
            },
        }
        proof {
            lemma_concat_assoc(o0, e0 + e1 + e2, e3);
        }
        match self.on_ground.encode(out) {
            Ok(_) => {},
            Err(e) => {
                roll_back(out, Ghost(o0), Ghost(e0 + e1 + e2 + e3), start);
                return Err(e);
            },
        }
        proof {
            lemma_concat_assoc(o0, e0 + e1 + e2 + e3, e4);
        }
        Ok(())
    }

    fn size(&self) -> (r: Result<VarInt, CodecError>) {
        proof {
            <VarInt as Encodable>::lemma_size_faithful(self.entity_id.deep_view());
            <i16 as Encodable>::lemma_size_faithful(self.delta_x.deep_view());
            <i16 as Encodable>::lemma_size_faithful(self.delta_y.deep_view());
            <i16 as Encodable>::lemma_size_faithful(self.delta_z.deep_view());
            <bool as Encodable>::lemma_size_faithful(self.on_ground.deep_view());
        }
        let ghost w0 = <VarInt as Encodable>::spec_size(self.entity_id.deep_view());
        let ghost w1 = <i16 as Encodable>::spec_size(self.delta_x.deep_view());
        let ghost w2 = <i16 as Encodable>::spec_size(self.delta_y.deep_view());
        let ghost w3 = <i16 as Encodable>::spec_size(self.delta_z.deep_view());
        let ghost w4 = <bool as Encodable>::spec_size(self.on_ground.deep_view());
        let t0 = self.entity_id.size();
        let t1 = add_size(t0, Ghost(w0), self.delta_x.size(), Ghost(w1));
        let ghost c1 = add_size_spec(w0, w1);
        let t2 = add_size(t1, Ghost(c1), self.delta_y.size(), Ghost(w2));
        let ghost c2 = add_size_spec(c1, w2);
        let t3 = add_size(t2, Ghost(c2), self.delta_z.size(), Ghost(w3));
        let ghost c3 = add_size_spec(c2, w3);
        let t4 = add_size(t3, Ghost(c3), self.on_ground.size(), Ghost(w4));
        t4
    }
}

impl Decodable for EntityPosition {
    open spec fn spec_decode(bytes: Seq<u8>) -> Result<(EntityPositionView, nat), CodecError> {
        match decode_at::<VarInt>(bytes, 0) {
            Err(e) => Err(e),
            Ok((entity_id, n0)) => match decode_at::<i16>(bytes, n0) {
                Err(e) => Err(e),
                Ok((delta_x, n1)) => match decode_at::<i16>(bytes, n0 + n1) {
                    Err(e) => Err(e),
                    Ok((delta_y, n2)) => match decode_at::<i16>(bytes, n0 + n1 + n2) {
                        Err(e) => Err(e),
                        Ok((delta_z, n3)) => match decode_at::<bool>(bytes, n0 + n1 + n2 + n3) {
                            Err(e) => Err(e),
                            Ok((on_ground, n4)) => Ok((EntityPositionView { entity_id, delta_x, delta_y, delta_z, on_ground }, n0 + n1 + n2 + n3 + n4)),
                        },
                    },
                },
            },
        }
    }

    proof fn lemma_decode_len(bytes: Seq<u8>) {
        lemma_decode_at::<VarInt>(bytes, 0);
        <VarInt as Decodable>::lemma_decode_len(bytes.subrange((0) as int, bytes.len() as int));
        if let Ok((entity_id, n0)) = decode_at::<VarInt>(bytes, 0) {
            lemma_decode_at::<i16>(bytes, n0);
            <i16 as Decodable>::lemma_decode_len(bytes.subrange((n0) as int, bytes.len() as int));
            if let Ok((delta_x, n1)) = decode_at::<i16>(bytes, n0) {
                lemma_decode_at::<i16>(bytes, n0 + n1);
                <i16 as Decodable>::lemma_decode_len(bytes.subrange((n0 + n1) as int, bytes.len() as int));
                if let Ok((delta_y, n2)) = decode_at::<i16>(bytes, n0 + n1) {
                    lemma_decode_at::<i16>(bytes, n0 + n1 + n2);
                    <i16 as Decodable>::lemma_decode_len(bytes.subrange((n0 + n1 + n2) as int, bytes.len() as int));
                    if let Ok((delta_z, n3)) = decode_at::<i16>(bytes, n0 + n1 + n2) {
                        lemma_decode_at::<bool>(bytes, n0 + n1 + n2 + n3);
                        <bool as Decodable>::lemma_decode_len(bytes.subrange((n0 + n1 + n2 + n3) as int, bytes.len() as int));
                    }
                }
            }
        }
    }

    fn decode(reader: &mut ByteReader) -> (r: Result<EntityPosition, CodecError>) {
        let ghost r0 = *reader;
        let ghost rest0 = reader.rest();
        proof {
            ByteReader::lemma_rest_since(r0, *reader);
            lemma_decode_at::<VarInt>(rest0, (reader.pos() - r0.pos()) as nat);
        }
        let entity_id = match <VarInt>::decode(reader) {
            Ok(v) => v,
            Err(e) => return Err(e),
        };
        proof {
            ByteReader::lemma_rest_since(r0, *reader);
            lemma_decode_at::<i16>(rest0, (reader.pos() - r0.pos()) as nat);
        }
        let delta_x = match <i16>::decode(reader) {
            Ok(v) => v,
            Err(e) => return Err(e),
        };
        proof {
            ByteReader::lemma_rest_since(r0, *reader);
            lemma_decode_at::<i16>(rest0, (reader.pos() - r0.pos()) as nat);
        }
        let delta_y = match <i16>::decode(reader) {
            Ok(v) => v,
            Err(e) => return Err(e),
        };
        proof {
            ByteReader::lemma_rest_since(r0, *reader);
            lemma_decode_at::<i16>(rest0, (reader.pos() - r0.pos()) as nat);
        }
        let delta_z = match <i16>::decode(reader) {
            Ok(v) => v,
            Err(e) => return Err(e),
        };
        proof {
            ByteReader::lemma_rest_since(r0, *reader);
            lemma_decode_at::<bool>(rest0, (reader.pos() - r0.pos()) as nat);
        }
        let on_ground = match <bool>::decode(reader) {
            Ok(v) => v,
            Err(e) => return Err(e),
        };
        Ok(EntityPosition { entity_id, delta_x, delta_y, delta_z, on_ground })
    }
}

impl Codec for EntityPosition {
    open spec fn valid(m: EntityPositionView) -> bool {
        &&& <VarInt as Codec>::valid(m.entity_id)
        &&& <VarInt as Codec>::delimited()
        &&& <i16 as Codec>::valid(m.delta_x)
        &&& <i16 as Codec>::delimited()
        &&& <i16 as Codec>::valid(m.delta_y)
        &&& <i16 as Codec>::delimited()
        &&& <i16 as Codec>::valid(m.delta_z)
        &&& <i16 as Codec>::delimited()
        &&& <bool as Codec>::valid(m.on_ground)
    }

    open spec fn delimited() -> bool {
        <bool as Codec>::delimited()
    }

    proof fn lemma_round_trip(m: EntityPositionView, rest: Seq<u8>) {
        let e0 = <VarInt as Encodable>::spec_encode(m.entity_id)->Ok_0;
        let e1 = <i16 as Encodable>::spec_encode(m.delta_x)->Ok_0;
        let e2 = <i16 as Encodable>::spec_encode(m.delta_y)->Ok_0;
        let e3 = <i16 as Encodable>::spec_encode(m.delta_z)->Ok_0;
        let e4 = <bool as Encodable>::spec_encode(m.on_ground)->Ok_0;
        let t4 = e4 + rest;
        let t3 = e3 + t4;
        let t2 = e2 + t3;
        let t1 = e1 + t2;
        let t0 = e0 + t1;
        assert(decode_at::<VarInt>(t0, (0) as nat) == Ok::<(<VarInt as DeepView>::V, nat), CodecError>((m.entity_id, e0.len()))
            && <VarInt as Encodable>::spec_encode(m.entity_id) == Ok::<Seq<u8>, CodecError>(e0)
            && decode_at::<i16>(t0, (e0.len()) as nat) == Ok::<(<i16 as DeepView>::V, nat), CodecError>((m.delta_x, e1.len()))
            && <i16 as Encodable>::spec_encode(m.delta_x) == Ok::<Seq<u8>, CodecError>(e1)
            && decode_at::<i16>(t0, (e0.len() + e1.len()) as nat) == Ok::<(<i16 as DeepView>::V, nat), CodecError>((m.delta_y, e2.len()))
            && <i16 as Encodable>::spec_encode(m.delta_y) == Ok::<Seq<u8>, CodecError>(e2)
            && decode_at::<i16>(t0, (e0.len() + e1.len() + e2.len()) as nat) == Ok::<(<i16 as DeepView>::V, nat), CodecError>((m.delta_z, e3.len()))
            && <i16 as Encodable>::spec_encode(m.delta_z) == Ok::<Seq<u8>, CodecError>(e3)
            && decode_at::<bool>(t0, (e0.len() + e1.len() + e2.len() + e3.len()) as nat) == Ok::<(<bool as DeepView>::V, nat), CodecError>((m.on_ground, e4.len()))
            && <bool as Encodable>::spec_encode(m.on_ground) == Ok::<Seq<u8>, CodecError>(e4)) by {
            lemma_subrange_all(t0);
            lemma_field_round_trip::<VarInt>(m.entity_id, t0, (0) as nat, t1);
            lemma_field_round_trip::<i16>(m.delta_x, t0, (e0.len()) as nat, t2);
            lemma_field_round_trip::<i16>(m.delta_y, t0, (e0.len() + e1.len()) as nat, t3);
            lemma_field_round_trip::<i16>(m.delta_z, t0, (e0.len() + e1.len() + e2.len()) as nat, t4);
            lemma_field_round_trip::<bool>(m.on_ground, t0, (e0.len() + e1.len() + e2.len() + e3.len()) as nat, rest);
        }
        assert(e0 + e1 + e2 + e3 + e4 + rest == t0) by {
            lemma_concat_assoc(e0, e1, t2);
            lemma_concat_assoc(e0 + e1, e2, t3);
            lemma_concat_assoc(e0 + e1 + e2, e3, t4);
            lemma_concat_assoc(e0 + e1 + e2 + e3, e4, rest);
        }
        assert(Self::spec_encode(m) == Ok::<Seq<u8>, CodecError>(e0 + e1 + e2 + e3 + e4));
    }
}
/// The client-bound play message: entity position and rotation.
pub struct EntityPositionAndRotation {
    pub entity_id: VarInt,
    pub delta_x: i16,
    pub delta_y: i16,
    pub delta_z: i16,
    pub yaw: Angle,
    pub pitch: Angle,
    pub on_ground: bool,
}

/// The model of a `EntityPositionAndRotation`: each field by its model.
pub struct EntityPositionAndRotationView {
    pub entity_id: i32,
    pub delta_x: i16,
    pub delta_y: i16,
    pub delta_z: i16,
    pub yaw: u8,
    pub pitch: u8,
    pub on_ground: bool,
}

impl DeepView for EntityPositionAndRotation {
    type V = EntityPositionAndRotationView;

    open spec fn deep_view(&self) -> EntityPositionAndRotationView {
        EntityPositionAndRotationView {
            entity_id: self.entity_id.deep_view(),
            delta_x: self.delta_x.deep_view(),
            delta_y: self.delta_y.deep_view(),
            delta_z: self.delta_z.deep_view(),
            yaw: self.yaw.deep_view(),
            pitch: self.pitch.deep_view(),
            on_ground: self.on_ground.deep_view(),
        }
    }
}

impl Encodable for EntityPositionAndRotation {
    /// The fields in order, with no framing.
    open spec fn spec_encode(m: EntityPositionAndRotationView) -> Result<Seq<u8>, CodecError> {
        then_encode(then_encode(then_encode(then_encode(then_encode(then_encode(<VarInt as Encodable>::spec_encode(m.entity_id), <i16 as Encodable>::spec_encode(m.delta_x)), <i16 as Encodable>::spec_encode(m.delta_y)), <i16 as Encodable>::spec_encode(m.delta_z)), <Angle as Encodable>::spec_encode(m.yaw)), <Angle as Encodable>::spec_encode(m.pitch)), <bool as Encodable>::spec_encode(m.on_ground))
    }

    /// The sum of the fields' sizes.
    open spec fn spec_size(m: EntityPositionAndRotationView) -> Result<nat, CodecError> {
        add_size_spec(add_size_spec(add_size_spec(add_size_spec(add_size_spec(add_size_spec(<VarInt as Encodable>::spec_size(m.entity_id), <i16 as Encodable>::spec_size(m.delta_x)), <i16 as Encodable>::spec_size(m.delta_y)), <i16 as Encodable>::spec_size(m.delta_z)), <Angle as Encodable>::spec_size(m.yaw)), <Angle as Encodable>::spec_size(m.pitch)), <bool as Encodable>::spec_size(m.on_ground))
    }

    proof fn lemma_size_faithful(m: EntityPositionAndRotationView) {
        <VarInt as Encodable>::lemma_size_faithful(m.entity_id);
        <i16 as Encodable>::lemma_size_faithful(m.delta_x);
        <i16 as Encodable>::lemma_size_faithful(m.delta_y);
        <i16 as Encodable>::lemma_size_faithful(m.delta_z);
        <Angle as Encodable>::lemma_size_faithful(m.yaw);
        <Angle as Encodable>::lemma_size_faithful(m.pitch);
        <bool as Encodable>::lemma_size_faithful(m.on_ground);
        lemma_then_size(<VarInt as Encodable>::spec_encode(m.entity_id), <VarInt as Encodable>::spec_size(m.entity_id), <i16 as Encodable>::spec_encode(m.delta_x), <i16 as Encodable>::spec_size(m.delta_x));
        lemma_then_size(then_encode(<VarInt as Encodable>::spec_encode(m.entity_id), <i16 as Encodable>::spec_encode(m.delta_x)), add_size_spec(<VarInt as Encodable>::spec_size(m.entity_id), <i16 as Encodable>::spec_size(m.delta_x)), <i16 as Encodable>::spec_encode(m.delta_y), <i16 as Encodable>::spec_size(m.delta_y));
        lemma_then_size(then_encode(then_encode(<VarInt as Encodable>::spec_encode(m.entity_id), <i16 as Encodable>::spec_encode(m.delta_x)), <i16 as Encodable>::spec_encode(m.delta_y)), add_size_spec(add_size_spec(<VarInt as Encodable>::spec_size(m.entity_id), <i16 as Encodable>::spec_size(m.delta_x)), <i16 as Encodable>::spec_size(m.delta_y)), <i16 as Encodable>::spec_encode(m.delta_z), <i16 as Encodable>::spec_size(m.delta_z));
        lemma_then_size(then_encode(then_encode(then_encode(<VarInt as Encodable>::spec_encode(m.entity_id), <i16 as Encodable>::spec_encode(m.delta_x)), <i16 as Encodable>::spec_encode(m.delta_y)), <i16 as Encodable>::spec_encode(m.delta_z)), add_size_spec(add_size_spec(add_size_spec(<VarInt as Encodable>::spec_size(m.entity_id), <i16 as Encodable>::spec_size(m.delta_x)), <i16 as Encodable>::spec_size(m.delta_y)), <i16 as Encodable>::spec_size(m.delta_z)), <Angle as Encodable>::spec_encode(m.yaw), <Angle as Encodable>::spec_size(m.yaw));
        lemma_then_size(then_encode(then_encode(then_encode(then_encode(<VarInt as Encodable>::spec_encode(m.entity_id), <i16 as Encodable>::spec_encode(m.delta_x)), <i16 as Encodable>::spec_encode(m.delta_y)), <i16 as Encodable>::spec_encode(m.delta_z)), <Angle as Encodable>::spec_encode(m.yaw)), add_size_spec(add_size_spec(add_size_spec(add_size_spec(<VarInt as Encodable>::spec_size(m.entity_id), <i16 as Encodable>::spec_size(m.delta_x)), <i16 as Encodable>::spec_size(m.delta_y)), <i16 as Encodable>::spec_size(m.delta_z)), <Angle as Encodable>::spec_size(m.yaw)), <Angle as Encodable>::spec_encode(m.pitch), <Angle as Encodable>::spec_size(m.pitch));
        lemma_then_size(then_encode(then_encode(then_encode(then_encode(then_encode(<VarInt as Encodable>::spec_encode(m.entity_id), <i16 as Encodable>::spec_encode(m.delta_x)), <i16 as Encodable>::spec_encode(m.delta_y)), <i16 as Encodable>::spec_encode(m.delta_z)), <Angle as Encodable>::spec_encode(m.yaw)), <Angle as Encodable>::spec_encode(m.pitch)), add_size_spec(add_size_spec(add_size_spec(add_size_spec(add_size_spec(<VarInt as Encodable>::spec_size(m.entity_id), <i16 as Encodable>::spec_size(m.delta_x)), <i16 as Encodable>::spec_size(m.delta_y)), <i16 as Encodable>::spec_size(m.delta_z)), <Angle as Encodable>::spec_size(m.yaw)), <Angle as Encodable>::spec_size(m.pitch)), <bool as Encodable>::spec_encode(m.on_ground), <bool as Encodable>::spec_size(m.on_ground));
    }

    fn encode(&self, out: &mut Vec<u8>) -> (r: Result<(), CodecError>) {
        let ghost o0 = out@;
        let start = out.len();
        let ghost e0 = <VarInt as Encodable>::spec_encode(self.entity_id.deep_view())->Ok_0;
        let ghost e1 = <i16 as Encodable>::spec_encode(self.delta_x.deep_view())->Ok_0;
        let ghost e2 = <i16 as Encodable>::spec_encode(self.delta_y.deep_view())->Ok_0;
        let ghost e3 = <i16 as Encodable>::spec_encode(self.delta_z.deep_view())->Ok_0;
        let ghost e4 = <Angle as Encodable>::spec_encode(self.yaw.deep_view())->Ok_0;
        let ghost e5 = <Angle as Encodable>::spec_encode(self.pitch.deep_view())->Ok_0;
        let ghost e6 = <bool as Encodable>::spec_encode(self.on_ground.deep_view())->Ok_0;
        match self.entity_id.encode(out) {
            Ok(_) => {},
            Err(e) => return Err(e),
        }
        match self.delta_x.encode(out) {
            Ok(_) => {},
            Err(e) => {
                roll_back(out, Ghost(o0), Ghost(e0), start);
                return Err(e);
            },
        }
        proof {
            lemma_concat_assoc(o0, e0, e1);
        }
        match self.delta_y.encode(out) {
            Ok(_) => {},
            Err(e) => {
                roll_back(out, Ghost(o0), Ghost(e0 + e1), start);
                return Err(e);
            },
        }
        proof {
            lemma_concat_assoc(o0, e0 + e1, e2);
        }
        match self.delta_z.encode(out) {
            Ok(_) => {},
            Err(e) => {
                roll_back(out, Ghost(o0), Ghost(e0 + e1 + e2), start);
                return Err(e);
            },
        }
        proof {
            lemma_concat_assoc(o0, e0 + e1 + e2, e3);
        }
        match self.yaw.encode(out) {
            Ok(_) => {},
            Err(e) => {
                roll_back(out, Ghost(o0), Ghost(e0 + e1 + e2 + e3), start);
                return Err(e);
            },
        }
        proof {
            lemma_concat_assoc(o0, e0 + e1 + e2 + e3, e4);
        }
        match self.pitch.encode(out) {
            Ok(_) => {},
            Err(e) => {
                roll_back(out, Ghost(o0), Ghost(e0 + e1 + e2 + e3 + e4), start);
                return Err(e);
            },
        }
        proof {
            lemma_concat_assoc(o0, e0 + e1 + e2 + e3 + e4, e5);
        }
        match self.on_ground.encode(out) {
            Ok(_) => {},
            Err(e) => {
                roll_back(out, Ghost(o0), Ghost(e0 + e1 + e2 + e3 + e4 + e5), start);
                return Err(e);
            },
        }
        proof {
            lemma_concat_assoc(o0, e0 + e1 + e2 + e3 + e4 + e5, e6);
        }
        Ok(())
    }

    fn size(&self) -> (r: Result<VarInt, CodecError>) {
        proof {
            <VarInt as Encodable>::lemma_size_faithful(self.entity_id.deep_view());
            <i16 as Encodable>::lemma_size_faithful(self.delta_x.deep_view());
            <i16 as Encodable>::lemma_size_faithful(self.delta_y.deep_view());
            <i16 as Encodable>::lemma_size_faithful(self.delta_z.deep_view());
            <Angle as Encodable>::lemma_size_faithful(self.yaw.deep_view());
            <Angle as Encodable>::lemma_size_faithful(self.pitch.deep_view());
            <bool as Encodable>::lemma_size_faithful(self.on_ground.deep_view());
        }
        let ghost w0 = <VarInt as Encodable>::spec_size(self.entity_id.deep_view());
        let ghost w1 = <i16 as Encodable>::spec_size(self.delta_x.deep_view());
        let ghost w2 = <i16 as Encodable>::spec_size(self.delta_y.deep_view());
        let ghost w3 = <i16 as Encodable>::spec_size(self.delta_z.deep_view());
        let ghost w4 = <Angle as Encodable>::spec_size(self.yaw.deep_view());
        let ghost w5 = <Angle as Encodable>::spec_size(self.pitch.deep_view());
        let ghost w6 = <bool as Encodable>::spec_size(self.on_ground.deep_view());
        let t0 = self.entity_id.size();
        let t1 = add_size(t0, Ghost(w0), self.delta_x.size(), Ghost(w1));
        let ghost c1 = add_size_spec(w0, w1);
        let t2 = add_size(t1, Ghost(c1), self.delta_y.size(), Ghost(w2));
        let ghost c2 = add_size_spec(c1, w2);
        let t3 = add_size(t2, Ghost(c2), self.delta_z.size(), Ghost(w3));
        let ghost c3 = add_size_spec(c2, w3);
        let t4 = add_size(t3, Ghost(c3), self.yaw.size(), Ghost(w4));
        let ghost c4 = add_size_spec(c3, w4);
        let t5 = add_size(t4, Ghost(c4), self.pitch.size(), Ghost(w5));
        let ghost c5 = add_size_spec(c4, w5);
        let t6 = add_size(t5, Ghost(c5), self.on_ground.size(), Ghost(w6));
        t6
    }
}

impl Decodable for EntityPositionAndRotation {
    open spec fn spec_decode(bytes: Seq<u8>) -> Result<(EntityPositionAndRotationView, nat), CodecError> {
        match decode_at::<VarInt>(bytes, 0) {
            Err(e) => Err(e),
            Ok((entity_id, n0)) => match decode_at::<i16>(bytes, n0) {
                Err(e) => Err(e),
                Ok((delta_x, n1)) => match decode_at::<i16>(bytes, n0 + n1) {
                    Err(e) => Err(e),
                    Ok((delta_y, n2)) => match decode_at::<i16>(bytes, n0 + n1 + n2) {
                        Err(e) => Err(e),
                        Ok((delta_z, n3)) => match decode_at::<Angle>(bytes, n0 + n1 + n2 + n3) {
                            Err(e) => Err(e),
                            Ok((yaw, n4)) => match decode_at::<Angle>(bytes, n0 + n1 + n2 + n3 + n4) {
                                Err(e) => Err(e),
                                Ok((pitch, n5)) => match decode_at::<bool>(bytes, n0 + n1 + n2 + n3 + n4 + n5) {
                                    Err(e) => Err(e),
                                    Ok((on_ground, n6)) => Ok((EntityPositionAndRotationView { entity_id, delta_x, delta_y, delta_z, yaw, pitch, on_ground }, n0 + n1 + n2 + n3 + n4 + n5 + n6)),
                                },
                            },
                        },
                    },
                },
            },
        }
    }

    proof fn lemma_decode_len(bytes: Seq<u8>) {
        lemma_decode_at::<VarInt>(bytes, 0);
        <VarInt as Decodable>::lemma_decode_len(bytes.subrange((0) as int, bytes.len() as int));
        if let Ok((entity_id, n0)) = decode_at::<VarInt>(bytes, 0) {
            lemma_decode_at::<i16>(bytes, n0);
            <i16 as Decodable>::lemma_decode_len(bytes.subrange((n0) as int, bytes.len() as int));
            if let Ok((delta_x, n1)) = decode_at::<i16>(bytes, n0) {
                lemma_decode_at::<i16>(bytes, n0 + n1);
                <i16 as Decodable>::lemma_decode_len(bytes.subrange((n0 + n1) as int, bytes.len() as int));
                if let Ok((delta_y, n2)) = decode_at::<i16>(bytes, n0 + n1) {
                    lemma_decode_at::<i16>(bytes, n0 + n1 + n2);
                    <i16 as Decodable>::lemma_decode_len(bytes.subrange((n0 + n1 + n2) as int, bytes.len() as int));
                    if let Ok((delta_z, n3)) = decode_at::<i16>(bytes, n0 + n1 + n2) {
                        lemma_decode_at::<Angle>(bytes, n0 + n1 + n2 + n3);
                        <Angle as Decodable>::lemma_decode_len(bytes.subrange((n0 + n1 + n2 + n3) as int, bytes.len() as int));
                        if let Ok((yaw, n4)) = decode_at::<Angle>(bytes, n0 + n1 + n2 + n3) {
                            lemma_decode_at::<Angle>(bytes, n0 + n1 + n2 + n3 + n4);
                            <Angle as Decodable>::lemma_decode_len(bytes.subrange((n0 + n1 + n2 + n3 + n4) as int, bytes.len() as int));
                            if let Ok((pitch, n5)) = decode_at::<Angle>(bytes, n0 + n1 + n2 + n3 + n4) {
                                lemma_decode_at::<bool>(bytes, n0 + n1 + n2 + n3 + n4 + n5);
                                <bool as Decodable>::lemma_decode_len(bytes.subrange((n0 + n1 + n2 + n3 + n4 + n5) as int, bytes.len() as int));
                            }
                        }
                    }
                }
            }
        }
    }

    fn decode(reader: &mut ByteReader) -> (r: Result<EntityPositionAndRotation, CodecError>) {
        let ghost r0 = *reader;
        let ghost rest0 = reader.rest();
        proof {
            ByteReader::lemma_rest_since(r0, *reader);
            lemma_decode_at::<VarInt>(rest0, (reader.pos() - r0.pos()) as nat);
        }
        let entity_id = match <VarInt>::decode(reader) {
            Ok(v) => v,
            Err(e) => return Err(e),
        };
        proof {
            ByteReader::lemma_rest_since(r0, *reader);
            lemma_decode_at::<i16>(rest0, (reader.pos() - r0.pos()) as nat);
        }
        let delta_x = match <i16>::decode(reader) {
            Ok(v) => v,
            Err(e) => return Err(e),
        };
        proof {
            ByteReader::lemma_rest_since(r0, *reader);
            lemma_decode_at::<i16>(rest0, (reader.pos() - r0.pos()) as nat);
        }
        let delta_y = match <i16>::decode(reader) {
            Ok(v) => v,
            Err(e) => return Err(e),
        };
        proof {
            ByteReader::lemma_rest_since(r0, *reader);
            lemma_decode_at::<i16>(rest0, (reader.pos() - r0.pos()) as nat);
        }
        let delta_z = match <i16>::decode(reader) {
            Ok(v) => v,
            Err(e) => return Err(e),
        };
        proof {
            ByteReader::lemma_rest_since(r0, *reader);
            lemma_decode_at::<Angle>(rest0, (reader.pos() - r0.pos()) as nat);
        }
        let yaw = match <Angle>::decode(reader) {
            Ok(v) => v,
            Err(e) => return Err(e),
        };
        proof {
            ByteReader::lemma_rest_since(r0, *reader);
            lemma_decode_at::<Angle>(rest0, (reader.pos() - r0.pos()) as nat);
        }
        let pitch = match <Angle>::decode(reader) {
            Ok(v) => v,
            Err(e) => return Err(e),
        };
        proof {
            ByteReader::lemma_rest_since(r0, *reader);
            lemma_decode_at::<bool>(rest0, (reader.pos() - r0.pos()) as nat);
        }
        let on_ground = match <bool>::decode(reader) {
            Ok(v) => v,
            Err(e) => return Err(e),
        };
        Ok(EntityPositionAndRotation { entity_id, delta_x, delta_y, delta_z, yaw, pitch, on_ground })
    }
}

impl Codec for EntityPositionAndRotation {
    open spec fn valid(m: EntityPositionAndRotationView) -> bool {
        &&& <VarInt as Codec>::valid(m.entity_id)
        &&& <VarInt as Codec>::delimited()
        &&& <i16 as Codec>::valid(m.delta_x)
        &&& <i16 as Codec>::delimited()
        &&& <i16 as Codec>::valid(m.delta_y)
        &&& <i16 as Codec>::delimited()
        &&& <i16 as Codec>::valid(m.delta_z)
        &&& <i16 as Codec>::delimited()
        &&& <Angle as Codec>::valid(m.yaw)
        &&& <Angle as Codec>::delimited()
        &&& <Angle as Codec>::valid(m.pitch)
        &&& <Angle as Codec>::delimited()
        &&& <bool as Codec>::valid(m.on_ground)
    }

    open spec fn delimited() -> bool {
        <bool as Codec>::delimited()
    }

    proof fn lemma_round_trip(m: EntityPositionAndRotationView, rest: Seq<u8>) {
        let e0 = <VarInt as Encodable>::spec_encode(m.entity_id)->Ok_0;
        let e1 = <i16 as Encodable>::spec_encode(m.delta_x)->Ok_0;
        let e2 = <i16 as Encodable>::spec_encode(m.delta_y)->Ok_0;
        let e3 = <i16 as Encodable>::spec_encode(m.delta_z)->Ok_0;
        let e4 = <Angle as Encodable>::spec_encode(m.yaw)->Ok_0;
        let e5 = <Angle as Encodable>::spec_encode(m.pitch)->Ok_0;
        let e6 = <bool as Encodable>::spec_encode(m.on_ground)->Ok_0;
        let t6 = e6 + rest;
        let t5 = e5 + t6;
        let t4 = e4 + t5;
        let t3 = e3 + t4;
        let t2 = e2 + t3;
        let t1 = e1 + t2;
        let t0 = e0 + t1;
        assert(decode_at::<VarInt>(t0, (0) as nat) == Ok::<(<VarInt as DeepView>::V, nat), CodecError>((m.entity_id, e0.len()))
            && <VarInt as Encodable>::spec_encode(m.entity_id) == Ok::<Seq<u8>, CodecError>(e0)
            && decode_at::<i16>(t0, (e0.len()) as nat) == Ok::<(<i16 as DeepView>::V, nat), CodecError>((m.delta_x, e1.len()))
            && <i16 as Encodable>::spec_encode(m.delta_x) == Ok::<Seq<u8>, CodecError>(e1)
            && decode_at::<i16>(t0, (e0.len() + e1.len()) as nat) == Ok::<(<i16 as DeepView>::V, nat), CodecError>((m.delta_y, e2.len()))
            && <i16 as Encodable>::spec_encode(m.delta_y) == Ok::<Seq<u8>, CodecError>(e2)
            && decode_at::<i16>(t0, (e0.len() + e1.len() + e2.len()) as nat) == Ok::<(<i16 as DeepView>::V, nat), CodecError>((m.delta_z, e3.len()))
            && <i16 as Encodable>::spec_encode(m.delta_z) == Ok::<Seq<u8>, CodecError>(e3)
            && decode_at::<Angle>(t0, (e0.len() + e1.len() + e2.len() + e3.len()) as nat) == Ok::<(<Angle as DeepView>::V, nat), CodecError>((m.yaw, e4.len()))
            && <Angle as Encodable>::spec_encode(m.yaw) == Ok::<Seq<u8>, CodecError>(e4)
            && decode_at::<Angle>(t0, (e0.len() + e1.len() + e2.len() + e3.len() + e4.len()) as nat) == Ok::<(<Angle as DeepView>::V, nat), CodecError>((m.pitch, e5.len()))
            && <Angle as Encodable>::spec_encode(m.pitch) == Ok::<Seq<u8>, CodecError>(e5)
            && decode_at::<bool>(t0, (e0.len() + e1.len() + e2.len() + e3.len() + e4.len() + e5.len()) as nat) == Ok::<(<bool as DeepView>::V, nat), CodecError>((m.on_ground, e6.len()))
            && <bool as Encodable>::spec_encode(m.on_ground) == Ok::<Seq<u8>, CodecError>(e6)) by {
            lemma_subrange_all(t0);
            lemma_field_round_trip::<VarInt>(m.entity_id, t0, (0) as nat, t1);
            lemma_field_round_trip::<i16>(m.delta_x, t0, (e0.len()) as nat, t2);
            lemma_field_round_trip::<i16>(m.delta_y, t0, (e0.len() + e1.len()) as nat, t3);
            lemma_field_round_trip::<i16>(m.delta_z, t0, (e0.len() + e1.len() + e2.len()) as nat, t4);
            lemma_field_round_trip::<Angle>(m.yaw, t0, (e0.len() + e1.len() + e2.len() + e3.len()) as nat, t5);
            lemma_field_round_trip::<Angle>(m.pitch, t0, (e0.len() + e1.len() + e2.len() + e3.len() + e4.len()) as nat, t6);
            lemma_field_round_trip::<bool>(m.on_ground, t0, (e0.len() + e1.len() + e2.len() + e3.len() + e4.len() + e5.len()) as nat, rest);
        }
        assert(e0 + e1 + e2 + e3 + e4 + e5 + e6 + rest == t0) by {
            lemma_concat_assoc(e0, e1, t2);
            lemma_concat_assoc(e0 + e1, e2, t3);
            lemma_concat_assoc(e0 + e1 + e2, e3, t4);
            lemma_concat_assoc(e0 + e1 + e2 + e3, e4, t5);
            lemma_concat_assoc(e0 + e1 + e2 + e3 + e4, e5, t6);
            lemma_concat_assoc(e0 + e1 + e2 + e3 + e4 + e5, e6, rest);
        }
        assert(Self::spec_encode(m) == Ok::<Seq<u8>, CodecError>(e0 + e1 + e2 + e3 + e4 + e5 + e6));
    }
}
/// The client-bound play message: entity rotation.
pub struct EntityRotation {
    pub entity_id: VarInt,
    pub yaw: Angle,
    pub pitch: Angle,
    pub on_ground: bool,
}

/// The model of a `EntityRotation`: each field by its model.
pub struct EntityRotationView {
    pub entity_id: i32,
    pub yaw: u8,
    pub pitch: u8,
    pub on_ground: bool,
}

impl DeepView for EntityRotation {
    type V = EntityRotationView;

    open spec fn deep_view(&self) -> EntityRotationView {
        EntityRotationView {
            entity_id: self.entity_id.deep_view(),
            yaw: self.yaw.deep_view(),
            pitch: self.pitch.deep_view(),
            on_ground: self.on_ground.deep_view(),
        }
    }
}

impl Encodable for EntityRotation {
    /// The fields in order, with no framing.
    open spec fn spec_encode(m: EntityRotationView) -> Result<Seq<u8>, CodecError> {
        then_encode(then_encode(then_encode(<VarInt as Encodable>::spec_encode(m.entity_id), <Angle as Encodable>::spec_encode(m.yaw)), <Angle as Encodable>::spec_encode(m.pitch)), <bool as Encodable>::spec_encode(m.on_ground))
    }

    /// The sum of the fields' sizes.
    open spec fn spec_size(m: EntityRotationView) -> Result<nat, CodecError> {
        add_size_spec(add_size_spec(add_size_spec(<VarInt as Encodable>::spec_size(m.entity_id), <Angle as Encodable>::spec_size(m.yaw)), <Angle as Encodable>::spec_size(m.pitch)), <bool as Encodable>::spec_size(m.on_ground))
    }

    proof fn lemma_size_faithful(m: EntityRotationView) {
        <VarInt as Encodable>::lemma_size_faithful(m.entity_id);
        <Angle as Encodable>::lemma_size_faithful(m.yaw);
        <Angle as Encodable>::lemma_size_faithful(m.pitch);
        <bool as Encodable>::lemma_size_faithful(m.on_ground);
        lemma_then_size(<VarInt as Encodable>::spec_encode(m.entity_id), <VarInt as Encodable>::spec_size(m.entity_id), <Angle as Encodable>::spec_encode(m.yaw), <Angle as Encodable>::spec_size(m.yaw));
        lemma_then_size(then_encode(<VarInt as Encodable>::spec_encode(m.entity_id), <Angle as Encodable>::spec_encode(m.yaw)), add_size_spec(<VarInt as Encodable>::spec_size(m.entity_id), <Angle as Encodable>::spec_size(m.yaw)), <Angle as Encodable>::spec_encode(m.pitch), <Angle as Encodable>::spec_size(m.pitch));
        lemma_then_size(then_encode(then_encode(<VarInt as Encodable>::spec_encode(m.entity_id), <Angle as Encodable>::spec_encode(m.yaw)), <Angle as Encodable>::spec_encode(m.pitch)), add_size_spec(add_size_spec(<VarInt as Encodable>::spec_size(m.entity_id), <Angle as Encodable>::spec_size(m.yaw)), <Angle as Encodable>::spec_size(m.pitch)), <bool as Encodable>::spec_encode(m.on_ground), <bool as Encodable>::spec_size(m.on_ground));
    }

    fn encode(&self, out: &mut Vec<u8>) -> (r: Result<(), CodecError>) {
        let ghost o0 = out@;
        let start = out.len();
        let ghost e0 = <VarInt as Encodable>::spec_encode(self.entity_id.deep_view())->Ok_0;
        let ghost e1 = <Angle as Encodable>::spec_encode(self.yaw.deep_view())->Ok_0;
        let ghost e2 = <Angle as Encodable>::spec_encode(self.pitch.deep_view())->Ok_0;
        let ghost e3 = <bool as Encodable>::spec_encode(self.on_ground.deep_view())->Ok_0;
        match self.entity_id.encode(out) {
            Ok(_) => {},
            Err(e) => return Err(e),
        }
        match self.yaw.encode(out) {
            Ok(_) => {},
            Err(e) => {
                roll_back(out, Ghost(o0), Ghost(e0), start);
                return Err(e);
            },
        }
        proof {
            lemma_concat_assoc(o0, e0, e1);
        }
        match self.pitch.encode(out) {
            Ok(_) => {},
            Err(e) => {
                roll_back(out, Ghost(o0), Ghost(e0 + e1), start);
                return Err(e);
            },
        }
        proof {
            lemma_concat_assoc(o0, e0 + e1, e2);
        }
        match self.on_ground.encode(out) {
            Ok(_) => {},
            Err(e) => {
                roll_back(out, Ghost(o0), Ghost(e0 + e1 + e2), start);
                return Err(e);
            },
        }
        proof {
            lemma_concat_assoc(o0, e0 + e1 + e2, e3);
        }
        Ok(())
    }

    fn size(&self) -> (r: Result<VarInt, CodecError>) {
        proof {
            <VarInt as Encodable>::lemma_size_faithful(self.entity_id.deep_view());
            <Angle as Encodable>::lemma_size_faithful(self.yaw.deep_view());
            <Angle as Encodable>::lemma_size_faithful(self.pitch.deep_view());
            <bool as Encodable>::lemma_size_faithful(self.on_ground.deep_view());
        }
        let ghost w0 = <VarInt as Encodable>::spec_size(self.entity_id.deep_view());
        let ghost w1 = <Angle as Encodable>::spec_size(self.yaw.deep_view());
        let ghost w2 = <Angle as Encodable>::spec_size(self.pitch.deep_view());
        let ghost w3 = <bool as Encodable>::spec_size(self.on_ground.deep_view());
        let t0 = self.entity_id.size();
        let t1 = add_size(t0, Ghost(w0), self.yaw.size(), Ghost(w1));
        let ghost c1 = add_size_spec(w0, w1);
        let t2 = add_size(t1, Ghost(c1), self.pitch.size(), Ghost(w2));
        let ghost c2 = add_size_spec(c1, w2);
        let t3 = add_size(t2, Ghost(c2), self.on_ground.size(), Ghost(w3));
        t3
    }
}

impl Decodable for EntityRotation {
    open spec fn spec_decode(bytes: Seq<u8>) -> Result<(EntityRotationView, nat), CodecError> {
        match decode_at::<VarInt>(bytes, 0) {
            Err(e) => Err(e),
            Ok((entity_id, n0)) => match decode_at::<Angle>(bytes, n0) {
                Err(e) => Err(e),
                Ok((yaw, n1)) => match decode_at::<Angle>(bytes, n0 + n1) {
                    Err(e) => Err(e),
                    Ok((pitch, n2)) => match decode_at::<bool>(bytes, n0 + n1 + n2) {
                        Err(e) => Err(e),
                        Ok((on_ground, n3)) => Ok((EntityRotationView { entity_id, yaw, pitch, on_ground }, n0 + n1 + n2 + n3)),
                    },
                },
            },
        }
    }

    proof fn lemma_decode_len(bytes: Seq<u8>) {
        lemma_decode_at::<VarInt>(bytes, 0);
        <VarInt as Decodable>::lemma_decode_len(bytes.subrange((0) as int, bytes.len() as int));
        if let Ok((entity_id, n0)) = decode_at::<VarInt>(bytes, 0) {
            lemma_decode_at::<Angle>(bytes, n0);
            <Angle as Decodable>::lemma_decode_len(bytes.subrange((n0) as int, bytes.len() as int));
            if let Ok((yaw, n1)) = decode_at::<Angle>(bytes, n0) {
                lemma_decode_at::<Angle>(bytes, n0 + n1);
                <Angle as Decodable>::lemma_decode_len(bytes.subrange((n0 + n1) as int, bytes.len() as int));
                if let Ok((pitch, n2)) = decode_at::<Angle>(bytes, n0 + n1) {
                    lemma_decode_at::<bool>(bytes, n0 + n1 + n2);
                    <bool as Decodable>::lemma_decode_len(bytes.subrange((n0 + n1 + n2) as int, bytes.len() as int));
                }
            }
        }
    }

    fn decode(reader: &mut ByteReader) -> (r: Result<EntityRotation, CodecError>) {
        let ghost r0 = *reader;
        let ghost rest0 = reader.rest();
        proof {
            ByteReader::lemma_rest_since(r0, *reader);
            lemma_decode_at::<VarInt>(rest0, (reader.pos() - r0.pos()) as nat);
        }
        let entity_id = match <VarInt>::decode(reader) {
            Ok(v) => v,
            Err(e) => return Err(e),
        };
        proof {
            ByteReader::lemma_rest_since(r0, *reader);
            lemma_decode_at::<Angle>(rest0, (reader.pos() - r0.pos()) as nat);
        }
        let yaw = match <Angle>::decode(reader) {
            Ok(v) => v,
            Err(e) => return Err(e),
        };
        proof {
            ByteReader::lemma_rest_since(r0, *reader);
            lemma_decode_at::<Angle>(rest0, (reader.pos() - r0.pos()) as nat);
        }
        let pitch = match <Angle>::decode(reader) {
            Ok(v) => v,
            Err(e) => return Err(e),
        };
        proof {
            ByteReader::lemma_rest_since(r0, *reader);
            lemma_decode_at::<bool>(rest0, (reader.pos() - r0.pos()) as nat);
        }
        let on_ground = match <bool>::decode(reader) {
            Ok(v) => v,
            Err(e) => return Err(e),
        };
        Ok(EntityRotation { entity_id, yaw, pitch, on_ground })
    }
}

impl Codec for EntityRotation {
    open spec fn valid(m: EntityRotationView) -> bool {
        &&& <VarInt as Codec>::valid(m.entity_id)
        &&& <VarInt as Codec>::delimited()
        &&& <Angle as Codec>::valid(m.yaw)
        &&& <Angle as Codec>::delimited()
        &&& <Angle as Codec>::valid(m.pitch)
        &&& <Angle as Codec>::delimited()
        &&& <bool as Codec>::valid(m.on_ground)
    }

    open spec fn delimited() -> bool {
        <bool as Codec>::delimited()
    }

    proof fn lemma_round_trip(m: EntityRotationView, rest: Seq<u8>) {
        let e0 = <VarInt as Encodable>::spec_encode(m.entity_id)->Ok_0;
        let e1 = <Angle as Encodable>::spec_encode(m.yaw)->Ok_0;
        let e2 = <Angle as Encodable>::spec_encode(m.pitch)->Ok_0;
        let e3 = <bool as Encodable>::spec_encode(m.on_ground)->Ok_0;
        let t3 = e3 + rest;
        let t2 = e2 + t3;
        let t1 = e1 + t2;
        let t0 = e0 + t1;
        assert(decode_at::<VarInt>(t0, (0) as nat) == Ok::<(<VarInt as DeepView>::V, nat), CodecError>((m.entity_id, e0.len()))
            && <VarInt as Encodable>::spec_encode(m.entity_id) == Ok::<Seq<u8>, CodecError>(e0)
            && decode_at::<Angle>(t0, (e0.len()) as nat) == Ok::<(<Angle as DeepView>::V, nat), CodecError>((m.yaw, e1.len()))
            && <Angle as Encodable>::spec_encode(m.yaw) == Ok::<Seq<u8>, CodecError>(e1)
            && decode_at::<Angle>(t0, (e0.len() + e1.len()) as nat) == Ok::<(<Angle as DeepView>::V, nat), CodecError>((m.pitch, e2.len()))
            && <Angle as Encodable>::spec_encode(m.pitch) == Ok::<Seq<u8>, CodecError>(e2)
            && decode_at::<bool>(t0, (e0.len() + e1.len() + e2.len()) as nat) == Ok::<(<bool as DeepView>::V, nat), CodecError>((m.on_ground, e3.len()))
            && <bool as Encodable>::spec_encode(m.on_ground) == Ok::<Seq<u8>, CodecError>(e3)) by {
            lemma_subrange_all(t0);
            lemma_field_round_trip::<VarInt>(m.entity_id, t0, (0) as nat, t1);
            lemma_field_round_trip::<Angle>(m.yaw, t0, (e0.len()) as nat, t2);
            lemma_field_round_trip::<Angle>(m.pitch, t0, (e0.len() + e1.len()) as nat, t3);
            lemma_field_round_trip::<bool>(m.on_ground, t0, (e0.len() + e1.len() + e2.len()) as nat, rest);
        }
        assert(e0 + e1 + e2 + e3 + rest == t0) by {
            lemma_concat_assoc(e0, e1, t2);
            lemma_concat_assoc(e0 + e1, e2, t3);
            lemma_concat_assoc(e0 + e1 + e2, e3, rest);
        }
        assert(Self::spec_encode(m) == Ok::<Seq<u8>, CodecError>(e0 + e1 + e2 + e3));
    }
}
/// The client-bound play message: vehicle move.
pub struct VehicleMove {
    pub x: Double,
    pub y: Double,
    pub z: Double,
    pub yaw: Float,
    pub pitch: Float,
}

/// The model of a `VehicleMove`: each field by its model.
pub struct VehicleMoveView {
    pub x: u64,
    pub y: u64,
    pub z: u64,
    pub yaw: u32,
    pub pitch: u32,
}

impl DeepView for VehicleMove {
    type V = VehicleMoveView;

    open spec fn deep_view(&self) -> VehicleMoveView {
        VehicleMoveView {
            x: self.x.deep_view(),
            y: self.y.deep_view(),
            z: self.z.deep_view(),
            yaw: self.yaw.deep_view(),
            pitch: self.pitch.deep_view(),
        }
    }
}

impl Encodable for VehicleMove {
    /// The fields in order, with no framing.
    open spec fn spec_encode(m: VehicleMoveView) -> Result<Seq<u8>, CodecError> {
        then_encode(then_encode(then_encode(then_encode(<Double as Encodable>::spec_encode(m.x), <Double as Encodable>::spec_encode(m.y)), <Double as Encodable>::spec_encode(m.z)), <Float as Encodable>::spec_encode(m.yaw)), <Float as Encodable>::spec_encode(m.pitch))
    }

    /// The sum of the fields' sizes.
    open spec fn spec_size(m: VehicleMoveView) -> Result<nat, CodecError> {
        add_size_spec(add_size_spec(add_size_spec(add_size_spec(<Double as Encodable>::spec_size(m.x), <Double as Encodable>::spec_size(m.y)), <Double as Encodable>::spec_size(m.z)), <Float as Encodable>::spec_size(m.yaw)), <Float as Encodable>::spec_size(m.pitch))
    }

    proof fn lemma_size_faithful(m: VehicleMoveView) {
        <Double as Encodable>::lemma_size_faithful(m.x);
        <Double as Encodable>::lemma_size_faithful(m.y);
        <Double as Encodable>::lemma_size_faithful(m.z);
        <Float as Encodable>::lemma_size_faithful(m.yaw);
        <Float as Encodable>::lemma_size_faithful(m.pitch);
        lemma_then_size(<Double as Encodable>::spec_encode(m.x), <Double as Encodable>::spec_size(m.x), <Double as Encodable>::spec_encode(m.y), <Double as Encodable>::spec_size(m.y));
        lemma_then_size(then_encode(<Double as Encodable>::spec_encode(m.x), <Double as Encodable>::spec_encode(m.y)), add_size_spec(<Double as Encodable>::spec_size(m.x), <Double as Encodable>::spec_size(m.y)), <Double as Encodable>::spec_encode(m.z), <Double as Encodable>::spec_size(m.z));
        lemma_then_size(then_encode(then_encode(<Double as Encodable>::spec_encode(m.x), <Double as Encodable>::spec_encode(m.y)), <Double as Encodable>::spec_encode(m.z)), add_size_spec(add_size_spec(<Double as Encodable>::spec_size(m.x), <Double as Encodable>::spec_size(m.y)), <Double as Encodable>::spec_size(m.z)), <Float as Encodable>::spec_encode(m.yaw), <Float as Encodable>::spec_size(m.yaw));
        lemma_then_size(then_encode(then_encode(then_encode(<Double as Encodable>::spec_encode(m.x), <Double as Encodable>::spec_encode(m.y)), <Double as Encodable>::spec_encode(m.z)), <Float as Encodable>::spec_encode(m.yaw)), add_size_spec(add_size_spec(add_size_spec(<Double as Encodable>::spec_size(m.x), <Double as Encodable>::spec_size(m.y)), <Double as Encodable>::spec_size(m.z)), <Float as Encodable>::spec_size(m.yaw)), <Float as Encodable>::spec_encode(m.pitch), <Float as Encodable>::spec_size(m.pitch));
    }

    fn encode(&self, out: &mut Vec<u8>) -> (r: Result<(), CodecError>) {
        let ghost o0 = out@;
        let start = out.len();
        let ghost e0 = <Double as Encodable>::spec_encode(self.x.deep_view())->Ok_0;
        let ghost e1 = <Double as Encodable>::spec_encode(self.y.deep_view())->Ok_0;
        let ghost e2 = <Double as Encodable>::spec_encode(self.z.deep_view())->Ok_0;
        let ghost e3 = <Float as Encodable>::spec_encode(self.yaw.deep_view())->Ok_0;
        let ghost e4 = <Float as Encodable>::spec_encode(self.pitch.deep_view())->Ok_0;
        match self.x.encode(out) {
            Ok(_) => {},
            Err(e) => return Err(e),
        }
        match self.y.encode(out) {
            Ok(_) => {},
            Err(e) => {
                roll_back(out, Ghost(o0), Ghost(e0), start);
                return Err(e);
            },
        }
        proof {
            lemma_concat_assoc(o0, e0, e1);
        }
        match self.z.encode(out) {
            Ok(_) => {},
            Err(e) => {
                roll_back(out, Ghost(o0), Ghost(e0 + e1), start);
                return Err(e);
            },
        }
        proof {
            lemma_concat_assoc(o0, e0 + e1, e2);
        }
        match self.yaw.encode(out) {
            Ok(_) => {},
            Err(e) => {
                roll_back(out, Ghost(o0), Ghost(e0 + e1 + e2), start);
                return Err(e);
            },
        }
        proof {
            lemma_concat_assoc(o0, e0 + e1 + e2, e3);
        }
        match self.pitch.encode(out) {
            Ok(_) => {},
            Err(e) => {
                roll_back(out, Ghost(o0), Ghost(e0 + e1 + e2 + e3), start);
                return Err(e);
            },
        }
        proof {
            lemma_concat_assoc(o0, e0 + e1 + e2 + e3, e4);
        }
        Ok(())
    }

    fn size(&self) -> (r: Result<VarInt, CodecError>) {
        proof {
            <Double as Encodable>::lemma_size_faithful(self.x.deep_view());
            <Double as Encodable>::lemma_size_faithful(self.y.deep_view());
            <Double as Encodable>::lemma_size_faithful(self.z.deep_view());
            <Float as Encodable>::lemma_size_faithful(self.yaw.deep_view());
            <Float as Encodable>::lemma_size_faithful(self.pitch.deep_view());
        }
        let ghost w0 = <Double as Encodable>::spec_size(self.x.deep_view());
        let ghost w1 = <Double as Encodable>::spec_size(self.y.deep_view());
        let ghost w2 = <Double as Encodable>::spec_size(self.z.deep_view());
        let ghost w3 = <Float as Encodable>::spec_size(self.yaw.deep_view());
        let ghost w4 = <Float as Encodable>::spec_size(self.pitch.deep_view());
        let t0 = self.x.size();
        let t1 = add_size(t0, Ghost(w0), self.y.size(), Ghost(w1));
        let ghost c1 = add_size_spec(w0, w1);
        let t2 = add_size(t1, Ghost(c1), self.z.size(), Ghost(w2));
        let ghost c2 = add_size_spec(c1, w2);
        let t3 = add_size(t2, Ghost(c2), self.yaw.size(), Ghost(w3));
        let ghost c3 = add_size_spec(c2, w3);
        let t4 = add_size(t3, Ghost(c3), self.pitch.size(), Ghost(w4));
        t4
    }
}

impl Decodable for VehicleMove {
    open spec fn spec_decode(bytes: Seq<u8>) -> Result<(VehicleMoveView, nat), CodecError> {
        match decode_at::<Double>(bytes, 0) {
            Err(e) => Err(e),
            Ok((x, n0)) => match decode_at::<Double>(bytes, n0) {
                Err(e) => Err(e),
                Ok((y, n1)) => match decode_at::<Double>(bytes, n0 + n1) {
                    Err(e) => Err(e),
                    Ok((z, n2)) => match decode_at::<Float>(bytes, n0 + n1 + n2) {
                        Err(e) => Err(e),
                        Ok((yaw, n3)) => match decode_at::<Float>(bytes, n0 + n1 + n2 + n3) {
                            Err(e) => Err(e),
                            Ok((pitch, n4)) => Ok((VehicleMoveView { x, y, z, yaw, pitch }, n0 + n1 + n2 + n3 + n4)),
                        },
                    },
                },
            },
        }
    }

    proof fn lemma_decode_len(bytes: Seq<u8>) {
        lemma_decode_at::<Double>(bytes, 0);
        <Double as Decodable>::lemma_decode_len(bytes.subrange((0) as int, bytes.len() as int));
        if let Ok((x, n0)) = decode_at::<Double>(bytes, 0) {
            lemma_decode_at::<Double>(bytes, n0);
            <Double as Decodable>::lemma_decode_len(bytes.subrange((n0) as int, bytes.len() as int));
            if let Ok((y, n1)) = decode_at::<Double>(bytes, n0) {
                lemma_decode_at::<Double>(bytes, n0 + n1);
                <Double as Decodable>::lemma_decode_len(bytes.subrange((n0 + n1) as int, bytes.len() as int));
                if let Ok((z, n2)) = decode_at::<Double>(bytes, n0 + n1) {
                    lemma_decode_at::<Float>(bytes, n0 + n1 + n2);
                    <Float as Decodable>::lemma_decode_len(bytes.subrange((n0 + n1 + n2) as int, bytes.len() as int));
                    if let Ok((yaw, n3)) = decode_at::<Float>(bytes, n0 + n1 + n2) {
                        lemma_decode_at::<Float>(bytes, n0 + n1 + n2 + n3);
                        <Float as Decodable>::lemma_decode_len(bytes.subrange((n0 + n1 + n2 + n3) as int, bytes.len() as int));
                    }
                }
            }
        }
    }

    fn decode(reader: &mut ByteReader) -> (r: Result<VehicleMove, CodecError>) {
        let ghost r0 = *reader;
        let ghost rest0 = reader.rest();
        proof {
            ByteReader::lemma_rest_since(r0, *reader);
            lemma_decode_at::<Double>(rest0, (reader.pos() - r0.pos()) as nat);
        }
        let x = match <Double>::decode(reader) {
            Ok(v) => v,
            Err(e) => return Err(e),
        };
        proof {
            ByteReader::lemma_rest_since(r0, *reader);
            lemma_decode_at::<Double>(rest0, (reader.pos() - r0.pos()) as nat);
        }
        let y = match <Double>::decode(reader) {
            Ok(v) => v,
            Err(e) => return Err(e),
        };
        proof {
            ByteReader::lemma_rest_since(r0, *reader);
            lemma_decode_at::<Double>(rest0, (reader.pos() - r0.pos()) as nat);
        }
        let z = match <Double>::decode(reader) {
            Ok(v) => v,
            Err(e) => return Err(e),
        };
        proof {
            ByteReader::lemma_rest_since(r0, *reader);
            lemma_decode_at::<Float>(rest0, (reader.pos() - r0.pos()) as nat);
        }
        let yaw = match <Float>::decode(reader) {
            Ok(v) => v,
            Err(e) => return Err(e),
        };
        proof {
            ByteReader::lemma_rest_since(r0, *reader);
            lemma_decode_at::<Float>(rest0, (reader.pos() - r0.pos()) as nat);
        }
        let pitch = match <Float>::decode(reader) {
            Ok(v) => v,
            Err(e) => return Err(e),
        };
        Ok(VehicleMove { x, y, z, yaw, pitch })
    }
}

impl Codec for VehicleMove {
    open spec fn valid(m: VehicleMoveView) -> bool {
        &&& <Double as Codec>::valid(m.x)
        &&& <Double as Codec>::delimited()
        &&& <Double as Codec>::valid(m.y)
        &&& <Double as Codec>::delimited()
        &&& <Double as Codec>::valid(m.z)
        &&& <Double as Codec>::delimited()
        &&& <Float as Codec>::valid(m.yaw)
        &&& <Float as Codec>::delimited()
        &&& <Float as Codec>::valid(m.pitch)
    }

    open spec fn delimited() -> bool {
        <Float as Codec>::delimited()
    }

    proof fn lemma_round_trip(m: VehicleMoveView, rest: Seq<u8>) {
        let e0 = <Double as Encodable>::spec_encode(m.x)->Ok_0;
        let e1 = <Double as Encodable>::spec_encode(m.y)->Ok_0;
        let e2 = <Double as Encodable>::spec_encode(m.z)->Ok_0;
        let e3 = <Float as Encodable>::spec_encode(m.yaw)->Ok_0;
        let e4 = <Float as Encodable>::spec_encode(m.pitch)->Ok_0;
        let t4 = e4 + rest;
        let t3 = e3 + t4;
        let t2 = e2 + t3;
        let t1 = e1 + t2;
        let t0 = e0 + t1;
        assert(decode_at::<Double>(t0, (0) as nat) == Ok::<(<Double as DeepView>::V, nat), CodecError>((m.x, e0.len()))
            && <Double as Encodable>::spec_encode(m.x) == Ok::<Seq<u8>, CodecError>(e0)
            && decode_at::<Double>(t0, (e0.len()) as nat) == Ok::<(<Double as DeepView>::V, nat), CodecError>((m.y, e1.len()))
            && <Double as Encodable>::spec_encode(m.y) == Ok::<Seq<u8>, CodecError>(e1)
            && decode_at::<Double>(t0, (e0.len() + e1.len()) as nat) == Ok::<(<Double as DeepView>::V, nat), CodecError>((m.z, e2.len()))
            && <Double as Encodable>::spec_encode(m.z) == Ok::<Seq<u8>, CodecError>(e2)
            && decode_at::<Float>(t0, (e0.len() + e1.len() + e2.len()) as nat) == Ok::<(<Float as DeepView>::V, nat), CodecError>((m.yaw, e3.len()))
            && <Float as Encodable>::spec_encode(m.yaw) == Ok::<Seq<u8>, CodecError>(e3)
            && decode_at::<Float>(t0, (e0.len() + e1.len() + e2.len() + e3.len()) as nat) == Ok::<(<Float as DeepView>::V, nat), CodecError>((m.pitch, e4.len()))
            && <Float as Encodable>::spec_encode(m.pitch) == Ok::<Seq<u8>, CodecError>(e4)) by {
            lemma_subrange_all(t0);
            lemma_field_round_trip::<Double>(m.x, t0, (0) as nat, t1);
            lemma_field_round_trip::<Double>(m.y, t0, (e0.len()) as nat, t2);
            lemma_field_round_trip::<Double>(m.z, t0, (e0.len() + e1.len()) as nat, t3);
            lemma_field_round_trip::<Float>(m.yaw, t0, (e0.len() + e1.len() + e2.len()) as nat, t4);
            lemma_field_round_trip::<Float>(m.pitch, t0, (e0.len() + e1.len() + e2.len() + e3.len()) as nat, rest);
        }
        assert(e0 + e1 + e2 + e3 + e4 + rest == t0) by {
            lemma_concat_assoc(e0, e1, t2);
            lemma_concat_assoc(e0 + e1, e2, t3);
            lemma_concat_assoc(e0 + e1 + e2, e3, t4);
            lemma_concat_assoc(e0 + e1 + e2 + e3, e4, rest);
        }
        assert(Self::spec_encode(m) == Ok::<Seq<u8>, CodecError>(e0 + e1 + e2 + e3 + e4));
    }
}
/// The client-bound play message: open book.
pub struct OpenBook {
    pub hand: VarInt,
}

/// The model of a `OpenBook`: each field by its model.
pub struct OpenBookView {
    pub hand: i32,
}

impl DeepView for OpenBook {
    type V = OpenBookView;

    open spec fn deep_view(&self) -> OpenBookView {
        OpenBookView {
            hand: self.hand.deep_view(),
        }
    }
}

impl Encodable for OpenBook {
    /// The fields in order, with no framing.
    open spec fn spec_encode(m: OpenBookView) -> Result<Seq<u8>, CodecError> {
        <VarInt as Encodable>::spec_encode(m.hand)
    }

    /// The sum of the fields' sizes.
    open spec fn spec_size(m: OpenBookView) -> Result<nat, CodecError> {
        <VarInt as Encodable>::spec_size(m.hand)
    }

    proof fn lemma_size_faithful(m: OpenBookView) {
        <VarInt as Encodable>::lemma_size_faithful(m.hand);
    }

    fn encode(&self, out: &mut Vec<u8>) -> (r: Result<(), CodecError>) {
        self.hand.encode(out)
    }

    fn size(&self) -> (r: Result<VarInt, CodecError>) {
        self.hand.size()
    }
}

impl Decodable for OpenBook {
    open spec fn spec_decode(bytes: Seq<u8>) -> Result<(OpenBookView, nat), CodecError> {
        match decode_at::<VarInt>(bytes, 0) {
            Err(e) => Err(e),
            Ok((hand, n0)) => Ok((OpenBookView { hand }, n0)),
        }
    }

    proof fn lemma_decode_len(bytes: Seq<u8>) {
        lemma_decode_at::<VarInt>(bytes, 0);
        <VarInt as Decodable>::lemma_decode_len(bytes.subrange((0) as int, bytes.len() as int));
    }

    fn decode(reader: &mut ByteReader) -> (r: Result<OpenBook, CodecError>) {
        let ghost r0 = *reader;
        let ghost rest0 = reader.rest();
        proof {
            ByteReader::lemma_rest_since(r0, *reader);
            lemma_decode_at::<VarInt>(rest0, (reader.pos() - r0.pos()) as nat);
        }
        let hand = match <VarInt>::decode(reader) {
            Ok(v) => v,
            Err(e) => return Err(e),
        };
        Ok(OpenBook { hand })
    }
}

impl Codec for OpenBook {
    open spec fn valid(m: OpenBookView) -> bool {
        &&& <VarInt as Codec>::valid(m.hand)
    }

    open spec fn delimited() -> bool {
        <VarInt as Codec>::delimited()
    }

    proof fn lemma_round_trip(m: OpenBookView, rest: Seq<u8>) {
        let e0 = <VarInt as Encodable>::spec_encode(m.hand)->Ok_0;
        let t0 = e0 + rest;
        assert(decode_at::<VarInt>(t0, (0) as nat) == Ok::<(<VarInt as DeepView>::V, nat), CodecError>((m.hand, e0.len()))
            && <VarInt as Encodable>::spec_encode(m.hand) == Ok::<Seq<u8>, CodecError>(e0)) by {
            lemma_subrange_all(t0);
            lemma_field_round_trip::<VarInt>(m.hand, t0, (0) as nat, rest);
        }
    }
}
/// The client-bound play message: open window.
pub struct OpenWindow {
    pub window_id: VarInt,
    pub window_type: VarInt,
    pub window_title: ChatJson,
}

/// The model of a `OpenWindow`: each field by its model.
pub struct OpenWindowView {
    pub window_id: i32,
    pub window_type: i32,
    pub window_title: Seq<char>,
}

impl DeepView for OpenWindow {
    type V = OpenWindowView;

    open spec fn deep_view(&self) -> OpenWindowView {
        OpenWindowView {
            window_id: self.window_id.deep_view(),
            window_type: self.window_type.deep_view(),
            window_title: self.window_title.deep_view(),
        }
    }
}

impl Encodable for OpenWindow {
    /// The fields in order, with no framing.
    open spec fn spec_encode(m: OpenWindowView) -> Result<Seq<u8>, CodecError> {
        then_encode(then_encode(<VarInt as Encodable>::spec_encode(m.window_id), <VarInt as Encodable>::spec_encode(m.window_type)), <ChatJson as Encodable>::spec_encode(m.window_title))
    }

    /// The sum of the fields' sizes.
    open spec fn spec_size(m: OpenWindowView) -> Result<nat, CodecError> {
        add_size_spec(add_size_spec(<VarInt as Encodable>::spec_size(m.window_id), <VarInt as Encodable>::spec_size(m.window_type)), <ChatJson as Encodable>::spec_size(m.window_title))
    }

    proof fn lemma_size_faithful(m: OpenWindowView) {
        <VarInt as Encodable>::lemma_size_faithful(m.window_id);
        <VarInt as Encodable>::lemma_size_faithful(m.window_type);
        <ChatJson as Encodable>::lemma_size_faithful(m.window_title);
        lemma_then_size(<VarInt as Encodable>::spec_encode(m.window_id), <VarInt as Encodable>::spec_size(m.window_id), <VarInt as Encodable>::spec_encode(m.window_type), <VarInt as Encodable>::spec_size(m.window_type));
        lemma_then_size(then_encode(<VarInt as Encodable>::spec_encode(m.window_id), <VarInt as Encodable>::spec_encode(m.window_type)), add_size_spec(<VarInt as Encodable>::spec_size(m.window_id), <VarInt as Encodable>::spec_size(m.window_type)), <ChatJson as Encodable>::spec_encode(m.window_title), <ChatJson as Encodable>::spec_size(m.window_title));
    }

    fn encode(&self, out: &mut Vec<u8>) -> (r: Result<(), CodecError>) {
        let ghost o0 = out@;
        let start = out.len();
        let ghost e0 = <VarInt as Encodable>::spec_encode(self.window_id.deep_view())->Ok_0;
        let ghost e1 = <VarInt as Encodable>::spec_encode(self.window_type.deep_view())->Ok_0;
        let ghost e2 = <ChatJson as Encodable>::spec_encode(self.window_title.deep_view())->Ok_0;
        match self.window_id.encode(out) {
            Ok(_) => {},
            Err(e) => return Err(e),
        }
        match self.window_type.encode(out) {
            Ok(_) => {},
            Err(e) => {
                roll_back(out, Ghost(o0), Ghost(e0), start);
                return Err(e);
            },
        }
        proof {
            lemma_concat_assoc(o0, e0, e1);
        }
        match self.window_title.encode(out) {
            Ok(_) => {},
            Err(e) => {
                roll_back(out, Ghost(o0), Ghost(e0 + e1), start);
                return Err(e);
            },
        }
        proof {
            lemma_concat_assoc(o0, e0 + e1, e2);
        }
        Ok(())
    }

    fn size(&self) -> (r: Result<VarInt, CodecError>) {
        proof {
            <VarInt as Encodable>::lemma_size_faithful(self.window_id.deep_view());
            <VarInt as Encodable>::lemma_size_faithful(self.window_type.deep_view());
            <ChatJson as Encodable>::lemma_size_faithful(self.window_title.deep_view());
        }
        let ghost w0 = <VarInt as Encodable>::spec_size(self.window_id.deep_view());
        let ghost w1 = <VarInt as Encodable>::spec_size(self.window_type.deep_view());
        let ghost w2 = <ChatJson as Encodable>::spec_size(self.window_title.deep_view());
        let t0 = self.window_id.size();
        let t1 = add_size(t0, Ghost(w0), self.window_type.size(), Ghost(w1));
        let ghost c1 = add_size_spec(w0, w1);
        let t2 = add_size(t1, Ghost(c1), self.window_title.size(), Ghost(w2));
        t2
    }
}

impl Decodable for OpenWindow {
    open spec fn spec_decode(bytes: Seq<u8>) -> Result<(OpenWindowView, nat), CodecError> {
        match decode_at::<VarInt>(bytes, 0) {
            Err(e) => Err(e),
            Ok((window_id, n0)) => match decode_at::<VarInt>(bytes, n0) {
                Err(e) => Err(e),
                Ok((window_type, n1)) => match decode_at::<ChatJson>(bytes, n0 + n1) {
                    Err(e) => Err(e),
                    Ok((window_title, n2)) => Ok((OpenWindowView { window_id, window_type, window_title }, n0 + n1 + n2)),
                },
            },
        }
    }

    proof fn lemma_decode_len(bytes: Seq<u8>) {
        lemma_decode_at::<VarInt>(bytes, 0);
        <VarInt as Decodable>::lemma_decode_len(bytes.subrange((0) as int, bytes.len() as int));
        if let Ok((window_id, n0)) = decode_at::<VarInt>(bytes, 0) {
            lemma_decode_at::<VarInt>(bytes, n0);
            <VarInt as Decodable>::lemma_decode_len(bytes.subrange((n0) as int, bytes.len() as int));
            if let Ok((window_type, n1)) = decode_at::<VarInt>(bytes, n0) {
                lemma_decode_at::<ChatJson>(bytes, n0 + n1);
                <ChatJson as Decodable>::lemma_decode_len(bytes.subrange((n0 + n1) as int, bytes.len() as int));
            }
        }
    }

    fn decode(reader: &mut ByteReader) -> (r: Result<OpenWindow, CodecError>) {
        let ghost r0 = *reader;
        let ghost rest0 = reader.rest();
        proof {
            ByteReader::lemma_rest_since(r0, *reader);
            lemma_decode_at::<VarInt>(rest0, (reader.pos() - r0.pos()) as nat);
        }
        let window_id = match <VarInt>::decode(reader) {
            Ok(v) => v,
            Err(e) => return Err(e),
        };
        proof {
            ByteReader::lemma_rest_since(r0, *reader);
            lemma_decode_at::<VarInt>(rest0, (reader.pos() - r0.pos()) as nat);
        }
        let window_type = match <VarInt>::decode(reader) {
            Ok(v) => v,
            Err(e) => return Err(e),
        };
        proof {
            ByteReader::lemma_rest_since(r0, *reader);
            lemma_decode_at::<ChatJson>(rest0, (reader.pos() - r0.pos()) as nat);
        }
        let window_title = match <ChatJson>::decode(reader) {
            Ok(v) => v,
            Err(e) => return Err(e),
        };
        Ok(OpenWindow { window_id, window_type, window_title })
    }
}

impl Codec for OpenWindow {
    open spec fn valid(m: OpenWindowView) -> bool {
        &&& <VarInt as Codec>::valid(m.window_id)
        &&& <VarInt as Codec>::delimited()
        &&& <VarInt as Codec>::valid(m.window_type)
        &&& <VarInt as Codec>::delimited()
        &&& <ChatJson as Codec>::valid(m.window_title)
    }

    open spec fn delimited() -> bool {
        <ChatJson as Codec>::delimited()
    }

    proof fn lemma_round_trip(m: OpenWindowView, rest: Seq<u8>) {
        let e0 = <VarInt as Encodable>::spec_encode(m.window_id)->Ok_0;
        let e1 = <VarInt as Encodable>::spec_encode(m.window_type)->Ok_0;
        let e2 = <ChatJson as Encodable>::spec_encode(m.window_title)->Ok_0;
        let t2 = e2 + rest;
        let t1 = e1 + t2;
        let t0 = e0 + t1;
        assert(decode_at::<VarInt>(t0, (0) as nat) == Ok::<(<VarInt as DeepView>::V, nat), CodecError>((m.window_id, e0.len()))
            && <VarInt as Encodable>::spec_encode(m.window_id) == Ok::<Seq<u8>, CodecError>(e0)
            && decode_at::<VarInt>(t0, (e0.len()) as nat) == Ok::<(<VarInt as DeepView>::V, nat), CodecError>((m.window_type, e1.len()))
            && <VarInt as Encodable>::spec_encode(m.window_type) == Ok::<Seq<u8>, CodecError>(e1)
            && decode_at::<ChatJson>(t0, (e0.len() + e1.len()) as nat) == Ok::<(<ChatJson as DeepView>::V, nat), CodecError>((m.window_title, e2.len()))
            && <ChatJson as Encodable>::spec_encode(m.window_title) == Ok::<Seq<u8>, CodecError>(e2)) by {
            lemma_subrange_all(t0);
            lemma_field_round_trip::<VarInt>(m.window_id, t0, (0) as nat, t1);
            lemma_field_round_trip::<VarInt>(m.window_type, t0, (e0.len()) as nat, t2);
            lemma_field_round_trip::<ChatJson>(m.window_title, t0, (e0.len() + e1.len()) as nat, rest);
        }
        assert(e0 + e1 + e2 + rest == t0) by {
            lemma_concat_assoc(e0, e1, t2);
            lemma_concat_assoc(e0 + e1, e2, rest);
        }
        assert(Self::spec_encode(m) == Ok::<Seq<u8>, CodecError>(e0 + e1 + e2));
    }
}
/// The client-bound play message: open sign editor.
pub struct OpenSignEditor {
    pub location: Position,
}

/// The model of a `OpenSignEditor`: each field by its model.
pub struct OpenSignEditorView {
    pub location: (i64, i64, i64),
}

impl DeepView for OpenSignEditor {
    type V = OpenSignEditorView;

    open spec fn deep_view(&self) -> OpenSignEditorView {
        OpenSignEditorView {
            location: self.location.deep_view(),
        }
    }
}

impl Encodable for OpenSignEditor {
    /// The fields in order, with no framing.
    open spec fn spec_encode(m: OpenSignEditorView) -> Result<Seq<u8>, CodecError> {
        <Position as Encodable>::spec_encode(m.location)
    }

    /// The sum of the fields' sizes.
    open spec fn spec_size(m: OpenSignEditorView) -> Result<nat, CodecError> {
        <Position as Encodable>::spec_size(m.location)
    }

    proof fn lemma_size_faithful(m: OpenSignEditorView) {
        <Position as Encodable>::lemma_size_faithful(m.location);
    }

    fn encode(&self, out: &mut Vec<u8>) -> (r: Result<(), CodecError>) {
        self.location.encode(out)
    }

    fn size(&self) -> (r: Result<VarInt, CodecError>) {
        self.location.size()
    }
}

impl Decodable for OpenSignEditor {
    open spec fn spec_decode(bytes: Seq<u8>) -> Result<(OpenSignEditorView, nat), CodecError> {
        match decode_at::<Position>(bytes, 0) {
            Err(e) => Err(e),
            Ok((location, n0)) => Ok((OpenSignEditorView { location }, n0)),
        }
    }

    proof fn lemma_decode_len(bytes: Seq<u8>) {
        lemma_decode_at::<Position>(bytes, 0);
        <Position as Decodable>::lemma_decode_len(bytes.subrange((0) as int, bytes.len() as int));
    }

    fn decode(reader: &mut ByteReader) -> (r: Result<OpenSignEditor, CodecError>) {
        let ghost r0 = *reader;
        let ghost rest0 = reader.rest();
        proof {
            ByteReader::lemma_rest_since(r0, *reader);
            lemma_decode_at::<Position>(rest0, (reader.pos() - r0.pos()) as nat);
        }
        let location = match <Position>::decode(reader) {
            Ok(v) => v,
            Err(e) => return Err(e),
        };
        Ok(OpenSignEditor { location })
    }
}

impl Codec for OpenSignEditor {
    open spec fn valid(m: OpenSignEditorView) -> bool {
        &&& <Position as Codec>::valid(m.location)
    }

    open spec fn delimited() -> bool {
        <Position as Codec>::delimited()
    }

    proof fn lemma_round_trip(m: OpenSignEditorView, rest: Seq<u8>) {
        let e0 = <Position as Encodable>::spec_encode(m.location)->Ok_0;
        let t0 = e0 + rest;
        assert(decode_at::<Position>(t0, (0) as nat) == Ok::<(<Position as DeepView>::V, nat), CodecError>((m.location, e0.len()))
            && <Position as Encodable>::spec_encode(m.location) == Ok::<Seq<u8>, CodecError>(e0)) by {
            lemma_subrange_all(t0);
            lemma_field_round_trip::<Position>(m.location, t0, (0) as nat, rest);
        }
    }
}
/// The client-bound play message: ping.
pub struct Ping {
    pub id: i32,
}

/// The model of a `Ping`: each field by its model.
pub struct PingView {
    pub id: i32,
}

impl DeepView for Ping {
    type V = PingView;

    open spec fn deep_view(&self) -> PingView {
        PingView {
            id: self.id.deep_view(),
        }
    }
}

impl Encodable for Ping {
    /// The fields in order, with no framing.
    open spec fn spec_encode(m: PingView) -> Result<Seq<u8>, CodecError> {
        <i32 as Encodable>::spec_encode(m.id)
    }

    /// The sum of the fields' sizes.
    open spec fn spec_size(m: PingView) -> Result<nat, CodecError> {
        <i32 as Encodable>::spec_size(m.id)
    }

    proof fn lemma_size_faithful(m: PingView) {
        <i32 as Encodable>::lemma_size_faithful(m.id);
    }

    fn encode(&self, out: &mut Vec<u8>) -> (r: Result<(), CodecError>) {
        self.id.encode(out)
    }

    fn size(&self) -> (r: Result<VarInt, CodecError>) {
        self.id.size()
    }
}

impl Decodable for Ping {
    open spec fn spec_decode(bytes: Seq<u8>) -> Result<(PingView, nat), CodecError> {
        match decode_at::<i32>(bytes, 0) {
            Err(e) => Err(e),
            Ok((id, n0)) => Ok((PingView { id }, n0)),
        }
    }

    proof fn lemma_decode_len(bytes: Seq<u8>) {
        lemma_decode_at::<i32>(bytes, 0);
        <i32 as Decodable>::lemma_decode_len(bytes.subrange((0) as int, bytes.len() as int));
    }

    fn decode(reader: &mut ByteReader) -> (r: Result<Ping, CodecError>) {
        let ghost r0 = *reader;
        let ghost rest0 = reader.rest();
        proof {
            ByteReader::lemma_rest_since(r0, *reader);
            lemma_decode_at::<i32>(rest0, (reader.pos() - r0.pos()) as nat);
        }
        let id = match <i32>::decode(reader) {
            Ok(v) => v,
            Err(e) => return Err(e),
        };
        Ok(Ping { id })
    }
}

impl Codec for Ping {
    open spec fn valid(m: PingView) -> bool {
        &&& <i32 as Codec>::valid(m.id)
    }

    open spec fn delimited() -> bool {
        <i32 as Codec>::delimited()
    }

    proof fn lemma_round_trip(m: PingView, rest: Seq<u8>) {
        let e0 = <i32 as Encodable>::spec_encode(m.id)->Ok_0;
        let t0 = e0 + rest;
        assert(decode_at::<i32>(t0, (0) as nat) == Ok::<(<i32 as DeepView>::V, nat), CodecError>((m.id, e0.len()))
            && <i32 as Encodable>::spec_encode(m.id) == Ok::<Seq<u8>, CodecError>(e0)) by {
            lemma_subrange_all(t0);
            lemma_field_round_trip::<i32>(m.id, t0, (0) as nat, rest);
        }
    }
}
/// The client-bound play message: craft recipe response.
pub struct CraftRecipeResponse {
    pub window_id: i8,
    pub recipe: Identifier,
}

/// The model of a `CraftRecipeResponse`: each field by its model.
pub struct CraftRecipeResponseView {
    pub window_id: i8,
    pub recipe: Seq<char>,
}

impl DeepView for CraftRecipeResponse {
    type V = CraftRecipeResponseView;

    open spec fn deep_view(&self) -> CraftRecipeResponseView {
        CraftRecipeResponseView {
            window_id: self.window_id.deep_view(),
            recipe: self.recipe.deep_view(),
        }
    }
}

impl Encodable for CraftRecipeResponse {
    /// The fields in order, with no framing.
    open spec fn spec_encode(m: CraftRecipeResponseView) -> Result<Seq<u8>, CodecError> {
        then_encode(<i8 as Encodable>::spec_encode(m.window_id), <Identifier as Encodable>::spec_encode(m.recipe))
    }

    /// The sum of the fields' sizes.
    open spec fn spec_size(m: CraftRecipeResponseView) -> Result<nat, CodecError> {
        add_size_spec(<i8 as Encodable>::spec_size(m.window_id), <Identifier as Encodable>::spec_size(m.recipe))
    }

    proof fn lemma_size_faithful(m: CraftRecipeResponseView) {
        <i8 as Encodable>::lemma_size_faithful(m.window_id);
        <Identifier as Encodable>::lemma_size_faithful(m.recipe);
        lemma_then_size(<i8 as Encodable>::spec_encode(m.window_id), <i8 as Encodable>::spec_size(m.window_id), <Identifier as Encodable>::spec_encode(m.recipe), <Identifier as Encodable>::spec_size(m.recipe));
    }

    fn encode(&self, out: &mut Vec<u8>) -> (r: Result<(), CodecError>) {
        let ghost o0 = out@;
        let start = out.len();
        let ghost e0 = <i8 as Encodable>::spec_encode(self.window_id.deep_view())->Ok_0;
        let ghost e1 = <Identifier as Encodable>::spec_encode(self.recipe.deep_view())->Ok_0;
        match self.window_id.encode(out) {
            Ok(_) => {},
            Err(e) => return Err(e),
        }
        match self.recipe.encode(out) {
            Ok(_) => {},
            Err(e) => {
                roll_back(out, Ghost(o0), Ghost(e0), start);
                return Err(e);
            },
        }
        proof {
            lemma_concat_assoc(o0, e0, e1);
        }
        Ok(())
    }

    fn size(&self) -> (r: Result<VarInt, CodecError>) {
        proof {
            <i8 as Encodable>::lemma_size_faithful(self.window_id.deep_view());
            <Identifier as Encodable>::lemma_size_faithful(self.recipe.deep_view());
        }
        let ghost w0 = <i8 as Encodable>::spec_size(self.window_id.deep_view());
        let ghost w1 = <Identifier as Encodable>::spec_size(self.recipe.deep_view());
        let t0 = self.window_id.size();
        let t1 = add_size(t0, Ghost(w0), self.recipe.size(), Ghost(w1));
        t1
    }
}

impl Decodable for CraftRecipeResponse {
    open spec fn spec_decode(bytes: Seq<u8>) -> Result<(CraftRecipeResponseView, nat), CodecError> {
        match decode_at::<i8>(bytes, 0) {
            Err(e) => Err(e),
            Ok((window_id, n0)) => match decode_at::<Identifier>(bytes, n0) {
                Err(e) => Err(e),
                Ok((recipe, n1)) => Ok((CraftRecipeResponseView { window_id, recipe }, n0 + n1)),
            },
        }
    }

    proof fn lemma_decode_len(bytes: Seq<u8>) {
        lemma_decode_at::<i8>(bytes, 0);
        <i8 as Decodable>::lemma_decode_len(bytes.subrange((0) as int, bytes.len() as int));
        if let Ok((window_id, n0)) = decode_at::<i8>(bytes, 0) {
            lemma_decode_at::<Identifier>(bytes, n0);
            <Identifier as Decodable>::lemma_decode_len(bytes.subrange((n0) as int, bytes.len() as int));
        }
    }

    fn decode(reader: &mut ByteReader) -> (r: Result<CraftRecipeResponse, CodecError>) {
        let ghost r0 = *reader;
        let ghost rest0 = reader.rest();
        proof {
            ByteReader::lemma_rest_since(r0, *reader);
            lemma_decode_at::<i8>(rest0, (reader.pos() - r0.pos()) as nat);
        }
        let window_id = match <i8>::decode(reader) {
            Ok(v) => v,
            Err(e) => return Err(e),
        };
        proof {
            ByteReader::lemma_rest_since(r0, *reader);
            lemma_decode_at::<Identifier>(rest0, (reader.pos() - r0.pos()) as nat);
        }
        let recipe = match <Identifier>::decode(reader) {
            Ok(v) => v,
            Err(e) => return Err(e),
        };
        Ok(CraftRecipeResponse { window_id, recipe })
    }
}

impl Codec for CraftRecipeResponse {
    open spec fn valid(m: CraftRecipeResponseView) -> bool {
        &&& <i8 as Codec>::valid(m.window_id)
        &&& <i8 as Codec>::delimited()
        &&& <Identifier as Codec>::valid(m.recipe)
    }

    open spec fn delimited() -> bool {
        <Identifier as Codec>::delimited()
    }

    proof fn lemma_round_trip(m: CraftRecipeResponseView, rest: Seq<u8>) {
        let e0 = <i8 as Encodable>::spec_encode(m.window_id)->Ok_0;
        let e1 = <Identifier as Encodable>::spec_encode(m.recipe)->Ok_0;
        let t1 = e1 + rest;
        let t0 = e0 + t1;
        assert(decode_at::<i8>(t0, (0) as nat) == Ok::<(<i8 as DeepView>::V, nat), CodecError>((m.window_id, e0.len()))
            && <i8 as Encodable>::spec_encode(m.window_id) == Ok::<Seq<u8>, CodecError>(e0)
            && decode_at::<Identifier>(t0, (e0.len()) as nat) == Ok::<(<Identifier as DeepView>::V, nat), CodecError>((m.recipe, e1.len()))
            && <Identifier as Encodable>::spec_encode(m.recipe) == Ok::<Seq<u8>, CodecError>(e1)) by {
            lemma_subrange_all(t0);
            lemma_field_round_trip::<i8>(m.window_id, t0, (0) as nat, t1);
            lemma_field_round_trip::<Identifier>(m.recipe, t0, (e0.len()) as nat, rest);
        }
        assert(e0 + e1 + rest == t0) by {
            lemma_concat_assoc(e0, e1, rest);
        }
        assert(Self::spec_encode(m) == Ok::<Seq<u8>, CodecError>(e0 + e1));
    }
}
/// The client-bound play message: player abilities.
pub struct PlayerAbilities {
    pub flags: i8,
    pub flying_speed: Float,
    pub field_of_view_modifier: Float,
}

/// The model of a `PlayerAbilities`: each field by its model.
pub struct PlayerAbilitiesView {
    pub flags: i8,
    pub flying_speed: u32,
    pub field_of_view_modifier: u32,
}

impl DeepView for PlayerAbilities {
    type V = PlayerAbilitiesView;

    open spec fn deep_view(&self) -> PlayerAbilitiesView {
        PlayerAbilitiesView {
            flags: self.flags.deep_view(),
            flying_speed: self.flying_speed.deep_view(),
            field_of_view_modifier: self.field_of_view_modifier.deep_view(),
        }
    }
}

impl Encodable for PlayerAbilities {
    /// The fields in order, with no framing.
    open spec fn spec_encode(m: PlayerAbilitiesView) -> Result<Seq<u8>, CodecError> {
        then_encode(then_encode(<i8 as Encodable>::spec_encode(m.flags), <Float as Encodable>::spec_encode(m.flying_speed)), <Float as Encodable>::spec_encode(m.field_of_view_modifier))
    }

    /// The sum of the fields' sizes.
    open spec fn spec_size(m: PlayerAbilitiesView) -> Result<nat, CodecError> {
        add_size_spec(add_size_spec(<i8 as Encodable>::spec_size(m.flags), <Float as Encodable>::spec_size(m.flying_speed)), <Float as Encodable>::spec_size(m.field_of_view_modifier))
    }

    proof fn lemma_size_faithful(m: PlayerAbilitiesView) {
        <i8 as Encodable>::lemma_size_faithful(m.flags);
        <Float as Encodable>::lemma_size_faithful(m.flying_speed);
        <Float as Encodable>::lemma_size_faithful(m.field_of_view_modifier);
        lemma_then_size(<i8 as Encodable>::spec_encode(m.flags), <i8 as Encodable>::spec_size(m.flags), <Float as Encodable>::spec_encode(m.flying_speed), <Float as Encodable>::spec_size(m.flying_speed));
        lemma_then_size(then_encode(<i8 as Encodable>::spec_encode(m.flags), <Float as Encodable>::spec_encode(m.flying_speed)), add_size_spec(<i8 as Encodable>::spec_size(m.flags), <Float as Encodable>::spec_size(m.flying_speed)), <Float as Encodable>::spec_encode(m.field_of_view_modifier), <Float as Encodable>::spec_size(m.field_of_view_modifier));
    }

    fn encode(&self, out: &mut Vec<u8>) -> (r: Result<(), CodecError>) {
        let ghost o0 = out@;
        let start = out.len();
        let ghost e0 = <i8 as Encodable>::spec_encode(self.flags.deep_view())->Ok_0;
        let ghost e1 = <Float as Encodable>::spec_encode(self.flying_speed.deep_view())->Ok_0;
        let ghost e2 = <Float as Encodable>::spec_encode(self.field_of_view_modifier.deep_view())->Ok_0;
        match self.flags.encode(out) {
            Ok(_) => {},
            Err(e) => return Err(e),
        }
        match self.flying_speed.encode(out) {
            Ok(_) => {},
            Err(e) => {
                roll_back(out, Ghost(o0), Ghost(e0), start);
                return Err(e);
            },
        }
        proof {
            lemma_concat_assoc(o0, e0, e1);
        }
        match self.field_of_view_modifier.encode(out) {
            Ok(_) => {},
            Err(e) => {
                roll_back(out, Ghost(o0), Ghost(e0 + e1), start);
                return Err(e);
            },
        }
        proof {
            lemma_concat_assoc(o0, e0 + e1, e2);
        }
        Ok(())
    }

    fn size(&self) -> (r: Result<VarInt, CodecError>) {
        proof {
            <i8 as Encodable>::lemma_size_faithful(self.flags.deep_view());
            <Float as Encodable>::lemma_size_faithful(self.flying_speed.deep_view());
            <Float as Encodable>::lemma_size_faithful(self.field_of_view_modifier.deep_view());
        }
        let ghost w0 = <i8 as Encodable>::spec_size(self.flags.deep_view());
        let ghost w1 = <Float as Encodable>::spec_size(self.flying_speed.deep_view());
        let ghost w2 = <Float as Encodable>::spec_size(self.field_of_view_modifier.deep_view());
        let t0 = self.flags.size();
        let t1 = add_size(t0, Ghost(w0), self.flying_speed.size(), Ghost(w1));
        let ghost c1 = add_size_spec(w0, w1);
        let t2 = add_size(t1, Ghost(c1), self.field_of_view_modifier.size(), Ghost(w2));
        t2
    }
}

impl Decodable for PlayerAbilities {
    open spec fn spec_decode(bytes: Seq<u8>) -> Result<(PlayerAbilitiesView, nat), CodecError> {
        match decode_at::<i8>(bytes, 0) {
            Err(e) => Err(e),
            Ok((flags, n0)) => match decode_at::<Float>(bytes, n0) {
                Err(e) => Err(e),
                Ok((flying_speed, n1)) => match decode_at::<Float>(bytes, n0 + n1) {
                    Err(e) => Err(e),
                    Ok((field_of_view_modifier, n2)) => Ok((PlayerAbilitiesView { flags, flying_speed, field_of_view_modifier }, n0 + n1 + n2)),
                },
            },
        }
    }

    proof fn lemma_decode_len(bytes: Seq<u8>) {
        lemma_decode_at::<i8>(bytes, 0);
        <i8 as Decodable>::lemma_decode_len(bytes.subrange((0) as int, bytes.len() as int));
        if let Ok((flags, n0)) = decode_at::<i8>(bytes, 0) {
            lemma_decode_at::<Float>(bytes, n0);
            <Float as Decodable>::lemma_decode_len(bytes.subrange((n0) as int, bytes.len() as int));
            if let Ok((flying_speed, n1)) = decode_at::<Float>(bytes, n0) {
                lemma_decode_at::<Float>(bytes, n0 + n1);
                <Float as Decodable>::lemma_decode_len(bytes.subrange((n0 + n1) as int, bytes.len() as int));
            }
        }
    }

    fn decode(reader: &mut ByteReader) -> (r: Result<PlayerAbilities, CodecError>) {
        let ghost r0 = *reader;
        let ghost rest0 = reader.rest();
        proof {
            ByteReader::lemma_rest_since(r0, *reader);
            lemma_decode_at::<i8>(rest0, (reader.pos() - r0.pos()) as nat);
        }
        let flags = match <i8>::decode(reader) {
            Ok(v) => v,
            Err(e) => return Err(e),
        };
        proof {
            ByteReader::lemma_rest_since(r0, *reader);
            lemma_decode_at::<Float>(rest0, (reader.pos() - r0.pos()) as nat);
        }
        let flying_speed = match <Float>::decode(reader) {
            Ok(v) => v,
            Err(e) => return Err(e),
        };
        proof {
            ByteReader::lemma_rest_since(r0, *reader);
            lemma_decode_at::<Float>(rest0, (reader.pos() - r0.pos()) as nat);
        }
        let field_of_view_modifier = match <Float>::decode(reader) {
            Ok(v) => v,
            Err(e) => return Err(e),
        };
        Ok(PlayerAbilities { flags, flying_speed, field_of_view_modifier })
    }
}

impl Codec for PlayerAbilities {
    open spec fn valid(m: PlayerAbilitiesView) -> bool {
        &&& <i8 as Codec>::valid(m.flags)
        &&& <i8 as Codec>::delimited()
        &&& <Float as Codec>::valid(m.flying_speed)
        &&& <Float as Codec>::delimited()
        &&& <Float as Codec>::valid(m.field_of_view_modifier)
    }

    open spec fn delimited() -> bool {
        <Float as Codec>::delimited()
    }

    proof fn lemma_round_trip(m: PlayerAbilitiesView, rest: Seq<u8>) {
        let e0 = <i8 as Encodable>::spec_encode(m.flags)->Ok_0;
        let e1 = <Float as Encodable>::spec_encode(m.flying_speed)->Ok_0;
        let e2 = <Float as Encodable>::spec_encode(m.field_of_view_modifier)->Ok_0;
        let t2 = e2 + rest;
        let t1 = e1 + t2;
        let t0 = e0 + t1;
        assert(decode_at::<i8>(t0, (0) as nat) == Ok::<(<i8 as DeepView>::V, nat), CodecError>((m.flags, e0.len()))
            && <i8 as Encodable>::spec_encode(m.flags) == Ok::<Seq<u8>, CodecError>(e0)
            && decode_at::<Float>(t0, (e0.len()) as nat) == Ok::<(<Float as DeepView>::V, nat), CodecError>((m.flying_speed, e1.len()))
            && <Float as Encodable>::spec_encode(m.flying_speed) == Ok::<Seq<u8>, CodecError>(e1)
            && decode_at::<Float>(t0, (e0.len() + e1.len()) as nat) == Ok::<(<Float as DeepView>::V, nat), CodecError>((m.field_of_view_modifier, e2.len()))
            && <Float as Encodable>::spec_encode(m.field_of_view_modifier) == Ok::<Seq<u8>, CodecError>(e2)) by {
            lemma_subrange_all(t0);
            lemma_field_round_trip::<i8>(m.flags, t0, (0) as nat, t1);
            lemma_field_round_trip::<Float>(m.flying_speed, t0, (e0.len()) as nat, t2);
            lemma_field_round_trip::<Float>(m.field_of_view_modifier, t0, (e0.len() + e1.len()) as nat, rest);
        }
        assert(e0 + e1 + e2 + rest == t0) by {
            lemma_concat_assoc(e0, e1, t2);
            lemma_concat_assoc(e0 + e1, e2, rest);
        }
        assert(Self::spec_encode(m) == Ok::<Seq<u8>, CodecError>(e0 + e1 + e2));
    }
}
/// The client-bound play message: end combat event.
pub struct EndCombatEvent {
    pub duration: VarInt,
    pub entity_id: i32,
}

/// The model of a `EndCombatEvent`: each field by its model.
pub struct EndCombatEventView {
    pub duration: i32,
    pub entity_id: i32,
}

impl DeepView for EndCombatEvent {
    type V = EndCombatEventView;

    open spec fn deep_view(&self) -> EndCombatEventView {
        EndCombatEventView {
            duration: self.duration.deep_view(),
            entity_id: self.entity_id.deep_view(),
        }
    }
}

impl Encodable for EndCombatEvent {
    /// The fields in order, with no framing.
    open spec fn spec_encode(m: EndCombatEventView) -> Result<Seq<u8>, CodecError> {
        then_encode(<VarInt as Encodable>::spec_encode(m.duration), <i32 as Encodable>::spec_encode(m.entity_id))
    }

    /// The sum of the fields' sizes.
    open spec fn spec_size(m: EndCombatEventView) -> Result<nat, CodecError> {
        add_size_spec(<VarInt as Encodable>::spec_size(m.duration), <i32 as Encodable>::spec_size(m.entity_id))
    }

    proof fn lemma_size_faithful(m: EndCombatEventView) {
        <VarInt as Encodable>::lemma_size_faithful(m.duration);
        <i32 as Encodable>::lemma_size_faithful(m.entity_id);
        lemma_then_size(<VarInt as Encodable>::spec_encode(m.duration), <VarInt as Encodable>::spec_size(m.duration), <i32 as Encodable>::spec_encode(m.entity_id), <i32 as Encodable>::spec_size(m.entity_id));
    }

    fn encode(&self, out: &mut Vec<u8>) -> (r: Result<(), CodecError>) {
        let ghost o0 = out@;
        let start = out.len();
        let ghost e0 = <VarInt as Encodable>::spec_encode(self.duration.deep_view())->Ok_0;
        let ghost e1 = <i32 as Encodable>::spec_encode(self.entity_id.deep_view())->Ok_0;
        match self.duration.encode(out) {
            Ok(_) => {},
            Err(e) => return Err(e),
        }
        match self.entity_id.encode(out) {
            Ok(_) => {},
            Err(e) => {
                roll_back(out, Ghost(o0), Ghost(e0), start);
                return Err(e);
            },
        }
        proof {
            lemma_concat_assoc(o0, e0, e1);
        }
        Ok(())
    }

    fn size(&self) -> (r: Result<VarInt, CodecError>) {
        proof {
            <VarInt as Encodable>::lemma_size_faithful(self.duration.deep_view());
            <i32 as Encodable>::lemma_size_faithful(self.entity_id.deep_view());
        }
        let ghost w0 = <VarInt as Encodable>::spec_size(self.duration.deep_view());
        let ghost w1 = <i32 as Encodable>::spec_size(self.entity_id.deep_view());
        let t0 = self.duration.size();
        let t1 = add_size(t0, Ghost(w0), self.entity_id.size(), Ghost(w1));
        t1
    }
}

impl Decodable for EndCombatEvent {
    open spec fn spec_decode(bytes: Seq<u8>) -> Result<(EndCombatEventView, nat), CodecError> {
        match decode_at::<VarInt>(bytes, 0) {
            Err(e) => Err(e),
            Ok((duration, n0)) => match decode_at::<i32>(bytes, n0) {
                Err(e) => Err(e),
                Ok((entity_id, n1)) => Ok((EndCombatEventView { duration, entity_id }, n0 + n1)),
            },
        }
    }

    proof fn lemma_decode_len(bytes: Seq<u8>) {
        lemma_decode_at::<VarInt>(bytes, 0);
        <VarInt as Decodable>::lemma_decode_len(bytes.subrange((0) as int, bytes.len() as int));
        if let Ok((duration, n0)) = decode_at::<VarInt>(bytes, 0) {
            lemma_decode_at::<i32>(bytes, n0);
            <i32 as Decodable>::lemma_decode_len(bytes.subrange((n0) as int, bytes.len() as int));
        }
    }

    fn decode(reader: &mut ByteReader) -> (r: Result<EndCombatEvent, CodecError>) {
        let ghost r0 = *reader;
        let ghost rest0 = reader.rest();
        proof {
            ByteReader::lemma_rest_since(r0, *reader);
            lemma_decode_at::<VarInt>(rest0, (reader.pos() - r0.pos()) as nat);
        }
        let duration = match <VarInt>::decode(reader) {
            Ok(v) => v,
            Err(e) => return Err(e),
        };
        proof {
            ByteReader::lemma_rest_since(r0, *reader);
            lemma_decode_at::<i32>(rest0, (reader.pos() - r0.pos()) as nat);
        }
        let entity_id = match <i32>::decode(reader) {
            Ok(v) => v,
            Err(e) => return Err(e),
        };
        Ok(EndCombatEvent { duration, entity_id })
    }
}

impl Codec for EndCombatEvent {
    open spec fn valid(m: EndCombatEventView) -> bool {
        &&& <VarInt as Codec>::valid(m.duration)
        &&& <VarInt as Codec>::delimited()
        &&& <i32 as Codec>::valid(m.entity_id)
    }

    open spec fn delimited() -> bool {
        <i32 as Codec>::delimited()
    }

    proof fn lemma_round_trip(m: EndCombatEventView, rest: Seq<u8>) {
        let e0 = <VarInt as Encodable>::spec_encode(m.duration)->Ok_0;
        let e1 = <i32 as Encodable>::spec_encode(m.entity_id)->Ok_0;
        let t1 = e1 + rest;
        let t0 = e0 + t1;
        assert(decode_at::<VarInt>(t0, (0) as nat) == Ok::<(<VarInt as DeepView>::V, nat), CodecError>((m.duration, e0.len()))
            && <VarInt as Encodable>::spec_encode(m.duration) == Ok::<Seq<u8>, CodecError>(e0)
            && decode_at::<i32>(t0, (e0.len()) as nat) == Ok::<(<i32 as DeepView>::V, nat), CodecError>((m.entity_id, e1.len()))
            && <i32 as Encodable>::spec_encode(m.entity_id) == Ok::<Seq<u8>, CodecError>(e1)) by {
            lemma_subrange_all(t0);
            lemma_field_round_trip::<VarInt>(m.duration, t0, (0) as nat, t1);
            lemma_field_round_trip::<i32>(m.entity_id, t0, (e0.len()) as nat, rest);
        }
        assert(e0 + e1 + rest == t0) by {
            lemma_concat_assoc(e0, e1, rest);
        }
        assert(Self::spec_encode(m) == Ok::<Seq<u8>, CodecError>(e0 + e1));
    }
}
/// The client-bound play message: death combat event.
pub struct DeathCombatEvent {
    pub player_id: VarInt,
    pub entity_id: i32,
    pub message: ChatJson,
}

/// The model of a `DeathCombatEvent`: each field by its model.
pub struct DeathCombatEventView {
    pub player_id: i32,
    pub entity_id: i32,
    pub message: Seq<char>,
}

impl DeepView for DeathCombatEvent {
    type V = DeathCombatEventView;

    open spec fn deep_view(&self) -> DeathCombatEventView {
        DeathCombatEventView {
            player_id: self.player_id.deep_view(),
            entity_id: self.entity_id.deep_view(),
            message: self.message.deep_view(),
        }
    }
}

impl Encodable for DeathCombatEvent {
    /// The fields in order, with no framing.
    open spec fn spec_encode(m: DeathCombatEventView) -> Result<Seq<u8>, CodecError> {
        then_encode(then_encode(<VarInt as Encodable>::spec_encode(m.player_id), <i32 as Encodable>::spec_encode(m.entity_id)), <ChatJson as Encodable>::spec_encode(m.message))
    }

    /// The sum of the fields' sizes.
    open spec fn spec_size(m: DeathCombatEventView) -> Result<nat, CodecError> {
        add_size_spec(add_size_spec(<VarInt as Encodable>::spec_size(m.player_id), <i32 as Encodable>::spec_size(m.entity_id)), <ChatJson as Encodable>::spec_size(m.message))
    }

    proof fn lemma_size_faithful(m: DeathCombatEventView) {
        <VarInt as Encodable>::lemma_size_faithful(m.player_id);
        <i32 as Encodable>::lemma_size_faithful(m.entity_id);
        <ChatJson as Encodable>::lemma_size_faithful(m.message);
        lemma_then_size(<VarInt as Encodable>::spec_encode(m.player_id), <VarInt as Encodable>::spec_size(m.player_id), <i32 as Encodable>::spec_encode(m.entity_id), <i32 as Encodable>::spec_size(m.entity_id));
        lemma_then_size(then_encode(<VarInt as Encodable>::spec_encode(m.player_id), <i32 as Encodable>::spec_encode(m.entity_id)), add_size_spec(<VarInt as Encodable>::spec_size(m.player_id), <i32 as Encodable>::spec_size(m.entity_id)), <ChatJson as Encodable>::spec_encode(m.message), <ChatJson as Encodable>::spec_size(m.message));
    }

    fn encode(&self, out: &mut Vec<u8>) -> (r: Result<(), CodecError>) {
        let ghost o0 = out@;
        let start = out.len();
        let ghost e0 = <VarInt as Encodable>::spec_encode(self.player_id.deep_view())->Ok_0;
        let ghost e1 = <i32 as Encodable>::spec_encode(self.entity_id.deep_view())->Ok_0;
        let ghost e2 = <ChatJson as Encodable>::spec_encode(self.message.deep_view())->Ok_0;
        match self.player_id.encode(out) {
            Ok(_) => {},
            Err(e) => return Err(e),
        }
        match self.entity_id.encode(out) {
            Ok(_) => {},
            Err(e) => {
                roll_back(out, Ghost(o0), Ghost(e0), start);
                return Err(e);
            },
        }
        proof {
            lemma_concat_assoc(o0, e0, e1);
        }
        match self.message.encode(out) {
            Ok(_) => {},
            Err(e) => {
                roll_back(out, Ghost(o0), Ghost(e0 + e1), start);
                return Err(e);
            },
        }
        proof {
            lemma_concat_assoc(o0, e0 + e1, e2);
        }
        Ok(())
    }

    fn size(&self) -> (r: Result<VarInt, CodecError>) {
        proof {
            <VarInt as Encodable>::lemma_size_faithful(self.player_id.deep_view());
            <i32 as Encodable>::lemma_size_faithful(self.entity_id.deep_view());
            <ChatJson as Encodable>::lemma_size_faithful(self.message.deep_view());
        }
        let ghost w0 = <VarInt as Encodable>::spec_size(self.player_id.deep_view());
        let ghost w1 = <i32 as Encodable>::spec_size(self.entity_id.deep_view());
        let ghost w2 = <ChatJson as Encodable>::spec_size(self.message.deep_view());
        let t0 = self.player_id.size();
        let t1 = add_size(t0, Ghost(w0), self.entity_id.size(), Ghost(w1));
        let ghost c1 = add_size_spec(w0, w1);
        let t2 = add_size(t1, Ghost(c1), self.message.size(), Ghost(w2));
        t2
    }
}

impl Decodable for DeathCombatEvent {
    open spec fn spec_decode(bytes: Seq<u8>) -> Result<(DeathCombatEventView, nat), CodecError> {
        match decode_at::<VarInt>(bytes, 0) {
            Err(e) => Err(e),
            Ok((player_id, n0)) => match decode_at::<i32>(bytes, n0) {
                Err(e) => Err(e),
                Ok((entity_id, n1)) => match decode_at::<ChatJson>(bytes, n0 + n1) {
                    Err(e) => Err(e),
                    Ok((message, n2)) => Ok((DeathCombatEventView { player_id, entity_id, message }, n0 + n1 + n2)),
                },
            },
        }
    }

    proof fn lemma_decode_len(bytes: Seq<u8>) {
        lemma_decode_at::<VarInt>(bytes, 0);
        <VarInt as Decodable>::lemma_decode_len(bytes.subrange((0) as int, bytes.len() as int));
        if let Ok((player_id, n0)) = decode_at::<VarInt>(bytes, 0) {
            lemma_decode_at::<i32>(bytes, n0);
            <i32 as Decodable>::lemma_decode_len(bytes.subrange((n0) as int, bytes.len() as int));
            if let Ok((entity_id, n1)) = decode_at::<i32>(bytes, n0) {
                lemma_decode_at::<ChatJson>(bytes, n0 + n1);
                <ChatJson as Decodable>::lemma_decode_len(bytes.subrange((n0 + n1) as int, bytes.len() as int));
            }
        }
    }

    fn decode(reader: &mut ByteReader) -> (r: Result<DeathCombatEvent, CodecError>) {
        let ghost r0 = *reader;
        let ghost rest0 = reader.rest();
        proof {
            ByteReader::lemma_rest_since(r0, *reader);
            lemma_decode_at::<VarInt>(rest0, (reader.pos() - r0.pos()) as nat);
        }
        let player_id = match <VarInt>::decode(reader) {
            Ok(v) => v,
            Err(e) => return Err(e),
        };
        proof {
            ByteReader::lemma_rest_since(r0, *reader);
            lemma_decode_at::<i32>(rest0, (reader.pos() - r0.pos()) as nat);
        }
        let entity_id = match <i32>::decode(reader) {
            Ok(v) => v,
            Err(e) => return Err(e),
        };
        proof {
            ByteReader::lemma_rest_since(r0, *reader);
            lemma_decode_at::<ChatJson>(rest0, (reader.pos() - r0.pos()) as nat);
        }
        let message = match <ChatJson>::decode(reader) {
            Ok(v) => v,
            Err(e) => return Err(e),
        };
        Ok(DeathCombatEvent { player_id, entity_id, message })
    }
}

impl Codec for DeathCombatEvent {
    open spec fn valid(m: DeathCombatEventView) -> bool {
        &&& <VarInt as Codec>::valid(m.player_id)
        &&& <VarInt as Codec>::delimited()
        &&& <i32 as Codec>::valid(m.entity_id)
        &&& <i32 as Codec>::delimited()
        &&& <ChatJson as Codec>::valid(m.message)
    }

    open spec fn delimited() -> bool {
        <ChatJson as Codec>::delimited()
    }

    proof fn lemma_round_trip(m: DeathCombatEventView, rest: Seq<u8>) {
        let e0 = <VarInt as Encodable>::spec_encode(m.player_id)->Ok_0;
        let e1 = <i32 as Encodable>::spec_encode(m.entity_id)->Ok_0;
        let e2 = <ChatJson as Encodable>::spec_encode(m.message)->Ok_0;
        let t2 = e2 + rest;
        let t1 = e1 + t2;
        let t0 = e0 + t1;
        assert(decode_at::<VarInt>(t0, (0) as nat) == Ok::<(<VarInt as DeepView>::V, nat), CodecError>((m.player_id, e0.len()))
            && <VarInt as Encodable>::spec_encode(m.player_id) == Ok::<Seq<u8>, CodecError>(e0)
            && decode_at::<i32>(t0, (e0.len()) as nat) == Ok::<(<i32 as DeepView>::V, nat), CodecError>((m.entity_id, e1.len()))
            && <i32 as Encodable>::spec_encode(m.entity_id) == Ok::<Seq<u8>, CodecError>(e1)
            && decode_at::<ChatJson>(t0, (e0.len() + e1.len()) as nat) == Ok::<(<ChatJson as DeepView>::V, nat), CodecError>((m.message, e2.len()))
            && <ChatJson as Encodable>::spec_encode(m.message) == Ok::<Seq<u8>, CodecError>(e2)) by {
            lemma_subrange_all(t0);
            lemma_field_round_trip::<VarInt>(m.player_id, t0, (0) as nat, t1);
            lemma_field_round_trip::<i32>(m.entity_id, t0, (e0.len()) as nat, t2);
            lemma_field_round_trip::<ChatJson>(m.message, t0, (e0.len() + e1.len()) as nat, rest);
        }
        assert(e0 + e1 + e2 + rest == t0) by {
            lemma_concat_assoc(e0, e1, t2);
            lemma_concat_assoc(e0 + e1, e2, rest);
        }
        assert(Self::spec_encode(m) == Ok::<Seq<u8>, CodecError>(e0 + e1 + e2));
    }
}
/// The client-bound play message: face player.
pub struct FacePlayer {
    pub feet_eyes: VarInt,
    pub target_x: Double,
    pub target_y: Double,
    pub target_z: Double,
    pub is_entity: bool,
    pub entity_id: Option<VarInt>,
    pub entity_feet_eyes: Option<VarInt>,
}

/// The model of a `FacePlayer`: each field by its model.
pub struct FacePlayerView {
    pub feet_eyes: i32,
    pub target_x: u64,
    pub target_y: u64,
    pub target_z: u64,
    pub is_entity: bool,
    pub entity_id: Option<i32>,
    pub entity_feet_eyes: Option<i32>,
}

impl DeepView for FacePlayer {
    type V = FacePlayerView;

    open spec fn deep_view(&self) -> FacePlayerView {
        FacePlayerView {
            feet_eyes: self.feet_eyes.deep_view(),
            target_x: self.target_x.deep_view(),
            target_y: self.target_y.deep_view(),
            target_z: self.target_z.deep_view(),
            is_entity: self.is_entity.deep_view(),
            entity_id: self.entity_id.deep_view(),
            entity_feet_eyes: self.entity_feet_eyes.deep_view(),
        }
    }
}

impl Encodable for FacePlayer {
    /// The fields in order, with no framing.
    open spec fn spec_encode(m: FacePlayerView) -> Result<Seq<u8>, CodecError> {
        then_encode(then_encode(then_encode(then_encode(then_encode(then_encode(<VarInt as Encodable>::spec_encode(m.feet_eyes), <Double as Encodable>::spec_encode(m.target_x)), <Double as Encodable>::spec_encode(m.target_y)), <Double as Encodable>::spec_encode(m.target_z)), <bool as Encodable>::spec_encode(m.is_entity)), <Option<VarInt> as Encodable>::spec_encode(m.entity_id)), <Option<VarInt> as Encodable>::spec_encode(m.entity_feet_eyes))
    }

    /// The sum of the fields' sizes.
    open spec fn spec_size(m: FacePlayerView) -> Result<nat, CodecError> {
        add_size_spec(add_size_spec(add_size_spec(add_size_spec(add_size_spec(add_size_spec(<VarInt as Encodable>::spec_size(m.feet_eyes), <Double as Encodable>::spec_size(m.target_x)), <Double as Encodable>::spec_size(m.target_y)), <Double as Encodable>::spec_size(m.target_z)), <bool as Encodable>::spec_size(m.is_entity)), <Option<VarInt> as Encodable>::spec_size(m.entity_id)), <Option<VarInt> as Encodable>::spec_size(m.entity_feet_eyes))
    }

    proof fn lemma_size_faithful(m: FacePlayerView) {
        <VarInt as Encodable>::lemma_size_faithful(m.feet_eyes);
        <Double as Encodable>::lemma_size_faithful(m.target_x);
        <Double as Encodable>::lemma_size_faithful(m.target_y);
        <Double as Encodable>::lemma_size_faithful(m.target_z);
        <bool as Encodable>::lemma_size_faithful(m.is_entity);
        <Option<VarInt> as Encodable>::lemma_size_faithful(m.entity_id);
        <Option<VarInt> as Encodable>::lemma_size_faithful(m.entity_feet_eyes);
        lemma_then_size(<VarInt as Encodable>::spec_encode(m.feet_eyes), <VarInt as Encodable>::spec_size(m.feet_eyes), <Double as Encodable>::spec_encode(m.target_x), <Double as Encodable>::spec_size(m.target_x));
        lemma_then_size(then_encode(<VarInt as Encodable>::spec_encode(m.feet_eyes), <Double as Encodable>::spec_encode(m.target_x)), add_size_spec(<VarInt as Encodable>::spec_size(m.feet_eyes), <Double as Encodable>::spec_size(m.target_x)), <Double as Encodable>::spec_encode(m.target_y), <Double as Encodable>::spec_size(m.target_y));
        lemma_then_size(then_encode(then_encode(<VarInt as Encodable>::spec_encode(m.feet_eyes), <Double as Encodable>::spec_encode(m.target_x)), <Double as Encodable>::spec_encode(m.target_y)), add_size_spec(add_size_spec(<VarInt as Encodable>::spec_size(m.feet_eyes), <Double as Encodable>::spec_size(m.target_x)), <Double as Encodable>::spec_size(m.target_y)), <Double as Encodable>::spec_encode(m.target_z), <Double as Encodable>::spec_size(m.target_z));
        lemma_then_size(then_encode(then_encode(then_encode(<VarInt as Encodable>::spec_encode(m.feet_eyes), <Double as Encodable>::spec_encode(m.target_x)), <Double as Encodable>::spec_encode(m.target_y)), <Double as Encodable>::spec_encode(m.target_z)), add_size_spec(add_size_spec(add_size_spec(<VarInt as Encodable>::spec_size(m.feet_eyes), <Double as Encodable>::spec_size(m.target_x)), <Double as Encodable>::spec_size(m.target_y)), <Double as Encodable>::spec_size(m.target_z)), <bool as Encodable>::spec_encode(m.is_entity), <bool as Encodable>::spec_size(m.is_entity));
        lemma_then_size(then_encode(then_encode(then_encode(then_encode(<VarInt as Encodable>::spec_encode(m.feet_eyes), <Double as Encodable>::spec_encode(m.target_x)), <Double as Encodable>::spec_encode(m.target_y)), <Double as Encodable>::spec_encode(m.target_z)), <bool as Encodable>::spec_encode(m.is_entity)), add_size_spec(add_size_spec(add_size_spec(add_size_spec(<VarInt as Encodable>::spec_size(m.feet_eyes), <Double as Encodable>::spec_size(m.target_x)), <Double as Encodable>::spec_size(m.target_y)), <Double as Encodable>::spec_size(m.target_z)), <bool as Encodable>::spec_size(m.is_entity)), <Option<VarInt> as Encodable>::spec_encode(m.entity_id), <Option<VarInt> as Encodable>::spec_size(m.entity_id));
        lemma_then_size(then_encode(then_encode(then_encode(then_encode(then_encode(<VarInt as Encodable>::spec_encode(m.feet_eyes), <Double as Encodable>::spec_encode(m.target_x)), <Double as Encodable>::spec_encode(m.target_y)), <Double as Encodable>::spec_encode(m.target_z)), <bool as Encodable>::spec_encode(m.is_entity)), <Option<VarInt> as Encodable>::spec_encode(m.entity_id)), add_size_spec(add_size_spec(add_size_spec(add_size_spec(add_size_spec(<VarInt as Encodable>::spec_size(m.feet_eyes), <Double as Encodable>::spec_size(m.target_x)), <Double as Encodable>::spec_size(m.target_y)), <Double as Encodable>::spec_size(m.target_z)), <bool as Encodable>::spec_size(m.is_entity)), <Option<VarInt> as Encodable>::spec_size(m.entity_id)), <Option<VarInt> as Encodable>::spec_encode(m.entity_feet_eyes), <Option<VarInt> as Encodable>::spec_size(m.entity_feet_eyes));
    }

    fn encode(&self, out: &mut Vec<u8>) -> (r: Result<(), CodecError>) {
        let ghost o0 = out@;
        let start = out.len();
        let ghost e0 = <VarInt as Encodable>::spec_encode(self.feet_eyes.deep_view())->Ok_0;
        let ghost e1 = <Double as Encodable>::spec_encode(self.target_x.deep_view())->Ok_0;
        let ghost e2 = <Double as Encodable>::spec_encode(self.target_y.deep_view())->Ok_0;
        let ghost e3 = <Double as Encodable>::spec_encode(self.target_z.deep_view())->Ok_0;
        let ghost e4 = <bool as Encodable>::spec_encode(self.is_entity.deep_view())->Ok_0;
        let ghost e5 = <Option<VarInt> as Encodable>::spec_encode(self.entity_id.deep_view())->Ok_0;
        let ghost e6 = <Option<VarInt> as Encodable>::spec_encode(self.entity_feet_eyes.deep_view())->Ok_0;
        match self.feet_eyes.encode(out) {
            Ok(_) => {},
            Err(e) => return Err(e),
        }
        match self.target_x.encode(out) {
            Ok(_) => {},
            Err(e) => {
                roll_back(out, Ghost(o0), Ghost(e0), start);
                return Err(e);
            },
        }
        proof {
            lemma_concat_assoc(o0, e0, e1);
        }
        match self.target_y.encode(out) {
            Ok(_) => {},
            Err(e) => {
                roll_back(out, Ghost(o0), Ghost(e0 + e1), start);
                return Err(e);
            },
        }
        proof {
            lemma_concat_assoc(o0, e0 + e1, e2);
        }
        match self.target_z.encode(out) {
            Ok(_) => {},
            Err(e) => {
                roll_back(out, Ghost(o0), Ghost(e0 + e1 + e2), start);
                return Err(e);
            },
        }
        proof {
            lemma_concat_assoc(o0, e0 + e1 + e2, e3);
        }
        match self.is_entity.encode(out) {
            Ok(_) => {},
            Err(e) => {
                roll_back(out, Ghost(o0), Ghost(e0 + e1 + e2 + e3), start);
                return Err(e);
            },
        }
        proof {
            lemma_concat_assoc(o0, e0 + e1 + e2 + e3, e4);
        }
        match self.entity_id.encode(out) {
            Ok(_) => {},
            Err(e) => {
                roll_back(out, Ghost(o0), Ghost(e0 + e1 + e2 + e3 + e4), start);
                return Err(e);
            },
        }
        proof {
            lemma_concat_assoc(o0, e0 + e1 + e2 + e3 + e4, e5);
        }
        match self.entity_feet_eyes.encode(out) {
            Ok(_) => {},
            Err(e) => {
                roll_back(out, Ghost(o0), Ghost(e0 + e1 + e2 + e3 + e4 + e5), start);
                return Err(e);
            },
        }
        proof {
            lemma_concat_assoc(o0, e0 + e1 + e2 + e3 + e4 + e5, e6);
        }
        Ok(())
    }

    fn size(&self) -> (r: Result<VarInt, CodecError>) {
        proof {
            <VarInt as Encodable>::lemma_size_faithful(self.feet_eyes.deep_view());
            <Double as Encodable>::lemma_size_faithful(self.target_x.deep_view());
            <Double as Encodable>::lemma_size_faithful(self.target_y.deep_view());
            <Double as Encodable>::lemma_size_faithful(self.target_z.deep_view());
            <bool as Encodable>::lemma_size_faithful(self.is_entity.deep_view());
            <Option<VarInt> as Encodable>::lemma_size_faithful(self.entity_id.deep_view());
            <Option<VarInt> as Encodable>::lemma_size_faithful(self.entity_feet_eyes.deep_view());
        }
        let ghost w0 = <VarInt as Encodable>::spec_size(self.feet_eyes.deep_view());
        let ghost w1 = <Double as Encodable>::spec_size(self.target_x.deep_view());
        let ghost w2 = <Double as Encodable>::spec_size(self.target_y.deep_view());
        let ghost w3 = <Double as Encodable>::spec_size(self.target_z.deep_view());
        let ghost w4 = <bool as Encodable>::spec_size(self.is_entity.deep_view());
        let ghost w5 = <Option<VarInt> as Encodable>::spec_size(self.entity_id.deep_view());
        let ghost w6 = <Option<VarInt> as Encodable>::spec_size(self.entity_feet_eyes.deep_view());
        let t0 = self.feet_eyes.size();
        let t1 = add_size(t0, Ghost(w0), self.target_x.size(), Ghost(w1));
        let ghost c1 = add_size_spec(w0, w1);
        let t2 = add_size(t1, Ghost(c1), self.target_y.size(), Ghost(w2));
        let ghost c2 = add_size_spec(c1, w2);
        let t3 = add_size(t2, Ghost(c2), self.target_z.size(), Ghost(w3));
        let ghost c3 = add_size_spec(c2, w3);
        let t4 = add_size(t3, Ghost(c3), self.is_entity.size(), Ghost(w4));
        let ghost c4 = add_size_spec(c3, w4);
        let t5 = add_size(t4, Ghost(c4), self.entity_id.size(), Ghost(w5));
        let ghost c5 = add_size_spec(c4, w5);
        let t6 = add_size(t5, Ghost(c5), self.entity_feet_eyes.size(), Ghost(w6));
        t6
    }
}

impl Decodable for FacePlayer {
    open spec fn spec_decode(bytes: Seq<u8>) -> Result<(FacePlayerView, nat), CodecError> {
        match decode_at::<VarInt>(bytes, 0) {
            Err(e) => Err(e),
            Ok((feet_eyes, n0)) => match decode_at::<Double>(bytes, n0) {
                Err(e) => Err(e),
                Ok((target_x, n1)) => match decode_at::<Double>(bytes, n0 + n1) {
                    Err(e) => Err(e),
                    Ok((target_y, n2)) => match decode_at::<Double>(bytes, n0 + n1 + n2) {
                        Err(e) => Err(e),
                        Ok((target_z, n3)) => match decode_at::<bool>(bytes, n0 + n1 + n2 + n3) {
                            Err(e) => Err(e),
                            Ok((is_entity, n4)) => match decode_if::<VarInt>(is_entity, bytes, n0 + n1 + n2 + n3 + n4) {
                                Err(e) => Err(e),
                                Ok((entity_id, n5)) => match decode_if::<VarInt>(is_entity, bytes, n0 + n1 + n2 + n3 + n4 + n5) {
                                    Err(e) => Err(e),
                                    Ok((entity_feet_eyes, n6)) => Ok((FacePlayerView { feet_eyes, target_x, target_y, target_z, is_entity, entity_id, entity_feet_eyes }, n0 + n1 + n2 + n3 + n4 + n5 + n6)),
                                },
                            },
                        },
                    },
                },
            },
        }
    }

    proof fn lemma_decode_len(bytes: Seq<u8>) {
        lemma_decode_at::<VarInt>(bytes, 0);
        <VarInt as Decodable>::lemma_decode_len(bytes.subrange((0) as int, bytes.len() as int));
        if let Ok((feet_eyes, n0)) = decode_at::<VarInt>(bytes, 0) {
            lemma_decode_at::<Double>(bytes, n0);
            <Double as Decodable>::lemma_decode_len(bytes.subrange((n0) as int, bytes.len() as int));
            if let Ok((target_x, n1)) = decode_at::<Double>(bytes, n0) {
                lemma_decode_at::<Double>(bytes, n0 + n1);
                <Double as Decodable>::lemma_decode_len(bytes.subrange((n0 + n1) as int, bytes.len() as int));
                if let Ok((target_y, n2)) = decode_at::<Double>(bytes, n0 + n1) {
                    lemma_decode_at::<Double>(bytes, n0 + n1 + n2);
                    <Double as Decodable>::lemma_decode_len(bytes.subrange((n0 + n1 + n2) as int, bytes.len() as int));
                    if let Ok((target_z, n3)) = decode_at::<Double>(bytes, n0 + n1 + n2) {
                        lemma_decode_at::<bool>(bytes, n0 + n1 + n2 + n3);
                        <bool as Decodable>::lemma_decode_len(bytes.subrange((n0 + n1 + n2 + n3) as int, bytes.len() as int));
                        if let Ok((is_entity, n4)) = decode_at::<bool>(bytes, n0 + n1 + n2 + n3) {
                            lemma_decode_if::<VarInt>(is_entity, bytes, n0 + n1 + n2 + n3 + n4);
                            if is_entity {
                                <VarInt as Decodable>::lemma_decode_len(bytes.subrange((n0 + n1 + n2 + n3 + n4) as int, bytes.len() as int));
                            }
                            if let Ok((entity_id, n5)) = decode_if::<VarInt>(is_entity, bytes, n0 + n1 + n2 + n3 + n4) {
                                lemma_decode_if::<VarInt>(is_entity, bytes, n0 + n1 + n2 + n3 + n4 + n5);
                                if is_entity {
                                    <VarInt as Decodable>::lemma_decode_len(bytes.subrange((n0 + n1 + n2 + n3 + n4 + n5) as int, bytes.len() as int));
                                }
                            }
                        }
                    }
                }
            }
        }
    }

    fn decode(reader: &mut ByteReader) -> (r: Result<FacePlayer, CodecError>) {
        let ghost r0 = *reader;
        let ghost rest0 = reader.rest();
        proof {
            ByteReader::lemma_rest_since(r0, *reader);
            lemma_decode_at::<VarInt>(rest0, (reader.pos() - r0.pos()) as nat);
        }
        let feet_eyes = match <VarInt>::decode(reader) {
            Ok(v) => v,
            Err(e) => return Err(e),
        };
        proof {
            ByteReader::lemma_rest_since(r0, *reader);
            lemma_decode_at::<Double>(rest0, (reader.pos() - r0.pos()) as nat);
        }
        let target_x = match <Double>::decode(reader) {
            Ok(v) => v,
            Err(e) => return Err(e),
        };
        proof {
            ByteReader::lemma_rest_since(r0, *reader);
            lemma_decode_at::<Double>(rest0, (reader.pos() - r0.pos()) as nat);
        }
        let target_y = match <Double>::decode(reader) {
            Ok(v) => v,
            Err(e) => return Err(e),
        };
        proof {
            ByteReader::lemma_rest_since(r0, *reader);
            lemma_decode_at::<Double>(rest0, (reader.pos() - r0.pos()) as nat);
        }
        let target_z = match <Double>::decode(reader) {
            Ok(v) => v,
            Err(e) => return Err(e),
        };
        proof {
            ByteReader::lemma_rest_since(r0, *reader);
            lemma_decode_at::<bool>(rest0, (reader.pos() - r0.pos()) as nat);
        }
        let is_entity = match <bool>::decode(reader) {
            Ok(v) => v,
            Err(e) => return Err(e),
        };
        proof {
            ByteReader::lemma_rest_since(r0, *reader);
            lemma_decode_if::<VarInt>(is_entity, rest0, (reader.pos() - r0.pos()) as nat);
        }
        let entity_id = if is_entity {
            match <VarInt>::decode(reader) {
                Ok(v) => Some(v),
                Err(e) => return Err(e),
            }
        } else {
            None
        };
        proof {
            ByteReader::lemma_rest_since(r0, *reader);
            lemma_decode_if::<VarInt>(is_entity, rest0, (reader.pos() - r0.pos()) as nat);
        }
        let entity_feet_eyes = if is_entity {
            match <VarInt>::decode(reader) {
                Ok(v) => Some(v),
                Err(e) => return Err(e),
            }
        } else {
            None
        };
        Ok(FacePlayer { feet_eyes, target_x, target_y, target_z, is_entity, entity_id, entity_feet_eyes })
    }
}

impl Codec for FacePlayer {
    open spec fn valid(m: FacePlayerView) -> bool {
        &&& <VarInt as Codec>::valid(m.feet_eyes)
        &&& <VarInt as Codec>::delimited()
        &&& <Double as Codec>::valid(m.target_x)
        &&& <Double as Codec>::delimited()
        &&& <Double as Codec>::valid(m.target_y)
        &&& <Double as Codec>::delimited()
        &&& <Double as Codec>::valid(m.target_z)
        &&& <Double as Codec>::delimited()
        &&& <bool as Codec>::valid(m.is_entity)
        &&& <bool as Codec>::delimited()
        &&& if m.is_entity {
            m.entity_id matches Some(v) && <VarInt as Codec>::valid(v)
        } else {
            m.entity_id is None
        }
        &&& <VarInt as Codec>::delimited()
        &&& if m.is_entity {
            m.entity_feet_eyes matches Some(v) && <VarInt as Codec>::valid(v)
        } else {
            m.entity_feet_eyes is None
        }
    }

    open spec fn delimited() -> bool {
        <VarInt as Codec>::delimited()
    }

    proof fn lemma_round_trip(m: FacePlayerView, rest: Seq<u8>) {
        let e0 = <VarInt as Encodable>::spec_encode(m.feet_eyes)->Ok_0;
        let e1 = <Double as Encodable>::spec_encode(m.target_x)->Ok_0;
        let e2 = <Double as Encodable>::spec_encode(m.target_y)->Ok_0;
        let e3 = <Double as Encodable>::spec_encode(m.target_z)->Ok_0;
        let e4 = <bool as Encodable>::spec_encode(m.is_entity)->Ok_0;
        let e5 = <Option<VarInt> as Encodable>::spec_encode(m.entity_id)->Ok_0;
        let e6 = <Option<VarInt> as Encodable>::spec_encode(m.entity_feet_eyes)->Ok_0;
        let t6 = e6 + rest;
        let t5 = e5 + t6;
        let t4 = e4 + t5;
        let t3 = e3 + t4;
        let t2 = e2 + t3;
        let t1 = e1 + t2;
        let t0 = e0 + t1;
        assert(decode_at::<VarInt>(t0, (0) as nat) == Ok::<(<VarInt as DeepView>::V, nat), CodecError>((m.feet_eyes, e0.len()))
            && <VarInt as Encodable>::spec_encode(m.feet_eyes) == Ok::<Seq<u8>, CodecError>(e0)
            && decode_at::<Double>(t0, (e0.len()) as nat) == Ok::<(<Double as DeepView>::V, nat), CodecError>((m.target_x, e1.len()))
            && <Double as Encodable>::spec_encode(m.target_x) == Ok::<Seq<u8>, CodecError>(e1)
            && decode_at::<Double>(t0, (e0.len() + e1.len()) as nat) == Ok::<(<Double as DeepView>::V, nat), CodecError>((m.target_y, e2.len()))
            && <Double as Encodable>::spec_encode(m.target_y) == Ok::<Seq<u8>, CodecError>(e2)
            && decode_at::<Double>(t0, (e0.len() + e1.len() + e2.len()) as nat) == Ok::<(<Double as DeepView>::V, nat), CodecError>((m.target_z, e3.len()))
            && <Double as Encodable>::spec_encode(m.target_z) == Ok::<Seq<u8>, CodecError>(e3)
            && decode_at::<bool>(t0, (e0.len() + e1.len() + e2.len() + e3.len()) as nat) == Ok::<(<bool as DeepView>::V, nat), CodecError>((m.is_entity, e4.len()))
            && <bool as Encodable>::spec_encode(m.is_entity) == Ok::<Seq<u8>, CodecError>(e4)
            && decode_if::<VarInt>(m.is_entity, t0, (e0.len() + e1.len() + e2.len() + e3.len() + e4.len()) as nat) == Ok::<(Option<<VarInt as DeepView>::V>, nat), CodecError>((m.entity_id, e5.len()))
            && <Option<VarInt> as Encodable>::spec_encode(m.entity_id) == Ok::<Seq<u8>, CodecError>(e5)
            && decode_if::<VarInt>(m.is_entity, t0, (e0.len() + e1.len() + e2.len() + e3.len() + e4.len() + e5.len()) as nat) == Ok::<(Option<<VarInt as DeepView>::V>, nat), CodecError>((m.entity_feet_eyes, e6.len()))
            && <Option<VarInt> as Encodable>::spec_encode(m.entity_feet_eyes) == Ok::<Seq<u8>, CodecError>(e6)) by {
            lemma_subrange_all(t0);
            lemma_field_round_trip::<VarInt>(m.feet_eyes, t0, (0) as nat, t1);
            lemma_field_round_trip::<Double>(m.target_x, t0, (e0.len()) as nat, t2);
            lemma_field_round_trip::<Double>(m.target_y, t0, (e0.len() + e1.len()) as nat, t3);
            lemma_field_round_trip::<Double>(m.target_z, t0, (e0.len() + e1.len() + e2.len()) as nat, t4);
            lemma_field_round_trip::<bool>(m.is_entity, t0, (e0.len() + e1.len() + e2.len() + e3.len()) as nat, t5);
            lemma_field_if_round_trip::<VarInt>(m.is_entity, m.entity_id, t0, (e0.len() + e1.len() + e2.len() + e3.len() + e4.len()) as nat, t6);
            lemma_field_if_round_trip::<VarInt>(m.is_entity, m.entity_feet_eyes, t0, (e0.len() + e1.len() + e2.len() + e3.len() + e4.len() + e5.len()) as nat, rest);
        }
        assert(e0 + e1 + e2 + e3 + e4 + e5 + e6 + rest == t0) by {
            lemma_concat_assoc(e0, e1, t2);
            lemma_concat_assoc(e0 + e1, e2, t3);
            lemma_concat_assoc(e0 + e1 + e2, e3, t4);
            lemma_concat_assoc(e0 + e1 + e2 + e3, e4, t5);
            lemma_concat_assoc(e0 + e1 + e2 + e3 + e4, e5, t6);
            lemma_concat_assoc(e0 + e1 + e2 + e3 + e4 + e5, e6, rest);
        }
        assert(Self::spec_encode(m) == Ok::<Seq<u8>, CodecError>(e0 + e1 + e2 + e3 + e4 + e5 + e6));
    }
}
/// The client-bound play message: player position and look.
pub struct PlayerPositionAndLook {
    pub x: Double,
    pub y: Double,
    pub z: Double,
    pub yaw: Float,
    pub pitch: Float,
    pub flags: i8,
    pub teleport_id: VarInt,
    pub dismount_vehicle: bool,
}

/// The model of a `PlayerPositionAndLook`: each field by its model.
pub struct PlayerPositionAndLookView {
    pub x: u64,
    pub y: u64,
    pub z: u64,
    pub yaw: u32,
    pub pitch: u32,
    pub flags: i8,
    pub teleport_id: i32,
    pub dismount_vehicle: bool,
}

impl DeepView for PlayerPositionAndLook {
    type V = PlayerPositionAndLookView;

    open spec fn deep_view(&self) -> PlayerPositionAndLookView {
        PlayerPositionAndLookView {
            x: self.x.deep_view(),
            y: self.y.deep_view(),
            z: self.z.deep_view(),
            yaw: self.yaw.deep_view(),
            pitch: self.pitch.deep_view(),
            flags: self.flags.deep_view(),
            teleport_id: self.teleport_id.deep_view(),
            dismount_vehicle: self.dismount_vehicle.deep_view(),
        }
    }
}

impl Encodable for PlayerPositionAndLook {
    /// The fields in order, with no framing.
    open spec fn spec_encode(m: PlayerPositionAndLookView) -> Result<Seq<u8>, CodecError> {
        then_encode(then_encode(then_encode(then_encode(then_encode(then_encode(then_encode(<Double as Encodable>::spec_encode(m.x), <Double as Encodable>::spec_encode(m.y)), <Double as Encodable>::spec_encode(m.z)), <Float as Encodable>::spec_encode(m.yaw)), <Float as Encodable>::spec_encode(m.pitch)), <i8 as Encodable>::spec_encode(m.flags)), <VarInt as Encodable>::spec_encode(m.teleport_id)), <bool as Encodable>::spec_encode(m.dismount_vehicle))
    }

    /// The sum of the fields' sizes.
    open spec fn spec_size(m: PlayerPositionAndLookView) -> Result<nat, CodecError> {
        add_size_spec(add_size_spec(add_size_spec(add_size_spec(add_size_spec(add_size_spec(add_size_spec(<Double as Encodable>::spec_size(m.x), <Double as Encodable>::spec_size(m.y)), <Double as Encodable>::spec_size(m.z)), <Float as Encodable>::spec_size(m.yaw)), <Float as Encodable>::spec_size(m.pitch)), <i8 as Encodable>::spec_size(m.flags)), <VarInt as Encodable>::spec_size(m.teleport_id)), <bool as Encodable>::spec_size(m.dismount_vehicle))
    }

    #[verifier::spinoff_prover]
    #[verifier::rlimit(100)]
    proof fn lemma_size_faithful(m: PlayerPositionAndLookView) {
        <Double as Encodable>::lemma_size_faithful(m.x);
        <Double as Encodable>::lemma_size_faithful(m.y);
        <Double as Encodable>::lemma_size_faithful(m.z);
        <Float as Encodable>::lemma_size_faithful(m.yaw);
        <Float as Encodable>::lemma_size_faithful(m.pitch);
        <i8 as Encodable>::lemma_size_faithful(m.flags);
        <VarInt as Encodable>::lemma_size_faithful(m.teleport_id);
        <bool as Encodable>::lemma_size_faithful(m.dismount_vehicle);
        lemma_then_size(<Double as Encodable>::spec_encode(m.x), <Double as Encodable>::spec_size(m.x), <Double as Encodable>::spec_encode(m.y), <Double as Encodable>::spec_size(m.y));
        lemma_then_size(then_encode(<Double as Encodable>::spec_encode(m.x), <Double as Encodable>::spec_encode(m.y)), add_size_spec(<Double as Encodable>::spec_size(m.x), <Double as Encodable>::spec_size(m.y)), <Double as Encodable>::spec_encode(m.z), <Double as Encodable>::spec_size(m.z));
        lemma_then_size(then_encode(then_encode(<Double as Encodable>::spec_encode(m.x), <Double as Encodable>::spec_encode(m.y)), <Double as Encodable>::spec_encode(m.z)), add_size_spec(add_size_spec(<Double as Encodable>::spec_size(m.x), <Double as Encodable>::spec_size(m.y)), <Double as Encodable>::spec_size(m.z)), <Float as Encodable>::spec_encode(m.yaw), <Float as Encodable>::spec_size(m.yaw));
        lemma_then_size(then_encode(then_encode(then_encode(<Double as Encodable>::spec_encode(m.x), <Double as Encodable>::spec_encode(m.y)), <Double as Encodable>::spec_encode(m.z)), <Float as Encodable>::spec_encode(m.yaw)), add_size_spec(add_size_spec(add_size_spec(<Double as Encodable>::spec_size(m.x), <Double as Encodable>::spec_size(m.y)), <Double as Encodable>::spec_size(m.z)), <Float as Encodable>::spec_size(m.yaw)), <Float as Encodable>::spec_encode(m.pitch), <Float as Encodable>::spec_size(m.pitch));
        lemma_then_size(then_encode(then_encode(then_encode(then_encode(<Double as Encodable>::spec_encode(m.x), <Double as Encodable>::spec_encode(m.y)), <Double as Encodable>::spec_encode(m.z)), <Float as Encodable>::spec_encode(m.yaw)), <Float as Encodable>::spec_encode(m.pitch)), add_size_spec(add_size_spec(add_size_spec(add_size_spec(<Double as Encodable>::spec_size(m.x), <Double as Encodable>::spec_size(m.y)), <Double as Encodable>::spec_size(m.z)), <Float as Encodable>::spec_size(m.yaw)), <Float as Encodable>::spec_size(m.pitch)), <i8 as Encodable>::spec_encode(m.flags), <i8 as Encodable>::spec_size(m.flags));
        lemma_then_size(then_encode(then_encode(then_encode(then_encode(then_encode(<Double as Encodable>::spec_encode(m.x), <Double as Encodable>::spec_encode(m.y)), <Double as Encodable>::spec_encode(m.z)), <Float as Encodable>::spec_encode(m.yaw)), <Float as Encodable>::spec_encode(m.pitch)), <i8 as Encodable>::spec_encode(m.flags)), add_size_spec(add_size_spec(add_size_spec(add_size_spec(add_size_spec(<Double as Encodable>::spec_size(m.x), <Double as Encodable>::spec_size(m.y)), <Double as Encodable>::spec_size(m.z)), <Float as Encodable>::spec_size(m.yaw)), <Float as Encodable>::spec_size(m.pitch)), <i8 as Encodable>::spec_size(m.flags)), <VarInt as Encodable>::spec_encode(m.teleport_id), <VarInt as Encodable>::spec_size(m.teleport_id));
        lemma_then_size(then_encode(then_encode(then_encode(then_encode(then_encode(then_encode(<Double as Encodable>::spec_encode(m.x), <Double as Encodable>::spec_encode(m.y)), <Double as Encodable>::spec_encode(m.z)), <Float as Encodable>::spec_encode(m.yaw)), <Float as Encodable>::spec_encode(m.pitch)), <i8 as Encodable>::spec_encode(m.flags)), <VarInt as Encodable>::spec_encode(m.teleport_id)), add_size_spec(add_size_spec(add_size_spec(add_size_spec(add_size_spec(add_size_spec(<Double as Encodable>::spec_size(m.x), <Double as Encodable>::spec_size(m.y)), <Double as Encodable>::spec_size(m.z)), <Float as Encodable>::spec_size(m.yaw)), <Float as Encodable>::spec_size(m.pitch)), <i8 as Encodable>::spec_size(m.flags)), <VarInt as Encodable>::spec_size(m.teleport_id)), <bool as Encodable>::spec_encode(m.dismount_vehicle), <bool as Encodable>::spec_size(m.dismount_vehicle));
    }

    #[verifier::spinoff_prover]
    #[verifier::rlimit(100)]
    fn encode(&self, out: &mut Vec<u8>) -> (r: Result<(), CodecError>) {
        let ghost o0 = out@;
        let start = out.len();
        let ghost e0 = <Double as Encodable>::spec_encode(self.x.deep_view())->Ok_0;
        let ghost e1 = <Double as Encodable>::spec_encode(self.y.deep_view())->Ok_0;
        let ghost e2 = <Double as Encodable>::spec_encode(self.z.deep_view())->Ok_0;
        let ghost e3 = <Float as Encodable>::spec_encode(self.yaw.deep_view())->Ok_0;
        let ghost e4 = <Float as Encodable>::spec_encode(self.pitch.deep_view())->Ok_0;
        let ghost e5 = <i8 as Encodable>::spec_encode(self.flags.deep_view())->Ok_0;
        let ghost e6 = <VarInt as Encodable>::spec_encode(self.teleport_id.deep_view())->Ok_0;
        let ghost e7 = <bool as Encodable>::spec_encode(self.dismount_vehicle.deep_view())->Ok_0;
        match self.x.encode(out) {
            Ok(_) => {},
            Err(e) => return Err(e),
        }
        match self.y.encode(out) {
            Ok(_) => {},
            Err(e) => {
                roll_back(out, Ghost(o0), Ghost(e0), start);
                return Err(e);
            },
        }
        proof {
            lemma_concat_assoc(o0, e0, e1);
        }
        match self.z.encode(out) {
            Ok(_) => {},
            Err(e) => {
                roll_back(out, Ghost(o0), Ghost(e0 + e1), start);
                return Err(e);
            },
        }
        proof {
            lemma_concat_assoc(o0, e0 + e1, e2);
        }
        match self.yaw.encode(out) {
            Ok(_) => {},
            Err(e) => {
                roll_back(out, Ghost(o0), Ghost(e0 + e1 + e2), start);
                return Err(e);
            },
        }
        proof {
            lemma_concat_assoc(o0, e0 + e1 + e2, e3);
        }
        match self.pitch.encode(out) {
            Ok(_) => {},
            Err(e) => {
                roll_back(out, Ghost(o0), Ghost(e0 + e1 + e2 + e3), start);
                return Err(e);
            },
        }
        proof {
            lemma_concat_assoc(o0, e0 + e1 + e2 + e3, e4);
        }
        match self.flags.encode(out) {
            Ok(_) => {},
            Err(e) => {
                roll_back(out, Ghost(o0), Ghost(e0 + e1 + e2 + e3 + e4), start);
                return Err(e);
            },
        }
        proof {
            lemma_concat_assoc(o0, e0 + e1 + e2 + e3 + e4, e5);
        }
        match self.teleport_id.encode(out) {
            Ok(_) => {},
            Err(e) => {
                roll_back(out, Ghost(o0), Ghost(e0 + e1 + e2 + e3 + e4 + e5), start);
                return Err(e);
            },
        }
        proof {
            lemma_concat_assoc(o0, e0 + e1 + e2 + e3 + e4 + e5, e6);
        }
        match self.dismount_vehicle.encode(out) {
            Ok(_) => {},
            Err(e) => {
                roll_back(out, Ghost(o0), Ghost(e0 + e1 + e2 + e3 + e4 + e5 + e6), start);
                return Err(e);
            },
        }
        proof {
            lemma_concat_assoc(o0, e0 + e1 + e2 + e3 + e4 + e5 + e6, e7);
        }
        Ok(())
    }

    #[verifier::spinoff_prover]
    #[verifier::rlimit(100)]
    fn size(&self) -> (r: Result<VarInt, CodecError>) {
        proof {
            <Double as Encodable>::lemma_size_faithful(self.x.deep_view());
            <Double as Encodable>::lemma_size_faithful(self.y.deep_view());
            <Double as Encodable>::lemma_size_faithful(self.z.deep_view());
            <Float as Encodable>::lemma_size_faithful(self.yaw.deep_view());
            <Float as Encodable>::lemma_size_faithful(self.pitch.deep_view());
            <i8 as Encodable>::lemma_size_faithful(self.flags.deep_view());
            <VarInt as Encodable>::lemma_size_faithful(self.teleport_id.deep_view());
            <bool as Encodable>::lemma_size_faithful(self.dismount_vehicle.deep_view());
        }
        let ghost w0 = <Double as Encodable>::spec_size(self.x.deep_view());
        let ghost w1 = <Double as Encodable>::spec_size(self.y.deep_view());
        let ghost w2 = <Double as Encodable>::spec_size(self.z.deep_view());
        let ghost w3 = <Float as Encodable>::spec_size(self.yaw.deep_view());
        let ghost w4 = <Float as Encodable>::spec_size(self.pitch.deep_view());
        let ghost w5 = <i8 as Encodable>::spec_size(self.flags.deep_view());
        let ghost w6 = <VarInt as Encodable>::spec_size(self.teleport_id.deep_view());
        let ghost w7 = <bool as Encodable>::spec_size(self.dismount_vehicle.deep_view());
        let t0 = self.x.size();
        let t1 = add_size(t0, Ghost(w0), self.y.size(), Ghost(w1));
        let ghost c1 = add_size_spec(w0, w1);
        let t2 = add_size(t1, Ghost(c1), self.z.size(), Ghost(w2));
        let ghost c2 = add_size_spec(c1, w2);
        let t3 = add_size(t2, Ghost(c2), self.yaw.size(), Ghost(w3));
        let ghost c3 = add_size_spec(c2, w3);
        let t4 = add_size(t3, Ghost(c3), self.pitch.size(), Ghost(w4));
        let ghost c4 = add_size_spec(c3, w4);
        let t5 = add_size(t4, Ghost(c4), self.flags.size(), Ghost(w5));
        let ghost c5 = add_size_spec(c4, w5);
        let t6 = add_size(t5, Ghost(c5), self.teleport_id.size(), Ghost(w6));
        let ghost c6 = add_size_spec(c5, w6);
        let t7 = add_size(t6, Ghost(c6), self.dismount_vehicle.size(), Ghost(w7));
        t7
    }
}

impl Decodable for PlayerPositionAndLook {
    open spec fn spec_decode(bytes: Seq<u8>) -> Result<(PlayerPositionAndLookView, nat), CodecError> {
        match decode_at::<Double>(bytes, 0) {
            Err(e) => Err(e),
            Ok((x, n0)) => match decode_at::<Double>(bytes, n0) {
                Err(e) => Err(e),
                Ok((y, n1)) => match decode_at::<Double>(bytes, n0 + n1) {
                    Err(e) => Err(e),
                    Ok((z, n2)) => match decode_at::<Float>(bytes, n0 + n1 + n2) {
                        Err(e) => Err(e),
                        Ok((yaw, n3)) => match decode_at::<Float>(bytes, n0 + n1 + n2 + n3) {
                            Err(e) => Err(e),
                            Ok((pitch, n4)) => match decode_at::<i8>(bytes, n0 + n1 + n2 + n3 + n4) {
                                Err(e) => Err(e),
                                Ok((flags, n5)) => match decode_at::<VarInt>(bytes, n0 + n1 + n2 + n3 + n4 + n5) {
                                    Err(e) => Err(e),
                                    Ok((teleport_id, n6)) => match decode_at::<bool>(bytes, n0 + n1 + n2 + n3 + n4 + n5 + n6) {
                                        Err(e) => Err(e),
                                        Ok((dismount_vehicle, n7)) => Ok((PlayerPositionAndLookView { x, y, z, yaw, pitch, flags, teleport_id, dismount_vehicle }, n0 + n1 + n2 + n3 + n4 + n5 + n6 + n7)),
                                    },
                                },
                            },
                        },
                    },
                },
            },
        }
    }

    proof fn lemma_decode_len(bytes: Seq<u8>) {
        lemma_decode_at::<Double>(bytes, 0);
        <Double as Decodable>::lemma_decode_len(bytes.subrange((0) as int, bytes.len() as int));
        if let Ok((x, n0)) = decode_at::<Double>(bytes, 0) {
            lemma_decode_at::<Double>(bytes, n0);
            <Double as Decodable>::lemma_decode_len(bytes.subrange((n0) as int, bytes.len() as int));
            if let Ok((y, n1)) = decode_at::<Double>(bytes, n0) {
                lemma_decode_at::<Double>(bytes, n0 + n1);
                <Double as Decodable>::lemma_decode_len(bytes.subrange((n0 + n1) as int, bytes.len() as int));
                if let Ok((z, n2)) = decode_at::<Double>(bytes, n0 + n1) {
                    lemma_decode_at::<Float>(bytes, n0 + n1 + n2);
                    <Float as Decodable>::lemma_decode_len(bytes.subrange((n0 + n1 + n2) as int, bytes.len() as int));
                    if let Ok((yaw, n3)) = decode_at::<Float>(bytes, n0 + n1 + n2) {
                        lemma_decode_at::<Float>(bytes, n0 + n1 + n2 + n3);
                        <Float as Decodable>::lemma_decode_len(bytes.subrange((n0 + n1 + n2 + n3) as int, bytes.len() as int));
                        if let Ok((pitch, n4)) = decode_at::<Float>(bytes, n0 + n1 + n2 + n3) {
                            lemma_decode_at::<i8>(bytes, n0 + n1 + n2 + n3 + n4);
                            <i8 as Decodable>::lemma_decode_len(bytes.subrange((n0 + n1 + n2 + n3 + n4) as int, bytes.len() as int));
                            if let Ok((flags, n5)) = decode_at::<i8>(bytes, n0 + n1 + n2 + n3 + n4) {
                                lemma_decode_at::<VarInt>(bytes, n0 + n1 + n2 + n3 + n4 + n5);
                                <VarInt as Decodable>::lemma_decode_len(bytes.subrange((n0 + n1 + n2 + n3 + n4 + n5) as int, bytes.len() as int));
                                if let Ok((teleport_id, n6)) = decode_at::<VarInt>(bytes, n0 + n1 + n2 + n3 + n4 + n5) {
                                    lemma_decode_at::<bool>(bytes, n0 + n1 + n2 + n3 + n4 + n5 + n6);
                                    <bool as Decodable>::lemma_decode_len(bytes.subrange((n0 + n1 + n2 + n3 + n4 + n5 + n6) as int, bytes.len() as int));
                                }
                            }
                        }
                    }
                }
            }
        }
    }

    #[verifier::spinoff_prover]
    #[verifier::rlimit(100)]
    fn decode(reader: &mut ByteReader) -> (r: Result<PlayerPositionAndLook, CodecError>) {
        let ghost r0 = *reader;
        let ghost rest0 = reader.rest();
        proof {
            ByteReader::lemma_rest_since(r0, *reader);
            lemma_decode_at::<Double>(rest0, (reader.pos() - r0.pos()) as nat);
        }
        let x = match <Double>::decode(reader) {
            Ok(v) => v,
            Err(e) => return Err(e),
        };
        proof {
            ByteReader::lemma_rest_since(r0, *reader);
            lemma_decode_at::<Double>(rest0, (reader.pos() - r0.pos()) as nat);
        }
        let y = match <Double>::decode(reader) {
            Ok(v) => v,
            Err(e) => return Err(e),
        };
        proof {
            ByteReader::lemma_rest_since(r0, *reader);
            lemma_decode_at::<Double>(rest0, (reader.pos() - r0.pos()) as nat);
        }
        let z = match <Double>::decode(reader) {
            Ok(v) => v,
            Err(e) => return Err(e),
        };
        proof {
            ByteReader::lemma_rest_since(r0, *reader);
            lemma_decode_at::<Float>(rest0, (reader.pos() - r0.pos()) as nat);
        }
        let yaw = match <Float>::decode(reader) {
            Ok(v) => v,
            Err(e) => return Err(e),
        };
        proof {
            ByteReader::lemma_rest_since(r0, *reader);
            lemma_decode_at::<Float>(rest0, (reader.pos() - r0.pos()) as nat);
        }
        let pitch = match <Float>::decode(reader) {
            Ok(v) => v,
            Err(e) => return Err(e),
        };
        proof {
            ByteReader::lemma_rest_since(r0, *reader);
            lemma_decode_at::<i8>(rest0, (reader.pos() - r0.pos()) as nat);
        }
        let flags = match <i8>::decode(reader) {
            Ok(v) => v,
            Err(e) => return Err(e),
        };
        proof {
            ByteReader::lemma_rest_since(r0, *reader);
            lemma_decode_at::<VarInt>(rest0, (reader.pos() - r0.pos()) as nat);
        }
        let teleport_id = match <VarInt>::decode(reader) {
            Ok(v) => v,
            Err(e) => return Err(e),
        };
        proof {
            ByteReader::lemma_rest_since(r0, *reader);
            lemma_decode_at::<bool>(rest0, (reader.pos() - r0.pos()) as nat);
        }
        let dismount_vehicle = match <bool>::decode(reader) {
            Ok(v) => v,
            Err(e) => return Err(e),
        };
        Ok(PlayerPositionAndLook { x, y, z, yaw, pitch, flags, teleport_id, dismount_vehicle })
    }
}

impl Codec for PlayerPositionAndLook {
    open spec fn valid(m: PlayerPositionAndLookView) -> bool {
        &&& <Double as Codec>::valid(m.x)
        &&& <Double as Codec>::delimited()
        &&& <Double as Codec>::valid(m.y)
        &&& <Double as Codec>::delimited()
        &&& <Double as Codec>::valid(m.z)
        &&& <Double as Codec>::delimited()
        &&& <Float as Codec>::valid(m.yaw)
        &&& <Float as Codec>::delimited()
        &&& <Float as Codec>::valid(m.pitch)
        &&& <Float as Codec>::delimited()
        &&& <i8 as Codec>::valid(m.flags)
        &&& <i8 as Codec>::delimited()
        &&& <VarInt as Codec>::valid(m.teleport_id)
        &&& <VarInt as Codec>::delimited()
        &&& <bool as Codec>::valid(m.dismount_vehicle)
    }

    open spec fn delimited() -> bool {
        <bool as Codec>::delimited()
    }

    #[verifier::spinoff_prover]
    #[verifier::rlimit(100)]
    proof fn lemma_round_trip(m: PlayerPositionAndLookView, rest: Seq<u8>) {
        let e0 = <Double as Encodable>::spec_encode(m.x)->Ok_0;
        let e1 = <Double as Encodable>::spec_encode(m.y)->Ok_0;
        let e2 = <Double as Encodable>::spec_encode(m.z)->Ok_0;
        let e3 = <Float as Encodable>::spec_encode(m.yaw)->Ok_0;
        let e4 = <Float as Encodable>::spec_encode(m.pitch)->Ok_0;
        let e5 = <i8 as Encodable>::spec_encode(m.flags)->Ok_0;
        let e6 = <VarInt as Encodable>::spec_encode(m.teleport_id)->Ok_0;
        let e7 = <bool as Encodable>::spec_encode(m.dismount_vehicle)->Ok_0;
        let t7 = e7 + rest;
        let t6 = e6 + t7;
        let t5 = e5 + t6;
        let t4 = e4 + t5;
        let t3 = e3 + t4;
        let t2 = e2 + t3;
        let t1 = e1 + t2;
        let t0 = e0 + t1;
        assert(decode_at::<Double>(t0, (0) as nat) == Ok::<(<Double as DeepView>::V, nat), CodecError>((m.x, e0.len()))
            && <Double as Encodable>::spec_encode(m.x) == Ok::<Seq<u8>, CodecError>(e0)
            && decode_at::<Double>(t0, (e0.len()) as nat) == Ok::<(<Double as DeepView>::V, nat), CodecError>((m.y, e1.len()))
            && <Double as Encodable>::spec_encode(m.y) == Ok::<Seq<u8>, CodecError>(e1)
            && decode_at::<Double>(t0, (e0.len() + e1.len()) as nat) == Ok::<(<Double as DeepView>::V, nat), CodecError>((m.z, e2.len()))
            && <Double as Encodable>::spec_encode(m.z) == Ok::<Seq<u8>, CodecError>(e2)
            && decode_at::<Float>(t0, (e0.len() + e1.len() + e2.len()) as nat) == Ok::<(<Float as DeepView>::V, nat), CodecError>((m.yaw, e3.len()))
            && <Float as Encodable>::spec_encode(m.yaw) == Ok::<Seq<u8>, CodecError>(e3)
            && decode_at::<Float>(t0, (e0.len() + e1.len() + e2.len() + e3.len()) as nat) == Ok::<(<Float as DeepView>::V, nat), CodecError>((m.pitch, e4.len()))
            && <Float as Encodable>::spec_encode(m.pitch) == Ok::<Seq<u8>, CodecError>(e4)
            && decode_at::<i8>(t0, (e0.len() + e1.len() + e2.len() + e3.len() + e4.len()) as nat) == Ok::<(<i8 as DeepView>::V, nat), CodecError>((m.flags, e5.len()))
            && <i8 as Encodable>::spec_encode(m.flags) == Ok::<Seq<u8>, CodecError>(e5)
            && decode_at::<VarInt>(t0, (e0.len() + e1.len() + e2.len() + e3.len() + e4.len() + e5.len()) as nat) == Ok::<(<VarInt as DeepView>::V, nat), CodecError>((m.teleport_id, e6.len()))
            && <VarInt as Encodable>::spec_encode(m.teleport_id) == Ok::<Seq<u8>, CodecError>(e6)
            && decode_at::<bool>(t0, (e0.len() + e1.len() + e2.len() + e3.len() + e4.len() + e5.len() + e6.len()) as nat) == Ok::<(<bool as DeepView>::V, nat), CodecError>((m.dismount_vehicle, e7.len()))
            && <bool as Encodable>::spec_encode(m.dismount_vehicle) == Ok::<Seq<u8>, CodecError>(e7)) by {
            lemma_subrange_all(t0);
            lemma_field_round_trip::<Double>(m.x, t0, (0) as nat, t1);
            lemma_field_round_trip::<Double>(m.y, t0, (e0.len()) as nat, t2);
            lemma_field_round_trip::<Double>(m.z, t0, (e0.len() + e1.len()) as nat, t3);
            lemma_field_round_trip::<Float>(m.yaw, t0, (e0.len() + e1.len() + e2.len()) as nat, t4);
            lemma_field_round_trip::<Float>(m.pitch, t0, (e0.len() + e1.len() + e2.len() + e3.len()) as nat, t5);
            lemma_field_round_trip::<i8>(m.flags, t0, (e0.len() + e1.len() + e2.len() + e3.len() + e4.len()) as nat, t6);
            lemma_field_round_trip::<VarInt>(m.teleport_id, t0, (e0.len() + e1.len() + e2.len() + e3.len() + e4.len() + e5.len()) as nat, t7);
            lemma_field_round_trip::<bool>(m.dismount_vehicle, t0, (e0.len() + e1.len() + e2.len() + e3.len() + e4.len() + e5.len() + e6.len()) as nat, rest);
        }
        assert(e0 + e1 + e2 + e3 + e4 + e5 + e6 + e7 + rest == t0) by {
            lemma_concat_assoc(e0, e1, t2);
            lemma_concat_assoc(e0 + e1, e2, t3);
            lemma_concat_assoc(e0 + e1 + e2, e3, t4);
            lemma_concat_assoc(e0 + e1 + e2 + e3, e4, t5);
            lemma_concat_assoc(e0 + e1 + e2 + e3 + e4, e5, t6);
            lemma_concat_assoc(e0 + e1 + e2 + e3 + e4 + e5, e6, t7);
            lemma_concat_assoc(e0 + e1 + e2 + e3 + e4 + e5 + e6, e7, rest);
        }
        assert(Self::spec_encode(m) == Ok::<Seq<u8>, CodecError>(e0 + e1 + e2 + e3 + e4 + e5 + e6 + e7));
    }
}
/// The client-bound play message: unlock recipes.
pub struct UnlockRecipes {
    pub action: VarInt,
    pub crafting_recipe_book_open: bool,
    pub crafting_recipe_book_filter_active: bool,
    pub smelting_recipe_book_open: bool,
    pub smelting_recipe_book_filter_active: bool,
    pub blast_furnace_recipe_book_open: bool,
    pub blast_furnace_recipe_book_filter_active: bool,
    pub smoker_recipe_book_open: bool,
    pub smoker_recipe_book_filter_active: bool,
    pub recipe_ids: (VarInt, Vec<Identifier>),
    pub recipe_ids_2: Option<(VarInt, Vec<Identifier>)>,
}

/// The model of a `UnlockRecipes`: each field by its model.
pub struct UnlockRecipesView {
    pub action: i32,
    pub crafting_recipe_book_open: bool,
    pub crafting_recipe_book_filter_active: bool,
    pub smelting_recipe_book_open: bool,
    pub smelting_recipe_book_filter_active: bool,
    pub blast_furnace_recipe_book_open: bool,
    pub blast_furnace_recipe_book_filter_active: bool,
    pub smoker_recipe_book_open: bool,
    pub smoker_recipe_book_filter_active: bool,
    pub recipe_ids: (i32, Seq<Seq<char>>),
    pub recipe_ids_2: Option<(i32, Seq<Seq<char>>)>,
}

impl DeepView for UnlockRecipes {
    type V = UnlockRecipesView;

    open spec fn deep_view(&self) -> UnlockRecipesView {
        UnlockRecipesView {
            action: self.action.deep_view(),
            crafting_recipe_book_open: self.crafting_recipe_book_open.deep_view(),
            crafting_recipe_book_filter_active: self.crafting_recipe_book_filter_active.deep_view(),
            smelting_recipe_book_open: self.smelting_recipe_book_open.deep_view(),
            smelting_recipe_book_filter_active: self.smelting_recipe_book_filter_active.deep_view(),
            blast_furnace_recipe_book_open: self.blast_furnace_recipe_book_open.deep_view(),
            blast_furnace_recipe_book_filter_active: self.blast_furnace_recipe_book_filter_active.deep_view(),
            smoker_recipe_book_open: self.smoker_recipe_book_open.deep_view(),
            smoker_recipe_book_filter_active: self.smoker_recipe_book_filter_active.deep_view(),
            recipe_ids: self.recipe_ids.deep_view(),
            recipe_ids_2: self.recipe_ids_2.deep_view(),
        }
    }
}

impl Encodable for UnlockRecipes {
    /// The fields in order, with no framing.
    open spec fn spec_encode(m: UnlockRecipesView) -> Result<Seq<u8>, CodecError> {
        then_encode(then_encode(then_encode(then_encode(then_encode(then_encode(then_encode(then_encode(then_encode(then_encode(<VarInt as Encodable>::spec_encode(m.action), <bool as Encodable>::spec_encode(m.crafting_recipe_book_open)), <bool as Encodable>::spec_encode(m.crafting_recipe_book_filter_active)), <bool as Encodable>::spec_encode(m.smelting_recipe_book_open)), <bool as Encodable>::spec_encode(m.smelting_recipe_book_filter_active)), <bool as Encodable>::spec_encode(m.blast_furnace_recipe_book_open)), <bool as Encodable>::spec_encode(m.blast_furnace_recipe_book_filter_active)), <bool as Encodable>::spec_encode(m.smoker_recipe_book_open)), <bool as Encodable>::spec_encode(m.smoker_recipe_book_filter_active)), <(VarInt, Vec<Identifier>) as Encodable>::spec_encode(m.recipe_ids)), <Option<(VarInt, Vec<Identifier>)> as Encodable>::spec_encode(m.recipe_ids_2))
    }

    /// The sum of the fields' sizes.
    open spec fn spec_size(m: UnlockRecipesView) -> Result<nat, CodecError> {
        add_size_spec(add_size_spec(add_size_spec(add_size_spec(add_size_spec(add_size_spec(add_size_spec(add_size_spec(add_size_spec(add_size_spec(<VarInt as Encodable>::spec_size(m.action), <bool as Encodable>::spec_size(m.crafting_recipe_book_open)), <bool as Encodable>::spec_size(m.crafting_recipe_book_filter_active)), <bool as Encodable>::spec_size(m.smelting_recipe_book_open)), <bool as Encodable>::spec_size(m.smelting_recipe_book_filter_active)), <bool as Encodable>::spec_size(m.blast_furnace_recipe_book_open)), <bool as Encodable>::spec_size(m.blast_furnace_recipe_book_filter_active)), <bool as Encodable>::spec_size(m.smoker_recipe_book_open)), <bool as Encodable>::spec_size(m.smoker_recipe_book_filter_active)), <(VarInt, Vec<Identifier>) as Encodable>::spec_size(m.recipe_ids)), <Option<(VarInt, Vec<Identifier>)> as Encodable>::spec_size(m.recipe_ids_2))
    }

    #[verifier::spinoff_prover]
    #[verifier::rlimit(100)]
    proof fn lemma_size_faithful(m: UnlockRecipesView) {
        <VarInt as Encodable>::lemma_size_faithful(m.action);
        <bool as Encodable>::lemma_size_faithful(m.crafting_recipe_book_open);
        <bool as Encodable>::lemma_size_faithful(m.crafting_recipe_book_filter_active);
        <bool as Encodable>::lemma_size_faithful(m.smelting_recipe_book_open);
        <bool as Encodable>::lemma_size_faithful(m.smelting_recipe_book_filter_active);
        <bool as Encodable>::lemma_size_faithful(m.blast_furnace_recipe_book_open);
        <bool as Encodable>::lemma_size_faithful(m.blast_furnace_recipe_book_filter_active);
        <bool as Encodable>::lemma_size_faithful(m.smoker_recipe_book_open);
        <bool as Encodable>::lemma_size_faithful(m.smoker_recipe_book_filter_active);
        <(VarInt, Vec<Identifier>) as Encodable>::lemma_size_faithful(m.recipe_ids);
        <Option<(VarInt, Vec<Identifier>)> as Encodable>::lemma_size_faithful(m.recipe_ids_2);
        lemma_then_size(<VarInt as Encodable>::spec_encode(m.action), <VarInt as Encodable>::spec_size(m.action), <bool as Encodable>::spec_encode(m.crafting_recipe_book_open), <bool as Encodable>::spec_size(m.crafting_recipe_book_open));
        lemma_then_size(then_encode(<VarInt as Encodable>::spec_encode(m.action), <bool as Encodable>::spec_encode(m.crafting_recipe_book_open)), add_size_spec(<VarInt as Encodable>::spec_size(m.action), <bool as Encodable>::spec_size(m.crafting_recipe_book_open)), <bool as Encodable>::spec_encode(m.crafting_recipe_book_filter_active), <bool as Encodable>::spec_size(m.crafting_recipe_book_filter_active));
        lemma_then_size(then_encode(then_encode(<VarInt as Encodable>::spec_encode(m.action), <bool as Encodable>::spec_encode(m.crafting_recipe_book_open)), <bool as Encodable>::spec_encode(m.crafting_recipe_book_filter_active)), add_size_spec(add_size_spec(<VarInt as Encodable>::spec_size(m.action), <bool as Encodable>::spec_size(m.crafting_recipe_book_open)), <bool as Encodable>::spec_size(m.crafting_recipe_book_filter_active)), <bool as Encodable>::spec_encode(m.smelting_recipe_book_open), <bool as Encodable>::spec_size(m.smelting_recipe_book_open));
        lemma_then_size(then_encode(then_encode(then_encode(<VarInt as Encodable>::spec_encode(m.action), <bool as Encodable>::spec_encode(m.crafting_recipe_book_open)), <bool as Encodable>::spec_encode(m.crafting_recipe_book_filter_active)), <bool as Encodable>::spec_encode(m.smelting_recipe_book_open)), add_size_spec(add_size_spec(add_size_spec(<VarInt as Encodable>::spec_size(m.action), <bool as Encodable>::spec_size(m.crafting_recipe_book_open)), <bool as Encodable>::spec_size(m.crafting_recipe_book_filter_active)), <bool as Encodable>::spec_size(m.smelting_recipe_book_open)), <bool as Encodable>::spec_encode(m.smelting_recipe_book_filter_active), <bool as Encodable>::spec_size(m.smelting_recipe_book_filter_active));
        lemma_then_size(then_encode(then_encode(then_encode(then_encode(<VarInt as Encodable>::spec_encode(m.action), <bool as Encodable>::spec_encode(m.crafting_recipe_book_open)), <bool as Encodable>::spec_encode(m.crafting_recipe_book_filter_active)), <bool as Encodable>::spec_encode(m.smelting_recipe_book_open)), <bool as Encodable>::spec_encode(m.smelting_recipe_book_filter_active)), add_size_spec(add_size_spec(add_size_spec(add_size_spec(<VarInt as Encodable>::spec_size(m.action), <bool as Encodable>::spec_size(m.crafting_recipe_book_open)), <bool as Encodable>::spec_size(m.crafting_recipe_book_filter_active)), <bool as Encodable>::spec_size(m.smelting_recipe_book_open)), <bool as Encodable>::spec_size(m.smelting_recipe_book_filter_active)), <bool as Encodable>::spec_encode(m.blast_furnace_recipe_book_open), <bool as Encodable>::spec_size(m.blast_furnace_recipe_book_open));
        lemma_then_size(then_encode(then_encode(then_encode(then_encode(then_encode(<VarInt as Encodable>::spec_encode(m.action), <bool as Encodable>::spec_encode(m.crafting_recipe_book_open)), <bool as Encodable>::spec_encode(m.crafting_recipe_book_filter_active)), <bool as Encodable>::spec_encode(m.smelting_recipe_book_open)), <bool as Encodable>::spec_encode(m.smelting_recipe_book_filter_active)), <bool as Encodable>::spec_encode(m.blast_furnace_recipe_book_open)), add_size_spec(add_size_spec(add_size_spec(add_size_spec(add_size_spec(<VarInt as Encodable>::spec_size(m.action), <bool as Encodable>::spec_size(m.crafting_recipe_book_open)), <bool as Encodable>::spec_size(m.crafting_recipe_book_filter_active)), <bool as Encodable>::spec_size(m.smelting_recipe_book_open)), <bool as Encodable>::spec_size(m.smelting_recipe_book_filter_active)), <bool as Encodable>::spec_size(m.blast_furnace_recipe_book_open)), <bool as Encodable>::spec_encode(m.blast_furnace_recipe_book_filter_active), <bool as Encodable>::spec_size(m.blast_furnace_recipe_book_filter_active));
        lemma_then_size(then_encode(then_encode(then_encode(then_encode(then_encode(then_encode(<VarInt as Encodable>::spec_encode(m.action), <bool as Encodable>::spec_encode(m.crafting_recipe_book_open)), <bool as Encodable>::spec_encode(m.crafting_recipe_book_filter_active)), <bool as Encodable>::spec_encode(m.smelting_recipe_book_open)), <bool as Encodable>::spec_encode(m.smelting_recipe_book_filter_active)), <bool as Encodable>::spec_encode(m.blast_furnace_recipe_book_open)), <bool as Encodable>::spec_encode(m.blast_furnace_recipe_book_filter_active)), add_size_spec(add_size_spec(add_size_spec(add_size_spec(add_size_spec(add_size_spec(<VarInt as Encodable>::spec_size(m.action), <bool as Encodable>::spec_size(m.crafting_recipe_book_open)), <bool as Encodable>::spec_size(m.crafting_recipe_book_filter_active)), <bool as Encodable>::spec_size(m.smelting_recipe_book_open)), <bool as Encodable>::spec_size(m.smelting_recipe_book_filter_active)), <bool as Encodable>::spec_size(m.blast_furnace_recipe_book_open)), <bool as Encodable>::spec_size(m.blast_furnace_recipe_book_filter_active)), <bool as Encodable>::spec_encode(m.smoker_recipe_book_open), <bool as Encodable>::spec_size(m.smoker_recipe_book_open));
        lemma_then_size(then_encode(then_encode(then_encode(then_encode(then_encode(then_encode(then_encode(<VarInt as Encodable>::spec_encode(m.action), <bool as Encodable>::spec_encode(m.crafting_recipe_book_open)), <bool as Encodable>::spec_encode(m.crafting_recipe_book_filter_active)), <bool as Encodable>::spec_encode(m.smelting_recipe_book_open)), <bool as Encodable>::spec_encode(m.smelting_recipe_book_filter_active)), <bool as Encodable>::spec_encode(m.blast_furnace_recipe_book_open)), <bool as Encodable>::spec_encode(m.blast_furnace_recipe_book_filter_active)), <bool as Encodable>::spec_encode(m.smoker_recipe_book_open)), add_size_spec(add_size_spec(add_size_spec(add_size_spec(add_size_spec(add_size_spec(add_size_spec(<VarInt as Encodable>::spec_size(m.action), <bool as Encodable>::spec_size(m.crafting_recipe_book_open)), <bool as Encodable>::spec_size(m.crafting_recipe_book_filter_active)), <bool as Encodable>::spec_size(m.smelting_recipe_book_open)), <bool as Encodable>::spec_size(m.smelting_recipe_book_filter_active)), <bool as Encodable>::spec_size(m.blast_furnace_recipe_book_open)), <bool as Encodable>::spec_size(m.blast_furnace_recipe_book_filter_active)), <bool as Encodable>::spec_size(m.smoker_recipe_book_open)), <bool as Encodable>::spec_encode(m.smoker_recipe_book_filter_active), <bool as Encodable>::spec_size(m.smoker_recipe_book_filter_active));
        lemma_then_size(then_encode(then_encode(then_encode(then_encode(then_encode(then_encode(then_encode(then_encode(<VarInt as Encodable>::spec_encode(m.action), <bool as Encodable>::spec_encode(m.crafting_recipe_book_open)), <bool as Encodable>::spec_encode(m.crafting_recipe_book_filter_active)), <bool as Encodable>::spec_encode(m.smelting_recipe_book_open)), <bool as Encodable>::spec_encode(m.smelting_recipe_book_filter_active)), <bool as Encodable>::spec_encode(m.blast_furnace_recipe_book_open)), <bool as Encodable>::spec_encode(m.blast_furnace_recipe_book_filter_active)), <bool as Encodable>::spec_encode(m.smoker_recipe_book_open)), <bool as Encodable>::spec_encode(m.smoker_recipe_book_filter_active)), add_size_spec(add_size_spec(add_size_spec(add_size_spec(add_size_spec(add_size_spec(add_size_spec(add_size_spec(<VarInt as Encodable>::spec_size(m.action), <bool as Encodable>::spec_size(m.crafting_recipe_book_open)), <bool as Encodable>::spec_size(m.crafting_recipe_book_filter_active)), <bool as Encodable>::spec_size(m.smelting_recipe_book_open)), <bool as Encodable>::spec_size(m.smelting_recipe_book_filter_active)), <bool as Encodable>::spec_size(m.blast_furnace_recipe_book_open)), <bool as Encodable>::spec_size(m.blast_furnace_recipe_book_filter_active)), <bool as Encodable>::spec_size(m.smoker_recipe_book_open)), <bool as Encodable>::spec_size(m.smoker_recipe_book_filter_active)), <(VarInt, Vec<Identifier>) as Encodable>::spec_encode(m.recipe_ids), <(VarInt, Vec<Identifier>) as Encodable>::spec_size(m.recipe_ids));
        lemma_then_size(then_encode(then_encode(then_encode(then_encode(then_encode(then_encode(then_encode(then_encode(then_encode(<VarInt as Encodable>::spec_encode(m.action), <bool as Encodable>::spec_encode(m.crafting_recipe_book_open)), <bool as Encodable>::spec_encode(m.crafting_recipe_book_filter_active)), <bool as Encodable>::spec_encode(m.smelting_recipe_book_open)), <bool as Encodable>::spec_encode(m.smelting_recipe_book_filter_active)), <bool as Encodable>::spec_encode(m.blast_furnace_recipe_book_open)), <bool as Encodable>::spec_encode(m.blast_furnace_recipe_book_filter_active)), <bool as Encodable>::spec_encode(m.smoker_recipe_book_open)), <bool as Encodable>::spec_encode(m.smoker_recipe_book_filter_active)), <(VarInt, Vec<Identifier>) as Encodable>::spec_encode(m.recipe_ids)), add_size_spec(add_size_spec(add_size_spec(add_size_spec(add_size_spec(add_size_spec(add_size_spec(add_size_spec(add_size_spec(<VarInt as Encodable>::spec_size(m.action), <bool as Encodable>::spec_size(m.crafting_recipe_book_open)), <bool as Encodable>::spec_size(m.crafting_recipe_book_filter_active)), <bool as Encodable>::spec_size(m.smelting_recipe_book_open)), <bool as Encodable>::spec_size(m.smelting_recipe_book_filter_active)), <bool as Encodable>::spec_size(m.blast_furnace_recipe_book_open)), <bool as Encodable>::spec_size(m.blast_furnace_recipe_book_filter_active)), <bool as Encodable>::spec_size(m.smoker_recipe_book_open)), <bool as Encodable>::spec_size(m.smoker_recipe_book_filter_active)), <(VarInt, Vec<Identifier>) as Encodable>::spec_size(m.recipe_ids)), <Option<(VarInt, Vec<Identifier>)> as Encodable>::spec_encode(m.recipe_ids_2), <Option<(VarInt, Vec<Identifier>)> as Encodable>::spec_size(m.recipe_ids_2));
    }

    #[verifier::spinoff_prover]
    #[verifier::rlimit(100)]
    fn encode(&self, out: &mut Vec<u8>) -> (r: Result<(), CodecError>) {
        let ghost o0 = out@;
        let start = out.len();
        let ghost e0 = <VarInt as Encodable>::spec_encode(self.action.deep_view())->Ok_0;
        let ghost e1 = <bool as Encodable>::spec_encode(self.crafting_recipe_book_open.deep_view())->Ok_0;
        let ghost e2 = <bool as Encodable>::spec_encode(self.crafting_recipe_book_filter_active.deep_view())->Ok_0;
        let ghost e3 = <bool as Encodable>::spec_encode(self.smelting_recipe_book_open.deep_view())->Ok_0;
        let ghost e4 = <bool as Encodable>::spec_encode(self.smelting_recipe_book_filter_active.deep_view())->Ok_0;
        let ghost e5 = <bool as Encodable>::spec_encode(self.blast_furnace_recipe_book_open.deep_view())->Ok_0;
        let ghost e6 = <bool as Encodable>::spec_encode(self.blast_furnace_recipe_book_filter_active.deep_view())->Ok_0;
        let ghost e7 = <bool as Encodable>::spec_encode(self.smoker_recipe_book_open.deep_view())->Ok_0;
        let ghost e8 = <bool as Encodable>::spec_encode(self.smoker_recipe_book_filter_active.deep_view())->Ok_0;
        let ghost e9 = <(VarInt, Vec<Identifier>) as Encodable>::spec_encode(self.recipe_ids.deep_view())->Ok_0;
        let ghost e10 = <Option<(VarInt, Vec<Identifier>)> as Encodable>::spec_encode(self.recipe_ids_2.deep_view())->Ok_0;
        match self.action.encode(out) {
            Ok(_) => {},
            Err(e) => return Err(e),
        }
        match self.crafting_recipe_book_open.encode(out) {
            Ok(_) => {},
            Err(e) => {
                roll_back(out, Ghost(o0), Ghost(e0), start);
                return Err(e);
            },
        }
        proof {
            lemma_concat_assoc(o0, e0, e1);
        }
        match self.crafting_recipe_book_filter_active.encode(out) {
            Ok(_) => {},
            Err(e) => {
                roll_back(out, Ghost(o0), Ghost(e0 + e1), start);
                return Err(e);
            },
        }
        proof {
            lemma_concat_assoc(o0, e0 + e1, e2);
        }
        match self.smelting_recipe_book_open.encode(out) {
            Ok(_) => {},
            Err(e) => {
                roll_back(out, Ghost(o0), Ghost(e0 + e1 + e2), start);
                return Err(e);
            },
        }
        proof {
            lemma_concat_assoc(o0, e0 + e1 + e2, e3);
        }
        match self.smelting_recipe_book_filter_active.encode(out) {
            Ok(_) => {},
            Err(e) => {
                roll_back(out, Ghost(o0), Ghost(e0 + e1 + e2 + e3), start);
                return Err(e);
            },
        }
        proof {
            lemma_concat_assoc(o0, e0 + e1 + e2 + e3, e4);
        }
        match self.blast_furnace_recipe_book_open.encode(out) {
            Ok(_) => {},
            Err(e) => {
                roll_back(out, Ghost(o0), Ghost(e0 + e1 + e2 + e3 + e4), start);
                return Err(e);
            },
        }
        proof {
            lemma_concat_assoc(o0, e0 + e1 + e2 + e3 + e4, e5);
        }
        match self.blast_furnace_recipe_book_filter_active.encode(out) {
            Ok(_) => {},
            Err(e) => {
                roll_back(out, Ghost(o0), Ghost(e0 + e1 + e2 + e3 + e4 + e5), start);
                return Err(e);
            },
        }
        proof {
            lemma_concat_assoc(o0, e0 + e1 + e2 + e3 + e4 + e5, e6);
        }
        match self.smoker_recipe_book_open.encode(out) {
            Ok(_) => {},
            Err(e) => {
                roll_back(out, Ghost(o0), Ghost(e0 + e1 + e2 + e3 + e4 + e5 + e6), start);
                return Err(e);
            },
        }
        proof {
            lemma_concat_assoc(o0, e0 + e1 + e2 + e3 + e4 + e5 + e6, e7);
        }
        match self.smoker_recipe_book_filter_active.encode(out) {
            Ok(_) => {},
            Err(e) => {
                roll_back(out, Ghost(o0), Ghost(e0 + e1 + e2 + e3 + e4 + e5 + e6 + e7), start);
                return Err(e);
            },
        }
        proof {
            lemma_concat_assoc(o0, e0 + e1 + e2 + e3 + e4 + e5 + e6 + e7, e8);
        }
        match self.recipe_ids.encode(out) {
            Ok(_) => {},
            Err(e) => {
                roll_back(out, Ghost(o0), Ghost(e0 + e1 + e2 + e3 + e4 + e5 + e6 + e7 + e8), start);
                return Err(e);
            },
        }
        proof {
            lemma_concat_assoc(o0, e0 + e1 + e2 + e3 + e4 + e5 + e6 + e7 + e8, e9);
        }
        match self.recipe_ids_2.encode(out) {
            Ok(_) => {},
            Err(e) => {
                roll_back(out, Ghost(o0), Ghost(e0 + e1 + e2 + e3 + e4 + e5 + e6 + e7 + e8 + e9), start);
                return Err(e);
            },
        }
        proof {
            lemma_concat_assoc(o0, e0 + e1 + e2 + e3 + e4 + e5 + e6 + e7 + e8 + e9, e10);
        }
        Ok(())
    }

    #[verifier::spinoff_prover]
    #[verifier::rlimit(100)]
    fn size(&self) -> (r: Result<VarInt, CodecError>) {
        proof {
            <VarInt as Encodable>::lemma_size_faithful(self.action.deep_view());
            <bool as Encodable>::lemma_size_faithful(self.crafting_recipe_book_open.deep_view());
            <bool as Encodable>::lemma_size_faithful(self.crafting_recipe_book_filter_active.deep_view());
            <bool as Encodable>::lemma_size_faithful(self.smelting_recipe_book_open.deep_view());
            <bool as Encodable>::lemma_size_faithful(self.smelting_recipe_book_filter_active.deep_view());
            <bool as Encodable>::lemma_size_faithful(self.blast_furnace_recipe_book_open.deep_view());
            <bool as Encodable>::lemma_size_faithful(self.blast_furnace_recipe_book_filter_active.deep_view());
            <bool as Encodable>::lemma_size_faithful(self.smoker_recipe_book_open.deep_view());
            <bool as Encodable>::lemma_size_faithful(self.smoker_recipe_book_filter_active.deep_view());
            <(VarInt, Vec<Identifier>) as Encodable>::lemma_size_faithful(self.recipe_ids.deep_view());
            <Option<(VarInt, Vec<Identifier>)> as Encodable>::lemma_size_faithful(self.recipe_ids_2.deep_view());
        }
        let ghost w0 = <VarInt as Encodable>::spec_size(self.action.deep_view());
        let ghost w1 = <bool as Encodable>::spec_size(self.crafting_recipe_book_open.deep_view());
        let ghost w2 = <bool as Encodable>::spec_size(self.crafting_recipe_book_filter_active.deep_view());
        let ghost w3 = <bool as Encodable>::spec_size(self.smelting_recipe_book_open.deep_view());
        let ghost w4 = <bool as Encodable>::spec_size(self.smelting_recipe_book_filter_active.deep_view());
        let ghost w5 = <bool as Encodable>::spec_size(self.blast_furnace_recipe_book_open.deep_view());
        let ghost w6 = <bool as Encodable>::spec_size(self.blast_furnace_recipe_book_filter_active.deep_view());
        let ghost w7 = <bool as Encodable>::spec_size(self.smoker_recipe_book_open.deep_view());
        let ghost w8 = <bool as Encodable>::spec_size(self.smoker_recipe_book_filter_active.deep_view());
        let ghost w9 = <(VarInt, Vec<Identifier>) as Encodable>::spec_size(self.recipe_ids.deep_view());
        let ghost w10 = <Option<(VarInt, Vec<Identifier>)> as Encodable>::spec_size(self.recipe_ids_2.deep_view());
        let t0 = self.action.size();
        let t1 = add_size(t0, Ghost(w0), self.crafting_recipe_book_open.size(), Ghost(w1));
        let ghost c1 = add_size_spec(w0, w1);
        let t2 = add_size(t1, Ghost(c1), self.crafting_recipe_book_filter_active.size(), Ghost(w2));
        let ghost c2 = add_size_spec(c1, w2);
        let t3 = add_size(t2, Ghost(c2), self.smelting_recipe_book_open.size(), Ghost(w3));
        let ghost c3 = add_size_spec(c2, w3);
        let t4 = add_size(t3, Ghost(c3), self.smelting_recipe_book_filter_active.size(), Ghost(w4));
        let ghost c4 = add_size_spec(c3, w4);
        let t5 = add_size(t4, Ghost(c4), self.blast_furnace_recipe_book_open.size(), Ghost(w5));
        let ghost c5 = add_size_spec(c4, w5);
        let t6 = add_size(t5, Ghost(c5), self.blast_furnace_recipe_book_filter_active.size(), Ghost(w6));
        let ghost c6 = add_size_spec(c5, w6);
        let t7 = add_size(t6, Ghost(c6), self.smoker_recipe_book_open.size(), Ghost(w7));
        let ghost c7 = add_size_spec(c6, w7);
        let t8 = add_size(t7, Ghost(c7), self.smoker_recipe_book_filter_active.size(), Ghost(w8));
        let ghost c8 = add_size_spec(c7, w8);
        let t9 = add_size(t8, Ghost(c8), self.recipe_ids.size(), Ghost(w9));
        let ghost c9 = add_size_spec(c8, w9);
        let t10 = add_size(t9, Ghost(c9), self.recipe_ids_2.size(), Ghost(w10));
        t10
    }
}

impl Decodable for UnlockRecipes {
    open spec fn spec_decode(bytes: Seq<u8>) -> Result<(UnlockRecipesView, nat), CodecError> {
        match decode_at::<VarInt>(bytes, 0) {
            Err(e) => Err(e),
            Ok((action, n0)) => match decode_at::<bool>(bytes, n0) {
                Err(e) => Err(e),
                Ok((crafting_recipe_book_open, n1)) => match decode_at::<bool>(bytes, n0 + n1) {
                    Err(e) => Err(e),
                    Ok((crafting_recipe_book_filter_active, n2)) => match decode_at::<bool>(bytes, n0 + n1 + n2) {
                        Err(e) => Err(e),
                        Ok((smelting_recipe_book_open, n3)) => match decode_at::<bool>(bytes, n0 + n1 + n2 + n3) {
                            Err(e) => Err(e),
                            Ok((smelting_recipe_book_filter_active, n4)) => match decode_at::<bool>(bytes, n0 + n1 + n2 + n3 + n4) {
                                Err(e) => Err(e),
                                Ok((blast_furnace_recipe_book_open, n5)) => match decode_at::<bool>(bytes, n0 + n1 + n2 + n3 + n4 + n5) {
                                    Err(e) => Err(e),
                                    Ok((blast_furnace_recipe_book_filter_active, n6)) => match decode_at::<bool>(bytes, n0 + n1 + n2 + n3 + n4 + n5 + n6) {
                                        Err(e) => Err(e),
                                        Ok((smoker_recipe_book_open, n7)) => match decode_at::<bool>(bytes, n0 + n1 + n2 + n3 + n4 + n5 + n6 + n7) {
                                            Err(e) => Err(e),
                                            Ok((smoker_recipe_book_filter_active, n8)) => match decode_at::<(VarInt, Vec<Identifier>)>(bytes, n0 + n1 + n2 + n3 + n4 + n5 + n6 + n7 + n8) {
                                                Err(e) => Err(e),
                                                Ok((recipe_ids, n9)) => match decode_if::<(VarInt, Vec<Identifier>)>(action == 0, bytes, n0 + n1 + n2 + n3 + n4 + n5 + n6 + n7 + n8 + n9) {
                                                    Err(e) => Err(e),
                                                    Ok((recipe_ids_2, n10)) => Ok((UnlockRecipesView { action, crafting_recipe_book_open, crafting_recipe_book_filter_active, smelting_recipe_book_open, smelting_recipe_book_filter_active, blast_furnace_recipe_book_open, blast_furnace_recipe_book_filter_active, smoker_recipe_book_open, smoker_recipe_book_filter_active, recipe_ids, recipe_ids_2 }, n0 + n1 + n2 + n3 + n4 + n5 + n6 + n7 + n8 + n9 + n10)),
                                                },
                                            },
                                        },
                                    },
                                },
                            },
                        },
                    },
                },
            },
        }
    }

    proof fn lemma_decode_len(bytes: Seq<u8>) {
        lemma_decode_at::<VarInt>(bytes, 0);
        <VarInt as Decodable>::lemma_decode_len(bytes.subrange((0) as int, bytes.len() as int));
        if let Ok((action, n0)) = decode_at::<VarInt>(bytes, 0) {
            lemma_decode_at::<bool>(bytes, n0);
            <bool as Decodable>::lemma_decode_len(bytes.subrange((n0) as int, bytes.len() as int));
            if let Ok((crafting_recipe_book_open, n1)) = decode_at::<bool>(bytes, n0) {
                lemma_decode_at::<bool>(bytes, n0 + n1);
                <bool as Decodable>::lemma_decode_len(bytes.subrange((n0 + n1) as int, bytes.len() as int));
                if let Ok((crafting_recipe_book_filter_active, n2)) = decode_at::<bool>(bytes, n0 + n1) {
                    lemma_decode_at::<bool>(bytes, n0 + n1 + n2);
                    <bool as Decodable>::lemma_decode_len(bytes.subrange((n0 + n1 + n2) as int, bytes.len() as int));
                    if let Ok((smelting_recipe_book_open, n3)) = decode_at::<bool>(bytes, n0 + n1 + n2) {
                        lemma_decode_at::<bool>(bytes, n0 + n1 + n2 + n3);
                        <bool as Decodable>::lemma_decode_len(bytes.subrange((n0 + n1 + n2 + n3) as int, bytes.len() as int));
                        if let Ok((smelting_recipe_book_filter_active, n4)) = decode_at::<bool>(bytes, n0 + n1 + n2 + n3) {
                            lemma_decode_at::<bool>(bytes, n0 + n1 + n2 + n3 + n4);
                            <bool as Decodable>::lemma_decode_len(bytes.subrange((n0 + n1 + n2 + n3 + n4) as int, bytes.len() as int));
                            if let Ok((blast_furnace_recipe_book_open, n5)) = decode_at::<bool>(bytes, n0 + n1 + n2 + n3 + n4) {
                                lemma_decode_at::<bool>(bytes, n0 + n1 + n2 + n3 + n4 + n5);
                                <bool as Decodable>::lemma_decode_len(bytes.subrange((n0 + n1 + n2 + n3 + n4 + n5) as int, bytes.len() as int));
                                if let Ok((blast_furnace_recipe_book_filter_active, n6)) = decode_at::<bool>(bytes, n0 + n1 + n2 + n3 + n4 + n5) {
                                    lemma_decode_at::<bool>(bytes, n0 + n1 + n2 + n3 + n4 + n5 + n6);
                                    <bool as Decodable>::lemma_decode_len(bytes.subrange((n0 + n1 + n2 + n3 + n4 + n5 + n6) as int, bytes.len() as int));
                                    if let Ok((smoker_recipe_book_open, n7)) = decode_at::<bool>(bytes, n0 + n1 + n2 + n3 + n4 + n5 + n6) {
                                        lemma_decode_at::<bool>(bytes, n0 + n1 + n2 + n3 + n4 + n5 + n6 + n7);
                                        <bool as Decodable>::lemma_decode_len(bytes.subrange((n0 + n1 + n2 + n3 + n4 + n5 + n6 + n7) as int, bytes.len() as int));
                                        if let Ok((smoker_recipe_book_filter_active, n8)) = decode_at::<bool>(bytes, n0 + n1 + n2 + n3 + n4 + n5 + n6 + n7) {
                                            lemma_decode_at::<(VarInt, Vec<Identifier>)>(bytes, n0 + n1 + n2 + n3 + n4 + n5 + n6 + n7 + n8);
                                            <(VarInt, Vec<Identifier>) as Decodable>::lemma_decode_len(bytes.subrange((n0 + n1 + n2 + n3 + n4 + n5 + n6 + n7 + n8) as int, bytes.len() as int));
                                            if let Ok((recipe_ids, n9)) = decode_at::<(VarInt, Vec<Identifier>)>(bytes, n0 + n1 + n2 + n3 + n4 + n5 + n6 + n7 + n8) {
                                                lemma_decode_if::<(VarInt, Vec<Identifier>)>(action == 0, bytes, n0 + n1 + n2 + n3 + n4 + n5 + n6 + n7 + n8 + n9);
                                                if action == 0 {
                                                    <(VarInt, Vec<Identifier>) as Decodable>::lemma_decode_len(bytes.subrange((n0 + n1 + n2 + n3 + n4 + n5 + n6 + n7 + n8 + n9) as int, bytes.len() as int));
                                                }
                                            }
                                        }
                                    }
                                }
                            }
                        }
                    }
                }
            }
        }
    }

    #[verifier::spinoff_prover]
    #[verifier::rlimit(100)]
    fn decode(reader: &mut ByteReader) -> (r: Result<UnlockRecipes, CodecError>) {
        let ghost r0 = *reader;
        let ghost rest0 = reader.rest();
        proof {
            ByteReader::lemma_rest_since(r0, *reader);
            lemma_decode_at::<VarInt>(rest0, (reader.pos() - r0.pos()) as nat);
        }
        let action = match <VarInt>::decode(reader) {
            Ok(v) => v,
            Err(e) => return Err(e),
        };
        proof {
            ByteReader::lemma_rest_since(r0, *reader);
            lemma_decode_at::<bool>(rest0, (reader.pos() - r0.pos()) as nat);
        }
        let crafting_recipe_book_open = match <bool>::decode(reader) {
            Ok(v) => v,
            Err(e) => return Err(e),
        };
        proof {
            ByteReader::lemma_rest_since(r0, *reader);
            lemma_decode_at::<bool>(rest0, (reader.pos() - r0.pos()) as nat);
        }
        let crafting_recipe_book_filter_active = match <bool>::decode(reader) {
            Ok(v) => v,
            Err(e) => return Err(e),
        };
        proof {
            ByteReader::lemma_rest_since(r0, *reader);
            lemma_decode_at::<bool>(rest0, (reader.pos() - r0.pos()) as nat);
        }
        let smelting_recipe_book_open = match <bool>::decode(reader) {
            Ok(v) => v,
            Err(e) => return Err(e),
        };
        proof {
            ByteReader::lemma_rest_since(r0, *reader);
            lemma_decode_at::<bool>(rest0, (reader.pos() - r0.pos()) as nat);
        }
        let smelting_recipe_book_filter_active = match <bool>::decode(reader) {
            Ok(v) => v,
            Err(e) => return Err(e),
        };
        proof {
            ByteReader::lemma_rest_since(r0, *reader);
            lemma_decode_at::<bool>(rest0, (reader.pos() - r0.pos()) as nat);
        }
        let blast_furnace_recipe_book_open = match <bool>::decode(reader) {
            Ok(v) => v,
            Err(e) => return Err(e),
        };
        proof {
            ByteReader::lemma_rest_since(r0, *reader);
            lemma_decode_at::<bool>(rest0, (reader.pos() - r0.pos()) as nat);
        }
        let blast_furnace_recipe_book_filter_active = match <bool>::decode(reader) {
            Ok(v) => v,
            Err(e) => return Err(e),
        };
        proof {
            ByteReader::lemma_rest_since(r0, *reader);
            lemma_decode_at::<bool>(rest0, (reader.pos() - r0.pos()) as nat);
        }
        let smoker_recipe_book_open = match <bool>::decode(reader) {
            Ok(v) => v,
            Err(e) => return Err(e),
        };
        proof {
            ByteReader::lemma_rest_since(r0, *reader);
            lemma_decode_at::<bool>(rest0, (reader.pos() - r0.pos()) as nat);
        }
        let smoker_recipe_book_filter_active = match <bool>::decode(reader) {
            Ok(v) => v,
            Err(e) => return Err(e),
        };
        proof {
            ByteReader::lemma_rest_since(r0, *reader);
            lemma_decode_at::<(VarInt, Vec<Identifier>)>(rest0, (reader.pos() - r0.pos()) as nat);
        }
        let recipe_ids = match <(VarInt, Vec<Identifier>)>::decode(reader) {
            Ok(v) => v,
            Err(e) => return Err(e),
        };
        proof {
            ByteReader::lemma_rest_since(r0, *reader);
            lemma_decode_if::<(VarInt, Vec<Identifier>)>(action.0 == 0, rest0, (reader.pos() - r0.pos()) as nat);
        }
        let recipe_ids_2 = if action.0 == 0 {
            match <(VarInt, Vec<Identifier>)>::decode(reader) {
                Ok(v) => Some(v),
                Err(e) => return Err(e),
            }
        } else {
            None
        };
        Ok(UnlockRecipes { action, crafting_recipe_book_open, crafting_recipe_book_filter_active, smelting_recipe_book_open, smelting_recipe_book_filter_active, blast_furnace_recipe_book_open, blast_furnace_recipe_book_filter_active, smoker_recipe_book_open, smoker_recipe_book_filter_active, recipe_ids, recipe_ids_2 })
    }
}

impl Codec for UnlockRecipes {
    open spec fn valid(m: UnlockRecipesView) -> bool {
        &&& <VarInt as Codec>::valid(m.action)
        &&& <VarInt as Codec>::delimited()
        &&& <bool as Codec>::valid(m.crafting_recipe_book_open)
        &&& <bool as Codec>::delimited()
        &&& <bool as Codec>::valid(m.crafting_recipe_book_filter_active)
        &&& <bool as Codec>::delimited()
        &&& <bool as Codec>::valid(m.smelting_recipe_book_open)
        &&& <bool as Codec>::delimited()
        &&& <bool as Codec>::valid(m.smelting_recipe_book_filter_active)
        &&& <bool as Codec>::delimited()
        &&& <bool as Codec>::valid(m.blast_furnace_recipe_book_open)
        &&& <bool as Codec>::delimited()
        &&& <bool as Codec>::valid(m.blast_furnace_recipe_book_filter_active)
        &&& <bool as Codec>::delimited()
        &&& <bool as Codec>::valid(m.smoker_recipe_book_open)
        &&& <bool as Codec>::delimited()
        &&& <bool as Codec>::valid(m.smoker_recipe_book_filter_active)
        &&& <bool as Codec>::delimited()
        &&& <(VarInt, Vec<Identifier>) as Codec>::valid(m.recipe_ids)
        &&& <(VarInt, Vec<Identifier>) as Codec>::delimited()
        &&& if m.action == 0 {
            m.recipe_ids_2 matches Some(v) && <(VarInt, Vec<Identifier>) as Codec>::valid(v)
        } else {
            m.recipe_ids_2 is None
        }
    }

    open spec fn delimited() -> bool {
        <(VarInt, Vec<Identifier>) as Codec>::delimited()
    }

    #[verifier::spinoff_prover]
    #[verifier::rlimit(100)]
    proof fn lemma_round_trip(m: UnlockRecipesView, rest: Seq<u8>) {
        let e0 = <VarInt as Encodable>::spec_encode(m.action)->Ok_0;
        let e1 = <bool as Encodable>::spec_encode(m.crafting_recipe_book_open)->Ok_0;
        let e2 = <bool as Encodable>::spec_encode(m.crafting_recipe_book_filter_active)->Ok_0;
        let e3 = <bool as Encodable>::spec_encode(m.smelting_recipe_book_open)->Ok_0;
        let e4 = <bool as Encodable>::spec_encode(m.smelting_recipe_book_filter_active)->Ok_0;
        let e5 = <bool as Encodable>::spec_encode(m.blast_furnace_recipe_book_open)->Ok_0;
        let e6 = <bool as Encodable>::spec_encode(m.blast_furnace_recipe_book_filter_active)->Ok_0;
        let e7 = <bool as Encodable>::spec_encode(m.smoker_recipe_book_open)->Ok_0;
        let e8 = <bool as Encodable>::spec_encode(m.smoker_recipe_book_filter_active)->Ok_0;
        let e9 = <(VarInt, Vec<Identifier>) as Encodable>::spec_encode(m.recipe_ids)->Ok_0;
        let e10 = <Option<(VarInt, Vec<Identifier>)> as Encodable>::spec_encode(m.recipe_ids_2)->Ok_0;
        let t10 = e10 + rest;
        let t9 = e9 + t10;
        let t8 = e8 + t9;
        let t7 = e7 + t8;
        let t6 = e6 + t7;
        let t5 = e5 + t6;
        let t4 = e4 + t5;
        let t3 = e3 + t4;
        let t2 = e2 + t3;
        let t1 = e1 + t2;
        let t0 = e0 + t1;
        assert(decode_at::<VarInt>(t0, (0) as nat) == Ok::<(<VarInt as DeepView>::V, nat), CodecError>((m.action, e0.len()))
            && <VarInt as Encodable>::spec_encode(m.action) == Ok::<Seq<u8>, CodecError>(e0)
            && decode_at::<bool>(t0, (e0.len()) as nat) == Ok::<(<bool as DeepView>::V, nat), CodecError>((m.crafting_recipe_book_open, e1.len()))
            && <bool as Encodable>::spec_encode(m.crafting_recipe_book_open) == Ok::<Seq<u8>, CodecError>(e1)
            && decode_at::<bool>(t0, (e0.len() + e1.len()) as nat) == Ok::<(<bool as DeepView>::V, nat), CodecError>((m.crafting_recipe_book_filter_active, e2.len()))
            && <bool as Encodable>::spec_encode(m.crafting_recipe_book_filter_active) == Ok::<Seq<u8>, CodecError>(e2)
            && decode_at::<bool>(t0, (e0.len() + e1.len() + e2.len()) as nat) == Ok::<(<bool as DeepView>::V, nat), CodecError>((m.smelting_recipe_book_open, e3.len()))
            && <bool as Encodable>::spec_encode(m.smelting_recipe_book_open) == Ok::<Seq<u8>, CodecError>(e3)
            && decode_at::<bool>(t0, (e0.len() + e1.len() + e2.len() + e3.len()) as nat) == Ok::<(<bool as DeepView>::V, nat), CodecError>((m.smelting_recipe_book_filter_active, e4.len()))
            && <bool as Encodable>::spec_encode(m.smelting_recipe_book_filter_active) == Ok::<Seq<u8>, CodecError>(e4)
            && decode_at::<bool>(t0, (e0.len() + e1.len() + e2.len() + e3.len() + e4.len()) as nat) == Ok::<(<bool as DeepView>::V, nat), CodecError>((m.blast_furnace_recipe_book_open, e5.len()))
            && <bool as Encodable>::spec_encode(m.blast_furnace_recipe_book_open) == Ok::<Seq<u8>, CodecError>(e5)
            && decode_at::<bool>(t0, (e0.len() + e1.len() + e2.len() + e3.len() + e4.len() + e5.len()) as nat) == Ok::<(<bool as DeepView>::V, nat), CodecError>((m.blast_furnace_recipe_book_filter_active, e6.len()))
            && <bool as Encodable>::spec_encode(m.blast_furnace_recipe_book_filter_active) == Ok::<Seq<u8>, CodecError>(e6)
            && decode_at::<bool>(t0, (e0.len() + e1.len() + e2.len() + e3.len() + e4.len() + e5.len() + e6.len()) as nat) == Ok::<(<bool as DeepView>::V, nat), CodecError>((m.smoker_recipe_book_open, e7.len()))
            && <bool as Encodable>::spec_encode(m.smoker_recipe_book_open) == Ok::<Seq<u8>, CodecError>(e7)
            && decode_at::<bool>(t0, (e0.len() + e1.len() + e2.len() + e3.len() + e4.len() + e5.len() + e6.len() + e7.len()) as nat) == Ok::<(<bool as DeepView>::V, nat), CodecError>((m.smoker_recipe_book_filter_active, e8.len()))
            && <bool as Encodable>::spec_encode(m.smoker_recipe_book_filter_active) == Ok::<Seq<u8>, CodecError>(e8)
            && decode_at::<(VarInt, Vec<Identifier>)>(t0, (e0.len() + e1.len() + e2.len() + e3.len() + e4.len() + e5.len() + e6.len() + e7.len() + e8.len()) as nat) == Ok::<(<(VarInt, Vec<Identifier>) as DeepView>::V, nat), CodecError>((m.recipe_ids, e9.len()))
            && <(VarInt, Vec<Identifier>) as Encodable>::spec_encode(m.recipe_ids) == Ok::<Seq<u8>, CodecError>(e9)
            && decode_if::<(VarInt, Vec<Identifier>)>(m.action == 0, t0, (e0.len() + e1.len() + e2.len() + e3.len() + e4.len() + e5.len() + e6.len() + e7.len() + e8.len() + e9.len()) as nat) == Ok::<(Option<<(VarInt, Vec<Identifier>) as DeepView>::V>, nat), CodecError>((m.recipe_ids_2, e10.len()))
            && <Option<(VarInt, Vec<Identifier>)> as Encodable>::spec_encode(m.recipe_ids_2) == Ok::<Seq<u8>, CodecError>(e10)) by {
            lemma_subrange_all(t0);
            lemma_field_round_trip::<VarInt>(m.action, t0, (0) as nat, t1);
            lemma_field_round_trip::<bool>(m.crafting_recipe_book_open, t0, (e0.len()) as nat, t2);
            lemma_field_round_trip::<bool>(m.crafting_recipe_book_filter_active, t0, (e0.len() + e1.len()) as nat, t3);
            lemma_field_round_trip::<bool>(m.smelting_recipe_book_open, t0, (e0.len() + e1.len() + e2.len()) as nat, t4);
            lemma_field_round_trip::<bool>(m.smelting_recipe_book_filter_active, t0, (e0.len() + e1.len() + e2.len() + e3.len()) as nat, t5);
            lemma_field_round_trip::<bool>(m.blast_furnace_recipe_book_open, t0, (e0.len() + e1.len() + e2.len() + e3.len() + e4.len()) as nat, t6);
            lemma_field_round_trip::<bool>(m.blast_furnace_recipe_book_filter_active, t0, (e0.len() + e1.len() + e2.len() + e3.len() + e4.len() + e5.len()) as nat, t7);
            lemma_field_round_trip::<bool>(m.smoker_recipe_book_open, t0, (e0.len() + e1.len() + e2.len() + e3.len() + e4.len() + e5.len() + e6.len()) as nat, t8);
            lemma_field_round_trip::<bool>(m.smoker_recipe_book_filter_active, t0, (e0.len() + e1.len() + e2.len() + e3.len() + e4.len() + e5.len() + e6.len() + e7.len()) as nat, t9);
            lemma_field_round_trip::<(VarInt, Vec<Identifier>)>(m.recipe_ids, t0, (e0.len() + e1.len() + e2.len() + e3.len() + e4.len() + e5.len() + e6.len() + e7.len() + e8.len()) as nat, t10);
            lemma_field_if_round_trip::<(VarInt, Vec<Identifier>)>(m.action == 0, m.recipe_ids_2, t0, (e0.len() + e1.len() + e2.len() + e3.len() + e4.len() + e5.len() + e6.len() + e7.len() + e8.len() + e9.len()) as nat, rest);
        }
        assert(e0 + e1 + e2 + e3 + e4 + e5 + e6 + e7 + e8 + e9 + e10 + rest == t0) by {
            lemma_concat_assoc(e0, e1, t2);
            lemma_concat_assoc(e0 + e1, e2, t3);
            lemma_concat_assoc(e0 + e1 + e2, e3, t4);
            lemma_concat_assoc(e0 + e1 + e2 + e3, e4, t5);
            lemma_concat_assoc(e0 + e1 + e2 + e3 + e4, e5, t6);
            lemma_concat_assoc(e0 + e1 + e2 + e3 + e4 + e5, e6, t7);
            lemma_concat_assoc(e0 + e1 + e2 + e3 + e4 + e5 + e6, e7, t8);
            lemma_concat_assoc(e0 + e1 + e2 + e3 + e4 + e5 + e6 + e7, e8, t9);
            lemma_concat_assoc(e0 + e1 + e2 + e3 + e4 + e5 + e6 + e7 + e8, e9, t10);
            lemma_concat_assoc(e0 + e1 + e2 + e3 + e4 + e5 + e6 + e7 + e8 + e9, e10, rest);
        }
        assert(Self::spec_encode(m) == Ok::<Seq<u8>, CodecError>(e0 + e1 + e2 + e3 + e4 + e5 + e6 + e7 + e8 + e9 + e10));
    }
}
/// The client-bound play message: destroy entities.
pub struct DestroyEntities {
    pub entity_ids: (VarInt, Vec<VarInt>),
}

/// The model of a `DestroyEntities`: each field by its model.
pub struct DestroyEntitiesView {
    pub entity_ids: (i32, Seq<i32>),
}

impl DeepView for DestroyEntities {
    type V = DestroyEntitiesView;

    open spec fn deep_view(&self) -> DestroyEntitiesView {
        DestroyEntitiesView {
            entity_ids: self.entity_ids.deep_view(),
        }
    }
}

impl Encodable for DestroyEntities {
    /// The fields in order, with no framing.
    open spec fn spec_encode(m: DestroyEntitiesView) -> Result<Seq<u8>, CodecError> {
        <(VarInt, Vec<VarInt>) as Encodable>::spec_encode(m.entity_ids)
    }

    /// The sum of the fields' sizes.
    open spec fn spec_size(m: DestroyEntitiesView) -> Result<nat, CodecError> {
        <(VarInt, Vec<VarInt>) as Encodable>::spec_size(m.entity_ids)
    }

    proof fn lemma_size_faithful(m: DestroyEntitiesView) {
        <(VarInt, Vec<VarInt>) as Encodable>::lemma_size_faithful(m.entity_ids);
    }

    fn encode(&self, out: &mut Vec<u8>) -> (r: Result<(), CodecError>) {
        self.entity_ids.encode(out)
    }

    fn size(&self) -> (r: Result<VarInt, CodecError>) {
        self.entity_ids.size()
    }
}

impl Decodable for DestroyEntities {
    open spec fn spec_decode(bytes: Seq<u8>) -> Result<(DestroyEntitiesView, nat), CodecError> {
        match decode_at::<(VarInt, Vec<VarInt>)>(bytes, 0) {
            Err(e) => Err(e),
            Ok((entity_ids, n0)) => Ok((DestroyEntitiesView { entity_ids }, n0)),
        }
    }

    proof fn lemma_decode_len(bytes: Seq<u8>) {
        lemma_decode_at::<(VarInt, Vec<VarInt>)>(bytes, 0);
        <(VarInt, Vec<VarInt>) as Decodable>::lemma_decode_len(bytes.subrange((0) as int, bytes.len() as int));
    }

    fn decode(reader: &mut ByteReader) -> (r: Result<DestroyEntities, CodecError>) {
        let ghost r0 = *reader;
        let ghost rest0 = reader.rest();
        proof {
            ByteReader::lemma_rest_since(r0, *reader);
            lemma_decode_at::<(VarInt, Vec<VarInt>)>(rest0, (reader.pos() - r0.pos()) as nat);
        }
        let entity_ids = match <(VarInt, Vec<VarInt>)>::decode(reader) {
            Ok(v) => v,
            Err(e) => return Err(e),
        };
        Ok(DestroyEntities { entity_ids })
    }
}

impl Codec for DestroyEntities {
    open spec fn valid(m: DestroyEntitiesView) -> bool {
        &&& <(VarInt, Vec<VarInt>) as Codec>::valid(m.entity_ids)
    }

    open spec fn delimited() -> bool {
        <(VarInt, Vec<VarInt>) as Codec>::delimited()
    }

    proof fn lemma_round_trip(m: DestroyEntitiesView, rest: Seq<u8>) {
        let e0 = <(VarInt, Vec<VarInt>) as Encodable>::spec_encode(m.entity_ids)->Ok_0;
        let t0 = e0 + rest;
        assert(decode_at::<(VarInt, Vec<VarInt>)>(t0, (0) as nat) == Ok::<(<(VarInt, Vec<VarInt>) as DeepView>::V, nat), CodecError>((m.entity_ids, e0.len()))
            && <(VarInt, Vec<VarInt>) as Encodable>::spec_encode(m.entity_ids) == Ok::<Seq<u8>, CodecError>(e0)) by {
            lemma_subrange_all(t0);
            lemma_field_round_trip::<(VarInt, Vec<VarInt>)>(m.entity_ids, t0, (0) as nat, rest);
        }
    }
}
/// The client-bound play message: remove entity effect.
pub struct RemoveEntityEffect {
    pub entity_id: VarInt,
    pub effect_id: i8,
}

/// The model of a `RemoveEntityEffect`: each field by its model.
pub struct RemoveEntityEffectView {
    pub entity_id: i32,
    pub effect_id: i8,
}

impl DeepView for RemoveEntityEffect {
    type V = RemoveEntityEffectView;

    open spec fn deep_view(&self) -> RemoveEntityEffectView {
        RemoveEntityEffectView {
            entity_id: self.entity_id.deep_view(),
            effect_id: self.effect_id.deep_view(),
        }
    }
}

impl Encodable for RemoveEntityEffect {
    /// The fields in order, with no framing.
    open spec fn spec_encode(m: RemoveEntityEffectView) -> Result<Seq<u8>, CodecError> {
        then_encode(<VarInt as Encodable>::spec_encode(m.entity_id), <i8 as Encodable>::spec_encode(m.effect_id))
    }

    /// The sum of the fields' sizes.
    open spec fn spec_size(m: RemoveEntityEffectView) -> Result<nat, CodecError> {
        add_size_spec(<VarInt as Encodable>::spec_size(m.entity_id), <i8 as Encodable>::spec_size(m.effect_id))
    }

    proof fn lemma_size_faithful(m: RemoveEntityEffectView) {
        <VarInt as Encodable>::lemma_size_faithful(m.entity_id);
        <i8 as Encodable>::lemma_size_faithful(m.effect_id);
        lemma_then_size(<VarInt as Encodable>::spec_encode(m.entity_id), <VarInt as Encodable>::spec_size(m.entity_id), <i8 as Encodable>::spec_encode(m.effect_id), <i8 as Encodable>::spec_size(m.effect_id));
    }

    fn encode(&self, out: &mut Vec<u8>) -> (r: Result<(), CodecError>) {
        let ghost o0 = out@;
        let start = out.len();
        let ghost e0 = <VarInt as Encodable>::spec_encode(self.entity_id.deep_view())->Ok_0;
        let ghost e1 = <i8 as Encodable>::spec_encode(self.effect_id.deep_view())->Ok_0;
        match self.entity_id.encode(out) {
            Ok(_) => {},
            Err(e) => return Err(e),
        }
        match self.effect_id.encode(out) {
            Ok(_) => {},
            Err(e) => {
                roll_back(out, Ghost(o0), Ghost(e0), start);
                return Err(e);
            },
        }
        proof {
            lemma_concat_assoc(o0, e0, e1);
        }
        Ok(())
    }

    fn size(&self) -> (r: Result<VarInt, CodecError>) {
        proof {
            <VarInt as Encodable>::lemma_size_faithful(self.entity_id.deep_view());
            <i8 as Encodable>::lemma_size_faithful(self.effect_id.deep_view());
        }
        let ghost w0 = <VarInt as Encodable>::spec_size(self.entity_id.deep_view());
        let ghost w1 = <i8 as Encodable>::spec_size(self.effect_id.deep_view());
        let t0 = self.entity_id.size();
        let t1 = add_size(t0, Ghost(w0), self.effect_id.size(), Ghost(w1));
        t1
    }
}

impl Decodable for RemoveEntityEffect {
    open spec fn spec_decode(bytes: Seq<u8>) -> Result<(RemoveEntityEffectView, nat), CodecError> {
        match decode_at::<VarInt>(bytes, 0) {
            Err(e) => Err(e),
            Ok((entity_id, n0)) => match decode_at::<i8>(bytes, n0) {
                Err(e) => Err(e),
                Ok((effect_id, n1)) => Ok((RemoveEntityEffectView { entity_id, effect_id }, n0 + n1)),
            },
        }
    }

    proof fn lemma_decode_len(bytes: Seq<u8>) {
        lemma_decode_at::<VarInt>(bytes, 0);
        <VarInt as Decodable>::lemma_decode_len(bytes.subrange((0) as int, bytes.len() as int));
        if let Ok((entity_id, n0)) = decode_at::<VarInt>(bytes, 0) {
            lemma_decode_at::<i8>(bytes, n0);
            <i8 as Decodable>::lemma_decode_len(bytes.subrange((n0) as int, bytes.len() as int));
        }
    }

    fn decode(reader: &mut ByteReader) -> (r: Result<RemoveEntityEffect, CodecError>) {
        let ghost r0 = *reader;
        let ghost rest0 = reader.rest();
        proof {
            ByteReader::lemma_rest_since(r0, *reader);
            lemma_decode_at::<VarInt>(rest0, (reader.pos() - r0.pos()) as nat);
        }
        let entity_id = match <VarInt>::decode(reader) {
            Ok(v) => v,
            Err(e) => return Err(e),
        };
        proof {
            ByteReader::lemma_rest_since(r0, *reader);
            lemma_decode_at::<i8>(rest0, (reader.pos() - r0.pos()) as nat);
        }
        let effect_id = match <i8>::decode(reader) {
            Ok(v) => v,
            Err(e) => return Err(e),
        };
        Ok(RemoveEntityEffect { entity_id, effect_id })
    }
}

impl Codec for RemoveEntityEffect {
    open spec fn valid(m: RemoveEntityEffectView) -> bool {
        &&& <VarInt as Codec>::valid(m.entity_id)
        &&& <VarInt as Codec>::delimited()
        &&& <i8 as Codec>::valid(m.effect_id)
    }

    open spec fn delimited() -> bool {
        <i8 as Codec>::delimited()
    }

    proof fn lemma_round_trip(m: RemoveEntityEffectView, rest: Seq<u8>) {
        let e0 = <VarInt as Encodable>::spec_encode(m.entity_id)->Ok_0;
        let e1 = <i8 as Encodable>::spec_encode(m.effect_id)->Ok_0;
        let t1 = e1 + rest;
        let t0 = e0 + t1;
        assert(decode_at::<VarInt>(t0, (0) as nat) == Ok::<(<VarInt as DeepView>::V, nat), CodecError>((m.entity_id, e0.len()))
            && <VarInt as Encodable>::spec_encode(m.entity_id) == Ok::<Seq<u8>, CodecError>(e0)
            && decode_at::<i8>(t0, (e0.len()) as nat) == Ok::<(<i8 as DeepView>::V, nat), CodecError>((m.effect_id, e1.len()))
            && <i8 as Encodable>::spec_encode(m.effect_id) == Ok::<Seq<u8>, CodecError>(e1)) by {
            lemma_subrange_all(t0);
            lemma_field_round_trip::<VarInt>(m.entity_id, t0, (0) as nat, t1);
            lemma_field_round_trip::<i8>(m.effect_id, t0, (e0.len()) as nat, rest);
        }
        assert(e0 + e1 + rest == t0) by {
            lemma_concat_assoc(e0, e1, rest);
        }
        assert(Self::spec_encode(m) == Ok::<Seq<u8>, CodecError>(e0 + e1));
    }
}
/// The client-bound play message: resource pack send.
pub struct ResourcePackSend {
    pub url: BigString,
    pub hash: ResourcePackHash,
    pub forced: bool,
    pub has_prompt_message: bool,
    pub prompt_message: Option<ChatJson>,
}

/// The model of a `ResourcePackSend`: each field by its model.
pub struct ResourcePackSendView {
    pub url: Seq<char>,
    pub hash: Seq<char>,
    pub forced: bool,
    pub has_prompt_message: bool,
    pub prompt_message: Option<Seq<char>>,
}

impl DeepView for ResourcePackSend {
    type V = ResourcePackSendView;

    open spec fn deep_view(&self) -> ResourcePackSendView {
        ResourcePackSendView {
            url: self.url.deep_view(),
            hash: self.hash.deep_view(),
            forced: self.forced.deep_view(),
            has_prompt_message: self.has_prompt_message.deep_view(),
            prompt_message: self.prompt_message.deep_view(),
        }
    }
}

impl Encodable for ResourcePackSend {
    /// The fields in order, with no framing.
    open spec fn spec_encode(m: ResourcePackSendView) -> Result<Seq<u8>, CodecError> {
        then_encode(then_encode(then_encode(then_encode(<BigString as Encodable>::spec_encode(m.url), <ResourcePackHash as Encodable>::spec_encode(m.hash)), <bool as Encodable>::spec_encode(m.forced)), <bool as Encodable>::spec_encode(m.has_prompt_message)), <Option<ChatJson> as Encodable>::spec_encode(m.prompt_message))
    }

    /// The sum of the fields' sizes.
    open spec fn spec_size(m: ResourcePackSendView) -> Result<nat, CodecError> {
        add_size_spec(add_size_spec(add_size_spec(add_size_spec(<BigString as Encodable>::spec_size(m.url), <ResourcePackHash as Encodable>::spec_size(m.hash)), <bool as Encodable>::spec_size(m.forced)), <bool as Encodable>::spec_size(m.has_prompt_message)), <Option<ChatJson> as Encodable>::spec_size(m.prompt_message))
    }

    proof fn lemma_size_faithful(m: ResourcePackSendView) {
        <BigString as Encodable>::lemma_size_faithful(m.url);
        <ResourcePackHash as Encodable>::lemma_size_faithful(m.hash);
        <bool as Encodable>::lemma_size_faithful(m.forced);
        <bool as Encodable>::lemma_size_faithful(m.has_prompt_message);
        <Option<ChatJson> as Encodable>::lemma_size_faithful(m.prompt_message);
        lemma_then_size(<BigString as Encodable>::spec_encode(m.url), <BigString as Encodable>::spec_size(m.url), <ResourcePackHash as Encodable>::spec_encode(m.hash), <ResourcePackHash as Encodable>::spec_size(m.hash));
        lemma_then_size(then_encode(<BigString as Encodable>::spec_encode(m.url), <ResourcePackHash as Encodable>::spec_encode(m.hash)), add_size_spec(<BigString as Encodable>::spec_size(m.url), <ResourcePackHash as Encodable>::spec_size(m.hash)), <bool as Encodable>::spec_encode(m.forced), <bool as Encodable>::spec_size(m.forced));
        lemma_then_size(then_encode(then_encode(<BigString as Encodable>::spec_encode(m.url), <ResourcePackHash as Encodable>::spec_encode(m.hash)), <bool as Encodable>::spec_encode(m.forced)), add_size_spec(add_size_spec(<BigString as Encodable>::spec_size(m.url), <ResourcePackHash as Encodable>::spec_size(m.hash)), <bool as Encodable>::spec_size(m.forced)), <bool as Encodable>::spec_encode(m.has_prompt_message), <bool as Encodable>::spec_size(m.has_prompt_message));
        lemma_then_size(then_encode(then_encode(then_encode(<BigString as Encodable>::spec_encode(m.url), <ResourcePackHash as Encodable>::spec_encode(m.hash)), <bool as Encodable>::spec_encode(m.forced)), <bool as Encodable>::spec_encode(m.has_prompt_message)), add_size_spec(add_size_spec(add_size_spec(<BigString as Encodable>::spec_size(m.url), <ResourcePackHash as Encodable>::spec_size(m.hash)), <bool as Encodable>::spec_size(m.forced)), <bool as Encodable>::spec_size(m.has_prompt_message)), <Option<ChatJson> as Encodable>::spec_encode(m.prompt_message), <Option<ChatJson> as Encodable>::spec_size(m.prompt_message));
    }

    fn encode(&self, out: &mut Vec<u8>) -> (r: Result<(), CodecError>) {
        let ghost o0 = out@;
        let start = out.len();
        let ghost e0 = <BigString as Encodable>::spec_encode(self.url.deep_view())->Ok_0;
        let ghost e1 = <ResourcePackHash as Encodable>::spec_encode(self.hash.deep_view())->Ok_0;
        let ghost e2 = <bool as Encodable>::spec_encode(self.forced.deep_view())->Ok_0;
        let ghost e3 = <bool as Encodable>::spec_encode(self.has_prompt_message.deep_view())->Ok_0;
        let ghost e4 = <Option<ChatJson> as Encodable>::spec_encode(self.prompt_message.deep_view())->Ok_0;
        match self.url.encode(out) {
            Ok(_) => {},
            Err(e) => return Err(e),
        }
        match self.hash.encode(out) {
            Ok(_) => {},
            Err(e) => {
                roll_back(out, Ghost(o0), Ghost(e0), start);
                return Err(e);
            },
        }
        proof {
            lemma_concat_assoc(o0, e0, e1);
        }
        match self.forced.encode(out) {
            Ok(_) => {},
            Err(e) => {
                roll_back(out, Ghost(o0), Ghost(e0 + e1), start);
                return Err(e);
            },
        }
        proof {
            lemma_concat_assoc(o0, e0 + e1, e2);
        }
        match self.has_prompt_message.encode(out) {
            Ok(_) => {},
            Err(e) => {
                roll_back(out, Ghost(o0), Ghost(e0 + e1 + e2), start);
                return Err(e);
            },
        }
        proof {
            lemma_concat_assoc(o0, e0 + e1 + e2, e3);
        }
        match self.prompt_message.encode(out) {
            Ok(_) => {},
            Err(e) => {
                roll_back(out, Ghost(o0), Ghost(e0 + e1 + e2 + e3), start);
                return Err(e);
            },
        }
        proof {
            lemma_concat_assoc(o0, e0 + e1 + e2 + e3, e4);
        }
        Ok(())
    }

    fn size(&self) -> (r: Result<VarInt, CodecError>) {
        proof {
            <BigString as Encodable>::lemma_size_faithful(self.url.deep_view());
            <ResourcePackHash as Encodable>::lemma_size_faithful(self.hash.deep_view());
            <bool as Encodable>::lemma_size_faithful(self.forced.deep_view());
            <bool as Encodable>::lemma_size_faithful(self.has_prompt_message.deep_view());
            <Option<ChatJson> as Encodable>::lemma_size_faithful(self.prompt_message.deep_view());
        }
        let ghost w0 = <BigString as Encodable>::spec_size(self.url.deep_view());
        let ghost w1 = <ResourcePackHash as Encodable>::spec_size(self.hash.deep_view());
        let ghost w2 = <bool as Encodable>::spec_size(self.forced.deep_view());
        let ghost w3 = <bool as Encodable>::spec_size(self.has_prompt_message.deep_view());
        let ghost w4 = <Option<ChatJson> as Encodable>::spec_size(self.prompt_message.deep_view());
        let t0 = self.url.size();
        let t1 = add_size(t0, Ghost(w0), self.hash.size(), Ghost(w1));
        let ghost c1 = add_size_spec(w0, w1);
        let t2 = add_size(t1, Ghost(c1), self.forced.size(), Ghost(w2));
        let ghost c2 = add_size_spec(c1, w2);
        let t3 = add_size(t2, Ghost(c2), self.has_prompt_message.size(), Ghost(w3));
        let ghost c3 = add_size_spec(c2, w3);
        let t4 = add_size(t3, Ghost(c3), self.prompt_message.size(), Ghost(w4));
        t4
    }
}

impl Decodable for ResourcePackSend {
    open spec fn spec_decode(bytes: Seq<u8>) -> Result<(ResourcePackSendView, nat), CodecError> {
        match decode_at::<BigString>(bytes, 0) {
            Err(e) => Err(e),
            Ok((url, n0)) => match decode_at::<ResourcePackHash>(bytes, n0) {
                Err(e) => Err(e),
                Ok((hash, n1)) => match decode_at::<bool>(bytes, n0 + n1) {
                    Err(e) => Err(e),
                    Ok((forced, n2)) => match decode_at::<bool>(bytes, n0 + n1 + n2) {
                        Err(e) => Err(e),
                        Ok((has_prompt_message, n3)) => match decode_if::<ChatJson>(has_prompt_message, bytes, n0 + n1 + n2 + n3) {
                            Err(e) => Err(e),
                            Ok((prompt_message, n4)) => Ok((ResourcePackSendView { url, hash, forced, has_prompt_message, prompt_message }, n0 + n1 + n2 + n3 + n4)),
                        },
                    },
                },
            },
        }
    }

    proof fn lemma_decode_len(bytes: Seq<u8>) {
        lemma_decode_at::<BigString>(bytes, 0);
        <BigString as Decodable>::lemma_decode_len(bytes.subrange((0) as int, bytes.len() as int));
        if let Ok((url, n0)) = decode_at::<BigString>(bytes, 0) {
            lemma_decode_at::<ResourcePackHash>(bytes, n0);
            <ResourcePackHash as Decodable>::lemma_decode_len(bytes.subrange((n0) as int, bytes.len() as int));
            if let Ok((hash, n1)) = decode_at::<ResourcePackHash>(bytes, n0) {
                lemma_decode_at::<bool>(bytes, n0 + n1);
                <bool as Decodable>::lemma_decode_len(bytes.subrange((n0 + n1) as int, bytes.len() as int));
                if let Ok((forced, n2)) = decode_at::<bool>(bytes, n0 + n1) {
                    lemma_decode_at::<bool>(bytes, n0 + n1 + n2);
                    <bool as Decodable>::lemma_decode_len(bytes.subrange((n0 + n1 + n2) as int, bytes.len() as int));
                    if let Ok((has_prompt_message, n3)) = decode_at::<bool>(bytes, n0 + n1 + n2) {
                        lemma_decode_if::<ChatJson>(has_prompt_message, bytes, n0 + n1 + n2 + n3);
                        if has_prompt_message {
                            <ChatJson as Decodable>::lemma_decode_len(bytes.subrange((n0 + n1 + n2 + n3) as int, bytes.len() as int));
                        }
                    }
                }
            }
        }
    }

    fn decode(reader: &mut ByteReader) -> (r: Result<ResourcePackSend, CodecError>) {
        let ghost r0 = *reader;
        let ghost rest0 = reader.rest();
        proof {
            ByteReader::lemma_rest_since(r0, *reader);
            lemma_decode_at::<BigString>(rest0, (reader.pos() - r0.pos()) as nat);
        }
        let url = match <BigString>::decode(reader) {
            Ok(v) => v,
            Err(e) => return Err(e),
        };
        proof {
            ByteReader::lemma_rest_since(r0, *reader);
            lemma_decode_at::<ResourcePackHash>(rest0, (reader.pos() - r0.pos()) as nat);
        }
        let hash = match <ResourcePackHash>::decode(reader) {
            Ok(v) => v,
            Err(e) => return Err(e),
        };
        proof {
            ByteReader::lemma_rest_since(r0, *reader);
            lemma_decode_at::<bool>(rest0, (reader.pos() - r0.pos()) as nat);
        }
        let forced = match <bool>::decode(reader) {
            Ok(v) => v,
            Err(e) => return Err(e),
        };
        proof {
            ByteReader::lemma_rest_since(r0, *reader);
            lemma_decode_at::<bool>(rest0, (reader.pos() - r0.pos()) as nat);
        }
        let has_prompt_message = match <bool>::decode(reader) {
            Ok(v) => v,
            Err(e) => return Err(e),
        };
        proof {
            ByteReader::lemma_rest_since(r0, *reader);
            lemma_decode_if::<ChatJson>(has_prompt_message, rest0, (reader.pos() - r0.pos()) as nat);
        }
        let prompt_message = if has_prompt_message {
            match <ChatJson>::decode(reader) {
                Ok(v) => Some(v),
                Err(e) => return Err(e),
            }
        } else {
            None
        };
        Ok(ResourcePackSend { url, hash, forced, has_prompt_message, prompt_message })
    }
}

impl Codec for ResourcePackSend {
    open spec fn valid(m: ResourcePackSendView) -> bool {
        &&& <BigString as Codec>::valid(m.url)
        &&& <BigString as Codec>::delimited()
        &&& <ResourcePackHash as Codec>::valid(m.hash)
        &&& <ResourcePackHash as Codec>::delimited()
        &&& <bool as Codec>::valid(m.forced)
        &&& <bool as Codec>::delimited()
        &&& <bool as Codec>::valid(m.has_prompt_message)
        &&& <bool as Codec>::delimited()
        &&& if m.has_prompt_message {
            m.prompt_message matches Some(v) && <ChatJson as Codec>::valid(v)
        } else {
            m.prompt_message is None
        }
    }

    open spec fn delimited() -> bool {
        <ChatJson as Codec>::delimited()
    }

    proof fn lemma_round_trip(m: ResourcePackSendView, rest: Seq<u8>) {
        let e0 = <BigString as Encodable>::spec_encode(m.url)->Ok_0;
        let e1 = <ResourcePackHash as Encodable>::spec_encode(m.hash)->Ok_0;
        let e2 = <bool as Encodable>::spec_encode(m.forced)->Ok_0;
        let e3 = <bool as Encodable>::spec_encode(m.has_prompt_message)->Ok_0;
        let e4 = <Option<ChatJson> as Encodable>::spec_encode(m.prompt_message)->Ok_0;
        let t4 = e4 + rest;
        let t3 = e3 + t4;
        let t2 = e2 + t3;
        let t1 = e1 + t2;
        let t0 = e0 + t1;
        assert(decode_at::<BigString>(t0, (0) as nat) == Ok::<(<BigString as DeepView>::V, nat), CodecError>((m.url, e0.len()))
            && <BigString as Encodable>::spec_encode(m.url) == Ok::<Seq<u8>, CodecError>(e0)
            && decode_at::<ResourcePackHash>(t0, (e0.len()) as nat) == Ok::<(<ResourcePackHash as DeepView>::V, nat), CodecError>((m.hash, e1.len()))
            && <ResourcePackHash as Encodable>::spec_encode(m.hash) == Ok::<Seq<u8>, CodecError>(e1)
            && decode_at::<bool>(t0, (e0.len() + e1.len()) as nat) == Ok::<(<bool as DeepView>::V, nat), CodecError>((m.forced, e2.len()))
            && <bool as Encodable>::spec_encode(m.forced) == Ok::<Seq<u8>, CodecError>(e2)
            && decode_at::<bool>(t0, (e0.len() + e1.len() + e2.len()) as nat) == Ok::<(<bool as DeepView>::V, nat), CodecError>((m.has_prompt_message, e3.len()))
            && <bool as Encodable>::spec_encode(m.has_prompt_message) == Ok::<Seq<u8>, CodecError>(e3)
            && decode_if::<ChatJson>(m.has_prompt_message, t0, (e0.len() + e1.len() + e2.len() + e3.len()) as nat) == Ok::<(Option<<ChatJson as DeepView>::V>, nat), CodecError>((m.prompt_message, e4.len()))
            && <Option<ChatJson> as Encodable>::spec_encode(m.prompt_message) == Ok::<Seq<u8>, CodecError>(e4)) by {
            lemma_subrange_all(t0);
            lemma_field_round_trip::<BigString>(m.url, t0, (0) as nat, t1);
            lemma_field_round_trip::<ResourcePackHash>(m.hash, t0, (e0.len()) as nat, t2);
            lemma_field_round_trip::<bool>(m.forced, t0, (e0.len() + e1.len()) as nat, t3);
            lemma_field_round_trip::<bool>(m.has_prompt_message, t0, (e0.len() + e1.len() + e2.len()) as nat, t4);
            lemma_field_if_round_trip::<ChatJson>(m.has_prompt_message, m.prompt_message, t0, (e0.len() + e1.len() + e2.len() + e3.len()) as nat, rest);
        }
        assert(e0 + e1 + e2 + e3 + e4 + rest == t0) by {
            lemma_concat_assoc(e0, e1, t2);
            lemma_concat_assoc(e0 + e1, e2, t3);
            lemma_concat_assoc(e0 + e1 + e2, e3, t4);
            lemma_concat_assoc(e0 + e1 + e2 + e3, e4, rest);
        }
        assert(Self::spec_encode(m) == Ok::<Seq<u8>, CodecError>(e0 + e1 + e2 + e3 + e4));
    }
}
/// The client-bound play message: respawn.
pub struct Respawn {
    pub dimension: NbtTag,
    pub world_name: Identifier,
    pub hashed_seed: i64,
    pub gamemode: u8,
    pub previous_gamemode: u8,
    pub is_debug: bool,
    pub is_flat: bool,
    pub copy_metadata: bool,
}

/// The model of a `Respawn`: each field by its model.
pub struct RespawnView {
    pub dimension: Seq<u8>,
    pub world_name: Seq<char>,
    pub hashed_seed: i64,
    pub gamemode: u8,
    pub previous_gamemode: u8,
    pub is_debug: bool,
    pub is_flat: bool,
    pub copy_metadata: bool,
}

impl DeepView for Respawn {
    type V = RespawnView;

    open spec fn deep_view(&self) -> RespawnView {
        RespawnView {
            dimension: self.dimension.deep_view(),
            world_name: self.world_name.deep_view(),
            hashed_seed: self.hashed_seed.deep_view(),
            gamemode: self.gamemode.deep_view(),
            previous_gamemode: self.previous_gamemode.deep_view(),
            is_debug: self.is_debug.deep_view(),
            is_flat: self.is_flat.deep_view(),
            copy_metadata: self.copy_metadata.deep_view(),
        }
    }
}

impl Encodable for Respawn {
    /// The fields in order, with no framing.
    open spec fn spec_encode(m: RespawnView) -> Result<Seq<u8>, CodecError> {
        then_encode(then_encode(then_encode(then_encode(then_encode(then_encode(then_encode(<NbtTag as Encodable>::spec_encode(m.dimension), <Identifier as Encodable>::spec_encode(m.world_name)), <i64 as Encodable>::spec_encode(m.hashed_seed)), <u8 as Encodable>::spec_encode(m.gamemode)), <u8 as Encodable>::spec_encode(m.previous_gamemode)), <bool as Encodable>::spec_encode(m.is_debug)), <bool as Encodable>::spec_encode(m.is_flat)), <bool as Encodable>::spec_encode(m.copy_metadata))
    }

    /// The sum of the fields' sizes.
    open spec fn spec_size(m: RespawnView) -> Result<nat, CodecError> {
        add_size_spec(add_size_spec(add_size_spec(add_size_spec(add_size_spec(add_size_spec(add_size_spec(<NbtTag as Encodable>::spec_size(m.dimension), <Identifier as Encodable>::spec_size(m.world_name)), <i64 as Encodable>::spec_size(m.hashed_seed)), <u8 as Encodable>::spec_size(m.gamemode)), <u8 as Encodable>::spec_size(m.previous_gamemode)), <bool as Encodable>::spec_size(m.is_debug)), <bool as Encodable>::spec_size(m.is_flat)), <bool as Encodable>::spec_size(m.copy_metadata))
    }

    #[verifier::spinoff_prover]
    #[verifier::rlimit(100)]
    proof fn lemma_size_faithful(m: RespawnView) {
        <NbtTag as Encodable>::lemma_size_faithful(m.dimension);
        <Identifier as Encodable>::lemma_size_faithful(m.world_name);
        <i64 as Encodable>::lemma_size_faithful(m.hashed_seed);
        <u8 as Encodable>::lemma_size_faithful(m.gamemode);
        <u8 as Encodable>::lemma_size_faithful(m.previous_gamemode);
        <bool as Encodable>::lemma_size_faithful(m.is_debug);
        <bool as Encodable>::lemma_size_faithful(m.is_flat);
        <bool as Encodable>::lemma_size_faithful(m.copy_metadata);
        lemma_then_size(<NbtTag as Encodable>::spec_encode(m.dimension), <NbtTag as Encodable>::spec_size(m.dimension), <Identifier as Encodable>::spec_encode(m.world_name), <Identifier as Encodable>::spec_size(m.world_name));
        lemma_then_size(then_encode(<NbtTag as Encodable>::spec_encode(m.dimension), <Identifier as Encodable>::spec_encode(m.world_name)), add_size_spec(<NbtTag as Encodable>::spec_size(m.dimension), <Identifier as Encodable>::spec_size(m.world_name)), <i64 as Encodable>::spec_encode(m.hashed_seed), <i64 as Encodable>::spec_size(m.hashed_seed));
        lemma_then_size(then_encode(then_encode(<NbtTag as Encodable>::spec_encode(m.dimension), <Identifier as Encodable>::spec_encode(m.world_name)), <i64 as Encodable>::spec_encode(m.hashed_seed)), add_size_spec(add_size_spec(<NbtTag as Encodable>::spec_size(m.dimension), <Identifier as Encodable>::spec_size(m.world_name)), <i64 as Encodable>::spec_size(m.hashed_seed)), <u8 as Encodable>::spec_encode(m.gamemode), <u8 as Encodable>::spec_size(m.gamemode));
        lemma_then_size(then_encode(then_encode(then_encode(<NbtTag as Encodable>::spec_encode(m.dimension), <Identifier as Encodable>::spec_encode(m.world_name)), <i64 as Encodable>::spec_encode(m.hashed_seed)), <u8 as Encodable>::spec_encode(m.gamemode)), add_size_spec(add_size_spec(add_size_spec(<NbtTag as Encodable>::spec_size(m.dimension), <Identifier as Encodable>::spec_size(m.world_name)), <i64 as Encodable>::spec_size(m.hashed_seed)), <u8 as Encodable>::spec_size(m.gamemode)), <u8 as Encodable>::spec_encode(m.previous_gamemode), <u8 as Encodable>::spec_size(m.previous_gamemode));
        lemma_then_size(then_encode(then_encode(then_encode(then_encode(<NbtTag as Encodable>::spec_encode(m.dimension), <Identifier as Encodable>::spec_encode(m.world_name)), <i64 as Encodable>::spec_encode(m.hashed_seed)), <u8 as Encodable>::spec_encode(m.gamemode)), <u8 as Encodable>::spec_encode(m.previous_gamemode)), add_size_spec(add_size_spec(add_size_spec(add_size_spec(<NbtTag as Encodable>::spec_size(m.dimension), <Identifier as Encodable>::spec_size(m.world_name)), <i64 as Encodable>::spec_size(m.hashed_seed)), <u8 as Encodable>::spec_size(m.gamemode)), <u8 as Encodable>::spec_size(m.previous_gamemode)), <bool as Encodable>::spec_encode(m.is_debug), <bool as Encodable>::spec_size(m.is_debug));
        lemma_then_size(then_encode(then_encode(then_encode(then_encode(then_encode(<NbtTag as Encodable>::spec_encode(m.dimension), <Identifier as Encodable>::spec_encode(m.world_name)), <i64 as Encodable>::spec_encode(m.hashed_seed)), <u8 as Encodable>::spec_encode(m.gamemode)), <u8 as Encodable>::spec_encode(m.previous_gamemode)), <bool as Encodable>::spec_encode(m.is_debug)), add_size_spec(add_size_spec(add_size_spec(add_size_spec(add_size_spec(<NbtTag as Encodable>::spec_size(m.dimension), <Identifier as Encodable>::spec_size(m.world_name)), <i64 as Encodable>::spec_size(m.hashed_seed)), <u8 as Encodable>::spec_size(m.gamemode)), <u8 as Encodable>::spec_size(m.previous_gamemode)), <bool as Encodable>::spec_size(m.is_debug)), <bool as Encodable>::spec_encode(m.is_flat), <bool as Encodable>::spec_size(m.is_flat));
        lemma_then_size(then_encode(then_encode(then_encode(then_encode(then_encode(then_encode(<NbtTag as Encodable>::spec_encode(m.dimension), <Identifier as Encodable>::spec_encode(m.world_name)), <i64 as Encodable>::spec_encode(m.hashed_seed)), <u8 as Encodable>::spec_encode(m.gamemode)), <u8 as Encodable>::spec_encode(m.previous_gamemode)), <bool as Encodable>::spec_encode(m.is_debug)), <bool as Encodable>::spec_encode(m.is_flat)), add_size_spec(add_size_spec(add_size_spec(add_size_spec(add_size_spec(add_size_spec(<NbtTag as Encodable>::spec_size(m.dimension), <Identifier as Encodable>::spec_size(m.world_name)), <i64 as Encodable>::spec_size(m.hashed_seed)), <u8 as Encodable>::spec_size(m.gamemode)), <u8 as Encodable>::spec_size(m.previous_gamemode)), <bool as Encodable>::spec_size(m.is_debug)), <bool as Encodable>::spec_size(m.is_flat)), <bool as Encodable>::spec_encode(m.copy_metadata), <bool as Encodable>::spec_size(m.copy_metadata));
    }

    #[verifier::spinoff_prover]
    #[verifier::rlimit(100)]
    fn encode(&self, out: &mut Vec<u8>) -> (r: Result<(), CodecError>) {
        let ghost o0 = out@;
        let start = out.len();
        let ghost e0 = <NbtTag as Encodable>::spec_encode(self.dimension.deep_view())->Ok_0;
        let ghost e1 = <Identifier as Encodable>::spec_encode(self.world_name.deep_view())->Ok_0;
        let ghost e2 = <i64 as Encodable>::spec_encode(self.hashed_seed.deep_view())->Ok_0;
        let ghost e3 = <u8 as Encodable>::spec_encode(self.gamemode.deep_view())->Ok_0;
        let ghost e4 = <u8 as Encodable>::spec_encode(self.previous_gamemode.deep_view())->Ok_0;
        let ghost e5 = <bool as Encodable>::spec_encode(self.is_debug.deep_view())->Ok_0;
        let ghost e6 = <bool as Encodable>::spec_encode(self.is_flat.deep_view())->Ok_0;
        let ghost e7 = <bool as Encodable>::spec_encode(self.copy_metadata.deep_view())->Ok_0;
        match self.dimension.encode(out) {
            Ok(_) => {},
            Err(e) => return Err(e),
        }
        match self.world_name.encode(out) {
            Ok(_) => {},
            Err(e) => {
                roll_back(out, Ghost(o0), Ghost(e0), start);
                return Err(e);
            },
        }
        proof {
            lemma_concat_assoc(o0, e0, e1);
        }
        match self.hashed_seed.encode(out) {
            Ok(_) => {},
            Err(e) => {
                roll_back(out, Ghost(o0), Ghost(e0 + e1), start);
                return Err(e);
            },
        }
        proof {
            lemma_concat_assoc(o0, e0 + e1, e2);
        }
        match self.gamemode.encode(out) {
            Ok(_) => {},
            Err(e) => {
                roll_back(out, Ghost(o0), Ghost(e0 + e1 + e2), start);
                return Err(e);
            },
        }
        proof {
            lemma_concat_assoc(o0, e0 + e1 + e2, e3);
        }
        match self.previous_gamemode.encode(out) {
            Ok(_) => {},
            Err(e) => {
                roll_back(out, Ghost(o0), Ghost(e0 + e1 + e2 + e3), start);
                return Err(e);
            },
        }
        proof {
            lemma_concat_assoc(o0, e0 + e1 + e2 + e3, e4);
        }
        match self.is_debug.encode(out) {
            Ok(_) => {},
            Err(e) => {
                roll_back(out, Ghost(o0), Ghost(e0 + e1 + e2 + e3 + e4), start);
                return Err(e);
            },
        }
        proof {
            lemma_concat_assoc(o0, e0 + e1 + e2 + e3 + e4, e5);
        }
        match self.is_flat.encode(out) {
            Ok(_) => {},
            Err(e) => {
                roll_back(out, Ghost(o0), Ghost(e0 + e1 + e2 + e3 + e4 + e5), start);
                return Err(e);
            },
        }
        proof {
            lemma_concat_assoc(o0, e0 + e1 + e2 + e3 + e4 + e5, e6);
        }
        match self.copy_metadata.encode(out) {
            Ok(_) => {},
            Err(e) => {
                roll_back(out, Ghost(o0), Ghost(e0 + e1 + e2 + e3 + e4 + e5 + e6), start);
                return Err(e);
            },
        }
        proof {
            lemma_concat_assoc(o0, e0 + e1 + e2 + e3 + e4 + e5 + e6, e7);
        }
        Ok(())
    }

    #[verifier::spinoff_prover]
    #[verifier::rlimit(100)]
    fn size(&self) -> (r: Result<VarInt, CodecError>) {
        proof {
            <NbtTag as Encodable>::lemma_size_faithful(self.dimension.deep_view());
            <Identifier as Encodable>::lemma_size_faithful(self.world_name.deep_view());
            <i64 as Encodable>::lemma_size_faithful(self.hashed_seed.deep_view());
            <u8 as Encodable>::lemma_size_faithful(self.gamemode.deep_view());
            <u8 as Encodable>::lemma_size_faithful(self.previous_gamemode.deep_view());
            <bool as Encodable>::lemma_size_faithful(self.is_debug.deep_view());
            <bool as Encodable>::lemma_size_faithful(self.is_flat.deep_view());
            <bool as Encodable>::lemma_size_faithful(self.copy_metadata.deep_view());
        }
        let ghost w0 = <NbtTag as Encodable>::spec_size(self.dimension.deep_view());
        let ghost w1 = <Identifier as Encodable>::spec_size(self.world_name.deep_view());
        let ghost w2 = <i64 as Encodable>::spec_size(self.hashed_seed.deep_view());
        let ghost w3 = <u8 as Encodable>::spec_size(self.gamemode.deep_view());
        let ghost w4 = <u8 as Encodable>::spec_size(self.previous_gamemode.deep_view());
        let ghost w5 = <bool as Encodable>::spec_size(self.is_debug.deep_view());
        let ghost w6 = <bool as Encodable>::spec_size(self.is_flat.deep_view());
        let ghost w7 = <bool as Encodable>::spec_size(self.copy_metadata.deep_view());
        let t0 = self.dimension.size();
        let t1 = add_size(t0, Ghost(w0), self.world_name.size(), Ghost(w1));
        let ghost c1 = add_size_spec(w0, w1);
        let t2 = add_size(t1, Ghost(c1), self.hashed_seed.size(), Ghost(w2));
        let ghost c2 = add_size_spec(c1, w2);
        let t3 = add_size(t2, Ghost(c2), self.gamemode.size(), Ghost(w3));
        let ghost c3 = add_size_spec(c2, w3);
        let t4 = add_size(t3, Ghost(c3), self.previous_gamemode.size(), Ghost(w4));
        let ghost c4 = add_size_spec(c3, w4);
        let t5 = add_size(t4, Ghost(c4), self.is_debug.size(), Ghost(w5));
        let ghost c5 = add_size_spec(c4, w5);
        let t6 = add_size(t5, Ghost(c5), self.is_flat.size(), Ghost(w6));
        let ghost c6 = add_size_spec(c5, w6);
        let t7 = add_size(t6, Ghost(c6), self.copy_metadata.size(), Ghost(w7));
        t7
    }
}

impl Decodable for Respawn {
    open spec fn spec_decode(bytes: Seq<u8>) -> Result<(RespawnView, nat), CodecError> {
        match decode_at::<NbtTag>(bytes, 0) {
            Err(e) => Err(e),
            Ok((dimension, n0)) => match decode_at::<Identifier>(bytes, n0) {
                Err(e) => Err(e),
                Ok((world_name, n1)) => match decode_at::<i64>(bytes, n0 + n1) {
                    Err(e) => Err(e),
                    Ok((hashed_seed, n2)) => match decode_at::<u8>(bytes, n0 + n1 + n2) {
                        Err(e) => Err(e),
                        Ok((gamemode, n3)) => match decode_at::<u8>(bytes, n0 + n1 + n2 + n3) {
                            Err(e) => Err(e),
                            Ok((previous_gamemode, n4)) => match decode_at::<bool>(bytes, n0 + n1 + n2 + n3 + n4) {
                                Err(e) => Err(e),
                                Ok((is_debug, n5)) => match decode_at::<bool>(bytes, n0 + n1 + n2 + n3 + n4 + n5) {
                                    Err(e) => Err(e),
                                    Ok((is_flat, n6)) => match decode_at::<bool>(bytes, n0 + n1 + n2 + n3 + n4 + n5 + n6) {
                                        Err(e) => Err(e),
                                        Ok((copy_metadata, n7)) => Ok((RespawnView { dimension, world_name, hashed_seed, gamemode, previous_gamemode, is_debug, is_flat, copy_metadata }, n0 + n1 + n2 + n3 + n4 + n5 + n6 + n7)),
                                    },
                                },
                            },
                        },
                    },
                },
            },
        }
    }

    proof fn lemma_decode_len(bytes: Seq<u8>) {
        lemma_decode_at::<NbtTag>(bytes, 0);
        <NbtTag as Decodable>::lemma_decode_len(bytes.subrange((0) as int, bytes.len() as int));
        if let Ok((dimension, n0)) = decode_at::<NbtTag>(bytes, 0) {
            lemma_decode_at::<Identifier>(bytes, n0);
            <Identifier as Decodable>::lemma_decode_len(bytes.subrange((n0) as int, bytes.len() as int));
            if let Ok((world_name, n1)) = decode_at::<Identifier>(bytes, n0) {
                lemma_decode_at::<i64>(bytes, n0 + n1);
                <i64 as Decodable>::lemma_decode_len(bytes.subrange((n0 + n1) as int, bytes.len() as int));
                if let Ok((hashed_seed, n2)) = decode_at::<i64>(bytes, n0 + n1) {
                    lemma_decode_at::<u8>(bytes, n0 + n1 + n2);
                    <u8 as Decodable>::lemma_decode_len(bytes.subrange((n0 + n1 + n2) as int, bytes.len() as int));
                    if let Ok((gamemode, n3)) = decode_at::<u8>(bytes, n0 + n1 + n2) {
                        lemma_decode_at::<u8>(bytes, n0 + n1 + n2 + n3);
                        <u8 as Decodable>::lemma_decode_len(bytes.subrange((n0 + n1 + n2 + n3) as int, bytes.len() as int));
                        if let Ok((previous_gamemode, n4)) = decode_at::<u8>(bytes, n0 + n1 + n2 + n3) {
                            lemma_decode_at::<bool>(bytes, n0 + n1 + n2 + n3 + n4);
                            <bool as Decodable>::lemma_decode_len(bytes.subrange((n0 + n1 + n2 + n3 + n4) as int, bytes.len() as int));
                            if let Ok((is_debug, n5)) = decode_at::<bool>(bytes, n0 + n1 + n2 + n3 + n4) {
                                lemma_decode_at::<bool>(bytes, n0 + n1 + n2 + n3 + n4 + n5);
                                <bool as Decodable>::lemma_decode_len(bytes.subrange((n0 + n1 + n2 + n3 + n4 + n5) as int, bytes.len() as int));
                                if let Ok((is_flat, n6)) = decode_at::<bool>(bytes, n0 + n1 + n2 + n3 + n4 + n5) {
                                    lemma_decode_at::<bool>(bytes, n0 + n1 + n2 + n3 + n4 + n5 + n6);
                                    <bool as Decodable>::lemma_decode_len(bytes.subrange((n0 + n1 + n2 + n3 + n4 + n5 + n6) as int, bytes.len() as int));
                                }
                            }
                        }
                    }
                }
            }
        }
    }

    #[verifier::spinoff_prover]
    #[verifier::rlimit(100)]
    fn decode(reader: &mut ByteReader) -> (r: Result<Respawn, CodecError>) {
        let ghost r0 = *reader;
        let ghost rest0 = reader.rest();
        proof {
            ByteReader::lemma_rest_since(r0, *reader);
            lemma_decode_at::<NbtTag>(rest0, (reader.pos() - r0.pos()) as nat);
        }
        let dimension = match <NbtTag>::decode(reader) {
            Ok(v) => v,
            Err(e) => return Err(e),
        };
        proof {
            ByteReader::lemma_rest_since(r0, *reader);
            lemma_decode_at::<Identifier>(rest0, (reader.pos() - r0.pos()) as nat);
        }
        let world_name = match <Identifier>::decode(reader) {
            Ok(v) => v,
            Err(e) => return Err(e),
        };
        proof {
            ByteReader::lemma_rest_since(r0, *reader);
            lemma_decode_at::<i64>(rest0, (reader.pos() - r0.pos()) as nat);
        }
        let hashed_seed = match <i64>::decode(reader) {
            Ok(v) => v,
            Err(e) => return Err(e),
        };
        proof {
            ByteReader::lemma_rest_since(r0, *reader);
            lemma_decode_at::<u8>(rest0, (reader.pos() - r0.pos()) as nat);
        }
        let gamemode = match <u8>::decode(reader) {
            Ok(v) => v,
            Err(e) => return Err(e),
        };
        proof {
            ByteReader::lemma_rest_since(r0, *reader);
            lemma_decode_at::<u8>(rest0, (reader.pos() - r0.pos()) as nat);
        }
        let previous_gamemode = match <u8>::decode(reader) {
            Ok(v) => v,
            Err(e) => return Err(e),
        };
        proof {
            ByteReader::lemma_rest_since(r0, *reader);
            lemma_decode_at::<bool>(rest0, (reader.pos() - r0.pos()) as nat);
        }
        let is_debug = match <bool>::decode(reader) {
            Ok(v) => v,
            Err(e) => return Err(e),
        };
        proof {
            ByteReader::lemma_rest_since(r0, *reader);
            lemma_decode_at::<bool>(rest0, (reader.pos() - r0.pos()) as nat);
        }
        let is_flat = match <bool>::decode(reader) {
            Ok(v) => v,
            Err(e) => return Err(e),
        };
        proof {
            ByteReader::lemma_rest_since(r0, *reader);
            lemma_decode_at::<bool>(rest0, (reader.pos() - r0.pos()) as nat);
        }
        let copy_metadata = match <bool>::decode(reader) {
            Ok(v) => v,
            Err(e) => return Err(e),
        };
        Ok(Respawn { dimension, world_name, hashed_seed, gamemode, previous_gamemode, is_debug, is_flat, copy_metadata })
    }
}

impl Codec for Respawn {
    open spec fn valid(m: RespawnView) -> bool {
        &&& <NbtTag as Codec>::valid(m.dimension)
        &&& <NbtTag as Codec>::delimited()
        &&& <Identifier as Codec>::valid(m.world_name)
        &&& <Identifier as Codec>::delimited()
        &&& <i64 as Codec>::valid(m.hashed_seed)
        &&& <i64 as Codec>::delimited()
        &&& <u8 as Codec>::valid(m.gamemode)
        &&& <u8 as Codec>::delimited()
        &&& <u8 as Codec>::valid(m.previous_gamemode)
        &&& <u8 as Codec>::delimited()
        &&& <bool as Codec>::valid(m.is_debug)
        &&& <bool as Codec>::delimited()
        &&& <bool as Codec>::valid(m.is_flat)
        &&& <bool as Codec>::delimited()
        &&& <bool as Codec>::valid(m.copy_metadata)
    }

    open spec fn delimited() -> bool {
        <bool as Codec>::delimited()
    }

    #[verifier::spinoff_prover]
    #[verifier::rlimit(100)]
    proof fn lemma_round_trip(m: RespawnView, rest: Seq<u8>) {
        let e0 = <NbtTag as Encodable>::spec_encode(m.dimension)->Ok_0;
        let e1 = <Identifier as Encodable>::spec_encode(m.world_name)->Ok_0;
        let e2 = <i64 as Encodable>::spec_encode(m.hashed_seed)->Ok_0;
        let e3 = <u8 as Encodable>::spec_encode(m.gamemode)->Ok_0;
        let e4 = <u8 as Encodable>::spec_encode(m.previous_gamemode)->Ok_0;
        let e5 = <bool as Encodable>::spec_encode(m.is_debug)->Ok_0;
        let e6 = <bool as Encodable>::spec_encode(m.is_flat)->Ok_0;
        let e7 = <bool as Encodable>::spec_encode(m.copy_metadata)->Ok_0;
        let t7 = e7 + rest;
        let t6 = e6 + t7;
        let t5 = e5 + t6;
        let t4 = e4 + t5;
        let t3 = e3 + t4;
        let t2 = e2 + t3;
        let t1 = e1 + t2;
        let t0 = e0 + t1;
        assert(decode_at::<NbtTag>(t0, (0) as nat) == Ok::<(<NbtTag as DeepView>::V, nat), CodecError>((m.dimension, e0.len()))
            && <NbtTag as Encodable>::spec_encode(m.dimension) == Ok::<Seq<u8>, CodecError>(e0)
            && decode_at::<Identifier>(t0, (e0.len()) as nat) == Ok::<(<Identifier as DeepView>::V, nat), CodecError>((m.world_name, e1.len()))
            && <Identifier as Encodable>::spec_encode(m.world_name) == Ok::<Seq<u8>, CodecError>(e1)
            && decode_at::<i64>(t0, (e0.len() + e1.len()) as nat) == Ok::<(<i64 as DeepView>::V, nat), CodecError>((m.hashed_seed, e2.len()))
            && <i64 as Encodable>::spec_encode(m.hashed_seed) == Ok::<Seq<u8>, CodecError>(e2)
            && decode_at::<u8>(t0, (e0.len() + e1.len() + e2.len()) as nat) == Ok::<(<u8 as DeepView>::V, nat), CodecError>((m.gamemode, e3.len()))
            && <u8 as Encodable>::spec_encode(m.gamemode) == Ok::<Seq<u8>, CodecError>(e3)
            && decode_at::<u8>(t0, (e0.len() + e1.len() + e2.len() + e3.len()) as nat) == Ok::<(<u8 as DeepView>::V, nat), CodecError>((m.previous_gamemode, e4.len()))
            && <u8 as Encodable>::spec_encode(m.previous_gamemode) == Ok::<Seq<u8>, CodecError>(e4)
            && decode_at::<bool>(t0, (e0.len() + e1.len() + e2.len() + e3.len() + e4.len()) as nat) == Ok::<(<bool as DeepView>::V, nat), CodecError>((m.is_debug, e5.len()))
            && <bool as Encodable>::spec_encode(m.is_debug) == Ok::<Seq<u8>, CodecError>(e5)
            && decode_at::<bool>(t0, (e0.len() + e1.len() + e2.len() + e3.len() + e4.len() + e5.len()) as nat) == Ok::<(<bool as DeepView>::V, nat), CodecError>((m.is_flat, e6.len()))
            && <bool as Encodable>::spec_encode(m.is_flat) == Ok::<Seq<u8>, CodecError>(e6)
            && decode_at::<bool>(t0, (e0.len() + e1.len() + e2.len() + e3.len() + e4.len() + e5.len() + e6.len()) as nat) == Ok::<(<bool as DeepView>::V, nat), CodecError>((m.copy_metadata, e7.len()))
            && <bool as Encodable>::spec_encode(m.copy_metadata) == Ok::<Seq<u8>, CodecError>(e7)) by {
            lemma_subrange_all(t0);
            lemma_field_round_trip::<NbtTag>(m.dimension, t0, (0) as nat, t1);
            lemma_field_round_trip::<Identifier>(m.world_name, t0, (e0.len()) as nat, t2);
            lemma_field_round_trip::<i64>(m.hashed_seed, t0, (e0.len() + e1.len()) as nat, t3);
            lemma_field_round_trip::<u8>(m.gamemode, t0, (e0.len() + e1.len() + e2.len()) as nat, t4);
            lemma_field_round_trip::<u8>(m.previous_gamemode, t0, (e0.len() + e1.len() + e2.len() + e3.len()) as nat, t5);
            lemma_field_round_trip::<bool>(m.is_debug, t0, (e0.len() + e1.len() + e2.len() + e3.len() + e4.len()) as nat, t6);
            lemma_field_round_trip::<bool>(m.is_flat, t0, (e0.len() + e1.len() + e2.len() + e3.len() + e4.len() + e5.len()) as nat, t7);
            lemma_field_round_trip::<bool>(m.copy_metadata, t0, (e0.len() + e1.len() + e2.len() + e3.len() + e4.len() + e5.len() + e6.len()) as nat, rest);
        }
        assert(e0 + e1 + e2 + e3 + e4 + e5 + e6 + e7 + rest == t0) by {
            lemma_concat_assoc(e0, e1, t2);
            lemma_concat_assoc(e0 + e1, e2, t3);
            lemma_concat_assoc(e0 + e1 + e2, e3, t4);
            lemma_concat_assoc(e0 + e1 + e2 + e3, e4, t5);
            lemma_concat_assoc(e0 + e1 + e2 + e3 + e4, e5, t6);
            lemma_concat_assoc(e0 + e1 + e2 + e3 + e4 + e5, e6, t7);
            lemma_concat_assoc(e0 + e1 + e2 + e3 + e4 + e5 + e6, e7, rest);
        }
        assert(Self::spec_encode(m) == Ok::<Seq<u8>, CodecError>(e0 + e1 + e2 + e3 + e4 + e5 + e6 + e7));
    }
}
/// The client-bound play message: entity head look.
pub struct EntityHeadLook {
    pub entity_id: VarInt,
    pub head_yaw: Angle,
}

/// The model of a `EntityHeadLook`: each field by its model.
pub struct EntityHeadLookView {
    pub entity_id: i32,
    pub head_yaw: u8,
}

impl DeepView for EntityHeadLook {
    type V = EntityHeadLookView;

    open spec fn deep_view(&self) -> EntityHeadLookView {
        EntityHeadLookView {
            entity_id: self.entity_id.deep_view(),
            head_yaw: self.head_yaw.deep_view(),
        }
    }
}

impl Encodable for EntityHeadLook {
    /// The fields in order, with no framing.
    open spec fn spec_encode(m: EntityHeadLookView) -> Result<Seq<u8>, CodecError> {
        then_encode(<VarInt as Encodable>::spec_encode(m.entity_id), <Angle as Encodable>::spec_encode(m.head_yaw))
    }

    /// The sum of the fields' sizes.
    open spec fn spec_size(m: EntityHeadLookView) -> Result<nat, CodecError> {
        add_size_spec(<VarInt as Encodable>::spec_size(m.entity_id), <Angle as Encodable>::spec_size(m.head_yaw))
    }

    proof fn lemma_size_faithful(m: EntityHeadLookView) {
        <VarInt as Encodable>::lemma_size_faithful(m.entity_id);
        <Angle as Encodable>::lemma_size_faithful(m.head_yaw);
        lemma_then_size(<VarInt as Encodable>::spec_encode(m.entity_id), <VarInt as Encodable>::spec_size(m.entity_id), <Angle as Encodable>::spec_encode(m.head_yaw), <Angle as Encodable>::spec_size(m.head_yaw));
    }

    fn encode(&self, out: &mut Vec<u8>) -> (r: Result<(), CodecError>) {
        let ghost o0 = out@;
        let start = out.len();
        let ghost e0 = <VarInt as Encodable>::spec_encode(self.entity_id.deep_view())->Ok_0;
        let ghost e1 = <Angle as Encodable>::spec_encode(self.head_yaw.deep_view())->Ok_0;
        match self.entity_id.encode(out) {
            Ok(_) => {},
            Err(e) => return Err(e),
        }
        match self.head_yaw.encode(out) {
            Ok(_) => {},
            Err(e) => {
                roll_back(out, Ghost(o0), Ghost(e0), start);
                return Err(e);
            },
        }
        proof {
            lemma_concat_assoc(o0, e0, e1);
        }
        Ok(())
    }

    fn size(&self) -> (r: Result<VarInt, CodecError>) {
        proof {
            <VarInt as Encodable>::lemma_size_faithful(self.entity_id.deep_view());
            <Angle as Encodable>::lemma_size_faithful(self.head_yaw.deep_view());
        }
        let ghost w0 = <VarInt as Encodable>::spec_size(self.entity_id.deep_view());
        let ghost w1 = <Angle as Encodable>::spec_size(self.head_yaw.deep_view());
        let t0 = self.entity_id.size();
        let t1 = add_size(t0, Ghost(w0), self.head_yaw.size(), Ghost(w1));
        t1
    }
}

impl Decodable for EntityHeadLook {
    open spec fn spec_decode(bytes: Seq<u8>) -> Result<(EntityHeadLookView, nat), CodecError> {
        match decode_at::<VarInt>(bytes, 0) {
            Err(e) => Err(e),
            Ok((entity_id, n0)) => match decode_at::<Angle>(bytes, n0) {
                Err(e) => Err(e),
                Ok((head_yaw, n1)) => Ok((EntityHeadLookView { entity_id, head_yaw }, n0 + n1)),
            },
        }
    }

    proof fn lemma_decode_len(bytes: Seq<u8>) {
        lemma_decode_at::<VarInt>(bytes, 0);
        <VarInt as Decodable>::lemma_decode_len(bytes.subrange((0) as int, bytes.len() as int));
        if let Ok((entity_id, n0)) = decode_at::<VarInt>(bytes, 0) {
            lemma_decode_at::<Angle>(bytes, n0);
            <Angle as Decodable>::lemma_decode_len(bytes.subrange((n0) as int, bytes.len() as int));
        }
    }

    fn decode(reader: &mut ByteReader) -> (r: Result<EntityHeadLook, CodecError>) {
        let ghost r0 = *reader;
        let ghost rest0 = reader.rest();
        proof {
            ByteReader::lemma_rest_since(r0, *reader);
            lemma_decode_at::<VarInt>(rest0, (reader.pos() - r0.pos()) as nat);
        }
        let entity_id = match <VarInt>::decode(reader) {
            Ok(v) => v,
            Err(e) => return Err(e),
        };
        proof {
            ByteReader::lemma_rest_since(r0, *reader);
            lemma_decode_at::<Angle>(rest0, (reader.pos() - r0.pos()) as nat);
        }
        let head_yaw = match <Angle>::decode(reader) {
            Ok(v) => v,
            Err(e) => return Err(e),
        };
        Ok(EntityHeadLook { entity_id, head_yaw })
    }
}

impl Codec for EntityHeadLook {
    open spec fn valid(m: EntityHeadLookView) -> bool {
        &&& <VarInt as Codec>::valid(m.entity_id)
        &&& <VarInt as Codec>::delimited()
        &&& <Angle as Codec>::valid(m.head_yaw)
    }

    open spec fn delimited() -> bool {
        <Angle as Codec>::delimited()
    }

    proof fn lemma_round_trip(m: EntityHeadLookView, rest: Seq<u8>) {
        let e0 = <VarInt as Encodable>::spec_encode(m.entity_id)->Ok_0;
        let e1 = <Angle as Encodable>::spec_encode(m.head_yaw)->Ok_0;
        let t1 = e1 + rest;
        let t0 = e0 + t1;
        assert(decode_at::<VarInt>(t0, (0) as nat) == Ok::<(<VarInt as DeepView>::V, nat), CodecError>((m.entity_id, e0.len()))
            && <VarInt as Encodable>::spec_encode(m.entity_id) == Ok::<Seq<u8>, CodecError>(e0)
            && decode_at::<Angle>(t0, (e0.len()) as nat) == Ok::<(<Angle as DeepView>::V, nat), CodecError>((m.head_yaw, e1.len()))
            && <Angle as Encodable>::spec_encode(m.head_yaw) == Ok::<Seq<u8>, CodecError>(e1)) by {
            lemma_subrange_all(t0);
            lemma_field_round_trip::<VarInt>(m.entity_id, t0, (0) as nat, t1);
            lemma_field_round_trip::<Angle>(m.head_yaw, t0, (e0.len()) as nat, rest);
        }
        assert(e0 + e1 + rest == t0) by {
            lemma_concat_assoc(e0, e1, rest);
        }
        assert(Self::spec_encode(m) == Ok::<Seq<u8>, CodecError>(e0 + e1));
    }
}
/// The client-bound play message: multi block change.
pub struct MultiBlockChange {
    pub chunk_section_position: i64,
    pub trust_edges_change: bool,
    pub blocks: (VarInt, Vec<VarLong>),
}

/// The model of a `MultiBlockChange`: each field by its model.
pub struct MultiBlockChangeView {
    pub chunk_section_position: i64,
    pub trust_edges_change: bool,
    pub blocks: (i32, Seq<i64>),
}

impl DeepView for MultiBlockChange {
    type V = MultiBlockChangeView;

    open spec fn deep_view(&self) -> MultiBlockChangeView {
        MultiBlockChangeView {
            chunk_section_position: self.chunk_section_position.deep_view(),
            trust_edges_change: self.trust_edges_change.deep_view(),
            blocks: self.blocks.deep_view(),
        }
    }
}

impl Encodable for MultiBlockChange {
    /// The fields in order, with no framing.
    open spec fn spec_encode(m: MultiBlockChangeView) -> Result<Seq<u8>, CodecError> {
        then_encode(then_encode(<i64 as Encodable>::spec_encode(m.chunk_section_position), <bool as Encodable>::spec_encode(m.trust_edges_change)), <(VarInt, Vec<VarLong>) as Encodable>::spec_encode(m.blocks))
    }

    /// The sum of the fields' sizes.
    open spec fn spec_size(m: MultiBlockChangeView) -> Result<nat, CodecError> {
        add_size_spec(add_size_spec(<i64 as Encodable>::spec_size(m.chunk_section_position), <bool as Encodable>::spec_size(m.trust_edges_change)), <(VarInt, Vec<VarLong>) as Encodable>::spec_size(m.blocks))
    }

    proof fn lemma_size_faithful(m: MultiBlockChangeView) {
        <i64 as Encodable>::lemma_size_faithful(m.chunk_section_position);
        <bool as Encodable>::lemma_size_faithful(m.trust_edges_change);
        <(VarInt, Vec<VarLong>) as Encodable>::lemma_size_faithful(m.blocks);
        lemma_then_size(<i64 as Encodable>::spec_encode(m.chunk_section_position), <i64 as Encodable>::spec_size(m.chunk_section_position), <bool as Encodable>::spec_encode(m.trust_edges_change), <bool as Encodable>::spec_size(m.trust_edges_change));
        lemma_then_size(then_encode(<i64 as Encodable>::spec_encode(m.chunk_section_position), <bool as Encodable>::spec_encode(m.trust_edges_change)), add_size_spec(<i64 as Encodable>::spec_size(m.chunk_section_position), <bool as Encodable>::spec_size(m.trust_edges_change)), <(VarInt, Vec<VarLong>) as Encodable>::spec_encode(m.blocks), <(VarInt, Vec<VarLong>) as Encodable>::spec_size(m.blocks));
    }

    fn encode(&self, out: &mut Vec<u8>) -> (r: Result<(), CodecError>) {
        let ghost o0 = out@;
        let start = out.len();
        let ghost e0 = <i64 as Encodable>::spec_encode(self.chunk_section_position.deep_view())->Ok_0;
        let ghost e1 = <bool as Encodable>::spec_encode(self.trust_edges_change.deep_view())->Ok_0;
        let ghost e2 = <(VarInt, Vec<VarLong>) as Encodable>::spec_encode(self.blocks.deep_view())->Ok_0;
        match self.chunk_section_position.encode(out) {
            Ok(_) => {},
            Err(e) => return Err(e),
        }
        match self.trust_edges_change.encode(out) {
            Ok(_) => {},
            Err(e) => {
                roll_back(out, Ghost(o0), Ghost(e0), start);
                return Err(e);
            },
        }
        proof {
            lemma_concat_assoc(o0, e0, e1);
        }
        match self.blocks.encode(out) {
            Ok(_) => {},
            Err(e) => {
                roll_back(out, Ghost(o0), Ghost(e0 + e1), start);
                return Err(e);
            },
        }
        proof {
            lemma_concat_assoc(o0, e0 + e1, e2);
        }
        Ok(())
    }

    fn size(&self) -> (r: Result<VarInt, CodecError>) {
        proof {
            <i64 as Encodable>::lemma_size_faithful(self.chunk_section_position.deep_view());
            <bool as Encodable>::lemma_size_faithful(self.trust_edges_change.deep_view());
            <(VarInt, Vec<VarLong>) as Encodable>::lemma_size_faithful(self.blocks.deep_view());
        }
        let ghost w0 = <i64 as Encodable>::spec_size(self.chunk_section_position.deep_view());
        let ghost w1 = <bool as Encodable>::spec_size(self.trust_edges_change.deep_view());
        let ghost w2 = <(VarInt, Vec<VarLong>) as Encodable>::spec_size(self.blocks.deep_view());
        let t0 = self.chunk_section_position.size();
        let t1 = add_size(t0, Ghost(w0), self.trust_edges_change.size(), Ghost(w1));
        let ghost c1 = add_size_spec(w0, w1);
        let t2 = add_size(t1, Ghost(c1), self.blocks.size(), Ghost(w2));
        t2
    }
}

impl Decodable for MultiBlockChange {
    open spec fn spec_decode(bytes: Seq<u8>) -> Result<(MultiBlockChangeView, nat), CodecError> {
        match decode_at::<i64>(bytes, 0) {
            Err(e) => Err(e),
            Ok((chunk_section_position, n0)) => match decode_at::<bool>(bytes, n0) {
                Err(e) => Err(e),
                Ok((trust_edges_change, n1)) => match decode_at::<(VarInt, Vec<VarLong>)>(bytes, n0 + n1) {
                    Err(e) => Err(e),
                    Ok((blocks, n2)) => Ok((MultiBlockChangeView { chunk_section_position, trust_edges_change, blocks }, n0 + n1 + n2)),
                },
            },
        }
    }

    proof fn lemma_decode_len(bytes: Seq<u8>) {
        lemma_decode_at::<i64>(bytes, 0);
        <i64 as Decodable>::lemma_decode_len(bytes.subrange((0) as int, bytes.len() as int));
        if let Ok((chunk_section_position, n0)) = decode_at::<i64>(bytes, 0) {
            lemma_decode_at::<bool>(bytes, n0);
            <bool as Decodable>::lemma_decode_len(bytes.subrange((n0) as int, bytes.len() as int));
            if let Ok((trust_edges_change, n1)) = decode_at::<bool>(bytes, n0) {
                lemma_decode_at::<(VarInt, Vec<VarLong>)>(bytes, n0 + n1);
                <(VarInt, Vec<VarLong>) as Decodable>::lemma_decode_len(bytes.subrange((n0 + n1) as int, bytes.len() as int));
            }
        }
    }

    fn decode(reader: &mut ByteReader) -> (r: Result<MultiBlockChange, CodecError>) {
        let ghost r0 = *reader;
        let ghost rest0 = reader.rest();
        proof {
            ByteReader::lemma_rest_since(r0, *reader);
            lemma_decode_at::<i64>(rest0, (reader.pos() - r0.pos()) as nat);
        }
        let chunk_section_position = match <i64>::decode(reader) {
            Ok(v) => v,
            Err(e) => return Err(e),
        };
        proof {
            ByteReader::lemma_rest_since(r0, *reader);
            lemma_decode_at::<bool>(rest0, (reader.pos() - r0.pos()) as nat);
        }
        let trust_edges_change = match <bool>::decode(reader) {
            Ok(v) => v,
            Err(e) => return Err(e),
        };
        proof {
            ByteReader::lemma_rest_since(r0, *reader);
            lemma_decode_at::<(VarInt, Vec<VarLong>)>(rest0, (reader.pos() - r0.pos()) as nat);
        }
        let blocks = match <(VarInt, Vec<VarLong>)>::decode(reader) {
            Ok(v) => v,
            Err(e) => return Err(e),
        };
        Ok(MultiBlockChange { chunk_section_position, trust_edges_change, blocks })
    }
}

impl Codec for MultiBlockChange {
    open spec fn valid(m: MultiBlockChangeView) -> bool {
        &&& <i64 as Codec>::valid(m.chunk_section_position)
        &&& <i64 as Codec>::delimited()
        &&& <bool as Codec>::valid(m.trust_edges_change)
        &&& <bool as Codec>::delimited()
        &&& <(VarInt, Vec<VarLong>) as Codec>::valid(m.blocks)
    }

    open spec fn delimited() -> bool {
        <(VarInt, Vec<VarLong>) as Codec>::delimited()
    }

    proof fn lemma_round_trip(m: MultiBlockChangeView, rest: Seq<u8>) {
        let e0 = <i64 as Encodable>::spec_encode(m.chunk_section_position)->Ok_0;
        let e1 = <bool as Encodable>::spec_encode(m.trust_edges_change)->Ok_0;
        let e2 = <(VarInt, Vec<VarLong>) as Encodable>::spec_encode(m.blocks)->Ok_0;
        let t2 = e2 + rest;
        let t1 = e1 + t2;
        let t0 = e0 + t1;
        assert(decode_at::<i64>(t0, (0) as nat) == Ok::<(<i64 as DeepView>::V, nat), CodecError>((m.chunk_section_position, e0.len()))
            && <i64 as Encodable>::spec_encode(m.chunk_section_position) == Ok::<Seq<u8>, CodecError>(e0)
            && decode_at::<bool>(t0, (e0.len()) as nat) == Ok::<(<bool as DeepView>::V, nat), CodecError>((m.trust_edges_change, e1.len()))
            && <bool as Encodable>::spec_encode(m.trust_edges_change) == Ok::<Seq<u8>, CodecError>(e1)
            && decode_at::<(VarInt, Vec<VarLong>)>(t0, (e0.len() + e1.len()) as nat) == Ok::<(<(VarInt, Vec<VarLong>) as DeepView>::V, nat), CodecError>((m.blocks, e2.len()))
            && <(VarInt, Vec<VarLong>) as Encodable>::spec_encode(m.blocks) == Ok::<Seq<u8>, CodecError>(e2)) by {
            lemma_subrange_all(t0);
            lemma_field_round_trip::<i64>(m.chunk_section_position, t0, (0) as nat, t1);
            lemma_field_round_trip::<bool>(m.trust_edges_change, t0, (e0.len()) as nat, t2);
            lemma_field_round_trip::<(VarInt, Vec<VarLong>)>(m.blocks, t0, (e0.len() + e1.len()) as nat, rest);
        }
        assert(e0 + e1 + e2 + rest == t0) by {
            lemma_concat_assoc(e0, e1, t2);
            lemma_concat_assoc(e0 + e1, e2, rest);
        }
        assert(Self::spec_encode(m) == Ok::<Seq<u8>, CodecError>(e0 + e1 + e2));
    }
}
/// The client-bound play message: select advancement tab.
pub struct SelectAdvancementTab {
    pub has_id: bool,
    pub optional_identifier: Option<BigString>,
}

/// The model of a `SelectAdvancementTab`: each field by its model.
pub struct SelectAdvancementTabView {
    pub has_id: bool,
    pub optional_identifier: Option<Seq<char>>,
}

impl DeepView for SelectAdvancementTab {
    type V = SelectAdvancementTabView;

    open spec fn deep_view(&self) -> SelectAdvancementTabView {
        SelectAdvancementTabView {
            has_id: self.has_id.deep_view(),
            optional_identifier: self.optional_identifier.deep_view(),
        }
    }
}

impl Encodable for SelectAdvancementTab {
    /// The fields in order, with no framing.
    open spec fn spec_encode(m: SelectAdvancementTabView) -> Result<Seq<u8>, CodecError> {
        then_encode(<bool as Encodable>::spec_encode(m.has_id), <Option<BigString> as Encodable>::spec_encode(m.optional_identifier))
    }

    /// The sum of the fields' sizes.
    open spec fn spec_size(m: SelectAdvancementTabView) -> Result<nat, CodecError> {
        add_size_spec(<bool as Encodable>::spec_size(m.has_id), <Option<BigString> as Encodable>::spec_size(m.optional_identifier))
    }

    proof fn lemma_size_faithful(m: SelectAdvancementTabView) {
        <bool as Encodable>::lemma_size_faithful(m.has_id);
        <Option<BigString> as Encodable>::lemma_size_faithful(m.optional_identifier);
        lemma_then_size(<bool as Encodable>::spec_encode(m.has_id), <bool as Encodable>::spec_size(m.has_id), <Option<BigString> as Encodable>::spec_encode(m.optional_identifier), <Option<BigString> as Encodable>::spec_size(m.optional_identifier));
    }

    fn encode(&self, out: &mut Vec<u8>) -> (r: Result<(), CodecError>) {
        let ghost o0 = out@;
        let start = out.len();
        let ghost e0 = <bool as Encodable>::spec_encode(self.has_id.deep_view())->Ok_0;
        let ghost e1 = <Option<BigString> as Encodable>::spec_encode(self.optional_identifier.deep_view())->Ok_0;
        match self.has_id.encode(out) {
            Ok(_) => {},
            Err(e) => return Err(e),
        }
        match self.optional_identifier.encode(out) {
            Ok(_) => {},
            Err(e) => {
                roll_back(out, Ghost(o0), Ghost(e0), start);
                return Err(e);
            },
        }
        proof {
            lemma_concat_assoc(o0, e0, e1);
        }
        Ok(())
    }

    fn size(&self) -> (r: Result<VarInt, CodecError>) {
        proof {
            <bool as Encodable>::lemma_size_faithful(self.has_id.deep_view());
            <Option<BigString> as Encodable>::lemma_size_faithful(self.optional_identifier.deep_view());
        }
        let ghost w0 = <bool as Encodable>::spec_size(self.has_id.deep_view());
        let ghost w1 = <Option<BigString> as Encodable>::spec_size(self.optional_identifier.deep_view());
        let t0 = self.has_id.size();
        let t1 = add_size(t0, Ghost(w0), self.optional_identifier.size(), Ghost(w1));
        t1
    }
}

impl Decodable for SelectAdvancementTab {
    open spec fn spec_decode(bytes: Seq<u8>) -> Result<(SelectAdvancementTabView, nat), CodecError> {
        match decode_at::<bool>(bytes, 0) {
            Err(e) => Err(e),
            Ok((has_id, n0)) => match decode_if::<BigString>(has_id, bytes, n0) {
                Err(e) => Err(e),
                Ok((optional_identifier, n1)) => Ok((SelectAdvancementTabView { has_id, optional_identifier }, n0 + n1)),
            },
        }
    }

    proof fn lemma_decode_len(bytes: Seq<u8>) {
        lemma_decode_at::<bool>(bytes, 0);
        <bool as Decodable>::lemma_decode_len(bytes.subrange((0) as int, bytes.len() as int));
        if let Ok((has_id, n0)) = decode_at::<bool>(bytes, 0) {
            lemma_decode_if::<BigString>(has_id, bytes, n0);
            if has_id {
                <BigString as Decodable>::lemma_decode_len(bytes.subrange((n0) as int, bytes.len() as int));
            }
        }
    }

    fn decode(reader: &mut ByteReader) -> (r: Result<SelectAdvancementTab, CodecError>) {
        let ghost r0 = *reader;
        let ghost rest0 = reader.rest();
        proof {
            ByteReader::lemma_rest_since(r0, *reader);
            lemma_decode_at::<bool>(rest0, (reader.pos() - r0.pos()) as nat);
        }
        let has_id = match <bool>::decode(reader) {
            Ok(v) => v,
            Err(e) => return Err(e),
        };
        proof {
            ByteReader::lemma_rest_since(r0, *reader);
            lemma_decode_if::<BigString>(has_id, rest0, (reader.pos() - r0.pos()) as nat);
        }
        let optional_identifier = if has_id {
            match <BigString>::decode(reader) {
                Ok(v) => Some(v),
                Err(e) => return Err(e),
            }
        } else {
            None
        };
        Ok(SelectAdvancementTab { has_id, optional_identifier })
    }
}

impl Codec for SelectAdvancementTab {
    open spec fn valid(m: SelectAdvancementTabView) -> bool {
        &&& <bool as Codec>::valid(m.has_id)
        &&& <bool as Codec>::delimited()
        &&& if m.has_id {
            m.optional_identifier matches Some(v) && <BigString as Codec>::valid(v)
        } else {
            m.optional_identifier is None
        }
    }

    open spec fn delimited() -> bool {
        <BigString as Codec>::delimited()
    }

    proof fn lemma_round_trip(m: SelectAdvancementTabView, rest: Seq<u8>) {
        let e0 = <bool as Encodable>::spec_encode(m.has_id)->Ok_0;
        let e1 = <Option<BigString> as Encodable>::spec_encode(m.optional_identifier)->Ok_0;
        let t1 = e1 + rest;
        let t0 = e0 + t1;
        assert(decode_at::<bool>(t0, (0) as nat) == Ok::<(<bool as DeepView>::V, nat), CodecError>((m.has_id, e0.len()))
            && <bool as Encodable>::spec_encode(m.has_id) == Ok::<Seq<u8>, CodecError>(e0)
            && decode_if::<BigString>(m.has_id, t0, (e0.len()) as nat) == Ok::<(Option<<BigString as DeepView>::V>, nat), CodecError>((m.optional_identifier, e1.len()))
            && <Option<BigString> as Encodable>::spec_encode(m.optional_identifier) == Ok::<Seq<u8>, CodecError>(e1)) by {
            lemma_subrange_all(t0);
            lemma_field_round_trip::<bool>(m.has_id, t0, (0) as nat, t1);
            lemma_field_if_round_trip::<BigString>(m.has_id, m.optional_identifier, t0, (e0.len()) as nat, rest);
        }
        assert(e0 + e1 + rest == t0) by {
            lemma_concat_assoc(e0, e1, rest);
        }
        assert(Self::spec_encode(m) == Ok::<Seq<u8>, CodecError>(e0 + e1));
    }
}
/// The client-bound play message: action bar.
pub struct ActionBar {
    pub action_bar_text: ChatJson,
}

/// The model of a `ActionBar`: each field by its model.
pub struct ActionBarView {
    pub action_bar_text: Seq<char>,
}

impl DeepView for ActionBar {
    type V = ActionBarView;

    open spec fn deep_view(&self) -> ActionBarView {
        ActionBarView {
            action_bar_text: self.action_bar_text.deep_view(),
        }
    }
}

impl Encodable for ActionBar {
    /// The fields in order, with no framing.
    open spec fn spec_encode(m: ActionBarView) -> Result<Seq<u8>, CodecError> {
        <ChatJson as Encodable>::spec_encode(m.action_bar_text)
    }

    /// The sum of the fields' sizes.
    open spec fn spec_size(m: ActionBarView) -> Result<nat, CodecError> {
        <ChatJson as Encodable>::spec_size(m.action_bar_text)
    }

    proof fn lemma_size_faithful(m: ActionBarView) {
        <ChatJson as Encodable>::lemma_size_faithful(m.action_bar_text);
    }

    fn encode(&self, out: &mut Vec<u8>) -> (r: Result<(), CodecError>) {
        self.action_bar_text.encode(out)
    }

    fn size(&self) -> (r: Result<VarInt, CodecError>) {
        self.action_bar_text.size()
    }
}

impl Decodable for ActionBar {
    open spec fn spec_decode(bytes: Seq<u8>) -> Result<(ActionBarView, nat), CodecError> {
        match decode_at::<ChatJson>(bytes, 0) {
            Err(e) => Err(e),
            Ok((action_bar_text, n0)) => Ok((ActionBarView { action_bar_text }, n0)),
        }
    }

    proof fn lemma_decode_len(bytes: Seq<u8>) {
        lemma_decode_at::<ChatJson>(bytes, 0);
        <ChatJson as Decodable>::lemma_decode_len(bytes.subrange((0) as int, bytes.len() as int));
    }

    fn decode(reader: &mut ByteReader) -> (r: Result<ActionBar, CodecError>) {
        let ghost r0 = *reader;
        let ghost rest0 = reader.rest();
        proof {
            ByteReader::lemma_rest_since(r0, *reader);
            lemma_decode_at::<ChatJson>(rest0, (reader.pos() - r0.pos()) as nat);
        }
        let action_bar_text = match <ChatJson>::decode(reader) {
            Ok(v) => v,
            Err(e) => return Err(e),
        };
        Ok(ActionBar { action_bar_text })
    }
}

impl Codec for ActionBar {
    open spec fn valid(m: ActionBarView) -> bool {
        &&& <ChatJson as Codec>::valid(m.action_bar_text)
    }

    open spec fn delimited() -> bool {
        <ChatJson as Codec>::delimited()
    }

    proof fn lemma_round_trip(m: ActionBarView, rest: Seq<u8>) {
        let e0 = <ChatJson as Encodable>::spec_encode(m.action_bar_text)->Ok_0;
        let t0 = e0 + rest;
        assert(decode_at::<ChatJson>(t0, (0) as nat) == Ok::<(<ChatJson as DeepView>::V, nat), CodecError>((m.action_bar_text, e0.len()))
            && <ChatJson as Encodable>::spec_encode(m.action_bar_text) == Ok::<Seq<u8>, CodecError>(e0)) by {
            lemma_subrange_all(t0);
            lemma_field_round_trip::<ChatJson>(m.action_bar_text, t0, (0) as nat, rest);
        }
    }
}
/// The client-bound play message: world border center.
pub struct WorldBorderCenter {
    pub x: Double,
    pub z: Double,
}

/// The model of a `WorldBorderCenter`: each field by its model.
pub struct WorldBorderCenterView {
    pub x: u64,
    pub z: u64,
}

impl DeepView for WorldBorderCenter {
    type V = WorldBorderCenterView;

    open spec fn deep_view(&self) -> WorldBorderCenterView {
        WorldBorderCenterView {
            x: self.x.deep_view(),
            z: self.z.deep_view(),
        }
    }
}

impl Encodable for WorldBorderCenter {
    /// The fields in order, with no framing.
    open spec fn spec_encode(m: WorldBorderCenterView) -> Result<Seq<u8>, CodecError> {
        then_encode(<Double as Encodable>::spec_encode(m.x), <Double as Encodable>::spec_encode(m.z))
    }

    /// The sum of the fields' sizes.
    open spec fn spec_size(m: WorldBorderCenterView) -> Result<nat, CodecError> {
        add_size_spec(<Double as Encodable>::spec_size(m.x), <Double as Encodable>::spec_size(m.z))
    }

    proof fn lemma_size_faithful(m: WorldBorderCenterView) {
        <Double as Encodable>::lemma_size_faithful(m.x);
        <Double as Encodable>::lemma_size_faithful(m.z);
        lemma_then_size(<Double as Encodable>::spec_encode(m.x), <Double as Encodable>::spec_size(m.x), <Double as Encodable>::spec_encode(m.z), <Double as Encodable>::spec_size(m.z));
    }

    fn encode(&self, out: &mut Vec<u8>) -> (r: Result<(), CodecError>) {
        let ghost o0 = out@;
        let start = out.len();
        let ghost e0 = <Double as Encodable>::spec_encode(self.x.deep_view())->Ok_0;
        let ghost e1 = <Double as Encodable>::spec_encode(self.z.deep_view())->Ok_0;
        match self.x.encode(out) {
            Ok(_) => {},
            Err(e) => return Err(e),
        }
        match self.z.encode(out) {
            Ok(_) => {},
            Err(e) => {
                roll_back(out, Ghost(o0), Ghost(e0), start);
                return Err(e);
            },
        }
        proof {
            lemma_concat_assoc(o0, e0, e1);
        }
        Ok(())
    }

    fn size(&self) -> (r: Result<VarInt, CodecError>) {
        proof {
            <Double as Encodable>::lemma_size_faithful(self.x.deep_view());
            <Double as Encodable>::lemma_size_faithful(self.z.deep_view());
        }
        let ghost w0 = <Double as Encodable>::spec_size(self.x.deep_view());
        let ghost w1 = <Double as Encodable>::spec_size(self.z.deep_view());
        let t0 = self.x.size();
        let t1 = add_size(t0, Ghost(w0), self.z.size(), Ghost(w1));
        t1
    }
}

impl Decodable for WorldBorderCenter {
    open spec fn spec_decode(bytes: Seq<u8>) -> Result<(WorldBorderCenterView, nat), CodecError> {
        match decode_at::<Double>(bytes, 0) {
            Err(e) => Err(e),
            Ok((x, n0)) => match decode_at::<Double>(bytes, n0) {
                Err(e) => Err(e),
                Ok((z, n1)) => Ok((WorldBorderCenterView { x, z }, n0 + n1)),
            },
        }
    }

    proof fn lemma_decode_len(bytes: Seq<u8>) {
        lemma_decode_at::<Double>(bytes, 0);
        <Double as Decodable>::lemma_decode_len(bytes.subrange((0) as int, bytes.len() as int));
        if let Ok((x, n0)) = decode_at::<Double>(bytes, 0) {
            lemma_decode_at::<Double>(bytes, n0);
            <Double as Decodable>::lemma_decode_len(bytes.subrange((n0) as int, bytes.len() as int));
        }
    }

    fn decode(reader: &mut ByteReader) -> (r: Result<WorldBorderCenter, CodecError>) {
        let ghost r0 = *reader;
        let ghost rest0 = reader.rest();
        proof {
            ByteReader::lemma_rest_since(r0, *reader);
            lemma_decode_at::<Double>(rest0, (reader.pos() - r0.pos()) as nat);
        }
        let x = match <Double>::decode(reader) {
            Ok(v) => v,
            Err(e) => return Err(e),
        };
        proof {
            ByteReader::lemma_rest_since(r0, *reader);
            lemma_decode_at::<Double>(rest0, (reader.pos() - r0.pos()) as nat);
        }
        let z = match <Double>::decode(reader) {
            Ok(v) => v,
            Err(e) => return Err(e),
        };
        Ok(WorldBorderCenter { x, z })
    }
}

impl Codec for WorldBorderCenter {
    open spec fn valid(m: WorldBorderCenterView) -> bool {
        &&& <Double as Codec>::valid(m.x)
        &&& <Double as Codec>::delimited()
        &&& <Double as Codec>::valid(m.z)
    }

    open spec fn delimited() -> bool {
        <Double as Codec>::delimited()
    }

    proof fn lemma_round_trip(m: WorldBorderCenterView, rest: Seq<u8>) {
        let e0 = <Double as Encodable>::spec_encode(m.x)->Ok_0;
        let e1 = <Double as Encodable>::spec_encode(m.z)->Ok_0;
        let t1 = e1 + rest;
        let t0 = e0 + t1;
        assert(decode_at::<Double>(t0, (0) as nat) == Ok::<(<Double as DeepView>::V, nat), CodecError>((m.x, e0.len()))
            && <Double as Encodable>::spec_encode(m.x) == Ok::<Seq<u8>, CodecError>(e0)
            && decode_at::<Double>(t0, (e0.len()) as nat) == Ok::<(<Double as DeepView>::V, nat), CodecError>((m.z, e1.len()))
            && <Double as Encodable>::spec_encode(m.z) == Ok::<Seq<u8>, CodecError>(e1)) by {
            lemma_subrange_all(t0);
            lemma_field_round_trip::<Double>(m.x, t0, (0) as nat, t1);
            lemma_field_round_trip::<Double>(m.z, t0, (e0.len()) as nat, rest);
        }
        assert(e0 + e1 + rest == t0) by {
            lemma_concat_assoc(e0, e1, rest);
        }
        assert(Self::spec_encode(m) == Ok::<Seq<u8>, CodecError>(e0 + e1));
    }
}
/// The client-bound play message: world border lerp size.
pub struct WorldBorderLerpSize {
    pub old_diameter: Double,
    pub new_diameter: Double,
    pub speed: VarLong,
}

/// The model of a `WorldBorderLerpSize`: each field by its model.
pub struct WorldBorderLerpSizeView {
    pub old_diameter: u64,
    pub new_diameter: u64,
    pub speed: i64,
}

impl DeepView for WorldBorderLerpSize {
    type V = WorldBorderLerpSizeView;

    open spec fn deep_view(&self) -> WorldBorderLerpSizeView {
        WorldBorderLerpSizeView {
            old_diameter: self.old_diameter.deep_view(),
            new_diameter: self.new_diameter.deep_view(),
            speed: self.speed.deep_view(),
        }
    }
}

impl Encodable for WorldBorderLerpSize {
    /// The fields in order, with no framing.
    open spec fn spec_encode(m: WorldBorderLerpSizeView) -> Result<Seq<u8>, CodecError> {
        then_encode(then_encode(<Double as Encodable>::spec_encode(m.old_diameter), <Double as Encodable>::spec_encode(m.new_diameter)), <VarLong as Encodable>::spec_encode(m.speed))
    }

    /// The sum of the fields' sizes.
    open spec fn spec_size(m: WorldBorderLerpSizeView) -> Result<nat, CodecError> {
        add_size_spec(add_size_spec(<Double as Encodable>::spec_size(m.old_diameter), <Double as Encodable>::spec_size(m.new_diameter)), <VarLong as Encodable>::spec_size(m.speed))
    }

    proof fn lemma_size_faithful(m: WorldBorderLerpSizeView) {
        <Double as Encodable>::lemma_size_faithful(m.old_diameter);
        <Double as Encodable>::lemma_size_faithful(m.new_diameter);
        <VarLong as Encodable>::lemma_size_faithful(m.speed);
        lemma_then_size(<Double as Encodable>::spec_encode(m.old_diameter), <Double as Encodable>::spec_size(m.old_diameter), <Double as Encodable>::spec_encode(m.new_diameter), <Double as Encodable>::spec_size(m.new_diameter));
        lemma_then_size(then_encode(<Double as Encodable>::spec_encode(m.old_diameter), <Double as Encodable>::spec_encode(m.new_diameter)), add_size_spec(<Double as Encodable>::spec_size(m.old_diameter), <Double as Encodable>::spec_size(m.new_diameter)), <VarLong as Encodable>::spec_encode(m.speed), <VarLong as Encodable>::spec_size(m.speed));
    }

    fn encode(&self, out: &mut Vec<u8>) -> (r: Result<(), CodecError>) {
        let ghost o0 = out@;
        let start = out.len();
        let ghost e0 = <Double as Encodable>::spec_encode(self.old_diameter.deep_view())->Ok_0;
        let ghost e1 = <Double as Encodable>::spec_encode(self.new_diameter.deep_view())->Ok_0;
        let ghost e2 = <VarLong as Encodable>::spec_encode(self.speed.deep_view())->Ok_0;
        match self.old_diameter.encode(out) {
            Ok(_) => {},
            Err(e) => return Err(e),
        }
        match self.new_diameter.encode(out) {
            Ok(_) => {},
            Err(e) => {
                roll_back(out, Ghost(o0), Ghost(e0), start);
                return Err(e);
            },
        }
        proof {
            lemma_concat_assoc(o0, e0, e1);
        }
        match self.speed.encode(out) {
            Ok(_) => {},
            Err(e) => {
                roll_back(out, Ghost(o0), Ghost(e0 + e1), start);
                return Err(e);
            },
        }
        proof {
            lemma_concat_assoc(o0, e0 + e1, e2);
        }
        Ok(())
    }

    fn size(&self) -> (r: Result<VarInt, CodecError>) {
        proof {
            <Double as Encodable>::lemma_size_faithful(self.old_diameter.deep_view());
            <Double as Encodable>::lemma_size_faithful(self.new_diameter.deep_view());
            <VarLong as Encodable>::lemma_size_faithful(self.speed.deep_view());
        }
        let ghost w0 = <Double as Encodable>::spec_size(self.old_diameter.deep_view());
        let ghost w1 = <Double as Encodable>::spec_size(self.new_diameter.deep_view());
        let ghost w2 = <VarLong as Encodable>::spec_size(self.speed.deep_view());
        let t0 = self.old_diameter.size();
        let t1 = add_size(t0, Ghost(w0), self.new_diameter.size(), Ghost(w1));
        let ghost c1 = add_size_spec(w0, w1);
        let t2 = add_size(t1, Ghost(c1), self.speed.size(), Ghost(w2));
        t2
    }
}

impl Decodable for WorldBorderLerpSize {
    open spec fn spec_decode(bytes: Seq<u8>) -> Result<(WorldBorderLerpSizeView, nat), CodecError> {
        match decode_at::<Double>(bytes, 0) {
            Err(e) => Err(e),
            Ok((old_diameter, n0)) => match decode_at::<Double>(bytes, n0) {
                Err(e) => Err(e),
                Ok((new_diameter, n1)) => match decode_at::<VarLong>(bytes, n0 + n1) {
                    Err(e) => Err(e),
                    Ok((speed, n2)) => Ok((WorldBorderLerpSizeView { old_diameter, new_diameter, speed }, n0 + n1 + n2)),
                },
            },
        }
    }

    proof fn lemma_decode_len(bytes: Seq<u8>) {
        lemma_decode_at::<Double>(bytes, 0);
        <Double as Decodable>::lemma_decode_len(bytes.subrange((0) as int, bytes.len() as int));
        if let Ok((old_diameter, n0)) = decode_at::<Double>(bytes, 0) {
            lemma_decode_at::<Double>(bytes, n0);
            <Double as Decodable>::lemma_decode_len(bytes.subrange((n0) as int, bytes.len() as int));
            if let Ok((new_diameter, n1)) = decode_at::<Double>(bytes, n0) {
                lemma_decode_at::<VarLong>(bytes, n0 + n1);
                <VarLong as Decodable>::lemma_decode_len(bytes.subrange((n0 + n1) as int, bytes.len() as int));
            }
        }
    }

    fn decode(reader: &mut ByteReader) -> (r: Result<WorldBorderLerpSize, CodecError>) {
        let ghost r0 = *reader;
        let ghost rest0 = reader.rest();
        proof {
            ByteReader::lemma_rest_since(r0, *reader);
            lemma_decode_at::<Double>(rest0, (reader.pos() - r0.pos()) as nat);
        }
        let old_diameter = match <Double>::decode(reader) {
            Ok(v) => v,
            Err(e) => return Err(e),
        };
        proof {
            ByteReader::lemma_rest_since(r0, *reader);
            lemma_decode_at::<Double>(rest0, (reader.pos() - r0.pos()) as nat);
        }
        let new_diameter = match <Double>::decode(reader) {
            Ok(v) => v,
            Err(e) => return Err(e),
        };
        proof {
            ByteReader::lemma_rest_since(r0, *reader);
            lemma_decode_at::<VarLong>(rest0, (reader.pos() - r0.pos()) as nat);
        }
        let speed = match <VarLong>::decode(reader) {
            Ok(v) => v,
            Err(e) => return Err(e),
        };
        Ok(WorldBorderLerpSize { old_diameter, new_diameter, speed })
    }
}

impl Codec for WorldBorderLerpSize {
    open spec fn valid(m: WorldBorderLerpSizeView) -> bool {
        &&& <Double as Codec>::valid(m.old_diameter)
        &&& <Double as Codec>::delimited()
        &&& <Double as Codec>::valid(m.new_diameter)
        &&& <Double as Codec>::delimited()
        &&& <VarLong as Codec>::valid(m.speed)
    }

    open spec fn delimited() -> bool {
        <VarLong as Codec>::delimited()
    }

    proof fn lemma_round_trip(m: WorldBorderLerpSizeView, rest: Seq<u8>) {
        let e0 = <Double as Encodable>::spec_encode(m.old_diameter)->Ok_0;
        let e1 = <Double as Encodable>::spec_encode(m.new_diameter)->Ok_0;
        let e2 = <VarLong as Encodable>::spec_encode(m.speed)->Ok_0;
        let t2 = e2 + rest;
        let t1 = e1 + t2;
        let t0 = e0 + t1;
        assert(decode_at::<Double>(t0, (0) as nat) == Ok::<(<Double as DeepView>::V, nat), CodecError>((m.old_diameter, e0.len()))
            && <Double as Encodable>::spec_encode(m.old_diameter) == Ok::<Seq<u8>, CodecError>(e0)
            && decode_at::<Double>(t0, (e0.len()) as nat) == Ok::<(<Double as DeepView>::V, nat), CodecError>((m.new_diameter, e1.len()))
            && <Double as Encodable>::spec_encode(m.new_diameter) == Ok::<Seq<u8>, CodecError>(e1)
            && decode_at::<VarLong>(t0, (e0.len() + e1.len()) as nat) == Ok::<(<VarLong as DeepView>::V, nat), CodecError>((m.speed, e2.len()))
            && <VarLong as Encodable>::spec_encode(m.speed) == Ok::<Seq<u8>, CodecError>(e2)) by {
            lemma_subrange_all(t0);
            lemma_field_round_trip::<Double>(m.old_diameter, t0, (0) as nat, t1);
            lemma_field_round_trip::<Double>(m.new_diameter, t0, (e0.len()) as nat, t2);
            lemma_field_round_trip::<VarLong>(m.speed, t0, (e0.len() + e1.len()) as nat, rest);
        }
        assert(e0 + e1 + e2 + rest == t0) by {
            lemma_concat_assoc(e0, e1, t2);
            lemma_concat_assoc(e0 + e1, e2, rest);
        }
        assert(Self::spec_encode(m) == Ok::<Seq<u8>, CodecError>(e0 + e1 + e2));
    }
}
/// The client-bound play message: world border size.
pub struct WorldBorderSize {
    pub diameter: Double,
}

/// The model of a `WorldBorderSize`: each field by its model.
pub struct WorldBorderSizeView {
    pub diameter: u64,
}

impl DeepView for WorldBorderSize {
    type V = WorldBorderSizeView;

    open spec fn deep_view(&self) -> WorldBorderSizeView {
        WorldBorderSizeView {
            diameter: self.diameter.deep_view(),
        }
    }
}

impl Encodable for WorldBorderSize {
    /// The fields in order, with no framing.
    open spec fn spec_encode(m: WorldBorderSizeView) -> Result<Seq<u8>, CodecError> {
        <Double as Encodable>::spec_encode(m.diameter)
    }

    /// The sum of the fields' sizes.
    open spec fn spec_size(m: WorldBorderSizeView) -> Result<nat, CodecError> {
        <Double as Encodable>::spec_size(m.diameter)
    }

    proof fn lemma_size_faithful(m: WorldBorderSizeView) {
        <Double as Encodable>::lemma_size_faithful(m.diameter);
    }

    fn encode(&self, out: &mut Vec<u8>) -> (r: Result<(), CodecError>) {
        self.diameter.encode(out)
    }

    fn size(&self) -> (r: Result<VarInt, CodecError>) {
        self.diameter.size()
    }
}

impl Decodable for WorldBorderSize {
    open spec fn spec_decode(bytes: Seq<u8>) -> Result<(WorldBorderSizeView, nat), CodecError> {
        match decode_at::<Double>(bytes, 0) {
            Err(e) => Err(e),
            Ok((diameter, n0)) => Ok((WorldBorderSizeView { diameter }, n0)),
        }
    }

    proof fn lemma_decode_len(bytes: Seq<u8>) {
        lemma_decode_at::<Double>(bytes, 0);
        <Double as Decodable>::lemma_decode_len(bytes.subrange((0) as int, bytes.len() as int));
    }

    fn decode(reader: &mut ByteReader) -> (r: Result<WorldBorderSize, CodecError>) {
        let ghost r0 = *reader;
        let ghost rest0 = reader.rest();
        proof {
            ByteReader::lemma_rest_since(r0, *reader);
            lemma_decode_at::<Double>(rest0, (reader.pos() - r0.pos()) as nat);
        }
        let diameter = match <Double>::decode(reader) {
            Ok(v) => v,
            Err(e) => return Err(e),
        };
        Ok(WorldBorderSize { diameter })
    }
}

impl Codec for WorldBorderSize {
    open spec fn valid(m: WorldBorderSizeView) -> bool {
        &&& <Double as Codec>::valid(m.diameter)
    }

    open spec fn delimited() -> bool {
        <Double as Codec>::delimited()
    }

    proof fn lemma_round_trip(m: WorldBorderSizeView, rest: Seq<u8>) {
        let e0 = <Double as Encodable>::spec_encode(m.diameter)->Ok_0;
        let t0 = e0 + rest;
        assert(decode_at::<Double>(t0, (0) as nat) == Ok::<(<Double as DeepView>::V, nat), CodecError>((m.diameter, e0.len()))
            && <Double as Encodable>::spec_encode(m.diameter) == Ok::<Seq<u8>, CodecError>(e0)) by {
            lemma_subrange_all(t0);
            lemma_field_round_trip::<Double>(m.diameter, t0, (0) as nat, rest);
        }
    }
}
/// The client-bound play message: world border warning delay.
pub struct WorldBorderWarningDelay {
    pub warning_time: VarInt,
}

/// The model of a `WorldBorderWarningDelay`: each field by its model.
pub struct WorldBorderWarningDelayView {
    pub warning_time: i32,
}

impl DeepView for WorldBorderWarningDelay {
    type V = WorldBorderWarningDelayView;

    open spec fn deep_view(&self) -> WorldBorderWarningDelayView {
        WorldBorderWarningDelayView {
            warning_time: self.warning_time.deep_view(),
        }
    }
}

impl Encodable for WorldBorderWarningDelay {
    /// The fields in order, with no framing.
    open spec fn spec_encode(m: WorldBorderWarningDelayView) -> Result<Seq<u8>, CodecError> {
        <VarInt as Encodable>::spec_encode(m.warning_time)
    }

    /// The sum of the fields' sizes.
    open spec fn spec_size(m: WorldBorderWarningDelayView) -> Result<nat, CodecError> {
        <VarInt as Encodable>::spec_size(m.warning_time)
    }

    proof fn lemma_size_faithful(m: WorldBorderWarningDelayView) {
        <VarInt as Encodable>::lemma_size_faithful(m.warning_time);
    }

    fn encode(&self, out: &mut Vec<u8>) -> (r: Result<(), CodecError>) {
        self.warning_time.encode(out)
    }

    fn size(&self) -> (r: Result<VarInt, CodecError>) {
        self.warning_time.size()
    }
}

impl Decodable for WorldBorderWarningDelay {
    open spec fn spec_decode(bytes: Seq<u8>) -> Result<(WorldBorderWarningDelayView, nat), CodecError> {
        match decode_at::<VarInt>(bytes, 0) {
            Err(e) => Err(e),
            Ok((warning_time, n0)) => Ok((WorldBorderWarningDelayView { warning_time }, n0)),
        }
    }

    proof fn lemma_decode_len(bytes: Seq<u8>) {
        lemma_decode_at::<VarInt>(bytes, 0);
        <VarInt as Decodable>::lemma_decode_len(bytes.subrange((0) as int, bytes.len() as int));
    }

    fn decode(reader: &mut ByteReader) -> (r: Result<WorldBorderWarningDelay, CodecError>) {
        let ghost r0 = *reader;
        let ghost rest0 = reader.rest();
        proof {
            ByteReader::lemma_rest_since(r0, *reader);
            lemma_decode_at::<VarInt>(rest0, (reader.pos() - r0.pos()) as nat);
        }
        let warning_time = match <VarInt>::decode(reader) {
            Ok(v) => v,
            Err(e) => return Err(e),
        };
        Ok(WorldBorderWarningDelay { warning_time })
    }
}

impl Codec for WorldBorderWarningDelay {
    open spec fn valid(m: WorldBorderWarningDelayView) -> bool {
        &&& <VarInt as Codec>::valid(m.warning_time)
    }

    open spec fn delimited() -> bool {
        <VarInt as Codec>::delimited()
    }

    proof fn lemma_round_trip(m: WorldBorderWarningDelayView, rest: Seq<u8>) {
        let e0 = <VarInt as Encodable>::spec_encode(m.warning_time)->Ok_0;
        let t0 = e0 + rest;
        assert(decode_at::<VarInt>(t0, (0) as nat) == Ok::<(<VarInt as DeepView>::V, nat), CodecError>((m.warning_time, e0.len()))
            && <VarInt as Encodable>::spec_encode(m.warning_time) == Ok::<Seq<u8>, CodecError>(e0)) by {
            lemma_subrange_all(t0);
            lemma_field_round_trip::<VarInt>(m.warning_time, t0, (0) as nat, rest);
        }
    }
}
/// The client-bound play message: world border warning reach.
pub struct WorldBorderWarningReach {
    pub warning_blocks: VarInt,
}

/// The model of a `WorldBorderWarningReach`: each field by its model.
pub struct WorldBorderWarningReachView {
    pub warning_blocks: i32,
}

impl DeepView for WorldBorderWarningReach {
    type V = WorldBorderWarningReachView;

    open spec fn deep_view(&self) -> WorldBorderWarningReachView {
        WorldBorderWarningReachView {
            warning_blocks: self.warning_blocks.deep_view(),
        }
    }
}

impl Encodable for WorldBorderWarningReach {
    /// The fields in order, with no framing.
    open spec fn spec_encode(m: WorldBorderWarningReachView) -> Result<Seq<u8>, CodecError> {
        <VarInt as Encodable>::spec_encode(m.warning_blocks)
    }

    /// The sum of the fields' sizes.
    open spec fn spec_size(m: WorldBorderWarningReachView) -> Result<nat, CodecError> {
        <VarInt as Encodable>::spec_size(m.warning_blocks)
    }

    proof fn lemma_size_faithful(m: WorldBorderWarningReachView) {
        <VarInt as Encodable>::lemma_size_faithful(m.warning_blocks);
    }

    fn encode(&self, out: &mut Vec<u8>) -> (r: Result<(), CodecError>) {
        self.warning_blocks.encode(out)
    }

    fn size(&self) -> (r: Result<VarInt, CodecError>) {
        self.warning_blocks.size()
    }
}

impl Decodable for WorldBorderWarningReach {
    open spec fn spec_decode(bytes: Seq<u8>) -> Result<(WorldBorderWarningReachView, nat), CodecError> {
        match decode_at::<VarInt>(bytes, 0) {
            Err(e) => Err(e),
            Ok((warning_blocks, n0)) => Ok((WorldBorderWarningReachView { warning_blocks }, n0)),
        }
    }

    proof fn lemma_decode_len(bytes: Seq<u8>) {
        lemma_decode_at::<VarInt>(bytes, 0);
        <VarInt as Decodable>::lemma_decode_len(bytes.subrange((0) as int, bytes.len() as int));
    }

    fn decode(reader: &mut ByteReader) -> (r: Result<WorldBorderWarningReach, CodecError>) {
        let ghost r0 = *reader;
        let ghost rest0 = reader.rest();
        proof {
            ByteReader::lemma_rest_since(r0, *reader);
            lemma_decode_at::<VarInt>(rest0, (reader.pos() - r0.pos()) as nat);
        }
        let warning_blocks = match <VarInt>::decode(reader) {
            Ok(v) => v,
            Err(e) => return Err(e),
        };
        Ok(WorldBorderWarningReach { warning_blocks })
    }
}

impl Codec for WorldBorderWarningReach {
    open spec fn valid(m: WorldBorderWarningReachView) -> bool {
        &&& <VarInt as Codec>::valid(m.warning_blocks)
    }

    open spec fn delimited() -> bool {
        <VarInt as Codec>::delimited()
    }

    proof fn lemma_round_trip(m: WorldBorderWarningReachView, rest: Seq<u8>) {
        let e0 = <VarInt as Encodable>::spec_encode(m.warning_blocks)->Ok_0;
        let t0 = e0 + rest;
        assert(decode_at::<VarInt>(t0, (0) as nat) == Ok::<(<VarInt as DeepView>::V, nat), CodecError>((m.warning_blocks, e0.len()))
            && <VarInt as Encodable>::spec_encode(m.warning_blocks) == Ok::<Seq<u8>, CodecError>(e0)) by {
            lemma_subrange_all(t0);
            lemma_field_round_trip::<VarInt>(m.warning_blocks, t0, (0) as nat, rest);
        }
    }
}
/// The client-bound play message: camera.
pub struct Camera {
    pub camera_id: VarInt,
}

/// The model of a `Camera`: each field by its model.
pub struct CameraView {
    pub camera_id: i32,
}

impl DeepView for Camera {
    type V = CameraView;

    open spec fn deep_view(&self) -> CameraView {
        CameraView {
            camera_id: self.camera_id.deep_view(),
        }
    }
}

impl Encodable for Camera {
    /// The fields in order, with no framing.
    open spec fn spec_encode(m: CameraView) -> Result<Seq<u8>, CodecError> {
        <VarInt as Encodable>::spec_encode(m.camera_id)
    }

    /// The sum of the fields' sizes.
    open spec fn spec_size(m: CameraView) -> Result<nat, CodecError> {
        <VarInt as Encodable>::spec_size(m.camera_id)
    }

    proof fn lemma_size_faithful(m: CameraView) {
        <VarInt as Encodable>::lemma_size_faithful(m.camera_id);
    }

    fn encode(&self, out: &mut Vec<u8>) -> (r: Result<(), CodecError>) {
        self.camera_id.encode(out)
    }

    fn size(&self) -> (r: Result<VarInt, CodecError>) {
        self.camera_id.size()
    }
}

impl Decodable for Camera {
    open spec fn spec_decode(bytes: Seq<u8>) -> Result<(CameraView, nat), CodecError> {
        match decode_at::<VarInt>(bytes, 0) {
            Err(e) => Err(e),
            Ok((camera_id, n0)) => Ok((CameraView { camera_id }, n0)),
        }
    }

    proof fn lemma_decode_len(bytes: Seq<u8>) {
        lemma_decode_at::<VarInt>(bytes, 0);
        <VarInt as Decodable>::lemma_decode_len(bytes.subrange((0) as int, bytes.len() as int));
    }

    fn decode(reader: &mut ByteReader) -> (r: Result<Camera, CodecError>) {
        let ghost r0 = *reader;
        let ghost rest0 = reader.rest();
        proof {
            ByteReader::lemma_rest_since(r0, *reader);
            lemma_decode_at::<VarInt>(rest0, (reader.pos() - r0.pos()) as nat);
        }
        let camera_id = match <VarInt>::decode(reader) {
            Ok(v) => v,
            Err(e) => return Err(e),
        };
        Ok(Camera { camera_id })
    }
}

impl Codec for Camera {
    open spec fn valid(m: CameraView) -> bool {
        &&& <VarInt as Codec>::valid(m.camera_id)
    }

    open spec fn delimited() -> bool {
        <VarInt as Codec>::delimited()
    }

    proof fn lemma_round_trip(m: CameraView, rest: Seq<u8>) {
        let e0 = <VarInt as Encodable>::spec_encode(m.camera_id)->Ok_0;
        let t0 = e0 + rest;
        assert(decode_at::<VarInt>(t0, (0) as nat) == Ok::<(<VarInt as DeepView>::V, nat), CodecError>((m.camera_id, e0.len()))
            && <VarInt as Encodable>::spec_encode(m.camera_id) == Ok::<Seq<u8>, CodecError>(e0)) by {
            lemma_subrange_all(t0);
            lemma_field_round_trip::<VarInt>(m.camera_id, t0, (0) as nat, rest);
        }
    }
}
/// The client-bound play message: held item change.
pub struct HeldItemChange {
    pub slot: i8,
}

/// The model of a `HeldItemChange`: each field by its model.
pub struct HeldItemChangeView {
    pub slot: i8,
}

impl DeepView for HeldItemChange {
    type V = HeldItemChangeView;

    open spec fn deep_view(&self) -> HeldItemChangeView {
        HeldItemChangeView {
            slot: self.slot.deep_view(),
        }
    }
}

impl Encodable for HeldItemChange {
    /// The fields in order, with no framing.
    open spec fn spec_encode(m: HeldItemChangeView) -> Result<Seq<u8>, CodecError> {
        <i8 as Encodable>::spec_encode(m.slot)
    }

    /// The sum of the fields' sizes.
    open spec fn spec_size(m: HeldItemChangeView) -> Result<nat, CodecError> {
        <i8 as Encodable>::spec_size(m.slot)
    }

    proof fn lemma_size_faithful(m: HeldItemChangeView) {
        <i8 as Encodable>::lemma_size_faithful(m.slot);
    }

    fn encode(&self, out: &mut Vec<u8>) -> (r: Result<(), CodecError>) {
        self.slot.encode(out)
    }

    fn size(&self) -> (r: Result<VarInt, CodecError>) {
        self.slot.size()
    }
}

impl Decodable for HeldItemChange {
    open spec fn spec_decode(bytes: Seq<u8>) -> Result<(HeldItemChangeView, nat), CodecError> {
        match decode_at::<i8>(bytes, 0) {
            Err(e) => Err(e),
            Ok((slot, n0)) => Ok((HeldItemChangeView { slot }, n0)),
        }
    }

    proof fn lemma_decode_len(bytes: Seq<u8>) {
        lemma_decode_at::<i8>(bytes, 0);
        <i8 as Decodable>::lemma_decode_len(bytes.subrange((0) as int, bytes.len() as int));
    }

    fn decode(reader: &mut ByteReader) -> (r: Result<HeldItemChange, CodecError>) {
        let ghost r0 = *reader;
        let ghost rest0 = reader.rest();
        proof {
            ByteReader::lemma_rest_since(r0, *reader);
            lemma_decode_at::<i8>(rest0, (reader.pos() - r0.pos()) as nat);
        }
        let slot = match <i8>::decode(reader) {
            Ok(v) => v,
            Err(e) => return Err(e),
        };
        Ok(HeldItemChange { slot })
    }
}

impl Codec for HeldItemChange {
    open spec fn valid(m: HeldItemChangeView) -> bool {
        &&& <i8 as Codec>::valid(m.slot)
    }

    open spec fn delimited() -> bool {
        <i8 as Codec>::delimited()
    }

    proof fn lemma_round_trip(m: HeldItemChangeView, rest: Seq<u8>) {
        let e0 = <i8 as Encodable>::spec_encode(m.slot)->Ok_0;
        let t0 = e0 + rest;
        assert(decode_at::<i8>(t0, (0) as nat) == Ok::<(<i8 as DeepView>::V, nat), CodecError>((m.slot, e0.len()))
            && <i8 as Encodable>::spec_encode(m.slot) == Ok::<Seq<u8>, CodecError>(e0)) by {
            lemma_subrange_all(t0);
            lemma_field_round_trip::<i8>(m.slot, t0, (0) as nat, rest);
        }
    }
}
/// The client-bound play message: update view position.
pub struct UpdateViewPosition {
    pub chunk_x: VarInt,
    pub chunk_z: VarInt,
}

/// The model of a `UpdateViewPosition`: each field by its model.
pub struct UpdateViewPositionView {
    pub chunk_x: i32,
    pub chunk_z: i32,
}

impl DeepView for UpdateViewPosition {
    type V = UpdateViewPositionView;

    open spec fn deep_view(&self) -> UpdateViewPositionView {
        UpdateViewPositionView {
            chunk_x: self.chunk_x.deep_view(),
            chunk_z: self.chunk_z.deep_view(),
        }
    }
}

impl Encodable for UpdateViewPosition {
    /// The fields in order, with no framing.
    open spec fn spec_encode(m: UpdateViewPositionView) -> Result<Seq<u8>, CodecError> {
        then_encode(<VarInt as Encodable>::spec_encode(m.chunk_x), <VarInt as Encodable>::spec_encode(m.chunk_z))
    }

    /// The sum of the fields' sizes.
    open spec fn spec_size(m: UpdateViewPositionView) -> Result<nat, CodecError> {
        add_size_spec(<VarInt as Encodable>::spec_size(m.chunk_x), <VarInt as Encodable>::spec_size(m.chunk_z))
    }

    proof fn lemma_size_faithful(m: UpdateViewPositionView) {
        <VarInt as Encodable>::lemma_size_faithful(m.chunk_x);
        <VarInt as Encodable>::lemma_size_faithful(m.chunk_z);
        lemma_then_size(<VarInt as Encodable>::spec_encode(m.chunk_x), <VarInt as Encodable>::spec_size(m.chunk_x), <VarInt as Encodable>::spec_encode(m.chunk_z), <VarInt as Encodable>::spec_size(m.chunk_z));
    }

    fn encode(&self, out: &mut Vec<u8>) -> (r: Result<(), CodecError>) {
        let ghost o0 = out@;
        let start = out.len();
        let ghost e0 = <VarInt as Encodable>::spec_encode(self.chunk_x.deep_view())->Ok_0;
        let ghost e1 = <VarInt as Encodable>::spec_encode(self.chunk_z.deep_view())->Ok_0;
        match self.chunk_x.encode(out) {
            Ok(_) => {},
            Err(e) => return Err(e),
        }
        match self.chunk_z.encode(out) {
            Ok(_) => {},
            Err(e) => {
                roll_back(out, Ghost(o0), Ghost(e0), start);
                return Err(e);
            },
        }
        proof {
            lemma_concat_assoc(o0, e0, e1);
        }
        Ok(())
    }

    fn size(&self) -> (r: Result<VarInt, CodecError>) {
        proof {
            <VarInt as Encodable>::lemma_size_faithful(self.chunk_x.deep_view());
            <VarInt as Encodable>::lemma_size_faithful(self.chunk_z.deep_view());
        }
        let ghost w0 = <VarInt as Encodable>::spec_size(self.chunk_x.deep_view());
        let ghost w1 = <VarInt as Encodable>::spec_size(self.chunk_z.deep_view());
        let t0 = self.chunk_x.size();
        let t1 = add_size(t0, Ghost(w0), self.chunk_z.size(), Ghost(w1));
        t1
    }
}

impl Decodable for UpdateViewPosition {
    open spec fn spec_decode(bytes: Seq<u8>) -> Result<(UpdateViewPositionView, nat), CodecError> {
        match decode_at::<VarInt>(bytes, 0) {
            Err(e) => Err(e),
            Ok((chunk_x, n0)) => match decode_at::<VarInt>(bytes, n0) {
                Err(e) => Err(e),
                Ok((chunk_z, n1)) => Ok((UpdateViewPositionView { chunk_x, chunk_z }, n0 + n1)),
            },
        }
    }

    proof fn lemma_decode_len(bytes: Seq<u8>) {
        lemma_decode_at::<VarInt>(bytes, 0);
        <VarInt as Decodable>::lemma_decode_len(bytes.subrange((0) as int, bytes.len() as int));
        if let Ok((chunk_x, n0)) = decode_at::<VarInt>(bytes, 0) {
            lemma_decode_at::<VarInt>(bytes, n0);
            <VarInt as Decodable>::lemma_decode_len(bytes.subrange((n0) as int, bytes.len() as int));
        }
    }

    fn decode(reader: &mut ByteReader) -> (r: Result<UpdateViewPosition, CodecError>) {
        let ghost r0 = *reader;
        let ghost rest0 = reader.rest();
        proof {
            ByteReader::lemma_rest_since(r0, *reader);
            lemma_decode_at::<VarInt>(rest0, (reader.pos() - r0.pos()) as nat);
        }
        let chunk_x = match <VarInt>::decode(reader) {
            Ok(v) => v,
            Err(e) => return Err(e),
        };
        proof {
            ByteReader::lemma_rest_since(r0, *reader);
            lemma_decode_at::<VarInt>(rest0, (reader.pos() - r0.pos()) as nat);
        }
        let chunk_z = match <VarInt>::decode(reader) {
            Ok(v) => v,
            Err(e) => return Err(e),
        };
        Ok(UpdateViewPosition { chunk_x, chunk_z })
    }
}

impl Codec for UpdateViewPosition {
    open spec fn valid(m: UpdateViewPositionView) -> bool {
        &&& <VarInt as Codec>::valid(m.chunk_x)
        &&& <VarInt as Codec>::delimited()
        &&& <VarInt as Codec>::valid(m.chunk_z)
    }

    open spec fn delimited() -> bool {
        <VarInt as Codec>::delimited()
    }

    proof fn lemma_round_trip(m: UpdateViewPositionView, rest: Seq<u8>) {
        let e0 = <VarInt as Encodable>::spec_encode(m.chunk_x)->Ok_0;
        let e1 = <VarInt as Encodable>::spec_encode(m.chunk_z)->Ok_0;
        let t1 = e1 + rest;
        let t0 = e0 + t1;
        assert(decode_at::<VarInt>(t0, (0) as nat) == Ok::<(<VarInt as DeepView>::V, nat), CodecError>((m.chunk_x, e0.len()))
            && <VarInt as Encodable>::spec_encode(m.chunk_x) == Ok::<Seq<u8>, CodecError>(e0)
            && decode_at::<VarInt>(t0, (e0.len()) as nat) == Ok::<(<VarInt as DeepView>::V, nat), CodecError>((m.chunk_z, e1.len()))
            && <VarInt as Encodable>::spec_encode(m.chunk_z) == Ok::<Seq<u8>, CodecError>(e1)) by {
            lemma_subrange_all(t0);
            lemma_field_round_trip::<VarInt>(m.chunk_x, t0, (0) as nat, t1);
            lemma_field_round_trip::<VarInt>(m.chunk_z, t0, (e0.len()) as nat, rest);
        }
        assert(e0 + e1 + rest == t0) by {
            lemma_concat_assoc(e0, e1, rest);
        }
        assert(Self::spec_encode(m) == Ok::<Seq<u8>, CodecError>(e0 + e1));
    }
}
/// The client-bound play message: update view distance.
pub struct UpdateViewDistance {
    pub view_distance: VarInt,
}

/// The model of a `UpdateViewDistance`: each field by its model.
pub struct UpdateViewDistanceView {
    pub view_distance: i32,
}

impl DeepView for UpdateViewDistance {
    type V = UpdateViewDistanceView;

    open spec fn deep_view(&self) -> UpdateViewDistanceView {
        UpdateViewDistanceView {
            view_distance: self.view_distance.deep_view(),
        }
    }
}

impl Encodable for UpdateViewDistance {
    /// The fields in order, with no framing.
    open spec fn spec_encode(m: UpdateViewDistanceView) -> Result<Seq<u8>, CodecError> {
        <VarInt as Encodable>::spec_encode(m.view_distance)
    }

    /// The sum of the fields' sizes.
    open spec fn spec_size(m: UpdateViewDistanceView) -> Result<nat, CodecError> {
        <VarInt as Encodable>::spec_size(m.view_distance)
    }

    proof fn lemma_size_faithful(m: UpdateViewDistanceView) {
        <VarInt as Encodable>::lemma_size_faithful(m.view_distance);
    }

    fn encode(&self, out: &mut Vec<u8>) -> (r: Result<(), CodecError>) {
        self.view_distance.encode(out)
    }

    fn size(&self) -> (r: Result<VarInt, CodecError>) {
        self.view_distance.size()
    }
}

impl Decodable for UpdateViewDistance {
    open spec fn spec_decode(bytes: Seq<u8>) -> Result<(UpdateViewDistanceView, nat), CodecError> {
        match decode_at::<VarInt>(bytes, 0) {
            Err(e) => Err(e),
            Ok((view_distance, n0)) => Ok((UpdateViewDistanceView { view_distance }, n0)),
        }
    }

    proof fn lemma_decode_len(bytes: Seq<u8>) {
        lemma_decode_at::<VarInt>(bytes, 0);
        <VarInt as Decodable>::lemma_decode_len(bytes.subrange((0) as int, bytes.len() as int));
    }

    fn decode(reader: &mut ByteReader) -> (r: Result<UpdateViewDistance, CodecError>) {
        let ghost r0 = *reader;
        let ghost rest0 = reader.rest();
        proof {
            ByteReader::lemma_rest_since(r0, *reader);
            lemma_decode_at::<VarInt>(rest0, (reader.pos() - r0.pos()) as nat);
        }
        let view_distance = match <VarInt>::decode(reader) {
            Ok(v) => v,
            Err(e) => return Err(e),
        };
        Ok(UpdateViewDistance { view_distance })
    }
}

impl Codec for UpdateViewDistance {
    open spec fn valid(m: UpdateViewDistanceView) -> bool {
        &&& <VarInt as Codec>::valid(m.view_distance)
    }

    open spec fn delimited() -> bool {
        <VarInt as Codec>::delimited()
    }

    proof fn lemma_round_trip(m: UpdateViewDistanceView, rest: Seq<u8>) {
        let e0 = <VarInt as Encodable>::spec_encode(m.view_distance)->Ok_0;
        let t0 = e0 + rest;
        assert(decode_at::<VarInt>(t0, (0) as nat) == Ok::<(<VarInt as DeepView>::V, nat), CodecError>((m.view_distance, e0.len()))
            && <VarInt as Encodable>::spec_encode(m.view_distance) == Ok::<Seq<u8>, CodecError>(e0)) by {
            lemma_subrange_all(t0);
            lemma_field_round_trip::<VarInt>(m.view_distance, t0, (0) as nat, rest);
        }
    }
}
/// The client-bound play message: spawn position.
pub struct SpawnPosition {
    pub location: Position,
    pub angle: Float,
}

/// The model of a `SpawnPosition`: each field by its model.
pub struct SpawnPositionView {
    pub location: (i64, i64, i64),
    pub angle: u32,
}

impl DeepView for SpawnPosition {
    type V = SpawnPositionView;

    open spec fn deep_view(&self) -> SpawnPositionView {
        SpawnPositionView {
            location: self.location.deep_view(),
            angle: self.angle.deep_view(),
        }
    }
}

impl Encodable for SpawnPosition {
    /// The fields in order, with no framing.
    open spec fn spec_encode(m: SpawnPositionView) -> Result<Seq<u8>, CodecError> {
        then_encode(<Position as Encodable>::spec_encode(m.location), <Float as Encodable>::spec_encode(m.angle))
    }

    /// The sum of the fields' sizes.
    open spec fn spec_size(m: SpawnPositionView) -> Result<nat, CodecError> {
        add_size_spec(<Position as Encodable>::spec_size(m.location), <Float as Encodable>::spec_size(m.angle))
    }

    proof fn lemma_size_faithful(m: SpawnPositionView) {
        <Position as Encodable>::lemma_size_faithful(m.location);
        <Float as Encodable>::lemma_size_faithful(m.angle);
        lemma_then_size(<Position as Encodable>::spec_encode(m.location), <Position as Encodable>::spec_size(m.location), <Float as Encodable>::spec_encode(m.angle), <Float as Encodable>::spec_size(m.angle));
    }

    fn encode(&self, out: &mut Vec<u8>) -> (r: Result<(), CodecError>) {
        let ghost o0 = out@;
        let start = out.len();
        let ghost e0 = <Position as Encodable>::spec_encode(self.location.deep_view())->Ok_0;
        let ghost e1 = <Float as Encodable>::spec_encode(self.angle.deep_view())->Ok_0;
        match self.location.encode(out) {
            Ok(_) => {},
            Err(e) => return Err(e),
        }
        match self.angle.encode(out) {
            Ok(_) => {},
            Err(e) => {
                roll_back(out, Ghost(o0), Ghost(e0), start);
                return Err(e);
            },
        }
        proof {
            lemma_concat_assoc(o0, e0, e1);
        }
        Ok(())
    }

    fn size(&self) -> (r: Result<VarInt, CodecError>) {
        proof {
            <Position as Encodable>::lemma_size_faithful(self.location.deep_view());
            <Float as Encodable>::lemma_size_faithful(self.angle.deep_view());
        }
        let ghost w0 = <Position as Encodable>::spec_size(self.location.deep_view());
        let ghost w1 = <Float as Encodable>::spec_size(self.angle.deep_view());
        let t0 = self.location.size();
        let t1 = add_size(t0, Ghost(w0), self.angle.size(), Ghost(w1));
        t1
    }
}

impl Decodable for SpawnPosition {
    open spec fn spec_decode(bytes: Seq<u8>) -> Result<(SpawnPositionView, nat), CodecError> {
        match decode_at::<Position>(bytes, 0) {
            Err(e) => Err(e),
            Ok((location, n0)) => match decode_at::<Float>(bytes, n0) {
                Err(e) => Err(e),
                Ok((angle, n1)) => Ok((SpawnPositionView { location, angle }, n0 + n1)),
            },
        }
    }

    proof fn lemma_decode_len(bytes: Seq<u8>) {
        lemma_decode_at::<Position>(bytes, 0);
        <Position as Decodable>::lemma_decode_len(bytes.subrange((0) as int, bytes.len() as int));
        if let Ok((location, n0)) = decode_at::<Position>(bytes, 0) {
            lemma_decode_at::<Float>(bytes, n0);
            <Float as Decodable>::lemma_decode_len(bytes.subrange((n0) as int, bytes.len() as int));
        }
    }

    fn decode(reader: &mut ByteReader) -> (r: Result<SpawnPosition, CodecError>) {
        let ghost r0 = *reader;
        let ghost rest0 = reader.rest();
        proof {
            ByteReader::lemma_rest_since(r0, *reader);
            lemma_decode_at::<Position>(rest0, (reader.pos() - r0.pos()) as nat);
        }
        let location = match <Position>::decode(reader) {
            Ok(v) => v,
            Err(e) => return Err(e),
        };
        proof {
            ByteReader::lemma_rest_since(r0, *reader);
            lemma_decode_at::<Float>(rest0, (reader.pos() - r0.pos()) as nat);
        }
        let angle = match <Float>::decode(reader) {
            Ok(v) => v,
            Err(e) => return Err(e),
        };
        Ok(SpawnPosition { location, angle })
    }
}

impl Codec for SpawnPosition {
    open spec fn valid(m: SpawnPositionView) -> bool {
        &&& <Position as Codec>::valid(m.location)
        &&& <Position as Codec>::delimited()
        &&& <Float as Codec>::valid(m.angle)
    }

    open spec fn delimited() -> bool {
        <Float as Codec>::delimited()
    }

    proof fn lemma_round_trip(m: SpawnPositionView, rest: Seq<u8>) {
        let e0 = <Position as Encodable>::spec_encode(m.location)->Ok_0;
        let e1 = <Float as Encodable>::spec_encode(m.angle)->Ok_0;
        let t1 = e1 + rest;
        let t0 = e0 + t1;
        assert(decode_at::<Position>(t0, (0) as nat) == Ok::<(<Position as DeepView>::V, nat), CodecError>((m.location, e0.len()))
            && <Position as Encodable>::spec_encode(m.location) == Ok::<Seq<u8>, CodecError>(e0)
            && decode_at::<Float>(t0, (e0.len()) as nat) == Ok::<(<Float as DeepView>::V, nat), CodecError>((m.angle, e1.len()))
            && <Float as Encodable>::spec_encode(m.angle) == Ok::<Seq<u8>, CodecError>(e1)) by {
            lemma_subrange_all(t0);
            lemma_field_round_trip::<Position>(m.location, t0, (0) as nat, t1);
            lemma_field_round_trip::<Float>(m.angle, t0, (e0.len()) as nat, rest);
        }
        assert(e0 + e1 + rest == t0) by {
            lemma_concat_assoc(e0, e1, rest);
        }
        assert(Self::spec_encode(m) == Ok::<Seq<u8>, CodecError>(e0 + e1));
    }
}
/// The client-bound play message: display scoreboard.
pub struct DisplayScoreboard {
    pub position: i8,
    pub score_name: ObjectiveName,
}

/// The model of a `DisplayScoreboard`: each field by its model.
pub struct DisplayScoreboardView {
    pub position: i8,
    pub score_name: Seq<char>,
}

impl DeepView for DisplayScoreboard {
    type V = DisplayScoreboardView;

    open spec fn deep_view(&self) -> DisplayScoreboardView {
        DisplayScoreboardView {
            position: self.position.deep_view(),
            score_name: self.score_name.deep_view(),
        }
    }
}

impl Encodable for DisplayScoreboard {
    /// The fields in order, with no framing.
    open spec fn spec_encode(m: DisplayScoreboardView) -> Result<Seq<u8>, CodecError> {
        then_encode(<i8 as Encodable>::spec_encode(m.position), <ObjectiveName as Encodable>::spec_encode(m.score_name))
    }

    /// The sum of the fields' sizes.
    open spec fn spec_size(m: DisplayScoreboardView) -> Result<nat, CodecError> {
        add_size_spec(<i8 as Encodable>::spec_size(m.position), <ObjectiveName as Encodable>::spec_size(m.score_name))
    }

    proof fn lemma_size_faithful(m: DisplayScoreboardView) {
        <i8 as Encodable>::lemma_size_faithful(m.position);
        <ObjectiveName as Encodable>::lemma_size_faithful(m.score_name);
        lemma_then_size(<i8 as Encodable>::spec_encode(m.position), <i8 as Encodable>::spec_size(m.position), <ObjectiveName as Encodable>::spec_encode(m.score_name), <ObjectiveName as Encodable>::spec_size(m.score_name));
    }

    fn encode(&self, out: &mut Vec<u8>) -> (r: Result<(), CodecError>) {
        let ghost o0 = out@;
        let start = out.len();
        let ghost e0 = <i8 as Encodable>::spec_encode(self.position.deep_view())->Ok_0;
        let ghost e1 = <ObjectiveName as Encodable>::spec_encode(self.score_name.deep_view())->Ok_0;
        match self.position.encode(out) {
            Ok(_) => {},
            Err(e) => return Err(e),
        }
        match self.score_name.encode(out) {
            Ok(_) => {},
            Err(e) => {
                roll_back(out, Ghost(o0), Ghost(e0), start);
                return Err(e);
            },
        }
        proof {
            lemma_concat_assoc(o0, e0, e1);
        }
        Ok(())
    }

    fn size(&self) -> (r: Result<VarInt, CodecError>) {
        proof {
            <i8 as Encodable>::lemma_size_faithful(self.position.deep_view());
            <ObjectiveName as Encodable>::lemma_size_faithful(self.score_name.deep_view());
        }
        let ghost w0 = <i8 as Encodable>::spec_size(self.position.deep_view());
        let ghost w1 = <ObjectiveName as Encodable>::spec_size(self.score_name.deep_view());
        let t0 = self.position.size();
        let t1 = add_size(t0, Ghost(w0), self.score_name.size(), Ghost(w1));
        t1
    }
}

impl Decodable for DisplayScoreboard {
    open spec fn spec_decode(bytes: Seq<u8>) -> Result<(DisplayScoreboardView, nat), CodecError> {
        match decode_at::<i8>(bytes, 0) {
            Err(e) => Err(e),
            Ok((position, n0)) => match decode_at::<ObjectiveName>(bytes, n0) {
                Err(e) => Err(e),
                Ok((score_name, n1)) => Ok((DisplayScoreboardView { position, score_name }, n0 + n1)),
            },
        }
    }

    proof fn lemma_decode_len(bytes: Seq<u8>) {
        lemma_decode_at::<i8>(bytes, 0);
        <i8 as Decodable>::lemma_decode_len(bytes.subrange((0) as int, bytes.len() as int));
        if let Ok((position, n0)) = decode_at::<i8>(bytes, 0) {
            lemma_decode_at::<ObjectiveName>(bytes, n0);
            <ObjectiveName as Decodable>::lemma_decode_len(bytes.subrange((n0) as int, bytes.len() as int));
        }
    }

    fn decode(reader: &mut ByteReader) -> (r: Result<DisplayScoreboard, CodecError>) {
        let ghost r0 = *reader;
        let ghost rest0 = reader.rest();
        proof {
            ByteReader::lemma_rest_since(r0, *reader);
            lemma_decode_at::<i8>(rest0, (reader.pos() - r0.pos()) as nat);
        }
        let position = match <i8>::decode(reader) {
            Ok(v) => v,
            Err(e) => return Err(e),
        };
        proof {
            ByteReader::lemma_rest_since(r0, *reader);
            lemma_decode_at::<ObjectiveName>(rest0, (reader.pos() - r0.pos()) as nat);
        }
        let score_name = match <ObjectiveName>::decode(reader) {
            Ok(v) => v,
            Err(e) => return Err(e),
        };
        Ok(DisplayScoreboard { position, score_name })
    }
}

impl Codec for DisplayScoreboard {
    open spec fn valid(m: DisplayScoreboardView) -> bool {
        &&& <i8 as Codec>::valid(m.position)
        &&& <i8 as Codec>::delimited()
        &&& <ObjectiveName as Codec>::valid(m.score_name)
    }

    open spec fn delimited() -> bool {
        <ObjectiveName as Codec>::delimited()
    }

    proof fn lemma_round_trip(m: DisplayScoreboardView, rest: Seq<u8>) {
        let e0 = <i8 as Encodable>::spec_encode(m.position)->Ok_0;
        let e1 = <ObjectiveName as Encodable>::spec_encode(m.score_name)->Ok_0;
        let t1 = e1 + rest;
        let t0 = e0 + t1;
        assert(decode_at::<i8>(t0, (0) as nat) == Ok::<(<i8 as DeepView>::V, nat), CodecError>((m.position, e0.len()))
            && <i8 as Encodable>::spec_encode(m.position) == Ok::<Seq<u8>, CodecError>(e0)
            && decode_at::<ObjectiveName>(t0, (e0.len()) as nat) == Ok::<(<ObjectiveName as DeepView>::V, nat), CodecError>((m.score_name, e1.len()))
            && <ObjectiveName as Encodable>::spec_encode(m.score_name) == Ok::<Seq<u8>, CodecError>(e1)) by {
            lemma_subrange_all(t0);
            lemma_field_round_trip::<i8>(m.position, t0, (0) as nat, t1);
            lemma_field_round_trip::<ObjectiveName>(m.score_name, t0, (e0.len()) as nat, rest);
        }
        assert(e0 + e1 + rest == t0) by {
            lemma_concat_assoc(e0, e1, rest);
        }
        assert(Self::spec_encode(m) == Ok::<Seq<u8>, CodecError>(e0 + e1));
    }
}
/// The client-bound play message: attach entity.
pub struct AttachEntity {
    pub attached_entity_id: i32,
    pub holding_entity_id: i32,
}

/// The model of a `AttachEntity`: each field by its model.
pub struct AttachEntityView {
    pub attached_entity_id: i32,
    pub holding_entity_id: i32,
}

impl DeepView for AttachEntity {
    type V = AttachEntityView;

    open spec fn deep_view(&self) -> AttachEntityView {
        AttachEntityView {
            attached_entity_id: self.attached_entity_id.deep_view(),
            holding_entity_id: self.holding_entity_id.deep_view(),
        }
    }
}

impl Encodable for AttachEntity {
    /// The fields in order, with no framing.
    open spec fn spec_encode(m: AttachEntityView) -> Result<Seq<u8>, CodecError> {
        then_encode(<i32 as Encodable>::spec_encode(m.attached_entity_id), <i32 as Encodable>::spec_encode(m.holding_entity_id))
    }

    /// The sum of the fields' sizes.
    open spec fn spec_size(m: AttachEntityView) -> Result<nat, CodecError> {
        add_size_spec(<i32 as Encodable>::spec_size(m.attached_entity_id), <i32 as Encodable>::spec_size(m.holding_entity_id))
    }

    proof fn lemma_size_faithful(m: AttachEntityView) {
        <i32 as Encodable>::lemma_size_faithful(m.attached_entity_id);
        <i32 as Encodable>::lemma_size_faithful(m.holding_entity_id);
        lemma_then_size(<i32 as Encodable>::spec_encode(m.attached_entity_id), <i32 as Encodable>::spec_size(m.attached_entity_id), <i32 as Encodable>::spec_encode(m.holding_entity_id), <i32 as Encodable>::spec_size(m.holding_entity_id));
    }

    fn encode(&self, out: &mut Vec<u8>) -> (r: Result<(), CodecError>) {
        let ghost o0 = out@;
        let start = out.len();
        let ghost e0 = <i32 as Encodable>::spec_encode(self.attached_entity_id.deep_view())->Ok_0;
        let ghost e1 = <i32 as Encodable>::spec_encode(self.holding_entity_id.deep_view())->Ok_0;
        match self.attached_entity_id.encode(out) {
            Ok(_) => {},
            Err(e) => return Err(e),
        }
        match self.holding_entity_id.encode(out) {
            Ok(_) => {},
            Err(e) => {
                roll_back(out, Ghost(o0), Ghost(e0), start);
                return Err(e);
            },
        }
        proof {
            lemma_concat_assoc(o0, e0, e1);
        }
        Ok(())
    }

    fn size(&self) -> (r: Result<VarInt, CodecError>) {
        proof {
            <i32 as Encodable>::lemma_size_faithful(self.attached_entity_id.deep_view());
            <i32 as Encodable>::lemma_size_faithful(self.holding_entity_id.deep_view());
        }
        let ghost w0 = <i32 as Encodable>::spec_size(self.attached_entity_id.deep_view());
        let ghost w1 = <i32 as Encodable>::spec_size(self.holding_entity_id.deep_view());
        let t0 = self.attached_entity_id.size();
        let t1 = add_size(t0, Ghost(w0), self.holding_entity_id.size(), Ghost(w1));
        t1
    }
}

impl Decodable for AttachEntity {
    open spec fn spec_decode(bytes: Seq<u8>) -> Result<(AttachEntityView, nat), CodecError> {
        match decode_at::<i32>(bytes, 0) {
            Err(e) => Err(e),
            Ok((attached_entity_id, n0)) => match decode_at::<i32>(bytes, n0) {
                Err(e) => Err(e),
                Ok((holding_entity_id, n1)) => Ok((AttachEntityView { attached_entity_id, holding_entity_id }, n0 + n1)),
            },
        }
    }

    proof fn lemma_decode_len(bytes: Seq<u8>) {
        lemma_decode_at::<i32>(bytes, 0);
        <i32 as Decodable>::lemma_decode_len(bytes.subrange((0) as int, bytes.len() as int));
        if let Ok((attached_entity_id, n0)) = decode_at::<i32>(bytes, 0) {
            lemma_decode_at::<i32>(bytes, n0);
            <i32 as Decodable>::lemma_decode_len(bytes.subrange((n0) as int, bytes.len() as int));
        }
    }

    fn decode(reader: &mut ByteReader) -> (r: Result<AttachEntity, CodecError>) {
        let ghost r0 = *reader;
        let ghost rest0 = reader.rest();
        proof {
            ByteReader::lemma_rest_since(r0, *reader);
            lemma_decode_at::<i32>(rest0, (reader.pos() - r0.pos()) as nat);
        }
        let attached_entity_id = match <i32>::decode(reader) {
            Ok(v) => v,
            Err(e) => return Err(e),
        };
        proof {
            ByteReader::lemma_rest_since(r0, *reader);
            lemma_decode_at::<i32>(rest0, (reader.pos() - r0.pos()) as nat);
        }
        let holding_entity_id = match <i32>::decode(reader) {
            Ok(v) => v,
            Err(e) => return Err(e),
        };
        Ok(AttachEntity { attached_entity_id, holding_entity_id })
    }
}

impl Codec for AttachEntity {
    open spec fn valid(m: AttachEntityView) -> bool {
        &&& <i32 as Codec>::valid(m.attached_entity_id)
        &&& <i32 as Codec>::delimited()
        &&& <i32 as Codec>::valid(m.holding_entity_id)
    }

    open spec fn delimited() -> bool {
        <i32 as Codec>::delimited()
    }

    proof fn lemma_round_trip(m: AttachEntityView, rest: Seq<u8>) {
        let e0 = <i32 as Encodable>::spec_encode(m.attached_entity_id)->Ok_0;
        let e1 = <i32 as Encodable>::spec_encode(m.holding_entity_id)->Ok_0;
        let t1 = e1 + rest;
        let t0 = e0 + t1;
        assert(decode_at::<i32>(t0, (0) as nat) == Ok::<(<i32 as DeepView>::V, nat), CodecError>((m.attached_entity_id, e0.len()))
            && <i32 as Encodable>::spec_encode(m.attached_entity_id) == Ok::<Seq<u8>, CodecError>(e0)
            && decode_at::<i32>(t0, (e0.len()) as nat) == Ok::<(<i32 as DeepView>::V, nat), CodecError>((m.holding_entity_id, e1.len()))
            && <i32 as Encodable>::spec_encode(m.holding_entity_id) == Ok::<Seq<u8>, CodecError>(e1)) by {
            lemma_subrange_all(t0);
            lemma_field_round_trip::<i32>(m.attached_entity_id, t0, (0) as nat, t1);
            lemma_field_round_trip::<i32>(m.holding_entity_id, t0, (e0.len()) as nat, rest);
        }
        assert(e0 + e1 + rest == t0) by {
            lemma_concat_assoc(e0, e1, rest);
        }
        assert(Self::spec_encode(m) == Ok::<Seq<u8>, CodecError>(e0 + e1));
    }
}
/// The client-bound play message: entity velocity.
pub struct EntityVelocity {
    pub entity_id: VarInt,
    pub velocity_x: i16,
    pub velocity_y: i16,
    pub velocity_z: i16,
}

/// The model of a `EntityVelocity`: each field by its model.
pub struct EntityVelocityView {
    pub entity_id: i32,
    pub velocity_x: i16,
    pub velocity_y: i16,
    pub velocity_z: i16,
}

impl DeepView for EntityVelocity {
    type V = EntityVelocityView;

    open spec fn deep_view(&self) -> EntityVelocityView {
        EntityVelocityView {
            entity_id: self.entity_id.deep_view(),
            velocity_x: self.velocity_x.deep_view(),
            velocity_y: self.velocity_y.deep_view(),
            velocity_z: self.velocity_z.deep_view(),
        }
    }
}

impl Encodable for EntityVelocity {
    /// The fields in order, with no framing.
    open spec fn spec_encode(m: EntityVelocityView) -> Result<Seq<u8>, CodecError> {
        then_encode(then_encode(then_encode(<VarInt as Encodable>::spec_encode(m.entity_id), <i16 as Encodable>::spec_encode(m.velocity_x)), <i16 as Encodable>::spec_encode(m.velocity_y)), <i16 as Encodable>::spec_encode(m.velocity_z))
    }

    /// The sum of the fields' sizes.
    open spec fn spec_size(m: EntityVelocityView) -> Result<nat, CodecError> {
        add_size_spec(add_size_spec(add_size_spec(<VarInt as Encodable>::spec_size(m.entity_id), <i16 as Encodable>::spec_size(m.velocity_x)), <i16 as Encodable>::spec_size(m.velocity_y)), <i16 as Encodable>::spec_size(m.velocity_z))
    }

    proof fn lemma_size_faithful(m: EntityVelocityView) {
        <VarInt as Encodable>::lemma_size_faithful(m.entity_id);
        <i16 as Encodable>::lemma_size_faithful(m.velocity_x);
        <i16 as Encodable>::lemma_size_faithful(m.velocity_y);
        <i16 as Encodable>::lemma_size_faithful(m.velocity_z);
        lemma_then_size(<VarInt as Encodable>::spec_encode(m.entity_id), <VarInt as Encodable>::spec_size(m.entity_id), <i16 as Encodable>::spec_encode(m.velocity_x), <i16 as Encodable>::spec_size(m.velocity_x));
        lemma_then_size(then_encode(<VarInt as Encodable>::spec_encode(m.entity_id), <i16 as Encodable>::spec_encode(m.velocity_x)), add_size_spec(<VarInt as Encodable>::spec_size(m.entity_id), <i16 as Encodable>::spec_size(m.velocity_x)), <i16 as Encodable>::spec_encode(m.velocity_y), <i16 as Encodable>::spec_size(m.velocity_y));
        lemma_then_size(then_encode(then_encode(<VarInt as Encodable>::spec_encode(m.entity_id), <i16 as Encodable>::spec_encode(m.velocity_x)), <i16 as Encodable>::spec_encode(m.velocity_y)), add_size_spec(add_size_spec(<VarInt as Encodable>::spec_size(m.entity_id), <i16 as Encodable>::spec_size(m.velocity_x)), <i16 as Encodable>::spec_size(m.velocity_y)), <i16 as Encodable>::spec_encode(m.velocity_z), <i16 as Encodable>::spec_size(m.velocity_z));
    }

    fn encode(&self, out: &mut Vec<u8>) -> (r: Result<(), CodecError>) {
        let ghost o0 = out@;
        let start = out.len();
        let ghost e0 = <VarInt as Encodable>::spec_encode(self.entity_id.deep_view())->Ok_0;
        let ghost e1 = <i16 as Encodable>::spec_encode(self.velocity_x.deep_view())->Ok_0;
        let ghost e2 = <i16 as Encodable>::spec_encode(self.velocity_y.deep_view())->Ok_0;
        let ghost e3 = <i16 as Encodable>::spec_encode(self.velocity_z.deep_view())->Ok_0;
        match self.entity_id.encode(out) {
            Ok(_) => {},
            Err(e) => return Err(e),
        }
        match self.velocity_x.encode(out) {
            Ok(_) => {},
            Err(e) => {
                roll_back(out, Ghost(o0), Ghost(e0), start);
                return Err(e);
            },
        }
        proof {
            lemma_concat_assoc(o0, e0, e1);
        }
        match self.velocity_y.encode(out) {
            Ok(_) => {},
            Err(e) => {
                roll_back(out, Ghost(o0), Ghost(e0 + e1), start);
                return Err(e);
            },
        }
        proof {
            lemma_concat_assoc(o0, e0 + e1, e2);
        }
        match self.velocity_z.encode(out) {
            Ok(_) => {},
            Err(e) => {
                roll_back(out, Ghost(o0), Ghost(e0 + e1 + e2), start);
                return Err(e);
            },
        }
        proof {
            lemma_concat_assoc(o0, e0 + e1 + e2, e3);
        }
        Ok(())
    }

    fn size(&self) -> (r: Result<VarInt, CodecError>) {
        proof {
            <VarInt as Encodable>::lemma_size_faithful(self.entity_id.deep_view());
            <i16 as Encodable>::lemma_size_faithful(self.velocity_x.deep_view());
            <i16 as Encodable>::lemma_size_faithful(self.velocity_y.deep_view());
            <i16 as Encodable>::lemma_size_faithful(self.velocity_z.deep_view());
        }
        let ghost w0 = <VarInt as Encodable>::spec_size(self.entity_id.deep_view());
        let ghost w1 = <i16 as Encodable>::spec_size(self.velocity_x.deep_view());
        let ghost w2 = <i16 as Encodable>::spec_size(self.velocity_y.deep_view());
        let ghost w3 = <i16 as Encodable>::spec_size(self.velocity_z.deep_view());
        let t0 = self.entity_id.size();
        let t1 = add_size(t0, Ghost(w0), self.velocity_x.size(), Ghost(w1));
        let ghost c1 = add_size_spec(w0, w1);
        let t2 = add_size(t1, Ghost(c1), self.velocity_y.size(), Ghost(w2));
        let ghost c2 = add_size_spec(c1, w2);
        let t3 = add_size(t2, Ghost(c2), self.velocity_z.size(), Ghost(w3));
        t3
    }
}

impl Decodable for EntityVelocity {
    open spec fn spec_decode(bytes: Seq<u8>) -> Result<(EntityVelocityView, nat), CodecError> {
        match decode_at::<VarInt>(bytes, 0) {
            Err(e) => Err(e),
            Ok((entity_id, n0)) => match decode_at::<i16>(bytes, n0) {
                Err(e) => Err(e),
                Ok((velocity_x, n1)) => match decode_at::<i16>(bytes, n0 + n1) {
                    Err(e) => Err(e),
                    Ok((velocity_y, n2)) => match decode_at::<i16>(bytes, n0 + n1 + n2) {
                        Err(e) => Err(e),
                        Ok((velocity_z, n3)) => Ok((EntityVelocityView { entity_id, velocity_x, velocity_y, velocity_z }, n0 + n1 + n2 + n3)),
                    },
                },
            },
        }
    }

    proof fn lemma_decode_len(bytes: Seq<u8>) {
        lemma_decode_at::<VarInt>(bytes, 0);
        <VarInt as Decodable>::lemma_decode_len(bytes.subrange((0) as int, bytes.len() as int));
        if let Ok((entity_id, n0)) = decode_at::<VarInt>(bytes, 0) {
            lemma_decode_at::<i16>(bytes, n0);
            <i16 as Decodable>::lemma_decode_len(bytes.subrange((n0) as int, bytes.len() as int));
            if let Ok((velocity_x, n1)) = decode_at::<i16>(bytes, n0) {
                lemma_decode_at::<i16>(bytes, n0 + n1);
                <i16 as Decodable>::lemma_decode_len(bytes.subrange((n0 + n1) as int, bytes.len() as int));
                if let Ok((velocity_y, n2)) = decode_at::<i16>(bytes, n0 + n1) {
                    lemma_decode_at::<i16>(bytes, n0 + n1 + n2);
                    <i16 as Decodable>::lemma_decode_len(bytes.subrange((n0 + n1 + n2) as int, bytes.len() as int));
                }
            }
        }
    }

    fn decode(reader: &mut ByteReader) -> (r: Result<EntityVelocity, CodecError>) {
        let ghost r0 = *reader;
        let ghost rest0 = reader.rest();
        proof {
            ByteReader::lemma_rest_since(r0, *reader);
            lemma_decode_at::<VarInt>(rest0, (reader.pos() - r0.pos()) as nat);
        }
        let entity_id = match <VarInt>::decode(reader) {
            Ok(v) => v,
            Err(e) => return Err(e),
        };
        proof {
            ByteReader::lemma_rest_since(r0, *reader);
            lemma_decode_at::<i16>(rest0, (reader.pos() - r0.pos()) as nat);
        }
        let velocity_x = match <i16>::decode(reader) {
            Ok(v) => v,
            Err(e) => return Err(e),
        };
        proof {
            ByteReader::lemma_rest_since(r0, *reader);
            lemma_decode_at::<i16>(rest0, (reader.pos() - r0.pos()) as nat);
        }
        let velocity_y = match <i16>::decode(reader) {
            Ok(v) => v,
            Err(e) => return Err(e),
        };
        proof {
            ByteReader::lemma_rest_since(r0, *reader);
            lemma_decode_at::<i16>(rest0, (reader.pos() - r0.pos()) as nat);
        }
        let velocity_z = match <i16>::decode(reader) {
            Ok(v) => v,
            Err(e) => return Err(e),
        };
        Ok(EntityVelocity { entity_id, velocity_x, velocity_y, velocity_z })
    }
}

impl Codec for EntityVelocity {
    open spec fn valid(m: EntityVelocityView) -> bool {
        &&& <VarInt as Codec>::valid(m.entity_id)
        &&& <VarInt as Codec>::delimited()
        &&& <i16 as Codec>::valid(m.velocity_x)
        &&& <i16 as Codec>::delimited()
        &&& <i16 as Codec>::valid(m.velocity_y)
        &&& <i16 as Codec>::delimited()
        &&& <i16 as Codec>::valid(m.velocity_z)
    }

    open spec fn delimited() -> bool {
        <i16 as Codec>::delimited()
    }

    proof fn lemma_round_trip(m: EntityVelocityView, rest: Seq<u8>) {
        let e0 = <VarInt as Encodable>::spec_encode(m.entity_id)->Ok_0;
        let e1 = <i16 as Encodable>::spec_encode(m.velocity_x)->Ok_0;
        let e2 = <i16 as Encodable>::spec_encode(m.velocity_y)->Ok_0;
        let e3 = <i16 as Encodable>::spec_encode(m.velocity_z)->Ok_0;
        let t3 = e3 + rest;
        let t2 = e2 + t3;
        let t1 = e1 + t2;
        let t0 = e0 + t1;
        assert(decode_at::<VarInt>(t0, (0) as nat) == Ok::<(<VarInt as DeepView>::V, nat), CodecError>((m.entity_id, e0.len()))
            && <VarInt as Encodable>::spec_encode(m.entity_id) == Ok::<Seq<u8>, CodecError>(e0)
            && decode_at::<i16>(t0, (e0.len()) as nat) == Ok::<(<i16 as DeepView>::V, nat), CodecError>((m.velocity_x, e1.len()))
            && <i16 as Encodable>::spec_encode(m.velocity_x) == Ok::<Seq<u8>, CodecError>(e1)
            && decode_at::<i16>(t0, (e0.len() + e1.len()) as nat) == Ok::<(<i16 as DeepView>::V, nat), CodecError>((m.velocity_y, e2.len()))
            && <i16 as Encodable>::spec_encode(m.velocity_y) == Ok::<Seq<u8>, CodecError>(e2)
            && decode_at::<i16>(t0, (e0.len() + e1.len() + e2.len()) as nat) == Ok::<(<i16 as DeepView>::V, nat), CodecError>((m.velocity_z, e3.len()))
            && <i16 as Encodable>::spec_encode(m.velocity_z) == Ok::<Seq<u8>, CodecError>(e3)) by {
            lemma_subrange_all(t0);
            lemma_field_round_trip::<VarInt>(m.entity_id, t0, (0) as nat, t1);
            lemma_field_round_trip::<i16>(m.velocity_x, t0, (e0.len()) as nat, t2);
            lemma_field_round_trip::<i16>(m.velocity_y, t0, (e0.len() + e1.len()) as nat, t3);
            lemma_field_round_trip::<i16>(m.velocity_z, t0, (e0.len() + e1.len() + e2.len()) as nat, rest);
        }
        assert(e0 + e1 + e2 + e3 + rest == t0) by {
            lemma_concat_assoc(e0, e1, t2);
            lemma_concat_assoc(e0 + e1, e2, t3);
            lemma_concat_assoc(e0 + e1 + e2, e3, rest);
        }
        assert(Self::spec_encode(m) == Ok::<Seq<u8>, CodecError>(e0 + e1 + e2 + e3));
    }
}
/// The client-bound play message: set experience.
pub struct SetExperience {
    pub experience_bar: Float,
    pub level: VarInt,
    pub total_experience: VarInt,
}

/// The model of a `SetExperience`: each field by its model.
pub struct SetExperienceView {
    pub experience_bar: u32,
    pub level: i32,
    pub total_experience: i32,
}

impl DeepView for SetExperience {
    type V = SetExperienceView;

    open spec fn deep_view(&self) -> SetExperienceView {
        SetExperienceView {
            experience_bar: self.experience_bar.deep_view(),
            level: self.level.deep_view(),
            total_experience: self.total_experience.deep_view(),
        }
    }
}

impl Encodable for SetExperience {
    /// The fields in order, with no framing.
    open spec fn spec_encode(m: SetExperienceView) -> Result<Seq<u8>, CodecError> {
        then_encode(then_encode(<Float as Encodable>::spec_encode(m.experience_bar), <VarInt as Encodable>::spec_encode(m.level)), <VarInt as Encodable>::spec_encode(m.total_experience))
    }

    /// The sum of the fields' sizes.
    open spec fn spec_size(m: SetExperienceView) -> Result<nat, CodecError> {
        add_size_spec(add_size_spec(<Float as Encodable>::spec_size(m.experience_bar), <VarInt as Encodable>::spec_size(m.level)), <VarInt as Encodable>::spec_size(m.total_experience))
    }

    proof fn lemma_size_faithful(m: SetExperienceView) {
        <Float as Encodable>::lemma_size_faithful(m.experience_bar);
        <VarInt as Encodable>::lemma_size_faithful(m.level);
        <VarInt as Encodable>::lemma_size_faithful(m.total_experience);
        lemma_then_size(<Float as Encodable>::spec_encode(m.experience_bar), <Float as Encodable>::spec_size(m.experience_bar), <VarInt as Encodable>::spec_encode(m.level), <VarInt as Encodable>::spec_size(m.level));
        lemma_then_size(then_encode(<Float as Encodable>::spec_encode(m.experience_bar), <VarInt as Encodable>::spec_encode(m.level)), add_size_spec(<Float as Encodable>::spec_size(m.experience_bar), <VarInt as Encodable>::spec_size(m.level)), <VarInt as Encodable>::spec_encode(m.total_experience), <VarInt as Encodable>::spec_size(m.total_experience));
    }

    fn encode(&self, out: &mut Vec<u8>) -> (r: Result<(), CodecError>) {
        let ghost o0 = out@;
        let start = out.len();
        let ghost e0 = <Float as Encodable>::spec_encode(self.experience_bar.deep_view())->Ok_0;
        let ghost e1 = <VarInt as Encodable>::spec_encode(self.level.deep_view())->Ok_0;
        let ghost e2 = <VarInt as Encodable>::spec_encode(self.total_experience.deep_view())->Ok_0;
        match self.experience_bar.encode(out) {
            Ok(_) => {},
            Err(e) => return Err(e),
        }
        match self.level.encode(out) {
            Ok(_) => {},
            Err(e) => {
                roll_back(out, Ghost(o0), Ghost(e0), start);
                return Err(e);
            },
        }
        proof {
            lemma_concat_assoc(o0, e0, e1);
        }
        match self.total_experience.encode(out) {
            Ok(_) => {},
            Err(e) => {
                roll_back(out, Ghost(o0), Ghost(e0 + e1), start);
                return Err(e);
            },
        }
        proof {
            lemma_concat_assoc(o0, e0 + e1, e2);
        }
        Ok(())
    }

    fn size(&self) -> (r: Result<VarInt, CodecError>) {
        proof {
            <Float as Encodable>::lemma_size_faithful(self.experience_bar.deep_view());
            <VarInt as Encodable>::lemma_size_faithful(self.level.deep_view());
            <VarInt as Encodable>::lemma_size_faithful(self.total_experience.deep_view());
        }
        let ghost w0 = <Float as Encodable>::spec_size(self.experience_bar.deep_view());
        let ghost w1 = <VarInt as Encodable>::spec_size(self.level.deep_view());
        let ghost w2 = <VarInt as Encodable>::spec_size(self.total_experience.deep_view());
        let t0 = self.experience_bar.size();
        let t1 = add_size(t0, Ghost(w0), self.level.size(), Ghost(w1));
        let ghost c1 = add_size_spec(w0, w1);
        let t2 = add_size(t1, Ghost(c1), self.total_experience.size(), Ghost(w2));
        t2
    }
}

impl Decodable for SetExperience {
    open spec fn spec_decode(bytes: Seq<u8>) -> Result<(SetExperienceView, nat), CodecError> {
        match decode_at::<Float>(bytes, 0) {
            Err(e) => Err(e),
            Ok((experience_bar, n0)) => match decode_at::<VarInt>(bytes, n0) {
                Err(e) => Err(e),
                Ok((level, n1)) => match decode_at::<VarInt>(bytes, n0 + n1) {
                    Err(e) => Err(e),
                    Ok((total_experience, n2)) => Ok((SetExperienceView { experience_bar, level, total_experience }, n0 + n1 + n2)),
                },
            },
        }
    }

    proof fn lemma_decode_len(bytes: Seq<u8>) {
        lemma_decode_at::<Float>(bytes, 0);
        <Float as Decodable>::lemma_decode_len(bytes.subrange((0) as int, bytes.len() as int));
        if let Ok((experience_bar, n0)) = decode_at::<Float>(bytes, 0) {
            lemma_decode_at::<VarInt>(bytes, n0);
            <VarInt as Decodable>::lemma_decode_len(bytes.subrange((n0) as int, bytes.len() as int));
            if let Ok((level, n1)) = decode_at::<VarInt>(bytes, n0) {
                lemma_decode_at::<VarInt>(bytes, n0 + n1);
                <VarInt as Decodable>::lemma_decode_len(bytes.subrange((n0 + n1) as int, bytes.len() as int));
            }
        }
    }

    fn decode(reader: &mut ByteReader) -> (r: Result<SetExperience, CodecError>) {
        let ghost r0 = *reader;
        let ghost rest0 = reader.rest();
        proof {
            ByteReader::lemma_rest_since(r0, *reader);
            lemma_decode_at::<Float>(rest0, (reader.pos() - r0.pos()) as nat);
        }
        let experience_bar = match <Float>::decode(reader) {
            Ok(v) => v,
            Err(e) => return Err(e),
        };
        proof {
            ByteReader::lemma_rest_since(r0, *reader);
            lemma_decode_at::<VarInt>(rest0, (reader.pos() - r0.pos()) as nat);
        }
        let level = match <VarInt>::decode(reader) {
            Ok(v) => v,
            Err(e) => return Err(e),
        };
        proof {
            ByteReader::lemma_rest_since(r0, *reader);
            lemma_decode_at::<VarInt>(rest0, (reader.pos() - r0.pos()) as nat);
        }
        let total_experience = match <VarInt>::decode(reader) {
            Ok(v) => v,
            Err(e) => return Err(e),
        };
        Ok(SetExperience { experience_bar, level, total_experience })
    }
}

impl Codec for SetExperience {
    open spec fn valid(m: SetExperienceView) -> bool {
        &&& <Float as Codec>::valid(m.experience_bar)
        &&& <Float as Codec>::delimited()
        &&& <VarInt as Codec>::valid(m.level)
        &&& <VarInt as Codec>::delimited()
        &&& <VarInt as Codec>::valid(m.total_experience)
    }

    open spec fn delimited() -> bool {
        <VarInt as Codec>::delimited()
    }

    proof fn lemma_round_trip(m: SetExperienceView, rest: Seq<u8>) {
        let e0 = <Float as Encodable>::spec_encode(m.experience_bar)->Ok_0;
        let e1 = <VarInt as Encodable>::spec_encode(m.level)->Ok_0;
        let e2 = <VarInt as Encodable>::spec_encode(m.total_experience)->Ok_0;
        let t2 = e2 + rest;
        let t1 = e1 + t2;
        let t0 = e0 + t1;
        assert(decode_at::<Float>(t0, (0) as nat) == Ok::<(<Float as DeepView>::V, nat), CodecError>((m.experience_bar, e0.len()))
            && <Float as Encodable>::spec_encode(m.experience_bar) == Ok::<Seq<u8>, CodecError>(e0)
            && decode_at::<VarInt>(t0, (e0.len()) as nat) == Ok::<(<VarInt as DeepView>::V, nat), CodecError>((m.level, e1.len()))
            && <VarInt as Encodable>::spec_encode(m.level) == Ok::<Seq<u8>, CodecError>(e1)
            && decode_at::<VarInt>(t0, (e0.len() + e1.len()) as nat) == Ok::<(<VarInt as DeepView>::V, nat), CodecError>((m.total_experience, e2.len()))
            && <VarInt as Encodable>::spec_encode(m.total_experience) == Ok::<Seq<u8>, CodecError>(e2)) by {
            lemma_subrange_all(t0);
            lemma_field_round_trip::<Float>(m.experience_bar, t0, (0) as nat, t1);
            lemma_field_round_trip::<VarInt>(m.level, t0, (e0.len()) as nat, t2);
            lemma_field_round_trip::<VarInt>(m.total_experience, t0, (e0.len() + e1.len()) as nat, rest);
        }
        assert(e0 + e1 + e2 + rest == t0) by {
            lemma_concat_assoc(e0, e1, t2);
            lemma_concat_assoc(e0 + e1, e2, rest);
        }
        assert(Self::spec_encode(m) == Ok::<Seq<u8>, CodecError>(e0 + e1 + e2));
    }
}
/// The client-bound play message: update health.
pub struct UpdateHealth {
    pub health: Float,
    pub food: VarInt,
    pub food_saturation: Float,
}

/// The model of a `UpdateHealth`: each field by its model.
pub struct UpdateHealthView {
    pub health: u32,
    pub food: i32,
    pub food_saturation: u32,
}

impl DeepView for UpdateHealth {
    type V = UpdateHealthView;

    open spec fn deep_view(&self) -> UpdateHealthView {
        UpdateHealthView {
            health: self.health.deep_view(),
            food: self.food.deep_view(),
            food_saturation: self.food_saturation.deep_view(),
        }
    }
}

impl Encodable for UpdateHealth {
    /// The fields in order, with no framing.
    open spec fn spec_encode(m: UpdateHealthView) -> Result<Seq<u8>, CodecError> {
        then_encode(then_encode(<Float as Encodable>::spec_encode(m.health), <VarInt as Encodable>::spec_encode(m.food)), <Float as Encodable>::spec_encode(m.food_saturation))
    }

    /// The sum of the fields' sizes.
    open spec fn spec_size(m: UpdateHealthView) -> Result<nat, CodecError> {
        add_size_spec(add_size_spec(<Float as Encodable>::spec_size(m.health), <VarInt as Encodable>::spec_size(m.food)), <Float as Encodable>::spec_size(m.food_saturation))
    }

    proof fn lemma_size_faithful(m: UpdateHealthView) {
        <Float as Encodable>::lemma_size_faithful(m.health);
        <VarInt as Encodable>::lemma_size_faithful(m.food);
        <Float as Encodable>::lemma_size_faithful(m.food_saturation);
        lemma_then_size(<Float as Encodable>::spec_encode(m.health), <Float as Encodable>::spec_size(m.health), <VarInt as Encodable>::spec_encode(m.food), <VarInt as Encodable>::spec_size(m.food));
        lemma_then_size(then_encode(<Float as Encodable>::spec_encode(m.health), <VarInt as Encodable>::spec_encode(m.food)), add_size_spec(<Float as Encodable>::spec_size(m.health), <VarInt as Encodable>::spec_size(m.food)), <Float as Encodable>::spec_encode(m.food_saturation), <Float as Encodable>::spec_size(m.food_saturation));
    }

    fn encode(&self, out: &mut Vec<u8>) -> (r: Result<(), CodecError>) {
        let ghost o0 = out@;
        let start = out.len();
        let ghost e0 = <Float as Encodable>::spec_encode(self.health.deep_view())->Ok_0;
        let ghost e1 = <VarInt as Encodable>::spec_encode(self.food.deep_view())->Ok_0;
        let ghost e2 = <Float as Encodable>::spec_encode(self.food_saturation.deep_view())->Ok_0;
        match self.health.encode(out) {
            Ok(_) => {},
            Err(e) => return Err(e),
        }
        match self.food.encode(out) {
            Ok(_) => {},
            Err(e) => {
                roll_back(out, Ghost(o0), Ghost(e0), start);
                return Err(e);
            },
        }
        proof {
            lemma_concat_assoc(o0, e0, e1);
        }
        match self.food_saturation.encode(out) {
            Ok(_) => {},
            Err(e) => {
                roll_back(out, Ghost(o0), Ghost(e0 + e1), start);
                return Err(e);
            },
        }
        proof {
            lemma_concat_assoc(o0, e0 + e1, e2);
        }
        Ok(())
    }

    fn size(&self) -> (r: Result<VarInt, CodecError>) {
        proof {
            <Float as Encodable>::lemma_size_faithful(self.health.deep_view());
            <VarInt as Encodable>::lemma_size_faithful(self.food.deep_view());
            <Float as Encodable>::lemma_size_faithful(self.food_saturation.deep_view());
        }
        let ghost w0 = <Float as Encodable>::spec_size(self.health.deep_view());
        let ghost w1 = <VarInt as Encodable>::spec_size(self.food.deep_view());
        let ghost w2 = <Float as Encodable>::spec_size(self.food_saturation.deep_view());
        let t0 = self.health.size();
        let t1 = add_size(t0, Ghost(w0), self.food.size(), Ghost(w1));
        let ghost c1 = add_size_spec(w0, w1);
        let t2 = add_size(t1, Ghost(c1), self.food_saturation.size(), Ghost(w2));
        t2
    }
}

impl Decodable for UpdateHealth {
    open spec fn spec_decode(bytes: Seq<u8>) -> Result<(UpdateHealthView, nat), CodecError> {
        match decode_at::<Float>(bytes, 0) {
            Err(e) => Err(e),
            Ok((health, n0)) => match decode_at::<VarInt>(bytes, n0) {
                Err(e) => Err(e),
                Ok((food, n1)) => match decode_at::<Float>(bytes, n0 + n1) {
                    Err(e) => Err(e),
                    Ok((food_saturation, n2)) => Ok((UpdateHealthView { health, food, food_saturation }, n0 + n1 + n2)),
                },
            },
        }
    }

    proof fn lemma_decode_len(bytes: Seq<u8>) {
        lemma_decode_at::<Float>(bytes, 0);
        <Float as Decodable>::lemma_decode_len(bytes.subrange((0) as int, bytes.len() as int));
        if let Ok((health, n0)) = decode_at::<Float>(bytes, 0) {
            lemma_decode_at::<VarInt>(bytes, n0);
            <VarInt as Decodable>::lemma_decode_len(bytes.subrange((n0) as int, bytes.len() as int));
            if let Ok((food, n1)) = decode_at::<VarInt>(bytes, n0) {
                lemma_decode_at::<Float>(bytes, n0 + n1);
                <Float as Decodable>::lemma_decode_len(bytes.subrange((n0 + n1) as int, bytes.len() as int));
            }
        }
    }

    fn decode(reader: &mut ByteReader) -> (r: Result<UpdateHealth, CodecError>) {
        let ghost r0 = *reader;
        let ghost rest0 = reader.rest();
        proof {
            ByteReader::lemma_rest_since(r0, *reader);
            lemma_decode_at::<Float>(rest0, (reader.pos() - r0.pos()) as nat);
        }
        let health = match <Float>::decode(reader) {
            Ok(v) => v,
            Err(e) => return Err(e),
        };
        proof {
            ByteReader::lemma_rest_since(r0, *reader);
            lemma_decode_at::<VarInt>(rest0, (reader.pos() - r0.pos()) as nat);
        }
        let food = match <VarInt>::decode(reader) {
            Ok(v) => v,
            Err(e) => return Err(e),
        };
        proof {
            ByteReader::lemma_rest_since(r0, *reader);
            lemma_decode_at::<Float>(rest0, (reader.pos() - r0.pos()) as nat);
        }
        let food_saturation = match <Float>::decode(reader) {
            Ok(v) => v,
            Err(e) => return Err(e),
        };
        Ok(UpdateHealth { health, food, food_saturation })
    }
}

impl Codec for UpdateHealth {
    open spec fn valid(m: UpdateHealthView) -> bool {
        &&& <Float as Codec>::valid(m.health)
        &&& <Float as Codec>::delimited()
        &&& <VarInt as Codec>::valid(m.food)
        &&& <VarInt as Codec>::delimited()
        &&& <Float as Codec>::valid(m.food_saturation)
    }

    open spec fn delimited() -> bool {
        <Float as Codec>::delimited()
    }

    proof fn lemma_round_trip(m: UpdateHealthView, rest: Seq<u8>) {
        let e0 = <Float as Encodable>::spec_encode(m.health)->Ok_0;
        let e1 = <VarInt as Encodable>::spec_encode(m.food)->Ok_0;
        let e2 = <Float as Encodable>::spec_encode(m.food_saturation)->Ok_0;
        let t2 = e2 + rest;
        let t1 = e1 + t2;
        let t0 = e0 + t1;
        assert(decode_at::<Float>(t0, (0) as nat) == Ok::<(<Float as DeepView>::V, nat), CodecError>((m.health, e0.len()))
            && <Float as Encodable>::spec_encode(m.health) == Ok::<Seq<u8>, CodecError>(e0)
            && decode_at::<VarInt>(t0, (e0.len()) as nat) == Ok::<(<VarInt as DeepView>::V, nat), CodecError>((m.food, e1.len()))
            && <VarInt as Encodable>::spec_encode(m.food) == Ok::<Seq<u8>, CodecError>(e1)
            && decode_at::<Float>(t0, (e0.len() + e1.len()) as nat) == Ok::<(<Float as DeepView>::V, nat), CodecError>((m.food_saturation, e2.len()))
            && <Float as Encodable>::spec_encode(m.food_saturation) == Ok::<Seq<u8>, CodecError>(e2)) by {
            lemma_subrange_all(t0);
            lemma_field_round_trip::<Float>(m.health, t0, (0) as nat, t1);
            lemma_field_round_trip::<VarInt>(m.food, t0, (e0.len()) as nat, t2);
            lemma_field_round_trip::<Float>(m.food_saturation, t0, (e0.len() + e1.len()) as nat, rest);
        }
        assert(e0 + e1 + e2 + rest == t0) by {
            lemma_concat_assoc(e0, e1, t2);
            lemma_concat_assoc(e0 + e1, e2, rest);
        }
        assert(Self::spec_encode(m) == Ok::<Seq<u8>, CodecError>(e0 + e1 + e2));
    }
}
/// The client-bound play message: scoreboard objective.
pub struct ScoreboardObjective {
    pub objective_name: ObjectiveName,
    pub mode: i8,
    pub objective_value: Option<ChatJson>,
    pub objective_type: Option<VarInt>,
}

/// The model of a `ScoreboardObjective`: each field by its model.
pub struct ScoreboardObjectiveView {
    pub objective_name: Seq<char>,
    pub mode: i8,
    pub objective_value: Option<Seq<char>>,
    pub objective_type: Option<i32>,
}

impl DeepView for ScoreboardObjective {
    type V = ScoreboardObjectiveView;

    open spec fn deep_view(&self) -> ScoreboardObjectiveView {
        ScoreboardObjectiveView {
            objective_name: self.objective_name.deep_view(),
            mode: self.mode.deep_view(),
            objective_value: self.objective_value.deep_view(),
            objective_type: self.objective_type.deep_view(),
        }
    }
}

impl Encodable for ScoreboardObjective {
    /// The fields in order, with no framing.
    open spec fn spec_encode(m: ScoreboardObjectiveView) -> Result<Seq<u8>, CodecError> {
        then_encode(then_encode(then_encode(<ObjectiveName as Encodable>::spec_encode(m.objective_name), <i8 as Encodable>::spec_encode(m.mode)), <Option<ChatJson> as Encodable>::spec_encode(m.objective_value)), <Option<VarInt> as Encodable>::spec_encode(m.objective_type))
    }

    /// The sum of the fields' sizes.
    open spec fn spec_size(m: ScoreboardObjectiveView) -> Result<nat, CodecError> {
        add_size_spec(add_size_spec(add_size_spec(<ObjectiveName as Encodable>::spec_size(m.objective_name), <i8 as Encodable>::spec_size(m.mode)), <Option<ChatJson> as Encodable>::spec_size(m.objective_value)), <Option<VarInt> as Encodable>::spec_size(m.objective_type))
    }

    proof fn lemma_size_faithful(m: ScoreboardObjectiveView) {
        <ObjectiveName as Encodable>::lemma_size_faithful(m.objective_name);
        <i8 as Encodable>::lemma_size_faithful(m.mode);
        <Option<ChatJson> as Encodable>::lemma_size_faithful(m.objective_value);
        <Option<VarInt> as Encodable>::lemma_size_faithful(m.objective_type);
        lemma_then_size(<ObjectiveName as Encodable>::spec_encode(m.objective_name), <ObjectiveName as Encodable>::spec_size(m.objective_name), <i8 as Encodable>::spec_encode(m.mode), <i8 as Encodable>::spec_size(m.mode));
        lemma_then_size(then_encode(<ObjectiveName as Encodable>::spec_encode(m.objective_name), <i8 as Encodable>::spec_encode(m.mode)), add_size_spec(<ObjectiveName as Encodable>::spec_size(m.objective_name), <i8 as Encodable>::spec_size(m.mode)), <Option<ChatJson> as Encodable>::spec_encode(m.objective_value), <Option<ChatJson> as Encodable>::spec_size(m.objective_value));
        lemma_then_size(then_encode(then_encode(<ObjectiveName as Encodable>::spec_encode(m.objective_name), <i8 as Encodable>::spec_encode(m.mode)), <Option<ChatJson> as Encodable>::spec_encode(m.objective_value)), add_size_spec(add_size_spec(<ObjectiveName as Encodable>::spec_size(m.objective_name), <i8 as Encodable>::spec_size(m.mode)), <Option<ChatJson> as Encodable>::spec_size(m.objective_value)), <Option<VarInt> as Encodable>::spec_encode(m.objective_type), <Option<VarInt> as Encodable>::spec_size(m.objective_type));
    }

    fn encode(&self, out: &mut Vec<u8>) -> (r: Result<(), CodecError>) {
        let ghost o0 = out@;
        let start = out.len();
        let ghost e0 = <ObjectiveName as Encodable>::spec_encode(self.objective_name.deep_view())->Ok_0;
        let ghost e1 = <i8 as Encodable>::spec_encode(self.mode.deep_view())->Ok_0;
        let ghost e2 = <Option<ChatJson> as Encodable>::spec_encode(self.objective_value.deep_view())->Ok_0;
        let ghost e3 = <Option<VarInt> as Encodable>::spec_encode(self.objective_type.deep_view())->Ok_0;
        match self.objective_name.encode(out) {
            Ok(_) => {},
            Err(e) => return Err(e),
        }
        match self.mode.encode(out) {
            Ok(_) => {},
            Err(e) => {
                roll_back(out, Ghost(o0), Ghost(e0), start);
                return Err(e);
            },
        }
        proof {
            lemma_concat_assoc(o0, e0, e1);
        }
        match self.objective_value.encode(out) {
            Ok(_) => {},
            Err(e) => {
                roll_back(out, Ghost(o0), Ghost(e0 + e1), start);
                return Err(e);
            },
        }
        proof {
            lemma_concat_assoc(o0, e0 + e1, e2);
        }
        match self.objective_type.encode(out) {
            Ok(_) => {},
            Err(e) => {
                roll_back(out, Ghost(o0), Ghost(e0 + e1 + e2), start);
                return Err(e);
            },
        }
        proof {
            lemma_concat_assoc(o0, e0 + e1 + e2, e3);
        }
        Ok(())
    }

    fn size(&self) -> (r: Result<VarInt, CodecError>) {
        proof {
            <ObjectiveName as Encodable>::lemma_size_faithful(self.objective_name.deep_view());
            <i8 as Encodable>::lemma_size_faithful(self.mode.deep_view());
            <Option<ChatJson> as Encodable>::lemma_size_faithful(self.objective_value.deep_view());
            <Option<VarInt> as Encodable>::lemma_size_faithful(self.objective_type.deep_view());
        }
        let ghost w0 = <ObjectiveName as Encodable>::spec_size(self.objective_name.deep_view());
        let ghost w1 = <i8 as Encodable>::spec_size(self.mode.deep_view());
        let ghost w2 = <Option<ChatJson> as Encodable>::spec_size(self.objective_value.deep_view());
        let ghost w3 = <Option<VarInt> as Encodable>::spec_size(self.objective_type.deep_view());
        let t0 = self.objective_name.size();
        let t1 = add_size(t0, Ghost(w0), self.mode.size(), Ghost(w1));
        let ghost c1 = add_size_spec(w0, w1);
        let t2 = add_size(t1, Ghost(c1), self.objective_value.size(), Ghost(w2));
        let ghost c2 = add_size_spec(c1, w2);
        let t3 = add_size(t2, Ghost(c2), self.objective_type.size(), Ghost(w3));
        t3
    }
}

impl Decodable for ScoreboardObjective {
    open spec fn spec_decode(bytes: Seq<u8>) -> Result<(ScoreboardObjectiveView, nat), CodecError> {
        match decode_at::<ObjectiveName>(bytes, 0) {
            Err(e) => Err(e),
            Ok((objective_name, n0)) => match decode_at::<i8>(bytes, n0) {
                Err(e) => Err(e),
                Ok((mode, n1)) => match decode_if::<ChatJson>((mode == 0 || mode == 1), bytes, n0 + n1) {
                    Err(e) => Err(e),
                    Ok((objective_value, n2)) => match decode_if::<VarInt>((mode == 0 || mode == 1), bytes, n0 + n1 + n2) {
                        Err(e) => Err(e),
                        Ok((objective_type, n3)) => Ok((ScoreboardObjectiveView { objective_name, mode, objective_value, objective_type }, n0 + n1 + n2 + n3)),
                    },
                },
            },
        }
    }

    proof fn lemma_decode_len(bytes: Seq<u8>) {
        lemma_decode_at::<ObjectiveName>(bytes, 0);
        <ObjectiveName as Decodable>::lemma_decode_len(bytes.subrange((0) as int, bytes.len() as int));
        if let Ok((objective_name, n0)) = decode_at::<ObjectiveName>(bytes, 0) {
            lemma_decode_at::<i8>(bytes, n0);
            <i8 as Decodable>::lemma_decode_len(bytes.subrange((n0) as int, bytes.len() as int));
            if let Ok((mode, n1)) = decode_at::<i8>(bytes, n0) {
                lemma_decode_if::<ChatJson>((mode == 0 || mode == 1), bytes, n0 + n1);
                if (mode == 0 || mode == 1) {
                    <ChatJson as Decodable>::lemma_decode_len(bytes.subrange((n0 + n1) as int, bytes.len() as int));
                }
                if let Ok((objective_value, n2)) = decode_if::<ChatJson>((mode == 0 || mode == 1), bytes, n0 + n1) {
                    lemma_decode_if::<VarInt>((mode == 0 || mode == 1), bytes, n0 + n1 + n2);
                    if (mode == 0 || mode == 1) {
                        <VarInt as Decodable>::lemma_decode_len(bytes.subrange((n0 + n1 + n2) as int, bytes.len() as int));
                    }
                }
            }
        }
    }

    fn decode(reader: &mut ByteReader) -> (r: Result<ScoreboardObjective, CodecError>) {
        let ghost r0 = *reader;
        let ghost rest0 = reader.rest();
        proof {
            ByteReader::lemma_rest_since(r0, *reader);
            lemma_decode_at::<ObjectiveName>(rest0, (reader.pos() - r0.pos()) as nat);
        }
        let objective_name = match <ObjectiveName>::decode(reader) {
            Ok(v) => v,
            Err(e) => return Err(e),
        };
        proof {
            ByteReader::lemma_rest_since(r0, *reader);
            lemma_decode_at::<i8>(rest0, (reader.pos() - r0.pos()) as nat);
        }
        let mode = match <i8>::decode(reader) {
            Ok(v) => v,
            Err(e) => return Err(e),
        };
        proof {
            ByteReader::lemma_rest_since(r0, *reader);
            lemma_decode_if::<ChatJson>((mode == 0 || mode == 1), rest0, (reader.pos() - r0.pos()) as nat);
        }
        let objective_value = if (mode == 0 || mode == 1) {
            match <ChatJson>::decode(reader) {
                Ok(v) => Some(v),
                Err(e) => return Err(e),
            }
        } else {
            None
        };
        proof {
            ByteReader::lemma_rest_since(r0, *reader);
            lemma_decode_if::<VarInt>((mode == 0 || mode == 1), rest0, (reader.pos() - r0.pos()) as nat);
        }
        let objective_type = if (mode == 0 || mode == 1) {
            match <VarInt>::decode(reader) {
                Ok(v) => Some(v),
                Err(e) => return Err(e),
            }
        } else {
            None
        };
        Ok(ScoreboardObjective { objective_name, mode, objective_value, objective_type })
    }
}

impl Codec for ScoreboardObjective {
    open spec fn valid(m: ScoreboardObjectiveView) -> bool {
        &&& <ObjectiveName as Codec>::valid(m.objective_name)
        &&& <ObjectiveName as Codec>::delimited()
        &&& <i8 as Codec>::valid(m.mode)
        &&& <i8 as Codec>::delimited()
        &&& if (m.mode == 0 || m.mode == 1) {
            m.objective_value matches Some(v) && <ChatJson as Codec>::valid(v)
        } else {
            m.objective_value is None
        }
        &&& <ChatJson as Codec>::delimited()
        &&& if (m.mode == 0 || m.mode == 1) {
            m.objective_type matches Some(v) && <VarInt as Codec>::valid(v)
        } else {
            m.objective_type is None
        }
    }

    open spec fn delimited() -> bool {
        <VarInt as Codec>::delimited()
    }

    proof fn lemma_round_trip(m: ScoreboardObjectiveView, rest: Seq<u8>) {
        let e0 = <ObjectiveName as Encodable>::spec_encode(m.objective_name)->Ok_0;
        let e1 = <i8 as Encodable>::spec_encode(m.mode)->Ok_0;
        let e2 = <Option<ChatJson> as Encodable>::spec_encode(m.objective_value)->Ok_0;
        let e3 = <Option<VarInt> as Encodable>::spec_encode(m.objective_type)->Ok_0;
        let t3 = e3 + rest;
        let t2 = e2 + t3;
        let t1 = e1 + t2;
        let t0 = e0 + t1;
        assert(decode_at::<ObjectiveName>(t0, (0) as nat) == Ok::<(<ObjectiveName as DeepView>::V, nat), CodecError>((m.objective_name, e0.len()))
            && <ObjectiveName as Encodable>::spec_encode(m.objective_name) == Ok::<Seq<u8>, CodecError>(e0)
            && decode_at::<i8>(t0, (e0.len()) as nat) == Ok::<(<i8 as DeepView>::V, nat), CodecError>((m.mode, e1.len()))
            && <i8 as Encodable>::spec_encode(m.mode) == Ok::<Seq<u8>, CodecError>(e1)
            && decode_if::<ChatJson>((m.mode == 0 || m.mode == 1), t0, (e0.len() + e1.len()) as nat) == Ok::<(Option<<ChatJson as DeepView>::V>, nat), CodecError>((m.objective_value, e2.len()))
            && <Option<ChatJson> as Encodable>::spec_encode(m.objective_value) == Ok::<Seq<u8>, CodecError>(e2)
            && decode_if::<VarInt>((m.mode == 0 || m.mode == 1), t0, (e0.len() + e1.len() + e2.len()) as nat) == Ok::<(Option<<VarInt as DeepView>::V>, nat), CodecError>((m.objective_type, e3.len()))
            && <Option<VarInt> as Encodable>::spec_encode(m.objective_type) == Ok::<Seq<u8>, CodecError>(e3)) by {
            lemma_subrange_all(t0);
            lemma_field_round_trip::<ObjectiveName>(m.objective_name, t0, (0) as nat, t1);
            lemma_field_round_trip::<i8>(m.mode, t0, (e0.len()) as nat, t2);
            lemma_field_if_round_trip::<ChatJson>((m.mode == 0 || m.mode == 1), m.objective_value, t0, (e0.len() + e1.len()) as nat, t3);
            lemma_field_if_round_trip::<VarInt>((m.mode == 0 || m.mode == 1), m.objective_type, t0, (e0.len() + e1.len() + e2.len()) as nat, rest);
        }
        assert(e0 + e1 + e2 + e3 + rest == t0) by {
            lemma_concat_assoc(e0, e1, t2);
            lemma_concat_assoc(e0 + e1, e2, t3);
            lemma_concat_assoc(e0 + e1 + e2, e3, rest);
        }
        assert(Self::spec_encode(m) == Ok::<Seq<u8>, CodecError>(e0 + e1 + e2 + e3));
    }
}
/// The client-bound play message: set passengers.
pub struct SetPassengers {
    pub entity_id: VarInt,
    pub passengers: (VarInt, Vec<VarInt>),
}

/// The model of a `SetPassengers`: each field by its model.
pub struct SetPassengersView {
    pub entity_id: i32,
    pub passengers: (i32, Seq<i32>),
}

impl DeepView for SetPassengers {
    type V = SetPassengersView;

    open spec fn deep_view(&self) -> SetPassengersView {
        SetPassengersView {
            entity_id: self.entity_id.deep_view(),
            passengers: self.passengers.deep_view(),
        }
    }
}

impl Encodable for SetPassengers {
    /// The fields in order, with no framing.
    open spec fn spec_encode(m: SetPassengersView) -> Result<Seq<u8>, CodecError> {
        then_encode(<VarInt as Encodable>::spec_encode(m.entity_id), <(VarInt, Vec<VarInt>) as Encodable>::spec_encode(m.passengers))
    }

    /// The sum of the fields' sizes.
    open spec fn spec_size(m: SetPassengersView) -> Result<nat, CodecError> {
        add_size_spec(<VarInt as Encodable>::spec_size(m.entity_id), <(VarInt, Vec<VarInt>) as Encodable>::spec_size(m.passengers))
    }

    proof fn lemma_size_faithful(m: SetPassengersView) {
        <VarInt as Encodable>::lemma_size_faithful(m.entity_id);
        <(VarInt, Vec<VarInt>) as Encodable>::lemma_size_faithful(m.passengers);
        lemma_then_size(<VarInt as Encodable>::spec_encode(m.entity_id), <VarInt as Encodable>::spec_size(m.entity_id), <(VarInt, Vec<VarInt>) as Encodable>::spec_encode(m.passengers), <(VarInt, Vec<VarInt>) as Encodable>::spec_size(m.passengers));
    }

    fn encode(&self, out: &mut Vec<u8>) -> (r: Result<(), CodecError>) {
        let ghost o0 = out@;
        let start = out.len();
        let ghost e0 = <VarInt as Encodable>::spec_encode(self.entity_id.deep_view())->Ok_0;
        let ghost e1 = <(VarInt, Vec<VarInt>) as Encodable>::spec_encode(self.passengers.deep_view())->Ok_0;
        match self.entity_id.encode(out) {
            Ok(_) => {},
            Err(e) => return Err(e),
        }
        match self.passengers.encode(out) {
            Ok(_) => {},
            Err(e) => {
                roll_back(out, Ghost(o0), Ghost(e0), start);
                return Err(e);
            },
        }
        proof {
            lemma_concat_assoc(o0, e0, e1);
        }
        Ok(())
    }

    fn size(&self) -> (r: Result<VarInt, CodecError>) {
        proof {
            <VarInt as Encodable>::lemma_size_faithful(self.entity_id.deep_view());
            <(VarInt, Vec<VarInt>) as Encodable>::lemma_size_faithful(self.passengers.deep_view());
        }
        let ghost w0 = <VarInt as Encodable>::spec_size(self.entity_id.deep_view());
        let ghost w1 = <(VarInt, Vec<VarInt>) as Encodable>::spec_size(self.passengers.deep_view());
        let t0 = self.entity_id.size();
        let t1 = add_size(t0, Ghost(w0), self.passengers.size(), Ghost(w1));
        t1
    }
}

impl Decodable for SetPassengers {
    open spec fn spec_decode(bytes: Seq<u8>) -> Result<(SetPassengersView, nat), CodecError> {
        match decode_at::<VarInt>(bytes, 0) {
            Err(e) => Err(e),
            Ok((entity_id, n0)) => match decode_at::<(VarInt, Vec<VarInt>)>(bytes, n0) {
                Err(e) => Err(e),
                Ok((passengers, n1)) => Ok((SetPassengersView { entity_id, passengers }, n0 + n1)),
            },
        }
    }

    proof fn lemma_decode_len(bytes: Seq<u8>) {
        lemma_decode_at::<VarInt>(bytes, 0);
        <VarInt as Decodable>::lemma_decode_len(bytes.subrange((0) as int, bytes.len() as int));
        if let Ok((entity_id, n0)) = decode_at::<VarInt>(bytes, 0) {
            lemma_decode_at::<(VarInt, Vec<VarInt>)>(bytes, n0);
            <(VarInt, Vec<VarInt>) as Decodable>::lemma_decode_len(bytes.subrange((n0) as int, bytes.len() as int));
        }
    }

    fn decode(reader: &mut ByteReader) -> (r: Result<SetPassengers, CodecError>) {
        let ghost r0 = *reader;
        let ghost rest0 = reader.rest();
        proof {
            ByteReader::lemma_rest_since(r0, *reader);
            lemma_decode_at::<VarInt>(rest0, (reader.pos() - r0.pos()) as nat);
        }
        let entity_id = match <VarInt>::decode(reader) {
            Ok(v) => v,
            Err(e) => return Err(e),
        };
        proof {
            ByteReader::lemma_rest_since(r0, *reader);
            lemma_decode_at::<(VarInt, Vec<VarInt>)>(rest0, (reader.pos() - r0.pos()) as nat);
        }
        let passengers = match <(VarInt, Vec<VarInt>)>::decode(reader) {
            Ok(v) => v,
            Err(e) => return Err(e),
        };
        Ok(SetPassengers { entity_id, passengers })
    }
}

impl Codec for SetPassengers {
    open spec fn valid(m: SetPassengersView) -> bool {
        &&& <VarInt as Codec>::valid(m.entity_id)
        &&& <VarInt as Codec>::delimited()
        &&& <(VarInt, Vec<VarInt>) as Codec>::valid(m.passengers)
    }

    open spec fn delimited() -> bool {
        <(VarInt, Vec<VarInt>) as Codec>::delimited()
    }

    proof fn lemma_round_trip(m: SetPassengersView, rest: Seq<u8>) {
        let e0 = <VarInt as Encodable>::spec_encode(m.entity_id)->Ok_0;
        let e1 = <(VarInt, Vec<VarInt>) as Encodable>::spec_encode(m.passengers)->Ok_0;
        let t1 = e1 + rest;
        let t0 = e0 + t1;
        assert(decode_at::<VarInt>(t0, (0) as nat) == Ok::<(<VarInt as DeepView>::V, nat), CodecError>((m.entity_id, e0.len()))
            && <VarInt as Encodable>::spec_encode(m.entity_id) == Ok::<Seq<u8>, CodecError>(e0)
            && decode_at::<(VarInt, Vec<VarInt>)>(t0, (e0.len()) as nat) == Ok::<(<(VarInt, Vec<VarInt>) as DeepView>::V, nat), CodecError>((m.passengers, e1.len()))
            && <(VarInt, Vec<VarInt>) as Encodable>::spec_encode(m.passengers) == Ok::<Seq<u8>, CodecError>(e1)) by {
            lemma_subrange_all(t0);
            lemma_field_round_trip::<VarInt>(m.entity_id, t0, (0) as nat, t1);
            lemma_field_round_trip::<(VarInt, Vec<VarInt>)>(m.passengers, t0, (e0.len()) as nat, rest);
        }
        assert(e0 + e1 + rest == t0) by {
            lemma_concat_assoc(e0, e1, rest);
        }
        assert(Self::spec_encode(m) == Ok::<Seq<u8>, CodecError>(e0 + e1));
    }
}
/// The client-bound play message: update score.
pub struct UpdateScore {
    pub entity_name: ScoreName,
    pub action: i8,
    pub objective_name: ObjectiveName,
    pub value: Option<VarInt>,
}

/// The model of a `UpdateScore`: each field by its model.
pub struct UpdateScoreView {
    pub entity_name: Seq<char>,
    pub action: i8,
    pub objective_name: Seq<char>,
    pub value: Option<i32>,
}

impl DeepView for UpdateScore {
    type V = UpdateScoreView;

    open spec fn deep_view(&self) -> UpdateScoreView {
        UpdateScoreView {
            entity_name: self.entity_name.deep_view(),
            action: self.action.deep_view(),
            objective_name: self.objective_name.deep_view(),
            value: self.value.deep_view(),
        }
    }
}

impl Encodable for UpdateScore {
    /// The fields in order, with no framing.
    open spec fn spec_encode(m: UpdateScoreView) -> Result<Seq<u8>, CodecError> {
        then_encode(then_encode(then_encode(<ScoreName as Encodable>::spec_encode(m.entity_name), <i8 as Encodable>::spec_encode(m.action)), <ObjectiveName as Encodable>::spec_encode(m.objective_name)), <Option<VarInt> as Encodable>::spec_encode(m.value))
    }

    /// The sum of the fields' sizes.
    open spec fn spec_size(m: UpdateScoreView) -> Result<nat, CodecError> {
        add_size_spec(add_size_spec(add_size_spec(<ScoreName as Encodable>::spec_size(m.entity_name), <i8 as Encodable>::spec_size(m.action)), <ObjectiveName as Encodable>::spec_size(m.objective_name)), <Option<VarInt> as Encodable>::spec_size(m.value))
    }

    proof fn lemma_size_faithful(m: UpdateScoreView) {
        <ScoreName as Encodable>::lemma_size_faithful(m.entity_name);
        <i8 as Encodable>::lemma_size_faithful(m.action);
        <ObjectiveName as Encodable>::lemma_size_faithful(m.objective_name);
        <Option<VarInt> as Encodable>::lemma_size_faithful(m.value);
        lemma_then_size(<ScoreName as Encodable>::spec_encode(m.entity_name), <ScoreName as Encodable>::spec_size(m.entity_name), <i8 as Encodable>::spec_encode(m.action), <i8 as Encodable>::spec_size(m.action));
        lemma_then_size(then_encode(<ScoreName as Encodable>::spec_encode(m.entity_name), <i8 as Encodable>::spec_encode(m.action)), add_size_spec(<ScoreName as Encodable>::spec_size(m.entity_name), <i8 as Encodable>::spec_size(m.action)), <ObjectiveName as Encodable>::spec_encode(m.objective_name), <ObjectiveName as Encodable>::spec_size(m.objective_name));
        lemma_then_size(then_encode(then_encode(<ScoreName as Encodable>::spec_encode(m.entity_name), <i8 as Encodable>::spec_encode(m.action)), <ObjectiveName as Encodable>::spec_encode(m.objective_name)), add_size_spec(add_size_spec(<ScoreName as Encodable>::spec_size(m.entity_name), <i8 as Encodable>::spec_size(m.action)), <ObjectiveName as Encodable>::spec_size(m.objective_name)), <Option<VarInt> as Encodable>::spec_encode(m.value), <Option<VarInt> as Encodable>::spec_size(m.value));
    }

    fn encode(&self, out: &mut Vec<u8>) -> (r: Result<(), CodecError>) {
        let ghost o0 = out@;
        let start = out.len();
        let ghost e0 = <ScoreName as Encodable>::spec_encode(self.entity_name.deep_view())->Ok_0;
        let ghost e1 = <i8 as Encodable>::spec_encode(self.action.deep_view())->Ok_0;
        let ghost e2 = <ObjectiveName as Encodable>::spec_encode(self.objective_name.deep_view())->Ok_0;
        let ghost e3 = <Option<VarInt> as Encodable>::spec_encode(self.value.deep_view())->Ok_0;
        match self.entity_name.encode(out) {
            Ok(_) => {},
            Err(e) => return Err(e),
        }
        match self.action.encode(out) {
            Ok(_) => {},
            Err(e) => {
                roll_back(out, Ghost(o0), Ghost(e0), start);
                return Err(e);
            },
        }
        proof {
            lemma_concat_assoc(o0, e0, e1);
        }
        match self.objective_name.encode(out) {
            Ok(_) => {},
            Err(e) => {
                roll_back(out, Ghost(o0), Ghost(e0 + e1), start);
                return Err(e);
            },
        }
        proof {
            lemma_concat_assoc(o0, e0 + e1, e2);
        }
        match self.value.encode(out) {
            Ok(_) => {},
            Err(e) => {
                roll_back(out, Ghost(o0), Ghost(e0 + e1 + e2), start);
                return Err(e);
            },
        }
        proof {
            lemma_concat_assoc(o0, e0 + e1 + e2, e3);
        }
        Ok(())
    }

    fn size(&self) -> (r: Result<VarInt, CodecError>) {
        proof {
            <ScoreName as Encodable>::lemma_size_faithful(self.entity_name.deep_view());
            <i8 as Encodable>::lemma_size_faithful(self.action.deep_view());
            <ObjectiveName as Encodable>::lemma_size_faithful(self.objective_name.deep_view());
            <Option<VarInt> as Encodable>::lemma_size_faithful(self.value.deep_view());
        }
        let ghost w0 = <ScoreName as Encodable>::spec_size(self.entity_name.deep_view());
        let ghost w1 = <i8 as Encodable>::spec_size(self.action.deep_view());
        let ghost w2 = <ObjectiveName as Encodable>::spec_size(self.objective_name.deep_view());
        let ghost w3 = <Option<VarInt> as Encodable>::spec_size(self.value.deep_view());
        let t0 = self.entity_name.size();
        let t1 = add_size(t0, Ghost(w0), self.action.size(), Ghost(w1));
        let ghost c1 = add_size_spec(w0, w1);
        let t2 = add_size(t1, Ghost(c1), self.objective_name.size(), Ghost(w2));
        let ghost c2 = add_size_spec(c1, w2);
        let t3 = add_size(t2, Ghost(c2), self.value.size(), Ghost(w3));
        t3
    }
}

impl Decodable for UpdateScore {
    open spec fn spec_decode(bytes: Seq<u8>) -> Result<(UpdateScoreView, nat), CodecError> {
        match decode_at::<ScoreName>(bytes, 0) {
            Err(e) => Err(e),
            Ok((entity_name, n0)) => match decode_at::<i8>(bytes, n0) {
                Err(e) => Err(e),
                Ok((action, n1)) => match decode_at::<ObjectiveName>(bytes, n0 + n1) {
                    Err(e) => Err(e),
                    Ok((objective_name, n2)) => match decode_if::<VarInt>(action != 1, bytes, n0 + n1 + n2) {
                        Err(e) => Err(e),
                        Ok((value, n3)) => Ok((UpdateScoreView { entity_name, action, objective_name, value }, n0 + n1 + n2 + n3)),
                    },
                },
            },
        }
    }

    proof fn lemma_decode_len(bytes: Seq<u8>) {
        lemma_decode_at::<ScoreName>(bytes, 0);
        <ScoreName as Decodable>::lemma_decode_len(bytes.subrange((0) as int, bytes.len() as int));
        if let Ok((entity_name, n0)) = decode_at::<ScoreName>(bytes, 0) {
            lemma_decode_at::<i8>(bytes, n0);
            <i8 as Decodable>::lemma_decode_len(bytes.subrange((n0) as int, bytes.len() as int));
            if let Ok((action, n1)) = decode_at::<i8>(bytes, n0) {
                lemma_decode_at::<ObjectiveName>(bytes, n0 + n1);
                <ObjectiveName as Decodable>::lemma_decode_len(bytes.subrange((n0 + n1) as int, bytes.len() as int));
                if let Ok((objective_name, n2)) = decode_at::<ObjectiveName>(bytes, n0 + n1) {
                    lemma_decode_if::<VarInt>(action != 1, bytes, n0 + n1 + n2);
                    if action != 1 {
                        <VarInt as Decodable>::lemma_decode_len(bytes.subrange((n0 + n1 + n2) as int, bytes.len() as int));
                    }
                }
            }
        }
    }

    fn decode(reader: &mut ByteReader) -> (r: Result<UpdateScore, CodecError>) {
        let ghost r0 = *reader;
        let ghost rest0 = reader.rest();
        proof {
            ByteReader::lemma_rest_since(r0, *reader);
            lemma_decode_at::<ScoreName>(rest0, (reader.pos() - r0.pos()) as nat);
        }
        let entity_name = match <ScoreName>::decode(reader) {
            Ok(v) => v,
            Err(e) => return Err(e),
        };
        proof {
            ByteReader::lemma_rest_since(r0, *reader);
            lemma_decode_at::<i8>(rest0, (reader.pos() - r0.pos()) as nat);
        }
        let action = match <i8>::decode(reader) {
            Ok(v) => v,
            Err(e) => return Err(e),
        };
        proof {
            ByteReader::lemma_rest_since(r0, *reader);
            lemma_decode_at::<ObjectiveName>(rest0, (reader.pos() - r0.pos()) as nat);
        }
        let objective_name = match <ObjectiveName>::decode(reader) {
            Ok(v) => v,
            Err(e) => return Err(e),
        };
        proof {
            ByteReader::lemma_rest_since(r0, *reader);
            lemma_decode_if::<VarInt>(action != 1, rest0, (reader.pos() - r0.pos()) as nat);
        }
        let value = if action != 1 {
            match <VarInt>::decode(reader) {
                Ok(v) => Some(v),
                Err(e) => return Err(e),
            }
        } else {
            None
        };
        Ok(UpdateScore { entity_name, action, objective_name, value })
    }
}

impl Codec for UpdateScore {
    open spec fn valid(m: UpdateScoreView) -> bool {
        &&& <ScoreName as Codec>::valid(m.entity_name)
        &&& <ScoreName as Codec>::delimited()
        &&& <i8 as Codec>::valid(m.action)
        &&& <i8 as Codec>::delimited()
        &&& <ObjectiveName as Codec>::valid(m.objective_name)
        &&& <ObjectiveName as Codec>::delimited()
        &&& if m.action != 1 {
            m.value matches Some(v) && <VarInt as Codec>::valid(v)
        } else {
            m.value is None
        }
    }

    open spec fn delimited() -> bool {
        <VarInt as Codec>::delimited()
    }

    proof fn lemma_round_trip(m: UpdateScoreView, rest: Seq<u8>) {
        let e0 = <ScoreName as Encodable>::spec_encode(m.entity_name)->Ok_0;
        let e1 = <i8 as Encodable>::spec_encode(m.action)->Ok_0;
        let e2 = <ObjectiveName as Encodable>::spec_encode(m.objective_name)->Ok_0;
        let e3 = <Option<VarInt> as Encodable>::spec_encode(m.value)->Ok_0;
        let t3 = e3 + rest;
        let t2 = e2 + t3;
        let t1 = e1 + t2;
        let t0 = e0 + t1;
        assert(decode_at::<ScoreName>(t0, (0) as nat) == Ok::<(<ScoreName as DeepView>::V, nat), CodecError>((m.entity_name, e0.len()))
            && <ScoreName as Encodable>::spec_encode(m.entity_name) == Ok::<Seq<u8>, CodecError>(e0)
            && decode_at::<i8>(t0, (e0.len()) as nat) == Ok::<(<i8 as DeepView>::V, nat), CodecError>((m.action, e1.len()))
            && <i8 as Encodable>::spec_encode(m.action) == Ok::<Seq<u8>, CodecError>(e1)
            && decode_at::<ObjectiveName>(t0, (e0.len() + e1.len()) as nat) == Ok::<(<ObjectiveName as DeepView>::V, nat), CodecError>((m.objective_name, e2.len()))
            && <ObjectiveName as Encodable>::spec_encode(m.objective_name) == Ok::<Seq<u8>, CodecError>(e2)
            && decode_if::<VarInt>(m.action != 1, t0, (e0.len() + e1.len() + e2.len()) as nat) == Ok::<(Option<<VarInt as DeepView>::V>, nat), CodecError>((m.value, e3.len()))
            && <Option<VarInt> as Encodable>::spec_encode(m.value) == Ok::<Seq<u8>, CodecError>(e3)) by {
            lemma_subrange_all(t0);
            lemma_field_round_trip::<ScoreName>(m.entity_name, t0, (0) as nat, t1);
            lemma_field_round_trip::<i8>(m.action, t0, (e0.len()) as nat, t2);
            lemma_field_round_trip::<ObjectiveName>(m.objective_name, t0, (e0.len() + e1.len()) as nat, t3);
            lemma_field_if_round_trip::<VarInt>(m.action != 1, m.value, t0, (e0.len() + e1.len() + e2.len()) as nat, rest);
        }
        assert(e0 + e1 + e2 + e3 + rest == t0) by {
            lemma_concat_assoc(e0, e1, t2);
            lemma_concat_assoc(e0 + e1, e2, t3);
            lemma_concat_assoc(e0 + e1 + e2, e3, rest);
        }
        assert(Self::spec_encode(m) == Ok::<Seq<u8>, CodecError>(e0 + e1 + e2 + e3));
    }
}
/// The client-bound play message: set title subtitle.
pub struct SetTitleSubtitle {
    pub subtitle_text: ChatJson,
}

/// The model of a `SetTitleSubtitle`: each field by its model.
pub struct SetTitleSubtitleView {
    pub subtitle_text: Seq<char>,
}

impl DeepView for SetTitleSubtitle {
    type V = SetTitleSubtitleView;

    open spec fn deep_view(&self) -> SetTitleSubtitleView {
        SetTitleSubtitleView {
            subtitle_text: self.subtitle_text.deep_view(),
        }
    }
}

impl Encodable for SetTitleSubtitle {
    /// The fields in order, with no framing.
    open spec fn spec_encode(m: SetTitleSubtitleView) -> Result<Seq<u8>, CodecError> {
        <ChatJson as Encodable>::spec_encode(m.subtitle_text)
    }

    /// The sum of the fields' sizes.
    open spec fn spec_size(m: SetTitleSubtitleView) -> Result<nat, CodecError> {
        <ChatJson as Encodable>::spec_size(m.subtitle_text)
    }

    proof fn lemma_size_faithful(m: SetTitleSubtitleView) {
        <ChatJson as Encodable>::lemma_size_faithful(m.subtitle_text);
    }

    fn encode(&self, out: &mut Vec<u8>) -> (r: Result<(), CodecError>) {
        self.subtitle_text.encode(out)
    }

    fn size(&self) -> (r: Result<VarInt, CodecError>) {
        self.subtitle_text.size()
    }
}

impl Decodable for SetTitleSubtitle {
    open spec fn spec_decode(bytes: Seq<u8>) -> Result<(SetTitleSubtitleView, nat), CodecError> {
        match decode_at::<ChatJson>(bytes, 0) {
            Err(e) => Err(e),
            Ok((subtitle_text, n0)) => Ok((SetTitleSubtitleView { subtitle_text }, n0)),
        }
    }

    proof fn lemma_decode_len(bytes: Seq<u8>) {
        lemma_decode_at::<ChatJson>(bytes, 0);
        <ChatJson as Decodable>::lemma_decode_len(bytes.subrange((0) as int, bytes.len() as int));
    }

    fn decode(reader: &mut ByteReader) -> (r: Result<SetTitleSubtitle, CodecError>) {
        let ghost r0 = *reader;
        let ghost rest0 = reader.rest();
        proof {
            ByteReader::lemma_rest_since(r0, *reader);
            lemma_decode_at::<ChatJson>(rest0, (reader.pos() - r0.pos()) as nat);
        }
        let subtitle_text = match <ChatJson>::decode(reader) {
            Ok(v) => v,
            Err(e) => return Err(e),
        };
        Ok(SetTitleSubtitle { subtitle_text })
    }
}

impl Codec for SetTitleSubtitle {
    open spec fn valid(m: SetTitleSubtitleView) -> bool {
        &&& <ChatJson as Codec>::valid(m.subtitle_text)
    }

    open spec fn delimited() -> bool {
        <ChatJson as Codec>::delimited()
    }

    proof fn lemma_round_trip(m: SetTitleSubtitleView, rest: Seq<u8>) {
        let e0 = <ChatJson as Encodable>::spec_encode(m.subtitle_text)->Ok_0;
        let t0 = e0 + rest;
        assert(decode_at::<ChatJson>(t0, (0) as nat) == Ok::<(<ChatJson as DeepView>::V, nat), CodecError>((m.subtitle_text, e0.len()))
            && <ChatJson as Encodable>::spec_encode(m.subtitle_text) == Ok::<Seq<u8>, CodecError>(e0)) by {
            lemma_subrange_all(t0);
            lemma_field_round_trip::<ChatJson>(m.subtitle_text, t0, (0) as nat, rest);
        }
    }
}
/// The client-bound play message: time update.
pub struct TimeUpdate {
    pub world_age: i64,
    pub time_of_date: i64,
}

/// The model of a `TimeUpdate`: each field by its model.
pub struct TimeUpdateView {
    pub world_age: i64,
    pub time_of_date: i64,
}

impl DeepView for TimeUpdate {
    type V = TimeUpdateView;

    open spec fn deep_view(&self) -> TimeUpdateView {
        TimeUpdateView {
            world_age: self.world_age.deep_view(),
            time_of_date: self.time_of_date.deep_view(),
        }
    }
}

impl Encodable for TimeUpdate {
    /// The fields in order, with no framing.
    open spec fn spec_encode(m: TimeUpdateView) -> Result<Seq<u8>, CodecError> {
        then_encode(<i64 as Encodable>::spec_encode(m.world_age), <i64 as Encodable>::spec_encode(m.time_of_date))
    }

    /// The sum of the fields' sizes.
    open spec fn spec_size(m: TimeUpdateView) -> Result<nat, CodecError> {
        add_size_spec(<i64 as Encodable>::spec_size(m.world_age), <i64 as Encodable>::spec_size(m.time_of_date))
    }

    proof fn lemma_size_faithful(m: TimeUpdateView) {
        <i64 as Encodable>::lemma_size_faithful(m.world_age);
        <i64 as Encodable>::lemma_size_faithful(m.time_of_date);
        lemma_then_size(<i64 as Encodable>::spec_encode(m.world_age), <i64 as Encodable>::spec_size(m.world_age), <i64 as Encodable>::spec_encode(m.time_of_date), <i64 as Encodable>::spec_size(m.time_of_date));
    }

    fn encode(&self, out: &mut Vec<u8>) -> (r: Result<(), CodecError>) {
        let ghost o0 = out@;
        let start = out.len();
        let ghost e0 = <i64 as Encodable>::spec_encode(self.world_age.deep_view())->Ok_0;
        let ghost e1 = <i64 as Encodable>::spec_encode(self.time_of_date.deep_view())->Ok_0;
        match self.world_age.encode(out) {
            Ok(_) => {},
            Err(e) => return Err(e),
        }
        match self.time_of_date.encode(out) {
            Ok(_) => {},
            Err(e) => {
                roll_back(out, Ghost(o0), Ghost(e0), start);
                return Err(e);
            },
        }
        proof {
            lemma_concat_assoc(o0, e0, e1);
        }
        Ok(())
    }

    fn size(&self) -> (r: Result<VarInt, CodecError>) {
        proof {
            <i64 as Encodable>::lemma_size_faithful(self.world_age.deep_view());
            <i64 as Encodable>::lemma_size_faithful(self.time_of_date.deep_view());
        }
        let ghost w0 = <i64 as Encodable>::spec_size(self.world_age.deep_view());
        let ghost w1 = <i64 as Encodable>::spec_size(self.time_of_date.deep_view());
        let t0 = self.world_age.size();
        let t1 = add_size(t0, Ghost(w0), self.time_of_date.size(), Ghost(w1));
        t1
    }
}

impl Decodable for TimeUpdate {
    open spec fn spec_decode(bytes: Seq<u8>) -> Result<(TimeUpdateView, nat), CodecError> {
        match decode_at::<i64>(bytes, 0) {
            Err(e) => Err(e),
            Ok((world_age, n0)) => match decode_at::<i64>(bytes, n0) {
                Err(e) => Err(e),
                Ok((time_of_date, n1)) => Ok((TimeUpdateView { world_age, time_of_date }, n0 + n1)),
            },
        }
    }

    proof fn lemma_decode_len(bytes: Seq<u8>) {
        lemma_decode_at::<i64>(bytes, 0);
        <i64 as Decodable>::lemma_decode_len(bytes.subrange((0) as int, bytes.len() as int));
        if let Ok((world_age, n0)) = decode_at::<i64>(bytes, 0) {
            lemma_decode_at::<i64>(bytes, n0);
            <i64 as Decodable>::lemma_decode_len(bytes.subrange((n0) as int, bytes.len() as int));
        }
    }

    fn decode(reader: &mut ByteReader) -> (r: Result<TimeUpdate, CodecError>) {
        let ghost r0 = *reader;
        let ghost rest0 = reader.rest();
        proof {
            ByteReader::lemma_rest_since(r0, *reader);
            lemma_decode_at::<i64>(rest0, (reader.pos() - r0.pos()) as nat);
        }
        let world_age = match <i64>::decode(reader) {
            Ok(v) => v,
            Err(e) => return Err(e),
        };
        proof {
            ByteReader::lemma_rest_since(r0, *reader);
            lemma_decode_at::<i64>(rest0, (reader.pos() - r0.pos()) as nat);
        }
        let time_of_date = match <i64>::decode(reader) {
            Ok(v) => v,
            Err(e) => return Err(e),
        };
        Ok(TimeUpdate { world_age, time_of_date })
    }
}

impl Codec for TimeUpdate {
    open spec fn valid(m: TimeUpdateView) -> bool {
        &&& <i64 as Codec>::valid(m.world_age)
        &&& <i64 as Codec>::delimited()
        &&& <i64 as Codec>::valid(m.time_of_date)
    }

    open spec fn delimited() -> bool {
        <i64 as Codec>::delimited()
    }

    proof fn lemma_round_trip(m: TimeUpdateView, rest: Seq<u8>) {
        let e0 = <i64 as Encodable>::spec_encode(m.world_age)->Ok_0;
        let e1 = <i64 as Encodable>::spec_encode(m.time_of_date)->Ok_0;
        let t1 = e1 + rest;
        let t0 = e0 + t1;
        assert(decode_at::<i64>(t0, (0) as nat) == Ok::<(<i64 as DeepView>::V, nat), CodecError>((m.world_age, e0.len()))
            && <i64 as Encodable>::spec_encode(m.world_age) == Ok::<Seq<u8>, CodecError>(e0)
            && decode_at::<i64>(t0, (e0.len()) as nat) == Ok::<(<i64 as DeepView>::V, nat), CodecError>((m.time_of_date, e1.len()))
            && <i64 as Encodable>::spec_encode(m.time_of_date) == Ok::<Seq<u8>, CodecError>(e1)) by {
            lemma_subrange_all(t0);
            lemma_field_round_trip::<i64>(m.world_age, t0, (0) as nat, t1);
            lemma_field_round_trip::<i64>(m.time_of_date, t0, (e0.len()) as nat, rest);
        }
        assert(e0 + e1 + rest == t0) by {
            lemma_concat_assoc(e0, e1, rest);
        }
        assert(Self::spec_encode(m) == Ok::<Seq<u8>, CodecError>(e0 + e1));
    }
}
/// The client-bound play message: set title text.
pub struct SetTitleText {
    pub title_text: ChatJson,
}

/// The model of a `SetTitleText`: each field by its model.
pub struct SetTitleTextView {
    pub title_text: Seq<char>,
}

impl DeepView for SetTitleText {
    type V = SetTitleTextView;

    open spec fn deep_view(&self) -> SetTitleTextView {
        SetTitleTextView {
            title_text: self.title_text.deep_view(),
        }
    }
}

impl Encodable for SetTitleText {
    /// The fields in order, with no framing.
    open spec fn spec_encode(m: SetTitleTextView) -> Result<Seq<u8>, CodecError> {
        <ChatJson as Encodable>::spec_encode(m.title_text)
    }

    /// The sum of the fields' sizes.
    open spec fn spec_size(m: SetTitleTextView) -> Result<nat, CodecError> {
        <ChatJson as Encodable>::spec_size(m.title_text)
    }

    proof fn lemma_size_faithful(m: SetTitleTextView) {
        <ChatJson as Encodable>::lemma_size_faithful(m.title_text);
    }

    fn encode(&self, out: &mut Vec<u8>) -> (r: Result<(), CodecError>) {
        self.title_text.encode(out)
    }

    fn size(&self) -> (r: Result<VarInt, CodecError>) {
        self.title_text.size()
    }
}

impl Decodable for SetTitleText {
    open spec fn spec_decode(bytes: Seq<u8>) -> Result<(SetTitleTextView, nat), CodecError> {
        match decode_at::<ChatJson>(bytes, 0) {
            Err(e) => Err(e),
            Ok((title_text, n0)) => Ok((SetTitleTextView { title_text }, n0)),
        }
    }

    proof fn lemma_decode_len(bytes: Seq<u8>) {
        lemma_decode_at::<ChatJson>(bytes, 0);
        <ChatJson as Decodable>::lemma_decode_len(bytes.subrange((0) as int, bytes.len() as int));
    }

    fn decode(reader: &mut ByteReader) -> (r: Result<SetTitleText, CodecError>) {
        let ghost r0 = *reader;
        let ghost rest0 = reader.rest();
        proof {
            ByteReader::lemma_rest_since(r0, *reader);
            lemma_decode_at::<ChatJson>(rest0, (reader.pos() - r0.pos()) as nat);
        }
        let title_text = match <ChatJson>::decode(reader) {
            Ok(v) => v,
            Err(e) => return Err(e),
        };
        Ok(SetTitleText { title_text })
    }
}

impl Codec for SetTitleText {
    open spec fn valid(m: SetTitleTextView) -> bool {
        &&& <ChatJson as Codec>::valid(m.title_text)
    }

    open spec fn delimited() -> bool {
        <ChatJson as Codec>::delimited()
    }

    proof fn lemma_round_trip(m: SetTitleTextView, rest: Seq<u8>) {
        let e0 = <ChatJson as Encodable>::spec_encode(m.title_text)->Ok_0;
        let t0 = e0 + rest;
        assert(decode_at::<ChatJson>(t0, (0) as nat) == Ok::<(<ChatJson as DeepView>::V, nat), CodecError>((m.title_text, e0.len()))
            && <ChatJson as Encodable>::spec_encode(m.title_text) == Ok::<Seq<u8>, CodecError>(e0)) by {
            lemma_subrange_all(t0);
            lemma_field_round_trip::<ChatJson>(m.title_text, t0, (0) as nat, rest);
        }
    }
}
/// The client-bound play message: set title times.
pub struct SetTitleTimes {
    pub fade_in: i32,
    pub stay: i32,
    pub fade_out: i32,
}

/// The model of a `SetTitleTimes`: each field by its model.
pub struct SetTitleTimesView {
    pub fade_in: i32,
    pub stay: i32,
    pub fade_out: i32,
}

impl DeepView for SetTitleTimes {
    type V = SetTitleTimesView;

    open spec fn deep_view(&self) -> SetTitleTimesView {
        SetTitleTimesView {
            fade_in: self.fade_in.deep_view(),
            stay: self.stay.deep_view(),
            fade_out: self.fade_out.deep_view(),
        }
    }
}

impl Encodable for SetTitleTimes {
    /// The fields in order, with no framing.
    open spec fn spec_encode(m: SetTitleTimesView) -> Result<Seq<u8>, CodecError> {
        then_encode(then_encode(<i32 as Encodable>::spec_encode(m.fade_in), <i32 as Encodable>::spec_encode(m.stay)), <i32 as Encodable>::spec_encode(m.fade_out))
    }

    /// The sum of the fields' sizes.
    open spec fn spec_size(m: SetTitleTimesView) -> Result<nat, CodecError> {
        add_size_spec(add_size_spec(<i32 as Encodable>::spec_size(m.fade_in), <i32 as Encodable>::spec_size(m.stay)), <i32 as Encodable>::spec_size(m.fade_out))
    }

    proof fn lemma_size_faithful(m: SetTitleTimesView) {
        <i32 as Encodable>::lemma_size_faithful(m.fade_in);
        <i32 as Encodable>::lemma_size_faithful(m.stay);
        <i32 as Encodable>::lemma_size_faithful(m.fade_out);
        lemma_then_size(<i32 as Encodable>::spec_encode(m.fade_in), <i32 as Encodable>::spec_size(m.fade_in), <i32 as Encodable>::spec_encode(m.stay), <i32 as Encodable>::spec_size(m.stay));
        lemma_then_size(then_encode(<i32 as Encodable>::spec_encode(m.fade_in), <i32 as Encodable>::spec_encode(m.stay)), add_size_spec(<i32 as Encodable>::spec_size(m.fade_in), <i32 as Encodable>::spec_size(m.stay)), <i32 as Encodable>::spec_encode(m.fade_out), <i32 as Encodable>::spec_size(m.fade_out));
    }

    fn encode(&self, out: &mut Vec<u8>) -> (r: Result<(), CodecError>) {
        let ghost o0 = out@;
        let start = out.len();
        let ghost e0 = <i32 as Encodable>::spec_encode(self.fade_in.deep_view())->Ok_0;
        let ghost e1 = <i32 as Encodable>::spec_encode(self.stay.deep_view())->Ok_0;
        let ghost e2 = <i32 as Encodable>::spec_encode(self.fade_out.deep_view())->Ok_0;
        match self.fade_in.encode(out) {
            Ok(_) => {},
            Err(e) => return Err(e),
        }
        match self.stay.encode(out) {
            Ok(_) => {},
            Err(e) => {
                roll_back(out, Ghost(o0), Ghost(e0), start);
                return Err(e);
            },
        }
        proof {
            lemma_concat_assoc(o0, e0, e1);
        }
        match self.fade_out.encode(out) {
            Ok(_) => {},
            Err(e) => {
                roll_back(out, Ghost(o0), Ghost(e0 + e1), start);
                return Err(e);
            },
        }
        proof {
            lemma_concat_assoc(o0, e0 + e1, e2);
        }
        Ok(())
    }

    fn size(&self) -> (r: Result<VarInt, CodecError>) {
        proof {
            <i32 as Encodable>::lemma_size_faithful(self.fade_in.deep_view());
            <i32 as Encodable>::lemma_size_faithful(self.stay.deep_view());
            <i32 as Encodable>::lemma_size_faithful(self.fade_out.deep_view());
        }
        let ghost w0 = <i32 as Encodable>::spec_size(self.fade_in.deep_view());
        let ghost w1 = <i32 as Encodable>::spec_size(self.stay.deep_view());
        let ghost w2 = <i32 as Encodable>::spec_size(self.fade_out.deep_view());
        let t0 = self.fade_in.size();
        let t1 = add_size(t0, Ghost(w0), self.stay.size(), Ghost(w1));
        let ghost c1 = add_size_spec(w0, w1);
        let t2 = add_size(t1, Ghost(c1), self.fade_out.size(), Ghost(w2));
        t2
    }
}

impl Decodable for SetTitleTimes {
    open spec fn spec_decode(bytes: Seq<u8>) -> Result<(SetTitleTimesView, nat), CodecError> {
        match decode_at::<i32>(bytes, 0) {
            Err(e) => Err(e),
            Ok((fade_in, n0)) => match decode_at::<i32>(bytes, n0) {
                Err(e) => Err(e),
                Ok((stay, n1)) => match decode_at::<i32>(bytes, n0 + n1) {
                    Err(e) => Err(e),
                    Ok((fade_out, n2)) => Ok((SetTitleTimesView { fade_in, stay, fade_out }, n0 + n1 + n2)),
                },
            },
        }
    }

    proof fn lemma_decode_len(bytes: Seq<u8>) {
        lemma_decode_at::<i32>(bytes, 0);
        <i32 as Decodable>::lemma_decode_len(bytes.subrange((0) as int, bytes.len() as int));
        if let Ok((fade_in, n0)) = decode_at::<i32>(bytes, 0) {
            lemma_decode_at::<i32>(bytes, n0);
            <i32 as Decodable>::lemma_decode_len(bytes.subrange((n0) as int, bytes.len() as int));
            if let Ok((stay, n1)) = decode_at::<i32>(bytes, n0) {
                lemma_decode_at::<i32>(bytes, n0 + n1);
                <i32 as Decodable>::lemma_decode_len(bytes.subrange((n0 + n1) as int, bytes.len() as int));
            }
        }
    }

    fn decode(reader: &mut ByteReader) -> (r: Result<SetTitleTimes, CodecError>) {
        let ghost r0 = *reader;
        let ghost rest0 = reader.rest();
        proof {
            ByteReader::lemma_rest_since(r0, *reader);
            lemma_decode_at::<i32>(rest0, (reader.pos() - r0.pos()) as nat);
        }
        let fade_in = match <i32>::decode(reader) {
            Ok(v) => v,
            Err(e) => return Err(e),
        };
        proof {
            ByteReader::lemma_rest_since(r0, *reader);
            lemma_decode_at::<i32>(rest0, (reader.pos() - r0.pos()) as nat);
        }
        let stay = match <i32>::decode(reader) {
            Ok(v) => v,
            Err(e) => return Err(e),
        };
        proof {
            ByteReader::lemma_rest_since(r0, *reader);
            lemma_decode_at::<i32>(rest0, (reader.pos() - r0.pos()) as nat);
        }
        let fade_out = match <i32>::decode(reader) {
            Ok(v) => v,
            Err(e) => return Err(e),
        };
        Ok(SetTitleTimes { fade_in, stay, fade_out })
    }
}

impl Codec for SetTitleTimes {
    open spec fn valid(m: SetTitleTimesView) -> bool {
        &&& <i32 as Codec>::valid(m.fade_in)
        &&& <i32 as Codec>::delimited()
        &&& <i32 as Codec>::valid(m.stay)
        &&& <i32 as Codec>::delimited()
        &&& <i32 as Codec>::valid(m.fade_out)
    }

    open spec fn delimited() -> bool {
        <i32 as Codec>::delimited()
    }

    proof fn lemma_round_trip(m: SetTitleTimesView, rest: Seq<u8>) {
        let e0 = <i32 as Encodable>::spec_encode(m.fade_in)->Ok_0;
        let e1 = <i32 as Encodable>::spec_encode(m.stay)->Ok_0;
        let e2 = <i32 as Encodable>::spec_encode(m.fade_out)->Ok_0;
        let t2 = e2 + rest;
        let t1 = e1 + t2;
        let t0 = e0 + t1;
        assert(decode_at::<i32>(t0, (0) as nat) == Ok::<(<i32 as DeepView>::V, nat), CodecError>((m.fade_in, e0.len()))
            && <i32 as Encodable>::spec_encode(m.fade_in) == Ok::<Seq<u8>, CodecError>(e0)
            && decode_at::<i32>(t0, (e0.len()) as nat) == Ok::<(<i32 as DeepView>::V, nat), CodecError>((m.stay, e1.len()))
            && <i32 as Encodable>::spec_encode(m.stay) == Ok::<Seq<u8>, CodecError>(e1)
            && decode_at::<i32>(t0, (e0.len() + e1.len()) as nat) == Ok::<(<i32 as DeepView>::V, nat), CodecError>((m.fade_out, e2.len()))
            && <i32 as Encodable>::spec_encode(m.fade_out) == Ok::<Seq<u8>, CodecError>(e2)) by {
            lemma_subrange_all(t0);
            lemma_field_round_trip::<i32>(m.fade_in, t0, (0) as nat, t1);
            lemma_field_round_trip::<i32>(m.stay, t0, (e0.len()) as nat, t2);
            lemma_field_round_trip::<i32>(m.fade_out, t0, (e0.len() + e1.len()) as nat, rest);
        }
        assert(e0 + e1 + e2 + rest == t0) by {
            lemma_concat_assoc(e0, e1, t2);
            lemma_concat_assoc(e0 + e1, e2, rest);
        }
        assert(Self::spec_encode(m) == Ok::<Seq<u8>, CodecError>(e0 + e1 + e2));
    }
}
/// The client-bound play message: entity sound effect.
pub struct EntitySoundEffect {
    pub sound_id: VarInt,
    pub sound_category: VarInt,
    pub entity_id: VarInt,
    pub volume: Float,
    pub pitch: Float,
}

/// The model of a `EntitySoundEffect`: each field by its model.
pub struct EntitySoundEffectView {
    pub sound_id: i32,
    pub sound_category: i32,
    pub entity_id: i32,
    pub volume: u32,
    pub pitch: u32,
}

impl DeepView for EntitySoundEffect {
    type V = EntitySoundEffectView;

    open spec fn deep_view(&self) -> EntitySoundEffectView {
        EntitySoundEffectView {
            sound_id: self.sound_id.deep_view(),
            sound_category: self.sound_category.deep_view(),
            entity_id: self.entity_id.deep_view(),
            volume: self.volume.deep_view(),
            pitch: self.pitch.deep_view(),
        }
    }
}

impl Encodable for EntitySoundEffect {
    /// The fields in order, with no framing.
    open spec fn spec_encode(m: EntitySoundEffectView) -> Result<Seq<u8>, CodecError> {
        then_encode(then_encode(then_encode(then_encode(<VarInt as Encodable>::spec_encode(m.sound_id), <VarInt as Encodable>::spec_encode(m.sound_category)), <VarInt as Encodable>::spec_encode(m.entity_id)), <Float as Encodable>::spec_encode(m.volume)), <Float as Encodable>::spec_encode(m.pitch))
    }

    /// The sum of the fields' sizes.
    open spec fn spec_size(m: EntitySoundEffectView) -> Result<nat, CodecError> {
        add_size_spec(add_size_spec(add_size_spec(add_size_spec(<VarInt as Encodable>::spec_size(m.sound_id), <VarInt as Encodable>::spec_size(m.sound_category)), <VarInt as Encodable>::spec_size(m.entity_id)), <Float as Encodable>::spec_size(m.volume)), <Float as Encodable>::spec_size(m.pitch))
    }

    proof fn lemma_size_faithful(m: EntitySoundEffectView) {
        <VarInt as Encodable>::lemma_size_faithful(m.sound_id);
        <VarInt as Encodable>::lemma_size_faithful(m.sound_category);
        <VarInt as Encodable>::lemma_size_faithful(m.entity_id);
        <Float as Encodable>::lemma_size_faithful(m.volume);
        <Float as Encodable>::lemma_size_faithful(m.pitch);
        lemma_then_size(<VarInt as Encodable>::spec_encode(m.sound_id), <VarInt as Encodable>::spec_size(m.sound_id), <VarInt as Encodable>::spec_encode(m.sound_category), <VarInt as Encodable>::spec_size(m.sound_category));
        lemma_then_size(then_encode(<VarInt as Encodable>::spec_encode(m.sound_id), <VarInt as Encodable>::spec_encode(m.sound_category)), add_size_spec(<VarInt as Encodable>::spec_size(m.sound_id), <VarInt as Encodable>::spec_size(m.sound_category)), <VarInt as Encodable>::spec_encode(m.entity_id), <VarInt as Encodable>::spec_size(m.entity_id));
        lemma_then_size(then_encode(then_encode(<VarInt as Encodable>::spec_encode(m.sound_id), <VarInt as Encodable>::spec_encode(m.sound_category)), <VarInt as Encodable>::spec_encode(m.entity_id)), add_size_spec(add_size_spec(<VarInt as Encodable>::spec_size(m.sound_id), <VarInt as Encodable>::spec_size(m.sound_category)), <VarInt as Encodable>::spec_size(m.entity_id)), <Float as Encodable>::spec_encode(m.volume), <Float as Encodable>::spec_size(m.volume));
        lemma_then_size(then_encode(then_encode(then_encode(<VarInt as Encodable>::spec_encode(m.sound_id), <VarInt as Encodable>::spec_encode(m.sound_category)), <VarInt as Encodable>::spec_encode(m.entity_id)), <Float as Encodable>::spec_encode(m.volume)), add_size_spec(add_size_spec(add_size_spec(<VarInt as Encodable>::spec_size(m.sound_id), <VarInt as Encodable>::spec_size(m.sound_category)), <VarInt as Encodable>::spec_size(m.entity_id)), <Float as Encodable>::spec_size(m.volume)), <Float as Encodable>::spec_encode(m.pitch), <Float as Encodable>::spec_size(m.pitch));
    }

    fn encode(&self, out: &mut Vec<u8>) -> (r: Result<(), CodecError>) {
        let ghost o0 = out@;
        let start = out.len();
        let ghost e0 = <VarInt as Encodable>::spec_encode(self.sound_id.deep_view())->Ok_0;
        let ghost e1 = <VarInt as Encodable>::spec_encode(self.sound_category.deep_view())->Ok_0;
        let ghost e2 = <VarInt as Encodable>::spec_encode(self.entity_id.deep_view())->Ok_0;
        let ghost e3 = <Float as Encodable>::spec_encode(self.volume.deep_view())->Ok_0;
        let ghost e4 = <Float as Encodable>::spec_encode(self.pitch.deep_view())->Ok_0;
        match self.sound_id.encode(out) {
            Ok(_) => {},
            Err(e) => return Err(e),
        }
        match self.sound_category.encode(out) {
            Ok(_) => {},
            Err(e) => {
                roll_back(out, Ghost(o0), Ghost(e0), start);
                return Err(e);
            },
        }
        proof {
            lemma_concat_assoc(o0, e0, e1);
        }
        match self.entity_id.encode(out) {
            Ok(_) => {},
            Err(e) => {
                roll_back(out, Ghost(o0), Ghost(e0 + e1), start);
                return Err(e);
            },
        }
        proof {
            lemma_concat_assoc(o0, e0 + e1, e2);
        }
        match self.volume.encode(out) {
            Ok(_) => {},
            Err(e) => {
                roll_back(out, Ghost(o0), Ghost(e0 + e1 + e2), start);
                return Err(e);
            },
        }
        proof {
            lemma_concat_assoc(o0, e0 + e1 + e2, e3);
        }
        match self.pitch.encode(out) {
            Ok(_) => {},
            Err(e) => {
                roll_back(out, Ghost(o0), Ghost(e0 + e1 + e2 + e3), start);
                return Err(e);
            },
        }
        proof {
            lemma_concat_assoc(o0, e0 + e1 + e2 + e3, e4);
        }
        Ok(())
    }

    fn size(&self) -> (r: Result<VarInt, CodecError>) {
        proof {
            <VarInt as Encodable>::lemma_size_faithful(self.sound_id.deep_view());
            <VarInt as Encodable>::lemma_size_faithful(self.sound_category.deep_view());
            <VarInt as Encodable>::lemma_size_faithful(self.entity_id.deep_view());
            <Float as Encodable>::lemma_size_faithful(self.volume.deep_view());
            <Float as Encodable>::lemma_size_faithful(self.pitch.deep_view());
        }
        let ghost w0 = <VarInt as Encodable>::spec_size(self.sound_id.deep_view());
        let ghost w1 = <VarInt as Encodable>::spec_size(self.sound_category.deep_view());
        let ghost w2 = <VarInt as Encodable>::spec_size(self.entity_id.deep_view());
        let ghost w3 = <Float as Encodable>::spec_size(self.volume.deep_view());
        let ghost w4 = <Float as Encodable>::spec_size(self.pitch.deep_view());
        let t0 = self.sound_id.size();
        let t1 = add_size(t0, Ghost(w0), self.sound_category.size(), Ghost(w1));
        let ghost c1 = add_size_spec(w0, w1);
        let t2 = add_size(t1, Ghost(c1), self.entity_id.size(), Ghost(w2));
        let ghost c2 = add_size_spec(c1, w2);
        let t3 = add_size(t2, Ghost(c2), self.volume.size(), Ghost(w3));
        let ghost c3 = add_size_spec(c2, w3);
        let t4 = add_size(t3, Ghost(c3), self.pitch.size(), Ghost(w4));
        t4
    }
}

impl Decodable for EntitySoundEffect {
    open spec fn spec_decode(bytes: Seq<u8>) -> Result<(EntitySoundEffectView, nat), CodecError> {
        match decode_at::<VarInt>(bytes, 0) {
            Err(e) => Err(e),
            Ok((sound_id, n0)) => match decode_at::<VarInt>(bytes, n0) {
                Err(e) => Err(e),
                Ok((sound_category, n1)) => match decode_at::<VarInt>(bytes, n0 + n1) {
                    Err(e) => Err(e),
                    Ok((entity_id, n2)) => match decode_at::<Float>(bytes, n0 + n1 + n2) {
                        Err(e) => Err(e),
                        Ok((volume, n3)) => match decode_at::<Float>(bytes, n0 + n1 + n2 + n3) {
                            Err(e) => Err(e),
                            Ok((pitch, n4)) => Ok((EntitySoundEffectView { sound_id, sound_category, entity_id, volume, pitch }, n0 + n1 + n2 + n3 + n4)),
                        },
                    },
                },
            },
        }
    }

    proof fn lemma_decode_len(bytes: Seq<u8>) {
        lemma_decode_at::<VarInt>(bytes, 0);
        <VarInt as Decodable>::lemma_decode_len(bytes.subrange((0) as int, bytes.len() as int));
        if let Ok((sound_id, n0)) = decode_at::<VarInt>(bytes, 0) {
            lemma_decode_at::<VarInt>(bytes, n0);
            <VarInt as Decodable>::lemma_decode_len(bytes.subrange((n0) as int, bytes.len() as int));
            if let Ok((sound_category, n1)) = decode_at::<VarInt>(bytes, n0) {
                lemma_decode_at::<VarInt>(bytes, n0 + n1);
                <VarInt as Decodable>::lemma_decode_len(bytes.subrange((n0 + n1) as int, bytes.len() as int));
                if let Ok((entity_id, n2)) = decode_at::<VarInt>(bytes, n0 + n1) {
                    lemma_decode_at::<Float>(bytes, n0 + n1 + n2);
                    <Float as Decodable>::lemma_decode_len(bytes.subrange((n0 + n1 + n2) as int, bytes.len() as int));
                    if let Ok((volume, n3)) = decode_at::<Float>(bytes, n0 + n1 + n2) {
                        lemma_decode_at::<Float>(bytes, n0 + n1 + n2 + n3);
                        <Float as Decodable>::lemma_decode_len(bytes.subrange((n0 + n1 + n2 + n3) as int, bytes.len() as int));
                    }
                }
            }
        }
    }

    fn decode(reader: &mut ByteReader) -> (r: Result<EntitySoundEffect, CodecError>) {
        let ghost r0 = *reader;
        let ghost rest0 = reader.rest();
        proof {
            ByteReader::lemma_rest_since(r0, *reader);
            lemma_decode_at::<VarInt>(rest0, (reader.pos() - r0.pos()) as nat);
        }
        let sound_id = match <VarInt>::decode(reader) {
            Ok(v) => v,
            Err(e) => return Err(e),
        };
        proof {
            ByteReader::lemma_rest_since(r0, *reader);
            lemma_decode_at::<VarInt>(rest0, (reader.pos() - r0.pos()) as nat);
        }
        let sound_category = match <VarInt>::decode(reader) {
            Ok(v) => v,
            Err(e) => return Err(e),
        };
        proof {
            ByteReader::lemma_rest_since(r0, *reader);
            lemma_decode_at::<VarInt>(rest0, (reader.pos() - r0.pos()) as nat);
        }
        let entity_id = match <VarInt>::decode(reader) {
            Ok(v) => v,
            Err(e) => return Err(e),
        };
        proof {
            ByteReader::lemma_rest_since(r0, *reader);
            lemma_decode_at::<Float>(rest0, (reader.pos() - r0.pos()) as nat);
        }
        let volume = match <Float>::decode(reader) {
            Ok(v) => v,
            Err(e) => return Err(e),
        };
        proof {
            ByteReader::lemma_rest_since(r0, *reader);
            lemma_decode_at::<Float>(rest0, (reader.pos() - r0.pos()) as nat);
        }
        let pitch = match <Float>::decode(reader) {
            Ok(v) => v,
            Err(e) => return Err(e),
        };
        Ok(EntitySoundEffect { sound_id, sound_category, entity_id, volume, pitch })
    }
}

impl Codec for EntitySoundEffect {
    open spec fn valid(m: EntitySoundEffectView) -> bool {
        &&& <VarInt as Codec>::valid(m.sound_id)
        &&& <VarInt as Codec>::delimited()
        &&& <VarInt as Codec>::valid(m.sound_category)
        &&& <VarInt as Codec>::delimited()
        &&& <VarInt as Codec>::valid(m.entity_id)
        &&& <VarInt as Codec>::delimited()
        &&& <Float as Codec>::valid(m.volume)
        &&& <Float as Codec>::delimited()
        &&& <Float as Codec>::valid(m.pitch)
    }

    open spec fn delimited() -> bool {
        <Float as Codec>::delimited()
    }

    proof fn lemma_round_trip(m: EntitySoundEffectView, rest: Seq<u8>) {
        let e0 = <VarInt as Encodable>::spec_encode(m.sound_id)->Ok_0;
        let e1 = <VarInt as Encodable>::spec_encode(m.sound_category)->Ok_0;
        let e2 = <VarInt as Encodable>::spec_encode(m.entity_id)->Ok_0;
        let e3 = <Float as Encodable>::spec_encode(m.volume)->Ok_0;
        let e4 = <Float as Encodable>::spec_encode(m.pitch)->Ok_0;
        let t4 = e4 + rest;
        let t3 = e3 + t4;
        let t2 = e2 + t3;
        let t1 = e1 + t2;
        let t0 = e0 + t1;
        assert(decode_at::<VarInt>(t0, (0) as nat) == Ok::<(<VarInt as DeepView>::V, nat), CodecError>((m.sound_id, e0.len()))
            && <VarInt as Encodable>::spec_encode(m.sound_id) == Ok::<Seq<u8>, CodecError>(e0)
            && decode_at::<VarInt>(t0, (e0.len()) as nat) == Ok::<(<VarInt as DeepView>::V, nat), CodecError>((m.sound_category, e1.len()))
            && <VarInt as Encodable>::spec_encode(m.sound_category) == Ok::<Seq<u8>, CodecError>(e1)
            && decode_at::<VarInt>(t0, (e0.len() + e1.len()) as nat) == Ok::<(<VarInt as DeepView>::V, nat), CodecError>((m.entity_id, e2.len()))
            && <VarInt as Encodable>::spec_encode(m.entity_id) == Ok::<Seq<u8>, CodecError>(e2)
            && decode_at::<Float>(t0, (e0.len() + e1.len() + e2.len()) as nat) == Ok::<(<Float as DeepView>::V, nat), CodecError>((m.volume, e3.len()))
            && <Float as Encodable>::spec_encode(m.volume) == Ok::<Seq<u8>, CodecError>(e3)
            && decode_at::<Float>(t0, (e0.len() + e1.len() + e2.len() + e3.len()) as nat) == Ok::<(<Float as DeepView>::V, nat), CodecError>((m.pitch, e4.len()))
            && <Float as Encodable>::spec_encode(m.pitch) == Ok::<Seq<u8>, CodecError>(e4)) by {
            lemma_subrange_all(t0);
            lemma_field_round_trip::<VarInt>(m.sound_id, t0, (0) as nat, t1);
            lemma_field_round_trip::<VarInt>(m.sound_category, t0, (e0.len()) as nat, t2);
            lemma_field_round_trip::<VarInt>(m.entity_id, t0, (e0.len() + e1.len()) as nat, t3);
            lemma_field_round_trip::<Float>(m.volume, t0, (e0.len() + e1.len() + e2.len()) as nat, t4);
            lemma_field_round_trip::<Float>(m.pitch, t0, (e0.len() + e1.len() + e2.len() + e3.len()) as nat, rest);
        }
        assert(e0 + e1 + e2 + e3 + e4 + rest == t0) by {
            lemma_concat_assoc(e0, e1, t2);
            lemma_concat_assoc(e0 + e1, e2, t3);
            lemma_concat_assoc(e0 + e1 + e2, e3, t4);
            lemma_concat_assoc(e0 + e1 + e2 + e3, e4, rest);
        }
        assert(Self::spec_encode(m) == Ok::<Seq<u8>, CodecError>(e0 + e1 + e2 + e3 + e4));
    }
}
/// The client-bound play message: sound effect.
pub struct SoundEffect {
    pub sound_id: VarInt,
    pub sound_category: VarInt,
    pub effect_position_x: i32,
    pub effect_position_y: i32,
    pub effect_position_z: i32,
    pub volume: Float,
    pub pitch: Float,
}

/// The model of a `SoundEffect`: each field by its model.
pub struct SoundEffectView {
    pub sound_id: i32,
    pub sound_category: i32,
    pub effect_position_x: i32,
    pub effect_position_y: i32,
    pub effect_position_z: i32,
    pub volume: u32,
    pub pitch: u32,
}

impl DeepView for SoundEffect {
    type V = SoundEffectView;

    open spec fn deep_view(&self) -> SoundEffectView {
        SoundEffectView {
            sound_id: self.sound_id.deep_view(),
            sound_category: self.sound_category.deep_view(),
            effect_position_x: self.effect_position_x.deep_view(),
            effect_position_y: self.effect_position_y.deep_view(),
            effect_position_z: self.effect_position_z.deep_view(),
            volume: self.volume.deep_view(),
            pitch: self.pitch.deep_view(),
        }
    }
}

impl Encodable for SoundEffect {
    /// The fields in order, with no framing.
    open spec fn spec_encode(m: SoundEffectView) -> Result<Seq<u8>, CodecError> {
        then_encode(then_encode(then_encode(then_encode(then_encode(then_encode(<VarInt as Encodable>::spec_encode(m.sound_id), <VarInt as Encodable>::spec_encode(m.sound_category)), <i32 as Encodable>::spec_encode(m.effect_position_x)), <i32 as Encodable>::spec_encode(m.effect_position_y)), <i32 as Encodable>::spec_encode(m.effect_position_z)), <Float as Encodable>::spec_encode(m.volume)), <Float as Encodable>::spec_encode(m.pitch))
    }

    /// The sum of the fields' sizes.
    open spec fn spec_size(m: SoundEffectView) -> Result<nat, CodecError> {
        add_size_spec(add_size_spec(add_size_spec(add_size_spec(add_size_spec(add_size_spec(<VarInt as Encodable>::spec_size(m.sound_id), <VarInt as Encodable>::spec_size(m.sound_category)), <i32 as Encodable>::spec_size(m.effect_position_x)), <i32 as Encodable>::spec_size(m.effect_position_y)), <i32 as Encodable>::spec_size(m.effect_position_z)), <Float as Encodable>::spec_size(m.volume)), <Float as Encodable>::spec_size(m.pitch))
    }

    proof fn lemma_size_faithful(m: SoundEffectView) {
        <VarInt as Encodable>::lemma_size_faithful(m.sound_id);
        <VarInt as Encodable>::lemma_size_faithful(m.sound_category);
        <i32 as Encodable>::lemma_size_faithful(m.effect_position_x);
        <i32 as Encodable>::lemma_size_faithful(m.effect_position_y);
        <i32 as Encodable>::lemma_size_faithful(m.effect_position_z);
        <Float as Encodable>::lemma_size_faithful(m.volume);
        <Float as Encodable>::lemma_size_faithful(m.pitch);
        lemma_then_size(<VarInt as Encodable>::spec_encode(m.sound_id), <VarInt as Encodable>::spec_size(m.sound_id), <VarInt as Encodable>::spec_encode(m.sound_category), <VarInt as Encodable>::spec_size(m.sound_category));
        lemma_then_size(then_encode(<VarInt as Encodable>::spec_encode(m.sound_id), <VarInt as Encodable>::spec_encode(m.sound_category)), add_size_spec(<VarInt as Encodable>::spec_size(m.sound_id), <VarInt as Encodable>::spec_size(m.sound_category)), <i32 as Encodable>::spec_encode(m.effect_position_x), <i32 as Encodable>::spec_size(m.effect_position_x));
        lemma_then_size(then_encode(then_encode(<VarInt as Encodable>::spec_encode(m.sound_id), <VarInt as Encodable>::spec_encode(m.sound_category)), <i32 as Encodable>::spec_encode(m.effect_position_x)), add_size_spec(add_size_spec(<VarInt as Encodable>::spec_size(m.sound_id), <VarInt as Encodable>::spec_size(m.sound_category)), <i32 as Encodable>::spec_size(m.effect_position_x)), <i32 as Encodable>::spec_encode(m.effect_position_y), <i32 as Encodable>::spec_size(m.effect_position_y));
        lemma_then_size(then_encode(then_encode(then_encode(<VarInt as Encodable>::spec_encode(m.sound_id), <VarInt as Encodable>::spec_encode(m.sound_category)), <i32 as Encodable>::spec_encode(m.effect_position_x)), <i32 as Encodable>::spec_encode(m.effect_position_y)), add_size_spec(add_size_spec(add_size_spec(<VarInt as Encodable>::spec_size(m.sound_id), <VarInt as Encodable>::spec_size(m.sound_category)), <i32 as Encodable>::spec_size(m.effect_position_x)), <i32 as Encodable>::spec_size(m.effect_position_y)), <i32 as Encodable>::spec_encode(m.effect_position_z), <i32 as Encodable>::spec_size(m.effect_position_z));
        lemma_then_size(then_encode(then_encode(then_encode(then_encode(<VarInt as Encodable>::spec_encode(m.sound_id), <VarInt as Encodable>::spec_encode(m.sound_category)), <i32 as Encodable>::spec_encode(m.effect_position_x)), <i32 as Encodable>::spec_encode(m.effect_position_y)), <i32 as Encodable>::spec_encode(m.effect_position_z)), add_size_spec(add_size_spec(add_size_spec(add_size_spec(<VarInt as Encodable>::spec_size(m.sound_id), <VarInt as Encodable>::spec_size(m.sound_category)), <i32 as Encodable>::spec_size(m.effect_position_x)), <i32 as Encodable>::spec_size(m.effect_position_y)), <i32 as Encodable>::spec_size(m.effect_position_z)), <Float as Encodable>::spec_encode(m.volume), <Float as Encodable>::spec_size(m.volume));
        lemma_then_size(then_encode(then_encode(then_encode(then_encode(then_encode(<VarInt as Encodable>::spec_encode(m.sound_id), <VarInt as Encodable>::spec_encode(m.sound_category)), <i32 as Encodable>::spec_encode(m.effect_position_x)), <i32 as Encodable>::spec_encode(m.effect_position_y)), <i32 as Encodable>::spec_encode(m.effect_position_z)), <Float as Encodable>::spec_encode(m.volume)), add_size_spec(add_size_spec(add_size_spec(add_size_spec(add_size_spec(<VarInt as Encodable>::spec_size(m.sound_id), <VarInt as Encodable>::spec_size(m.sound_category)), <i32 as Encodable>::spec_size(m.effect_position_x)), <i32 as Encodable>::spec_size(m.effect_position_y)), <i32 as Encodable>::spec_size(m.effect_position_z)), <Float as Encodable>::spec_size(m.volume)), <Float as Encodable>::spec_encode(m.pitch), <Float as Encodable>::spec_size(m.pitch));
    }

    fn encode(&self, out: &mut Vec<u8>) -> (r: Result<(), CodecError>) {
        let ghost o0 = out@;
        let start = out.len();
        let ghost e0 = <VarInt as Encodable>::spec_encode(self.sound_id.deep_view())->Ok_0;
        let ghost e1 = <VarInt as Encodable>::spec_encode(self.sound_category.deep_view())->Ok_0;
        let ghost e2 = <i32 as Encodable>::spec_encode(self.effect_position_x.deep_view())->Ok_0;
        let ghost e3 = <i32 as Encodable>::spec_encode(self.effect_position_y.deep_view())->Ok_0;
        let ghost e4 = <i32 as Encodable>::spec_encode(self.effect_position_z.deep_view())->Ok_0;
        let ghost e5 = <Float as Encodable>::spec_encode(self.volume.deep_view())->Ok_0;
        let ghost e6 = <Float as Encodable>::spec_encode(self.pitch.deep_view())->Ok_0;
        match self.sound_id.encode(out) {
            Ok(_) => {},
            Err(e) => return Err(e),
        }
        match self.sound_category.encode(out) {
            Ok(_) => {},
            Err(e) => {
                roll_back(out, Ghost(o0), Ghost(e0), start);
                return Err(e);
            },
        }
        proof {
            lemma_concat_assoc(o0, e0, e1);
        }
        match self.effect_position_x.encode(out) {
            Ok(_) => {},
            Err(e) => {
                roll_back(out, Ghost(o0), Ghost(e0 + e1), start);
                return Err(e);
            },
        }
        proof {
            lemma_concat_assoc(o0, e0 + e1, e2);
        }
        match self.effect_position_y.encode(out) {
            Ok(_) => {},
            Err(e) => {
                roll_back(out, Ghost(o0), Ghost(e0 + e1 + e2), start);
                return Err(e);
            },
        }
        proof {
            lemma_concat_assoc(o0, e0 + e1 + e2, e3);
        }
        match self.effect_position_z.encode(out) {
            Ok(_) => {},
            Err(e) => {
                roll_back(out, Ghost(o0), Ghost(e0 + e1 + e2 + e3), start);
                return Err(e);
            },
        }
        proof {
            lemma_concat_assoc(o0, e0 + e1 + e2 + e3, e4);
        }
        match self.volume.encode(out) {
            Ok(_) => {},
            Err(e) => {
                roll_back(out, Ghost(o0), Ghost(e0 + e1 + e2 + e3 + e4), start);
                return Err(e);
            },
        }
        proof {
            lemma_concat_assoc(o0, e0 + e1 + e2 + e3 + e4, e5);
        }
        match self.pitch.encode(out) {
            Ok(_) => {},
            Err(e) => {
                roll_back(out, Ghost(o0), Ghost(e0 + e1 + e2 + e3 + e4 + e5), start);
                return Err(e);
            },
        }
        proof {
            lemma_concat_assoc(o0, e0 + e1 + e2 + e3 + e4 + e5, e6);
        }
        Ok(())
    }

    fn size(&self) -> (r: Result<VarInt, CodecError>) {
        proof {
            <VarInt as Encodable>::lemma_size_faithful(self.sound_id.deep_view());
            <VarInt as Encodable>::lemma_size_faithful(self.sound_category.deep_view());
            <i32 as Encodable>::lemma_size_faithful(self.effect_position_x.deep_view());
            <i32 as Encodable>::lemma_size_faithful(self.effect_position_y.deep_view());
            <i32 as Encodable>::lemma_size_faithful(self.effect_position_z.deep_view());
            <Float as Encodable>::lemma_size_faithful(self.volume.deep_view());
            <Float as Encodable>::lemma_size_faithful(self.pitch.deep_view());
        }
        let ghost w0 = <VarInt as Encodable>::spec_size(self.sound_id.deep_view());
        let ghost w1 = <VarInt as Encodable>::spec_size(self.sound_category.deep_view());
        let ghost w2 = <i32 as Encodable>::spec_size(self.effect_position_x.deep_view());
        let ghost w3 = <i32 as Encodable>::spec_size(self.effect_position_y.deep_view());
        let ghost w4 = <i32 as Encodable>::spec_size(self.effect_position_z.deep_view());
        let ghost w5 = <Float as Encodable>::spec_size(self.volume.deep_view());
        let ghost w6 = <Float as Encodable>::spec_size(self.pitch.deep_view());
        let t0 = self.sound_id.size();
        let t1 = add_size(t0, Ghost(w0), self.sound_category.size(), Ghost(w1));
        let ghost c1 = add_size_spec(w0, w1);
        let t2 = add_size(t1, Ghost(c1), self.effect_position_x.size(), Ghost(w2));
        let ghost c2 = add_size_spec(c1, w2);
        let t3 = add_size(t2, Ghost(c2), self.effect_position_y.size(), Ghost(w3));
        let ghost c3 = add_size_spec(c2, w3);
        let t4 = add_size(t3, Ghost(c3), self.effect_position_z.size(), Ghost(w4));
        let ghost c4 = add_size_spec(c3, w4);
        let t5 = add_size(t4, Ghost(c4), self.volume.size(), Ghost(w5));
        let ghost c5 = add_size_spec(c4, w5);
        let t6 = add_size(t5, Ghost(c5), self.pitch.size(), Ghost(w6));
        t6
    }
}

impl Decodable for SoundEffect {
    open spec fn spec_decode(bytes: Seq<u8>) -> Result<(SoundEffectView, nat), CodecError> {
        match decode_at::<VarInt>(bytes, 0) {
            Err(e) => Err(e),
            Ok((sound_id, n0)) => match decode_at::<VarInt>(bytes, n0) {
                Err(e) => Err(e),
                Ok((sound_category, n1)) => match decode_at::<i32>(bytes, n0 + n1) {
                    Err(e) => Err(e),
                    Ok((effect_position_x, n2)) => match decode_at::<i32>(bytes, n0 + n1 + n2) {
                        Err(e) => Err(e),
                        Ok((effect_position_y, n3)) => match decode_at::<i32>(bytes, n0 + n1 + n2 + n3) {
                            Err(e) => Err(e),
                            Ok((effect_position_z, n4)) => match decode_at::<Float>(bytes, n0 + n1 + n2 + n3 + n4) {
                                Err(e) => Err(e),
                                Ok((volume, n5)) => match decode_at::<Float>(bytes, n0 + n1 + n2 + n3 + n4 + n5) {
                                    Err(e) => Err(e),
                                    Ok((pitch, n6)) => Ok((SoundEffectView { sound_id, sound_category, effect_position_x, effect_position_y, effect_position_z, volume, pitch }, n0 + n1 + n2 + n3 + n4 + n5 + n6)),
                                },
                            },
                        },
                    },
                },
            },
        }
    }

    proof fn lemma_decode_len(bytes: Seq<u8>) {
        lemma_decode_at::<VarInt>(bytes, 0);
        <VarInt as Decodable>::lemma_decode_len(bytes.subrange((0) as int, bytes.len() as int));
        if let Ok((sound_id, n0)) = decode_at::<VarInt>(bytes, 0) {
            lemma_decode_at::<VarInt>(bytes, n0);
            <VarInt as Decodable>::lemma_decode_len(bytes.subrange((n0) as int, bytes.len() as int));
            if let Ok((sound_category, n1)) = decode_at::<VarInt>(bytes, n0) {
                lemma_decode_at::<i32>(bytes, n0 + n1);
                <i32 as Decodable>::lemma_decode_len(bytes.subrange((n0 + n1) as int, bytes.len() as int));
                if let Ok((effect_position_x, n2)) = decode_at::<i32>(bytes, n0 + n1) {
                    lemma_decode_at::<i32>(bytes, n0 + n1 + n2);
                    <i32 as Decodable>::lemma_decode_len(bytes.subrange((n0 + n1 + n2) as int, bytes.len() as int));
                    if let Ok((effect_position_y, n3)) = decode_at::<i32>(bytes, n0 + n1 + n2) {
                        lemma_decode_at::<i32>(bytes, n0 + n1 + n2 + n3);
                        <i32 as Decodable>::lemma_decode_len(bytes.subrange((n0 + n1 + n2 + n3) as int, bytes.len() as int));
                        if let Ok((effect_position_z, n4)) = decode_at::<i32>(bytes, n0 + n1 + n2 + n3) {
                            lemma_decode_at::<Float>(bytes, n0 + n1 + n2 + n3 + n4);
                            <Float as Decodable>::lemma_decode_len(bytes.subrange((n0 + n1 + n2 + n3 + n4) as int, bytes.len() as int));
                            if let Ok((volume, n5)) = decode_at::<Float>(bytes, n0 + n1 + n2 + n3 + n4) {
                                lemma_decode_at::<Float>(bytes, n0 + n1 + n2 + n3 + n4 + n5);
                                <Float as Decodable>::lemma_decode_len(bytes.subrange((n0 + n1 + n2 + n3 + n4 + n5) as int, bytes.len() as int));
                            }
                        }
                    }
                }
            }
        }
    }

    fn decode(reader: &mut ByteReader) -> (r: Result<SoundEffect, CodecError>) {
        let ghost r0 = *reader;
        let ghost rest0 = reader.rest();
        proof {
            ByteReader::lemma_rest_since(r0, *reader);
            lemma_decode_at::<VarInt>(rest0, (reader.pos() - r0.pos()) as nat);
        }
        let sound_id = match <VarInt>::decode(reader) {
            Ok(v) => v,
            Err(e) => return Err(e),
        };
        proof {
            ByteReader::lemma_rest_since(r0, *reader);
            lemma_decode_at::<VarInt>(rest0, (reader.pos() - r0.pos()) as nat);
        }
        let sound_category = match <VarInt>::decode(reader) {
            Ok(v) => v,
            Err(e) => return Err(e),
        };
        proof {
            ByteReader::lemma_rest_since(r0, *reader);
            lemma_decode_at::<i32>(rest0, (reader.pos() - r0.pos()) as nat);
        }
        let effect_position_x = match <i32>::decode(reader) {
            Ok(v) => v,
            Err(e) => return Err(e),
        };
        proof {
            ByteReader::lemma_rest_since(r0, *reader);
            lemma_decode_at::<i32>(rest0, (reader.pos() - r0.pos()) as nat);
        }
        let effect_position_y = match <i32>::decode(reader) {
            Ok(v) => v,
            Err(e) => return Err(e),
        };
        proof {
            ByteReader::lemma_rest_since(r0, *reader);
            lemma_decode_at::<i32>(rest0, (reader.pos() - r0.pos()) as nat);
        }
        let effect_position_z = match <i32>::decode(reader) {
            Ok(v) => v,
            Err(e) => return Err(e),
        };
        proof {
            ByteReader::lemma_rest_since(r0, *reader);
            lemma_decode_at::<Float>(rest0, (reader.pos() - r0.pos()) as nat);
        }
        let volume = match <Float>::decode(reader) {
            Ok(v) => v,
            Err(e) => return Err(e),
        };
        proof {
            ByteReader::lemma_rest_since(r0, *reader);
            lemma_decode_at::<Float>(rest0, (reader.pos() - r0.pos()) as nat);
        }
        let pitch = match <Float>::decode(reader) {
            Ok(v) => v,
            Err(e) => return Err(e),
        };
        Ok(SoundEffect { sound_id, sound_category, effect_position_x, effect_position_y, effect_position_z, volume, pitch })
    }
}

impl Codec for SoundEffect {
    open spec fn valid(m: SoundEffectView) -> bool {
        &&& <VarInt as Codec>::valid(m.sound_id)
        &&& <VarInt as Codec>::delimited()
        &&& <VarInt as Codec>::valid(m.sound_category)
        &&& <VarInt as Codec>::delimited()
        &&& <i32 as Codec>::valid(m.effect_position_x)
        &&& <i32 as Codec>::delimited()
        &&& <i32 as Codec>::valid(m.effect_position_y)
        &&& <i32 as Codec>::delimited()
        &&& <i32 as Codec>::valid(m.effect_position_z)
        &&& <i32 as Codec>::delimited()
        &&& <Float as Codec>::valid(m.volume)
        &&& <Float as Codec>::delimited()
        &&& <Float as Codec>::valid(m.pitch)
    }

    open spec fn delimited() -> bool {
        <Float as Codec>::delimited()
    }

    proof fn lemma_round_trip(m: SoundEffectView, rest: Seq<u8>) {
        let e0 = <VarInt as Encodable>::spec_encode(m.sound_id)->Ok_0;
        let e1 = <VarInt as Encodable>::spec_encode(m.sound_category)->Ok_0;
        let e2 = <i32 as Encodable>::spec_encode(m.effect_position_x)->Ok_0;
        let e3 = <i32 as Encodable>::spec_encode(m.effect_position_y)->Ok_0;
        let e4 = <i32 as Encodable>::spec_encode(m.effect_position_z)->Ok_0;
        let e5 = <Float as Encodable>::spec_encode(m.volume)->Ok_0;
        let e6 = <Float as Encodable>::spec_encode(m.pitch)->Ok_0;
        let t6 = e6 + rest;
        let t5 = e5 + t6;
        let t4 = e4 + t5;
        let t3 = e3 + t4;
        let t2 = e2 + t3;
        let t1 = e1 + t2;
        let t0 = e0 + t1;
        assert(decode_at::<VarInt>(t0, (0) as nat) == Ok::<(<VarInt as DeepView>::V, nat), CodecError>((m.sound_id, e0.len()))
            && <VarInt as Encodable>::spec_encode(m.sound_id) == Ok::<Seq<u8>, CodecError>(e0)
            && decode_at::<VarInt>(t0, (e0.len()) as nat) == Ok::<(<VarInt as DeepView>::V, nat), CodecError>((m.sound_category, e1.len()))
            && <VarInt as Encodable>::spec_encode(m.sound_category) == Ok::<Seq<u8>, CodecError>(e1)
            && decode_at::<i32>(t0, (e0.len() + e1.len()) as nat) == Ok::<(<i32 as DeepView>::V, nat), CodecError>((m.effect_position_x, e2.len()))
            && <i32 as Encodable>::spec_encode(m.effect_position_x) == Ok::<Seq<u8>, CodecError>(e2)
            && decode_at::<i32>(t0, (e0.len() + e1.len() + e2.len()) as nat) == Ok::<(<i32 as DeepView>::V, nat), CodecError>((m.effect_position_y, e3.len()))
            && <i32 as Encodable>::spec_encode(m.effect_position_y) == Ok::<Seq<u8>, CodecError>(e3)
            && decode_at::<i32>(t0, (e0.len() + e1.len() + e2.len() + e3.len()) as nat) == Ok::<(<i32 as DeepView>::V, nat), CodecError>((m.effect_position_z, e4.len()))
            && <i32 as Encodable>::spec_encode(m.effect_position_z) == Ok::<Seq<u8>, CodecError>(e4)
            && decode_at::<Float>(t0, (e0.len() + e1.len() + e2.len() + e3.len() + e4.len()) as nat) == Ok::<(<Float as DeepView>::V, nat), CodecError>((m.volume, e5.len()))
            && <Float as Encodable>::spec_encode(m.volume) == Ok::<Seq<u8>, CodecError>(e5)
            && decode_at::<Float>(t0, (e0.len() + e1.len() + e2.len() + e3.len() + e4.len() + e5.len()) as nat) == Ok::<(<Float as DeepView>::V, nat), CodecError>((m.pitch, e6.len()))
            && <Float as Encodable>::spec_encode(m.pitch) == Ok::<Seq<u8>, CodecError>(e6)) by {
            lemma_subrange_all(t0);
            lemma_field_round_trip::<VarInt>(m.sound_id, t0, (0) as nat, t1);
            lemma_field_round_trip::<VarInt>(m.sound_category, t0, (e0.len()) as nat, t2);
            lemma_field_round_trip::<i32>(m.effect_position_x, t0, (e0.len() + e1.len()) as nat, t3);
            lemma_field_round_trip::<i32>(m.effect_position_y, t0, (e0.len() + e1.len() + e2.len()) as nat, t4);
            lemma_field_round_trip::<i32>(m.effect_position_z, t0, (e0.len() + e1.len() + e2.len() + e3.len()) as nat, t5);
            lemma_field_round_trip::<Float>(m.volume, t0, (e0.len() + e1.len() + e2.len() + e3.len() + e4.len()) as nat, t6);
            lemma_field_round_trip::<Float>(m.pitch, t0, (e0.len() + e1.len() + e2.len() + e3.len() + e4.len() + e5.len()) as nat, rest);
        }
        assert(e0 + e1 + e2 + e3 + e4 + e5 + e6 + rest == t0) by {
            lemma_concat_assoc(e0, e1, t2);
            lemma_concat_assoc(e0 + e1, e2, t3);
            lemma_concat_assoc(e0 + e1 + e2, e3, t4);
            lemma_concat_assoc(e0 + e1 + e2 + e3, e4, t5);
            lemma_concat_assoc(e0 + e1 + e2 + e3 + e4, e5, t6);
            lemma_concat_assoc(e0 + e1 + e2 + e3 + e4 + e5, e6, rest);
        }
        assert(Self::spec_encode(m) == Ok::<Seq<u8>, CodecError>(e0 + e1 + e2 + e3 + e4 + e5 + e6));
    }
}
/// The client-bound play message: stop sound.
pub struct StopSound {
    pub flags: i8,
    pub source: Option<VarInt>,
    pub sound: Option<VarInt>,
}

/// The model of a `StopSound`: each field by its model.
pub struct StopSoundView {
    pub flags: i8,
    pub source: Option<i32>,
    pub sound: Option<i32>,
}

impl DeepView for StopSound {
    type V = StopSoundView;

    open spec fn deep_view(&self) -> StopSoundView {
        StopSoundView {
            flags: self.flags.deep_view(),
            source: self.source.deep_view(),
            sound: self.sound.deep_view(),
        }
    }
}

impl Encodable for StopSound {
    /// The fields in order, with no framing.
    open spec fn spec_encode(m: StopSoundView) -> Result<Seq<u8>, CodecError> {
        then_encode(then_encode(<i8 as Encodable>::spec_encode(m.flags), <Option<VarInt> as Encodable>::spec_encode(m.source)), <Option<VarInt> as Encodable>::spec_encode(m.sound))
    }

    /// The sum of the fields' sizes.
    open spec fn spec_size(m: StopSoundView) -> Result<nat, CodecError> {
        add_size_spec(add_size_spec(<i8 as Encodable>::spec_size(m.flags), <Option<VarInt> as Encodable>::spec_size(m.source)), <Option<VarInt> as Encodable>::spec_size(m.sound))
    }

    proof fn lemma_size_faithful(m: StopSoundView) {
        <i8 as Encodable>::lemma_size_faithful(m.flags);
        <Option<VarInt> as Encodable>::lemma_size_faithful(m.source);
        <Option<VarInt> as Encodable>::lemma_size_faithful(m.sound);
        lemma_then_size(<i8 as Encodable>::spec_encode(m.flags), <i8 as Encodable>::spec_size(m.flags), <Option<VarInt> as Encodable>::spec_encode(m.source), <Option<VarInt> as Encodable>::spec_size(m.source));
        lemma_then_size(then_encode(<i8 as Encodable>::spec_encode(m.flags), <Option<VarInt> as Encodable>::spec_encode(m.source)), add_size_spec(<i8 as Encodable>::spec_size(m.flags), <Option<VarInt> as Encodable>::spec_size(m.source)), <Option<VarInt> as Encodable>::spec_encode(m.sound), <Option<VarInt> as Encodable>::spec_size(m.sound));
    }

    fn encode(&self, out: &mut Vec<u8>) -> (r: Result<(), CodecError>) {
        let ghost o0 = out@;
        let start = out.len();
        let ghost e0 = <i8 as Encodable>::spec_encode(self.flags.deep_view())->Ok_0;
        let ghost e1 = <Option<VarInt> as Encodable>::spec_encode(self.source.deep_view())->Ok_0;
        let ghost e2 = <Option<VarInt> as Encodable>::spec_encode(self.sound.deep_view())->Ok_0;
        match self.flags.encode(out) {
            Ok(_) => {},
            Err(e) => return Err(e),
        }
        match self.source.encode(out) {
            Ok(_) => {},
            Err(e) => {
                roll_back(out, Ghost(o0), Ghost(e0), start);
                return Err(e);
            },
        }
        proof {
            lemma_concat_assoc(o0, e0, e1);
        }
        match self.sound.encode(out) {
            Ok(_) => {},
            Err(e) => {
                roll_back(out, Ghost(o0), Ghost(e0 + e1), start);
                return Err(e);
            },
        }
        proof {
            lemma_concat_assoc(o0, e0 + e1, e2);
        }
        Ok(())
    }

    fn size(&self) -> (r: Result<VarInt, CodecError>) {
        proof {
            <i8 as Encodable>::lemma_size_faithful(self.flags.deep_view());
            <Option<VarInt> as Encodable>::lemma_size_faithful(self.source.deep_view());
            <Option<VarInt> as Encodable>::lemma_size_faithful(self.sound.deep_view());
        }
        let ghost w0 = <i8 as Encodable>::spec_size(self.flags.deep_view());
        let ghost w1 = <Option<VarInt> as Encodable>::spec_size(self.source.deep_view());
        let ghost w2 = <Option<VarInt> as Encodable>::spec_size(self.sound.deep_view());
        let t0 = self.flags.size();
        let t1 = add_size(t0, Ghost(w0), self.source.size(), Ghost(w1));
        let ghost c1 = add_size_spec(w0, w1);
        let t2 = add_size(t1, Ghost(c1), self.sound.size(), Ghost(w2));
        t2
    }
}

impl Decodable for StopSound {
    open spec fn spec_decode(bytes: Seq<u8>) -> Result<(StopSoundView, nat), CodecError> {
        match decode_at::<i8>(bytes, 0) {
            Err(e) => Err(e),
            Ok((flags, n0)) => match decode_if::<VarInt>((flags == 3 || flags == 1), bytes, n0) {
                Err(e) => Err(e),
                Ok((source, n1)) => match decode_if::<VarInt>((flags == 2 || flags == 3), bytes, n0 + n1) {
                    Err(e) => Err(e),
                    Ok((sound, n2)) => Ok((StopSoundView { flags, source, sound }, n0 + n1 + n2)),
                },
            },
        }
    }

    proof fn lemma_decode_len(bytes: Seq<u8>) {
        lemma_decode_at::<i8>(bytes, 0);
        <i8 as Decodable>::lemma_decode_len(bytes.subrange((0) as int, bytes.len() as int));
        if let Ok((flags, n0)) = decode_at::<i8>(bytes, 0) {
            lemma_decode_if::<VarInt>((flags == 3 || flags == 1), bytes, n0);
            if (flags == 3 || flags == 1) {
                <VarInt as Decodable>::lemma_decode_len(bytes.subrange((n0) as int, bytes.len() as int));
            }
            if let Ok((source, n1)) = decode_if::<VarInt>((flags == 3 || flags == 1), bytes, n0) {
                lemma_decode_if::<VarInt>((flags == 2 || flags == 3), bytes, n0 + n1);
                if (flags == 2 || flags == 3) {
                    <VarInt as Decodable>::lemma_decode_len(bytes.subrange((n0 + n1) as int, bytes.len() as int));
                }
            }
        }
    }

    fn decode(reader: &mut ByteReader) -> (r: Result<StopSound, CodecError>) {
        let ghost r0 = *reader;
        let ghost rest0 = reader.rest();
        proof {
            ByteReader::lemma_rest_since(r0, *reader);
            lemma_decode_at::<i8>(rest0, (reader.pos() - r0.pos()) as nat);
        }
        let flags = match <i8>::decode(reader) {
            Ok(v) => v,
            Err(e) => return Err(e),
        };
        proof {
            ByteReader::lemma_rest_since(r0, *reader);
            lemma_decode_if::<VarInt>((flags == 3 || flags == 1), rest0, (reader.pos() - r0.pos()) as nat);
        }
        let source = if (flags == 3 || flags == 1) {
            match <VarInt>::decode(reader) {
                Ok(v) => Some(v),
                Err(e) => return Err(e),
            }
        } else {
            None
        };
        proof {
            ByteReader::lemma_rest_since(r0, *reader);
            lemma_decode_if::<VarInt>((flags == 2 || flags == 3), rest0, (reader.pos() - r0.pos()) as nat);
        }
        let sound = if (flags == 2 || flags == 3) {
            match <VarInt>::decode(reader) {
                Ok(v) => Some(v),
                Err(e) => return Err(e),
            }
        } else {
            None
        };
        Ok(StopSound { flags, source, sound })
    }
}

impl Codec for StopSound {
    open spec fn valid(m: StopSoundView) -> bool {
        &&& <i8 as Codec>::valid(m.flags)
        &&& <i8 as Codec>::delimited()
        &&& if (m.flags == 3 || m.flags == 1) {
            m.source matches Some(v) && <VarInt as Codec>::valid(v)
        } else {
            m.source is None
        }
        &&& <VarInt as Codec>::delimited()
        &&& if (m.flags == 2 || m.flags == 3) {
            m.sound matches Some(v) && <VarInt as Codec>::valid(v)
        } else {
            m.sound is None
        }
    }

    open spec fn delimited() -> bool {
        <VarInt as Codec>::delimited()
    }

    proof fn lemma_round_trip(m: StopSoundView, rest: Seq<u8>) {
        let e0 = <i8 as Encodable>::spec_encode(m.flags)->Ok_0;
        let e1 = <Option<VarInt> as Encodable>::spec_encode(m.source)->Ok_0;
        let e2 = <Option<VarInt> as Encodable>::spec_encode(m.sound)->Ok_0;
        let t2 = e2 + rest;
        let t1 = e1 + t2;
        let t0 = e0 + t1;
        assert(decode_at::<i8>(t0, (0) as nat) == Ok::<(<i8 as DeepView>::V, nat), CodecError>((m.flags, e0.len()))
            && <i8 as Encodable>::spec_encode(m.flags) == Ok::<Seq<u8>, CodecError>(e0)
            && decode_if::<VarInt>((m.flags == 3 || m.flags == 1), t0, (e0.len()) as nat) == Ok::<(Option<<VarInt as DeepView>::V>, nat), CodecError>((m.source, e1.len()))
            && <Option<VarInt> as Encodable>::spec_encode(m.source) == Ok::<Seq<u8>, CodecError>(e1)
            && decode_if::<VarInt>((m.flags == 2 || m.flags == 3), t0, (e0.len() + e1.len()) as nat) == Ok::<(Option<<VarInt as DeepView>::V>, nat), CodecError>((m.sound, e2.len()))
            && <Option<VarInt> as Encodable>::spec_encode(m.sound) == Ok::<Seq<u8>, CodecError>(e2)) by {
            lemma_subrange_all(t0);
            lemma_field_round_trip::<i8>(m.flags, t0, (0) as nat, t1);
            lemma_field_if_round_trip::<VarInt>((m.flags == 3 || m.flags == 1), m.source, t0, (e0.len()) as nat, t2);
            lemma_field_if_round_trip::<VarInt>((m.flags == 2 || m.flags == 3), m.sound, t0, (e0.len() + e1.len()) as nat, rest);
        }
        assert(e0 + e1 + e2 + rest == t0) by {
            lemma_concat_assoc(e0, e1, t2);
            lemma_concat_assoc(e0 + e1, e2, rest);
        }
        assert(Self::spec_encode(m) == Ok::<Seq<u8>, CodecError>(e0 + e1 + e2));
    }
}
/// The client-bound play message: player list header and footer.
pub struct PlayerListHeaderAndFooter {
    pub header: ChatJson,
    pub footer: ChatJson,
}

/// The model of a `PlayerListHeaderAndFooter`: each field by its model.
pub struct PlayerListHeaderAndFooterView {
    pub header: Seq<char>,
    pub footer: Seq<char>,
}

impl DeepView for PlayerListHeaderAndFooter {
    type V = PlayerListHeaderAndFooterView;

    open spec fn deep_view(&self) -> PlayerListHeaderAndFooterView {
        PlayerListHeaderAndFooterView {
            header: self.header.deep_view(),
            footer: self.footer.deep_view(),
        }
    }
}

impl Encodable for PlayerListHeaderAndFooter {
    /// The fields in order, with no framing.
    open spec fn spec_encode(m: PlayerListHeaderAndFooterView) -> Result<Seq<u8>, CodecError> {
        then_encode(<ChatJson as Encodable>::spec_encode(m.header), <ChatJson as Encodable>::spec_encode(m.footer))
    }

    /// The sum of the fields' sizes.
    open spec fn spec_size(m: PlayerListHeaderAndFooterView) -> Result<nat, CodecError> {
        add_size_spec(<ChatJson as Encodable>::spec_size(m.header), <ChatJson as Encodable>::spec_size(m.footer))
    }

    proof fn lemma_size_faithful(m: PlayerListHeaderAndFooterView) {
        <ChatJson as Encodable>::lemma_size_faithful(m.header);
        <ChatJson as Encodable>::lemma_size_faithful(m.footer);
        lemma_then_size(<ChatJson as Encodable>::spec_encode(m.header), <ChatJson as Encodable>::spec_size(m.header), <ChatJson as Encodable>::spec_encode(m.footer), <ChatJson as Encodable>::spec_size(m.footer));
    }

    fn encode(&self, out: &mut Vec<u8>) -> (r: Result<(), CodecError>) {
        let ghost o0 = out@;
        let start = out.len();
        let ghost e0 = <ChatJson as Encodable>::spec_encode(self.header.deep_view())->Ok_0;
        let ghost e1 = <ChatJson as Encodable>::spec_encode(self.footer.deep_view())->Ok_0;
        match self.header.encode(out) {
            Ok(_) => {},
            Err(e) => return Err(e),
        }
        match self.footer.encode(out) {
            Ok(_) => {},
            Err(e) => {
                roll_back(out, Ghost(o0), Ghost(e0), start);
                return Err(e);
            },
        }
        proof {
            lemma_concat_assoc(o0, e0, e1);
        }
        Ok(())
    }

    fn size(&self) -> (r: Result<VarInt, CodecError>) {
        proof {
            <ChatJson as Encodable>::lemma_size_faithful(self.header.deep_view());
            <ChatJson as Encodable>::lemma_size_faithful(self.footer.deep_view());
        }
        let ghost w0 = <ChatJson as Encodable>::spec_size(self.header.deep_view());
        let ghost w1 = <ChatJson as Encodable>::spec_size(self.footer.deep_view());
        let t0 = self.header.size();
        let t1 = add_size(t0, Ghost(w0), self.footer.size(), Ghost(w1));
        t1
    }
}

impl Decodable for PlayerListHeaderAndFooter {
    open spec fn spec_decode(bytes: Seq<u8>) -> Result<(PlayerListHeaderAndFooterView, nat), CodecError> {
        match decode_at::<ChatJson>(bytes, 0) {
            Err(e) => Err(e),
            Ok((header, n0)) => match decode_at::<ChatJson>(bytes, n0) {
                Err(e) => Err(e),
                Ok((footer, n1)) => Ok((PlayerListHeaderAndFooterView { header, footer }, n0 + n1)),
            },
        }
    }

    proof fn lemma_decode_len(bytes: Seq<u8>) {
        lemma_decode_at::<ChatJson>(bytes, 0);
        <ChatJson as Decodable>::lemma_decode_len(bytes.subrange((0) as int, bytes.len() as int));
        if let Ok((header, n0)) = decode_at::<ChatJson>(bytes, 0) {
            lemma_decode_at::<ChatJson>(bytes, n0);
            <ChatJson as Decodable>::lemma_decode_len(bytes.subrange((n0) as int, bytes.len() as int));
        }
    }

    fn decode(reader: &mut ByteReader) -> (r: Result<PlayerListHeaderAndFooter, CodecError>) {
        let ghost r0 = *reader;
        let ghost rest0 = reader.rest();
        proof {
            ByteReader::lemma_rest_since(r0, *reader);
            lemma_decode_at::<ChatJson>(rest0, (reader.pos() - r0.pos()) as nat);
        }
        let header = match <ChatJson>::decode(reader) {
            Ok(v) => v,
            Err(e) => return Err(e),
        };
        proof {
            ByteReader::lemma_rest_since(r0, *reader);
            lemma_decode_at::<ChatJson>(rest0, (reader.pos() - r0.pos()) as nat);
        }
        let footer = match <ChatJson>::decode(reader) {
            Ok(v) => v,
            Err(e) => return Err(e),
        };
        Ok(PlayerListHeaderAndFooter { header, footer })
    }
}

impl Codec for PlayerListHeaderAndFooter {
    open spec fn valid(m: PlayerListHeaderAndFooterView) -> bool {
        &&& <ChatJson as Codec>::valid(m.header)
        &&& <ChatJson as Codec>::delimited()
        &&& <ChatJson as Codec>::valid(m.footer)
    }

    open spec fn delimited() -> bool {
        <ChatJson as Codec>::delimited()
    }

    proof fn lemma_round_trip(m: PlayerListHeaderAndFooterView, rest: Seq<u8>) {
        let e0 = <ChatJson as Encodable>::spec_encode(m.header)->Ok_0;
        let e1 = <ChatJson as Encodable>::spec_encode(m.footer)->Ok_0;
        let t1 = e1 + rest;
        let t0 = e0 + t1;
        assert(decode_at::<ChatJson>(t0, (0) as nat) == Ok::<(<ChatJson as DeepView>::V, nat), CodecError>((m.header, e0.len()))
            && <ChatJson as Encodable>::spec_encode(m.header) == Ok::<Seq<u8>, CodecError>(e0)
            && decode_at::<ChatJson>(t0, (e0.len()) as nat) == Ok::<(<ChatJson as DeepView>::V, nat), CodecError>((m.footer, e1.len()))
            && <ChatJson as Encodable>::spec_encode(m.footer) == Ok::<Seq<u8>, CodecError>(e1)) by {
            lemma_subrange_all(t0);
            lemma_field_round_trip::<ChatJson>(m.header, t0, (0) as nat, t1);
            lemma_field_round_trip::<ChatJson>(m.footer, t0, (e0.len()) as nat, rest);
        }
        assert(e0 + e1 + rest == t0) by {
            lemma_concat_assoc(e0, e1, rest);
        }
        assert(Self::spec_encode(m) == Ok::<Seq<u8>, CodecError>(e0 + e1));
    }
}
/// The client-bound play message: nbt query response.
pub struct NbtQueryResponse {
    pub transaction_id: VarInt,
    pub nbt: NbtTag,
}

/// The model of a `NbtQueryResponse`: each field by its model.
pub struct NbtQueryResponseView {
    pub transaction_id: i32,
    pub nbt: Seq<u8>,
}

impl DeepView for NbtQueryResponse {
    type V = NbtQueryResponseView;

    open spec fn deep_view(&self) -> NbtQueryResponseView {
        NbtQueryResponseView {
            transaction_id: self.transaction_id.deep_view(),
            nbt: self.nbt.deep_view(),
        }
    }
}

impl Encodable for NbtQueryResponse {
    /// The fields in order, with no framing.
    open spec fn spec_encode(m: NbtQueryResponseView) -> Result<Seq<u8>, CodecError> {
        then_encode(<VarInt as Encodable>::spec_encode(m.transaction_id), <NbtTag as Encodable>::spec_encode(m.nbt))
    }

    /// The sum of the fields' sizes.
    open spec fn spec_size(m: NbtQueryResponseView) -> Result<nat, CodecError> {
        add_size_spec(<VarInt as Encodable>::spec_size(m.transaction_id), <NbtTag as Encodable>::spec_size(m.nbt))
    }

    proof fn lemma_size_faithful(m: NbtQueryResponseView) {
        <VarInt as Encodable>::lemma_size_faithful(m.transaction_id);
        <NbtTag as Encodable>::lemma_size_faithful(m.nbt);
        lemma_then_size(<VarInt as Encodable>::spec_encode(m.transaction_id), <VarInt as Encodable>::spec_size(m.transaction_id), <NbtTag as Encodable>::spec_encode(m.nbt), <NbtTag as Encodable>::spec_size(m.nbt));
    }

    fn encode(&self, out: &mut Vec<u8>) -> (r: Result<(), CodecError>) {
        let ghost o0 = out@;
        let start = out.len();
        let ghost e0 = <VarInt as Encodable>::spec_encode(self.transaction_id.deep_view())->Ok_0;
        let ghost e1 = <NbtTag as Encodable>::spec_encode(self.nbt.deep_view())->Ok_0;
        match self.transaction_id.encode(out) {
            Ok(_) => {},
            Err(e) => return Err(e),
        }
        match self.nbt.encode(out) {
            Ok(_) => {},
            Err(e) => {
                roll_back(out, Ghost(o0), Ghost(e0), start);
                return Err(e);
            },
        }
        proof {
            lemma_concat_assoc(o0, e0, e1);
        }
        Ok(())
    }

    fn size(&self) -> (r: Result<VarInt, CodecError>) {
        proof {
            <VarInt as Encodable>::lemma_size_faithful(self.transaction_id.deep_view());
            <NbtTag as Encodable>::lemma_size_faithful(self.nbt.deep_view());
        }
        let ghost w0 = <VarInt as Encodable>::spec_size(self.transaction_id.deep_view());
        let ghost w1 = <NbtTag as Encodable>::spec_size(self.nbt.deep_view());
        let t0 = self.transaction_id.size();
        let t1 = add_size(t0, Ghost(w0), self.nbt.size(), Ghost(w1));
        t1
    }
}

impl Decodable for NbtQueryResponse {
    open spec fn spec_decode(bytes: Seq<u8>) -> Result<(NbtQueryResponseView, nat), CodecError> {
        match decode_at::<VarInt>(bytes, 0) {
            Err(e) => Err(e),
            Ok((transaction_id, n0)) => match decode_at::<NbtTag>(bytes, n0) {
                Err(e) => Err(e),
                Ok((nbt, n1)) => Ok((NbtQueryResponseView { transaction_id, nbt }, n0 + n1)),
            },
        }
    }

    proof fn lemma_decode_len(bytes: Seq<u8>) {
        lemma_decode_at::<VarInt>(bytes, 0);
        <VarInt as Decodable>::lemma_decode_len(bytes.subrange((0) as int, bytes.len() as int));
        if let Ok((transaction_id, n0)) = decode_at::<VarInt>(bytes, 0) {
            lemma_decode_at::<NbtTag>(bytes, n0);
            <NbtTag as Decodable>::lemma_decode_len(bytes.subrange((n0) as int, bytes.len() as int));
        }
    }

    fn decode(reader: &mut ByteReader) -> (r: Result<NbtQueryResponse, CodecError>) {
        let ghost r0 = *reader;
        let ghost rest0 = reader.rest();
        proof {
            ByteReader::lemma_rest_since(r0, *reader);
            lemma_decode_at::<VarInt>(rest0, (reader.pos() - r0.pos()) as nat);
        }
        let transaction_id = match <VarInt>::decode(reader) {
            Ok(v) => v,
            Err(e) => return Err(e),
        };
        proof {
            ByteReader::lemma_rest_since(r0, *reader);
            lemma_decode_at::<NbtTag>(rest0, (reader.pos() - r0.pos()) as nat);
        }
        let nbt = match <NbtTag>::decode(reader) {
            Ok(v) => v,
            Err(e) => return Err(e),
        };
        Ok(NbtQueryResponse { transaction_id, nbt })
    }
}

impl Codec for NbtQueryResponse {
    open spec fn valid(m: NbtQueryResponseView) -> bool {
        &&& <VarInt as Codec>::valid(m.transaction_id)
        &&& <VarInt as Codec>::delimited()
        &&& <NbtTag as Codec>::valid(m.nbt)
    }

    open spec fn delimited() -> bool {
        <NbtTag as Codec>::delimited()
    }

    proof fn lemma_round_trip(m: NbtQueryResponseView, rest: Seq<u8>) {
        let e0 = <VarInt as Encodable>::spec_encode(m.transaction_id)->Ok_0;
        let e1 = <NbtTag as Encodable>::spec_encode(m.nbt)->Ok_0;
        let t1 = e1 + rest;
        let t0 = e0 + t1;
        assert(decode_at::<VarInt>(t0, (0) as nat) == Ok::<(<VarInt as DeepView>::V, nat), CodecError>((m.transaction_id, e0.len()))
            && <VarInt as Encodable>::spec_encode(m.transaction_id) == Ok::<Seq<u8>, CodecError>(e0)
            && decode_at::<NbtTag>(t0, (e0.len()) as nat) == Ok::<(<NbtTag as DeepView>::V, nat), CodecError>((m.nbt, e1.len()))
            && <NbtTag as Encodable>::spec_encode(m.nbt) == Ok::<Seq<u8>, CodecError>(e1)) by {
            lemma_subrange_all(t0);
            lemma_field_round_trip::<VarInt>(m.transaction_id, t0, (0) as nat, t1);
            lemma_field_round_trip::<NbtTag>(m.nbt, t0, (e0.len()) as nat, rest);
        }
        assert(e0 + e1 + rest == t0) by {
            lemma_concat_assoc(e0, e1, rest);
        }
        assert(Self::spec_encode(m) == Ok::<Seq<u8>, CodecError>(e0 + e1));
    }
}
/// The client-bound play message: collect item.
pub struct CollectItem {
    pub collected_entity_id: VarInt,
    pub collector_entity_id: VarInt,
    pub pickup_item_count: VarInt,
}

/// The model of a `CollectItem`: each field by its model.
pub struct CollectItemView {
    pub collected_entity_id: i32,
    pub collector_entity_id: i32,
    pub pickup_item_count: i32,
}

impl DeepView for CollectItem {
    type V = CollectItemView;

    open spec fn deep_view(&self) -> CollectItemView {
        CollectItemView {
            collected_entity_id: self.collected_entity_id.deep_view(),
            collector_entity_id: self.collector_entity_id.deep_view(),
            pickup_item_count: self.pickup_item_count.deep_view(),
        }
    }
}

impl Encodable for CollectItem {
    /// The fields in order, with no framing.
    open spec fn spec_encode(m: CollectItemView) -> Result<Seq<u8>, CodecError> {
        then_encode(then_encode(<VarInt as Encodable>::spec_encode(m.collected_entity_id), <VarInt as Encodable>::spec_encode(m.collector_entity_id)), <VarInt as Encodable>::spec_encode(m.pickup_item_count))
    }

    /// The sum of the fields' sizes.
    open spec fn spec_size(m: CollectItemView) -> Result<nat, CodecError> {
        add_size_spec(add_size_spec(<VarInt as Encodable>::spec_size(m.collected_entity_id), <VarInt as Encodable>::spec_size(m.collector_entity_id)), <VarInt as Encodable>::spec_size(m.pickup_item_count))
    }

    proof fn lemma_size_faithful(m: CollectItemView) {
        <VarInt as Encodable>::lemma_size_faithful(m.collected_entity_id);
        <VarInt as Encodable>::lemma_size_faithful(m.collector_entity_id);
        <VarInt as Encodable>::lemma_size_faithful(m.pickup_item_count);
        lemma_then_size(<VarInt as Encodable>::spec_encode(m.collected_entity_id), <VarInt as Encodable>::spec_size(m.collected_entity_id), <VarInt as Encodable>::spec_encode(m.collector_entity_id), <VarInt as Encodable>::spec_size(m.collector_entity_id));
        lemma_then_size(then_encode(<VarInt as Encodable>::spec_encode(m.collected_entity_id), <VarInt as Encodable>::spec_encode(m.collector_entity_id)), add_size_spec(<VarInt as Encodable>::spec_size(m.collected_entity_id), <VarInt as Encodable>::spec_size(m.collector_entity_id)), <VarInt as Encodable>::spec_encode(m.pickup_item_count), <VarInt as Encodable>::spec_size(m.pickup_item_count));
    }

    fn encode(&self, out: &mut Vec<u8>) -> (r: Result<(), CodecError>) {
        let ghost o0 = out@;
        let start = out.len();
        let ghost e0 = <VarInt as Encodable>::spec_encode(self.collected_entity_id.deep_view())->Ok_0;
        let ghost e1 = <VarInt as Encodable>::spec_encode(self.collector_entity_id.deep_view())->Ok_0;
        let ghost e2 = <VarInt as Encodable>::spec_encode(self.pickup_item_count.deep_view())->Ok_0;
        match self.collected_entity_id.encode(out) {
            Ok(_) => {},
            Err(e) => return Err(e),
        }
        match self.collector_entity_id.encode(out) {
            Ok(_) => {},
            Err(e) => {
                roll_back(out, Ghost(o0), Ghost(e0), start);
                return Err(e);
            },
        }
        proof {
            lemma_concat_assoc(o0, e0, e1);
        }
        match self.pickup_item_count.encode(out) {
            Ok(_) => {},
            Err(e) => {
                roll_back(out, Ghost(o0), Ghost(e0 + e1), start);
                return Err(e);
            },
        }
        proof {
            lemma_concat_assoc(o0, e0 + e1, e2);
        }
        Ok(())
    }

    fn size(&self) -> (r: Result<VarInt, CodecError>) {
        proof {
            <VarInt as Encodable>::lemma_size_faithful(self.collected_entity_id.deep_view());
            <VarInt as Encodable>::lemma_size_faithful(self.collector_entity_id.deep_view());
            <VarInt as Encodable>::lemma_size_faithful(self.pickup_item_count.deep_view());
        }
        let ghost w0 = <VarInt as Encodable>::spec_size(self.collected_entity_id.deep_view());
        let ghost w1 = <VarInt as Encodable>::spec_size(self.collector_entity_id.deep_view());
        let ghost w2 = <VarInt as Encodable>::spec_size(self.pickup_item_count.deep_view());
        let t0 = self.collected_entity_id.size();
        let t1 = add_size(t0, Ghost(w0), self.collector_entity_id.size(), Ghost(w1));
        let ghost c1 = add_size_spec(w0, w1);
        let t2 = add_size(t1, Ghost(c1), self.pickup_item_count.size(), Ghost(w2));
        t2
    }
}

impl Decodable for CollectItem {
    open spec fn spec_decode(bytes: Seq<u8>) -> Result<(CollectItemView, nat), CodecError> {
        match decode_at::<VarInt>(bytes, 0) {
            Err(e) => Err(e),
            Ok((collected_entity_id, n0)) => match decode_at::<VarInt>(bytes, n0) {
                Err(e) => Err(e),
                Ok((collector_entity_id, n1)) => match decode_at::<VarInt>(bytes, n0 + n1) {
                    Err(e) => Err(e),
                    Ok((pickup_item_count, n2)) => Ok((CollectItemView { collected_entity_id, collector_entity_id, pickup_item_count }, n0 + n1 + n2)),
                },
            },
        }
    }

    proof fn lemma_decode_len(bytes: Seq<u8>) {
        lemma_decode_at::<VarInt>(bytes, 0);
        <VarInt as Decodable>::lemma_decode_len(bytes.subrange((0) as int, bytes.len() as int));
        if let Ok((collected_entity_id, n0)) = decode_at::<VarInt>(bytes, 0) {
            lemma_decode_at::<VarInt>(bytes, n0);
            <VarInt as Decodable>::lemma_decode_len(bytes.subrange((n0) as int, bytes.len() as int));
            if let Ok((collector_entity_id, n1)) = decode_at::<VarInt>(bytes, n0) {
                lemma_decode_at::<VarInt>(bytes, n0 + n1);
                <VarInt as Decodable>::lemma_decode_len(bytes.subrange((n0 + n1) as int, bytes.len() as int));
            }
        }
    }

    fn decode(reader: &mut ByteReader) -> (r: Result<CollectItem, CodecError>) {
        let ghost r0 = *reader;
        let ghost rest0 = reader.rest();
        proof {
            ByteReader::lemma_rest_since(r0, *reader);
            lemma_decode_at::<VarInt>(rest0, (reader.pos() - r0.pos()) as nat);
        }
        let collected_entity_id = match <VarInt>::decode(reader) {
            Ok(v) => v,
            Err(e) => return Err(e),
        };
        proof {
            ByteReader::lemma_rest_since(r0, *reader);
            lemma_decode_at::<VarInt>(rest0, (reader.pos() - r0.pos()) as nat);
        }
        let collector_entity_id = match <VarInt>::decode(reader) {
            Ok(v) => v,
            Err(e) => return Err(e),
        };
        proof {
            ByteReader::lemma_rest_since(r0, *reader);
            lemma_decode_at::<VarInt>(rest0, (reader.pos() - r0.pos()) as nat);
        }
        let pickup_item_count = match <VarInt>::decode(reader) {
            Ok(v) => v,
            Err(e) => return Err(e),
        };
        Ok(CollectItem { collected_entity_id, collector_entity_id, pickup_item_count })
    }
}

impl Codec for CollectItem {
    open spec fn valid(m: CollectItemView) -> bool {
        &&& <VarInt as Codec>::valid(m.collected_entity_id)
        &&& <VarInt as Codec>::delimited()
        &&& <VarInt as Codec>::valid(m.collector_entity_id)
        &&& <VarInt as Codec>::delimited()
        &&& <VarInt as Codec>::valid(m.pickup_item_count)
    }

    open spec fn delimited() -> bool {
        <VarInt as Codec>::delimited()
    }

    proof fn lemma_round_trip(m: CollectItemView, rest: Seq<u8>) {
        let e0 = <VarInt as Encodable>::spec_encode(m.collected_entity_id)->Ok_0;
        let e1 = <VarInt as Encodable>::spec_encode(m.collector_entity_id)->Ok_0;
        let e2 = <VarInt as Encodable>::spec_encode(m.pickup_item_count)->Ok_0;
        let t2 = e2 + rest;
        let t1 = e1 + t2;
        let t0 = e0 + t1;
        assert(decode_at::<VarInt>(t0, (0) as nat) == Ok::<(<VarInt as DeepView>::V, nat), CodecError>((m.collected_entity_id, e0.len()))
            && <VarInt as Encodable>::spec_encode(m.collected_entity_id) == Ok::<Seq<u8>, CodecError>(e0)
            && decode_at::<VarInt>(t0, (e0.len()) as nat) == Ok::<(<VarInt as DeepView>::V, nat), CodecError>((m.collector_entity_id, e1.len()))
            && <VarInt as Encodable>::spec_encode(m.collector_entity_id) == Ok::<Seq<u8>, CodecError>(e1)
            && decode_at::<VarInt>(t0, (e0.len() + e1.len()) as nat) == Ok::<(<VarInt as DeepView>::V, nat), CodecError>((m.pickup_item_count, e2.len()))
            && <VarInt as Encodable>::spec_encode(m.pickup_item_count) == Ok::<Seq<u8>, CodecError>(e2)) by {
            lemma_subrange_all(t0);
            lemma_field_round_trip::<VarInt>(m.collected_entity_id, t0, (0) as nat, t1);
            lemma_field_round_trip::<VarInt>(m.collector_entity_id, t0, (e0.len()) as nat, t2);
            lemma_field_round_trip::<VarInt>(m.pickup_item_count, t0, (e0.len() + e1.len()) as nat, rest);
        }
        assert(e0 + e1 + e2 + rest == t0) by {
            lemma_concat_assoc(e0, e1, t2);
            lemma_concat_assoc(e0 + e1, e2, rest);
        }
        assert(Self::spec_encode(m) == Ok::<Seq<u8>, CodecError>(e0 + e1 + e2));
    }
}
/// The client-bound play message: entity teleport.
pub struct EntityTeleport {
    pub entity_id: VarInt,
    pub x: Double,
    pub y: Double,
    pub z: Double,
    pub yaw: Angle,
    pub pitch: Angle,
    pub on_ground: bool,
}

/// The model of a `EntityTeleport`: each field by its model.
pub struct EntityTeleportView {
    pub entity_id: i32,
    pub x: u64,
    pub y: u64,
    pub z: u64,
    pub yaw: u8,
    pub pitch: u8,
    pub on_ground: bool,
}

impl DeepView for EntityTeleport {
    type V = EntityTeleportView;

    open spec fn deep_view(&self) -> EntityTeleportView {
        EntityTeleportView {
            entity_id: self.entity_id.deep_view(),
            x: self.x.deep_view(),
            y: self.y.deep_view(),
            z: self.z.deep_view(),
            yaw: self.yaw.deep_view(),
            pitch: self.pitch.deep_view(),
            on_ground: self.on_ground.deep_view(),
        }
    }
}

impl Encodable for EntityTeleport {
    /// The fields in order, with no framing.
    open spec fn spec_encode(m: EntityTeleportView) -> Result<Seq<u8>, CodecError> {
        then_encode(then_encode(then_encode(then_encode(then_encode(then_encode(<VarInt as Encodable>::spec_encode(m.entity_id), <Double as Encodable>::spec_encode(m.x)), <Double as Encodable>::spec_encode(m.y)), <Double as Encodable>::spec_encode(m.z)), <Angle as Encodable>::spec_encode(m.yaw)), <Angle as Encodable>::spec_encode(m.pitch)), <bool as Encodable>::spec_encode(m.on_ground))
    }

    /// The sum of the fields' sizes.
    open spec fn spec_size(m: EntityTeleportView) -> Result<nat, CodecError> {
        add_size_spec(add_size_spec(add_size_spec(add_size_spec(add_size_spec(add_size_spec(<VarInt as Encodable>::spec_size(m.entity_id), <Double as Encodable>::spec_size(m.x)), <Double as Encodable>::spec_size(m.y)), <Double as Encodable>::spec_size(m.z)), <Angle as Encodable>::spec_size(m.yaw)), <Angle as Encodable>::spec_size(m.pitch)), <bool as Encodable>::spec_size(m.on_ground))
    }

    proof fn lemma_size_faithful(m: EntityTeleportView) {
        <VarInt as Encodable>::lemma_size_faithful(m.entity_id);
        <Double as Encodable>::lemma_size_faithful(m.x);
        <Double as Encodable>::lemma_size_faithful(m.y);
        <Double as Encodable>::lemma_size_faithful(m.z);
        <Angle as Encodable>::lemma_size_faithful(m.yaw);
        <Angle as Encodable>::lemma_size_faithful(m.pitch);
        <bool as Encodable>::lemma_size_faithful(m.on_ground);
        lemma_then_size(<VarInt as Encodable>::spec_encode(m.entity_id), <VarInt as Encodable>::spec_size(m.entity_id), <Double as Encodable>::spec_encode(m.x), <Double as Encodable>::spec_size(m.x));
        lemma_then_size(then_encode(<VarInt as Encodable>::spec_encode(m.entity_id), <Double as Encodable>::spec_encode(m.x)), add_size_spec(<VarInt as Encodable>::spec_size(m.entity_id), <Double as Encodable>::spec_size(m.x)), <Double as Encodable>::spec_encode(m.y), <Double as Encodable>::spec_size(m.y));
        lemma_then_size(then_encode(then_encode(<VarInt as Encodable>::spec_encode(m.entity_id), <Double as Encodable>::spec_encode(m.x)), <Double as Encodable>::spec_encode(m.y)), add_size_spec(add_size_spec(<VarInt as Encodable>::spec_size(m.entity_id), <Double as Encodable>::spec_size(m.x)), <Double as Encodable>::spec_size(m.y)), <Double as Encodable>::spec_encode(m.z), <Double as Encodable>::spec_size(m.z));
        lemma_then_size(then_encode(then_encode(then_encode(<VarInt as Encodable>::spec_encode(m.entity_id), <Double as Encodable>::spec_encode(m.x)), <Double as Encodable>::spec_encode(m.y)), <Double as Encodable>::spec_encode(m.z)), add_size_spec(add_size_spec(add_size_spec(<VarInt as Encodable>::spec_size(m.entity_id), <Double as Encodable>::spec_size(m.x)), <Double as Encodable>::spec_size(m.y)), <Double as Encodable>::spec_size(m.z)), <Angle as Encodable>::spec_encode(m.yaw), <Angle as Encodable>::spec_size(m.yaw));
        lemma_then_size(then_encode(then_encode(then_encode(then_encode(<VarInt as Encodable>::spec_encode(m.entity_id), <Double as Encodable>::spec_encode(m.x)), <Double as Encodable>::spec_encode(m.y)), <Double as Encodable>::spec_encode(m.z)), <Angle as Encodable>::spec_encode(m.yaw)), add_size_spec(add_size_spec(add_size_spec(add_size_spec(<VarInt as Encodable>::spec_size(m.entity_id), <Double as Encodable>::spec_size(m.x)), <Double as Encodable>::spec_size(m.y)), <Double as Encodable>::spec_size(m.z)), <Angle as Encodable>::spec_size(m.yaw)), <Angle as Encodable>::spec_encode(m.pitch), <Angle as Encodable>::spec_size(m.pitch));
        lemma_then_size(then_encode(then_encode(then_encode(then_encode(then_encode(<VarInt as Encodable>::spec_encode(m.entity_id), <Double as Encodable>::spec_encode(m.x)), <Double as Encodable>::spec_encode(m.y)), <Double as Encodable>::spec_encode(m.z)), <Angle as Encodable>::spec_encode(m.yaw)), <Angle as Encodable>::spec_encode(m.pitch)), add_size_spec(add_size_spec(add_size_spec(add_size_spec(add_size_spec(<VarInt as Encodable>::spec_size(m.entity_id), <Double as Encodable>::spec_size(m.x)), <Double as Encodable>::spec_size(m.y)), <Double as Encodable>::spec_size(m.z)), <Angle as Encodable>::spec_size(m.yaw)), <Angle as Encodable>::spec_size(m.pitch)), <bool as Encodable>::spec_encode(m.on_ground), <bool as Encodable>::spec_size(m.on_ground));
    }

    fn encode(&self, out: &mut Vec<u8>) -> (r: Result<(), CodecError>) {
        let ghost o0 = out@;
        let start = out.len();
        let ghost e0 = <VarInt as Encodable>::spec_encode(self.entity_id.deep_view())->Ok_0;
        let ghost e1 = <Double as Encodable>::spec_encode(self.x.deep_view())->Ok_0;
        let ghost e2 = <Double as Encodable>::spec_encode(self.y.deep_view())->Ok_0;
        let ghost e3 = <Double as Encodable>::spec_encode(self.z.deep_view())->Ok_0;
        let ghost e4 = <Angle as Encodable>::spec_encode(self.yaw.deep_view())->Ok_0;
        let ghost e5 = <Angle as Encodable>::spec_encode(self.pitch.deep_view())->Ok_0;
        let ghost e6 = <bool as Encodable>::spec_encode(self.on_ground.deep_view())->Ok_0;
        match self.entity_id.encode(out) {
            Ok(_) => {},
            Err(e) => return Err(e),
        }
        match self.x.encode(out) {
            Ok(_) => {},
            Err(e) => {
                roll_back(out, Ghost(o0), Ghost(e0), start);
                return Err(e);
            },
        }
        proof {
            lemma_concat_assoc(o0, e0, e1);
        }
        match self.y.encode(out) {
            Ok(_) => {},
            Err(e) => {
                roll_back(out, Ghost(o0), Ghost(e0 + e1), start);
                return Err(e);
            },
        }
        proof {
            lemma_concat_assoc(o0, e0 + e1, e2);
        }
        match self.z.encode(out) {
            Ok(_) => {},
            Err(e) => {
                roll_back(out, Ghost(o0), Ghost(e0 + e1 + e2), start);
                return Err(e);
            },
        }
        proof {
            lemma_concat_assoc(o0, e0 + e1 + e2, e3);
        }
        match self.yaw.encode(out) {
            Ok(_) => {},
            Err(e) => {
                roll_back(out, Ghost(o0), Ghost(e0 + e1 + e2 + e3), start);
                return Err(e);
            },
        }
        proof {
            lemma_concat_assoc(o0, e0 + e1 + e2 + e3, e4);
        }
        match self.pitch.encode(out) {
            Ok(_) => {},
            Err(e) => {
                roll_back(out, Ghost(o0), Ghost(e0 + e1 + e2 + e3 + e4), start);
                return Err(e);
            },
        }
        proof {
            lemma_concat_assoc(o0, e0 + e1 + e2 + e3 + e4, e5);
        }
        match self.on_ground.encode(out) {
            Ok(_) => {},
            Err(e) => {
                roll_back(out, Ghost(o0), Ghost(e0 + e1 + e2 + e3 + e4 + e5), start);
                return Err(e);
            },
        }
        proof {
            lemma_concat_assoc(o0, e0 + e1 + e2 + e3 + e4 + e5, e6);
        }
        Ok(())
    }

    fn size(&self) -> (r: Result<VarInt, CodecError>) {
        proof {
            <VarInt as Encodable>::lemma_size_faithful(self.entity_id.deep_view());
            <Double as Encodable>::lemma_size_faithful(self.x.deep_view());
            <Double as Encodable>::lemma_size_faithful(self.y.deep_view());
            <Double as Encodable>::lemma_size_faithful(self.z.deep_view());
            <Angle as Encodable>::lemma_size_faithful(self.yaw.deep_view());
            <Angle as Encodable>::lemma_size_faithful(self.pitch.deep_view());
            <bool as Encodable>::lemma_size_faithful(self.on_ground.deep_view());
        }
        let ghost w0 = <VarInt as Encodable>::spec_size(self.entity_id.deep_view());
        let ghost w1 = <Double as Encodable>::spec_size(self.x.deep_view());
        let ghost w2 = <Double as Encodable>::spec_size(self.y.deep_view());
        let ghost w3 = <Double as Encodable>::spec_size(self.z.deep_view());
        let ghost w4 = <Angle as Encodable>::spec_size(self.yaw.deep_view());
        let ghost w5 = <Angle as Encodable>::spec_size(self.pitch.deep_view());
        let ghost w6 = <bool as Encodable>::spec_size(self.on_ground.deep_view());
        let t0 = self.entity_id.size();
        let t1 = add_size(t0, Ghost(w0), self.x.size(), Ghost(w1));
        let ghost c1 = add_size_spec(w0, w1);
        let t2 = add_size(t1, Ghost(c1), self.y.size(), Ghost(w2));
        let ghost c2 = add_size_spec(c1, w2);
        let t3 = add_size(t2, Ghost(c2), self.z.size(), Ghost(w3));
        let ghost c3 = add_size_spec(c2, w3);
        let t4 = add_size(t3, Ghost(c3), self.yaw.size(), Ghost(w4));
        let ghost c4 = add_size_spec(c3, w4);
        let t5 = add_size(t4, Ghost(c4), self.pitch.size(), Ghost(w5));
        let ghost c5 = add_size_spec(c4, w5);
        let t6 = add_size(t5, Ghost(c5), self.on_ground.size(), Ghost(w6));
        t6
    }
}

impl Decodable for EntityTeleport {
    open spec fn spec_decode(bytes: Seq<u8>) -> Result<(EntityTeleportView, nat), CodecError> {
        match decode_at::<VarInt>(bytes, 0) {
            Err(e) => Err(e),
            Ok((entity_id, n0)) => match decode_at::<Double>(bytes, n0) {
                Err(e) => Err(e),
                Ok((x, n1)) => match decode_at::<Double>(bytes, n0 + n1) {
                    Err(e) => Err(e),
                    Ok((y, n2)) => match decode_at::<Double>(bytes, n0 + n1 + n2) {
                        Err(e) => Err(e),
                        Ok((z, n3)) => match decode_at::<Angle>(bytes, n0 + n1 + n2 + n3) {
                            Err(e) => Err(e),
                            Ok((yaw, n4)) => match decode_at::<Angle>(bytes, n0 + n1 + n2 + n3 + n4) {
                                Err(e) => Err(e),
                                Ok((pitch, n5)) => match decode_at::<bool>(bytes, n0 + n1 + n2 + n3 + n4 + n5) {
                                    Err(e) => Err(e),
                                    Ok((on_ground, n6)) => Ok((EntityTeleportView { entity_id, x, y, z, yaw, pitch, on_ground }, n0 + n1 + n2 + n3 + n4 + n5 + n6)),
                                },
                            },
                        },
                    },
                },
            },
        }
    }

    proof fn lemma_decode_len(bytes: Seq<u8>) {
        lemma_decode_at::<VarInt>(bytes, 0);
        <VarInt as Decodable>::lemma_decode_len(bytes.subrange((0) as int, bytes.len() as int));
        if let Ok((entity_id, n0)) = decode_at::<VarInt>(bytes, 0) {
            lemma_decode_at::<Double>(bytes, n0);
            <Double as Decodable>::lemma_decode_len(bytes.subrange((n0) as int, bytes.len() as int));
            if let Ok((x, n1)) = decode_at::<Double>(bytes, n0) {
                lemma_decode_at::<Double>(bytes, n0 + n1);
                <Double as Decodable>::lemma_decode_len(bytes.subrange((n0 + n1) as int, bytes.len() as int));
                if let Ok((y, n2)) = decode_at::<Double>(bytes, n0 + n1) {
                    lemma_decode_at::<Double>(bytes, n0 + n1 + n2);
                    <Double as Decodable>::lemma_decode_len(bytes.subrange((n0 + n1 + n2) as int, bytes.len() as int));
                    if let Ok((z, n3)) = decode_at::<Double>(bytes, n0 + n1 + n2) {
                        lemma_decode_at::<Angle>(bytes, n0 + n1 + n2 + n3);
                        <Angle as Decodable>::lemma_decode_len(bytes.subrange((n0 + n1 + n2 + n3) as int, bytes.len() as int));
                        if let Ok((yaw, n4)) = decode_at::<Angle>(bytes, n0 + n1 + n2 + n3) {
                            lemma_decode_at::<Angle>(bytes, n0 + n1 + n2 + n3 + n4);
                            <Angle as Decodable>::lemma_decode_len(bytes.subrange((n0 + n1 + n2 + n3 + n4) as int, bytes.len() as int));
                            if let Ok((pitch, n5)) = decode_at::<Angle>(bytes, n0 + n1 + n2 + n3 + n4) {
                                lemma_decode_at::<bool>(bytes, n0 + n1 + n2 + n3 + n4 + n5);
                                <bool as Decodable>::lemma_decode_len(bytes.subrange((n0 + n1 + n2 + n3 + n4 + n5) as int, bytes.len() as int));
                            }
                        }
                    }
                }
            }
        }
    }

    fn decode(reader: &mut ByteReader) -> (r: Result<EntityTeleport, CodecError>) {
        let ghost r0 = *reader;
        let ghost rest0 = reader.rest();
        proof {
            ByteReader::lemma_rest_since(r0, *reader);
            lemma_decode_at::<VarInt>(rest0, (reader.pos() - r0.pos()) as nat);
        }
        let entity_id = match <VarInt>::decode(reader) {
            Ok(v) => v,
            Err(e) => return Err(e),
        };
        proof {
            ByteReader::lemma_rest_since(r0, *reader);
            lemma_decode_at::<Double>(rest0, (reader.pos() - r0.pos()) as nat);
        }
        let x = match <Double>::decode(reader) {
            Ok(v) => v,
            Err(e) => return Err(e),
        };
        proof {
            ByteReader::lemma_rest_since(r0, *reader);
            lemma_decode_at::<Double>(rest0, (reader.pos() - r0.pos()) as nat);
        }
        let y = match <Double>::decode(reader) {
            Ok(v) => v,
            Err(e) => return Err(e),
        };
        proof {
            ByteReader::lemma_rest_since(r0, *reader);
            lemma_decode_at::<Double>(rest0, (reader.pos() - r0.pos()) as nat);
        }
        let z = match <Double>::decode(reader) {
            Ok(v) => v,
            Err(e) => return Err(e),
        };
        proof {
            ByteReader::lemma_rest_since(r0, *reader);
            lemma_decode_at::<Angle>(rest0, (reader.pos() - r0.pos()) as nat);
        }
        let yaw = match <Angle>::decode(reader) {
            Ok(v) => v,
            Err(e) => return Err(e),
        };
        proof {
            ByteReader::lemma_rest_since(r0, *reader);
            lemma_decode_at::<Angle>(rest0, (reader.pos() - r0.pos()) as nat);
        }
        let pitch = match <Angle>::decode(reader) {
            Ok(v) => v,
            Err(e) => return Err(e),
        };
        proof {
            ByteReader::lemma_rest_since(r0, *reader);
            lemma_decode_at::<bool>(rest0, (reader.pos() - r0.pos()) as nat);
        }
        let on_ground = match <bool>::decode(reader) {
            Ok(v) => v,
            Err(e) => return Err(e),
        };
        Ok(EntityTeleport { entity_id, x, y, z, yaw, pitch, on_ground })
    }
}

impl Codec for EntityTeleport {
    open spec fn valid(m: EntityTeleportView) -> bool {
        &&& <VarInt as Codec>::valid(m.entity_id)
        &&& <VarInt as Codec>::delimited()
        &&& <Double as Codec>::valid(m.x)
        &&& <Double as Codec>::delimited()
        &&& <Double as Codec>::valid(m.y)
        &&& <Double as Codec>::delimited()
        &&& <Double as Codec>::valid(m.z)
        &&& <Double as Codec>::delimited()
        &&& <Angle as Codec>::valid(m.yaw)
        &&& <Angle as Codec>::delimited()
        &&& <Angle as Codec>::valid(m.pitch)
        &&& <Angle as Codec>::delimited()
        &&& <bool as Codec>::valid(m.on_ground)
    }

    open spec fn delimited() -> bool {
        <bool as Codec>::delimited()
    }

    proof fn lemma_round_trip(m: EntityTeleportView, rest: Seq<u8>) {
        let e0 = <VarInt as Encodable>::spec_encode(m.entity_id)->Ok_0;
        let e1 = <Double as Encodable>::spec_encode(m.x)->Ok_0;
        let e2 = <Double as Encodable>::spec_encode(m.y)->Ok_0;
        let e3 = <Double as Encodable>::spec_encode(m.z)->Ok_0;
        let e4 = <Angle as Encodable>::spec_encode(m.yaw)->Ok_0;
        let e5 = <Angle as Encodable>::spec_encode(m.pitch)->Ok_0;
        let e6 = <bool as Encodable>::spec_encode(m.on_ground)->Ok_0;
        let t6 = e6 + rest;
        let t5 = e5 + t6;
        let t4 = e4 + t5;
        let t3 = e3 + t4;
        let t2 = e2 + t3;
        let t1 = e1 + t2;
        let t0 = e0 + t1;
        assert(decode_at::<VarInt>(t0, (0) as nat) == Ok::<(<VarInt as DeepView>::V, nat), CodecError>((m.entity_id, e0.len()))
            && <VarInt as Encodable>::spec_encode(m.entity_id) == Ok::<Seq<u8>, CodecError>(e0)
            && decode_at::<Double>(t0, (e0.len()) as nat) == Ok::<(<Double as DeepView>::V, nat), CodecError>((m.x, e1.len()))
            && <Double as Encodable>::spec_encode(m.x) == Ok::<Seq<u8>, CodecError>(e1)
            && decode_at::<Double>(t0, (e0.len() + e1.len()) as nat) == Ok::<(<Double as DeepView>::V, nat), CodecError>((m.y, e2.len()))
            && <Double as Encodable>::spec_encode(m.y) == Ok::<Seq<u8>, CodecError>(e2)
            && decode_at::<Double>(t0, (e0.len() + e1.len() + e2.len()) as nat) == Ok::<(<Double as DeepView>::V, nat), CodecError>((m.z, e3.len()))
            && <Double as Encodable>::spec_encode(m.z) == Ok::<Seq<u8>, CodecError>(e3)
            && decode_at::<Angle>(t0, (e0.len() + e1.len() + e2.len() + e3.len()) as nat) == Ok::<(<Angle as DeepView>::V, nat), CodecError>((m.yaw, e4.len()))
            && <Angle as Encodable>::spec_encode(m.yaw) == Ok::<Seq<u8>, CodecError>(e4)
            && decode_at::<Angle>(t0, (e0.len() + e1.len() + e2.len() + e3.len() + e4.len()) as nat) == Ok::<(<Angle as DeepView>::V, nat), CodecError>((m.pitch, e5.len()))
            && <Angle as Encodable>::spec_encode(m.pitch) == Ok::<Seq<u8>, CodecError>(e5)
            && decode_at::<bool>(t0, (e0.len() + e1.len() + e2.len() + e3.len() + e4.len() + e5.len()) as nat) == Ok::<(<bool as DeepView>::V, nat), CodecError>((m.on_ground, e6.len()))
            && <bool as Encodable>::spec_encode(m.on_ground) == Ok::<Seq<u8>, CodecError>(e6)) by {
            lemma_subrange_all(t0);
            lemma_field_round_trip::<VarInt>(m.entity_id, t0, (0) as nat, t1);
            lemma_field_round_trip::<Double>(m.x, t0, (e0.len()) as nat, t2);
            lemma_field_round_trip::<Double>(m.y, t0, (e0.len() + e1.len()) as nat, t3);
            lemma_field_round_trip::<Double>(m.z, t0, (e0.len() + e1.len() + e2.len()) as nat, t4);
            lemma_field_round_trip::<Angle>(m.yaw, t0, (e0.len() + e1.len() + e2.len() + e3.len()) as nat, t5);
            lemma_field_round_trip::<Angle>(m.pitch, t0, (e0.len() + e1.len() + e2.len() + e3.len() + e4.len()) as nat, t6);
            lemma_field_round_trip::<bool>(m.on_ground, t0, (e0.len() + e1.len() + e2.len() + e3.len() + e4.len() + e5.len()) as nat, rest);
        }
        assert(e0 + e1 + e2 + e3 + e4 + e5 + e6 + rest == t0) by {
            lemma_concat_assoc(e0, e1, t2);
            lemma_concat_assoc(e0 + e1, e2, t3);
            lemma_concat_assoc(e0 + e1 + e2, e3, t4);
            lemma_concat_assoc(e0 + e1 + e2 + e3, e4, t5);
            lemma_concat_assoc(e0 + e1 + e2 + e3 + e4, e5, t6);
            lemma_concat_assoc(e0 + e1 + e2 + e3 + e4 + e5, e6, rest);
        }
        assert(Self::spec_encode(m) == Ok::<Seq<u8>, CodecError>(e0 + e1 + e2 + e3 + e4 + e5 + e6));
    }
}
/// The client-bound play message: entity effect.
pub struct EntityEffect {
    pub entity_id: VarInt,
    pub effect_id: i8,
    pub amplifier: i8,
    pub duration: VarInt,
    pub flags: i8,
}

/// The model of a `EntityEffect`: each field by its model.
pub struct EntityEffectView {
    pub entity_id: i32,
    pub effect_id: i8,
    pub amplifier: i8,
    pub duration: i32,
    pub flags: i8,
}

impl DeepView for EntityEffect {
    type V = EntityEffectView;

    open spec fn deep_view(&self) -> EntityEffectView {
        EntityEffectView {
            entity_id: self.entity_id.deep_view(),
            effect_id: self.effect_id.deep_view(),
            amplifier: self.amplifier.deep_view(),
            duration: self.duration.deep_view(),
            flags: self.flags.deep_view(),
        }
    }
}

impl Encodable for EntityEffect {
    /// The fields in order, with no framing.
    open spec fn spec_encode(m: EntityEffectView) -> Result<Seq<u8>, CodecError> {
        then_encode(then_encode(then_encode(then_encode(<VarInt as Encodable>::spec_encode(m.entity_id), <i8 as Encodable>::spec_encode(m.effect_id)), <i8 as Encodable>::spec_encode(m.amplifier)), <VarInt as Encodable>::spec_encode(m.duration)), <i8 as Encodable>::spec_encode(m.flags))
    }

    /// The sum of the fields' sizes.
    open spec fn spec_size(m: EntityEffectView) -> Result<nat, CodecError> {
        add_size_spec(add_size_spec(add_size_spec(add_size_spec(<VarInt as Encodable>::spec_size(m.entity_id), <i8 as Encodable>::spec_size(m.effect_id)), <i8 as Encodable>::spec_size(m.amplifier)), <VarInt as Encodable>::spec_size(m.duration)), <i8 as Encodable>::spec_size(m.flags))
    }

    proof fn lemma_size_faithful(m: EntityEffectView) {
        <VarInt as Encodable>::lemma_size_faithful(m.entity_id);
        <i8 as Encodable>::lemma_size_faithful(m.effect_id);
        <i8 as Encodable>::lemma_size_faithful(m.amplifier);
        <VarInt as Encodable>::lemma_size_faithful(m.duration);
        <i8 as Encodable>::lemma_size_faithful(m.flags);
        lemma_then_size(<VarInt as Encodable>::spec_encode(m.entity_id), <VarInt as Encodable>::spec_size(m.entity_id), <i8 as Encodable>::spec_encode(m.effect_id), <i8 as Encodable>::spec_size(m.effect_id));
        lemma_then_size(then_encode(<VarInt as Encodable>::spec_encode(m.entity_id), <i8 as Encodable>::spec_encode(m.effect_id)), add_size_spec(<VarInt as Encodable>::spec_size(m.entity_id), <i8 as Encodable>::spec_size(m.effect_id)), <i8 as Encodable>::spec_encode(m.amplifier), <i8 as Encodable>::spec_size(m.amplifier));
        lemma_then_size(then_encode(then_encode(<VarInt as Encodable>::spec_encode(m.entity_id), <i8 as Encodable>::spec_encode(m.effect_id)), <i8 as Encodable>::spec_encode(m.amplifier)), add_size_spec(add_size_spec(<VarInt as Encodable>::spec_size(m.entity_id), <i8 as Encodable>::spec_size(m.effect_id)), <i8 as Encodable>::spec_size(m.amplifier)), <VarInt as Encodable>::spec_encode(m.duration), <VarInt as Encodable>::spec_size(m.duration));
        lemma_then_size(then_encode(then_encode(then_encode(<VarInt as Encodable>::spec_encode(m.entity_id), <i8 as Encodable>::spec_encode(m.effect_id)), <i8 as Encodable>::spec_encode(m.amplifier)), <VarInt as Encodable>::spec_encode(m.duration)), add_size_spec(add_size_spec(add_size_spec(<VarInt as Encodable>::spec_size(m.entity_id), <i8 as Encodable>::spec_size(m.effect_id)), <i8 as Encodable>::spec_size(m.amplifier)), <VarInt as Encodable>::spec_size(m.duration)), <i8 as Encodable>::spec_encode(m.flags), <i8 as Encodable>::spec_size(m.flags));
    }

    fn encode(&self, out: &mut Vec<u8>) -> (r: Result<(), CodecError>) {
        let ghost o0 = out@;
        let start = out.len();
        let ghost e0 = <VarInt as Encodable>::spec_encode(self.entity_id.deep_view())->Ok_0;
        let ghost e1 = <i8 as Encodable>::spec_encode(self.effect_id.deep_view())->Ok_0;
        let ghost e2 = <i8 as Encodable>::spec_encode(self.amplifier.deep_view())->Ok_0;
        let ghost e3 = <VarInt as Encodable>::spec_encode(self.duration.deep_view())->Ok_0;
        let ghost e4 = <i8 as Encodable>::spec_encode(self.flags.deep_view())->Ok_0;
        match self.entity_id.encode(out) {
            Ok(_) => {},
            Err(e) => return Err(e),
        }
        match self.effect_id.encode(out) {
            Ok(_) => {},
            Err(e) => {
                roll_back(out, Ghost(o0), Ghost(e0), start);
                return Err(e);
            },
        }
        proof {
            lemma_concat_assoc(o0, e0, e1);
        }
        match self.amplifier.encode(out) {
            Ok(_) => {},
            Err(e) => {
                roll_back(out, Ghost(o0), Ghost(e0 + e1), start);
                return Err(e);
            },
        }
        proof {
            lemma_concat_assoc(o0, e0 + e1, e2);
        }
        match self.duration.encode(out) {
            Ok(_) => {},
            Err(e) => {
                roll_back(out, Ghost(o0), Ghost(e0 + e1 + e2), start);
                return Err(e);
            },
        }
        proof {
            lemma_concat_assoc(o0, e0 + e1 + e2, e3);
        }
        match self.flags.encode(out) {
            Ok(_) => {},
            Err(e) => {
                roll_back(out, Ghost(o0), Ghost(e0 + e1 + e2 + e3), start);
                return Err(e);
            },
        }
        proof {
            lemma_concat_assoc(o0, e0 + e1 + e2 + e3, e4);
        }
        Ok(())
    }

    fn size(&self) -> (r: Result<VarInt, CodecError>) {
        proof {
            <VarInt as Encodable>::lemma_size_faithful(self.entity_id.deep_view());
            <i8 as Encodable>::lemma_size_faithful(self.effect_id.deep_view());
            <i8 as Encodable>::lemma_size_faithful(self.amplifier.deep_view());
            <VarInt as Encodable>::lemma_size_faithful(self.duration.deep_view());
            <i8 as Encodable>::lemma_size_faithful(self.flags.deep_view());
        }
        let ghost w0 = <VarInt as Encodable>::spec_size(self.entity_id.deep_view());
        let ghost w1 = <i8 as Encodable>::spec_size(self.effect_id.deep_view());
        let ghost w2 = <i8 as Encodable>::spec_size(self.amplifier.deep_view());
        let ghost w3 = <VarInt as Encodable>::spec_size(self.duration.deep_view());
        let ghost w4 = <i8 as Encodable>::spec_size(self.flags.deep_view());
        let t0 = self.entity_id.size();
        let t1 = add_size(t0, Ghost(w0), self.effect_id.size(), Ghost(w1));
        let ghost c1 = add_size_spec(w0, w1);
        let t2 = add_size(t1, Ghost(c1), self.amplifier.size(), Ghost(w2));
        let ghost c2 = add_size_spec(c1, w2);
        let t3 = add_size(t2, Ghost(c2), self.duration.size(), Ghost(w3));
        let ghost c3 = add_size_spec(c2, w3);
        let t4 = add_size(t3, Ghost(c3), self.flags.size(), Ghost(w4));
        t4
    }
}

impl Decodable for EntityEffect {
    open spec fn spec_decode(bytes: Seq<u8>) -> Result<(EntityEffectView, nat), CodecError> {
        match decode_at::<VarInt>(bytes, 0) {
            Err(e) => Err(e),
            Ok((entity_id, n0)) => match decode_at::<i8>(bytes, n0) {
                Err(e) => Err(e),
                Ok((effect_id, n1)) => match decode_at::<i8>(bytes, n0 + n1) {
                    Err(e) => Err(e),
                    Ok((amplifier, n2)) => match decode_at::<VarInt>(bytes, n0 + n1 + n2) {
                        Err(e) => Err(e),
                        Ok((duration, n3)) => match decode_at::<i8>(bytes, n0 + n1 + n2 + n3) {
                            Err(e) => Err(e),
                            Ok((flags, n4)) => Ok((EntityEffectView { entity_id, effect_id, amplifier, duration, flags }, n0 + n1 + n2 + n3 + n4)),
                        },
                    },
                },
            },
        }
    }

    proof fn lemma_decode_len(bytes: Seq<u8>) {
        lemma_decode_at::<VarInt>(bytes, 0);
        <VarInt as Decodable>::lemma_decode_len(bytes.subrange((0) as int, bytes.len() as int));
        if let Ok((entity_id, n0)) = decode_at::<VarInt>(bytes, 0) {
            lemma_decode_at::<i8>(bytes, n0);
            <i8 as Decodable>::lemma_decode_len(bytes.subrange((n0) as int, bytes.len() as int));
            if let Ok((effect_id, n1)) = decode_at::<i8>(bytes, n0) {
                lemma_decode_at::<i8>(bytes, n0 + n1);
                <i8 as Decodable>::lemma_decode_len(bytes.subrange((n0 + n1) as int, bytes.len() as int));
                if let Ok((amplifier, n2)) = decode_at::<i8>(bytes, n0 + n1) {
                    lemma_decode_at::<VarInt>(bytes, n0 + n1 + n2);
                    <VarInt as Decodable>::lemma_decode_len(bytes.subrange((n0 + n1 + n2) as int, bytes.len() as int));
                    if let Ok((duration, n3)) = decode_at::<VarInt>(bytes, n0 + n1 + n2) {
                        lemma_decode_at::<i8>(bytes, n0 + n1 + n2 + n3);
                        <i8 as Decodable>::lemma_decode_len(bytes.subrange((n0 + n1 + n2 + n3) as int, bytes.len() as int));
                    }
                }
            }
        }
    }

    fn decode(reader: &mut ByteReader) -> (r: Result<EntityEffect, CodecError>) {
        let ghost r0 = *reader;
        let ghost rest0 = reader.rest();
        proof {
            ByteReader::lemma_rest_since(r0, *reader);
            lemma_decode_at::<VarInt>(rest0, (reader.pos() - r0.pos()) as nat);
        }
        let entity_id = match <VarInt>::decode(reader) {
            Ok(v) => v,
            Err(e) => return Err(e),
        };
        proof {
            ByteReader::lemma_rest_since(r0, *reader);
            lemma_decode_at::<i8>(rest0, (reader.pos() - r0.pos()) as nat);
        }
        let effect_id = match <i8>::decode(reader) {
            Ok(v) => v,
            Err(e) => return Err(e),
        };
        proof {
            ByteReader::lemma_rest_since(r0, *reader);
            lemma_decode_at::<i8>(rest0, (reader.pos() - r0.pos()) as nat);
        }
        let amplifier = match <i8>::decode(reader) {
            Ok(v) => v,
            Err(e) => return Err(e),
        };
        proof {
            ByteReader::lemma_rest_since(r0, *reader);
            lemma_decode_at::<VarInt>(rest0, (reader.pos() - r0.pos()) as nat);
        }
        let duration = match <VarInt>::decode(reader) {
            Ok(v) => v,
            Err(e) => return Err(e),
        };
        proof {
            ByteReader::lemma_rest_since(r0, *reader);
            lemma_decode_at::<i8>(rest0, (reader.pos() - r0.pos()) as nat);
        }
        let flags = match <i8>::decode(reader) {
            Ok(v) => v,
            Err(e) => return Err(e),
        };
        Ok(EntityEffect { entity_id, effect_id, amplifier, duration, flags })
    }
}

impl Codec for EntityEffect {
    open spec fn valid(m: EntityEffectView) -> bool {
        &&& <VarInt as Codec>::valid(m.entity_id)
        &&& <VarInt as Codec>::delimited()
        &&& <i8 as Codec>::valid(m.effect_id)
        &&& <i8 as Codec>::delimited()
        &&& <i8 as Codec>::valid(m.amplifier)
        &&& <i8 as Codec>::delimited()
        &&& <VarInt as Codec>::valid(m.duration)
        &&& <VarInt as Codec>::delimited()
        &&& <i8 as Codec>::valid(m.flags)
    }

    open spec fn delimited() -> bool {
        <i8 as Codec>::delimited()
    }

    proof fn lemma_round_trip(m: EntityEffectView, rest: Seq<u8>) {
        let e0 = <VarInt as Encodable>::spec_encode(m.entity_id)->Ok_0;
        let e1 = <i8 as Encodable>::spec_encode(m.effect_id)->Ok_0;
        let e2 = <i8 as Encodable>::spec_encode(m.amplifier)->Ok_0;
        let e3 = <VarInt as Encodable>::spec_encode(m.duration)->Ok_0;
        let e4 = <i8 as Encodable>::spec_encode(m.flags)->Ok_0;
        let t4 = e4 + rest;
        let t3 = e3 + t4;
        let t2 = e2 + t3;
        let t1 = e1 + t2;
        let t0 = e0 + t1;
        assert(decode_at::<VarInt>(t0, (0) as nat) == Ok::<(<VarInt as DeepView>::V, nat), CodecError>((m.entity_id, e0.len()))
            && <VarInt as Encodable>::spec_encode(m.entity_id) == Ok::<Seq<u8>, CodecError>(e0)
            && decode_at::<i8>(t0, (e0.len()) as nat) == Ok::<(<i8 as DeepView>::V, nat), CodecError>((m.effect_id, e1.len()))
            && <i8 as Encodable>::spec_encode(m.effect_id) == Ok::<Seq<u8>, CodecError>(e1)
            && decode_at::<i8>(t0, (e0.len() + e1.len()) as nat) == Ok::<(<i8 as DeepView>::V, nat), CodecError>((m.amplifier, e2.len()))
            && <i8 as Encodable>::spec_encode(m.amplifier) == Ok::<Seq<u8>, CodecError>(e2)
            && decode_at::<VarInt>(t0, (e0.len() + e1.len() + e2.len()) as nat) == Ok::<(<VarInt as DeepView>::V, nat), CodecError>((m.duration, e3.len()))
            && <VarInt as Encodable>::spec_encode(m.duration) == Ok::<Seq<u8>, CodecError>(e3)
            && decode_at::<i8>(t0, (e0.len() + e1.len() + e2.len() + e3.len()) as nat) == Ok::<(<i8 as DeepView>::V, nat), CodecError>((m.flags, e4.len()))
            && <i8 as Encodable>::spec_encode(m.flags) == Ok::<Seq<u8>, CodecError>(e4)) by {
            lemma_subrange_all(t0);
            lemma_field_round_trip::<VarInt>(m.entity_id, t0, (0) as nat, t1);
            lemma_field_round_trip::<i8>(m.effect_id, t0, (e0.len()) as nat, t2);
            lemma_field_round_trip::<i8>(m.amplifier, t0, (e0.len() + e1.len()) as nat, t3);
            lemma_field_round_trip::<VarInt>(m.duration, t0, (e0.len() + e1.len() + e2.len()) as nat, t4);
            lemma_field_round_trip::<i8>(m.flags, t0, (e0.len() + e1.len() + e2.len() + e3.len()) as nat, rest);
        }
        assert(e0 + e1 + e2 + e3 + e4 + rest == t0) by {
            lemma_concat_assoc(e0, e1, t2);
            lemma_concat_assoc(e0 + e1, e2, t3);
            lemma_concat_assoc(e0 + e1 + e2, e3, t4);
            lemma_concat_assoc(e0 + e1 + e2 + e3, e4, rest);
        }
        assert(Self::spec_encode(m) == Ok::<Seq<u8>, CodecError>(e0 + e1 + e2 + e3 + e4));
    }
}

} // verus!
