use vstd::prelude::*;

use crate::codec::{
    add_size, add_size_spec, lemma_then_size, decode_at, decode_if, lemma_concat_assoc,
    lemma_decode_at, lemma_subrange_all, lemma_decode_if, lemma_field_if_round_trip,
    lemma_field_round_trip, roll_back, then_encode, Codec, Decodable, Encodable, IndexDecodable,
};
use crate::error::CodecError;
use crate::reader::ByteReader;
use crate::varnum::{lemma_varint_len, lemma_varint_round_trip, varint_bytes, varint_parse, VarInt};
use crate::primitives::{Double, Float};
use crate::scalars::{McUuid, NbtTag, Position};
use crate::strings::{BigString, ChatJson};

verus! {

/// A facing along one axis.
#[derive(Clone, Copy, Debug, PartialEq, Eq, Structural)]
pub enum Direction {
    Down,
    Up,
    North,
    South,
    West,
    East,
}

impl DeepView for Direction {
    type V = Direction;

    open spec fn deep_view(&self) -> Direction {
        *self
    }
}

impl Encodable for Direction {
    /// The discriminant as a VarInt, then the payload if the variant has one.
    open spec fn spec_encode(m: Direction) -> Result<Seq<u8>, CodecError> {
        match m {
            Direction::Down => Ok(varint_bytes(0)),
            Direction::Up => Ok(varint_bytes(1)),
            Direction::North => Ok(varint_bytes(2)),
            Direction::South => Ok(varint_bytes(3)),
            Direction::West => Ok(varint_bytes(4)),
            Direction::East => Ok(varint_bytes(5)),
        }
    }

    /// The discriminant's size, plus the payload's where there is one.
    open spec fn spec_size(m: Direction) -> Result<nat, CodecError> {
        match m {
            Direction::Down => Ok(varint_bytes(0).len()),
            Direction::Up => Ok(varint_bytes(1).len()),
            Direction::North => Ok(varint_bytes(2).len()),
            Direction::South => Ok(varint_bytes(3).len()),
            Direction::West => Ok(varint_bytes(4).len()),
            Direction::East => Ok(varint_bytes(5).len()),
        }
    }

    proof fn lemma_size_faithful(m: Direction) {
        match m {
            Direction::Down => lemma_varint_len(0),
            Direction::Up => lemma_varint_len(1),
            Direction::North => lemma_varint_len(2),
            Direction::South => lemma_varint_len(3),
            Direction::West => lemma_varint_len(4),
            Direction::East => lemma_varint_len(5),
        }
    }

    fn encode(&self, out: &mut Vec<u8>) -> (r: Result<(), CodecError>) {
        match self {
            Direction::Down => VarInt(0).encode(out),
            Direction::Up => VarInt(1).encode(out),
            Direction::North => VarInt(2).encode(out),
            Direction::South => VarInt(3).encode(out),
            Direction::West => VarInt(4).encode(out),
            Direction::East => VarInt(5).encode(out),
        }
    }

    fn size(&self) -> (r: Result<VarInt, CodecError>) {
        match self {
            Direction::Down => VarInt(0).size(),
            Direction::Up => VarInt(1).size(),
            Direction::North => VarInt(2).size(),
            Direction::South => VarInt(3).size(),
            Direction::West => VarInt(4).size(),
            Direction::East => VarInt(5).size(),
        }
    }
}

impl IndexDecodable for Direction {
    /// The variant with discriminant `index`; an index that names none fails.
    open spec fn spec_decode_index(bytes: Seq<u8>, index: int) -> Result<(Direction, nat), CodecError> {
        if index == 0 {
            Ok((Direction::Down, 0))
        } else if index == 1 {
            Ok((Direction::Up, 0))
        } else if index == 2 {
            Ok((Direction::North, 0))
        } else if index == 3 {
            Ok((Direction::South, 0))
        } else if index == 4 {
            Ok((Direction::West, 0))
        } else if index == 5 {
            Ok((Direction::East, 0))
        } else {
            Err(CodecError::UnknownDiscriminant(index as i32))
        }
    }

    fn decode_index(reader: &mut ByteReader, index: &VarInt) -> (r: Result<Direction, CodecError>) {
        match index.0 {
            0 => Ok(Direction::Down),
            1 => Ok(Direction::Up),
            2 => Ok(Direction::North),
            3 => Ok(Direction::South),
            4 => Ok(Direction::West),
            5 => Ok(Direction::East),
            _ => Err(CodecError::UnknownDiscriminant(index.0)),
        }
    }
}

impl Decodable for Direction {
    open spec fn spec_decode(bytes: Seq<u8>) -> Result<(Direction, nat), CodecError> {
        match varint_parse(bytes) {
            Err(e) => Err(e),
            Ok((i, n)) => match Self::spec_decode_index(
                bytes.subrange(n as int, bytes.len() as int),
                i as int,
            ) {
                Ok((v, k)) => Ok((v, n + k)),
                Err(e) => Err(e),
            },
        }
    }

    proof fn lemma_decode_len(bytes: Seq<u8>) {
        <VarInt as Decodable>::lemma_decode_len(bytes);
        if let Ok((i, n)) = varint_parse(bytes) {
        }
    }

    fn decode(reader: &mut ByteReader) -> (r: Result<Direction, CodecError>) {
        let ghost rest0 = reader.rest();
        let index = match VarInt::decode(reader) {
            Ok(i) => i,
            Err(e) => return Err(e),
        };
        assert(reader.rest() =~= rest0.subrange(reader.pos() - old(reader).pos(), rest0.len() as int));
        Self::decode_index(reader, &index)
    }
}

impl Codec for Direction {
    open spec fn valid(m: Direction) -> bool {
        true
    }

    open spec fn delimited() -> bool {
        true
    }

    proof fn lemma_round_trip(m: Direction, rest: Seq<u8>) {
        match m {
            Direction::Down => {
                lemma_varint_round_trip(0, rest);
                assert(rest.subrange(0, rest.len() as int) =~= rest);
            },
            Direction::Up => {
                lemma_varint_round_trip(1, rest);
                assert(rest.subrange(0, rest.len() as int) =~= rest);
            },
            Direction::North => {
                lemma_varint_round_trip(2, rest);
                assert(rest.subrange(0, rest.len() as int) =~= rest);
            },
            Direction::South => {
                lemma_varint_round_trip(3, rest);
                assert(rest.subrange(0, rest.len() as int) =~= rest);
            },
            Direction::West => {
                lemma_varint_round_trip(4, rest);
                assert(rest.subrange(0, rest.len() as int) =~= rest);
            },
            Direction::East => {
                lemma_varint_round_trip(5, rest);
                assert(rest.subrange(0, rest.len() as int) =~= rest);
            },
        }
    }
}
/// The stance of an entity.
#[derive(Clone, Copy, Debug, PartialEq, Eq, Structural)]
pub enum Pose {
    Standing,
    FallFlying,
    Sleeping,
    Swimming,
    SpinAttack,
    Sneaking,
    LongJumping,
    Dying,
}

impl DeepView for Pose {
    type V = Pose;

    open spec fn deep_view(&self) -> Pose {
        *self
    }
}

impl Encodable for Pose {
    /// The discriminant as a VarInt, then the payload if the variant has one.
    open spec fn spec_encode(m: Pose) -> Result<Seq<u8>, CodecError> {
        match m {
            Pose::Standing => Ok(varint_bytes(0)),
            Pose::FallFlying => Ok(varint_bytes(1)),
            Pose::Sleeping => Ok(varint_bytes(2)),
            Pose::Swimming => Ok(varint_bytes(3)),
            Pose::SpinAttack => Ok(varint_bytes(4)),
            Pose::Sneaking => Ok(varint_bytes(5)),
            Pose::LongJumping => Ok(varint_bytes(6)),
            Pose::Dying => Ok(varint_bytes(7)),
        }
    }

    /// The discriminant's size, plus the payload's where there is one.
    open spec fn spec_size(m: Pose) -> Result<nat, CodecError> {
        match m {
            Pose::Standing => Ok(varint_bytes(0).len()),
            Pose::FallFlying => Ok(varint_bytes(1).len()),
            Pose::Sleeping => Ok(varint_bytes(2).len()),
            Pose::Swimming => Ok(varint_bytes(3).len()),
            Pose::SpinAttack => Ok(varint_bytes(4).len()),
            Pose::Sneaking => Ok(varint_bytes(5).len()),
            Pose::LongJumping => Ok(varint_bytes(6).len()),
            Pose::Dying => Ok(varint_bytes(7).len()),
        }
    }

    proof fn lemma_size_faithful(m: Pose) {
        match m {
            Pose::Standing => lemma_varint_len(0),
            Pose::FallFlying => lemma_varint_len(1),
            Pose::Sleeping => lemma_varint_len(2),
            Pose::Swimming => lemma_varint_len(3),
            Pose::SpinAttack => lemma_varint_len(4),
            Pose::Sneaking => lemma_varint_len(5),
            Pose::LongJumping => lemma_varint_len(6),
            Pose::Dying => lemma_varint_len(7),
        }
    }

    fn encode(&self, out: &mut Vec<u8>) -> (r: Result<(), CodecError>) {
        match self {
            Pose::Standing => VarInt(0).encode(out),
            Pose::FallFlying => VarInt(1).encode(out),
            Pose::Sleeping => VarInt(2).encode(out),
            Pose::Swimming => VarInt(3).encode(out),
            Pose::SpinAttack => VarInt(4).encode(out),
            Pose::Sneaking => VarInt(5).encode(out),
            Pose::LongJumping => VarInt(6).encode(out),
            Pose::Dying => VarInt(7).encode(out),
        }
    }

    fn size(&self) -> (r: Result<VarInt, CodecError>) {
        match self {
            Pose::Standing => VarInt(0).size(),
            Pose::FallFlying => VarInt(1).size(),
            Pose::Sleeping => VarInt(2).size(),
            Pose::Swimming => VarInt(3).size(),
            Pose::SpinAttack => VarInt(4).size(),
            Pose::Sneaking => VarInt(5).size(),
            Pose::LongJumping => VarInt(6).size(),
            Pose::Dying => VarInt(7).size(),
        }
    }
}

impl IndexDecodable for Pose {
    /// The variant with discriminant `index`; an index that names none fails.
    open spec fn spec_decode_index(bytes: Seq<u8>, index: int) -> Result<(Pose, nat), CodecError> {
        if index == 0 {
            Ok((Pose::Standing, 0))
        } else if index == 1 {
            Ok((Pose::FallFlying, 0))
        } else if index == 2 {
            Ok((Pose::Sleeping, 0))
        } else if index == 3 {
            Ok((Pose::Swimming, 0))
        } else if index == 4 {
            Ok((Pose::SpinAttack, 0))
        } else if index == 5 {
            Ok((Pose::Sneaking, 0))
        } else if index == 6 {
            Ok((Pose::LongJumping, 0))
        } else if index == 7 {
            Ok((Pose::Dying, 0))
        } else {
            Err(CodecError::UnknownDiscriminant(index as i32))
        }
    }

    fn decode_index(reader: &mut ByteReader, index: &VarInt) -> (r: Result<Pose, CodecError>) {
        match index.0 {
            0 => Ok(Pose::Standing),
            1 => Ok(Pose::FallFlying),
            2 => Ok(Pose::Sleeping),
            3 => Ok(Pose::Swimming),
            4 => Ok(Pose::SpinAttack),
            5 => Ok(Pose::Sneaking),
            6 => Ok(Pose::LongJumping),
            7 => Ok(Pose::Dying),
            _ => Err(CodecError::UnknownDiscriminant(index.0)),
        }
    }
}

impl Decodable for Pose {
    open spec fn spec_decode(bytes: Seq<u8>) -> Result<(Pose, nat), CodecError> {
        match varint_parse(bytes) {
            Err(e) => Err(e),
            Ok((i, n)) => match Self::spec_decode_index(
                bytes.subrange(n as int, bytes.len() as int),
                i as int,
            ) {
                Ok((v, k)) => Ok((v, n + k)),
                Err(e) => Err(e),
            },
        }
    }

    proof fn lemma_decode_len(bytes: Seq<u8>) {
        <VarInt as Decodable>::lemma_decode_len(bytes);
        if let Ok((i, n)) = varint_parse(bytes) {
        }
    }

    fn decode(reader: &mut ByteReader) -> (r: Result<Pose, CodecError>) {
        let ghost rest0 = reader.rest();
        let index = match VarInt::decode(reader) {
            Ok(i) => i,
            Err(e) => return Err(e),
        };
        assert(reader.rest() =~= rest0.subrange(reader.pos() - old(reader).pos(), rest0.len() as int));
        Self::decode_index(reader, &index)
    }
}

impl Codec for Pose {
    open spec fn valid(m: Pose) -> bool {
        true
    }

    open spec fn delimited() -> bool {
        true
    }

    proof fn lemma_round_trip(m: Pose, rest: Seq<u8>) {
        match m {
            Pose::Standing => {
                lemma_varint_round_trip(0, rest);
                assert(rest.subrange(0, rest.len() as int) =~= rest);
            },
            Pose::FallFlying => {
                lemma_varint_round_trip(1, rest);
                assert(rest.subrange(0, rest.len() as int) =~= rest);
            },
            Pose::Sleeping => {
                lemma_varint_round_trip(2, rest);
                assert(rest.subrange(0, rest.len() as int) =~= rest);
            },
            Pose::Swimming => {
                lemma_varint_round_trip(3, rest);
                assert(rest.subrange(0, rest.len() as int) =~= rest);
            },
            Pose::SpinAttack => {
                lemma_varint_round_trip(4, rest);
                assert(rest.subrange(0, rest.len() as int) =~= rest);
            },
            Pose::Sneaking => {
                lemma_varint_round_trip(5, rest);
                assert(rest.subrange(0, rest.len() as int) =~= rest);
            },
            Pose::LongJumping => {
                lemma_varint_round_trip(6, rest);
                assert(rest.subrange(0, rest.len() as int) =~= rest);
            },
            Pose::Dying => {
                lemma_varint_round_trip(7, rest);
                assert(rest.subrange(0, rest.len() as int) =~= rest);
            },
        }
    }
}
/// The biome kind of a villager.
#[derive(Clone, Copy, Debug, PartialEq, Eq, Structural)]
pub enum VillagerType {
    Desert,
    Jungle,
    Plains,
    Savanna,
    Snow,
    Swamp,
    Taiga,
}

impl DeepView for VillagerType {
    type V = VillagerType;

    open spec fn deep_view(&self) -> VillagerType {
        *self
    }
}

impl Encodable for VillagerType {
    /// The discriminant as a VarInt, then the payload if the variant has one.
    open spec fn spec_encode(m: VillagerType) -> Result<Seq<u8>, CodecError> {
        match m {
            VillagerType::Desert => Ok(varint_bytes(0)),
            VillagerType::Jungle => Ok(varint_bytes(1)),
            VillagerType::Plains => Ok(varint_bytes(2)),
            VillagerType::Savanna => Ok(varint_bytes(3)),
            VillagerType::Snow => Ok(varint_bytes(4)),
            VillagerType::Swamp => Ok(varint_bytes(5)),
            VillagerType::Taiga => Ok(varint_bytes(6)),
        }
    }

    /// The discriminant's size, plus the payload's where there is one.
    open spec fn spec_size(m: VillagerType) -> Result<nat, CodecError> {
        match m {
            VillagerType::Desert => Ok(varint_bytes(0).len()),
            VillagerType::Jungle => Ok(varint_bytes(1).len()),
            VillagerType::Plains => Ok(varint_bytes(2).len()),
            VillagerType::Savanna => Ok(varint_bytes(3).len()),
            VillagerType::Snow => Ok(varint_bytes(4).len()),
            VillagerType::Swamp => Ok(varint_bytes(5).len()),
            VillagerType::Taiga => Ok(varint_bytes(6).len()),
        }
    }

    proof fn lemma_size_faithful(m: VillagerType) {
        match m {
            VillagerType::Desert => lemma_varint_len(0),
            VillagerType::Jungle => lemma_varint_len(1),
            VillagerType::Plains => lemma_varint_len(2),
            VillagerType::Savanna => lemma_varint_len(3),
            VillagerType::Snow => lemma_varint_len(4),
            VillagerType::Swamp => lemma_varint_len(5),
            VillagerType::Taiga => lemma_varint_len(6),
        }
    }

    fn encode(&self, out: &mut Vec<u8>) -> (r: Result<(), CodecError>) {
        match self {
            VillagerType::Desert => VarInt(0).encode(out),
            VillagerType::Jungle => VarInt(1).encode(out),
            VillagerType::Plains => VarInt(2).encode(out),
            VillagerType::Savanna => VarInt(3).encode(out),
            VillagerType::Snow => VarInt(4).encode(out),
            VillagerType::Swamp => VarInt(5).encode(out),
            VillagerType::Taiga => VarInt(6).encode(out),
        }
    }

    fn size(&self) -> (r: Result<VarInt, CodecError>) {
        match self {
            VillagerType::Desert => VarInt(0).size(),
            VillagerType::Jungle => VarInt(1).size(),
            VillagerType::Plains => VarInt(2).size(),
            VillagerType::Savanna => VarInt(3).size(),
            VillagerType::Snow => VarInt(4).size(),
            VillagerType::Swamp => VarInt(5).size(),
            VillagerType::Taiga => VarInt(6).size(),
        }
    }
}

impl IndexDecodable for VillagerType {
    /// The variant with discriminant `index`; an index that names none fails.
    open spec fn spec_decode_index(bytes: Seq<u8>, index: int) -> Result<(VillagerType, nat), CodecError> {
        if index == 0 {
            Ok((VillagerType::Desert, 0))
        } else if index == 1 {
            Ok((VillagerType::Jungle, 0))
        } else if index == 2 {
            Ok((VillagerType::Plains, 0))
        } else if index == 3 {
            Ok((VillagerType::Savanna, 0))
        } else if index == 4 {
            Ok((VillagerType::Snow, 0))
        } else if index == 5 {
            Ok((VillagerType::Swamp, 0))
        } else if index == 6 {
            Ok((VillagerType::Taiga, 0))
        } else {
            Err(CodecError::UnknownDiscriminant(index as i32))
        }
    }

    fn decode_index(reader: &mut ByteReader, index: &VarInt) -> (r: Result<VillagerType, CodecError>) {
        match index.0 {
            0 => Ok(VillagerType::Desert),
            1 => Ok(VillagerType::Jungle),
            2 => Ok(VillagerType::Plains),
            3 => Ok(VillagerType::Savanna),
            4 => Ok(VillagerType::Snow),
            5 => Ok(VillagerType::Swamp),
            6 => Ok(VillagerType::Taiga),
            _ => Err(CodecError::UnknownDiscriminant(index.0)),
        }
    }
}

impl Decodable for VillagerType {
    open spec fn spec_decode(bytes: Seq<u8>) -> Result<(VillagerType, nat), CodecError> {
        match varint_parse(bytes) {
            Err(e) => Err(e),
            Ok((i, n)) => match Self::spec_decode_index(
                bytes.subrange(n as int, bytes.len() as int),
                i as int,
            ) {
                Ok((v, k)) => Ok((v, n + k)),
                Err(e) => Err(e),
            },
        }
    }

    proof fn lemma_decode_len(bytes: Seq<u8>) {
        <VarInt as Decodable>::lemma_decode_len(bytes);
        if let Ok((i, n)) = varint_parse(bytes) {
        }
    }

    fn decode(reader: &mut ByteReader) -> (r: Result<VillagerType, CodecError>) {
        let ghost rest0 = reader.rest();
        let index = match VarInt::decode(reader) {
            Ok(i) => i,
            Err(e) => return Err(e),
        };
        assert(reader.rest() =~= rest0.subrange(reader.pos() - old(reader).pos(), rest0.len() as int));
        Self::decode_index(reader, &index)
    }
}

impl Codec for VillagerType {
    open spec fn valid(m: VillagerType) -> bool {
        true
    }

    open spec fn delimited() -> bool {
        true
    }

    proof fn lemma_round_trip(m: VillagerType, rest: Seq<u8>) {
        match m {
            VillagerType::Desert => {
                lemma_varint_round_trip(0, rest);
                assert(rest.subrange(0, rest.len() as int) =~= rest);
            },
            VillagerType::Jungle => {
                lemma_varint_round_trip(1, rest);
                assert(rest.subrange(0, rest.len() as int) =~= rest);
            },
            VillagerType::Plains => {
                lemma_varint_round_trip(2, rest);
                assert(rest.subrange(0, rest.len() as int) =~= rest);
            },
            VillagerType::Savanna => {
                lemma_varint_round_trip(3, rest);
                assert(rest.subrange(0, rest.len() as int) =~= rest);
            },
            VillagerType::Snow => {
                lemma_varint_round_trip(4, rest);
                assert(rest.subrange(0, rest.len() as int) =~= rest);
            },
            VillagerType::Swamp => {
                lemma_varint_round_trip(5, rest);
                assert(rest.subrange(0, rest.len() as int) =~= rest);
            },
            VillagerType::Taiga => {
                lemma_varint_round_trip(6, rest);
                assert(rest.subrange(0, rest.len() as int) =~= rest);
            },
        }
    }
}
/// The trade of a villager.
#[derive(Clone, Copy, Debug, PartialEq, Eq, Structural)]
pub enum VillagerProfession {
    NoProfession,
    Armorer,
    Butcher,
    Cartographer,
    Cleric,
    Farmer,
    Fisherman,
    Fletcher,
    LeatherWorker,
    Librarian,
    Mason,
    Nitwit,
    Shepherd,
    ToolSmith,
    WeaponSmith,
}

impl DeepView for VillagerProfession {
    type V = VillagerProfession;

    open spec fn deep_view(&self) -> VillagerProfession {
        *self
    }
}

impl Encodable for VillagerProfession {
    /// The discriminant as a VarInt, then the payload if the variant has one.
    open spec fn spec_encode(m: VillagerProfession) -> Result<Seq<u8>, CodecError> {
        match m {
            VillagerProfession::NoProfession => Ok(varint_bytes(0)),
            VillagerProfession::Armorer => Ok(varint_bytes(1)),
            VillagerProfession::Butcher => Ok(varint_bytes(2)),
            VillagerProfession::Cartographer => Ok(varint_bytes(3)),
            VillagerProfession::Cleric => Ok(varint_bytes(4)),
            VillagerProfession::Farmer => Ok(varint_bytes(5)),
            VillagerProfession::Fisherman => Ok(varint_bytes(6)),
            VillagerProfession::Fletcher => Ok(varint_bytes(7)),
            VillagerProfession::LeatherWorker => Ok(varint_bytes(8)),
            VillagerProfession::Librarian => Ok(varint_bytes(9)),
            VillagerProfession::Mason => Ok(varint_bytes(10)),
            VillagerProfession::Nitwit => Ok(varint_bytes(11)),
            VillagerProfession::Shepherd => Ok(varint_bytes(12)),
            VillagerProfession::ToolSmith => Ok(varint_bytes(13)),
            VillagerProfession::WeaponSmith => Ok(varint_bytes(14)),
        }
    }

    /// The discriminant's size, plus the payload's where there is one.
    open spec fn spec_size(m: VillagerProfession) -> Result<nat, CodecError> {
        match m {
            VillagerProfession::NoProfession => Ok(varint_bytes(0).len()),
            VillagerProfession::Armorer => Ok(varint_bytes(1).len()),
            VillagerProfession::Butcher => Ok(varint_bytes(2).len()),
            VillagerProfession::Cartographer => Ok(varint_bytes(3).len()),
            VillagerProfession::Cleric => Ok(varint_bytes(4).len()),
            VillagerProfession::Farmer => Ok(varint_bytes(5).len()),
            VillagerProfession::Fisherman => Ok(varint_bytes(6).len()),
            VillagerProfession::Fletcher => Ok(varint_bytes(7).len()),
            VillagerProfession::LeatherWorker => Ok(varint_bytes(8).len()),
            VillagerProfession::Librarian => Ok(varint_bytes(9).len()),
            VillagerProfession::Mason => Ok(varint_bytes(10).len()),
            VillagerProfession::Nitwit => Ok(varint_bytes(11).len()),
            VillagerProfession::Shepherd => Ok(varint_bytes(12).len()),
            VillagerProfession::ToolSmith => Ok(varint_bytes(13).len()),
            VillagerProfession::WeaponSmith => Ok(varint_bytes(14).len()),
        }
    }

    #[verifier::spinoff_prover]
    #[verifier::rlimit(100)]
    proof fn lemma_size_faithful(m: VillagerProfession) {
        match m {
            VillagerProfession::NoProfession => lemma_varint_len(0),
            VillagerProfession::Armorer => lemma_varint_len(1),
            VillagerProfession::Butcher => lemma_varint_len(2),
            VillagerProfession::Cartographer => lemma_varint_len(3),
            VillagerProfession::Cleric => lemma_varint_len(4),
            VillagerProfession::Farmer => lemma_varint_len(5),
            VillagerProfession::Fisherman => lemma_varint_len(6),
            VillagerProfession::Fletcher => lemma_varint_len(7),
            VillagerProfession::LeatherWorker => lemma_varint_len(8),
            VillagerProfession::Librarian => lemma_varint_len(9),
            VillagerProfession::Mason => lemma_varint_len(10),
            VillagerProfession::Nitwit => lemma_varint_len(11),
            VillagerProfession::Shepherd => lemma_varint_len(12),
            VillagerProfession::ToolSmith => lemma_varint_len(13),
            VillagerProfession::WeaponSmith => lemma_varint_len(14),
        }
    }

    #[verifier::spinoff_prover]
    #[verifier::rlimit(50)]
    fn encode(&self, out: &mut Vec<u8>) -> (r: Result<(), CodecError>) {
        match self {
            VillagerProfession::NoProfession => VarInt(0).encode(out),
            VillagerProfession::Armorer => VarInt(1).encode(out),
            VillagerProfession::Butcher => VarInt(2).encode(out),
            VillagerProfession::Cartographer => VarInt(3).encode(out),
            VillagerProfession::Cleric => VarInt(4).encode(out),
            VillagerProfession::Farmer => VarInt(5).encode(out),
            VillagerProfession::Fisherman => VarInt(6).encode(out),
            VillagerProfession::Fletcher => VarInt(7).encode(out),
            VillagerProfession::LeatherWorker => VarInt(8).encode(out),
            VillagerProfession::Librarian => VarInt(9).encode(out),
            VillagerProfession::Mason => VarInt(10).encode(out),
            VillagerProfession::Nitwit => VarInt(11).encode(out),
            VillagerProfession::Shepherd => VarInt(12).encode(out),
            VillagerProfession::ToolSmith => VarInt(13).encode(out),
            VillagerProfession::WeaponSmith => VarInt(14).encode(out),
        }
    }

    #[verifier::spinoff_prover]
    #[verifier::rlimit(50)]
    fn size(&self) -> (r: Result<VarInt, CodecError>) {
        match self {
            VillagerProfession::NoProfession => VarInt(0).size(),
            VillagerProfession::Armorer => VarInt(1).size(),
            VillagerProfession::Butcher => VarInt(2).size(),
            VillagerProfession::Cartographer => VarInt(3).size(),
            VillagerProfession::Cleric => VarInt(4).size(),
            VillagerProfession::Farmer => VarInt(5).size(),
            VillagerProfession::Fisherman => VarInt(6).size(),
            VillagerProfession::Fletcher => VarInt(7).size(),
            VillagerProfession::LeatherWorker => VarInt(8).size(),
            VillagerProfession::Librarian => VarInt(9).size(),
            VillagerProfession::Mason => VarInt(10).size(),
            VillagerProfession::Nitwit => VarInt(11).size(),
            VillagerProfession::Shepherd => VarInt(12).size(),
            VillagerProfession::ToolSmith => VarInt(13).size(),
            VillagerProfession::WeaponSmith => VarInt(14).size(),
        }
    }
}

impl IndexDecodable for VillagerProfession {
    /// The variant with discriminant `index`; an index that names none fails.
    open spec fn spec_decode_index(bytes: Seq<u8>, index: int) -> Result<(VillagerProfession, nat), CodecError> {
        if index == 0 {
            Ok((VillagerProfession::NoProfession, 0))
        } else if index == 1 {
            Ok((VillagerProfession::Armorer, 0))
        } else if index == 2 {
            Ok((VillagerProfession::Butcher, 0))
        } else if index == 3 {
            Ok((VillagerProfession::Cartographer, 0))
        } else if index == 4 {
            Ok((VillagerProfession::Cleric, 0))
        } else if index == 5 {
            Ok((VillagerProfession::Farmer, 0))
        } else if index == 6 {
            Ok((VillagerProfession::Fisherman, 0))
        } else if index == 7 {
            Ok((VillagerProfession::Fletcher, 0))
        } else if index == 8 {
            Ok((VillagerProfession::LeatherWorker, 0))
        } else if index == 9 {
            Ok((VillagerProfession::Librarian, 0))
        } else if index == 10 {
            Ok((VillagerProfession::Mason, 0))
        } else if index == 11 {
            Ok((VillagerProfession::Nitwit, 0))
        } else if index == 12 {
            Ok((VillagerProfession::Shepherd, 0))
        } else if index == 13 {
            Ok((VillagerProfession::ToolSmith, 0))
        } else if index == 14 {
            Ok((VillagerProfession::WeaponSmith, 0))
        } else {
            Err(CodecError::UnknownDiscriminant(index as i32))
        }
    }

    #[verifier::spinoff_prover]
    #[verifier::rlimit(50)]
    fn decode_index(reader: &mut ByteReader, index: &VarInt) -> (r: Result<VillagerProfession, CodecError>) {
        match index.0 {
            0 => Ok(VillagerProfession::NoProfession),
            1 => Ok(VillagerProfession::Armorer),
            2 => Ok(VillagerProfession::Butcher),
            3 => Ok(VillagerProfession::Cartographer),
            4 => Ok(VillagerProfession::Cleric),
            5 => Ok(VillagerProfession::Farmer),
            6 => Ok(VillagerProfession::Fisherman),
            7 => Ok(VillagerProfession::Fletcher),
            8 => Ok(VillagerProfession::LeatherWorker),
            9 => Ok(VillagerProfession::Librarian),
            10 => Ok(VillagerProfession::Mason),
            11 => Ok(VillagerProfession::Nitwit),
            12 => Ok(VillagerProfession::Shepherd),
            13 => Ok(VillagerProfession::ToolSmith),
            14 => Ok(VillagerProfession::WeaponSmith),
            _ => Err(CodecError::UnknownDiscriminant(index.0)),
        }
    }
}

impl Decodable for VillagerProfession {
    open spec fn spec_decode(bytes: Seq<u8>) -> Result<(VillagerProfession, nat), CodecError> {
        match varint_parse(bytes) {
            Err(e) => Err(e),
            Ok((i, n)) => match Self::spec_decode_index(
                bytes.subrange(n as int, bytes.len() as int),
                i as int,
            ) {
                Ok((v, k)) => Ok((v, n + k)),
                Err(e) => Err(e),
            },
        }
    }

    proof fn lemma_decode_len(bytes: Seq<u8>) {
        <VarInt as Decodable>::lemma_decode_len(bytes);
        if let Ok((i, n)) = varint_parse(bytes) {
        }
    }

    fn decode(reader: &mut ByteReader) -> (r: Result<VillagerProfession, CodecError>) {
        let ghost rest0 = reader.rest();
        let index = match VarInt::decode(reader) {
            Ok(i) => i,
            Err(e) => return Err(e),
        };
        assert(reader.rest() =~= rest0.subrange(reader.pos() - old(reader).pos(), rest0.len() as int));
        Self::decode_index(reader, &index)
    }
}

impl Codec for VillagerProfession {
    open spec fn valid(m: VillagerProfession) -> bool {
        true
    }

    open spec fn delimited() -> bool {
        true
    }

    proof fn lemma_round_trip(m: VillagerProfession, rest: Seq<u8>) {
        match m {
            VillagerProfession::NoProfession => {
                lemma_varint_round_trip(0, rest);
                assert(rest.subrange(0, rest.len() as int) =~= rest);
            },
            VillagerProfession::Armorer => {
                lemma_varint_round_trip(1, rest);
                assert(rest.subrange(0, rest.len() as int) =~= rest);
            },
            VillagerProfession::Butcher => {
                lemma_varint_round_trip(2, rest);
                assert(rest.subrange(0, rest.len() as int) =~= rest);
            },
            VillagerProfession::Cartographer => {
                lemma_varint_round_trip(3, rest);
                assert(rest.subrange(0, rest.len() as int) =~= rest);
            },
            VillagerProfession::Cleric => {
                lemma_varint_round_trip(4, rest);
                assert(rest.subrange(0, rest.len() as int) =~= rest);
            },
            VillagerProfession::Farmer => {
                lemma_varint_round_trip(5, rest);
                assert(rest.subrange(0, rest.len() as int) =~= rest);
            },
            VillagerProfession::Fisherman => {
                lemma_varint_round_trip(6, rest);
                assert(rest.subrange(0, rest.len() as int) =~= rest);
            },
            VillagerProfession::Fletcher => {
                lemma_varint_round_trip(7, rest);
                assert(rest.subrange(0, rest.len() as int) =~= rest);
            },
            VillagerProfession::LeatherWorker => {
                lemma_varint_round_trip(8, rest);
                assert(rest.subrange(0, rest.len() as int) =~= rest);
            },
            VillagerProfession::Librarian => {
                lemma_varint_round_trip(9, rest);
                assert(rest.subrange(0, rest.len() as int) =~= rest);
            },
            VillagerProfession::Mason => {
                lemma_varint_round_trip(10, rest);
                assert(rest.subrange(0, rest.len() as int) =~= rest);
            },
            VillagerProfession::Nitwit => {
                lemma_varint_round_trip(11, rest);
                assert(rest.subrange(0, rest.len() as int) =~= rest);
            },
            VillagerProfession::Shepherd => {
                lemma_varint_round_trip(12, rest);
                assert(rest.subrange(0, rest.len() as int) =~= rest);
            },
            VillagerProfession::ToolSmith => {
                lemma_varint_round_trip(13, rest);
                assert(rest.subrange(0, rest.len() as int) =~= rest);
            },
            VillagerProfession::WeaponSmith => {
                lemma_varint_round_trip(14, rest);
                assert(rest.subrange(0, rest.len() as int) =~= rest);
            },
        }
    }
}
/// An inventory slot: the item fields are on the wire only when `present` is set.
pub struct SlotData {
    pub present: bool,
    pub item_id: Option<VarInt>,
    pub item_count: Option<u8>,
    pub nbt: Option<NbtTag>,
}

/// The model of a `SlotData`: each field by its model.
pub struct SlotDataView {
    pub present: bool,
    pub item_id: Option<i32>,
    pub item_count: Option<u8>,
    pub nbt: Option<Seq<u8>>,
}

impl DeepView for SlotData {
    type V = SlotDataView;

    open spec fn deep_view(&self) -> SlotDataView {
        SlotDataView {
            present: self.present.deep_view(),
            item_id: self.item_id.deep_view(),
            item_count: self.item_count.deep_view(),
            nbt: self.nbt.deep_view(),
        }
    }
}

impl Encodable for SlotData {
    /// The fields in order, with no framing.
    open spec fn spec_encode(m: SlotDataView) -> Result<Seq<u8>, CodecError> {
        then_encode(then_encode(then_encode(<bool as Encodable>::spec_encode(m.present), <Option<VarInt> as Encodable>::spec_encode(m.item_id)), <Option<u8> as Encodable>::spec_encode(m.item_count)), <Option<NbtTag> as Encodable>::spec_encode(m.nbt))
    }

    /// The sum of the fields' sizes.
    open spec fn spec_size(m: SlotDataView) -> Result<nat, CodecError> {
        add_size_spec(add_size_spec(add_size_spec(<bool as Encodable>::spec_size(m.present), <Option<VarInt> as Encodable>::spec_size(m.item_id)), <Option<u8> as Encodable>::spec_size(m.item_count)), <Option<NbtTag> as Encodable>::spec_size(m.nbt))
    }

    proof fn lemma_size_faithful(m: SlotDataView) {
        <bool as Encodable>::lemma_size_faithful(m.present);
        <Option<VarInt> as Encodable>::lemma_size_faithful(m.item_id);
        <Option<u8> as Encodable>::lemma_size_faithful(m.item_count);
        <Option<NbtTag> as Encodable>::lemma_size_faithful(m.nbt);
        lemma_then_size(<bool as Encodable>::spec_encode(m.present), <bool as Encodable>::spec_size(m.present), <Option<VarInt> as Encodable>::spec_encode(m.item_id), <Option<VarInt> as Encodable>::spec_size(m.item_id));
        lemma_then_size(then_encode(<bool as Encodable>::spec_encode(m.present), <Option<VarInt> as Encodable>::spec_encode(m.item_id)), add_size_spec(<bool as Encodable>::spec_size(m.present), <Option<VarInt> as Encodable>::spec_size(m.item_id)), <Option<u8> as Encodable>::spec_encode(m.item_count), <Option<u8> as Encodable>::spec_size(m.item_count));
        lemma_then_size(then_encode(then_encode(<bool as Encodable>::spec_encode(m.present), <Option<VarInt> as Encodable>::spec_encode(m.item_id)), <Option<u8> as Encodable>::spec_encode(m.item_count)), add_size_spec(add_size_spec(<bool as Encodable>::spec_size(m.present), <Option<VarInt> as Encodable>::spec_size(m.item_id)), <Option<u8> as Encodable>::spec_size(m.item_count)), <Option<NbtTag> as Encodable>::spec_encode(m.nbt), <Option<NbtTag> as Encodable>::spec_size(m.nbt));
    }

    fn encode(&self, out: &mut Vec<u8>) -> (r: Result<(), CodecError>) {
        let ghost o0 = out@;
        let start = out.len();
        let ghost e0 = <bool as Encodable>::spec_encode(self.present.deep_view())->Ok_0;
        let ghost e1 = <Option<VarInt> as Encodable>::spec_encode(self.item_id.deep_view())->Ok_0;
        let ghost e2 = <Option<u8> as Encodable>::spec_encode(self.item_count.deep_view())->Ok_0;
        let ghost e3 = <Option<NbtTag> as Encodable>::spec_encode(self.nbt.deep_view())->Ok_0;
        match self.present.encode(out) {
            Ok(_) => {},
            Err(e) => return Err(e),
        }
        match self.item_id.encode(out) {
            Ok(_) => {},
            Err(e) => {
                roll_back(out, Ghost(o0), Ghost(e0), start);
                return Err(e);
            },
        }
        proof {
            lemma_concat_assoc(o0, e0, e1);
        }
        match self.item_count.encode(out) {
            Ok(_) => {},
            Err(e) => {
                roll_back(out, Ghost(o0), Ghost(e0 + e1), start);
                return Err(e);
            },
        }
        proof {
            lemma_concat_assoc(o0, e0 + e1, e2);
        }
        match self.nbt.encode(out) {
            Ok(_) => {},
            Err(e) => {
                roll_back(out, Ghost(o0), Ghost(e0 + e1 + e2), start);
                return Err(e);
            },
        }
        proof {
            lemma_concat_assoc(o0, e0 + e1 + e2, e3);
        }
        Ok(())
    }

    fn size(&self) -> (r: Result<VarInt, CodecError>) {
        proof {
            <bool as Encodable>::lemma_size_faithful(self.present.deep_view());
            <Option<VarInt> as Encodable>::lemma_size_faithful(self.item_id.deep_view());
            <Option<u8> as Encodable>::lemma_size_faithful(self.item_count.deep_view());
            <Option<NbtTag> as Encodable>::lemma_size_faithful(self.nbt.deep_view());
        }
        let ghost w0 = <bool as Encodable>::spec_size(self.present.deep_view());
        let ghost w1 = <Option<VarInt> as Encodable>::spec_size(self.item_id.deep_view());
        let ghost w2 = <Option<u8> as Encodable>::spec_size(self.item_count.deep_view());
        let ghost w3 = <Option<NbtTag> as Encodable>::spec_size(self.nbt.deep_view());
        let t0 = self.present.size();
        let t1 = add_size(t0, Ghost(w0), self.item_id.size(), Ghost(w1));
        let ghost c1 = add_size_spec(w0, w1);
        let t2 = add_size(t1, Ghost(c1), self.item_count.size(), Ghost(w2));
        let ghost c2 = add_size_spec(c1, w2);
        let t3 = add_size(t2, Ghost(c2), self.nbt.size(), Ghost(w3));
        t3
    }
}

impl Decodable for SlotData {
    open spec fn spec_decode(bytes: Seq<u8>) -> Result<(SlotDataView, nat), CodecError> {
        match decode_at::<bool>(bytes, 0) {
            Err(e) => Err(e),
            Ok((present, n0)) => match decode_if::<VarInt>(present, bytes, n0) {
                Err(e) => Err(e),
                Ok((item_id, n1)) => match decode_if::<u8>(present, bytes, n0 + n1) {
                    Err(e) => Err(e),
                    Ok((item_count, n2)) => match decode_if::<NbtTag>(present, bytes, n0 + n1 + n2) {
                        Err(e) => Err(e),
                        Ok((nbt, n3)) => Ok((SlotDataView { present, item_id, item_count, nbt }, n0 + n1 + n2 + n3)),
                    },
                },
            },
        }
    }

    proof fn lemma_decode_len(bytes: Seq<u8>) {
        lemma_decode_at::<bool>(bytes, 0);
        <bool as Decodable>::lemma_decode_len(bytes.subrange((0) as int, bytes.len() as int));
        if let Ok((present, n0)) = decode_at::<bool>(bytes, 0) {
            lemma_decode_if::<VarInt>(present, bytes, n0);
            if present {
                <VarInt as Decodable>::lemma_decode_len(bytes.subrange((n0) as int, bytes.len() as int));
            }
            if let Ok((item_id, n1)) = decode_if::<VarInt>(present, bytes, n0) {
                lemma_decode_if::<u8>(present, bytes, n0 + n1);
                if present {
                    <u8 as Decodable>::lemma_decode_len(bytes.subrange((n0 + n1) as int, bytes.len() as int));
                }
                if let Ok((item_count, n2)) = decode_if::<u8>(present, bytes, n0 + n1) {
                    lemma_decode_if::<NbtTag>(present, bytes, n0 + n1 + n2);
                    if present {
                        <NbtTag as Decodable>::lemma_decode_len(bytes.subrange((n0 + n1 + n2) as int, bytes.len() as int));
                    }
                }
            }
        }
    }

    fn decode(reader: &mut ByteReader) -> (r: Result<SlotData, CodecError>) {
        let ghost r0 = *reader;
        let ghost rest0 = reader.rest();
        proof {
            ByteReader::lemma_rest_since(r0, *reader);
            lemma_decode_at::<bool>(rest0, (reader.pos() - r0.pos()) as nat);
        }
        let present = match <bool>::decode(reader) {
            Ok(v) => v,
            Err(e) => return Err(e),
        };
        proof {
            ByteReader::lemma_rest_since(r0, *reader);
            lemma_decode_if::<VarInt>(present, rest0, (reader.pos() - r0.pos()) as nat);
        }
        let item_id = if present {
            match <VarInt>::decode(reader) {
                Ok(v) => Some(v),
                Err(e) => return Err(e),
            }
        } else {
            None
        };
        proof {
            ByteReader::lemma_rest_since(r0, *reader);
            lemma_decode_if::<u8>(present, rest0, (reader.pos() - r0.pos()) as nat);
        }
        let item_count = if present {
            match <u8>::decode(reader) {
                Ok(v) => Some(v),
                Err(e) => return Err(e),
            }
        } else {
            None
        };
        proof {
            ByteReader::lemma_rest_since(r0, *reader);
            lemma_decode_if::<NbtTag>(present, rest0, (reader.pos() - r0.pos()) as nat);
        }
        let nbt = if present {
            match <NbtTag>::decode(reader) {
                Ok(v) => Some(v),
                Err(e) => return Err(e),
            }
        } else {
            None
        };
        Ok(SlotData { present, item_id, item_count, nbt })
    }
}

impl Codec for SlotData {
    open spec fn valid(m: SlotDataView) -> bool {
        &&& <bool as Codec>::valid(m.present)
        &&& <bool as Codec>::delimited()
        &&& if m.present {
            m.item_id matches Some(v) && <VarInt as Codec>::valid(v)
        } else {
            m.item_id is None
        }
        &&& <VarInt as Codec>::delimited()
        &&& if m.present {
            m.item_count matches Some(v) && <u8 as Codec>::valid(v)
        } else {
            m.item_count is None
        }
        &&& <u8 as Codec>::delimited()
        &&& if m.present {
            m.nbt matches Some(v) && <NbtTag as Codec>::valid(v)
        } else {
            m.nbt is None
        }
    }

    open spec fn delimited() -> bool {
        <NbtTag as Codec>::delimited()
    }

    proof fn lemma_round_trip(m: SlotDataView, rest: Seq<u8>) {
        let e0 = <bool as Encodable>::spec_encode(m.present)->Ok_0;
        let e1 = <Option<VarInt> as Encodable>::spec_encode(m.item_id)->Ok_0;
        let e2 = <Option<u8> as Encodable>::spec_encode(m.item_count)->Ok_0;
        let e3 = <Option<NbtTag> as Encodable>::spec_encode(m.nbt)->Ok_0;
        let t3 = e3 + rest;
        let t2 = e2 + t3;
        let t1 = e1 + t2;
        let t0 = e0 + t1;
        assert(decode_at::<bool>(t0, (0) as nat) == Ok::<(<bool as DeepView>::V, nat), CodecError>((m.present, e0.len()))
            && <bool as Encodable>::spec_encode(m.present) == Ok::<Seq<u8>, CodecError>(e0)
            && decode_if::<VarInt>(m.present, t0, (e0.len()) as nat) == Ok::<(Option<<VarInt as DeepView>::V>, nat), CodecError>((m.item_id, e1.len()))
            && <Option<VarInt> as Encodable>::spec_encode(m.item_id) == Ok::<Seq<u8>, CodecError>(e1)
            && decode_if::<u8>(m.present, t0, (e0.len() + e1.len()) as nat) == Ok::<(Option<<u8 as DeepView>::V>, nat), CodecError>((m.item_count, e2.len()))
            && <Option<u8> as Encodable>::spec_encode(m.item_count) == Ok::<Seq<u8>, CodecError>(e2)
            && decode_if::<NbtTag>(m.present, t0, (e0.len() + e1.len() + e2.len()) as nat) == Ok::<(Option<<NbtTag as DeepView>::V>, nat), CodecError>((m.nbt, e3.len()))
            && <Option<NbtTag> as Encodable>::spec_encode(m.nbt) == Ok::<Seq<u8>, CodecError>(e3)) by {
            lemma_subrange_all(t0);
            lemma_field_round_trip::<bool>(m.present, t0, (0) as nat, t1);
            lemma_field_if_round_trip::<VarInt>(m.present, m.item_id, t0, (e0.len()) as nat, t2);
            lemma_field_if_round_trip::<u8>(m.present, m.item_count, t0, (e0.len() + e1.len()) as nat, t3);
            lemma_field_if_round_trip::<NbtTag>(m.present, m.nbt, t0, (e0.len() + e1.len() + e2.len()) as nat, rest);
        }
        assert(e0 + e1 + e2 + e3 + rest == t0) by {
            lemma_concat_assoc(e0, e1, t2);
            lemma_concat_assoc(e0 + e1, e2, t3);
            lemma_concat_assoc(e0 + e1 + e2, e3, rest);
        }
        assert(Self::spec_encode(m) == Ok::<Seq<u8>, CodecError>(e0 + e1 + e2 + e3));
    }
}
/// The colour and scale of a dust particle.
pub struct DustParticleData {
    pub red: Float,
    pub green: Float,
    pub blue: Float,
    pub scale: Float,
}

/// The model of a `DustParticleData`: each field by its model.
pub struct DustParticleDataView {
    pub red: u32,
    pub green: u32,
    pub blue: u32,
    pub scale: u32,
}

impl DeepView for DustParticleData {
    type V = DustParticleDataView;

    open spec fn deep_view(&self) -> DustParticleDataView {
        DustParticleDataView {
            red: self.red.deep_view(),
            green: self.green.deep_view(),
            blue: self.blue.deep_view(),
            scale: self.scale.deep_view(),
        }
    }
}

impl Encodable for DustParticleData {
    /// The fields in order, with no framing.
    open spec fn spec_encode(m: DustParticleDataView) -> Result<Seq<u8>, CodecError> {
        then_encode(then_encode(then_encode(<Float as Encodable>::spec_encode(m.red), <Float as Encodable>::spec_encode(m.green)), <Float as Encodable>::spec_encode(m.blue)), <Float as Encodable>::spec_encode(m.scale))
    }

    /// The sum of the fields' sizes.
    open spec fn spec_size(m: DustParticleDataView) -> Result<nat, CodecError> {
        add_size_spec(add_size_spec(add_size_spec(<Float as Encodable>::spec_size(m.red), <Float as Encodable>::spec_size(m.green)), <Float as Encodable>::spec_size(m.blue)), <Float as Encodable>::spec_size(m.scale))
    }

    proof fn lemma_size_faithful(m: DustParticleDataView) {
        <Float as Encodable>::lemma_size_faithful(m.red);
        <Float as Encodable>::lemma_size_faithful(m.green);
        <Float as Encodable>::lemma_size_faithful(m.blue);
        <Float as Encodable>::lemma_size_faithful(m.scale);
        lemma_then_size(<Float as Encodable>::spec_encode(m.red), <Float as Encodable>::spec_size(m.red), <Float as Encodable>::spec_encode(m.green), <Float as Encodable>::spec_size(m.green));
        lemma_then_size(then_encode(<Float as Encodable>::spec_encode(m.red), <Float as Encodable>::spec_encode(m.green)), add_size_spec(<Float as Encodable>::spec_size(m.red), <Float as Encodable>::spec_size(m.green)), <Float as Encodable>::spec_encode(m.blue), <Float as Encodable>::spec_size(m.blue));
        lemma_then_size(then_encode(then_encode(<Float as Encodable>::spec_encode(m.red), <Float as Encodable>::spec_encode(m.green)), <Float as Encodable>::spec_encode(m.blue)), add_size_spec(add_size_spec(<Float as Encodable>::spec_size(m.red), <Float as Encodable>::spec_size(m.green)), <Float as Encodable>::spec_size(m.blue)), <Float as Encodable>::spec_encode(m.scale), <Float as Encodable>::spec_size(m.scale));
    }

    fn encode(&self, out: &mut Vec<u8>) -> (r: Result<(), CodecError>) {
        let ghost o0 = out@;
        let start = out.len();
        let ghost e0 = <Float as Encodable>::spec_encode(self.red.deep_view())->Ok_0;
        let ghost e1 = <Float as Encodable>::spec_encode(self.green.deep_view())->Ok_0;
        let ghost e2 = <Float as Encodable>::spec_encode(self.blue.deep_view())->Ok_0;
        let ghost e3 = <Float as Encodable>::spec_encode(self.scale.deep_view())->Ok_0;
        match self.red.encode(out) {
            Ok(_) => {},
            Err(e) => return Err(e),
        }
        match self.green.encode(out) {
            Ok(_) => {},
            Err(e) => {
                roll_back(out, Ghost(o0), Ghost(e0), start);
                return Err(e);
            },
        }
        proof {
            lemma_concat_assoc(o0, e0, e1);
        }
        match self.blue.encode(out) {
            Ok(_) => {},
            Err(e) => {
                roll_back(out, Ghost(o0), Ghost(e0 + e1), start);
                return Err(e);
            },
        }
        proof {
            lemma_concat_assoc(o0, e0 + e1, e2);
        }
        match self.scale.encode(out) {
            Ok(_) => {},
            Err(e) => {
                roll_back(out, Ghost(o0), Ghost(e0 + e1 + e2), start);
                return Err(e);
            },
        }
        proof {
            lemma_concat_assoc(o0, e0 + e1 + e2, e3);
        }
        Ok(())
    }

    fn size(&self) -> (r: Result<VarInt, CodecError>) {
        proof {
            <Float as Encodable>::lemma_size_faithful(self.red.deep_view());
            <Float as Encodable>::lemma_size_faithful(self.green.deep_view());
            <Float as Encodable>::lemma_size_faithful(self.blue.deep_view());
            <Float as Encodable>::lemma_size_faithful(self.scale.deep_view());
        }
        let ghost w0 = <Float as Encodable>::spec_size(self.red.deep_view());
        let ghost w1 = <Float as Encodable>::spec_size(self.green.deep_view());
        let ghost w2 = <Float as Encodable>::spec_size(self.blue.deep_view());
        let ghost w3 = <Float as Encodable>::spec_size(self.scale.deep_view());
        let t0 = self.red.size();
        let t1 = add_size(t0, Ghost(w0), self.green.size(), Ghost(w1));
        let ghost c1 = add_size_spec(w0, w1);
        let t2 = add_size(t1, Ghost(c1), self.blue.size(), Ghost(w2));
        let ghost c2 = add_size_spec(c1, w2);
        let t3 = add_size(t2, Ghost(c2), self.scale.size(), Ghost(w3));
        t3
    }
}

impl Decodable for DustParticleData {
    open spec fn spec_decode(bytes: Seq<u8>) -> Result<(DustParticleDataView, nat), CodecError> {
        match decode_at::<Float>(bytes, 0) {
            Err(e) => Err(e),
            Ok((red, n0)) => match decode_at::<Float>(bytes, n0) {
                Err(e) => Err(e),
                Ok((green, n1)) => match decode_at::<Float>(bytes, n0 + n1) {
                    Err(e) => Err(e),
                    Ok((blue, n2)) => match decode_at::<Float>(bytes, n0 + n1 + n2) {
                        Err(e) => Err(e),
                        Ok((scale, n3)) => Ok((DustParticleDataView { red, green, blue, scale }, n0 + n1 + n2 + n3)),
                    },
                },
            },
        }
    }

    proof fn lemma_decode_len(bytes: Seq<u8>) {
        lemma_decode_at::<Float>(bytes, 0);
        <Float as Decodable>::lemma_decode_len(bytes.subrange((0) as int, bytes.len() as int));
        if let Ok((red, n0)) = decode_at::<Float>(bytes, 0) {
            lemma_decode_at::<Float>(bytes, n0);
            <Float as Decodable>::lemma_decode_len(bytes.subrange((n0) as int, bytes.len() as int));
            if let Ok((green, n1)) = decode_at::<Float>(bytes, n0) {
                lemma_decode_at::<Float>(bytes, n0 + n1);
                <Float as Decodable>::lemma_decode_len(bytes.subrange((n0 + n1) as int, bytes.len() as int));
                if let Ok((blue, n2)) = decode_at::<Float>(bytes, n0 + n1) {
                    lemma_decode_at::<Float>(bytes, n0 + n1 + n2);
                    <Float as Decodable>::lemma_decode_len(bytes.subrange((n0 + n1 + n2) as int, bytes.len() as int));
                }
            }
        }
    }

    fn decode(reader: &mut ByteReader) -> (r: Result<DustParticleData, CodecError>) {
        let ghost r0 = *reader;
        let ghost rest0 = reader.rest();
        proof {
            ByteReader::lemma_rest_since(r0, *reader);
            lemma_decode_at::<Float>(rest0, (reader.pos() - r0.pos()) as nat);
        }
        let red = match <Float>::decode(reader) {
            Ok(v) => v,
            Err(e) => return Err(e),
        };
        proof {
            ByteReader::lemma_rest_since(r0, *reader);
            lemma_decode_at::<Float>(rest0, (reader.pos() - r0.pos()) as nat);
        }
        let green = match <Float>::decode(reader) {
            Ok(v) => v,
            Err(e) => return Err(e),
        };
        proof {
            ByteReader::lemma_rest_since(r0, *reader);
            lemma_decode_at::<Float>(rest0, (reader.pos() - r0.pos()) as nat);
        }
        let blue = match <Float>::decode(reader) {
            Ok(v) => v,
            Err(e) => return Err(e),
        };
        proof {
            ByteReader::lemma_rest_since(r0, *reader);
            lemma_decode_at::<Float>(rest0, (reader.pos() - r0.pos()) as nat);
        }
        let scale = match <Float>::decode(reader) {
            Ok(v) => v,
            Err(e) => return Err(e),
        };
        Ok(DustParticleData { red, green, blue, scale })
    }
}

impl Codec for DustParticleData {
    open spec fn valid(m: DustParticleDataView) -> bool {
        &&& <Float as Codec>::valid(m.red)
        &&& <Float as Codec>::delimited()
        &&& <Float as Codec>::valid(m.green)
        &&& <Float as Codec>::delimited()
        &&& <Float as Codec>::valid(m.blue)
        &&& <Float as Codec>::delimited()
        &&& <Float as Codec>::valid(m.scale)
    }

    open spec fn delimited() -> bool {
        <Float as Codec>::delimited()
    }

    proof fn lemma_round_trip(m: DustParticleDataView, rest: Seq<u8>) {
        let e0 = <Float as Encodable>::spec_encode(m.red)->Ok_0;
        let e1 = <Float as Encodable>::spec_encode(m.green)->Ok_0;
        let e2 = <Float as Encodable>::spec_encode(m.blue)->Ok_0;
        let e3 = <Float as Encodable>::spec_encode(m.scale)->Ok_0;
        let t3 = e3 + rest;
        let t2 = e2 + t3;
        let t1 = e1 + t2;
        let t0 = e0 + t1;
        assert(decode_at::<Float>(t0, (0) as nat) == Ok::<(<Float as DeepView>::V, nat), CodecError>((m.red, e0.len()))
            && <Float as Encodable>::spec_encode(m.red) == Ok::<Seq<u8>, CodecError>(e0)
            && decode_at::<Float>(t0, (e0.len()) as nat) == Ok::<(<Float as DeepView>::V, nat), CodecError>((m.green, e1.len()))
            && <Float as Encodable>::spec_encode(m.green) == Ok::<Seq<u8>, CodecError>(e1)
            && decode_at::<Float>(t0, (e0.len() + e1.len()) as nat) == Ok::<(<Float as DeepView>::V, nat), CodecError>((m.blue, e2.len()))
            && <Float as Encodable>::spec_encode(m.blue) == Ok::<Seq<u8>, CodecError>(e2)
            && decode_at::<Float>(t0, (e0.len() + e1.len() + e2.len()) as nat) == Ok::<(<Float as DeepView>::V, nat), CodecError>((m.scale, e3.len()))
            && <Float as Encodable>::spec_encode(m.scale) == Ok::<Seq<u8>, CodecError>(e3)) by {
            lemma_subrange_all(t0);
            lemma_field_round_trip::<Float>(m.red, t0, (0) as nat, t1);
            lemma_field_round_trip::<Float>(m.green, t0, (e0.len()) as nat, t2);
            lemma_field_round_trip::<Float>(m.blue, t0, (e0.len() + e1.len()) as nat, t3);
            lemma_field_round_trip::<Float>(m.scale, t0, (e0.len() + e1.len() + e2.len()) as nat, rest);
        }
        assert(e0 + e1 + e2 + e3 + rest == t0) by {
            lemma_concat_assoc(e0, e1, t2);
            lemma_concat_assoc(e0 + e1, e2, t3);
            lemma_concat_assoc(e0 + e1 + e2, e3, rest);
        }
        assert(Self::spec_encode(m) == Ok::<Seq<u8>, CodecError>(e0 + e1 + e2 + e3));
    }
}
/// The two colours and scale of a colour-changing dust particle.
pub struct DustColorTransitionParticleData {
    pub from_red: Float,
    pub from_green: Float,
    pub from_blue: Float,
    pub scale: Float,
    pub to_red: Float,
    pub to_green: Float,
    pub to_blue: Float,
}

/// The model of a `DustColorTransitionParticleData`: each field by its model.
pub struct DustColorTransitionParticleDataView {
    pub from_red: u32,
    pub from_green: u32,
    pub from_blue: u32,
    pub scale: u32,
    pub to_red: u32,
    pub to_green: u32,
    pub to_blue: u32,
}

impl DeepView for DustColorTransitionParticleData {
    type V = DustColorTransitionParticleDataView;

    open spec fn deep_view(&self) -> DustColorTransitionParticleDataView {
        DustColorTransitionParticleDataView {
            from_red: self.from_red.deep_view(),
            from_green: self.from_green.deep_view(),
            from_blue: self.from_blue.deep_view(),
            scale: self.scale.deep_view(),
            to_red: self.to_red.deep_view(),
            to_green: self.to_green.deep_view(),
            to_blue: self.to_blue.deep_view(),
        }
    }
}

impl Encodable for DustColorTransitionParticleData {
    /// The fields in order, with no framing.
    open spec fn spec_encode(m: DustColorTransitionParticleDataView) -> Result<Seq<u8>, CodecError> {
        then_encode(then_encode(then_encode(then_encode(then_encode(then_encode(<Float as Encodable>::spec_encode(m.from_red), <Float as Encodable>::spec_encode(m.from_green)), <Float as Encodable>::spec_encode(m.from_blue)), <Float as Encodable>::spec_encode(m.scale)), <Float as Encodable>::spec_encode(m.to_red)), <Float as Encodable>::spec_encode(m.to_green)), <Float as Encodable>::spec_encode(m.to_blue))
    }

    /// The sum of the fields' sizes.
    open spec fn spec_size(m: DustColorTransitionParticleDataView) -> Result<nat, CodecError> {
        add_size_spec(add_size_spec(add_size_spec(add_size_spec(add_size_spec(add_size_spec(<Float as Encodable>::spec_size(m.from_red), <Float as Encodable>::spec_size(m.from_green)), <Float as Encodable>::spec_size(m.from_blue)), <Float as Encodable>::spec_size(m.scale)), <Float as Encodable>::spec_size(m.to_red)), <Float as Encodable>::spec_size(m.to_green)), <Float as Encodable>::spec_size(m.to_blue))
    }

    proof fn lemma_size_faithful(m: DustColorTransitionParticleDataView) {
        <Float as Encodable>::lemma_size_faithful(m.from_red);
        <Float as Encodable>::lemma_size_faithful(m.from_green);
        <Float as Encodable>::lemma_size_faithful(m.from_blue);
        <Float as Encodable>::lemma_size_faithful(m.scale);
        <Float as Encodable>::lemma_size_faithful(m.to_red);
        <Float as Encodable>::lemma_size_faithful(m.to_green);
        <Float as Encodable>::lemma_size_faithful(m.to_blue);
        lemma_then_size(<Float as Encodable>::spec_encode(m.from_red), <Float as Encodable>::spec_size(m.from_red), <Float as Encodable>::spec_encode(m.from_green), <Float as Encodable>::spec_size(m.from_green));
        lemma_then_size(then_encode(<Float as Encodable>::spec_encode(m.from_red), <Float as Encodable>::spec_encode(m.from_green)), add_size_spec(<Float as Encodable>::spec_size(m.from_red), <Float as Encodable>::spec_size(m.from_green)), <Float as Encodable>::spec_encode(m.from_blue), <Float as Encodable>::spec_size(m.from_blue));
        lemma_then_size(then_encode(then_encode(<Float as Encodable>::spec_encode(m.from_red), <Float as Encodable>::spec_encode(m.from_green)), <Float as Encodable>::spec_encode(m.from_blue)), add_size_spec(add_size_spec(<Float as Encodable>::spec_size(m.from_red), <Float as Encodable>::spec_size(m.from_green)), <Float as Encodable>::spec_size(m.from_blue)), <Float as Encodable>::spec_encode(m.scale), <Float as Encodable>::spec_size(m.scale));
        lemma_then_size(then_encode(then_encode(then_encode(<Float as Encodable>::spec_encode(m.from_red), <Float as Encodable>::spec_encode(m.from_green)), <Float as Encodable>::spec_encode(m.from_blue)), <Float as Encodable>::spec_encode(m.scale)), add_size_spec(add_size_spec(add_size_spec(<Float as Encodable>::spec_size(m.from_red), <Float as Encodable>::spec_size(m.from_green)), <Float as Encodable>::spec_size(m.from_blue)), <Float as Encodable>::spec_size(m.scale)), <Float as Encodable>::spec_encode(m.to_red), <Float as Encodable>::spec_size(m.to_red));
        lemma_then_size(then_encode(then_encode(then_encode(then_encode(<Float as Encodable>::spec_encode(m.from_red), <Float as Encodable>::spec_encode(m.from_green)), <Float as Encodable>::spec_encode(m.from_blue)), <Float as Encodable>::spec_encode(m.scale)), <Float as Encodable>::spec_encode(m.to_red)), add_size_spec(add_size_spec(add_size_spec(add_size_spec(<Float as Encodable>::spec_size(m.from_red), <Float as Encodable>::spec_size(m.from_green)), <Float as Encodable>::spec_size(m.from_blue)), <Float as Encodable>::spec_size(m.scale)), <Float as Encodable>::spec_size(m.to_red)), <Float as Encodable>::spec_encode(m.to_green), <Float as Encodable>::spec_size(m.to_green));
        lemma_then_size(then_encode(then_encode(then_encode(then_encode(then_encode(<Float as Encodable>::spec_encode(m.from_red), <Float as Encodable>::spec_encode(m.from_green)), <Float as Encodable>::spec_encode(m.from_blue)), <Float as Encodable>::spec_encode(m.scale)), <Float as Encodable>::spec_encode(m.to_red)), <Float as Encodable>::spec_encode(m.to_green)), add_size_spec(add_size_spec(add_size_spec(add_size_spec(add_size_spec(<Float as Encodable>::spec_size(m.from_red), <Float as Encodable>::spec_size(m.from_green)), <Float as Encodable>::spec_size(m.from_blue)), <Float as Encodable>::spec_size(m.scale)), <Float as Encodable>::spec_size(m.to_red)), <Float as Encodable>::spec_size(m.to_green)), <Float as Encodable>::spec_encode(m.to_blue), <Float as Encodable>::spec_size(m.to_blue));
    }

    fn encode(&self, out: &mut Vec<u8>) -> (r: Result<(), CodecError>) {
        let ghost o0 = out@;
        let start = out.len();
        let ghost e0 = <Float as Encodable>::spec_encode(self.from_red.deep_view())->Ok_0;
        let ghost e1 = <Float as Encodable>::spec_encode(self.from_green.deep_view())->Ok_0;
        let ghost e2 = <Float as Encodable>::spec_encode(self.from_blue.deep_view())->Ok_0;
        let ghost e3 = <Float as Encodable>::spec_encode(self.scale.deep_view())->Ok_0;
        let ghost e4 = <Float as Encodable>::spec_encode(self.to_red.deep_view())->Ok_0;
        let ghost e5 = <Float as Encodable>::spec_encode(self.to_green.deep_view())->Ok_0;
        let ghost e6 = <Float as Encodable>::spec_encode(self.to_blue.deep_view())->Ok_0;
        match self.from_red.encode(out) {
            Ok(_) => {},
            Err(e) => return Err(e),
        }
        match self.from_green.encode(out) {
            Ok(_) => {},
            Err(e) => {
                roll_back(out, Ghost(o0), Ghost(e0), start);
                return Err(e);
            },
        }
        proof {
            lemma_concat_assoc(o0, e0, e1);
        }
        match self.from_blue.encode(out) {
            Ok(_) => {},
            Err(e) => {
                roll_back(out, Ghost(o0), Ghost(e0 + e1), start);
                return Err(e);
            },
        }
        proof {
            lemma_concat_assoc(o0, e0 + e1, e2);
        }
        match self.scale.encode(out) {
            Ok(_) => {},
            Err(e) => {
                roll_back(out, Ghost(o0), Ghost(e0 + e1 + e2), start);
                return Err(e);
            },
        }
        proof {
            lemma_concat_assoc(o0, e0 + e1 + e2, e3);
        }
        match self.to_red.encode(out) {
            Ok(_) => {},
            Err(e) => {
                roll_back(out, Ghost(o0), Ghost(e0 + e1 + e2 + e3), start);
                return Err(e);
            },
        }
        proof {
            lemma_concat_assoc(o0, e0 + e1 + e2 + e3, e4);
        }
        match self.to_green.encode(out) {
            Ok(_) => {},
            Err(e) => {
                roll_back(out, Ghost(o0), Ghost(e0 + e1 + e2 + e3 + e4), start);
                return Err(e);
            },
        }
        proof {
            lemma_concat_assoc(o0, e0 + e1 + e2 + e3 + e4, e5);
        }
        match self.to_blue.encode(out) {
            Ok(_) => {},
            Err(e) => {
                roll_back(out, Ghost(o0), Ghost(e0 + e1 + e2 + e3 + e4 + e5), start);
                return Err(e);
            },
        }
        proof {
            lemma_concat_assoc(o0, e0 + e1 + e2 + e3 + e4 + e5, e6);
        }
        Ok(())
    }

    fn size(&self) -> (r: Result<VarInt, CodecError>) {
        proof {
            <Float as Encodable>::lemma_size_faithful(self.from_red.deep_view());
            <Float as Encodable>::lemma_size_faithful(self.from_green.deep_view());
            <Float as Encodable>::lemma_size_faithful(self.from_blue.deep_view());
            <Float as Encodable>::lemma_size_faithful(self.scale.deep_view());
            <Float as Encodable>::lemma_size_faithful(self.to_red.deep_view());
            <Float as Encodable>::lemma_size_faithful(self.to_green.deep_view());
            <Float as Encodable>::lemma_size_faithful(self.to_blue.deep_view());
        }
        let ghost w0 = <Float as Encodable>::spec_size(self.from_red.deep_view());
        let ghost w1 = <Float as Encodable>::spec_size(self.from_green.deep_view());
        let ghost w2 = <Float as Encodable>::spec_size(self.from_blue.deep_view());
        let ghost w3 = <Float as Encodable>::spec_size(self.scale.deep_view());
        let ghost w4 = <Float as Encodable>::spec_size(self.to_red.deep_view());
        let ghost w5 = <Float as Encodable>::spec_size(self.to_green.deep_view());
        let ghost w6 = <Float as Encodable>::spec_size(self.to_blue.deep_view());
        let t0 = self.from_red.size();
        let t1 = add_size(t0, Ghost(w0), self.from_green.size(), Ghost(w1));
        let ghost c1 = add_size_spec(w0, w1);
        let t2 = add_size(t1, Ghost(c1), self.from_blue.size(), Ghost(w2));
        let ghost c2 = add_size_spec(c1, w2);
        let t3 = add_size(t2, Ghost(c2), self.scale.size(), Ghost(w3));
        let ghost c3 = add_size_spec(c2, w3);
        let t4 = add_size(t3, Ghost(c3), self.to_red.size(), Ghost(w4));
        let ghost c4 = add_size_spec(c3, w4);
        let t5 = add_size(t4, Ghost(c4), self.to_green.size(), Ghost(w5));
        let ghost c5 = add_size_spec(c4, w5);
        let t6 = add_size(t5, Ghost(c5), self.to_blue.size(), Ghost(w6));
        t6
    }
}

impl Decodable for DustColorTransitionParticleData {
    open spec fn spec_decode(bytes: Seq<u8>) -> Result<(DustColorTransitionParticleDataView, nat), CodecError> {
        match decode_at::<Float>(bytes, 0) {
            Err(e) => Err(e),
            Ok((from_red, n0)) => match decode_at::<Float>(bytes, n0) {
                Err(e) => Err(e),
                Ok((from_green, n1)) => match decode_at::<Float>(bytes, n0 + n1) {
                    Err(e) => Err(e),
                    Ok((from_blue, n2)) => match decode_at::<Float>(bytes, n0 + n1 + n2) {
                        Err(e) => Err(e),
                        Ok((scale, n3)) => match decode_at::<Float>(bytes, n0 + n1 + n2 + n3) {
                            Err(e) => Err(e),
                            Ok((to_red, n4)) => match decode_at::<Float>(bytes, n0 + n1 + n2 + n3 + n4) {
                                Err(e) => Err(e),
                                Ok((to_green, n5)) => match decode_at::<Float>(bytes, n0 + n1 + n2 + n3 + n4 + n5) {
                                    Err(e) => Err(e),
                                    Ok((to_blue, n6)) => Ok((DustColorTransitionParticleDataView { from_red, from_green, from_blue, scale, to_red, to_green, to_blue }, n0 + n1 + n2 + n3 + n4 + n5 + n6)),
                                },
                            },
                        },
                    },
                },
            },
        }
    }

    proof fn lemma_decode_len(bytes: Seq<u8>) {
        lemma_decode_at::<Float>(bytes, 0);
        <Float as Decodable>::lemma_decode_len(bytes.subrange((0) as int, bytes.len() as int));
        if let Ok((from_red, n0)) = decode_at::<Float>(bytes, 0) {
            lemma_decode_at::<Float>(bytes, n0);
            <Float as Decodable>::lemma_decode_len(bytes.subrange((n0) as int, bytes.len() as int));
            if let Ok((from_green, n1)) = decode_at::<Float>(bytes, n0) {
                lemma_decode_at::<Float>(bytes, n0 + n1);
                <Float as Decodable>::lemma_decode_len(bytes.subrange((n0 + n1) as int, bytes.len() as int));
                if let Ok((from_blue, n2)) = decode_at::<Float>(bytes, n0 + n1) {
                    lemma_decode_at::<Float>(bytes, n0 + n1 + n2);
                    <Float as Decodable>::lemma_decode_len(bytes.subrange((n0 + n1 + n2) as int, bytes.len() as int));
                    if let Ok((scale, n3)) = decode_at::<Float>(bytes, n0 + n1 + n2) {
                        lemma_decode_at::<Float>(bytes, n0 + n1 + n2 + n3);
                        <Float as Decodable>::lemma_decode_len(bytes.subrange((n0 + n1 + n2 + n3) as int, bytes.len() as int));
                        if let Ok((to_red, n4)) = decode_at::<Float>(bytes, n0 + n1 + n2 + n3) {
                            lemma_decode_at::<Float>(bytes, n0 + n1 + n2 + n3 + n4);
                            <Float as Decodable>::lemma_decode_len(bytes.subrange((n0 + n1 + n2 + n3 + n4) as int, bytes.len() as int));
                            if let Ok((to_green, n5)) = decode_at::<Float>(bytes, n0 + n1 + n2 + n3 + n4) {
                                lemma_decode_at::<Float>(bytes, n0 + n1 + n2 + n3 + n4 + n5);
                                <Float as Decodable>::lemma_decode_len(bytes.subrange((n0 + n1 + n2 + n3 + n4 + n5) as int, bytes.len() as int));
                            }
                        }
                    }
                }
            }
        }
    }

    fn decode(reader: &mut ByteReader) -> (r: Result<DustColorTransitionParticleData, CodecError>) {
        let ghost r0 = *reader;
        let ghost rest0 = reader.rest();
        proof {
            ByteReader::lemma_rest_since(r0, *reader);
            lemma_decode_at::<Float>(rest0, (reader.pos() - r0.pos()) as nat);
        }
        let from_red = match <Float>::decode(reader) {
            Ok(v) => v,
            Err(e) => return Err(e),
        };
        proof {
            ByteReader::lemma_rest_since(r0, *reader);
            lemma_decode_at::<Float>(rest0, (reader.pos() - r0.pos()) as nat);
        }
        let from_green = match <Float>::decode(reader) {
            Ok(v) => v,
            Err(e) => return Err(e),
        };
        proof {
            ByteReader::lemma_rest_since(r0, *reader);
            lemma_decode_at::<Float>(rest0, (reader.pos() - r0.pos()) as nat);
        }
        let from_blue = match <Float>::decode(reader) {
            Ok(v) => v,
            Err(e) => return Err(e),
        };
        proof {
            ByteReader::lemma_rest_since(r0, *reader);
            lemma_decode_at::<Float>(rest0, (reader.pos() - r0.pos()) as nat);
        }
        let scale = match <Float>::decode(reader) {
            Ok(v) => v,
            Err(e) => return Err(e),
        };
        proof {
            ByteReader::lemma_rest_since(r0, *reader);
            lemma_decode_at::<Float>(rest0, (reader.pos() - r0.pos()) as nat);
        }
        let to_red = match <Float>::decode(reader) {
            Ok(v) => v,
            Err(e) => return Err(e),
        };
        proof {
            ByteReader::lemma_rest_since(r0, *reader);
            lemma_decode_at::<Float>(rest0, (reader.pos() - r0.pos()) as nat);
        }
        let to_green = match <Float>::decode(reader) {
            Ok(v) => v,
            Err(e) => return Err(e),
        };
        proof {
            ByteReader::lemma_rest_since(r0, *reader);
            lemma_decode_at::<Float>(rest0, (reader.pos() - r0.pos()) as nat);
        }
        let to_blue = match <Float>::decode(reader) {
            Ok(v) => v,
            Err(e) => return Err(e),
        };
        Ok(DustColorTransitionParticleData { from_red, from_green, from_blue, scale, to_red, to_green, to_blue })
    }
}

impl Codec for DustColorTransitionParticleData {
    open spec fn valid(m: DustColorTransitionParticleDataView) -> bool {
        &&& <Float as Codec>::valid(m.from_red)
        &&& <Float as Codec>::delimited()
        &&& <Float as Codec>::valid(m.from_green)
        &&& <Float as Codec>::delimited()
        &&& <Float as Codec>::valid(m.from_blue)
        &&& <Float as Codec>::delimited()
        &&& <Float as Codec>::valid(m.scale)
        &&& <Float as Codec>::delimited()
        &&& <Float as Codec>::valid(m.to_red)
        &&& <Float as Codec>::delimited()
        &&& <Float as Codec>::valid(m.to_green)
        &&& <Float as Codec>::delimited()
        &&& <Float as Codec>::valid(m.to_blue)
    }

    open spec fn delimited() -> bool {
        <Float as Codec>::delimited()
    }

    proof fn lemma_round_trip(m: DustColorTransitionParticleDataView, rest: Seq<u8>) {
        let e0 = <Float as Encodable>::spec_encode(m.from_red)->Ok_0;
        let e1 = <Float as Encodable>::spec_encode(m.from_green)->Ok_0;
        let e2 = <Float as Encodable>::spec_encode(m.from_blue)->Ok_0;
        let e3 = <Float as Encodable>::spec_encode(m.scale)->Ok_0;
        let e4 = <Float as Encodable>::spec_encode(m.to_red)->Ok_0;
        let e5 = <Float as Encodable>::spec_encode(m.to_green)->Ok_0;
        let e6 = <Float as Encodable>::spec_encode(m.to_blue)->Ok_0;
        let t6 = e6 + rest;
        let t5 = e5 + t6;
        let t4 = e4 + t5;
        let t3 = e3 + t4;
        let t2 = e2 + t3;
        let t1 = e1 + t2;
        let t0 = e0 + t1;
        assert(decode_at::<Float>(t0, (0) as nat) == Ok::<(<Float as DeepView>::V, nat), CodecError>((m.from_red, e0.len()))
            && <Float as Encodable>::spec_encode(m.from_red) == Ok::<Seq<u8>, CodecError>(e0)
            && decode_at::<Float>(t0, (e0.len()) as nat) == Ok::<(<Float as DeepView>::V, nat), CodecError>((m.from_green, e1.len()))
            && <Float as Encodable>::spec_encode(m.from_green) == Ok::<Seq<u8>, CodecError>(e1)
            && decode_at::<Float>(t0, (e0.len() + e1.len()) as nat) == Ok::<(<Float as DeepView>::V, nat), CodecError>((m.from_blue, e2.len()))
            && <Float as Encodable>::spec_encode(m.from_blue) == Ok::<Seq<u8>, CodecError>(e2)
            && decode_at::<Float>(t0, (e0.len() + e1.len() + e2.len()) as nat) == Ok::<(<Float as DeepView>::V, nat), CodecError>((m.scale, e3.len()))
            && <Float as Encodable>::spec_encode(m.scale) == Ok::<Seq<u8>, CodecError>(e3)
            && decode_at::<Float>(t0, (e0.len() + e1.len() + e2.len() + e3.len()) as nat) == Ok::<(<Float as DeepView>::V, nat), CodecError>((m.to_red, e4.len()))
            && <Float as Encodable>::spec_encode(m.to_red) == Ok::<Seq<u8>, CodecError>(e4)
            && decode_at::<Float>(t0, (e0.len() + e1.len() + e2.len() + e3.len() + e4.len()) as nat) == Ok::<(<Float as DeepView>::V, nat), CodecError>((m.to_green, e5.len()))
            && <Float as Encodable>::spec_encode(m.to_green) == Ok::<Seq<u8>, CodecError>(e5)
            && decode_at::<Float>(t0, (e0.len() + e1.len() + e2.len() + e3.len() + e4.len() + e5.len()) as nat) == Ok::<(<Float as DeepView>::V, nat), CodecError>((m.to_blue, e6.len()))
            && <Float as Encodable>::spec_encode(m.to_blue) == Ok::<Seq<u8>, CodecError>(e6)) by {
            lemma_subrange_all(t0);
            lemma_field_round_trip::<Float>(m.from_red, t0, (0) as nat, t1);
            lemma_field_round_trip::<Float>(m.from_green, t0, (e0.len()) as nat, t2);
            lemma_field_round_trip::<Float>(m.from_blue, t0, (e0.len() + e1.len()) as nat, t3);
            lemma_field_round_trip::<Float>(m.scale, t0, (e0.len() + e1.len() + e2.len()) as nat, t4);
            lemma_field_round_trip::<Float>(m.to_red, t0, (e0.len() + e1.len() + e2.len() + e3.len()) as nat, t5);
            lemma_field_round_trip::<Float>(m.to_green, t0, (e0.len() + e1.len() + e2.len() + e3.len() + e4.len()) as nat, t6);
            lemma_field_round_trip::<Float>(m.to_blue, t0, (e0.len() + e1.len() + e2.len() + e3.len() + e4.len() + e5.len()) as nat, rest);
        }
        assert(e0 + e1 + e2 + e3 + e4 + e5 + e6 + rest == t0) by {
            lemma_concat_assoc(e0, e1, t2);
            lemma_concat_assoc(e0 + e1, e2, t3);
            lemma_concat_assoc(e0 + e1 + e2, e3, t4);
            lemma_concat_assoc(e0 + e1 + e2 + e3, e4, t5);
            lemma_concat_assoc(e0 + e1 + e2 + e3 + e4, e5, t6);
            lemma_concat_assoc(e0 + e1 + e2 + e3 + e4 + e5, e6, rest);
        }
        assert(Self::spec_encode(m) == Ok::<Seq<u8>, CodecError>(e0 + e1 + e2 + e3 + e4 + e5 + e6));
    }
}
/// The block state of a falling dust particle.
pub struct FallingDustParticleData {
    pub block_state: VarInt,
}

/// The model of a `FallingDustParticleData`: each field by its model.
pub struct FallingDustParticleDataView {
    pub block_state: i32,
}

impl DeepView for FallingDustParticleData {
    type V = FallingDustParticleDataView;

    open spec fn deep_view(&self) -> FallingDustParticleDataView {
        FallingDustParticleDataView {
            block_state: self.block_state.deep_view(),
        }
    }
}

impl Encodable for FallingDustParticleData {
    /// The fields in order, with no framing.
    open spec fn spec_encode(m: FallingDustParticleDataView) -> Result<Seq<u8>, CodecError> {
        <VarInt as Encodable>::spec_encode(m.block_state)
    }

    /// The sum of the fields' sizes.
    open spec fn spec_size(m: FallingDustParticleDataView) -> Result<nat, CodecError> {
        <VarInt as Encodable>::spec_size(m.block_state)
    }

    proof fn lemma_size_faithful(m: FallingDustParticleDataView) {
        <VarInt as Encodable>::lemma_size_faithful(m.block_state);
    }

    fn encode(&self, out: &mut Vec<u8>) -> (r: Result<(), CodecError>) {
        self.block_state.encode(out)
    }

    fn size(&self) -> (r: Result<VarInt, CodecError>) {
        self.block_state.size()
    }
}

impl Decodable for FallingDustParticleData {
    open spec fn spec_decode(bytes: Seq<u8>) -> Result<(FallingDustParticleDataView, nat), CodecError> {
        match decode_at::<VarInt>(bytes, 0) {
            Err(e) => Err(e),
            Ok((block_state, n0)) => Ok((FallingDustParticleDataView { block_state }, n0)),
        }
    }

    proof fn lemma_decode_len(bytes: Seq<u8>) {
        lemma_decode_at::<VarInt>(bytes, 0);
        <VarInt as Decodable>::lemma_decode_len(bytes.subrange((0) as int, bytes.len() as int));
    }

    fn decode(reader: &mut ByteReader) -> (r: Result<FallingDustParticleData, CodecError>) {
        let ghost r0 = *reader;
        let ghost rest0 = reader.rest();
        proof {
            ByteReader::lemma_rest_since(r0, *reader);
            lemma_decode_at::<VarInt>(rest0, (reader.pos() - r0.pos()) as nat);
        }
        let block_state = match <VarInt>::decode(reader) {
            Ok(v) => v,
            Err(e) => return Err(e),
        };
        Ok(FallingDustParticleData { block_state })
    }
}

impl Codec for FallingDustParticleData {
    open spec fn valid(m: FallingDustParticleDataView) -> bool {
        &&& <VarInt as Codec>::valid(m.block_state)
    }

    open spec fn delimited() -> bool {
        <VarInt as Codec>::delimited()
    }

    proof fn lemma_round_trip(m: FallingDustParticleDataView, rest: Seq<u8>) {
        let e0 = <VarInt as Encodable>::spec_encode(m.block_state)->Ok_0;
        let t0 = e0 + rest;
        assert(decode_at::<VarInt>(t0, (0) as nat) == Ok::<(<VarInt as DeepView>::V, nat), CodecError>((m.block_state, e0.len()))
            && <VarInt as Encodable>::spec_encode(m.block_state) == Ok::<Seq<u8>, CodecError>(e0)) by {
            lemma_subrange_all(t0);
            lemma_field_round_trip::<VarInt>(m.block_state, t0, (0) as nat, rest);
        }
    }
}
/// The item of an item particle.
pub struct ItemParticleData {
    pub item: SlotData,
}

/// The model of a `ItemParticleData`: each field by its model.
pub struct ItemParticleDataView {
    pub item: SlotDataView,
}

impl DeepView for ItemParticleData {
    type V = ItemParticleDataView;

    open spec fn deep_view(&self) -> ItemParticleDataView {
        ItemParticleDataView {
            item: self.item.deep_view(),
        }
    }
}

impl Encodable for ItemParticleData {
    /// The fields in order, with no framing.
    open spec fn spec_encode(m: ItemParticleDataView) -> Result<Seq<u8>, CodecError> {
        <SlotData as Encodable>::spec_encode(m.item)
    }

    /// The sum of the fields' sizes.
    open spec fn spec_size(m: ItemParticleDataView) -> Result<nat, CodecError> {
        <SlotData as Encodable>::spec_size(m.item)
    }

    proof fn lemma_size_faithful(m: ItemParticleDataView) {
        <SlotData as Encodable>::lemma_size_faithful(m.item);
    }

    fn encode(&self, out: &mut Vec<u8>) -> (r: Result<(), CodecError>) {
        self.item.encode(out)
    }

    fn size(&self) -> (r: Result<VarInt, CodecError>) {
        self.item.size()
    }
}

impl Decodable for ItemParticleData {
    open spec fn spec_decode(bytes: Seq<u8>) -> Result<(ItemParticleDataView, nat), CodecError> {
        match decode_at::<SlotData>(bytes, 0) {
            Err(e) => Err(e),
            Ok((item, n0)) => Ok((ItemParticleDataView { item }, n0)),
        }
    }

    proof fn lemma_decode_len(bytes: Seq<u8>) {
        lemma_decode_at::<SlotData>(bytes, 0);
        <SlotData as Decodable>::lemma_decode_len(bytes.subrange((0) as int, bytes.len() as int));
    }

    fn decode(reader: &mut ByteReader) -> (r: Result<ItemParticleData, CodecError>) {
        let ghost r0 = *reader;
        let ghost rest0 = reader.rest();
        proof {
            ByteReader::lemma_rest_since(r0, *reader);
            lemma_decode_at::<SlotData>(rest0, (reader.pos() - r0.pos()) as nat);
        }
        let item = match <SlotData>::decode(reader) {
            Ok(v) => v,
            Err(e) => return Err(e),
        };
        Ok(ItemParticleData { item })
    }
}

impl Codec for ItemParticleData {
    open spec fn valid(m: ItemParticleDataView) -> bool {
        &&& <SlotData as Codec>::valid(m.item)
    }

    open spec fn delimited() -> bool {
        <SlotData as Codec>::delimited()
    }

    proof fn lemma_round_trip(m: ItemParticleDataView, rest: Seq<u8>) {
        let e0 = <SlotData as Encodable>::spec_encode(m.item)->Ok_0;
        let t0 = e0 + rest;
        assert(decode_at::<SlotData>(t0, (0) as nat) == Ok::<(<SlotData as DeepView>::V, nat), CodecError>((m.item, e0.len()))
            && <SlotData as Encodable>::spec_encode(m.item) == Ok::<Seq<u8>, CodecError>(e0)) by {
            lemma_subrange_all(t0);
            lemma_field_round_trip::<SlotData>(m.item, t0, (0) as nat, rest);
        }
    }
}
/// The path of a vibration particle.
pub struct VibrationParticleData {
    pub origin_x: Double,
    pub origin_y: Double,
    pub origin_z: Double,
    pub dest_x: Double,
    pub dest_y: Double,
    pub dest_z: Double,
    pub ticks: i32,
}

/// The model of a `VibrationParticleData`: each field by its model.
pub struct VibrationParticleDataView {
    pub origin_x: u64,
    pub origin_y: u64,
    pub origin_z: u64,
    pub dest_x: u64,
    pub dest_y: u64,
    pub dest_z: u64,
    pub ticks: i32,
}

impl DeepView for VibrationParticleData {
    type V = VibrationParticleDataView;

    open spec fn deep_view(&self) -> VibrationParticleDataView {
        VibrationParticleDataView {
            origin_x: self.origin_x.deep_view(),
            origin_y: self.origin_y.deep_view(),
            origin_z: self.origin_z.deep_view(),
            dest_x: self.dest_x.deep_view(),
            dest_y: self.dest_y.deep_view(),
            dest_z: self.dest_z.deep_view(),
            ticks: self.ticks.deep_view(),
        }
    }
}

impl Encodable for VibrationParticleData {
    /// The fields in order, with no framing.
    open spec fn spec_encode(m: VibrationParticleDataView) -> Result<Seq<u8>, CodecError> {
        then_encode(then_encode(then_encode(then_encode(then_encode(then_encode(<Double as Encodable>::spec_encode(m.origin_x), <Double as Encodable>::spec_encode(m.origin_y)), <Double as Encodable>::spec_encode(m.origin_z)), <Double as Encodable>::spec_encode(m.dest_x)), <Double as Encodable>::spec_encode(m.dest_y)), <Double as Encodable>::spec_encode(m.dest_z)), <i32 as Encodable>::spec_encode(m.ticks))
    }

    /// The sum of the fields' sizes.
    open spec fn spec_size(m: VibrationParticleDataView) -> Result<nat, CodecError> {
        add_size_spec(add_size_spec(add_size_spec(add_size_spec(add_size_spec(add_size_spec(<Double as Encodable>::spec_size(m.origin_x), <Double as Encodable>::spec_size(m.origin_y)), <Double as Encodable>::spec_size(m.origin_z)), <Double as Encodable>::spec_size(m.dest_x)), <Double as Encodable>::spec_size(m.dest_y)), <Double as Encodable>::spec_size(m.dest_z)), <i32 as Encodable>::spec_size(m.ticks))
    }

    proof fn lemma_size_faithful(m: VibrationParticleDataView) {
        <Double as Encodable>::lemma_size_faithful(m.origin_x);
        <Double as Encodable>::lemma_size_faithful(m.origin_y);
        <Double as Encodable>::lemma_size_faithful(m.origin_z);
        <Double as Encodable>::lemma_size_faithful(m.dest_x);
        <Double as Encodable>::lemma_size_faithful(m.dest_y);
        <Double as Encodable>::lemma_size_faithful(m.dest_z);
        <i32 as Encodable>::lemma_size_faithful(m.ticks);
        lemma_then_size(<Double as Encodable>::spec_encode(m.origin_x), <Double as Encodable>::spec_size(m.origin_x), <Double as Encodable>::spec_encode(m.origin_y), <Double as Encodable>::spec_size(m.origin_y));
        lemma_then_size(then_encode(<Double as Encodable>::spec_encode(m.origin_x), <Double as Encodable>::spec_encode(m.origin_y)), add_size_spec(<Double as Encodable>::spec_size(m.origin_x), <Double as Encodable>::spec_size(m.origin_y)), <Double as Encodable>::spec_encode(m.origin_z), <Double as Encodable>::spec_size(m.origin_z));
        lemma_then_size(then_encode(then_encode(<Double as Encodable>::spec_encode(m.origin_x), <Double as Encodable>::spec_encode(m.origin_y)), <Double as Encodable>::spec_encode(m.origin_z)), add_size_spec(add_size_spec(<Double as Encodable>::spec_size(m.origin_x), <Double as Encodable>::spec_size(m.origin_y)), <Double as Encodable>::spec_size(m.origin_z)), <Double as Encodable>::spec_encode(m.dest_x), <Double as Encodable>::spec_size(m.dest_x));
        lemma_then_size(then_encode(then_encode(then_encode(<Double as Encodable>::spec_encode(m.origin_x), <Double as Encodable>::spec_encode(m.origin_y)), <Double as Encodable>::spec_encode(m.origin_z)), <Double as Encodable>::spec_encode(m.dest_x)), add_size_spec(add_size_spec(add_size_spec(<Double as Encodable>::spec_size(m.origin_x), <Double as Encodable>::spec_size(m.origin_y)), <Double as Encodable>::spec_size(m.origin_z)), <Double as Encodable>::spec_size(m.dest_x)), <Double as Encodable>::spec_encode(m.dest_y), <Double as Encodable>::spec_size(m.dest_y));
        lemma_then_size(then_encode(then_encode(then_encode(then_encode(<Double as Encodable>::spec_encode(m.origin_x), <Double as Encodable>::spec_encode(m.origin_y)), <Double as Encodable>::spec_encode(m.origin_z)), <Double as Encodable>::spec_encode(m.dest_x)), <Double as Encodable>::spec_encode(m.dest_y)), add_size_spec(add_size_spec(add_size_spec(add_size_spec(<Double as Encodable>::spec_size(m.origin_x), <Double as Encodable>::spec_size(m.origin_y)), <Double as Encodable>::spec_size(m.origin_z)), <Double as Encodable>::spec_size(m.dest_x)), <Double as Encodable>::spec_size(m.dest_y)), <Double as Encodable>::spec_encode(m.dest_z), <Double as Encodable>::spec_size(m.dest_z));
        lemma_then_size(then_encode(then_encode(then_encode(then_encode(then_encode(<Double as Encodable>::spec_encode(m.origin_x), <Double as Encodable>::spec_encode(m.origin_y)), <Double as Encodable>::spec_encode(m.origin_z)), <Double as Encodable>::spec_encode(m.dest_x)), <Double as Encodable>::spec_encode(m.dest_y)), <Double as Encodable>::spec_encode(m.dest_z)), add_size_spec(add_size_spec(add_size_spec(add_size_spec(add_size_spec(<Double as Encodable>::spec_size(m.origin_x), <Double as Encodable>::spec_size(m.origin_y)), <Double as Encodable>::spec_size(m.origin_z)), <Double as Encodable>::spec_size(m.dest_x)), <Double as Encodable>::spec_size(m.dest_y)), <Double as Encodable>::spec_size(m.dest_z)), <i32 as Encodable>::spec_encode(m.ticks), <i32 as Encodable>::spec_size(m.ticks));
    }

    fn encode(&self, out: &mut Vec<u8>) -> (r: Result<(), CodecError>) {
        let ghost o0 = out@;
        let start = out.len();
        let ghost e0 = <Double as Encodable>::spec_encode(self.origin_x.deep_view())->Ok_0;
        let ghost e1 = <Double as Encodable>::spec_encode(self.origin_y.deep_view())->Ok_0;
        let ghost e2 = <Double as Encodable>::spec_encode(self.origin_z.deep_view())->Ok_0;
        let ghost e3 = <Double as Encodable>::spec_encode(self.dest_x.deep_view())->Ok_0;
        let ghost e4 = <Double as Encodable>::spec_encode(self.dest_y.deep_view())->Ok_0;
        let ghost e5 = <Double as Encodable>::spec_encode(self.dest_z.deep_view())->Ok_0;
        let ghost e6 = <i32 as Encodable>::spec_encode(self.ticks.deep_view())->Ok_0;
        match self.origin_x.encode(out) {
            Ok(_) => {},
            Err(e) => return Err(e),
        }
        match self.origin_y.encode(out) {
            Ok(_) => {},
            Err(e) => {
                roll_back(out, Ghost(o0), Ghost(e0), start);
                return Err(e);
            },
        }
        proof {
            lemma_concat_assoc(o0, e0, e1);
        }
        match self.origin_z.encode(out) {
            Ok(_) => {},
            Err(e) => {
                roll_back(out, Ghost(o0), Ghost(e0 + e1), start);
                return Err(e);
            },
        }
        proof {
            lemma_concat_assoc(o0, e0 + e1, e2);
        }
        match self.dest_x.encode(out) {
            Ok(_) => {},
            Err(e) => {
                roll_back(out, Ghost(o0), Ghost(e0 + e1 + e2), start);
                return Err(e);
            },
        }
        proof {
            lemma_concat_assoc(o0, e0 + e1 + e2, e3);
        }
        match self.dest_y.encode(out) {
            Ok(_) => {},
            Err(e) => {
                roll_back(out, Ghost(o0), Ghost(e0 + e1 + e2 + e3), start);
                return Err(e);
            },
        }
        proof {
            lemma_concat_assoc(o0, e0 + e1 + e2 + e3, e4);
        }
        match self.dest_z.encode(out) {
            Ok(_) => {},
            Err(e) => {
                roll_back(out, Ghost(o0), Ghost(e0 + e1 + e2 + e3 + e4), start);
                return Err(e);
            },
        }
        proof {
            lemma_concat_assoc(o0, e0 + e1 + e2 + e3 + e4, e5);
        }
        match self.ticks.encode(out) {
            Ok(_) => {},
            Err(e) => {
                roll_back(out, Ghost(o0), Ghost(e0 + e1 + e2 + e3 + e4 + e5), start);
                return Err(e);
            },
        }
        proof {
            lemma_concat_assoc(o0, e0 + e1 + e2 + e3 + e4 + e5, e6);
        }
        Ok(())
    }

    fn size(&self) -> (r: Result<VarInt, CodecError>) {
        proof {
            <Double as Encodable>::lemma_size_faithful(self.origin_x.deep_view());
            <Double as Encodable>::lemma_size_faithful(self.origin_y.deep_view());
            <Double as Encodable>::lemma_size_faithful(self.origin_z.deep_view());
            <Double as Encodable>::lemma_size_faithful(self.dest_x.deep_view());
            <Double as Encodable>::lemma_size_faithful(self.dest_y.deep_view());
            <Double as Encodable>::lemma_size_faithful(self.dest_z.deep_view());
            <i32 as Encodable>::lemma_size_faithful(self.ticks.deep_view());
        }
        let ghost w0 = <Double as Encodable>::spec_size(self.origin_x.deep_view());
        let ghost w1 = <Double as Encodable>::spec_size(self.origin_y.deep_view());
        let ghost w2 = <Double as Encodable>::spec_size(self.origin_z.deep_view());
        let ghost w3 = <Double as Encodable>::spec_size(self.dest_x.deep_view());
        let ghost w4 = <Double as Encodable>::spec_size(self.dest_y.deep_view());
        let ghost w5 = <Double as Encodable>::spec_size(self.dest_z.deep_view());
        let ghost w6 = <i32 as Encodable>::spec_size(self.ticks.deep_view());
        let t0 = self.origin_x.size();
        let t1 = add_size(t0, Ghost(w0), self.origin_y.size(), Ghost(w1));
        let ghost c1 = add_size_spec(w0, w1);
        let t2 = add_size(t1, Ghost(c1), self.origin_z.size(), Ghost(w2));
        let ghost c2 = add_size_spec(c1, w2);
        let t3 = add_size(t2, Ghost(c2), self.dest_x.size(), Ghost(w3));
        let ghost c3 = add_size_spec(c2, w3);
        let t4 = add_size(t3, Ghost(c3), self.dest_y.size(), Ghost(w4));
        let ghost c4 = add_size_spec(c3, w4);
        let t5 = add_size(t4, Ghost(c4), self.dest_z.size(), Ghost(w5));
        let ghost c5 = add_size_spec(c4, w5);
        let t6 = add_size(t5, Ghost(c5), self.ticks.size(), Ghost(w6));
        t6
    }
}

impl Decodable for VibrationParticleData {
    open spec fn spec_decode(bytes: Seq<u8>) -> Result<(VibrationParticleDataView, nat), CodecError> {
        match decode_at::<Double>(bytes, 0) {
            Err(e) => Err(e),
            Ok((origin_x, n0)) => match decode_at::<Double>(bytes, n0) {
                Err(e) => Err(e),
                Ok((origin_y, n1)) => match decode_at::<Double>(bytes, n0 + n1) {
                    Err(e) => Err(e),
                    Ok((origin_z, n2)) => match decode_at::<Double>(bytes, n0 + n1 + n2) {
                        Err(e) => Err(e),
                        Ok((dest_x, n3)) => match decode_at::<Double>(bytes, n0 + n1 + n2 + n3) {
                            Err(e) => Err(e),
                            Ok((dest_y, n4)) => match decode_at::<Double>(bytes, n0 + n1 + n2 + n3 + n4) {
                                Err(e) => Err(e),
                                Ok((dest_z, n5)) => match decode_at::<i32>(bytes, n0 + n1 + n2 + n3 + n4 + n5) {
                                    Err(e) => Err(e),
                                    Ok((ticks, n6)) => Ok((VibrationParticleDataView { origin_x, origin_y, origin_z, dest_x, dest_y, dest_z, ticks }, n0 + n1 + n2 + n3 + n4 + n5 + n6)),
                                },
                            },
                        },
                    },
                },
            },
        }
    }

    proof fn lemma_decode_len(bytes: Seq<u8>) {
        lemma_decode_at::<Double>(bytes, 0);
        <Double as Decodable>::lemma_decode_len(bytes.subrange((0) as int, bytes.len() as int));
        if let Ok((origin_x, n0)) = decode_at::<Double>(bytes, 0) {
            lemma_decode_at::<Double>(bytes, n0);
            <Double as Decodable>::lemma_decode_len(bytes.subrange((n0) as int, bytes.len() as int));
            if let Ok((origin_y, n1)) = decode_at::<Double>(bytes, n0) {
                lemma_decode_at::<Double>(bytes, n0 + n1);
                <Double as Decodable>::lemma_decode_len(bytes.subrange((n0 + n1) as int, bytes.len() as int));
                if let Ok((origin_z, n2)) = decode_at::<Double>(bytes, n0 + n1) {
                    lemma_decode_at::<Double>(bytes, n0 + n1 + n2);
                    <Double as Decodable>::lemma_decode_len(bytes.subrange((n0 + n1 + n2) as int, bytes.len() as int));
                    if let Ok((dest_x, n3)) = decode_at::<Double>(bytes, n0 + n1 + n2) {
                        lemma_decode_at::<Double>(bytes, n0 + n1 + n2 + n3);
                        <Double as Decodable>::lemma_decode_len(bytes.subrange((n0 + n1 + n2 + n3) as int, bytes.len() as int));
                        if let Ok((dest_y, n4)) = decode_at::<Double>(bytes, n0 + n1 + n2 + n3) {
                            lemma_decode_at::<Double>(bytes, n0 + n1 + n2 + n3 + n4);
                            <Double as Decodable>::lemma_decode_len(bytes.subrange((n0 + n1 + n2 + n3 + n4) as int, bytes.len() as int));
                            if let Ok((dest_z, n5)) = decode_at::<Double>(bytes, n0 + n1 + n2 + n3 + n4) {
                                lemma_decode_at::<i32>(bytes, n0 + n1 + n2 + n3 + n4 + n5);
                                <i32 as Decodable>::lemma_decode_len(bytes.subrange((n0 + n1 + n2 + n3 + n4 + n5) as int, bytes.len() as int));
                            }
                        }
                    }
                }
            }
        }
    }

    fn decode(reader: &mut ByteReader) -> (r: Result<VibrationParticleData, CodecError>) {
        let ghost r0 = *reader;
        let ghost rest0 = reader.rest();
        proof {
            ByteReader::lemma_rest_since(r0, *reader);
            lemma_decode_at::<Double>(rest0, (reader.pos() - r0.pos()) as nat);
        }
        let origin_x = match <Double>::decode(reader) {
            Ok(v) => v,
            Err(e) => return Err(e),
        };
        proof {
            ByteReader::lemma_rest_since(r0, *reader);
            lemma_decode_at::<Double>(rest0, (reader.pos() - r0.pos()) as nat);
        }
        let origin_y = match <Double>::decode(reader) {
            Ok(v) => v,
            Err(e) => return Err(e),
        };
        proof {
            ByteReader::lemma_rest_since(r0, *reader);
            lemma_decode_at::<Double>(rest0, (reader.pos() - r0.pos()) as nat);
        }
        let origin_z = match <Double>::decode(reader) {
            Ok(v) => v,
            Err(e) => return Err(e),
        };
        proof {
            ByteReader::lemma_rest_since(r0, *reader);
            lemma_decode_at::<Double>(rest0, (reader.pos() - r0.pos()) as nat);
        }
        let dest_x = match <Double>::decode(reader) {
            Ok(v) => v,
            Err(e) => return Err(e),
        };
        proof {
            ByteReader::lemma_rest_since(r0, *reader);
            lemma_decode_at::<Double>(rest0, (reader.pos() - r0.pos()) as nat);
        }
        let dest_y = match <Double>::decode(reader) {
            Ok(v) => v,
            Err(e) => return Err(e),
        };
        proof {
            ByteReader::lemma_rest_since(r0, *reader);
            lemma_decode_at::<Double>(rest0, (reader.pos() - r0.pos()) as nat);
        }
        let dest_z = match <Double>::decode(reader) {
            Ok(v) => v,
            Err(e) => return Err(e),
        };
        proof {
            ByteReader::lemma_rest_since(r0, *reader);
            lemma_decode_at::<i32>(rest0, (reader.pos() - r0.pos()) as nat);
        }
        let ticks = match <i32>::decode(reader) {
            Ok(v) => v,
            Err(e) => return Err(e),
        };
        Ok(VibrationParticleData { origin_x, origin_y, origin_z, dest_x, dest_y, dest_z, ticks })
    }
}

impl Codec for VibrationParticleData {
    open spec fn valid(m: VibrationParticleDataView) -> bool {
        &&& <Double as Codec>::valid(m.origin_x)
        &&& <Double as Codec>::delimited()
        &&& <Double as Codec>::valid(m.origin_y)
        &&& <Double as Codec>::delimited()
        &&& <Double as Codec>::valid(m.origin_z)
        &&& <Double as Codec>::delimited()
        &&& <Double as Codec>::valid(m.dest_x)
        &&& <Double as Codec>::delimited()
        &&& <Double as Codec>::valid(m.dest_y)
        &&& <Double as Codec>::delimited()
        &&& <Double as Codec>::valid(m.dest_z)
        &&& <Double as Codec>::delimited()
        &&& <i32 as Codec>::valid(m.ticks)
    }

    open spec fn delimited() -> bool {
        <i32 as Codec>::delimited()
    }

    proof fn lemma_round_trip(m: VibrationParticleDataView, rest: Seq<u8>) {
        let e0 = <Double as Encodable>::spec_encode(m.origin_x)->Ok_0;
        let e1 = <Double as Encodable>::spec_encode(m.origin_y)->Ok_0;
        let e2 = <Double as Encodable>::spec_encode(m.origin_z)->Ok_0;
        let e3 = <Double as Encodable>::spec_encode(m.dest_x)->Ok_0;
        let e4 = <Double as Encodable>::spec_encode(m.dest_y)->Ok_0;
        let e5 = <Double as Encodable>::spec_encode(m.dest_z)->Ok_0;
        let e6 = <i32 as Encodable>::spec_encode(m.ticks)->Ok_0;
        let t6 = e6 + rest;
        let t5 = e5 + t6;
        let t4 = e4 + t5;
        let t3 = e3 + t4;
        let t2 = e2 + t3;
        let t1 = e1 + t2;
        let t0 = e0 + t1;
        assert(decode_at::<Double>(t0, (0) as nat) == Ok::<(<Double as DeepView>::V, nat), CodecError>((m.origin_x, e0.len()))
            && <Double as Encodable>::spec_encode(m.origin_x) == Ok::<Seq<u8>, CodecError>(e0)
            && decode_at::<Double>(t0, (e0.len()) as nat) == Ok::<(<Double as DeepView>::V, nat), CodecError>((m.origin_y, e1.len()))
            && <Double as Encodable>::spec_encode(m.origin_y) == Ok::<Seq<u8>, CodecError>(e1)
            && decode_at::<Double>(t0, (e0.len() + e1.len()) as nat) == Ok::<(<Double as DeepView>::V, nat), CodecError>((m.origin_z, e2.len()))
            && <Double as Encodable>::spec_encode(m.origin_z) == Ok::<Seq<u8>, CodecError>(e2)
            && decode_at::<Double>(t0, (e0.len() + e1.len() + e2.len()) as nat) == Ok::<(<Double as DeepView>::V, nat), CodecError>((m.dest_x, e3.len()))
            && <Double as Encodable>::spec_encode(m.dest_x) == Ok::<Seq<u8>, CodecError>(e3)
            && decode_at::<Double>(t0, (e0.len() + e1.len() + e2.len() + e3.len()) as nat) == Ok::<(<Double as DeepView>::V, nat), CodecError>((m.dest_y, e4.len()))
            && <Double as Encodable>::spec_encode(m.dest_y) == Ok::<Seq<u8>, CodecError>(e4)
            && decode_at::<Double>(t0, (e0.len() + e1.len() + e2.len() + e3.len() + e4.len()) as nat) == Ok::<(<Double as DeepView>::V, nat), CodecError>((m.dest_z, e5.len()))
            && <Double as Encodable>::spec_encode(m.dest_z) == Ok::<Seq<u8>, CodecError>(e5)
            && decode_at::<i32>(t0, (e0.len() + e1.len() + e2.len() + e3.len() + e4.len() + e5.len()) as nat) == Ok::<(<i32 as DeepView>::V, nat), CodecError>((m.ticks, e6.len()))
            && <i32 as Encodable>::spec_encode(m.ticks) == Ok::<Seq<u8>, CodecError>(e6)) by {
            lemma_subrange_all(t0);
            lemma_field_round_trip::<Double>(m.origin_x, t0, (0) as nat, t1);
            lemma_field_round_trip::<Double>(m.origin_y, t0, (e0.len()) as nat, t2);
            lemma_field_round_trip::<Double>(m.origin_z, t0, (e0.len() + e1.len()) as nat, t3);
            lemma_field_round_trip::<Double>(m.dest_x, t0, (e0.len() + e1.len() + e2.len()) as nat, t4);
            lemma_field_round_trip::<Double>(m.dest_y, t0, (e0.len() + e1.len() + e2.len() + e3.len()) as nat, t5);
            lemma_field_round_trip::<Double>(m.dest_z, t0, (e0.len() + e1.len() + e2.len() + e3.len() + e4.len()) as nat, t6);
            lemma_field_round_trip::<i32>(m.ticks, t0, (e0.len() + e1.len() + e2.len() + e3.len() + e4.len() + e5.len()) as nat, rest);
        }
        assert(e0 + e1 + e2 + e3 + e4 + e5 + e6 + rest == t0) by {
            lemma_concat_assoc(e0, e1, t2);
            lemma_concat_assoc(e0 + e1, e2, t3);
            lemma_concat_assoc(e0 + e1 + e2, e3, t4);
            lemma_concat_assoc(e0 + e1 + e2 + e3, e4, t5);
            lemma_concat_assoc(e0 + e1 + e2 + e3 + e4, e5, t6);
            lemma_concat_assoc(e0 + e1 + e2 + e3 + e4 + e5, e6, rest);
        }
        assert(Self::spec_encode(m) == Ok::<Seq<u8>, CodecError>(e0 + e1 + e2 + e3 + e4 + e5 + e6));
    }
}
/// A particle kind, with the data the kind carries.
pub enum ParticleData {
    AmbientEntityEffect,
    AngryVillager,
    Barrier,
    Light,
    Block(VarInt),
    Bubble,
    Cloud,
    Crit,
    DamageIndicator,
    DragonBreath,
    DrippingLava,
    FallingLava,
    LandingLava,
    DrippingWater,
    FallingWater,
    Dust(DustParticleData),
    DustColorTransition(DustColorTransitionParticleData),
    Effect,
    ElderGuardian,
    EnchantedHit,
    Enchant,
    EndRod,
    EntityEffect,
    ExplosionEmitter,
    Explosion,
    FallingDust(FallingDustParticleData),
    Firework,
    Fishing,
    Flame,
    SoulFireFlame,
    Soul,
    Flash,
    HappyVillager,
    Composter,
    Heart,
    InstantEffect,
    Item(ItemParticleData),
    Vibration(VibrationParticleData),
    ItemSlime,
    ItemSnowball,
    LargeSmoke,
    Lava,
    Mycelium,
    Note,
    Poof,
    Portal,
    Rain,
    Smoke,
    Sneeze,
    Spit,
    SquidInk,
    SweepAttack,
    TotemOfUndying,
    Underwater,
    Splash,
    Witch,
    BubblePop,
    CurrentDown,
    BubbleColumnUp,
    Nautilus,
    Dolphin,
    CampfireCosySmoke,
    CampfireSignalSmoke,
    DrippingHoney,
    FallingHoney,
    LandingHoney,
    FallingNectar,
    FallingSporeBlossom,
    Ash,
    CrimsonSpore,
    WarpedSpore,
    SporeBlossomAir,
    DrippingObsidianTear,
    FallingObsidianTear,
    LandingObsidianTear,
    ReversePortal,
    WhiteAsh,
    SmallFlame,
    Snowflake,
    DrippingDripstoneLava,
    FallingDripstoneLava,
    DrippingDripstoneWater,
    FallingDripstoneWater,
    GlowSquidInk,
    Glow,
    WaxOn,
    WaxOff,
    ElectricSpark,
    Scrape,
}

/// The model of a `ParticleData`: a kind without data by its discriminant, the
/// others by the model of their data.
pub enum ParticleDataView {
    Plain(i32),
    Block(i32),
    Dust(DustParticleDataView),
    DustColorTransition(DustColorTransitionParticleDataView),
    FallingDust(FallingDustParticleDataView),
    Item(ItemParticleDataView),
    Vibration(VibrationParticleDataView),
}

impl DeepView for ParticleData {
    type V = ParticleDataView;

    open spec fn deep_view(&self) -> ParticleDataView {
        match self {
            ParticleData::AmbientEntityEffect => ParticleDataView::Plain(0),
            ParticleData::AngryVillager => ParticleDataView::Plain(1),
            ParticleData::Barrier => ParticleDataView::Plain(2),
            ParticleData::Light => ParticleDataView::Plain(3),
            ParticleData::Block(p) => ParticleDataView::Block(p.deep_view()),
            ParticleData::Bubble => ParticleDataView::Plain(5),
            ParticleData::Cloud => ParticleDataView::Plain(6),
            ParticleData::Crit => ParticleDataView::Plain(7),
            ParticleData::DamageIndicator => ParticleDataView::Plain(8),
            ParticleData::DragonBreath => ParticleDataView::Plain(9),
            ParticleData::DrippingLava => ParticleDataView::Plain(10),
            ParticleData::FallingLava => ParticleDataView::Plain(11),
            ParticleData::LandingLava => ParticleDataView::Plain(12),
            ParticleData::DrippingWater => ParticleDataView::Plain(13),
            ParticleData::FallingWater => ParticleDataView::Plain(14),
            ParticleData::Dust(p) => ParticleDataView::Dust(p.deep_view()),
            ParticleData::DustColorTransition(p) => ParticleDataView::DustColorTransition(p.deep_view()),
            ParticleData::Effect => ParticleDataView::Plain(17),
            ParticleData::ElderGuardian => ParticleDataView::Plain(18),
            ParticleData::EnchantedHit => ParticleDataView::Plain(19),
            ParticleData::Enchant => ParticleDataView::Plain(20),
            ParticleData::EndRod => ParticleDataView::Plain(21),
            ParticleData::EntityEffect => ParticleDataView::Plain(22),
            ParticleData::ExplosionEmitter => ParticleDataView::Plain(23),
            ParticleData::Explosion => ParticleDataView::Plain(24),
            ParticleData::FallingDust(p) => ParticleDataView::FallingDust(p.deep_view()),
            ParticleData::Firework => ParticleDataView::Plain(26),
            ParticleData::Fishing => ParticleDataView::Plain(27),
            ParticleData::Flame => ParticleDataView::Plain(28),
            ParticleData::SoulFireFlame => ParticleDataView::Plain(29),
            ParticleData::Soul => ParticleDataView::Plain(30),
            ParticleData::Flash => ParticleDataView::Plain(31),
            ParticleData::HappyVillager => ParticleDataView::Plain(32),
            ParticleData::Composter => ParticleDataView::Plain(33),
            ParticleData::Heart => ParticleDataView::Plain(34),
            ParticleData::InstantEffect => ParticleDataView::Plain(35),
            ParticleData::Item(p) => ParticleDataView::Item(p.deep_view()),
            ParticleData::Vibration(p) => ParticleDataView::Vibration(p.deep_view()),
            ParticleData::ItemSlime => ParticleDataView::Plain(38),
            ParticleData::ItemSnowball => ParticleDataView::Plain(39),
            ParticleData::LargeSmoke => ParticleDataView::Plain(40),
            ParticleData::Lava => ParticleDataView::Plain(41),
            ParticleData::Mycelium => ParticleDataView::Plain(42),
            ParticleData::Note => ParticleDataView::Plain(43),
            ParticleData::Poof => ParticleDataView::Plain(44),
            ParticleData::Portal => ParticleDataView::Plain(45),
            ParticleData::Rain => ParticleDataView::Plain(46),
            ParticleData::Smoke => ParticleDataView::Plain(47),
            ParticleData::Sneeze => ParticleDataView::Plain(48),
            ParticleData::Spit => ParticleDataView::Plain(49),
            ParticleData::SquidInk => ParticleDataView::Plain(50),
            ParticleData::SweepAttack => ParticleDataView::Plain(51),
            ParticleData::TotemOfUndying => ParticleDataView::Plain(52),
            ParticleData::Underwater => ParticleDataView::Plain(53),
            ParticleData::Splash => ParticleDataView::Plain(54),
            ParticleData::Witch => ParticleDataView::Plain(55),
            ParticleData::BubblePop => ParticleDataView::Plain(56),
            ParticleData::CurrentDown => ParticleDataView::Plain(57),
            ParticleData::BubbleColumnUp => ParticleDataView::Plain(58),
            ParticleData::Nautilus => ParticleDataView::Plain(59),
            ParticleData::Dolphin => ParticleDataView::Plain(60),
            ParticleData::CampfireCosySmoke => ParticleDataView::Plain(61),
            ParticleData::CampfireSignalSmoke => ParticleDataView::Plain(62),
            ParticleData::DrippingHoney => ParticleDataView::Plain(63),
            ParticleData::FallingHoney => ParticleDataView::Plain(64),
            ParticleData::LandingHoney => ParticleDataView::Plain(65),
            ParticleData::FallingNectar => ParticleDataView::Plain(66),
            ParticleData::FallingSporeBlossom => ParticleDataView::Plain(67),
            ParticleData::Ash => ParticleDataView::Plain(68),
            ParticleData::CrimsonSpore => ParticleDataView::Plain(69),
            ParticleData::WarpedSpore => ParticleDataView::Plain(70),
            ParticleData::SporeBlossomAir => ParticleDataView::Plain(71),
            ParticleData::DrippingObsidianTear => ParticleDataView::Plain(72),
            ParticleData::FallingObsidianTear => ParticleDataView::Plain(73),
            ParticleData::LandingObsidianTear => ParticleDataView::Plain(74),
            ParticleData::ReversePortal => ParticleDataView::Plain(75),
            ParticleData::WhiteAsh => ParticleDataView::Plain(76),
            ParticleData::SmallFlame => ParticleDataView::Plain(77),
            ParticleData::Snowflake => ParticleDataView::Plain(78),
            ParticleData::DrippingDripstoneLava => ParticleDataView::Plain(79),
            ParticleData::FallingDripstoneLava => ParticleDataView::Plain(80),
            ParticleData::DrippingDripstoneWater => ParticleDataView::Plain(81),
            ParticleData::FallingDripstoneWater => ParticleDataView::Plain(82),
            ParticleData::GlowSquidInk => ParticleDataView::Plain(83),
            ParticleData::Glow => ParticleDataView::Plain(84),
            ParticleData::WaxOn => ParticleDataView::Plain(85),
            ParticleData::WaxOff => ParticleDataView::Plain(86),
            ParticleData::ElectricSpark => ParticleDataView::Plain(87),
            ParticleData::Scrape => ParticleDataView::Plain(88),
        }
    }
}

impl Encodable for ParticleData {
    /// The discriminant as a VarInt, then the payload if the variant has one.
    open spec fn spec_encode(m: ParticleDataView) -> Result<Seq<u8>, CodecError> {
        match m {
            ParticleDataView::Plain(i) => Ok(varint_bytes(i)),
            ParticleDataView::Block(p) => then_encode(Ok(varint_bytes(4)), <VarInt as Encodable>::spec_encode(p)),
            ParticleDataView::Dust(p) => then_encode(Ok(varint_bytes(15)), <DustParticleData as Encodable>::spec_encode(p)),
            ParticleDataView::DustColorTransition(p) => then_encode(Ok(varint_bytes(16)), <DustColorTransitionParticleData as Encodable>::spec_encode(p)),
            ParticleDataView::FallingDust(p) => then_encode(Ok(varint_bytes(25)), <FallingDustParticleData as Encodable>::spec_encode(p)),
            ParticleDataView::Item(p) => then_encode(Ok(varint_bytes(36)), <ItemParticleData as Encodable>::spec_encode(p)),
            ParticleDataView::Vibration(p) => then_encode(Ok(varint_bytes(37)), <VibrationParticleData as Encodable>::spec_encode(p)),
        }
    }

    /// The discriminant's size, plus the payload's where there is one.
    open spec fn spec_size(m: ParticleDataView) -> Result<nat, CodecError> {
        match m {
            ParticleDataView::Plain(i) => Ok(varint_bytes(i).len()),
            ParticleDataView::Block(p) => add_size_spec(Ok(varint_bytes(4).len()), <VarInt as Encodable>::spec_size(p)),
            ParticleDataView::Dust(p) => add_size_spec(Ok(varint_bytes(15).len()), <DustParticleData as Encodable>::spec_size(p)),
            ParticleDataView::DustColorTransition(p) => add_size_spec(Ok(varint_bytes(16).len()), <DustColorTransitionParticleData as Encodable>::spec_size(p)),
            ParticleDataView::FallingDust(p) => add_size_spec(Ok(varint_bytes(25).len()), <FallingDustParticleData as Encodable>::spec_size(p)),
            ParticleDataView::Item(p) => add_size_spec(Ok(varint_bytes(36).len()), <ItemParticleData as Encodable>::spec_size(p)),
            ParticleDataView::Vibration(p) => add_size_spec(Ok(varint_bytes(37).len()), <VibrationParticleData as Encodable>::spec_size(p)),
        }
    }

    #[verifier::spinoff_prover]
    #[verifier::rlimit(100)]
    proof fn lemma_size_faithful(m: ParticleDataView) {
        match m {
            ParticleDataView::Plain(i) => lemma_varint_len(i),
            ParticleDataView::Block(p) => {
                lemma_varint_len(4);
                <VarInt as Encodable>::lemma_size_faithful(p);
                lemma_then_size(Ok(varint_bytes(4)), Ok(varint_bytes(4).len()), <VarInt as Encodable>::spec_encode(p), <VarInt as Encodable>::spec_size(p));
            },
            ParticleDataView::Dust(p) => {
                lemma_varint_len(15);
                <DustParticleData as Encodable>::lemma_size_faithful(p);
                lemma_then_size(Ok(varint_bytes(15)), Ok(varint_bytes(15).len()), <DustParticleData as Encodable>::spec_encode(p), <DustParticleData as Encodable>::spec_size(p));
            },
            ParticleDataView::DustColorTransition(p) => {
                lemma_varint_len(16);
                <DustColorTransitionParticleData as Encodable>::lemma_size_faithful(p);
                lemma_then_size(Ok(varint_bytes(16)), Ok(varint_bytes(16).len()), <DustColorTransitionParticleData as Encodable>::spec_encode(p), <DustColorTransitionParticleData as Encodable>::spec_size(p));
            },
            ParticleDataView::FallingDust(p) => {
                lemma_varint_len(25);
                <FallingDustParticleData as Encodable>::lemma_size_faithful(p);
                lemma_then_size(Ok(varint_bytes(25)), Ok(varint_bytes(25).len()), <FallingDustParticleData as Encodable>::spec_encode(p), <FallingDustParticleData as Encodable>::spec_size(p));
            },
            ParticleDataView::Item(p) => {
                lemma_varint_len(36);
                <ItemParticleData as Encodable>::lemma_size_faithful(p);
                lemma_then_size(Ok(varint_bytes(36)), Ok(varint_bytes(36).len()), <ItemParticleData as Encodable>::spec_encode(p), <ItemParticleData as Encodable>::spec_size(p));
            },
            ParticleDataView::Vibration(p) => {
                lemma_varint_len(37);
                <VibrationParticleData as Encodable>::lemma_size_faithful(p);
                lemma_then_size(Ok(varint_bytes(37)), Ok(varint_bytes(37).len()), <VibrationParticleData as Encodable>::spec_encode(p), <VibrationParticleData as Encodable>::spec_size(p));
            },
        }
    }

    #[verifier::spinoff_prover]
    #[verifier::rlimit(50)]
    fn encode(&self, out: &mut Vec<u8>) -> (r: Result<(), CodecError>) {
        match self {
            ParticleData::AmbientEntityEffect => VarInt(0).encode(out),
            ParticleData::AngryVillager => VarInt(1).encode(out),
            ParticleData::Barrier => VarInt(2).encode(out),
            ParticleData::Light => VarInt(3).encode(out),
            ParticleData::Block(p) => {
                let start = out.len();
                let _ = VarInt(4).encode(out);
                let r = p.encode(out);
                proof {
                    if r is Ok {
                        assert(out@ =~= old(out)@ + (varint_bytes(4) + <VarInt as Encodable>::spec_encode(
                            p.deep_view(),
                        )->Ok_0));
                    }
                }
                if r.is_err() {
                    roll_back(out, Ghost(old(out)@), Ghost(varint_bytes(4)), start);
                }
                r
            },
            ParticleData::Bubble => VarInt(5).encode(out),
            ParticleData::Cloud => VarInt(6).encode(out),
            ParticleData::Crit => VarInt(7).encode(out),
            ParticleData::DamageIndicator => VarInt(8).encode(out),
            ParticleData::DragonBreath => VarInt(9).encode(out),
            ParticleData::DrippingLava => VarInt(10).encode(out),
            ParticleData::FallingLava => VarInt(11).encode(out),
            ParticleData::LandingLava => VarInt(12).encode(out),
            ParticleData::DrippingWater => VarInt(13).encode(out),
            ParticleData::FallingWater => VarInt(14).encode(out),
            ParticleData::Dust(p) => {
                let start = out.len();
                let _ = VarInt(15).encode(out);
                let r = p.encode(out);
                proof {
                    if r is Ok {
                        assert(out@ =~= old(out)@ + (varint_bytes(15) + <DustParticleData as Encodable>::spec_encode(
                            p.deep_view(),
                        )->Ok_0));
                    }
                }
                if r.is_err() {
                    roll_back(out, Ghost(old(out)@), Ghost(varint_bytes(15)), start);
                }
                r
            },
            ParticleData::DustColorTransition(p) => {
                let start = out.len();
                let _ = VarInt(16).encode(out);
                let r = p.encode(out);
                proof {
                    if r is Ok {
                        assert(out@ =~= old(out)@ + (varint_bytes(16) + <DustColorTransitionParticleData as Encodable>::spec_encode(
                            p.deep_view(),
                        )->Ok_0));
                    }
                }
                if r.is_err() {
                    roll_back(out, Ghost(old(out)@), Ghost(varint_bytes(16)), start);
                }
                r
            },
            ParticleData::Effect => VarInt(17).encode(out),
            ParticleData::ElderGuardian => VarInt(18).encode(out),
            ParticleData::EnchantedHit => VarInt(19).encode(out),
            ParticleData::Enchant => VarInt(20).encode(out),
            ParticleData::EndRod => VarInt(21).encode(out),
            ParticleData::EntityEffect => VarInt(22).encode(out),
            ParticleData::ExplosionEmitter => VarInt(23).encode(out),
            ParticleData::Explosion => VarInt(24).encode(out),
            ParticleData::FallingDust(p) => {
                let start = out.len();
                let _ = VarInt(25).encode(out);
                let r = p.encode(out);
                proof {
                    if r is Ok {
                        assert(out@ =~= old(out)@ + (varint_bytes(25) + <FallingDustParticleData as Encodable>::spec_encode(
                            p.deep_view(),
                        )->Ok_0));
                    }
                }
                if r.is_err() {
                    roll_back(out, Ghost(old(out)@), Ghost(varint_bytes(25)), start);
                }
                r
            },
            ParticleData::Firework => VarInt(26).encode(out),
            ParticleData::Fishing => VarInt(27).encode(out),
            ParticleData::Flame => VarInt(28).encode(out),
            ParticleData::SoulFireFlame => VarInt(29).encode(out),
            ParticleData::Soul => VarInt(30).encode(out),
            ParticleData::Flash => VarInt(31).encode(out),
            ParticleData::HappyVillager => VarInt(32).encode(out),
            ParticleData::Composter => VarInt(33).encode(out),
            ParticleData::Heart => VarInt(34).encode(out),
            ParticleData::InstantEffect => VarInt(35).encode(out),
            ParticleData::Item(p) => {
                let start = out.len();
                let _ = VarInt(36).encode(out);
                let r = p.encode(out);
                proof {
                    if r is Ok {
                        assert(out@ =~= old(out)@ + (varint_bytes(36) + <ItemParticleData as Encodable>::spec_encode(
                            p.deep_view(),
                        )->Ok_0));
                    }
                }
                if r.is_err() {
                    roll_back(out, Ghost(old(out)@), Ghost(varint_bytes(36)), start);
                }
                r
            },
            ParticleData::Vibration(p) => {
                let start = out.len();
                let _ = VarInt(37).encode(out);
                let r = p.encode(out);
                proof {
                    if r is Ok {
                        assert(out@ =~= old(out)@ + (varint_bytes(37) + <VibrationParticleData as Encodable>::spec_encode(
                            p.deep_view(),
                        )->Ok_0));
                    }
                }
                if r.is_err() {
                    roll_back(out, Ghost(old(out)@), Ghost(varint_bytes(37)), start);
                }
                r
            },
            ParticleData::ItemSlime => VarInt(38).encode(out),
            ParticleData::ItemSnowball => VarInt(39).encode(out),
            ParticleData::LargeSmoke => VarInt(40).encode(out),
            ParticleData::Lava => VarInt(41).encode(out),
            ParticleData::Mycelium => VarInt(42).encode(out),
            ParticleData::Note => VarInt(43).encode(out),
            ParticleData::Poof => VarInt(44).encode(out),
            ParticleData::Portal => VarInt(45).encode(out),
            ParticleData::Rain => VarInt(46).encode(out),
            ParticleData::Smoke => VarInt(47).encode(out),
            ParticleData::Sneeze => VarInt(48).encode(out),
            ParticleData::Spit => VarInt(49).encode(out),
            ParticleData::SquidInk => VarInt(50).encode(out),
            ParticleData::SweepAttack => VarInt(51).encode(out),
            ParticleData::TotemOfUndying => VarInt(52).encode(out),
            ParticleData::Underwater => VarInt(53).encode(out),
            ParticleData::Splash => VarInt(54).encode(out),
            ParticleData::Witch => VarInt(55).encode(out),
            ParticleData::BubblePop => VarInt(56).encode(out),
            ParticleData::CurrentDown => VarInt(57).encode(out),
            ParticleData::BubbleColumnUp => VarInt(58).encode(out),
            ParticleData::Nautilus => VarInt(59).encode(out),
            ParticleData::Dolphin => VarInt(60).encode(out),
            ParticleData::CampfireCosySmoke => VarInt(61).encode(out),
            ParticleData::CampfireSignalSmoke => VarInt(62).encode(out),
            ParticleData::DrippingHoney => VarInt(63).encode(out),
            ParticleData::FallingHoney => VarInt(64).encode(out),
            ParticleData::LandingHoney => VarInt(65).encode(out),
            ParticleData::FallingNectar => VarInt(66).encode(out),
            ParticleData::FallingSporeBlossom => VarInt(67).encode(out),
            ParticleData::Ash => VarInt(68).encode(out),
            ParticleData::CrimsonSpore => VarInt(69).encode(out),
            ParticleData::WarpedSpore => VarInt(70).encode(out),
            ParticleData::SporeBlossomAir => VarInt(71).encode(out),
            ParticleData::DrippingObsidianTear => VarInt(72).encode(out),
            ParticleData::FallingObsidianTear => VarInt(73).encode(out),
            ParticleData::LandingObsidianTear => VarInt(74).encode(out),
            ParticleData::ReversePortal => VarInt(75).encode(out),
            ParticleData::WhiteAsh => VarInt(76).encode(out),
            ParticleData::SmallFlame => VarInt(77).encode(out),
            ParticleData::Snowflake => VarInt(78).encode(out),
            ParticleData::DrippingDripstoneLava => VarInt(79).encode(out),
            ParticleData::FallingDripstoneLava => VarInt(80).encode(out),
            ParticleData::DrippingDripstoneWater => VarInt(81).encode(out),
            ParticleData::FallingDripstoneWater => VarInt(82).encode(out),
            ParticleData::GlowSquidInk => VarInt(83).encode(out),
            ParticleData::Glow => VarInt(84).encode(out),
            ParticleData::WaxOn => VarInt(85).encode(out),
            ParticleData::WaxOff => VarInt(86).encode(out),
            ParticleData::ElectricSpark => VarInt(87).encode(out),
            ParticleData::Scrape => VarInt(88).encode(out),
        }
    }

    #[verifier::spinoff_prover]
    #[verifier::rlimit(50)]
    fn size(&self) -> (r: Result<VarInt, CodecError>) {
        match self {
            ParticleData::AmbientEntityEffect => VarInt(0).size(),
            ParticleData::AngryVillager => VarInt(1).size(),
            ParticleData::Barrier => VarInt(2).size(),
            ParticleData::Light => VarInt(3).size(),
            ParticleData::Block(p) => {
                proof {
                    lemma_varint_len(4);
                    <VarInt as Encodable>::lemma_size_faithful(p.deep_view());
                }
                add_size(VarInt(4).size(), Ghost(Ok(varint_bytes(4).len())), p.size(), Ghost(<VarInt as Encodable>::spec_size(p.deep_view())))
            },
            ParticleData::Bubble => VarInt(5).size(),
            ParticleData::Cloud => VarInt(6).size(),
            ParticleData::Crit => VarInt(7).size(),
            ParticleData::DamageIndicator => VarInt(8).size(),
            ParticleData::DragonBreath => VarInt(9).size(),
            ParticleData::DrippingLava => VarInt(10).size(),
            ParticleData::FallingLava => VarInt(11).size(),
            ParticleData::LandingLava => VarInt(12).size(),
            ParticleData::DrippingWater => VarInt(13).size(),
            ParticleData::FallingWater => VarInt(14).size(),
            ParticleData::Dust(p) => {
                proof {
                    lemma_varint_len(15);
                    <DustParticleData as Encodable>::lemma_size_faithful(p.deep_view());
                }
                add_size(VarInt(15).size(), Ghost(Ok(varint_bytes(15).len())), p.size(), Ghost(<DustParticleData as Encodable>::spec_size(p.deep_view())))
            },
            ParticleData::DustColorTransition(p) => {
                proof {
                    lemma_varint_len(16);
                    <DustColorTransitionParticleData as Encodable>::lemma_size_faithful(p.deep_view());
                }
                add_size(VarInt(16).size(), Ghost(Ok(varint_bytes(16).len())), p.size(), Ghost(<DustColorTransitionParticleData as Encodable>::spec_size(p.deep_view())))
            },
            ParticleData::Effect => VarInt(17).size(),
            ParticleData::ElderGuardian => VarInt(18).size(),
            ParticleData::EnchantedHit => VarInt(19).size(),
            ParticleData::Enchant => VarInt(20).size(),
            ParticleData::EndRod => VarInt(21).size(),
            ParticleData::EntityEffect => VarInt(22).size(),
            ParticleData::ExplosionEmitter => VarInt(23).size(),
            ParticleData::Explosion => VarInt(24).size(),
            ParticleData::FallingDust(p) => {
                proof {
                    lemma_varint_len(25);
                    <FallingDustParticleData as Encodable>::lemma_size_faithful(p.deep_view());
                }
                add_size(VarInt(25).size(), Ghost(Ok(varint_bytes(25).len())), p.size(), Ghost(<FallingDustParticleData as Encodable>::spec_size(p.deep_view())))
            },
            ParticleData::Firework => VarInt(26).size(),
            ParticleData::Fishing => VarInt(27).size(),
            ParticleData::Flame => VarInt(28).size(),
            ParticleData::SoulFireFlame => VarInt(29).size(),
            ParticleData::Soul => VarInt(30).size(),
            ParticleData::Flash => VarInt(31).size(),
            ParticleData::HappyVillager => VarInt(32).size(),
            ParticleData::Composter => VarInt(33).size(),
            ParticleData::Heart => VarInt(34).size(),
            ParticleData::InstantEffect => VarInt(35).size(),
            ParticleData::Item(p) => {
                proof {
                    lemma_varint_len(36);
                    <ItemParticleData as Encodable>::lemma_size_faithful(p.deep_view());
                }
                add_size(VarInt(36).size(), Ghost(Ok(varint_bytes(36).len())), p.size(), Ghost(<ItemParticleData as Encodable>::spec_size(p.deep_view())))
            },
            ParticleData::Vibration(p) => {
                proof {
                    lemma_varint_len(37);
                    <VibrationParticleData as Encodable>::lemma_size_faithful(p.deep_view());
                }
                add_size(VarInt(37).size(), Ghost(Ok(varint_bytes(37).len())), p.size(), Ghost(<VibrationParticleData as Encodable>::spec_size(p.deep_view())))
            },
            ParticleData::ItemSlime => VarInt(38).size(),
            ParticleData::ItemSnowball => VarInt(39).size(),
            ParticleData::LargeSmoke => VarInt(40).size(),
            ParticleData::Lava => VarInt(41).size(),
            ParticleData::Mycelium => VarInt(42).size(),
            ParticleData::Note => VarInt(43).size(),
            ParticleData::Poof => VarInt(44).size(),
            ParticleData::Portal => VarInt(45).size(),
            ParticleData::Rain => VarInt(46).size(),
            ParticleData::Smoke => VarInt(47).size(),
            ParticleData::Sneeze => VarInt(48).size(),
            ParticleData::Spit => VarInt(49).size(),
            ParticleData::SquidInk => VarInt(50).size(),
            ParticleData::SweepAttack => VarInt(51).size(),
            ParticleData::TotemOfUndying => VarInt(52).size(),
            ParticleData::Underwater => VarInt(53).size(),
            ParticleData::Splash => VarInt(54).size(),
            ParticleData::Witch => VarInt(55).size(),
            ParticleData::BubblePop => VarInt(56).size(),
            ParticleData::CurrentDown => VarInt(57).size(),
            ParticleData::BubbleColumnUp => VarInt(58).size(),
            ParticleData::Nautilus => VarInt(59).size(),
            ParticleData::Dolphin => VarInt(60).size(),
            ParticleData::CampfireCosySmoke => VarInt(61).size(),
            ParticleData::CampfireSignalSmoke => VarInt(62).size(),
            ParticleData::DrippingHoney => VarInt(63).size(),
            ParticleData::FallingHoney => VarInt(64).size(),
            ParticleData::LandingHoney => VarInt(65).size(),
            ParticleData::FallingNectar => VarInt(66).size(),
            ParticleData::FallingSporeBlossom => VarInt(67).size(),
            ParticleData::Ash => VarInt(68).size(),
            ParticleData::CrimsonSpore => VarInt(69).size(),
            ParticleData::WarpedSpore => VarInt(70).size(),
            ParticleData::SporeBlossomAir => VarInt(71).size(),
            ParticleData::DrippingObsidianTear => VarInt(72).size(),
            ParticleData::FallingObsidianTear => VarInt(73).size(),
            ParticleData::LandingObsidianTear => VarInt(74).size(),
            ParticleData::ReversePortal => VarInt(75).size(),
            ParticleData::WhiteAsh => VarInt(76).size(),
            ParticleData::SmallFlame => VarInt(77).size(),
            ParticleData::Snowflake => VarInt(78).size(),
            ParticleData::DrippingDripstoneLava => VarInt(79).size(),
            ParticleData::FallingDripstoneLava => VarInt(80).size(),
            ParticleData::DrippingDripstoneWater => VarInt(81).size(),
            ParticleData::FallingDripstoneWater => VarInt(82).size(),
            ParticleData::GlowSquidInk => VarInt(83).size(),
            ParticleData::Glow => VarInt(84).size(),
            ParticleData::WaxOn => VarInt(85).size(),
            ParticleData::WaxOff => VarInt(86).size(),
            ParticleData::ElectricSpark => VarInt(87).size(),
            ParticleData::Scrape => VarInt(88).size(),
        }
    }
}

impl ParticleData {
    /// The discriminants of the kinds that carry no data.
    pub open spec fn is_plain(index: int) -> bool {
        0 <= index < 89 && index != 4 && index != 15 && index != 16 && index != 25 && index != 36 && index != 37
    }
}

impl IndexDecodable for ParticleData {
    /// The variant with discriminant `index`; an index that names none fails.
    open spec fn spec_decode_index(bytes: Seq<u8>, index: int) -> Result<(ParticleDataView, nat), CodecError> {
        if index == 4 {
            match <VarInt as Decodable>::spec_decode(bytes) {
            Ok((p, n)) => Ok((ParticleDataView::Block(p), n)),
            Err(e) => Err(e),
        }
        } else if index == 15 {
            match <DustParticleData as Decodable>::spec_decode(bytes) {
            Ok((p, n)) => Ok((ParticleDataView::Dust(p), n)),
            Err(e) => Err(e),
        }
        } else if index == 16 {
            match <DustColorTransitionParticleData as Decodable>::spec_decode(bytes) {
            Ok((p, n)) => Ok((ParticleDataView::DustColorTransition(p), n)),
            Err(e) => Err(e),
        }
        } else if index == 25 {
            match <FallingDustParticleData as Decodable>::spec_decode(bytes) {
            Ok((p, n)) => Ok((ParticleDataView::FallingDust(p), n)),
            Err(e) => Err(e),
        }
        } else if index == 36 {
            match <ItemParticleData as Decodable>::spec_decode(bytes) {
            Ok((p, n)) => Ok((ParticleDataView::Item(p), n)),
            Err(e) => Err(e),
        }
        } else if index == 37 {
            match <VibrationParticleData as Decodable>::spec_decode(bytes) {
            Ok((p, n)) => Ok((ParticleDataView::Vibration(p), n)),
            Err(e) => Err(e),
        }
        } else if ParticleData::is_plain(index) {
            Ok((ParticleDataView::Plain(index as i32), 0))
        } else {
            Err(CodecError::UnknownDiscriminant(index as i32))
        }
    }

    #[verifier::spinoff_prover]
    #[verifier::rlimit(50)]
    fn decode_index(reader: &mut ByteReader, index: &VarInt) -> (r: Result<ParticleData, CodecError>) {
        match index.0 {
            0 => Ok(ParticleData::AmbientEntityEffect),
            1 => Ok(ParticleData::AngryVillager),
            2 => Ok(ParticleData::Barrier),
            3 => Ok(ParticleData::Light),
            4 => match <VarInt>::decode(reader) {
                Ok(p) => Ok(ParticleData::Block(p)),
                Err(e) => Err(e),
            },
            5 => Ok(ParticleData::Bubble),
            6 => Ok(ParticleData::Cloud),
            7 => Ok(ParticleData::Crit),
            8 => Ok(ParticleData::DamageIndicator),
            9 => Ok(ParticleData::DragonBreath),
            10 => Ok(ParticleData::DrippingLava),
            11 => Ok(ParticleData::FallingLava),
            12 => Ok(ParticleData::LandingLava),
            13 => Ok(ParticleData::DrippingWater),
            14 => Ok(ParticleData::FallingWater),
            15 => match <DustParticleData>::decode(reader) {
                Ok(p) => Ok(ParticleData::Dust(p)),
                Err(e) => Err(e),
            },
            16 => match <DustColorTransitionParticleData>::decode(reader) {
                Ok(p) => Ok(ParticleData::DustColorTransition(p)),
                Err(e) => Err(e),
            },
            17 => Ok(ParticleData::Effect),
            18 => Ok(ParticleData::ElderGuardian),
            19 => Ok(ParticleData::EnchantedHit),
            20 => Ok(ParticleData::Enchant),
            21 => Ok(ParticleData::EndRod),
            22 => Ok(ParticleData::EntityEffect),
            23 => Ok(ParticleData::ExplosionEmitter),
            24 => Ok(ParticleData::Explosion),
            25 => match <FallingDustParticleData>::decode(reader) {
                Ok(p) => Ok(ParticleData::FallingDust(p)),
                Err(e) => Err(e),
            },
            26 => Ok(ParticleData::Firework),
            27 => Ok(ParticleData::Fishing),
            28 => Ok(ParticleData::Flame),
            29 => Ok(ParticleData::SoulFireFlame),
            30 => Ok(ParticleData::Soul),
            31 => Ok(ParticleData::Flash),
            32 => Ok(ParticleData::HappyVillager),
            33 => Ok(ParticleData::Composter),
            34 => Ok(ParticleData::Heart),
            35 => Ok(ParticleData::InstantEffect),
            36 => match <ItemParticleData>::decode(reader) {
                Ok(p) => Ok(ParticleData::Item(p)),
                Err(e) => Err(e),
            },
            37 => match <VibrationParticleData>::decode(reader) {
                Ok(p) => Ok(ParticleData::Vibration(p)),
                Err(e) => Err(e),
            },
            38 => Ok(ParticleData::ItemSlime),
            39 => Ok(ParticleData::ItemSnowball),
            40 => Ok(ParticleData::LargeSmoke),
            41 => Ok(ParticleData::Lava),
            42 => Ok(ParticleData::Mycelium),
            43 => Ok(ParticleData::Note),
            44 => Ok(ParticleData::Poof),
            45 => Ok(ParticleData::Portal),
            46 => Ok(ParticleData::Rain),
            47 => Ok(ParticleData::Smoke),
            48 => Ok(ParticleData::Sneeze),
            49 => Ok(ParticleData::Spit),
            50 => Ok(ParticleData::SquidInk),
            51 => Ok(ParticleData::SweepAttack),
            52 => Ok(ParticleData::TotemOfUndying),
            53 => Ok(ParticleData::Underwater),
            54 => Ok(ParticleData::Splash),
            55 => Ok(ParticleData::Witch),
            56 => Ok(ParticleData::BubblePop),
            57 => Ok(ParticleData::CurrentDown),
            58 => Ok(ParticleData::BubbleColumnUp),
            59 => Ok(ParticleData::Nautilus),
            60 => Ok(ParticleData::Dolphin),
            61 => Ok(ParticleData::CampfireCosySmoke),
            62 => Ok(ParticleData::CampfireSignalSmoke),
            63 => Ok(ParticleData::DrippingHoney),
            64 => Ok(ParticleData::FallingHoney),
            65 => Ok(ParticleData::LandingHoney),
            66 => Ok(ParticleData::FallingNectar),
            67 => Ok(ParticleData::FallingSporeBlossom),
            68 => Ok(ParticleData::Ash),
            69 => Ok(ParticleData::CrimsonSpore),
            70 => Ok(ParticleData::WarpedSpore),
            71 => Ok(ParticleData::SporeBlossomAir),
            72 => Ok(ParticleData::DrippingObsidianTear),
            73 => Ok(ParticleData::FallingObsidianTear),
            74 => Ok(ParticleData::LandingObsidianTear),
            75 => Ok(ParticleData::ReversePortal),
            76 => Ok(ParticleData::WhiteAsh),
            77 => Ok(ParticleData::SmallFlame),
            78 => Ok(ParticleData::Snowflake),
            79 => Ok(ParticleData::DrippingDripstoneLava),
            80 => Ok(ParticleData::FallingDripstoneLava),
            81 => Ok(ParticleData::DrippingDripstoneWater),
            82 => Ok(ParticleData::FallingDripstoneWater),
            83 => Ok(ParticleData::GlowSquidInk),
            84 => Ok(ParticleData::Glow),
            85 => Ok(ParticleData::WaxOn),
            86 => Ok(ParticleData::WaxOff),
            87 => Ok(ParticleData::ElectricSpark),
            88 => Ok(ParticleData::Scrape),
            _ => Err(CodecError::UnknownDiscriminant(index.0)),
        }
    }
}

impl Decodable for ParticleData {
    open spec fn spec_decode(bytes: Seq<u8>) -> Result<(ParticleDataView, nat), CodecError> {
        match varint_parse(bytes) {
            Err(e) => Err(e),
            Ok((i, n)) => match Self::spec_decode_index(
                bytes.subrange(n as int, bytes.len() as int),
                i as int,
            ) {
                Ok((v, k)) => Ok((v, n + k)),
                Err(e) => Err(e),
            },
        }
    }

    proof fn lemma_decode_len(bytes: Seq<u8>) {
        <VarInt as Decodable>::lemma_decode_len(bytes);
        if let Ok((i, n)) = varint_parse(bytes) {
            <VarInt as Decodable>::lemma_decode_len(bytes.subrange(n as int, bytes.len() as int));
            <DustParticleData as Decodable>::lemma_decode_len(bytes.subrange(n as int, bytes.len() as int));
            <DustColorTransitionParticleData as Decodable>::lemma_decode_len(bytes.subrange(n as int, bytes.len() as int));
            <FallingDustParticleData as Decodable>::lemma_decode_len(bytes.subrange(n as int, bytes.len() as int));
            <ItemParticleData as Decodable>::lemma_decode_len(bytes.subrange(n as int, bytes.len() as int));
            <VibrationParticleData as Decodable>::lemma_decode_len(bytes.subrange(n as int, bytes.len() as int));
        }
    }

    fn decode(reader: &mut ByteReader) -> (r: Result<ParticleData, CodecError>) {
        let ghost rest0 = reader.rest();
        let index = match VarInt::decode(reader) {
            Ok(i) => i,
            Err(e) => return Err(e),
        };
        assert(reader.rest() =~= rest0.subrange(reader.pos() - old(reader).pos(), rest0.len() as int));
        Self::decode_index(reader, &index)
    }
}

impl Codec for ParticleData {
    open spec fn valid(m: ParticleDataView) -> bool {
        match m {
            ParticleDataView::Plain(i) => ParticleData::is_plain(i as int),
            ParticleDataView::Block(p) => <VarInt as Codec>::valid(p),
            ParticleDataView::Dust(p) => <DustParticleData as Codec>::valid(p),
            ParticleDataView::DustColorTransition(p) => <DustColorTransitionParticleData as Codec>::valid(p),
            ParticleDataView::FallingDust(p) => <FallingDustParticleData as Codec>::valid(p),
            ParticleDataView::Item(p) => <ItemParticleData as Codec>::valid(p),
            ParticleDataView::Vibration(p) => <VibrationParticleData as Codec>::valid(p),
        }
    }

    open spec fn delimited() -> bool {
        <VarInt as Codec>::delimited() && <DustParticleData as Codec>::delimited() && <DustColorTransitionParticleData as Codec>::delimited() && <FallingDustParticleData as Codec>::delimited() && <ItemParticleData as Codec>::delimited() && <VibrationParticleData as Codec>::delimited()
    }

    proof fn lemma_round_trip(m: ParticleDataView, rest: Seq<u8>) {
        match m {
            ParticleDataView::Plain(i) => {
                lemma_varint_round_trip(i, rest);
                assert(rest.subrange(0, rest.len() as int) =~= rest);
            },
            ParticleDataView::Block(p) => lemma_particle_data_block(p, rest),
            ParticleDataView::Dust(p) => lemma_particle_data_dust(p, rest),
            ParticleDataView::DustColorTransition(p) => lemma_particle_data_dust_color_transition(p, rest),
            ParticleDataView::FallingDust(p) => lemma_particle_data_falling_dust(p, rest),
            ParticleDataView::Item(p) => lemma_particle_data_item(p, rest),
            ParticleDataView::Vibration(p) => lemma_particle_data_vibration(p, rest),
        }
    }
}

/// Round trip of a `ParticleData::Block`.
proof fn lemma_particle_data_block(p: i32, rest: Seq<u8>)
    requires
        <VarInt as Codec>::valid(p),
        <VarInt as Codec>::delimited() || rest.len() == 0,
    ensures
        <ParticleData as Encodable>::spec_encode(ParticleDataView::Block(p)) is Ok,
        <ParticleData as Decodable>::spec_decode(<ParticleData as Encodable>::spec_encode(ParticleDataView::Block(p))->Ok_0 + rest)
            == Ok::<(ParticleDataView, nat), CodecError>((ParticleDataView::Block(p), <ParticleData as Encodable>::spec_encode(ParticleDataView::Block(p))->Ok_0.len())),
{
    <VarInt as Codec>::lemma_round_trip(p, rest);
    let e = <VarInt as Encodable>::spec_encode(p)->Ok_0;
    lemma_varint_round_trip(4, e + rest);
    let bytes = varint_bytes(4) + e + rest;
    assert(bytes =~= varint_bytes(4) + (e + rest));
    assert(bytes.subrange(varint_bytes(4).len() as int, bytes.len() as int) =~= e + rest);
}

/// Round trip of a `ParticleData::Dust`.
proof fn lemma_particle_data_dust(p: DustParticleDataView, rest: Seq<u8>)
    requires
        <DustParticleData as Codec>::valid(p),
        <DustParticleData as Codec>::delimited() || rest.len() == 0,
    ensures
        <ParticleData as Encodable>::spec_encode(ParticleDataView::Dust(p)) is Ok,
        <ParticleData as Decodable>::spec_decode(<ParticleData as Encodable>::spec_encode(ParticleDataView::Dust(p))->Ok_0 + rest)
            == Ok::<(ParticleDataView, nat), CodecError>((ParticleDataView::Dust(p), <ParticleData as Encodable>::spec_encode(ParticleDataView::Dust(p))->Ok_0.len())),
{
    <DustParticleData as Codec>::lemma_round_trip(p, rest);
    let e = <DustParticleData as Encodable>::spec_encode(p)->Ok_0;
    lemma_varint_round_trip(15, e + rest);
    let bytes = varint_bytes(15) + e + rest;
    assert(bytes =~= varint_bytes(15) + (e + rest));
    assert(bytes.subrange(varint_bytes(15).len() as int, bytes.len() as int) =~= e + rest);
}

/// Round trip of a `ParticleData::DustColorTransition`.
proof fn lemma_particle_data_dust_color_transition(p: DustColorTransitionParticleDataView, rest: Seq<u8>)
    requires
        <DustColorTransitionParticleData as Codec>::valid(p),
        <DustColorTransitionParticleData as Codec>::delimited() || rest.len() == 0,
    ensures
        <ParticleData as Encodable>::spec_encode(ParticleDataView::DustColorTransition(p)) is Ok,
        <ParticleData as Decodable>::spec_decode(<ParticleData as Encodable>::spec_encode(ParticleDataView::DustColorTransition(p))->Ok_0 + rest)
            == Ok::<(ParticleDataView, nat), CodecError>((ParticleDataView::DustColorTransition(p), <ParticleData as Encodable>::spec_encode(ParticleDataView::DustColorTransition(p))->Ok_0.len())),
{
    <DustColorTransitionParticleData as Codec>::lemma_round_trip(p, rest);
    let e = <DustColorTransitionParticleData as Encodable>::spec_encode(p)->Ok_0;
    lemma_varint_round_trip(16, e + rest);
    let bytes = varint_bytes(16) + e + rest;
    assert(bytes =~= varint_bytes(16) + (e + rest));
    assert(bytes.subrange(varint_bytes(16).len() as int, bytes.len() as int) =~= e + rest);
}

/// Round trip of a `ParticleData::FallingDust`.
proof fn lemma_particle_data_falling_dust(p: FallingDustParticleDataView, rest: Seq<u8>)
    requires
        <FallingDustParticleData as Codec>::valid(p),
        <FallingDustParticleData as Codec>::delimited() || rest.len() == 0,
    ensures
        <ParticleData as Encodable>::spec_encode(ParticleDataView::FallingDust(p)) is Ok,
        <ParticleData as Decodable>::spec_decode(<ParticleData as Encodable>::spec_encode(ParticleDataView::FallingDust(p))->Ok_0 + rest)
            == Ok::<(ParticleDataView, nat), CodecError>((ParticleDataView::FallingDust(p), <ParticleData as Encodable>::spec_encode(ParticleDataView::FallingDust(p))->Ok_0.len())),
{
    <FallingDustParticleData as Codec>::lemma_round_trip(p, rest);
    let e = <FallingDustParticleData as Encodable>::spec_encode(p)->Ok_0;
    lemma_varint_round_trip(25, e + rest);
    let bytes = varint_bytes(25) + e + rest;
    assert(bytes =~= varint_bytes(25) + (e + rest));
    assert(bytes.subrange(varint_bytes(25).len() as int, bytes.len() as int) =~= e + rest);
}

/// Round trip of a `ParticleData::Item`.
proof fn lemma_particle_data_item(p: ItemParticleDataView, rest: Seq<u8>)
    requires
        <ItemParticleData as Codec>::valid(p),
        <ItemParticleData as Codec>::delimited() || rest.len() == 0,
    ensures
        <ParticleData as Encodable>::spec_encode(ParticleDataView::Item(p)) is Ok,
        <ParticleData as Decodable>::spec_decode(<ParticleData as Encodable>::spec_encode(ParticleDataView::Item(p))->Ok_0 + rest)
            == Ok::<(ParticleDataView, nat), CodecError>((ParticleDataView::Item(p), <ParticleData as Encodable>::spec_encode(ParticleDataView::Item(p))->Ok_0.len())),
{
    <ItemParticleData as Codec>::lemma_round_trip(p, rest);
    let e = <ItemParticleData as Encodable>::spec_encode(p)->Ok_0;
    lemma_varint_round_trip(36, e + rest);
    let bytes = varint_bytes(36) + e + rest;
    assert(bytes =~= varint_bytes(36) + (e + rest));
    assert(bytes.subrange(varint_bytes(36).len() as int, bytes.len() as int) =~= e + rest);
}

/// Round trip of a `ParticleData::Vibration`.
proof fn lemma_particle_data_vibration(p: VibrationParticleDataView, rest: Seq<u8>)
    requires
        <VibrationParticleData as Codec>::valid(p),
        <VibrationParticleData as Codec>::delimited() || rest.len() == 0,
    ensures
        <ParticleData as Encodable>::spec_encode(ParticleDataView::Vibration(p)) is Ok,
        <ParticleData as Decodable>::spec_decode(<ParticleData as Encodable>::spec_encode(ParticleDataView::Vibration(p))->Ok_0 + rest)
            == Ok::<(ParticleDataView, nat), CodecError>((ParticleDataView::Vibration(p), <ParticleData as Encodable>::spec_encode(ParticleDataView::Vibration(p))->Ok_0.len())),
{
    <VibrationParticleData as Codec>::lemma_round_trip(p, rest);
    let e = <VibrationParticleData as Encodable>::spec_encode(p)->Ok_0;
    lemma_varint_round_trip(37, e + rest);
    let bytes = varint_bytes(37) + e + rest;
    assert(bytes =~= varint_bytes(37) + (e + rest));
    assert(bytes.subrange(varint_bytes(37).len() as int, bytes.len() as int) =~= e + rest);
}
/// A particle as metadata carries it.
pub struct Particle {
    pub data: ParticleData,
}

/// The model of a `Particle`: each field by its model.
pub struct ParticleView {
    pub data: ParticleDataView,
}

impl DeepView for Particle {
    type V = ParticleView;

    open spec fn deep_view(&self) -> ParticleView {
        ParticleView {
            data: self.data.deep_view(),
        }
    }
}

impl Encodable for Particle {
    /// The fields in order, with no framing.
    open spec fn spec_encode(m: ParticleView) -> Result<Seq<u8>, CodecError> {
        <ParticleData as Encodable>::spec_encode(m.data)
    }

    /// The sum of the fields' sizes.
    open spec fn spec_size(m: ParticleView) -> Result<nat, CodecError> {
        <ParticleData as Encodable>::spec_size(m.data)
    }

    proof fn lemma_size_faithful(m: ParticleView) {
        <ParticleData as Encodable>::lemma_size_faithful(m.data);
    }

    fn encode(&self, out: &mut Vec<u8>) -> (r: Result<(), CodecError>) {
        self.data.encode(out)
    }

    fn size(&self) -> (r: Result<VarInt, CodecError>) {
        self.data.size()
    }
}

impl Decodable for Particle {
    open spec fn spec_decode(bytes: Seq<u8>) -> Result<(ParticleView, nat), CodecError> {
        match decode_at::<ParticleData>(bytes, 0) {
            Err(e) => Err(e),
            Ok((data, n0)) => Ok((ParticleView { data }, n0)),
        }
    }

    proof fn lemma_decode_len(bytes: Seq<u8>) {
        lemma_decode_at::<ParticleData>(bytes, 0);
        <ParticleData as Decodable>::lemma_decode_len(bytes.subrange((0) as int, bytes.len() as int));
    }

    fn decode(reader: &mut ByteReader) -> (r: Result<Particle, CodecError>) {
        let ghost r0 = *reader;
        let ghost rest0 = reader.rest();
        proof {
            ByteReader::lemma_rest_since(r0, *reader);
            lemma_decode_at::<ParticleData>(rest0, (reader.pos() - r0.pos()) as nat);
        }
        let data = match <ParticleData>::decode(reader) {
            Ok(v) => v,
            Err(e) => return Err(e),
        };
        Ok(Particle { data })
    }
}

impl Codec for Particle {
    open spec fn valid(m: ParticleView) -> bool {
        &&& <ParticleData as Codec>::valid(m.data)
    }

    open spec fn delimited() -> bool {
        <ParticleData as Codec>::delimited()
    }

    proof fn lemma_round_trip(m: ParticleView, rest: Seq<u8>) {
        let e0 = <ParticleData as Encodable>::spec_encode(m.data)->Ok_0;
        let t0 = e0 + rest;
        assert(decode_at::<ParticleData>(t0, (0) as nat) == Ok::<(<ParticleData as DeepView>::V, nat), CodecError>((m.data, e0.len()))
            && <ParticleData as Encodable>::spec_encode(m.data) == Ok::<Seq<u8>, CodecError>(e0)) by {
            lemma_subrange_all(t0);
            lemma_field_round_trip::<ParticleData>(m.data, t0, (0) as nat, rest);
        }
    }
}
/// The typed value of an entity metadata entry.
pub enum MetadataEntryType {
    EntryByte(u8),
    EntryVarInt(VarInt),
    EntryFloat(Float),
    EntryString(BigString),
    EntryChat(ChatJson),
    EntryOptChat((bool, Option<ChatJson>)),
    EntrySlot(SlotData),
    EntryBoolean(bool),
    EntryRotation((Float, Float, Float)),
    EntryPosition(Position),
    EntryOptPosition((bool, Option<Position>)),
    EntryDirection(Direction),
    EntryOptUuid((bool, Option<McUuid>)),
    EntryOptBlockId(VarInt),
    EntryNbt(NbtTag),
    EntityParticle(Particle),
    EntryVillagerData((VillagerType, VillagerProfession, VarInt)),
    EntryOptVarInt(VarInt),
    EntryPose(Pose),
}

/// The model of a `MetadataEntryType`: each payload by its model.
pub enum MetadataEntryTypeView {
    EntryByte(u8),
    EntryVarInt(i32),
    EntryFloat(u32),
    EntryString(Seq<char>),
    EntryChat(Seq<char>),
    EntryOptChat((bool, Option<Seq<char>>)),
    EntrySlot(SlotDataView),
    EntryBoolean(bool),
    EntryRotation((u32, u32, u32)),
    EntryPosition((i64, i64, i64)),
    EntryOptPosition((bool, Option<(i64, i64, i64)>)),
    EntryDirection(Direction),
    EntryOptUuid((bool, Option<u128>)),
    EntryOptBlockId(i32),
    EntryNbt(Seq<u8>),
    EntityParticle(ParticleView),
    EntryVillagerData((VillagerType, VillagerProfession, i32)),
    EntryOptVarInt(i32),
    EntryPose(Pose),
}

impl DeepView for MetadataEntryType {
    type V = MetadataEntryTypeView;

    open spec fn deep_view(&self) -> MetadataEntryTypeView {
        match self {
            MetadataEntryType::EntryByte(p) => MetadataEntryTypeView::EntryByte(p.deep_view()),
            MetadataEntryType::EntryVarInt(p) => MetadataEntryTypeView::EntryVarInt(p.deep_view()),
            MetadataEntryType::EntryFloat(p) => MetadataEntryTypeView::EntryFloat(p.deep_view()),
            MetadataEntryType::EntryString(p) => MetadataEntryTypeView::EntryString(p.deep_view()),
            MetadataEntryType::EntryChat(p) => MetadataEntryTypeView::EntryChat(p.deep_view()),
            MetadataEntryType::EntryOptChat(p) => MetadataEntryTypeView::EntryOptChat(p.deep_view()),
            MetadataEntryType::EntrySlot(p) => MetadataEntryTypeView::EntrySlot(p.deep_view()),
            MetadataEntryType::EntryBoolean(p) => MetadataEntryTypeView::EntryBoolean(p.deep_view()),
            MetadataEntryType::EntryRotation(p) => MetadataEntryTypeView::EntryRotation(p.deep_view()),
            MetadataEntryType::EntryPosition(p) => MetadataEntryTypeView::EntryPosition(p.deep_view()),
            MetadataEntryType::EntryOptPosition(p) => MetadataEntryTypeView::EntryOptPosition(p.deep_view()),
            MetadataEntryType::EntryDirection(p) => MetadataEntryTypeView::EntryDirection(p.deep_view()),
            MetadataEntryType::EntryOptUuid(p) => MetadataEntryTypeView::EntryOptUuid(p.deep_view()),
            MetadataEntryType::EntryOptBlockId(p) => MetadataEntryTypeView::EntryOptBlockId(p.deep_view()),
            MetadataEntryType::EntryNbt(p) => MetadataEntryTypeView::EntryNbt(p.deep_view()),
            MetadataEntryType::EntityParticle(p) => MetadataEntryTypeView::EntityParticle(p.deep_view()),
            MetadataEntryType::EntryVillagerData(p) => MetadataEntryTypeView::EntryVillagerData(p.deep_view()),
            MetadataEntryType::EntryOptVarInt(p) => MetadataEntryTypeView::EntryOptVarInt(p.deep_view()),
            MetadataEntryType::EntryPose(p) => MetadataEntryTypeView::EntryPose(p.deep_view()),
        }
    }
}

impl Encodable for MetadataEntryType {
    /// The discriminant as a VarInt, then the payload if the variant has one.
    open spec fn spec_encode(m: MetadataEntryTypeView) -> Result<Seq<u8>, CodecError> {
        match m {
            MetadataEntryTypeView::EntryByte(p) => then_encode(Ok(varint_bytes(0)), <u8 as Encodable>::spec_encode(p)),
            MetadataEntryTypeView::EntryVarInt(p) => then_encode(Ok(varint_bytes(1)), <VarInt as Encodable>::spec_encode(p)),
            MetadataEntryTypeView::EntryFloat(p) => then_encode(Ok(varint_bytes(2)), <Float as Encodable>::spec_encode(p)),
            MetadataEntryTypeView::EntryString(p) => then_encode(Ok(varint_bytes(3)), <BigString as Encodable>::spec_encode(p)),
            MetadataEntryTypeView::EntryChat(p) => then_encode(Ok(varint_bytes(4)), <ChatJson as Encodable>::spec_encode(p)),
            MetadataEntryTypeView::EntryOptChat(p) => then_encode(Ok(varint_bytes(5)), <(bool, Option<ChatJson>) as Encodable>::spec_encode(p)),
            MetadataEntryTypeView::EntrySlot(p) => then_encode(Ok(varint_bytes(6)), <SlotData as Encodable>::spec_encode(p)),
            MetadataEntryTypeView::EntryBoolean(p) => then_encode(Ok(varint_bytes(7)), <bool as Encodable>::spec_encode(p)),
            MetadataEntryTypeView::EntryRotation(p) => then_encode(Ok(varint_bytes(8)), <(Float, Float, Float) as Encodable>::spec_encode(p)),
            MetadataEntryTypeView::EntryPosition(p) => then_encode(Ok(varint_bytes(9)), <Position as Encodable>::spec_encode(p)),
            MetadataEntryTypeView::EntryOptPosition(p) => then_encode(Ok(varint_bytes(10)), <(bool, Option<Position>) as Encodable>::spec_encode(p)),
            MetadataEntryTypeView::EntryDirection(p) => then_encode(Ok(varint_bytes(11)), <Direction as Encodable>::spec_encode(p)),
            MetadataEntryTypeView::EntryOptUuid(p) => then_encode(Ok(varint_bytes(12)), <(bool, Option<McUuid>) as Encodable>::spec_encode(p)),
            MetadataEntryTypeView::EntryOptBlockId(p) => then_encode(Ok(varint_bytes(13)), <VarInt as Encodable>::spec_encode(p)),
            MetadataEntryTypeView::EntryNbt(p) => then_encode(Ok(varint_bytes(14)), <NbtTag as Encodable>::spec_encode(p)),
            MetadataEntryTypeView::EntityParticle(p) => then_encode(Ok(varint_bytes(15)), <Particle as Encodable>::spec_encode(p)),
            MetadataEntryTypeView::EntryVillagerData(p) => then_encode(Ok(varint_bytes(16)), <(VillagerType, VillagerProfession, VarInt) as Encodable>::spec_encode(p)),
            MetadataEntryTypeView::EntryOptVarInt(p) => then_encode(Ok(varint_bytes(17)), <VarInt as Encodable>::spec_encode(p)),
            MetadataEntryTypeView::EntryPose(p) => then_encode(Ok(varint_bytes(18)), <Pose as Encodable>::spec_encode(p)),
        }
    }

    /// The discriminant's size, plus the payload's where there is one.
    open spec fn spec_size(m: MetadataEntryTypeView) -> Result<nat, CodecError> {
        match m {
            MetadataEntryTypeView::EntryByte(p) => add_size_spec(Ok(varint_bytes(0).len()), <u8 as Encodable>::spec_size(p)),
            MetadataEntryTypeView::EntryVarInt(p) => add_size_spec(Ok(varint_bytes(1).len()), <VarInt as Encodable>::spec_size(p)),
            MetadataEntryTypeView::EntryFloat(p) => add_size_spec(Ok(varint_bytes(2).len()), <Float as Encodable>::spec_size(p)),
            MetadataEntryTypeView::EntryString(p) => add_size_spec(Ok(varint_bytes(3).len()), <BigString as Encodable>::spec_size(p)),
            MetadataEntryTypeView::EntryChat(p) => add_size_spec(Ok(varint_bytes(4).len()), <ChatJson as Encodable>::spec_size(p)),
            MetadataEntryTypeView::EntryOptChat(p) => add_size_spec(Ok(varint_bytes(5).len()), <(bool, Option<ChatJson>) as Encodable>::spec_size(p)),
            MetadataEntryTypeView::EntrySlot(p) => add_size_spec(Ok(varint_bytes(6).len()), <SlotData as Encodable>::spec_size(p)),
            MetadataEntryTypeView::EntryBoolean(p) => add_size_spec(Ok(varint_bytes(7).len()), <bool as Encodable>::spec_size(p)),
            MetadataEntryTypeView::EntryRotation(p) => add_size_spec(Ok(varint_bytes(8).len()), <(Float, Float, Float) as Encodable>::spec_size(p)),
            MetadataEntryTypeView::EntryPosition(p) => add_size_spec(Ok(varint_bytes(9).len()), <Position as Encodable>::spec_size(p)),
            MetadataEntryTypeView::EntryOptPosition(p) => add_size_spec(Ok(varint_bytes(10).len()), <(bool, Option<Position>) as Encodable>::spec_size(p)),
            MetadataEntryTypeView::EntryDirection(p) => add_size_spec(Ok(varint_bytes(11).len()), <Direction as Encodable>::spec_size(p)),
            MetadataEntryTypeView::EntryOptUuid(p) => add_size_spec(Ok(varint_bytes(12).len()), <(bool, Option<McUuid>) as Encodable>::spec_size(p)),
            MetadataEntryTypeView::EntryOptBlockId(p) => add_size_spec(Ok(varint_bytes(13).len()), <VarInt as Encodable>::spec_size(p)),
            MetadataEntryTypeView::EntryNbt(p) => add_size_spec(Ok(varint_bytes(14).len()), <NbtTag as Encodable>::spec_size(p)),
            MetadataEntryTypeView::EntityParticle(p) => add_size_spec(Ok(varint_bytes(15).len()), <Particle as Encodable>::spec_size(p)),
            MetadataEntryTypeView::EntryVillagerData(p) => add_size_spec(Ok(varint_bytes(16).len()), <(VillagerType, VillagerProfession, VarInt) as Encodable>::spec_size(p)),
            MetadataEntryTypeView::EntryOptVarInt(p) => add_size_spec(Ok(varint_bytes(17).len()), <VarInt as Encodable>::spec_size(p)),
            MetadataEntryTypeView::EntryPose(p) => add_size_spec(Ok(varint_bytes(18).len()), <Pose as Encodable>::spec_size(p)),
        }
    }

    #[verifier::spinoff_prover]
    #[verifier::rlimit(100)]
    proof fn lemma_size_faithful(m: MetadataEntryTypeView) {
        match m {
            MetadataEntryTypeView::EntryByte(p) => {
                lemma_varint_len(0);
                <u8 as Encodable>::lemma_size_faithful(p);
                lemma_then_size(Ok(varint_bytes(0)), Ok(varint_bytes(0).len()), <u8 as Encodable>::spec_encode(p), <u8 as Encodable>::spec_size(p));
            },
            MetadataEntryTypeView::EntryVarInt(p) => {
                lemma_varint_len(1);
                <VarInt as Encodable>::lemma_size_faithful(p);
                lemma_then_size(Ok(varint_bytes(1)), Ok(varint_bytes(1).len()), <VarInt as Encodable>::spec_encode(p), <VarInt as Encodable>::spec_size(p));
            },
            MetadataEntryTypeView::EntryFloat(p) => {
                lemma_varint_len(2);
                <Float as Encodable>::lemma_size_faithful(p);
                lemma_then_size(Ok(varint_bytes(2)), Ok(varint_bytes(2).len()), <Float as Encodable>::spec_encode(p), <Float as Encodable>::spec_size(p));
            },
            MetadataEntryTypeView::EntryString(p) => {
                lemma_varint_len(3);
                <BigString as Encodable>::lemma_size_faithful(p);
                lemma_then_size(Ok(varint_bytes(3)), Ok(varint_bytes(3).len()), <BigString as Encodable>::spec_encode(p), <BigString as Encodable>::spec_size(p));
            },
            MetadataEntryTypeView::EntryChat(p) => {
                lemma_varint_len(4);
                <ChatJson as Encodable>::lemma_size_faithful(p);
                lemma_then_size(Ok(varint_bytes(4)), Ok(varint_bytes(4).len()), <ChatJson as Encodable>::spec_encode(p), <ChatJson as Encodable>::spec_size(p));
            },
            MetadataEntryTypeView::EntryOptChat(p) => {
                lemma_varint_len(5);
                <(bool, Option<ChatJson>) as Encodable>::lemma_size_faithful(p);
                lemma_then_size(Ok(varint_bytes(5)), Ok(varint_bytes(5).len()), <(bool, Option<ChatJson>) as Encodable>::spec_encode(p), <(bool, Option<ChatJson>) as Encodable>::spec_size(p));
            },
            MetadataEntryTypeView::EntrySlot(p) => {
                lemma_varint_len(6);
                <SlotData as Encodable>::lemma_size_faithful(p);
                lemma_then_size(Ok(varint_bytes(6)), Ok(varint_bytes(6).len()), <SlotData as Encodable>::spec_encode(p), <SlotData as Encodable>::spec_size(p));
            },
            MetadataEntryTypeView::EntryBoolean(p) => {
                lemma_varint_len(7);
                <bool as Encodable>::lemma_size_faithful(p);
                lemma_then_size(Ok(varint_bytes(7)), Ok(varint_bytes(7).len()), <bool as Encodable>::spec_encode(p), <bool as Encodable>::spec_size(p));
            },
            MetadataEntryTypeView::EntryRotation(p) => {
                lemma_varint_len(8);
                <(Float, Float, Float) as Encodable>::lemma_size_faithful(p);
                lemma_then_size(Ok(varint_bytes(8)), Ok(varint_bytes(8).len()), <(Float, Float, Float) as Encodable>::spec_encode(p), <(Float, Float, Float) as Encodable>::spec_size(p));
            },
            MetadataEntryTypeView::EntryPosition(p) => {
                lemma_varint_len(9);
                <Position as Encodable>::lemma_size_faithful(p);
                lemma_then_size(Ok(varint_bytes(9)), Ok(varint_bytes(9).len()), <Position as Encodable>::spec_encode(p), <Position as Encodable>::spec_size(p));
            },
            MetadataEntryTypeView::EntryOptPosition(p) => {
                lemma_varint_len(10);
                <(bool, Option<Position>) as Encodable>::lemma_size_faithful(p);
                lemma_then_size(Ok(varint_bytes(10)), Ok(varint_bytes(10).len()), <(bool, Option<Position>) as Encodable>::spec_encode(p), <(bool, Option<Position>) as Encodable>::spec_size(p));
            },
            MetadataEntryTypeView::EntryDirection(p) => {
                lemma_varint_len(11);
                <Direction as Encodable>::lemma_size_faithful(p);
                lemma_then_size(Ok(varint_bytes(11)), Ok(varint_bytes(11).len()), <Direction as Encodable>::spec_encode(p), <Direction as Encodable>::spec_size(p));
            },
            MetadataEntryTypeView::EntryOptUuid(p) => {
                lemma_varint_len(12);
                <(bool, Option<McUuid>) as Encodable>::lemma_size_faithful(p);
                lemma_then_size(Ok(varint_bytes(12)), Ok(varint_bytes(12).len()), <(bool, Option<McUuid>) as Encodable>::spec_encode(p), <(bool, Option<McUuid>) as Encodable>::spec_size(p));
            },
            MetadataEntryTypeView::EntryOptBlockId(p) => {
                lemma_varint_len(13);
                <VarInt as Encodable>::lemma_size_faithful(p);
                lemma_then_size(Ok(varint_bytes(13)), Ok(varint_bytes(13).len()), <VarInt as Encodable>::spec_encode(p), <VarInt as Encodable>::spec_size(p));
            },
            MetadataEntryTypeView::EntryNbt(p) => {
                lemma_varint_len(14);
                <NbtTag as Encodable>::lemma_size_faithful(p);
                lemma_then_size(Ok(varint_bytes(14)), Ok(varint_bytes(14).len()), <NbtTag as Encodable>::spec_encode(p), <NbtTag as Encodable>::spec_size(p));
            },
            MetadataEntryTypeView::EntityParticle(p) => {
                lemma_varint_len(15);
                <Particle as Encodable>::lemma_size_faithful(p);
                lemma_then_size(Ok(varint_bytes(15)), Ok(varint_bytes(15).len()), <Particle as Encodable>::spec_encode(p), <Particle as Encodable>::spec_size(p));
            },
            MetadataEntryTypeView::EntryVillagerData(p) => {
                lemma_varint_len(16);
                <(VillagerType, VillagerProfession, VarInt) as Encodable>::lemma_size_faithful(p);
                lemma_then_size(Ok(varint_bytes(16)), Ok(varint_bytes(16).len()), <(VillagerType, VillagerProfession, VarInt) as Encodable>::spec_encode(p), <(VillagerType, VillagerProfession, VarInt) as Encodable>::spec_size(p));
            },
            MetadataEntryTypeView::EntryOptVarInt(p) => {
                lemma_varint_len(17);
                <VarInt as Encodable>::lemma_size_faithful(p);
                lemma_then_size(Ok(varint_bytes(17)), Ok(varint_bytes(17).len()), <VarInt as Encodable>::spec_encode(p), <VarInt as Encodable>::spec_size(p));
            },
            MetadataEntryTypeView::EntryPose(p) => {
                lemma_varint_len(18);
                <Pose as Encodable>::lemma_size_faithful(p);
                lemma_then_size(Ok(varint_bytes(18)), Ok(varint_bytes(18).len()), <Pose as Encodable>::spec_encode(p), <Pose as Encodable>::spec_size(p));
            },
        }
    }

    #[verifier::spinoff_prover]
    #[verifier::rlimit(50)]
    fn encode(&self, out: &mut Vec<u8>) -> (r: Result<(), CodecError>) {
        match self {
            MetadataEntryType::EntryByte(p) => {
                let start = out.len();
                let _ = VarInt(0).encode(out);
                let r = p.encode(out);
                proof {
                    if r is Ok {
                        assert(out@ =~= old(out)@ + (varint_bytes(0) + <u8 as Encodable>::spec_encode(
                            p.deep_view(),
                        )->Ok_0));
                    }
                }
                if r.is_err() {
                    roll_back(out, Ghost(old(out)@), Ghost(varint_bytes(0)), start);
                }
                r
            },
            MetadataEntryType::EntryVarInt(p) => {
                let start = out.len();
                let _ = VarInt(1).encode(out);
                let r = p.encode(out);
                proof {
                    if r is Ok {
                        assert(out@ =~= old(out)@ + (varint_bytes(1) + <VarInt as Encodable>::spec_encode(
                            p.deep_view(),
                        )->Ok_0));
                    }
                }
                if r.is_err() {
                    roll_back(out, Ghost(old(out)@), Ghost(varint_bytes(1)), start);
                }
                r
            },
            MetadataEntryType::EntryFloat(p) => {
                let start = out.len();
                let _ = VarInt(2).encode(out);
                let r = p.encode(out);
                proof {
                    if r is Ok {
                        assert(out@ =~= old(out)@ + (varint_bytes(2) + <Float as Encodable>::spec_encode(
                            p.deep_view(),
                        )->Ok_0));
                    }
                }
                if r.is_err() {
                    roll_back(out, Ghost(old(out)@), Ghost(varint_bytes(2)), start);
                }
                r
            },
            MetadataEntryType::EntryString(p) => {
                let start = out.len();
                let _ = VarInt(3).encode(out);
                let r = p.encode(out);
                proof {
                    if r is Ok {
                        assert(out@ =~= old(out)@ + (varint_bytes(3) + <BigString as Encodable>::spec_encode(
                            p.deep_view(),
                        )->Ok_0));
                    }
                }
                if r.is_err() {
                    roll_back(out, Ghost(old(out)@), Ghost(varint_bytes(3)), start);
                }
                r
            },
            MetadataEntryType::EntryChat(p) => {
                let start = out.len();
                let _ = VarInt(4).encode(out);
                let r = p.encode(out);
                proof {
                    if r is Ok {
                        assert(out@ =~= old(out)@ + (varint_bytes(4) + <ChatJson as Encodable>::spec_encode(
                            p.deep_view(),
                        )->Ok_0));
                    }
                }
                if r.is_err() {
                    roll_back(out, Ghost(old(out)@), Ghost(varint_bytes(4)), start);
                }
                r
            },
            MetadataEntryType::EntryOptChat(p) => {
                let start = out.len();
                let _ = VarInt(5).encode(out);
                let r = p.encode(out);
                proof {
                    if r is Ok {
                        assert(out@ =~= old(out)@ + (varint_bytes(5) + <(bool, Option<ChatJson>) as Encodable>::spec_encode(
                            p.deep_view(),
                        )->Ok_0));
                    }
                }
                if r.is_err() {
                    roll_back(out, Ghost(old(out)@), Ghost(varint_bytes(5)), start);
                }
                r
            },
            MetadataEntryType::EntrySlot(p) => {
                let start = out.len();
                let _ = VarInt(6).encode(out);
                let r = p.encode(out);
                proof {
                    if r is Ok {
                        assert(out@ =~= old(out)@ + (varint_bytes(6) + <SlotData as Encodable>::spec_encode(
                            p.deep_view(),
                        )->Ok_0));
                    }
                }
                if r.is_err() {
                    roll_back(out, Ghost(old(out)@), Ghost(varint_bytes(6)), start);
                }
                r
            },
            MetadataEntryType::EntryBoolean(p) => {
                let start = out.len();
                let _ = VarInt(7).encode(out);
                let r = p.encode(out);
                proof {
                    if r is Ok {
                        assert(out@ =~= old(out)@ + (varint_bytes(7) + <bool as Encodable>::spec_encode(
                            p.deep_view(),
                        )->Ok_0));
                    }
                }
                if r.is_err() {
                    roll_back(out, Ghost(old(out)@), Ghost(varint_bytes(7)), start);
                }
                r
            },
            MetadataEntryType::EntryRotation(p) => {
                let start = out.len();
                let _ = VarInt(8).encode(out);
                let r = p.encode(out);
                proof {
                    if r is Ok {
                        assert(out@ =~= old(out)@ + (varint_bytes(8) + <(Float, Float, Float) as Encodable>::spec_encode(
                            p.deep_view(),
                        )->Ok_0));
                    }
                }
                if r.is_err() {
                    roll_back(out, Ghost(old(out)@), Ghost(varint_bytes(8)), start);
                }
                r
            },
            MetadataEntryType::EntryPosition(p) => {
                let start = out.len();
                let _ = VarInt(9).encode(out);
                let r = p.encode(out);
                proof {
                    if r is Ok {
                        assert(out@ =~= old(out)@ + (varint_bytes(9) + <Position as Encodable>::spec_encode(
                            p.deep_view(),
                        )->Ok_0));
                    }
                }
                if r.is_err() {
                    roll_back(out, Ghost(old(out)@), Ghost(varint_bytes(9)), start);
                }
                r
            },
            MetadataEntryType::EntryOptPosition(p) => {
                let start = out.len();
                let _ = VarInt(10).encode(out);
                let r = p.encode(out);
                proof {
                    if r is Ok {
                        assert(out@ =~= old(out)@ + (varint_bytes(10) + <(bool, Option<Position>) as Encodable>::spec_encode(
                            p.deep_view(),
                        )->Ok_0));
                    }
                }
                if r.is_err() {
                    roll_back(out, Ghost(old(out)@), Ghost(varint_bytes(10)), start);
                }
                r
            },
            MetadataEntryType::EntryDirection(p) => {
                let start = out.len();
                let _ = VarInt(11).encode(out);
                let r = p.encode(out);
                proof {
                    if r is Ok {
                        assert(out@ =~= old(out)@ + (varint_bytes(11) + <Direction as Encodable>::spec_encode(
                            p.deep_view(),
                        )->Ok_0));
                    }
                }
                if r.is_err() {
                    roll_back(out, Ghost(old(out)@), Ghost(varint_bytes(11)), start);
                }
                r
            },
            MetadataEntryType::EntryOptUuid(p) => {
                let start = out.len();
                let _ = VarInt(12).encode(out);
                let r = p.encode(out);
                proof {
                    if r is Ok {
                        assert(out@ =~= old(out)@ + (varint_bytes(12) + <(bool, Option<McUuid>) as Encodable>::spec_encode(
                            p.deep_view(),
                        )->Ok_0));
                    }
                }
                if r.is_err() {
                    roll_back(out, Ghost(old(out)@), Ghost(varint_bytes(12)), start);
                }
                r
            },
            MetadataEntryType::EntryOptBlockId(p) => {
                let start = out.len();
                let _ = VarInt(13).encode(out);
                let r = p.encode(out);
                proof {
                    if r is Ok {
                        assert(out@ =~= old(out)@ + (varint_bytes(13) + <VarInt as Encodable>::spec_encode(
                            p.deep_view(),
                        )->Ok_0));
                    }
                }
                if r.is_err() {
                    roll_back(out, Ghost(old(out)@), Ghost(varint_bytes(13)), start);
                }
                r
            },
            MetadataEntryType::EntryNbt(p) => {
                let start = out.len();
                let _ = VarInt(14).encode(out);
                let r = p.encode(out);
                proof {
                    if r is Ok {
                        assert(out@ =~= old(out)@ + (varint_bytes(14) + <NbtTag as Encodable>::spec_encode(
                            p.deep_view(),
                        )->Ok_0));
                    }
                }
                if r.is_err() {
                    roll_back(out, Ghost(old(out)@), Ghost(varint_bytes(14)), start);
                }
                r
            },
            MetadataEntryType::EntityParticle(p) => {
                let start = out.len();
                let _ = VarInt(15).encode(out);
                let r = p.encode(out);
                proof {
                    if r is Ok {
                        assert(out@ =~= old(out)@ + (varint_bytes(15) + <Particle as Encodable>::spec_encode(
                            p.deep_view(),
                        )->Ok_0));
                    }
                }
                if r.is_err() {
                    roll_back(out, Ghost(old(out)@), Ghost(varint_bytes(15)), start);
                }
                r
            },
            MetadataEntryType::EntryVillagerData(p) => {
                let start = out.len();
                let _ = VarInt(16).encode(out);
                let r = p.encode(out);
                proof {
                    if r is Ok {
                        assert(out@ =~= old(out)@ + (varint_bytes(16) + <(VillagerType, VillagerProfession, VarInt) as Encodable>::spec_encode(
                            p.deep_view(),
                        )->Ok_0));
                    }
                }
                if r.is_err() {
                    roll_back(out, Ghost(old(out)@), Ghost(varint_bytes(16)), start);
                }
                r
            },
            MetadataEntryType::EntryOptVarInt(p) => {
                let start = out.len();
                let _ = VarInt(17).encode(out);
                let r = p.encode(out);
                proof {
                    if r is Ok {
                        assert(out@ =~= old(out)@ + (varint_bytes(17) + <VarInt as Encodable>::spec_encode(
                            p.deep_view(),
                        )->Ok_0));
                    }
                }
                if r.is_err() {
                    roll_back(out, Ghost(old(out)@), Ghost(varint_bytes(17)), start);
                }
                r
            },
            MetadataEntryType::EntryPose(p) => {
                let start = out.len();
                let _ = VarInt(18).encode(out);
                let r = p.encode(out);
                proof {
                    if r is Ok {
                        assert(out@ =~= old(out)@ + (varint_bytes(18) + <Pose as Encodable>::spec_encode(
                            p.deep_view(),
                        )->Ok_0));
                    }
                }
                if r.is_err() {
                    roll_back(out, Ghost(old(out)@), Ghost(varint_bytes(18)), start);
                }
                r
            },
        }
    }

    #[verifier::spinoff_prover]
    #[verifier::rlimit(50)]
    fn size(&self) -> (r: Result<VarInt, CodecError>) {
        match self {
            MetadataEntryType::EntryByte(p) => {
                proof {
                    lemma_varint_len(0);
                    <u8 as Encodable>::lemma_size_faithful(p.deep_view());
                }
                add_size(VarInt(0).size(), Ghost(Ok(varint_bytes(0).len())), p.size(), Ghost(<u8 as Encodable>::spec_size(p.deep_view())))
            },
            MetadataEntryType::EntryVarInt(p) => {
                proof {
                    lemma_varint_len(1);
                    <VarInt as Encodable>::lemma_size_faithful(p.deep_view());
                }
                add_size(VarInt(1).size(), Ghost(Ok(varint_bytes(1).len())), p.size(), Ghost(<VarInt as Encodable>::spec_size(p.deep_view())))
            },
            MetadataEntryType::EntryFloat(p) => {
                proof {
                    lemma_varint_len(2);
                    <Float as Encodable>::lemma_size_faithful(p.deep_view());
                }
                add_size(VarInt(2).size(), Ghost(Ok(varint_bytes(2).len())), p.size(), Ghost(<Float as Encodable>::spec_size(p.deep_view())))
            },
            MetadataEntryType::EntryString(p) => {
                proof {
                    lemma_varint_len(3);
                    <BigString as Encodable>::lemma_size_faithful(p.deep_view());
                }
                add_size(VarInt(3).size(), Ghost(Ok(varint_bytes(3).len())), p.size(), Ghost(<BigString as Encodable>::spec_size(p.deep_view())))
            },
            MetadataEntryType::EntryChat(p) => {
                proof {
                    lemma_varint_len(4);
                    <ChatJson as Encodable>::lemma_size_faithful(p.deep_view());
                }
                add_size(VarInt(4).size(), Ghost(Ok(varint_bytes(4).len())), p.size(), Ghost(<ChatJson as Encodable>::spec_size(p.deep_view())))
            },
            MetadataEntryType::EntryOptChat(p) => {
                proof {
                    lemma_varint_len(5);
                    <(bool, Option<ChatJson>) as Encodable>::lemma_size_faithful(p.deep_view());
                }
                add_size(VarInt(5).size(), Ghost(Ok(varint_bytes(5).len())), p.size(), Ghost(<(bool, Option<ChatJson>) as Encodable>::spec_size(p.deep_view())))
            },
            MetadataEntryType::EntrySlot(p) => {
                proof {
                    lemma_varint_len(6);
                    <SlotData as Encodable>::lemma_size_faithful(p.deep_view());
                }
                add_size(VarInt(6).size(), Ghost(Ok(varint_bytes(6).len())), p.size(), Ghost(<SlotData as Encodable>::spec_size(p.deep_view())))
            },
            MetadataEntryType::EntryBoolean(p) => {
                proof {
                    lemma_varint_len(7);
                    <bool as Encodable>::lemma_size_faithful(p.deep_view());
                }
                add_size(VarInt(7).size(), Ghost(Ok(varint_bytes(7).len())), p.size(), Ghost(<bool as Encodable>::spec_size(p.deep_view())))
            },
            MetadataEntryType::EntryRotation(p) => {
                proof {
                    lemma_varint_len(8);
                    <(Float, Float, Float) as Encodable>::lemma_size_faithful(p.deep_view());
                }
                add_size(VarInt(8).size(), Ghost(Ok(varint_bytes(8).len())), p.size(), Ghost(<(Float, Float, Float) as Encodable>::spec_size(p.deep_view())))
            },
            MetadataEntryType::EntryPosition(p) => {
                proof {
                    lemma_varint_len(9);
                    <Position as Encodable>::lemma_size_faithful(p.deep_view());
                }
                add_size(VarInt(9).size(), Ghost(Ok(varint_bytes(9).len())), p.size(), Ghost(<Position as Encodable>::spec_size(p.deep_view())))
            },
            MetadataEntryType::EntryOptPosition(p) => {
                proof {
                    lemma_varint_len(10);
                    <(bool, Option<Position>) as Encodable>::lemma_size_faithful(p.deep_view());
                }
                add_size(VarInt(10).size(), Ghost(Ok(varint_bytes(10).len())), p.size(), Ghost(<(bool, Option<Position>) as Encodable>::spec_size(p.deep_view())))
            },
            MetadataEntryType::EntryDirection(p) => {
                proof {
                    lemma_varint_len(11);
                    <Direction as Encodable>::lemma_size_faithful(p.deep_view());
                }
                add_size(VarInt(11).size(), Ghost(Ok(varint_bytes(11).len())), p.size(), Ghost(<Direction as Encodable>::spec_size(p.deep_view())))
            },
            MetadataEntryType::EntryOptUuid(p) => {
                proof {
                    lemma_varint_len(12);
                    <(bool, Option<McUuid>) as Encodable>::lemma_size_faithful(p.deep_view());
                }
                add_size(VarInt(12).size(), Ghost(Ok(varint_bytes(12).len())), p.size(), Ghost(<(bool, Option<McUuid>) as Encodable>::spec_size(p.deep_view())))
            },
            MetadataEntryType::EntryOptBlockId(p) => {
                proof {
                    lemma_varint_len(13);
                    <VarInt as Encodable>::lemma_size_faithful(p.deep_view());
                }
                add_size(VarInt(13).size(), Ghost(Ok(varint_bytes(13).len())), p.size(), Ghost(<VarInt as Encodable>::spec_size(p.deep_view())))
            },
            MetadataEntryType::EntryNbt(p) => {
                proof {
                    lemma_varint_len(14);
                    <NbtTag as Encodable>::lemma_size_faithful(p.deep_view());
                }
                add_size(VarInt(14).size(), Ghost(Ok(varint_bytes(14).len())), p.size(), Ghost(<NbtTag as Encodable>::spec_size(p.deep_view())))
            },
            MetadataEntryType::EntityParticle(p) => {
                proof {
                    lemma_varint_len(15);
                    <Particle as Encodable>::lemma_size_faithful(p.deep_view());
                }
                add_size(VarInt(15).size(), Ghost(Ok(varint_bytes(15).len())), p.size(), Ghost(<Particle as Encodable>::spec_size(p.deep_view())))
            },
            MetadataEntryType::EntryVillagerData(p) => {
                proof {
                    lemma_varint_len(16);
                    <(VillagerType, VillagerProfession, VarInt) as Encodable>::lemma_size_faithful(p.deep_view());
                }
                add_size(VarInt(16).size(), Ghost(Ok(varint_bytes(16).len())), p.size(), Ghost(<(VillagerType, VillagerProfession, VarInt) as Encodable>::spec_size(p.deep_view())))
            },
            MetadataEntryType::EntryOptVarInt(p) => {
                proof {
                    lemma_varint_len(17);
                    <VarInt as Encodable>::lemma_size_faithful(p.deep_view());
                }
                add_size(VarInt(17).size(), Ghost(Ok(varint_bytes(17).len())), p.size(), Ghost(<VarInt as Encodable>::spec_size(p.deep_view())))
            },
            MetadataEntryType::EntryPose(p) => {
                proof {
                    lemma_varint_len(18);
                    <Pose as Encodable>::lemma_size_faithful(p.deep_view());
                }
                add_size(VarInt(18).size(), Ghost(Ok(varint_bytes(18).len())), p.size(), Ghost(<Pose as Encodable>::spec_size(p.deep_view())))
            },
        }
    }
}

impl IndexDecodable for MetadataEntryType {
    /// The variant with discriminant `index`; an index that names none fails.
    open spec fn spec_decode_index(bytes: Seq<u8>, index: int) -> Result<(MetadataEntryTypeView, nat), CodecError> {
        if index == 0 {
            match <u8 as Decodable>::spec_decode(bytes) {
            Ok((p, n)) => Ok((MetadataEntryTypeView::EntryByte(p), n)),
            Err(e) => Err(e),
        }
        } else if index == 1 {
            match <VarInt as Decodable>::spec_decode(bytes) {
            Ok((p, n)) => Ok((MetadataEntryTypeView::EntryVarInt(p), n)),
            Err(e) => Err(e),
        }
        } else if index == 2 {
            match <Float as Decodable>::spec_decode(bytes) {
            Ok((p, n)) => Ok((MetadataEntryTypeView::EntryFloat(p), n)),
            Err(e) => Err(e),
        }
        } else if index == 3 {
            match <BigString as Decodable>::spec_decode(bytes) {
            Ok((p, n)) => Ok((MetadataEntryTypeView::EntryString(p), n)),
            Err(e) => Err(e),
        }
        } else if index == 4 {
            match <ChatJson as Decodable>::spec_decode(bytes) {
            Ok((p, n)) => Ok((MetadataEntryTypeView::EntryChat(p), n)),
            Err(e) => Err(e),
        }
        } else if index == 5 {
            match <(bool, Option<ChatJson>) as Decodable>::spec_decode(bytes) {
            Ok((p, n)) => Ok((MetadataEntryTypeView::EntryOptChat(p), n)),
            Err(e) => Err(e),
        }
        } else if index == 6 {
            match <SlotData as Decodable>::spec_decode(bytes) {
            Ok((p, n)) => Ok((MetadataEntryTypeView::EntrySlot(p), n)),
            Err(e) => Err(e),
        }
        } else if index == 7 {
            match <bool as Decodable>::spec_decode(bytes) {
            Ok((p, n)) => Ok((MetadataEntryTypeView::EntryBoolean(p), n)),
            Err(e) => Err(e),
        }
        } else if index == 8 {
            match <(Float, Float, Float) as Decodable>::spec_decode(bytes) {
            Ok((p, n)) => Ok((MetadataEntryTypeView::EntryRotation(p), n)),
            Err(e) => Err(e),
        }
        } else if index == 9 {
            match <Position as Decodable>::spec_decode(bytes) {
            Ok((p, n)) => Ok((MetadataEntryTypeView::EntryPosition(p), n)),
            Err(e) => Err(e),
        }
        } else if index == 10 {
            match <(bool, Option<Position>) as Decodable>::spec_decode(bytes) {
            Ok((p, n)) => Ok((MetadataEntryTypeView::EntryOptPosition(p), n)),
            Err(e) => Err(e),
        }
        } else if index == 11 {
            match <Direction as Decodable>::spec_decode(bytes) {
            Ok((p, n)) => Ok((MetadataEntryTypeView::EntryDirection(p), n)),
            Err(e) => Err(e),
        }
        } else if index == 12 {
            match <(bool, Option<McUuid>) as Decodable>::spec_decode(bytes) {
            Ok((p, n)) => Ok((MetadataEntryTypeView::EntryOptUuid(p), n)),
            Err(e) => Err(e),
        }
        } else if index == 13 {
            match <VarInt as Decodable>::spec_decode(bytes) {
            Ok((p, n)) => Ok((MetadataEntryTypeView::EntryOptBlockId(p), n)),
            Err(e) => Err(e),
        }
        } else if index == 14 {
            match <NbtTag as Decodable>::spec_decode(bytes) {
            Ok((p, n)) => Ok((MetadataEntryTypeView::EntryNbt(p), n)),
            Err(e) => Err(e),
        }
        } else if index == 15 {
            match <Particle as Decodable>::spec_decode(bytes) {
            Ok((p, n)) => Ok((MetadataEntryTypeView::EntityParticle(p), n)),
            Err(e) => Err(e),
        }
        } else if index == 16 {
            match <(VillagerType, VillagerProfession, VarInt) as Decodable>::spec_decode(bytes) {
            Ok((p, n)) => Ok((MetadataEntryTypeView::EntryVillagerData(p), n)),
            Err(e) => Err(e),
        }
        } else if index == 17 {
            match <VarInt as Decodable>::spec_decode(bytes) {
            Ok((p, n)) => Ok((MetadataEntryTypeView::EntryOptVarInt(p), n)),
            Err(e) => Err(e),
        }
        } else if index == 18 {
            match <Pose as Decodable>::spec_decode(bytes) {
            Ok((p, n)) => Ok((MetadataEntryTypeView::EntryPose(p), n)),
            Err(e) => Err(e),
        }
        } else {
            Err(CodecError::UnknownDiscriminant(index as i32))
        }
    }

    #[verifier::spinoff_prover]
    #[verifier::rlimit(50)]
    fn decode_index(reader: &mut ByteReader, index: &VarInt) -> (r: Result<MetadataEntryType, CodecError>) {
        match index.0 {
            0 => match <u8>::decode(reader) {
                Ok(p) => Ok(MetadataEntryType::EntryByte(p)),
                Err(e) => Err(e),
            },
            1 => match <VarInt>::decode(reader) {
                Ok(p) => Ok(MetadataEntryType::EntryVarInt(p)),
                Err(e) => Err(e),
            },
            2 => match <Float>::decode(reader) {
                Ok(p) => Ok(MetadataEntryType::EntryFloat(p)),
                Err(e) => Err(e),
            },
            3 => match <BigString>::decode(reader) {
                Ok(p) => Ok(MetadataEntryType::EntryString(p)),
                Err(e) => Err(e),
            },
            4 => match <ChatJson>::decode(reader) {
                Ok(p) => Ok(MetadataEntryType::EntryChat(p)),
                Err(e) => Err(e),
            },
            5 => match <(bool, Option<ChatJson>)>::decode(reader) {
                Ok(p) => Ok(MetadataEntryType::EntryOptChat(p)),
                Err(e) => Err(e),
            },
            6 => match <SlotData>::decode(reader) {
                Ok(p) => Ok(MetadataEntryType::EntrySlot(p)),
                Err(e) => Err(e),
            },
            7 => match <bool>::decode(reader) {
                Ok(p) => Ok(MetadataEntryType::EntryBoolean(p)),
                Err(e) => Err(e),
            },
            8 => match <(Float, Float, Float)>::decode(reader) {
                Ok(p) => Ok(MetadataEntryType::EntryRotation(p)),
                Err(e) => Err(e),
            },
            9 => match <Position>::decode(reader) {
                Ok(p) => Ok(MetadataEntryType::EntryPosition(p)),
                Err(e) => Err(e),
            },
            10 => match <(bool, Option<Position>)>::decode(reader) {
                Ok(p) => Ok(MetadataEntryType::EntryOptPosition(p)),
                Err(e) => Err(e),
            },
            11 => match <Direction>::decode(reader) {
                Ok(p) => Ok(MetadataEntryType::EntryDirection(p)),
                Err(e) => Err(e),
            },
            12 => match <(bool, Option<McUuid>)>::decode(reader) {
                Ok(p) => Ok(MetadataEntryType::EntryOptUuid(p)),
                Err(e) => Err(e),
            },
            13 => match <VarInt>::decode(reader) {
                Ok(p) => Ok(MetadataEntryType::EntryOptBlockId(p)),
                Err(e) => Err(e),
            },
            14 => match <NbtTag>::decode(reader) {
                Ok(p) => Ok(MetadataEntryType::EntryNbt(p)),
                Err(e) => Err(e),
            },
            15 => match <Particle>::decode(reader) {
                Ok(p) => Ok(MetadataEntryType::EntityParticle(p)),
                Err(e) => Err(e),
            },
            16 => match <(VillagerType, VillagerProfession, VarInt)>::decode(reader) {
                Ok(p) => Ok(MetadataEntryType::EntryVillagerData(p)),
                Err(e) => Err(e),
            },
            17 => match <VarInt>::decode(reader) {
                Ok(p) => Ok(MetadataEntryType::EntryOptVarInt(p)),
                Err(e) => Err(e),
            },
            18 => match <Pose>::decode(reader) {
                Ok(p) => Ok(MetadataEntryType::EntryPose(p)),
                Err(e) => Err(e),
            },
            _ => Err(CodecError::UnknownDiscriminant(index.0)),
        }
    }
}

impl Decodable for MetadataEntryType {
    open spec fn spec_decode(bytes: Seq<u8>) -> Result<(MetadataEntryTypeView, nat), CodecError> {
        match varint_parse(bytes) {
            Err(e) => Err(e),
            Ok((i, n)) => match Self::spec_decode_index(
                bytes.subrange(n as int, bytes.len() as int),
                i as int,
            ) {
                Ok((v, k)) => Ok((v, n + k)),
                Err(e) => Err(e),
            },
        }
    }

    proof fn lemma_decode_len(bytes: Seq<u8>) {
        <VarInt as Decodable>::lemma_decode_len(bytes);
        if let Ok((i, n)) = varint_parse(bytes) {
            <u8 as Decodable>::lemma_decode_len(bytes.subrange(n as int, bytes.len() as int));
            <VarInt as Decodable>::lemma_decode_len(bytes.subrange(n as int, bytes.len() as int));
            <Float as Decodable>::lemma_decode_len(bytes.subrange(n as int, bytes.len() as int));
            <BigString as Decodable>::lemma_decode_len(bytes.subrange(n as int, bytes.len() as int));
            <ChatJson as Decodable>::lemma_decode_len(bytes.subrange(n as int, bytes.len() as int));
            <(bool, Option<ChatJson>) as Decodable>::lemma_decode_len(bytes.subrange(n as int, bytes.len() as int));
            <SlotData as Decodable>::lemma_decode_len(bytes.subrange(n as int, bytes.len() as int));
            <bool as Decodable>::lemma_decode_len(bytes.subrange(n as int, bytes.len() as int));
            <(Float, Float, Float) as Decodable>::lemma_decode_len(bytes.subrange(n as int, bytes.len() as int));
            <Position as Decodable>::lemma_decode_len(bytes.subrange(n as int, bytes.len() as int));
            <(bool, Option<Position>) as Decodable>::lemma_decode_len(bytes.subrange(n as int, bytes.len() as int));
            <Direction as Decodable>::lemma_decode_len(bytes.subrange(n as int, bytes.len() as int));
            <(bool, Option<McUuid>) as Decodable>::lemma_decode_len(bytes.subrange(n as int, bytes.len() as int));
            <NbtTag as Decodable>::lemma_decode_len(bytes.subrange(n as int, bytes.len() as int));
            <Particle as Decodable>::lemma_decode_len(bytes.subrange(n as int, bytes.len() as int));
            <(VillagerType, VillagerProfession, VarInt) as Decodable>::lemma_decode_len(bytes.subrange(n as int, bytes.len() as int));
            <Pose as Decodable>::lemma_decode_len(bytes.subrange(n as int, bytes.len() as int));
        }
    }

    fn decode(reader: &mut ByteReader) -> (r: Result<MetadataEntryType, CodecError>) {
        let ghost rest0 = reader.rest();
        let index = match VarInt::decode(reader) {
            Ok(i) => i,
            Err(e) => return Err(e),
        };
        assert(reader.rest() =~= rest0.subrange(reader.pos() - old(reader).pos(), rest0.len() as int));
        Self::decode_index(reader, &index)
    }
}

impl Codec for MetadataEntryType {
    open spec fn valid(m: MetadataEntryTypeView) -> bool {
        match m {
            MetadataEntryTypeView::EntryByte(p) => <u8 as Codec>::valid(p),
            MetadataEntryTypeView::EntryVarInt(p) => <VarInt as Codec>::valid(p),
            MetadataEntryTypeView::EntryFloat(p) => <Float as Codec>::valid(p),
            MetadataEntryTypeView::EntryString(p) => <BigString as Codec>::valid(p),
            MetadataEntryTypeView::EntryChat(p) => <ChatJson as Codec>::valid(p),
            MetadataEntryTypeView::EntryOptChat(p) => <(bool, Option<ChatJson>) as Codec>::valid(p),
            MetadataEntryTypeView::EntrySlot(p) => <SlotData as Codec>::valid(p),
            MetadataEntryTypeView::EntryBoolean(p) => <bool as Codec>::valid(p),
            MetadataEntryTypeView::EntryRotation(p) => <(Float, Float, Float) as Codec>::valid(p),
            MetadataEntryTypeView::EntryPosition(p) => <Position as Codec>::valid(p),
            MetadataEntryTypeView::EntryOptPosition(p) => <(bool, Option<Position>) as Codec>::valid(p),
            MetadataEntryTypeView::EntryDirection(p) => <Direction as Codec>::valid(p),
            MetadataEntryTypeView::EntryOptUuid(p) => <(bool, Option<McUuid>) as Codec>::valid(p),
            MetadataEntryTypeView::EntryOptBlockId(p) => <VarInt as Codec>::valid(p),
            MetadataEntryTypeView::EntryNbt(p) => <NbtTag as Codec>::valid(p),
            MetadataEntryTypeView::EntityParticle(p) => <Particle as Codec>::valid(p),
            MetadataEntryTypeView::EntryVillagerData(p) => <(VillagerType, VillagerProfession, VarInt) as Codec>::valid(p),
            MetadataEntryTypeView::EntryOptVarInt(p) => <VarInt as Codec>::valid(p),
            MetadataEntryTypeView::EntryPose(p) => <Pose as Codec>::valid(p),
        }
    }

    open spec fn delimited() -> bool {
        <u8 as Codec>::delimited() && <VarInt as Codec>::delimited() && <Float as Codec>::delimited() && <BigString as Codec>::delimited() && <ChatJson as Codec>::delimited() && <(bool, Option<ChatJson>) as Codec>::delimited() && <SlotData as Codec>::delimited() && <bool as Codec>::delimited() && <(Float, Float, Float) as Codec>::delimited() && <Position as Codec>::delimited() && <(bool, Option<Position>) as Codec>::delimited() && <Direction as Codec>::delimited() && <(bool, Option<McUuid>) as Codec>::delimited() && <NbtTag as Codec>::delimited() && <Particle as Codec>::delimited() && <(VillagerType, VillagerProfession, VarInt) as Codec>::delimited() && <Pose as Codec>::delimited()
    }

    proof fn lemma_round_trip(m: MetadataEntryTypeView, rest: Seq<u8>) {
        match m {
            MetadataEntryTypeView::EntryByte(p) => lemma_metadata_entry_type_entry_byte(p, rest),
            MetadataEntryTypeView::EntryVarInt(p) => lemma_metadata_entry_type_entry_var_int(p, rest),
            MetadataEntryTypeView::EntryFloat(p) => lemma_metadata_entry_type_entry_float(p, rest),
            MetadataEntryTypeView::EntryString(p) => lemma_metadata_entry_type_entry_string(p, rest),
            MetadataEntryTypeView::EntryChat(p) => lemma_metadata_entry_type_entry_chat(p, rest),
            MetadataEntryTypeView::EntryOptChat(p) => lemma_metadata_entry_type_entry_opt_chat(p, rest),
            MetadataEntryTypeView::EntrySlot(p) => lemma_metadata_entry_type_entry_slot(p, rest),
            MetadataEntryTypeView::EntryBoolean(p) => lemma_metadata_entry_type_entry_boolean(p, rest),
            MetadataEntryTypeView::EntryRotation(p) => lemma_metadata_entry_type_entry_rotation(p, rest),
            MetadataEntryTypeView::EntryPosition(p) => lemma_metadata_entry_type_entry_position(p, rest),
            MetadataEntryTypeView::EntryOptPosition(p) => lemma_metadata_entry_type_entry_opt_position(p, rest),
            MetadataEntryTypeView::EntryDirection(p) => lemma_metadata_entry_type_entry_direction(p, rest),
            MetadataEntryTypeView::EntryOptUuid(p) => lemma_metadata_entry_type_entry_opt_uuid(p, rest),
            MetadataEntryTypeView::EntryOptBlockId(p) => lemma_metadata_entry_type_entry_opt_block_id(p, rest),
            MetadataEntryTypeView::EntryNbt(p) => lemma_metadata_entry_type_entry_nbt(p, rest),
            MetadataEntryTypeView::EntityParticle(p) => lemma_metadata_entry_type_entity_particle(p, rest),
            MetadataEntryTypeView::EntryVillagerData(p) => lemma_metadata_entry_type_entry_villager_data(p, rest),
            MetadataEntryTypeView::EntryOptVarInt(p) => lemma_metadata_entry_type_entry_opt_var_int(p, rest),
            MetadataEntryTypeView::EntryPose(p) => lemma_metadata_entry_type_entry_pose(p, rest),
        }
    }
}

/// Round trip of a `MetadataEntryType::EntryByte`.
proof fn lemma_metadata_entry_type_entry_byte(p: u8, rest: Seq<u8>)
    requires
        <u8 as Codec>::valid(p),
        <u8 as Codec>::delimited() || rest.len() == 0,
    ensures
        <MetadataEntryType as Encodable>::spec_encode(MetadataEntryTypeView::EntryByte(p)) is Ok,
        <MetadataEntryType as Decodable>::spec_decode(<MetadataEntryType as Encodable>::spec_encode(MetadataEntryTypeView::EntryByte(p))->Ok_0 + rest)
            == Ok::<(MetadataEntryTypeView, nat), CodecError>((MetadataEntryTypeView::EntryByte(p), <MetadataEntryType as Encodable>::spec_encode(MetadataEntryTypeView::EntryByte(p))->Ok_0.len())),
{
    <u8 as Codec>::lemma_round_trip(p, rest);
    let e = <u8 as Encodable>::spec_encode(p)->Ok_0;
    lemma_varint_round_trip(0, e + rest);
    let bytes = varint_bytes(0) + e + rest;
    assert(bytes =~= varint_bytes(0) + (e + rest));
    assert(bytes.subrange(varint_bytes(0).len() as int, bytes.len() as int) =~= e + rest);
}

/// Round trip of a `MetadataEntryType::EntryVarInt`.
proof fn lemma_metadata_entry_type_entry_var_int(p: i32, rest: Seq<u8>)
    requires
        <VarInt as Codec>::valid(p),
        <VarInt as Codec>::delimited() || rest.len() == 0,
    ensures
        <MetadataEntryType as Encodable>::spec_encode(MetadataEntryTypeView::EntryVarInt(p)) is Ok,
        <MetadataEntryType as Decodable>::spec_decode(<MetadataEntryType as Encodable>::spec_encode(MetadataEntryTypeView::EntryVarInt(p))->Ok_0 + rest)
            == Ok::<(MetadataEntryTypeView, nat), CodecError>((MetadataEntryTypeView::EntryVarInt(p), <MetadataEntryType as Encodable>::spec_encode(MetadataEntryTypeView::EntryVarInt(p))->Ok_0.len())),
{
    <VarInt as Codec>::lemma_round_trip(p, rest);
    let e = <VarInt as Encodable>::spec_encode(p)->Ok_0;
    lemma_varint_round_trip(1, e + rest);
    let bytes = varint_bytes(1) + e + rest;
    assert(bytes =~= varint_bytes(1) + (e + rest));
    assert(bytes.subrange(varint_bytes(1).len() as int, bytes.len() as int) =~= e + rest);
}

/// Round trip of a `MetadataEntryType::EntryFloat`.
proof fn lemma_metadata_entry_type_entry_float(p: u32, rest: Seq<u8>)
    requires
        <Float as Codec>::valid(p),
        <Float as Codec>::delimited() || rest.len() == 0,
    ensures
        <MetadataEntryType as Encodable>::spec_encode(MetadataEntryTypeView::EntryFloat(p)) is Ok,
        <MetadataEntryType as Decodable>::spec_decode(<MetadataEntryType as Encodable>::spec_encode(MetadataEntryTypeView::EntryFloat(p))->Ok_0 + rest)
            == Ok::<(MetadataEntryTypeView, nat), CodecError>((MetadataEntryTypeView::EntryFloat(p), <MetadataEntryType as Encodable>::spec_encode(MetadataEntryTypeView::EntryFloat(p))->Ok_0.len())),
{
    <Float as Codec>::lemma_round_trip(p, rest);
    let e = <Float as Encodable>::spec_encode(p)->Ok_0;
    lemma_varint_round_trip(2, e + rest);
    let bytes = varint_bytes(2) + e + rest;
    assert(bytes =~= varint_bytes(2) + (e + rest));
    assert(bytes.subrange(varint_bytes(2).len() as int, bytes.len() as int) =~= e + rest);
}

/// Round trip of a `MetadataEntryType::EntryString`.
proof fn lemma_metadata_entry_type_entry_string(p: Seq<char>, rest: Seq<u8>)
    requires
        <BigString as Codec>::valid(p),
        <BigString as Codec>::delimited() || rest.len() == 0,
    ensures
        <MetadataEntryType as Encodable>::spec_encode(MetadataEntryTypeView::EntryString(p)) is Ok,
        <MetadataEntryType as Decodable>::spec_decode(<MetadataEntryType as Encodable>::spec_encode(MetadataEntryTypeView::EntryString(p))->Ok_0 + rest)
            == Ok::<(MetadataEntryTypeView, nat), CodecError>((MetadataEntryTypeView::EntryString(p), <MetadataEntryType as Encodable>::spec_encode(MetadataEntryTypeView::EntryString(p))->Ok_0.len())),
{
    <BigString as Codec>::lemma_round_trip(p, rest);
    let e = <BigString as Encodable>::spec_encode(p)->Ok_0;
    lemma_varint_round_trip(3, e + rest);
    let bytes = varint_bytes(3) + e + rest;
    assert(bytes =~= varint_bytes(3) + (e + rest));
    assert(bytes.subrange(varint_bytes(3).len() as int, bytes.len() as int) =~= e + rest);
}

/// Round trip of a `MetadataEntryType::EntryChat`.
proof fn lemma_metadata_entry_type_entry_chat(p: Seq<char>, rest: Seq<u8>)
    requires
        <ChatJson as Codec>::valid(p),
        <ChatJson as Codec>::delimited() || rest.len() == 0,
    ensures
        <MetadataEntryType as Encodable>::spec_encode(MetadataEntryTypeView::EntryChat(p)) is Ok,
        <MetadataEntryType as Decodable>::spec_decode(<MetadataEntryType as Encodable>::spec_encode(MetadataEntryTypeView::EntryChat(p))->Ok_0 + rest)
            == Ok::<(MetadataEntryTypeView, nat), CodecError>((MetadataEntryTypeView::EntryChat(p), <MetadataEntryType as Encodable>::spec_encode(MetadataEntryTypeView::EntryChat(p))->Ok_0.len())),
{
    <ChatJson as Codec>::lemma_round_trip(p, rest);
    let e = <ChatJson as Encodable>::spec_encode(p)->Ok_0;
    lemma_varint_round_trip(4, e + rest);
    let bytes = varint_bytes(4) + e + rest;
    assert(bytes =~= varint_bytes(4) + (e + rest));
    assert(bytes.subrange(varint_bytes(4).len() as int, bytes.len() as int) =~= e + rest);
}

/// Round trip of a `MetadataEntryType::EntryOptChat`.
proof fn lemma_metadata_entry_type_entry_opt_chat(p: (bool, Option<Seq<char>>), rest: Seq<u8>)
    requires
        <(bool, Option<ChatJson>) as Codec>::valid(p),
        <(bool, Option<ChatJson>) as Codec>::delimited() || rest.len() == 0,
    ensures
        <MetadataEntryType as Encodable>::spec_encode(MetadataEntryTypeView::EntryOptChat(p)) is Ok,
        <MetadataEntryType as Decodable>::spec_decode(<MetadataEntryType as Encodable>::spec_encode(MetadataEntryTypeView::EntryOptChat(p))->Ok_0 + rest)
            == Ok::<(MetadataEntryTypeView, nat), CodecError>((MetadataEntryTypeView::EntryOptChat(p), <MetadataEntryType as Encodable>::spec_encode(MetadataEntryTypeView::EntryOptChat(p))->Ok_0.len())),
{
    <(bool, Option<ChatJson>) as Codec>::lemma_round_trip(p, rest);
    let e = <(bool, Option<ChatJson>) as Encodable>::spec_encode(p)->Ok_0;
    lemma_varint_round_trip(5, e + rest);
    let bytes = varint_bytes(5) + e + rest;
    assert(bytes =~= varint_bytes(5) + (e + rest));
    assert(bytes.subrange(varint_bytes(5).len() as int, bytes.len() as int) =~= e + rest);
}

/// Round trip of a `MetadataEntryType::EntrySlot`.
proof fn lemma_metadata_entry_type_entry_slot(p: SlotDataView, rest: Seq<u8>)
    requires
        <SlotData as Codec>::valid(p),
        <SlotData as Codec>::delimited() || rest.len() == 0,
    ensures
        <MetadataEntryType as Encodable>::spec_encode(MetadataEntryTypeView::EntrySlot(p)) is Ok,
        <MetadataEntryType as Decodable>::spec_decode(<MetadataEntryType as Encodable>::spec_encode(MetadataEntryTypeView::EntrySlot(p))->Ok_0 + rest)
            == Ok::<(MetadataEntryTypeView, nat), CodecError>((MetadataEntryTypeView::EntrySlot(p), <MetadataEntryType as Encodable>::spec_encode(MetadataEntryTypeView::EntrySlot(p))->Ok_0.len())),
{
    <SlotData as Codec>::lemma_round_trip(p, rest);
    let e = <SlotData as Encodable>::spec_encode(p)->Ok_0;
    lemma_varint_round_trip(6, e + rest);
    let bytes = varint_bytes(6) + e + rest;
    assert(bytes =~= varint_bytes(6) + (e + rest));
    assert(bytes.subrange(varint_bytes(6).len() as int, bytes.len() as int) =~= e + rest);
}

/// Round trip of a `MetadataEntryType::EntryBoolean`.
proof fn lemma_metadata_entry_type_entry_boolean(p: bool, rest: Seq<u8>)
    requires
        <bool as Codec>::valid(p),
        <bool as Codec>::delimited() || rest.len() == 0,
    ensures
        <MetadataEntryType as Encodable>::spec_encode(MetadataEntryTypeView::EntryBoolean(p)) is Ok,
        <MetadataEntryType as Decodable>::spec_decode(<MetadataEntryType as Encodable>::spec_encode(MetadataEntryTypeView::EntryBoolean(p))->Ok_0 + rest)
            == Ok::<(MetadataEntryTypeView, nat), CodecError>((MetadataEntryTypeView::EntryBoolean(p), <MetadataEntryType as Encodable>::spec_encode(MetadataEntryTypeView::EntryBoolean(p))->Ok_0.len())),
{
    <bool as Codec>::lemma_round_trip(p, rest);
    let e = <bool as Encodable>::spec_encode(p)->Ok_0;
    lemma_varint_round_trip(7, e + rest);
    let bytes = varint_bytes(7) + e + rest;
    assert(bytes =~= varint_bytes(7) + (e + rest));
    assert(bytes.subrange(varint_bytes(7).len() as int, bytes.len() as int) =~= e + rest);
}

/// Round trip of a `MetadataEntryType::EntryRotation`.
proof fn lemma_metadata_entry_type_entry_rotation(p: (u32, u32, u32), rest: Seq<u8>)
    requires
        <(Float, Float, Float) as Codec>::valid(p),
        <(Float, Float, Float) as Codec>::delimited() || rest.len() == 0,
    ensures
        <MetadataEntryType as Encodable>::spec_encode(MetadataEntryTypeView::EntryRotation(p)) is Ok,
        <MetadataEntryType as Decodable>::spec_decode(<MetadataEntryType as Encodable>::spec_encode(MetadataEntryTypeView::EntryRotation(p))->Ok_0 + rest)
            == Ok::<(MetadataEntryTypeView, nat), CodecError>((MetadataEntryTypeView::EntryRotation(p), <MetadataEntryType as Encodable>::spec_encode(MetadataEntryTypeView::EntryRotation(p))->Ok_0.len())),
{
    <(Float, Float, Float) as Codec>::lemma_round_trip(p, rest);
    let e = <(Float, Float, Float) as Encodable>::spec_encode(p)->Ok_0;
    lemma_varint_round_trip(8, e + rest);
    let bytes = varint_bytes(8) + e + rest;
    assert(bytes =~= varint_bytes(8) + (e + rest));
    assert(bytes.subrange(varint_bytes(8).len() as int, bytes.len() as int) =~= e + rest);
}

/// Round trip of a `MetadataEntryType::EntryPosition`.
proof fn lemma_metadata_entry_type_entry_position(p: (i64, i64, i64), rest: Seq<u8>)
    requires
        <Position as Codec>::valid(p),
        <Position as Codec>::delimited() || rest.len() == 0,
    ensures
        <MetadataEntryType as Encodable>::spec_encode(MetadataEntryTypeView::EntryPosition(p)) is Ok,
        <MetadataEntryType as Decodable>::spec_decode(<MetadataEntryType as Encodable>::spec_encode(MetadataEntryTypeView::EntryPosition(p))->Ok_0 + rest)
            == Ok::<(MetadataEntryTypeView, nat), CodecError>((MetadataEntryTypeView::EntryPosition(p), <MetadataEntryType as Encodable>::spec_encode(MetadataEntryTypeView::EntryPosition(p))->Ok_0.len())),
{
    <Position as Codec>::lemma_round_trip(p, rest);
    let e = <Position as Encodable>::spec_encode(p)->Ok_0;
    lemma_varint_round_trip(9, e + rest);
    let bytes = varint_bytes(9) + e + rest;
    assert(bytes =~= varint_bytes(9) + (e + rest));
    assert(bytes.subrange(varint_bytes(9).len() as int, bytes.len() as int) =~= e + rest);
}

/// Round trip of a `MetadataEntryType::EntryOptPosition`.
proof fn lemma_metadata_entry_type_entry_opt_position(p: (bool, Option<(i64, i64, i64)>), rest: Seq<u8>)
    requires
        <(bool, Option<Position>) as Codec>::valid(p),
        <(bool, Option<Position>) as Codec>::delimited() || rest.len() == 0,
    ensures
        <MetadataEntryType as Encodable>::spec_encode(MetadataEntryTypeView::EntryOptPosition(p)) is Ok,
        <MetadataEntryType as Decodable>::spec_decode(<MetadataEntryType as Encodable>::spec_encode(MetadataEntryTypeView::EntryOptPosition(p))->Ok_0 + rest)
            == Ok::<(MetadataEntryTypeView, nat), CodecError>((MetadataEntryTypeView::EntryOptPosition(p), <MetadataEntryType as Encodable>::spec_encode(MetadataEntryTypeView::EntryOptPosition(p))->Ok_0.len())),
{
    <(bool, Option<Position>) as Codec>::lemma_round_trip(p, rest);
    let e = <(bool, Option<Position>) as Encodable>::spec_encode(p)->Ok_0;
    lemma_varint_round_trip(10, e + rest);
    let bytes = varint_bytes(10) + e + rest;
    assert(bytes =~= varint_bytes(10) + (e + rest));
    assert(bytes.subrange(varint_bytes(10).len() as int, bytes.len() as int) =~= e + rest);
}

/// Round trip of a `MetadataEntryType::EntryDirection`.
proof fn lemma_metadata_entry_type_entry_direction(p: Direction, rest: Seq<u8>)
    requires
        <Direction as Codec>::valid(p),
        <Direction as Codec>::delimited() || rest.len() == 0,
    ensures
        <MetadataEntryType as Encodable>::spec_encode(MetadataEntryTypeView::EntryDirection(p)) is Ok,
        <MetadataEntryType as Decodable>::spec_decode(<MetadataEntryType as Encodable>::spec_encode(MetadataEntryTypeView::EntryDirection(p))->Ok_0 + rest)
            == Ok::<(MetadataEntryTypeView, nat), CodecError>((MetadataEntryTypeView::EntryDirection(p), <MetadataEntryType as Encodable>::spec_encode(MetadataEntryTypeView::EntryDirection(p))->Ok_0.len())),
{
    <Direction as Codec>::lemma_round_trip(p, rest);
    let e = <Direction as Encodable>::spec_encode(p)->Ok_0;
    lemma_varint_round_trip(11, e + rest);
    let bytes = varint_bytes(11) + e + rest;
    assert(bytes =~= varint_bytes(11) + (e + rest));
    assert(bytes.subrange(varint_bytes(11).len() as int, bytes.len() as int) =~= e + rest);
}

/// Round trip of a `MetadataEntryType::EntryOptUuid`.
proof fn lemma_metadata_entry_type_entry_opt_uuid(p: (bool, Option<u128>), rest: Seq<u8>)
    requires
        <(bool, Option<McUuid>) as Codec>::valid(p),
        <(bool, Option<McUuid>) as Codec>::delimited() || rest.len() == 0,
    ensures
        <MetadataEntryType as Encodable>::spec_encode(MetadataEntryTypeView::EntryOptUuid(p)) is Ok,
        <MetadataEntryType as Decodable>::spec_decode(<MetadataEntryType as Encodable>::spec_encode(MetadataEntryTypeView::EntryOptUuid(p))->Ok_0 + rest)
            == Ok::<(MetadataEntryTypeView, nat), CodecError>((MetadataEntryTypeView::EntryOptUuid(p), <MetadataEntryType as Encodable>::spec_encode(MetadataEntryTypeView::EntryOptUuid(p))->Ok_0.len())),
{
    <(bool, Option<McUuid>) as Codec>::lemma_round_trip(p, rest);
    let e = <(bool, Option<McUuid>) as Encodable>::spec_encode(p)->Ok_0;
    lemma_varint_round_trip(12, e + rest);
    let bytes = varint_bytes(12) + e + rest;
    assert(bytes =~= varint_bytes(12) + (e + rest));
    assert(bytes.subrange(varint_bytes(12).len() as int, bytes.len() as int) =~= e + rest);
}

/// Round trip of a `MetadataEntryType::EntryOptBlockId`.
proof fn lemma_metadata_entry_type_entry_opt_block_id(p: i32, rest: Seq<u8>)
    requires
        <VarInt as Codec>::valid(p),
        <VarInt as Codec>::delimited() || rest.len() == 0,
    ensures
        <MetadataEntryType as Encodable>::spec_encode(MetadataEntryTypeView::EntryOptBlockId(p)) is Ok,
        <MetadataEntryType as Decodable>::spec_decode(<MetadataEntryType as Encodable>::spec_encode(MetadataEntryTypeView::EntryOptBlockId(p))->Ok_0 + rest)
            == Ok::<(MetadataEntryTypeView, nat), CodecError>((MetadataEntryTypeView::EntryOptBlockId(p), <MetadataEntryType as Encodable>::spec_encode(MetadataEntryTypeView::EntryOptBlockId(p))->Ok_0.len())),
{
    <VarInt as Codec>::lemma_round_trip(p, rest);
    let e = <VarInt as Encodable>::spec_encode(p)->Ok_0;
    lemma_varint_round_trip(13, e + rest);
    let bytes = varint_bytes(13) + e + rest;
    assert(bytes =~= varint_bytes(13) + (e + rest));
    assert(bytes.subrange(varint_bytes(13).len() as int, bytes.len() as int) =~= e + rest);
}

/// Round trip of a `MetadataEntryType::EntryNbt`.
proof fn lemma_metadata_entry_type_entry_nbt(p: Seq<u8>, rest: Seq<u8>)
    requires
        <NbtTag as Codec>::valid(p),
        <NbtTag as Codec>::delimited() || rest.len() == 0,
    ensures
        <MetadataEntryType as Encodable>::spec_encode(MetadataEntryTypeView::EntryNbt(p)) is Ok,
        <MetadataEntryType as Decodable>::spec_decode(<MetadataEntryType as Encodable>::spec_encode(MetadataEntryTypeView::EntryNbt(p))->Ok_0 + rest)
            == Ok::<(MetadataEntryTypeView, nat), CodecError>((MetadataEntryTypeView::EntryNbt(p), <MetadataEntryType as Encodable>::spec_encode(MetadataEntryTypeView::EntryNbt(p))->Ok_0.len())),
{
    <NbtTag as Codec>::lemma_round_trip(p, rest);
    let e = <NbtTag as Encodable>::spec_encode(p)->Ok_0;
    lemma_varint_round_trip(14, e + rest);
    let bytes = varint_bytes(14) + e + rest;
    assert(bytes =~= varint_bytes(14) + (e + rest));
    assert(bytes.subrange(varint_bytes(14).len() as int, bytes.len() as int) =~= e + rest);
}

/// Round trip of a `MetadataEntryType::EntityParticle`.
proof fn lemma_metadata_entry_type_entity_particle(p: ParticleView, rest: Seq<u8>)
    requires
        <Particle as Codec>::valid(p),
        <Particle as Codec>::delimited() || rest.len() == 0,
    ensures
        <MetadataEntryType as Encodable>::spec_encode(MetadataEntryTypeView::EntityParticle(p)) is Ok,
        <MetadataEntryType as Decodable>::spec_decode(<MetadataEntryType as Encodable>::spec_encode(MetadataEntryTypeView::EntityParticle(p))->Ok_0 + rest)
            == Ok::<(MetadataEntryTypeView, nat), CodecError>((MetadataEntryTypeView::EntityParticle(p), <MetadataEntryType as Encodable>::spec_encode(MetadataEntryTypeView::EntityParticle(p))->Ok_0.len())),
{
    <Particle as Codec>::lemma_round_trip(p, rest);
    let e = <Particle as Encodable>::spec_encode(p)->Ok_0;
    lemma_varint_round_trip(15, e + rest);
    let bytes = varint_bytes(15) + e + rest;
    assert(bytes =~= varint_bytes(15) + (e + rest));
    assert(bytes.subrange(varint_bytes(15).len() as int, bytes.len() as int) =~= e + rest);
}

/// Round trip of a `MetadataEntryType::EntryVillagerData`.
proof fn lemma_metadata_entry_type_entry_villager_data(p: (VillagerType, VillagerProfession, i32), rest: Seq<u8>)
    requires
        <(VillagerType, VillagerProfession, VarInt) as Codec>::valid(p),
        <(VillagerType, VillagerProfession, VarInt) as Codec>::delimited() || rest.len() == 0,
    ensures
        <MetadataEntryType as Encodable>::spec_encode(MetadataEntryTypeView::EntryVillagerData(p)) is Ok,
        <MetadataEntryType as Decodable>::spec_decode(<MetadataEntryType as Encodable>::spec_encode(MetadataEntryTypeView::EntryVillagerData(p))->Ok_0 + rest)
            == Ok::<(MetadataEntryTypeView, nat), CodecError>((MetadataEntryTypeView::EntryVillagerData(p), <MetadataEntryType as Encodable>::spec_encode(MetadataEntryTypeView::EntryVillagerData(p))->Ok_0.len())),
{
    <(VillagerType, VillagerProfession, VarInt) as Codec>::lemma_round_trip(p, rest);
    let e = <(VillagerType, VillagerProfession, VarInt) as Encodable>::spec_encode(p)->Ok_0;
    lemma_varint_round_trip(16, e + rest);
    let bytes = varint_bytes(16) + e + rest;
    assert(bytes =~= varint_bytes(16) + (e + rest));
    assert(bytes.subrange(varint_bytes(16).len() as int, bytes.len() as int) =~= e + rest);
}

/// Round trip of a `MetadataEntryType::EntryOptVarInt`.
proof fn lemma_metadata_entry_type_entry_opt_var_int(p: i32, rest: Seq<u8>)
    requires
        <VarInt as Codec>::valid(p),
        <VarInt as Codec>::delimited() || rest.len() == 0,
    ensures
        <MetadataEntryType as Encodable>::spec_encode(MetadataEntryTypeView::EntryOptVarInt(p)) is Ok,
        <MetadataEntryType as Decodable>::spec_decode(<MetadataEntryType as Encodable>::spec_encode(MetadataEntryTypeView::EntryOptVarInt(p))->Ok_0 + rest)
            == Ok::<(MetadataEntryTypeView, nat), CodecError>((MetadataEntryTypeView::EntryOptVarInt(p), <MetadataEntryType as Encodable>::spec_encode(MetadataEntryTypeView::EntryOptVarInt(p))->Ok_0.len())),
{
    <VarInt as Codec>::lemma_round_trip(p, rest);
    let e = <VarInt as Encodable>::spec_encode(p)->Ok_0;
    lemma_varint_round_trip(17, e + rest);
    let bytes = varint_bytes(17) + e + rest;
    assert(bytes =~= varint_bytes(17) + (e + rest));
    assert(bytes.subrange(varint_bytes(17).len() as int, bytes.len() as int) =~= e + rest);
}

/// Round trip of a `MetadataEntryType::EntryPose`.
proof fn lemma_metadata_entry_type_entry_pose(p: Pose, rest: Seq<u8>)
    requires
        <Pose as Codec>::valid(p),
        <Pose as Codec>::delimited() || rest.len() == 0,
    ensures
        <MetadataEntryType as Encodable>::spec_encode(MetadataEntryTypeView::EntryPose(p)) is Ok,
        <MetadataEntryType as Decodable>::spec_decode(<MetadataEntryType as Encodable>::spec_encode(MetadataEntryTypeView::EntryPose(p))->Ok_0 + rest)
            == Ok::<(MetadataEntryTypeView, nat), CodecError>((MetadataEntryTypeView::EntryPose(p), <MetadataEntryType as Encodable>::spec_encode(MetadataEntryTypeView::EntryPose(p))->Ok_0.len())),
{
    <Pose as Codec>::lemma_round_trip(p, rest);
    let e = <Pose as Encodable>::spec_encode(p)->Ok_0;
    lemma_varint_round_trip(18, e + rest);
    let bytes = varint_bytes(18) + e + rest;
    assert(bytes =~= varint_bytes(18) + (e + rest));
    assert(bytes.subrange(varint_bytes(18).len() as int, bytes.len() as int) =~= e + rest);
}
/// An entity metadata entry: the index 0xFF ends a list and has no value.
pub struct MetadataEntry {
    pub index: u8,
    pub entry_type: Option<MetadataEntryType>,
}

/// The model of a `MetadataEntry`: each field by its model.
pub struct MetadataEntryView {
    pub index: u8,
    pub entry_type: Option<MetadataEntryTypeView>,
}

impl DeepView for MetadataEntry {
    type V = MetadataEntryView;

    open spec fn deep_view(&self) -> MetadataEntryView {
        MetadataEntryView {
            index: self.index.deep_view(),
            entry_type: self.entry_type.deep_view(),
        }
    }
}

impl Encodable for MetadataEntry {
    /// The fields in order, with no framing.
    open spec fn spec_encode(m: MetadataEntryView) -> Result<Seq<u8>, CodecError> {
        then_encode(<u8 as Encodable>::spec_encode(m.index), <Option<MetadataEntryType> as Encodable>::spec_encode(m.entry_type))
    }

    /// The sum of the fields' sizes.
    open spec fn spec_size(m: MetadataEntryView) -> Result<nat, CodecError> {
        add_size_spec(<u8 as Encodable>::spec_size(m.index), <Option<MetadataEntryType> as Encodable>::spec_size(m.entry_type))
    }

    proof fn lemma_size_faithful(m: MetadataEntryView) {
        <u8 as Encodable>::lemma_size_faithful(m.index);
        <Option<MetadataEntryType> as Encodable>::lemma_size_faithful(m.entry_type);
        lemma_then_size(<u8 as Encodable>::spec_encode(m.index), <u8 as Encodable>::spec_size(m.index), <Option<MetadataEntryType> as Encodable>::spec_encode(m.entry_type), <Option<MetadataEntryType> as Encodable>::spec_size(m.entry_type));
    }

    fn encode(&self, out: &mut Vec<u8>) -> (r: Result<(), CodecError>) {
        let ghost o0 = out@;
        let start = out.len();
        let ghost e0 = <u8 as Encodable>::spec_encode(self.index.deep_view())->Ok_0;
        let ghost e1 = <Option<MetadataEntryType> as Encodable>::spec_encode(self.entry_type.deep_view())->Ok_0;
        match self.index.encode(out) {
            Ok(_) => {},
            Err(e) => return Err(e),
        }
        match self.entry_type.encode(out) {
            Ok(_) => {},
            Err(e) => {
                roll_back(out, Ghost(o0), Ghost(e0), start);
                return Err(e);
            },
        }
        proof {
            lemma_concat_assoc(o0, e0, e1);
        }
        Ok(())
    }

    fn size(&self) -> (r: Result<VarInt, CodecError>) {
        proof {
            <u8 as Encodable>::lemma_size_faithful(self.index.deep_view());
            <Option<MetadataEntryType> as Encodable>::lemma_size_faithful(self.entry_type.deep_view());
        }
        let ghost w0 = <u8 as Encodable>::spec_size(self.index.deep_view());
        let ghost w1 = <Option<MetadataEntryType> as Encodable>::spec_size(self.entry_type.deep_view());
        let t0 = self.index.size();
        let t1 = add_size(t0, Ghost(w0), self.entry_type.size(), Ghost(w1));
        t1
    }
}

impl Decodable for MetadataEntry {
    open spec fn spec_decode(bytes: Seq<u8>) -> Result<(MetadataEntryView, nat), CodecError> {
        match decode_at::<u8>(bytes, 0) {
            Err(e) => Err(e),
            Ok((index, n0)) => match decode_if::<MetadataEntryType>(index != 0xffu8, bytes, n0) {
                Err(e) => Err(e),
                Ok((entry_type, n1)) => Ok((MetadataEntryView { index, entry_type }, n0 + n1)),
            },
        }
    }

    proof fn lemma_decode_len(bytes: Seq<u8>) {
        lemma_decode_at::<u8>(bytes, 0);
        <u8 as Decodable>::lemma_decode_len(bytes.subrange((0) as int, bytes.len() as int));
        if let Ok((index, n0)) = decode_at::<u8>(bytes, 0) {
            lemma_decode_if::<MetadataEntryType>(index != 0xffu8, bytes, n0);
            if index != 0xffu8 {
                <MetadataEntryType as Decodable>::lemma_decode_len(bytes.subrange((n0) as int, bytes.len() as int));
            }
        }
    }

    fn decode(reader: &mut ByteReader) -> (r: Result<MetadataEntry, CodecError>) {
        let ghost r0 = *reader;
        let ghost rest0 = reader.rest();
        proof {
            ByteReader::lemma_rest_since(r0, *reader);
            lemma_decode_at::<u8>(rest0, (reader.pos() - r0.pos()) as nat);
        }
        let index = match <u8>::decode(reader) {
            Ok(v) => v,
            Err(e) => return Err(e),
        };
        proof {
            ByteReader::lemma_rest_since(r0, *reader);
            lemma_decode_if::<MetadataEntryType>(index != 0xff, rest0, (reader.pos() - r0.pos()) as nat);
        }
        let entry_type = if index != 0xff {
            match <MetadataEntryType>::decode(reader) {
                Ok(v) => Some(v),
                Err(e) => return Err(e),
            }
        } else {
            None
        };
        Ok(MetadataEntry { index, entry_type })
    }
}

impl Codec for MetadataEntry {
    open spec fn valid(m: MetadataEntryView) -> bool {
        &&& <u8 as Codec>::valid(m.index)
        &&& <u8 as Codec>::delimited()
        &&& if m.index != 0xffu8 {
            m.entry_type matches Some(v) && <MetadataEntryType as Codec>::valid(v)
        } else {
            m.entry_type is None
        }
    }

    open spec fn delimited() -> bool {
        <MetadataEntryType as Codec>::delimited()
    }

    proof fn lemma_round_trip(m: MetadataEntryView, rest: Seq<u8>) {
        let e0 = <u8 as Encodable>::spec_encode(m.index)->Ok_0;
        let e1 = <Option<MetadataEntryType> as Encodable>::spec_encode(m.entry_type)->Ok_0;
        let t1 = e1 + rest;
        let t0 = e0 + t1;
        assert(decode_at::<u8>(t0, (0) as nat) == Ok::<(<u8 as DeepView>::V, nat), CodecError>((m.index, e0.len()))
            && <u8 as Encodable>::spec_encode(m.index) == Ok::<Seq<u8>, CodecError>(e0)
            && decode_if::<MetadataEntryType>(m.index != 0xffu8, t0, (e0.len()) as nat) == Ok::<(Option<<MetadataEntryType as DeepView>::V>, nat), CodecError>((m.entry_type, e1.len()))
            && <Option<MetadataEntryType> as Encodable>::spec_encode(m.entry_type) == Ok::<Seq<u8>, CodecError>(e1)) by {
            lemma_subrange_all(t0);
            lemma_field_round_trip::<u8>(m.index, t0, (0) as nat, t1);
            lemma_field_if_round_trip::<MetadataEntryType>(m.index != 0xffu8, m.entry_type, t0, (e0.len()) as nat, rest);
        }
        assert(e0 + e1 + rest == t0) by {
            lemma_concat_assoc(e0, e1, rest);
        }
        assert(Self::spec_encode(m) == Ok::<Seq<u8>, CodecError>(e0 + e1));
    }
}

} // verus!

verus! {

/// A slot whose presence byte is 0 decodes with every item field absent,
/// taking that one byte, whatever bytes follow it.
pub proof fn lemma_slot_absent_ignores_rest(rest: Seq<u8>)
    ensures
        <SlotData as Decodable>::spec_decode(seq![0u8] + rest) == Ok::<(SlotDataView, nat), CodecError>(
            (SlotDataView { present: false, item_id: None, item_count: None, nbt: None }, 1),
        ),
{
    reveal(decode_at);
    reveal(decode_if);
    assert((seq![0u8] + rest)[0] == 0u8);
}

/// A slot whose presence byte is 1 takes its item id, count and tag from
/// the bytes that follow, in that order.
pub proof fn lemma_slot_present_reads_fields(bytes: Seq<u8>)
    requires
        bytes.len() >= 1,
        bytes[0] == 1u8,
    ensures
        <SlotData as Decodable>::spec_decode(bytes) == match decode_at::<VarInt>(bytes, 1) {
            Err(e) => Err(e),
            Ok((id, n1)) => match decode_at::<u8>(bytes, 1 + n1) {
                Err(e) => Err(e),
                Ok((count, n2)) => match decode_at::<NbtTag>(bytes, 1 + n1 + n2) {
                    Err(e) => Err(e),
                    Ok((tag, n3)) => Ok::<(SlotDataView, nat), CodecError>(
                        (
                            SlotDataView {
                                present: true,
                                item_id: Some(id),
                                item_count: Some(count),
                                nbt: Some(tag),
                            },
                            1 + n1 + n2 + n3,
                        ),
                    ),
                },
            },
        },
{
    reveal(decode_at);
    reveal(decode_if);
}

/// A metadata entry with index 0xFF decodes with no value, taking that one
/// byte, whatever bytes follow it.
pub proof fn lemma_metadata_end_ignores_rest(rest: Seq<u8>)
    ensures
        <MetadataEntry as Decodable>::spec_decode(seq![0xffu8] + rest) == Ok::<
            (MetadataEntryView, nat),
            CodecError,
        >((MetadataEntryView { index: 0xff, entry_type: None }, 1)),
{
    reveal(decode_at);
    reveal(decode_if);
    let b = seq![0xffu8] + rest;
    assert(b[0] == 0xffu8);
    assert(b.subrange(0, b.len() as int).subrange(0, 1) =~= seq![0xffu8]);
    assert(b.subrange(0, 1) =~= seq![0xffu8]);
    assert(crate::primitives::be_value(seq![0xffu8]) == 0xff) by {
        reveal_with_fuel(crate::primitives::be_value, 2);
        assert(seq![0xffu8].drop_last() =~= Seq::<u8>::empty());
    }
}

/// A metadata entry with any other index takes its value from the bytes that
/// follow.
pub proof fn lemma_metadata_value_follows(bytes: Seq<u8>)
    requires
        bytes.len() >= 1,
        bytes[0] != 0xffu8,
    ensures
        <MetadataEntry as Decodable>::spec_decode(bytes) == match decode_at::<MetadataEntryType>(
            bytes,
            1,
        ) {
            Err(e) => Err(e),
            Ok((v, n)) => Ok::<(MetadataEntryView, nat), CodecError>(
                (MetadataEntryView { index: bytes[0], entry_type: Some(v) }, 1 + n),
            ),
        },
{
    reveal(decode_at);
    reveal(decode_if);
    assert(bytes.subrange(0, 1) =~= seq![bytes[0]]);
    assert(bytes.subrange(0, bytes.len() as int).subrange(0, 1) =~= seq![bytes[0]]);
    assert(crate::primitives::be_value(seq![bytes[0]]) == bytes[0]) by {
        reveal_with_fuel(crate::primitives::be_value, 2);
        assert(seq![bytes[0]].drop_last() =~= Seq::<u8>::empty());
    }
}

} // verus!
