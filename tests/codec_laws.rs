use mc_wire::base_types::{
    Direction, MetadataEntry, MetadataEntryType, Particle, ParticleData, SlotData,
    VillagerProfession, VillagerType,
};
use mc_wire::handshake::{Handshake, NextState};
use mc_wire::login_client::{EncryptionRequest, LoginPluginRequest, LoginSuccess};
use mc_wire::login_server::LoginStart;
use mc_wire::strings::{EncryptionRequestServerId, HandshakeServerAddress, LoginNameString, LoginSuccessName};
use mc_wire::{
    Angle, BigString, ByteReader, ChatJson, CodecError, Decodable, Encodable, Float, Identifier,
    IndexDecodable, McString, McUuid, NbtTag, Position, SizeDecodable, SizeEncodable, VarInt,
    VarLong,
};

fn enc<T: Encodable>(v: &T) -> Vec<u8> {
    let mut out = Vec::new();
    v.encode(&mut out).expect("encodes");
    out
}

fn dec<T: Decodable>(bytes: Vec<u8>) -> Result<T, CodecError> {
    let mut r = ByteReader::new(bytes);
    T::decode(&mut r)
}

fn size_of<T: Encodable>(v: &T) -> i32 {
    v.size().expect("has a size").value()
}

fn empty_nbt_bytes() -> Vec<u8> {
    let mut v = Vec::new();
    nbt::Blob::new().to_writer(&mut v).expect("writes");
    v
}

#[test]
fn varint_25565_both_ways() {
    assert_eq!(enc(&VarInt(25565)), vec![0xDD, 0xC7, 0x01]);
    assert_eq!(dec::<VarInt>(vec![0xDD, 0xC7, 0x01]), Ok(VarInt(25565)));
    assert_eq!(size_of(&VarInt(25565)), 3);
}

#[test]
fn varint_minus_one_both_ways() {
    assert_eq!(enc(&VarInt(-1)), vec![0xFF, 0xFF, 0xFF, 0xFF, 0x0F]);
    assert_eq!(dec::<VarInt>(vec![0xFF, 0xFF, 0xFF, 0xFF, 0x0F]), Ok(VarInt(-1)));
    assert_eq!(size_of(&VarInt(-1)), 5);
}

#[test]
fn varlong_max_both_ways() {
    let bytes = vec![0xFF, 0xFF, 0xFF, 0xFF, 0xFF, 0xFF, 0xFF, 0xFF, 0x7F];
    assert_eq!(enc(&VarLong(9223372036854775807)), bytes);
    assert_eq!(dec::<VarLong>(bytes), Ok(VarLong(9223372036854775807)));
}

#[test]
fn varint_reference_vectors() {
    let pairs: Vec<(i32, Vec<u8>)> = vec![
        (0, vec![0x00]),
        (1, vec![0x01]),
        (2, vec![0x02]),
        (127, vec![0x7f]),
        (128, vec![0x80, 0x01]),
        (255, vec![0xff, 0x01]),
        (2097151, vec![0xff, 0xff, 0x7f]),
        (2147483647, vec![0xff, 0xff, 0xff, 0xff, 0x07]),
        (-2147483648, vec![0x80, 0x80, 0x80, 0x80, 0x08]),
    ];
    for (v, bytes) in pairs {
        assert_eq!(enc(&VarInt(v)), bytes);
        assert_eq!(dec::<VarInt>(bytes.clone()), Ok(VarInt(v)));
        assert_eq!(size_of(&VarInt(v)) as usize, bytes.len());
    }
}

#[test]
fn varlong_reference_vectors() {
    let pairs: Vec<(i64, Vec<u8>)> = vec![
        (-1, vec![0xff, 0xff, 0xff, 0xff, 0xff, 0xff, 0xff, 0xff, 0xff, 0x01]),
        (-2147483648, vec![0x80, 0x80, 0x80, 0x80, 0xf8, 0xff, 0xff, 0xff, 0xff, 0x01]),
        (i64::MIN, vec![0x80, 0x80, 0x80, 0x80, 0x80, 0x80, 0x80, 0x80, 0x80, 0x01]),
    ];
    for (v, bytes) in pairs {
        assert_eq!(enc(&VarLong(v)), bytes);
        assert_eq!(dec::<VarLong>(bytes.clone()), Ok(VarLong(v)));
    }
}

#[test]
fn varint_decode_and_size_reports_length() {
    let mut r = ByteReader::new(vec![0xDD, 0xC7, 0x01, 0x05]);
    let (len, v) = VarInt::decode_and_size(&mut r).unwrap();
    assert_eq!(len, VarInt(3));
    assert_eq!(v, VarInt(25565));
    assert_eq!(r.position(), 3);
}

#[test]
fn varint_overlong_rejected() {
    assert_eq!(
        dec::<VarInt>(vec![0x80, 0x80, 0x80, 0x80, 0x80, 0x01]),
        Err(CodecError::OverlongVarNum)
    );
    assert_eq!(dec::<VarLong>(vec![0x80; 11]), Err(CodecError::OverlongVarNum));
    assert_eq!(dec::<VarInt>(vec![0x80, 0x80]), Err(CodecError::UnexpectedEnd));
}

#[test]
fn varint_prefix_free_examples() {
    let a = enc(&VarInt(1));
    let b = enc(&VarInt(129));
    assert!(!b.starts_with(&a));
    assert!(!a.starts_with(&b));
}

#[test]
fn handshake_record_bytes() {
    let h = Handshake {
        protocol_version: VarInt(756),
        server_address: HandshakeServerAddress::new(String::from("localhost")),
        server_port: 25565,
        next_state: NextState::Login,
    };
    let mut expected = vec![0xF4, 0x05, 0x09];
    expected.extend_from_slice(b"localhost");
    expected.extend_from_slice(&[0x63, 0xDD, 0x02]);
    assert_eq!(enc(&h), expected);
    assert_eq!(size_of(&h) as usize, expected.len());
    let back = dec::<Handshake>(expected).unwrap();
    assert_eq!(back.protocol_version, VarInt(756));
    assert_eq!(back.server_address.string(), "localhost");
    assert_eq!(back.server_port, 25565);
    assert_eq!(back.next_state, NextState::Login);
}

#[test]
fn slot_absent_is_one_byte() {
    let s = SlotData { present: false, item_id: None, item_count: None, nbt: None };
    assert_eq!(enc(&s), vec![0x00]);
    let back = dec::<SlotData>(vec![0x00, 0x07, 0x08]).unwrap();
    assert!(!back.present && back.item_id.is_none() && back.item_count.is_none() && back.nbt.is_none());
}

#[test]
fn slot_present_with_empty_tag() {
    let tag_bytes = empty_nbt_bytes();
    let s = SlotData {
        present: true,
        item_id: Some(VarInt(1)),
        item_count: Some(64),
        nbt: Some(NbtTag::new(tag_bytes.clone()).unwrap()),
    };
    let mut expected = vec![0x01, 0x01, 0x40];
    expected.extend_from_slice(&tag_bytes);
    assert_eq!(enc(&s), expected);
    assert_eq!(size_of(&s) as usize, expected.len());
    let back = dec::<SlotData>(expected).unwrap();
    assert_eq!(back.item_id, Some(VarInt(1)));
    assert_eq!(back.item_count, Some(64));
    assert_eq!(back.nbt.unwrap().bytes().to_vec(), tag_bytes);
}

#[test]
fn malformed_boolean_consumes_one_byte() {
    let mut r = ByteReader::new(vec![0x02, 0x01]);
    assert_eq!(bool::decode(&mut r), Err(CodecError::MalformedBoolean(2)));
    assert_eq!(r.position(), 1);
    assert_eq!(bool::decode(&mut r), Ok(true));
}

#[test]
fn boolean_bytes() {
    assert_eq!(enc(&true), vec![1]);
    assert_eq!(enc(&false), vec![0]);
    assert_eq!(dec::<bool>(vec![0]), Ok(false));
    assert_eq!(dec::<bool>(vec![0xff]), Err(CodecError::MalformedBoolean(0xff)));
    assert_eq!(dec::<bool>(vec![]), Err(CodecError::UnexpectedEnd));
}

#[test]
fn fixed_width_big_endian() {
    assert_eq!(enc(&0x1234u16), vec![0x12, 0x34]);
    assert_eq!(enc(&-2i16), vec![0xff, 0xfe]);
    assert_eq!(enc(&0x01020304i32), vec![1, 2, 3, 4]);
    assert_eq!(enc(&-1i64), vec![0xff; 8]);
    assert_eq!(dec::<i16>(vec![0xff, 0xfe]), Ok(-2));
    assert_eq!(dec::<i64>(vec![0, 0, 0, 0, 0, 0, 1, 0]), Ok(256));
    assert_eq!(dec::<i32>(vec![1, 2, 3]), Err(CodecError::UnexpectedEnd));
    assert_eq!(size_of(&0i64), 8);
    assert_eq!(enc(&Float(1.5f32.to_bits())), 1.5f32.to_be_bytes().to_vec());
}

#[test]
fn string_round_trip_and_caps() {
    let s = Identifier::new(String::from("minecraft:stone"));
    let bytes = enc(&s);
    assert_eq!(bytes[0] as usize, "minecraft:stone".len());
    assert_eq!(size_of(&s) as usize, bytes.len());
    let back = dec::<Identifier>(bytes).unwrap();
    assert_eq!(back.string(), "minecraft:stone");

    let long = LoginNameString::new(String::from("abcdefghijklmnopq"));
    assert_eq!(long.size(), Ok(VarInt(18)));
    let mut out = vec![9u8];
    assert_eq!(long.encode(&mut out), Err(CodecError::StringLength));
    assert_eq!(out, vec![9u8]);

    let mut r = ByteReader::new(vec![65, b'a', b'b']);
    assert_eq!(LoginNameString::decode(&mut r).map(|_| ()), Err(CodecError::StringLength));
    assert_eq!(r.position(), 1);

    let mut at_cap = vec![64u8];
    at_cap.extend(std::iter::repeat(b'a').take(64));
    assert_eq!(dec::<LoginNameString>(at_cap).unwrap().string().len(), 64);
}

#[test]
fn string_multibyte_and_bad_utf8() {
    let s = BigString::new(String::from("h\u{e9}llo"));
    assert_eq!(enc(&s), vec![6, b'h', 0xc3, 0xa9, b'l', b'l', b'o']);
    let back = dec::<BigString>(vec![6, b'h', 0xc3, 0xa9, b'l', b'l', b'o']).unwrap();
    assert_eq!(back.string(), "h\u{e9}llo");
    assert_eq!(dec::<ChatJson>(vec![2, 0xc3, 0x28]).map(|_| ()), Err(CodecError::InvalidUtf8));
    assert_eq!(dec::<ChatJson>(vec![3, b'a']).map(|_| ()), Err(CodecError::UnexpectedEnd));
}

#[test]
fn position_packing() {
    let p = Position::new(18357644, 831, -20882616);
    let bytes = enc(&p);
    let word = ((18357644i64 & 0x3FFFFFF) << 38) | ((-20882616i64 & 0x3FFFFFF) << 12) | (831 & 0xFFF);
    assert_eq!(bytes, word.to_be_bytes().to_vec());
    assert_eq!(dec::<Position>(bytes), Ok(p));
    let corner = Position::new(-33554432, -2048, 33554431);
    assert_eq!(dec::<Position>(enc(&corner)), Ok(corner));
    assert_eq!(size_of(&p), 8);
}

#[test]
fn angle_and_uuid() {
    assert_eq!(enc(&Angle::new(200)), vec![200]);
    assert_eq!(dec::<Angle>(vec![7]), Ok(Angle(7)));
    let u = McUuid::new(0x0011_2233_4455_6677_8899_aabb_ccdd_eeff);
    let bytes = enc(&u);
    assert_eq!(bytes, (0x0011_2233_4455_6677_8899_aabb_ccdd_eeffu128).to_be_bytes().to_vec());
    assert_eq!(dec::<McUuid>(bytes), Ok(u));
    assert_eq!(size_of(&u), 16);
}

#[test]
fn nbt_tag_is_delimited_by_its_format() {
    let tag = empty_nbt_bytes();
    let mut stream = tag.clone();
    stream.extend_from_slice(&[0xAA, 0xBB]);
    let mut r = ByteReader::new(stream);
    let t = NbtTag::decode(&mut r).unwrap();
    assert_eq!(t.bytes().to_vec(), tag);
    assert_eq!(r.position(), tag.len());
    assert_eq!(NbtTag::new(vec![0x01, 0x02]).map(|_| ()), Err(CodecError::InvalidNbt));
    let mut padded = tag.clone();
    padded.push(0);
    assert_eq!(NbtTag::new(padded).map(|_| ()), Err(CodecError::InvalidNbt));
    assert_eq!(dec::<NbtTag>(vec![0x05]).map(|_| ()), Err(CodecError::InvalidNbt));
}

#[test]
fn length_prefixed_sequences() {
    let req = EncryptionRequest {
        server_id: EncryptionRequestServerId::new(String::new()),
        public_key: (VarInt(3), vec![1, 2, 3]),
        verify_token: (VarInt(2), vec![9, 8]),
    };
    let bytes = enc(&req);
    assert_eq!(bytes, vec![0, 3, 1, 2, 3, 2, 9, 8]);
    assert_eq!(size_of(&req) as usize, bytes.len());
    let back = dec::<EncryptionRequest>(bytes).unwrap();
    assert_eq!(back.public_key, (VarInt(3), vec![1, 2, 3]));
    assert_eq!(back.verify_token, (VarInt(2), vec![9, 8]));

    let mut r = ByteReader::new(vec![1, 2, 3]);
    assert_eq!(Vec::<u8>::decode_sized(&mut r, &VarInt(-1)), Err(CodecError::NegativeCount));
    assert_eq!(Vec::<u8>::decode_sized(&mut r, &VarInt(2)), Ok(vec![1, 2]));
    assert_eq!(vec![7u8, 8].predicted_size(), Ok(VarInt(2)));
    let mut out = Vec::new();
    vec![7u8, 8].encode_sized(&mut out, &VarInt(2)).unwrap();
    assert_eq!(out, vec![2, 7, 8]);
}

#[test]
fn reader_terminated_sequence() {
    let req = LoginPluginRequest {
        message_id: VarInt(5),
        channel: Identifier::new(String::from("a:b")),
        data: vec![10, 20, 30],
    };
    let bytes = enc(&req);
    assert_eq!(bytes, vec![5, 3, b'a', b':', b'b', 10, 20, 30]);
    let back = dec::<LoginPluginRequest>(bytes).unwrap();
    assert_eq!(back.data, vec![10, 20, 30]);
    assert_eq!(dec::<Vec<u16>>(vec![0, 1, 0, 2]), Ok(vec![1, 2]));
    assert_eq!(dec::<Vec<u16>>(vec![0, 1, 0]), Err(CodecError::UnexpectedEnd));
}

#[test]
fn tagged_optional() {
    let some: (bool, Option<VarInt>) = (true, Some(VarInt(300)));
    assert_eq!(enc(&some), vec![1, 0xAC, 0x02]);
    assert_eq!(dec::<(bool, Option<VarInt>)>(vec![1, 0xAC, 0x02]), Ok((true, Some(VarInt(300)))));
    assert_eq!(dec::<(bool, Option<VarInt>)>(vec![0, 0xAC, 0x02]), Ok((false, None)));
    let missing: (bool, Option<VarInt>) = (true, None);
    let mut out = Vec::new();
    assert_eq!(missing.encode(&mut out), Err(CodecError::MissingPayload));
    assert_eq!(missing.size(), Ok(VarInt(1)));
    assert_eq!(size_of(&(false, None::<VarInt>)), 1);
}

#[test]
fn tagged_unions() {
    assert_eq!(enc(&Direction::West), vec![4]);
    assert_eq!(dec::<Direction>(vec![5]), Ok(Direction::East));
    assert_eq!(dec::<Direction>(vec![6]), Err(CodecError::UnknownDiscriminant(6)));
    assert_eq!(dec::<NextState>(vec![0]), Err(CodecError::UnknownDiscriminant(0)));
    let mut r = ByteReader::new(vec![]);
    assert_eq!(Direction::decode_index(&mut r, &VarInt(2)), Ok(Direction::North));
    let p = Particle { data: ParticleData::Block(VarInt(9)) };
    assert_eq!(enc(&p), vec![4, 9]);
    match dec::<Particle>(vec![88]).unwrap().data {
        ParticleData::Scrape => {},
        _ => panic!("wrong particle"),
    }
    assert!(dec::<Particle>(vec![89]).is_err());
}

#[test]
fn metadata_entries() {
    let end = MetadataEntry { index: 0xff, entry_type: None };
    assert_eq!(enc(&end), vec![0xff]);
    let back = dec::<MetadataEntry>(vec![0xff, 0x01, 0x02]).unwrap();
    assert!(back.entry_type.is_none());
    let villager = MetadataEntry {
        index: 3,
        entry_type: Some(MetadataEntryType::EntryVillagerData((
            VillagerType::Taiga,
            VillagerProfession::Librarian,
            VarInt(2),
        ))),
    };
    let bytes = enc(&villager);
    assert_eq!(bytes, vec![3, 16, 6, 9, 2]);
    assert_eq!(size_of(&villager), 5);
    match dec::<MetadataEntry>(bytes).unwrap().entry_type {
        Some(MetadataEntryType::EntryVillagerData((t, p, l))) => {
            assert_eq!((t, p, l), (VillagerType::Taiga, VillagerProfession::Librarian, VarInt(2)));
        },
        _ => panic!("wrong entry"),
    }
}

#[test]
fn login_messages() {
    let s = LoginSuccess { uuid: McUuid::new(1), username: LoginSuccessName::new(String::from("Steve")) };
    let bytes = enc(&s);
    assert_eq!(bytes.len(), 16 + 1 + 5);
    let back = dec::<LoginSuccess>(bytes).unwrap();
    assert_eq!(back.uuid, McUuid(1));
    assert_eq!(back.username.string(), "Steve");
    let start = LoginStart { name: LoginNameString::new(String::from("Alex")) };
    assert_eq!(enc(&start), vec![4, b'A', b'l', b'e', b'x']);
}

#[test]
fn varint_checked_arithmetic() {
    assert_eq!(VarInt(i32::MAX).checked_add(VarInt(1)), None);
    assert_eq!(VarInt(2).checked_add(VarInt(3)), Some(VarInt(5)));
    assert_eq!(VarInt(i32::MIN).checked_sub(VarInt(1)), None);
    assert_eq!(VarInt(65536).checked_mul(VarInt(65536)), None);
    assert_eq!(VarInt::from_usize(5), Some(VarInt(5)));
    assert_eq!(VarInt::from_usize(1usize << 31), None);
    assert_eq!(VarInt::from_i64(-5), Some(VarInt(-5)));
    assert_eq!(VarLong(i64::MAX).checked_add(VarLong(1)), None);
}

#[test]
fn nbt_negative_lengths_are_rejected_before_reading() {
    let bad = vec![0x0A, 0x00, 0x00, 0x07, 0x00, 0x00, 0xFF, 0xFF, 0xFF, 0xFF];
    assert_eq!(NbtTag::new(bad.clone()).map(|_| ()), Err(CodecError::InvalidNbt));
    assert_eq!(dec::<NbtTag>(bad).map(|_| ()), Err(CodecError::InvalidNbt));
    let bad_list = vec![0x0A, 0x00, 0x00, 0x09, 0x00, 0x00, 0x0A, 0x80, 0x00, 0x00, 0x00, 0x00];
    assert_eq!(dec::<NbtTag>(bad_list).map(|_| ()), Err(CodecError::InvalidNbt));
    let huge_list = vec![0x0A, 0x00, 0x00, 0x09, 0x00, 0x00, 0x00, 0x7F, 0xFF, 0xFF, 0xFF, 0x00];
    assert_eq!(dec::<NbtTag>(huge_list).map(|_| ()), Err(CodecError::InvalidNbt));
}

fn nested_compounds(n: usize) -> Vec<u8> {
    let mut v = vec![0x0A, 0x00, 0x00];
    for _ in 0..n {
        v.extend_from_slice(&[0x0A, 0x00, 0x00]);
    }
    for _ in 0..=n {
        v.push(0x00);
    }
    v
}

#[test]
fn nbt_nesting_is_bounded() {
    let ok = nested_compounds(100);
    assert_eq!(dec::<NbtTag>(ok.clone()).unwrap().bytes().to_vec(), ok);
    assert_eq!(dec::<NbtTag>(nested_compounds(600)).map(|_| ()), Err(CodecError::InvalidNbt));
}

#[test]
fn option_size_is_the_payloads() {
    let long: Option<LoginNameString> = Some(LoginNameString::new(String::from("abcdefghijklmnopq")));
    assert_eq!(long.size(), Ok(VarInt(18)));
    assert_eq!(None::<VarInt>.size(), Ok(VarInt(0)));
}

#[test]
fn overlong_stops_after_the_limit() {
    let mut r = ByteReader::new(vec![0x80, 0x80, 0x80, 0x80, 0x80, 0x01, 0x02]);
    assert_eq!(VarInt::decode(&mut r), Err(CodecError::OverlongVarNum));
    assert_eq!(r.position(), 5);
    let mut bytes = vec![0xFF; 10];
    bytes.push(0x01);
    let mut r = ByteReader::new(bytes);
    assert_eq!(VarLong::decode(&mut r), Err(CodecError::OverlongVarNum));
    assert_eq!(r.position(), 10);
}

#[test]
fn failed_encode_writes_nothing() {
    let names = vec![
        LoginNameString::new(String::from("ok")),
        LoginNameString::new(String::from("abcdefghijklmnopq")),
        LoginNameString::new(String::from("late")),
    ];
    let mut out = vec![0xEE];
    assert_eq!(names.encode(&mut out), Err(CodecError::StringLength));
    assert_eq!(out, vec![0xEE]);
    let missing: (bool, Option<VarInt>) = (true, None);
    assert_eq!(missing.encode(&mut out), Err(CodecError::MissingPayload));
    assert_eq!(out, vec![0xEE]);
}

#[test]
fn varlong_checked_arithmetic_and_conversions() {
    assert_eq!(VarLong(i64::MIN).checked_sub(VarLong(1)), None);
    assert_eq!(VarLong(7).checked_sub(VarLong(9)), Some(VarLong(-2)));
    assert_eq!(VarLong(1 << 32).checked_mul(VarLong(1 << 32)), None);
    assert_eq!(VarLong(-3).checked_mul(VarLong(4)), Some(VarLong(-12)));
    assert_eq!(VarLong::from_u64(u64::MAX), None);
    assert_eq!(VarLong::from_u64(5), Some(VarLong(5)));
    assert_eq!(VarLong::from_usize(6), Some(VarLong(6)));
    assert_eq!(VarLong(1 << 40).to_varint(), None);
    assert_eq!(VarLong(-9).to_varint(), Some(VarInt(-9)));
    assert_eq!(VarLong::from(3i64), VarLong(3));
}

#[test]
fn string_conversions() {
    let id: Identifier = String::from("a:b").into();
    assert_eq!(id.string(), "a:b");
    let back: String = id.into();
    assert_eq!(back, "a:b");
}
