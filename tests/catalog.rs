use mc_wire::play_client::{ChunkData, Explosion, SelectAdvancementTab, UnlockRecipes};
use mc_wire::{BigString, ByteReader, CodecError, Decodable, Encodable, Float, Identifier, McString, NbtTag, VarInt};

fn enc<T: Encodable>(v: &T) -> Vec<u8> {
    let mut out = Vec::new();
    v.encode(&mut out).expect("encodes");
    out
}

fn dec<T: Decodable>(bytes: Vec<u8>) -> Result<T, CodecError> {
    let mut r = ByteReader::new(bytes);
    T::decode(&mut r)
}

fn ident(s: &str) -> Identifier {
    Identifier::new(String::from(s))
}

#[test]
fn explosion_triples() {
    let e = Explosion {
        x: Float(1.0f32.to_bits()),
        y: Float(2.0f32.to_bits()),
        z: Float(3.0f32.to_bits()),
        strength: Float(4.0f32.to_bits()),
        records: (VarInt(2), vec![(1, 2, 3), (4, 5, 6)]),
        player_motion_x: Float(0),
        player_motion_y: Float(0),
        player_motion_z: Float(0),
    };
    let bytes = enc(&e);
    let mut expected = Vec::new();
    for v in [1.0f32, 2.0, 3.0, 4.0] {
        expected.extend_from_slice(&v.to_be_bytes());
    }
    expected.extend_from_slice(&[2, 1, 2, 3, 4, 5, 6]);
    expected.extend_from_slice(&[0; 12]);
    assert_eq!(bytes, expected);
    assert_eq!(e.size().unwrap().value() as usize, expected.len());
    let back = dec::<Explosion>(expected).unwrap();
    assert_eq!(back.records, (VarInt(2), vec![(1, 2, 3), (4, 5, 6)]));
    assert_eq!(back.strength, Float(4.0f32.to_bits()));
}

#[test]
fn advancement_tab_tagged_optional() {
    let with = SelectAdvancementTab { has_id: true, optional_identifier: Some(BigString::new(String::from("story/root"))) };
    let bytes = enc(&with);
    assert_eq!(bytes[0], 1);
    assert_eq!(bytes[1] as usize, "story/root".len());
    let back = dec::<SelectAdvancementTab>(bytes).unwrap();
    assert_eq!(back.optional_identifier.unwrap().string(), "story/root");
    let without = SelectAdvancementTab { has_id: false, optional_identifier: None };
    assert_eq!(enc(&without), vec![0]);
    let back = dec::<SelectAdvancementTab>(vec![0, 5, b'x']).unwrap();
    assert!(!back.has_id && back.optional_identifier.is_none());
}

#[test]
fn unlock_recipes_second_list_depends_on_action() {
    let init = UnlockRecipes {
        action: VarInt(0),
        crafting_recipe_book_open: true,
        crafting_recipe_book_filter_active: false,
        smelting_recipe_book_open: false,
        smelting_recipe_book_filter_active: false,
        blast_furnace_recipe_book_open: false,
        blast_furnace_recipe_book_filter_active: false,
        smoker_recipe_book_open: false,
        smoker_recipe_book_filter_active: true,
        recipe_ids: (VarInt(1), vec![ident("a:b")]),
        recipe_ids_2: Some((VarInt(1), vec![ident("c:d")])),
    };
    let bytes = enc(&init);
    assert_eq!(bytes, vec![0, 1, 0, 0, 0, 0, 0, 0, 1, 1, 3, b'a', b':', b'b', 1, 3, b'c', b':', b'd']);
    let back = dec::<UnlockRecipes>(bytes).unwrap();
    assert_eq!(back.recipe_ids_2.unwrap().1[0].string(), "c:d");

    let add = vec![1, 0, 0, 0, 0, 0, 0, 0, 0, 1, 3, b'a', b':', b'b', 1, 3, b'c', b':', b'd'];
    let mut r = ByteReader::new(add);
    let back = UnlockRecipes::decode(&mut r).unwrap();
    assert!(back.recipe_ids_2.is_none());
    assert_eq!(r.position(), 14);
}

#[test]
fn chunk_data_arrays_and_tags() {
    let mut tag = Vec::new();
    nbt::Blob::new().to_writer(&mut tag).unwrap();
    let c = ChunkData {
        chunk_x: -1,
        chunk_z: 2,
        primary_bit_mask: (VarInt(1), vec![5]),
        height_maps: NbtTag::new(tag.clone()).unwrap(),
        biomes: (VarInt(2), vec![VarInt(1), VarInt(300)]),
        data: (VarInt(1), vec![-1]),
        block_entities: (VarInt(0), vec![]),
    };
    let bytes = enc(&c);
    let mut expected = vec![0xff, 0xff, 0xff, 0xff, 0, 0, 0, 2, 1, 0, 0, 0, 0, 0, 0, 0, 5];
    expected.extend_from_slice(&tag);
    expected.extend_from_slice(&[2, 1, 0xAC, 0x02, 1, 0xff, 0]);
    assert_eq!(bytes, expected);
    assert_eq!(c.size().unwrap().value() as usize, expected.len());
    let back = dec::<ChunkData>(expected).unwrap();
    assert_eq!(back.biomes, (VarInt(2), vec![VarInt(1), VarInt(300)]));
    assert_eq!(back.height_maps.bytes().to_vec(), tag);
}
