use mc_wire::{ByteReader, CodecError, Decodable, Encodable, VarInt};

#[test]
fn test_byte_prim() -> Result<(), CodecError> {
    let mut reader = ByteReader::new(vec![2]);

    let result = u8::decode(&mut reader)?;
    assert_eq!(result, 2);
    Ok(())
}

#[test]
fn test_byte_prim_2() -> Result<(), CodecError> {
    let mut out: Vec<u8> = Vec::new();
    let x = 5u8;
    x.encode(&mut out)?;
    assert_eq!(vec![5], out);
    Ok(())
}

#[test]
fn test_byte_prim_3() -> Result<(), CodecError> {
    let mut reader = ByteReader::new(vec![0b1111_1110]);

    let result = i8::decode(&mut reader)?;
    assert_eq!(result, -2);
    Ok(())
}

#[test]
fn test_byte_prim_4() -> Result<(), CodecError> {
    let mut out: Vec<u8> = Vec::new();
    let x = -2i8;
    x.encode(&mut out)?;
    assert_eq!(vec![0b1111_1110], out);
    Ok(())
}

#[test]
fn mul_var_test() {
    let x = VarInt::from(10);
    assert_eq!(VarInt::from(10), x);
    assert_eq!(Some(VarInt::from(20)), x.checked_mul(VarInt(2)));
    assert_eq!(Some(VarInt::from(30)), x.checked_mul(VarInt(3)));
}

#[test]
fn mc_varint_encode_examples() -> Result<(), CodecError> {
    let vec_pairs = vec![(1, vec![0x1u8])];

    for pair in vec_pairs {
        let mut reader = ByteReader::new(pair.1.clone());
        let result = VarInt::decode(&mut reader)?;
        assert_eq!(pair.0, result.value());

        let mut out: Vec<u8> = Vec::new();
        result.encode(&mut out)?;
        assert_eq!(pair.1, out)
    }
    Ok(())
}
