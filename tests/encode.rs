use std::fmt::Debug;
use txkv::encode::{BytesReader, BytesWriter, Decode, Encode, Error};
use txkv::rdbms::DataType;

fn encode<V>(v: &V) -> Vec<u8>
where
    V: Encode,
{
    let mut w = BytesWriter::new(Vec::new());
    v.encode(&mut w);
    w.into_bytes()
}

fn decode<V>(bytes: &[u8]) -> V
where
    V: Decode,
{
    let mut reader = BytesReader::new(bytes);
    V::decode(&mut reader).unwrap()
}

fn check_encode_and_decode<V>(v: V)
where
    V: Encode + Decode + Debug + Eq,
{
    let bytes = encode(&v);
    let decoded = decode(&bytes);
    assert_eq!(v, decoded);
}

#[test]
fn test_serialize_slice() {
    let slice: &[u8] = &[1, 2, 3, 4, 5];
    let bytes = encode(&slice);
    let decoded: Vec<u8> = decode(&bytes);
    assert_eq!(slice.to_vec(), decoded);
}

#[test]
fn test_serialize_vec() {
    check_encode_and_decode(vec![0, 5, 4, 2, 6, 255, 128, 9]);
}

#[test]
fn encode_test_serialize_bool() {
    check_encode_and_decode(true);
    check_encode_and_decode(false);
}

#[test]
fn encode_test_serialize_byte() {
    check_encode_and_decode(5u8);
}

#[test]
fn encode_test_serialize_u16() {
    check_encode_and_decode(598u16);
}

#[test]
fn encode_test_serialize_i16() {
    check_encode_and_decode(-598i16);
}

#[test]
fn encode_test_serialize_u32() {
    check_encode_and_decode(10456u32);
}

#[test]
fn encode_test_serialize_i32() {
    check_encode_and_decode(-10456i32);
}

#[test]
fn encode_test_serialize_u64() {
    check_encode_and_decode(1041230978056u64);
}

#[test]
fn encode_test_serialize_i64() {
    check_encode_and_decode(-1041230978056i64);
}

#[test]
fn test_serialize_str_ref() {
    let s = &"abcd1234";
    let bytes = encode(s);
    let decoded: String = decode(&bytes);
    assert_eq!(s.to_string(), decoded);
}

#[test]
fn encode_test_serialize_string() {
    check_encode_and_decode("xyzabcd 123456".to_string());
}

#[test]
fn test_read_bytes() {
    let bytes = [1, 2, 3, 4, 5];
    let mut reader = BytesReader::new(&bytes);
    assert_eq!(reader.read(2).unwrap(), &bytes[0..2]);
    assert_eq!(reader.read(3).unwrap(), &bytes[2..]);
}

#[test]
fn test_not_enough_bytes() {
    let bytes = [1, 2];
    let mut reader = BytesReader::new(&bytes);
    assert_eq!(reader.read(3), Err(Error::NotEnoughBytes));
}

#[test]
fn test_write_bytes() {
    let buf = Vec::new();
    let mut writer = BytesWriter::new(buf);
    writer.write(&[1, 2, 3]);
    writer.write(&[4, 5]);
    assert_eq!(writer.bytes(), &[1, 2, 3, 4, 5]);
}

#[test]
fn it_encodes_int64_type() {
    check_encode_and_decode(DataType::Int64);
}
