use txkv::kvs::{DeserializableValue, SerializableValue};

#[test]
fn test_serialize_byte_vec() {
    let mut sink = Vec::new();
    let input = vec![0, 5, 4, 2, 6, 255, 128, 9];
    input.serialize(&mut sink);
    let output = Vec::<u8>::deserialize(&sink).unwrap();
    assert_eq!(input, output);
}

#[test]
fn test_serialize_byte_slice() {
    let mut sink = Vec::new();
    let input: &[u8] = &[0, 255, 128, 3, 16];
    input.serialize(&mut sink);
    let output = Vec::<u8>::deserialize(&sink).unwrap();
    assert_eq!(input, &output[..]);
}

#[test]
fn value_test_serialize_bool() {
    let mut sink = Vec::new();
    let (b1, b2) = (true, false);
    b1.serialize(&mut sink);
    b2.serialize(&mut sink);
    let out1 = bool::deserialize(&sink[0..1]).unwrap();
    let out2 = bool::deserialize(&sink[1..2]).unwrap();
    assert_eq!(b1, out1);
    assert_eq!(b2, out2);
}

#[test]
fn value_test_serialize_byte() {
    let mut sink = Vec::new();
    let input = 5u8;
    input.serialize(&mut sink);
    let output = u8::deserialize(&sink).unwrap();
    assert_eq!(input, output);
}

#[test]
fn value_test_serialize_u16() {
    let mut sink = Vec::new();
    let input = 598u16;
    input.serialize(&mut sink);
    let output = u16::deserialize(&sink).unwrap();
    assert_eq!(input, output);
}

#[test]
fn value_test_serialize_i16() {
    let mut sink = Vec::new();
    let input = -598i16;
    input.serialize(&mut sink);
    let output = i16::deserialize(&sink).unwrap();
    assert_eq!(input, output);
}

#[test]
fn value_test_serialize_u32() {
    let mut sink = Vec::new();
    let input = 10456u32;
    input.serialize(&mut sink);
    let output = u32::deserialize(&sink).unwrap();
    assert_eq!(input, output);
}

#[test]
fn value_test_serialize_i32() {
    let mut sink = Vec::new();
    let input = -10456i32;
    input.serialize(&mut sink);
    let output = i32::deserialize(&sink).unwrap();
    assert_eq!(input, output);
}

#[test]
fn value_test_serialize_u64() {
    let mut sink = Vec::new();
    let input = 1041230978056u64;
    input.serialize(&mut sink);
    let output = u64::deserialize(&sink).unwrap();
    assert_eq!(input, output);
}

#[test]
fn value_test_serialize_i64() {
    let mut sink = Vec::new();
    let input = -1041230978056i64;
    input.serialize(&mut sink);
    let output = i64::deserialize(&sink).unwrap();
    assert_eq!(input, output);
}

#[test]
fn test_serialize_str_slice() {
    let mut sink = Vec::new();
    let input = &"xyzabcd 123456";
    input.serialize(&mut sink);
    let output = String::deserialize(&sink).unwrap();
    assert_eq!(input, &output);
}

#[test]
fn value_test_serialize_string() {
    let mut sink = Vec::new();
    let input = "xyzabcd 123456".to_string();
    input.serialize(&mut sink);
    let output = String::deserialize(&sink).unwrap();
    assert_eq!(input, output);
}
