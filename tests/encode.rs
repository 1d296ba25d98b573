use velocypack::{to_bytes, ArraySerializer, MapSerializer, Serializer, Value};

const U24_MAX: i32 = 16777215;
const U40_MAX: u64 = 1099511627775;
const U48_MAX: u64 = 281474976710655;
const U56_MAX: u64 = 72057594037927935;

const I24_MAX: i32 = 8388607;
const I24_MIN: i32 = -8388608;
const I40_MAX: i64 = 549755813887;
const I40_MIN: i64 = -549755813888;
const I48_MAX: i64 = 140737488355327;
const I48_MIN: i64 = -140737488355328;
const I56_MAX: i64 = 36028797018963967;
const I56_MIN: i64 = -36028797018963968;

fn signed(v: i64) -> Vec<u8> {
    let mut s = Serializer::new();
    s.serialize_i64(v);
    s.into_bytes()
}

fn unsigned(v: u64) -> Vec<u8> {
    let mut s = Serializer::new();
    s.serialize_u64(v);
    s.into_bytes()
}

fn boolean(v: bool) -> Vec<u8> {
    let mut s = Serializer::new();
    s.serialize_bool(v);
    s.into_bytes()
}

fn null() -> Vec<u8> {
    let mut s = Serializer::new();
    s.serialize_unit();
    s.into_bytes()
}

fn double(v: f64) -> Vec<u8> {
    let mut s = Serializer::new();
    s.serialize_double(v.to_bits());
    s.into_bytes()
}

fn string(v: &str) -> Vec<u8> {
    let mut s = Serializer::new();
    s.serialize_str(v);
    s.into_bytes()
}

fn text(s: &str) -> Value {
    Value::String(s.to_owned())
}

fn uints(v: &[u64]) -> Value {
    Value::Array(v.iter().map(|u| Value::UInt(*u)).collect())
}

fn map_of(entries: Vec<(&str, Value)>) -> Value {
    Value::Object(entries.into_iter().map(|(k, v)| (k.to_owned(), v)).collect())
}

#[test]
fn ser_bool_false() {
    assert_eq!(boolean(false), &[0x19]);
}

#[test]
fn ser_bool_true() {
    assert_eq!(boolean(true), &[0x1a]);
}

#[test]
fn ser_i8() {
    // small negative integers
    assert_eq!(signed(-6i8 as i64), &[0x3a]);
    assert_eq!(signed(-5i8 as i64), &[0x3b]);
    assert_eq!(signed(-4i8 as i64), &[0x3c]);
    assert_eq!(signed(-3i8 as i64), &[0x3d]);
    assert_eq!(signed(-2i8 as i64), &[0x3e]);
    assert_eq!(signed(-1i8 as i64), &[0x3f]);

    // small integers
    assert_eq!(signed(0i8 as i64), &[0x30]);
    assert_eq!(signed(1i8 as i64), &[0x31]);
    assert_eq!(signed(2i8 as i64), &[0x32]);
    assert_eq!(signed(3i8 as i64), &[0x33]);
    assert_eq!(signed(4i8 as i64), &[0x34]);
    assert_eq!(signed(5i8 as i64), &[0x35]);
    assert_eq!(signed(6i8 as i64), &[0x36]);
    assert_eq!(signed(7i8 as i64), &[0x37]);
    assert_eq!(signed(8i8 as i64), &[0x38]);
    assert_eq!(signed(9i8 as i64), &[0x39]);

    // signed int, little endian, 1 byte
    assert_eq!(signed(std::i8::MIN as i64), &[0x20, 0x80]);
    assert_eq!(signed(std::i8::MAX as i64), &[0x28, 0x7f]);
    assert_eq!(signed(-7i8 as i64), &[0x20, 0xf9]);
    assert_eq!(signed(10i8 as i64), &[0x28, 0x0a]);
}

#[test]
fn ser_i16() {
    // small negative integers
    assert_eq!(signed(-6i16 as i64), &[0x3a]);
    assert_eq!(signed(-5i16 as i64), &[0x3b]);
    assert_eq!(signed(-4i16 as i64), &[0x3c]);
    assert_eq!(signed(-3i16 as i64), &[0x3d]);
    assert_eq!(signed(-2i16 as i64), &[0x3e]);
    assert_eq!(signed(-1i16 as i64), &[0x3f]);

    // small integers
    assert_eq!(signed(0i16 as i64), &[0x30]);
    assert_eq!(signed(1i16 as i64), &[0x31]);
    assert_eq!(signed(2i16 as i64), &[0x32]);
    assert_eq!(signed(3i16 as i64), &[0x33]);
    assert_eq!(signed(4i16 as i64), &[0x34]);
    assert_eq!(signed(5i16 as i64), &[0x35]);
    assert_eq!(signed(6i16 as i64), &[0x36]);
    assert_eq!(signed(7i16 as i64), &[0x37]);
    assert_eq!(signed(8i16 as i64), &[0x38]);
    assert_eq!(signed(9i16 as i64), &[0x39]);

    // signed int, little endian, 1 byte
    assert_eq!(signed(std::i8::MIN as i16 as i64), &[0x20, 0x80]);
    assert_eq!(signed(std::i8::MAX as i16 as i64), &[0x28, 0x7f]);
    assert_eq!(signed(-7i16 as i64), &[0x20, 0xf9]);
    assert_eq!(signed(10i16 as i64), &[0x28, 0x0a]);

    // signed int, little endian, 2 bytes
    assert_eq!(signed(std::i16::MIN as i64), &[0x21, 0x00, 0x80]);
    assert_eq!(signed(std::i16::MAX as i64), &[0x29, 0xff, 0x7f]);
    assert_eq!(signed(-12345i16 as i64), &[0x21, 0xc7, 0xcf]);
    assert_eq!(signed(12345i16 as i64), &[0x29, 0x39, 0x30]);
}

#[test]
fn test_i32() {
    // small negative integers
    assert_eq!(signed(-6i32 as i64), &[0x3a]);
    assert_eq!(signed(-5i32 as i64), &[0x3b]);
    assert_eq!(signed(-4i32 as i64), &[0x3c]);
    assert_eq!(signed(-3i32 as i64), &[0x3d]);
    assert_eq!(signed(-2i32 as i64), &[0x3e]);
    assert_eq!(signed(-1i32 as i64), &[0x3f]);

    // small integers
    assert_eq!(signed(0i32 as i64), &[0x30]);
    assert_eq!(signed(1i32 as i64), &[0x31]);
    assert_eq!(signed(2i32 as i64), &[0x32]);
    assert_eq!(signed(3i32 as i64), &[0x33]);
    assert_eq!(signed(4i32 as i64), &[0x34]);
    assert_eq!(signed(5i32 as i64), &[0x35]);
    assert_eq!(signed(6i32 as i64), &[0x36]);
    assert_eq!(signed(7i32 as i64), &[0x37]);
    assert_eq!(signed(8i32 as i64), &[0x38]);
    assert_eq!(signed(9i32 as i64), &[0x39]);

    // signed int, little endian, 1 byte
    assert_eq!(signed(std::i8::MIN as i32 as i64), &[0x20, 0x80]);
    assert_eq!(signed(std::i8::MAX as i32 as i64), &[0x28, 0x7f]);
    assert_eq!(signed(-7i32 as i64), &[0x20, 0xf9]);
    assert_eq!(signed(10i32 as i64), &[0x28, 0x0a]);

    // signed int, little endian, 2 bytes
    assert_eq!(signed(std::i16::MIN as i64), &[0x21, 0x00, 0x80]);
    assert_eq!(signed(std::i16::MAX as i64), &[0x29, 0xff, 0x7f]);
    assert_eq!(signed(-12345i32 as i64), &[0x21, 0xc7, 0xcf]);
    assert_eq!(signed(12345i32 as i64), &[0x29, 0x39, 0x30]);

    // signed int, little endian, 3 bytes
    assert_eq!(signed(I24_MAX as i64), &[0x2a, 0xff, 0xff, 0x7f]);
    assert_eq!(signed(I24_MIN as i64), &[0x22, 0x00, 0x00, 0x80]);

    // signed int, little endian, 4 bytes
    assert_eq!(signed(std::i32::MIN as i64), &[0x23, 0x00, 0x00, 0x00, 0x80]);
    assert_eq!(signed(std::i32::MAX as i64), &[0x2b, 0xff, 0xff, 0xff, 0x7f]);
}

#[test]
fn test_i64() {
    // small negative integers
    assert_eq!(signed(-6i64 as i64), &[0x3a]);
    assert_eq!(signed(-5i64 as i64), &[0x3b]);
    assert_eq!(signed(-4i64 as i64), &[0x3c]);
    assert_eq!(signed(-3i64 as i64), &[0x3d]);
    assert_eq!(signed(-2i64 as i64), &[0x3e]);
    assert_eq!(signed(-1i64 as i64), &[0x3f]);

    // small integers
    assert_eq!(signed(0i64 as i64), &[0x30]);
    assert_eq!(signed(1i64 as i64), &[0x31]);
    assert_eq!(signed(2i64 as i64), &[0x32]);
    assert_eq!(signed(3i64 as i64), &[0x33]);
    assert_eq!(signed(4i64 as i64), &[0x34]);
    assert_eq!(signed(5i64 as i64), &[0x35]);
    assert_eq!(signed(6i64 as i64), &[0x36]);
    assert_eq!(signed(7i64 as i64), &[0x37]);
    assert_eq!(signed(8i64 as i64), &[0x38]);
    assert_eq!(signed(9i64 as i64), &[0x39]);

    // signed int, little endian, 1 byte
    assert_eq!(signed(std::i8::MIN as i64 as i64), &[0x20, 0x80]);
    assert_eq!(signed(std::i8::MAX as i64 as i64), &[0x28, 0x7f]);
    assert_eq!(signed(-7i64 as i64), &[0x20, 0xf9]);
    assert_eq!(signed(10i64 as i64), &[0x28, 0x0a]);

    // signed int, little endian, 2 bytes
    assert_eq!(signed(std::i16::MIN as i64), &[0x21, 0x00, 0x80]);
    assert_eq!(signed(std::i16::MAX as i64), &[0x29, 0xff, 0x7f]);
    assert_eq!(signed(-12345i64 as i64), &[0x21, 0xc7, 0xcf]);
    assert_eq!(signed(12345i64 as i64), &[0x29, 0x39, 0x30]);

    // signed int, little endian, 3 bytes
    assert_eq!(signed(I24_MIN as i64), &[0x22, 0x00, 0x00, 0x80]);
    assert_eq!(signed(I24_MAX as i64), &[0x2a, 0xff, 0xff, 0x7f]);

    // signed int, little endian, 4 bytes
    assert_eq!(signed(std::i32::MIN as i64), &[0x23, 0x00, 0x00, 0x00, 0x80]);
    assert_eq!(signed(std::i32::MAX as i64), &[0x2b, 0xff, 0xff, 0xff, 0x7f]);

    // signed int, little endian, 5 bytes
    assert_eq!(signed(I40_MIN as i64), &[0x24, 0x00, 0x00, 0x00, 0x00, 0x80]);
    assert_eq!(signed(I40_MAX as i64), &[0x2c, 0xff, 0xff, 0xff, 0xff, 0x7f]);

    // signed int, little endian, 6 bytes
    assert_eq!(signed(I48_MIN as i64), &[0x25, 0x00, 0x00, 0x00, 0x00, 0x00, 0x80]);
    assert_eq!(signed(I48_MAX as i64), &[0x2d, 0xff, 0xff, 0xff, 0xff, 0xff, 0x7f]);

    // signed int, little endian, 7 bytes
    assert_eq!(signed(I56_MIN as i64), &[0x26, 0x00, 0x00, 0x00, 0x00, 0x00, 0x00, 0x80]);
    assert_eq!(signed(I56_MAX as i64), &[0x2e, 0xff, 0xff, 0xff, 0xff, 0xff, 0xff, 0x7f]);

    // signed int, little endian, 8 bytes
    assert_eq!(signed(std::i64::MIN as i64), &[0x27, 0x00, 0x00, 0x00, 0x00, 0x00, 0x00, 0x00, 0x80]);
    assert_eq!(signed(std::i64::MAX as i64), &[0x2f, 0xff, 0xff, 0xff, 0xff, 0xff, 0xff, 0xff, 0x7f]);
}

#[test]
fn ser_u8() {
    // small integers
    assert_eq!(unsigned(0u8 as u64), &[0x30]);
    assert_eq!(unsigned(1u8 as u64), &[0x31]);
    assert_eq!(unsigned(2u8 as u64), &[0x32]);
    assert_eq!(unsigned(3u8 as u64), &[0x33]);
    assert_eq!(unsigned(4u8 as u64), &[0x34]);
    assert_eq!(unsigned(5u8 as u64), &[0x35]);
    assert_eq!(unsigned(6u8 as u64), &[0x36]);
    assert_eq!(unsigned(7u8 as u64), &[0x37]);
    assert_eq!(unsigned(8u8 as u64), &[0x38]);
    assert_eq!(unsigned(9u8 as u64), &[0x39]);

    // uint, little endian, 1 byte
    assert_eq!(unsigned(10u8 as u64), &[0x28, 0x0a]);
    assert_eq!(unsigned(std::u8::MAX as u64), &[0x28, 0xff]);
}

#[test]
fn test_u16() {
    // small integers
    assert_eq!(unsigned(0u16 as u64), &[0x30]);
    assert_eq!(unsigned(1u16 as u64), &[0x31]);
    assert_eq!(unsigned(2u16 as u64), &[0x32]);
    assert_eq!(unsigned(3u16 as u64), &[0x33]);
    assert_eq!(unsigned(4u16 as u64), &[0x34]);
    assert_eq!(unsigned(5u16 as u64), &[0x35]);
    assert_eq!(unsigned(6u16 as u64), &[0x36]);
    assert_eq!(unsigned(7u16 as u64), &[0x37]);
    assert_eq!(unsigned(8u16 as u64), &[0x38]);
    assert_eq!(unsigned(9u16 as u64), &[0x39]);

    // uint, little endian, 1 byte
    assert_eq!(unsigned(std::u8::MAX as u16 as u64), &[0x28, 0xff]);
    assert_eq!(unsigned(10u16 as u64), &[0x28, 0x0a]);

    // uint, little endian, 2 bytes
    assert_eq!(unsigned(std::u16::MAX as u64), &[0x29, 0xff, 0xff]);
    assert_eq!(unsigned(12345u16 as u64), &[0x29, 0x39, 0x30]);
}

#[test]
fn test_u32() {
    // small integers
    assert_eq!(unsigned(0u32 as u64), &[0x30]);
    assert_eq!(unsigned(1u32 as u64), &[0x31]);
    assert_eq!(unsigned(2u32 as u64), &[0x32]);
    assert_eq!(unsigned(3u32 as u64), &[0x33]);
    assert_eq!(unsigned(4u32 as u64), &[0x34]);
    assert_eq!(unsigned(5u32 as u64), &[0x35]);
    assert_eq!(unsigned(6u32 as u64), &[0x36]);
    assert_eq!(unsigned(7u32 as u64), &[0x37]);
    assert_eq!(unsigned(8u32 as u64), &[0x38]);
    assert_eq!(unsigned(9u32 as u64), &[0x39]);

    // uint, little endian, 1 byte
    assert_eq!(unsigned(std::u8::MAX as u32 as u64), &[0x28, 0xff]);
    assert_eq!(unsigned(10u32 as u64), &[0x28, 0x0a]);

    // uint, little endian, 2 bytes
    assert_eq!(unsigned(std::u16::MAX as u64), &[0x29, 0xff, 0xff]);
    assert_eq!(unsigned(12345u32 as u64), &[0x29, 0x39, 0x30]);

    // uint, little endian, 3 bytes
    assert_eq!(unsigned(I24_MAX as u64), &[0x2a, 0xff, 0xff, 0x7f]);

    // uint, little endian, 4 bytes
    assert_eq!(unsigned(std::u32::MAX as u64), &[0x2b, 0xff, 0xff, 0xff, 0xff]);
}

#[test]
fn test_u64() {
    // small integers
    assert_eq!(unsigned(0u64 as u64), &[0x30]);
    assert_eq!(unsigned(1u64 as u64), &[0x31]);
    assert_eq!(unsigned(2u64 as u64), &[0x32]);
    assert_eq!(unsigned(3u64 as u64), &[0x33]);
    assert_eq!(unsigned(4u64 as u64), &[0x34]);
    assert_eq!(unsigned(5u64 as u64), &[0x35]);
    assert_eq!(unsigned(6u64 as u64), &[0x36]);
    assert_eq!(unsigned(7u64 as u64), &[0x37]);
    assert_eq!(unsigned(8u64 as u64), &[0x38]);
    assert_eq!(unsigned(9u64 as u64), &[0x39]);

    // uint, little endian, 1 byte
    assert_eq!(unsigned(std::u8::MAX as u64 as u64), &[0x28, 0xff]);
    assert_eq!(unsigned(10u64 as u64), &[0x28, 0x0a]);

    // uint, little endian, 2 bytes
    assert_eq!(unsigned(std::u16::MAX as u64), &[0x29, 0xff, 0xff]);
    assert_eq!(unsigned(12345u64 as u64), &[0x29, 0x39, 0x30]);

    // uint, little endian, 3 bytes
    assert_eq!(unsigned(U24_MAX as u64), &[0x2a, 0xff, 0xff, 0xff]);

    // uint, little endian, 4 bytes
    assert_eq!(unsigned(std::u32::MAX as u64), &[0x2b, 0xff, 0xff, 0xff, 0xff]);

    // uint, little endian, 5 bytes
    assert_eq!(unsigned(U40_MAX as u64), &[0x2c, 0xff, 0xff, 0xff, 0xff, 0xff]);

    // uint, little endian, 6 bytes
    assert_eq!(unsigned(U48_MAX as u64), &[0x2d, 0xff, 0xff, 0xff, 0xff, 0xff, 0xff]);

    // uint, little endian, 7 bytes
    assert_eq!(unsigned(U56_MAX as u64), &[0x2e, 0xff, 0xff, 0xff, 0xff, 0xff, 0xff, 0xff]);

    // uint, little endian, 8 bytes
    assert_eq!(unsigned(std::u64::MAX as u64), &[0x2f, 0xff, 0xff, 0xff, 0xff, 0xff, 0xff, 0xff, 0xff]);
}

#[test]
fn ser_f32() {
    assert_eq!(double(0.0f32 as f64), &[0x1b, 0x00, 0x00, 0x00, 0x00, 0x00, 0x00, 0x00, 0x00]);
    assert_eq!(double(1.0f32 as f64), &[0x1b, 0x00, 0x00, 0x00, 0x00, 0x00, 0x00, 0xf0, 0x3f]);
    assert_eq!(double(-1.0f32 as f64), &[0x1b, 0x00, 0x00, 0x00, 0x00, 0x00, 0x00, 0xf0, 0xbf]);
}

#[test]
fn ser_f64() {
    assert_eq!(double(0.0f64), &[0x1b, 0x00, 0x00, 0x00, 0x00, 0x00, 0x00, 0x00, 0x00]);
    assert_eq!(double(1.0f64), &[0x1b, 0x00, 0x00, 0x00, 0x00, 0x00, 0x00, 0xf0, 0x3f]);
    assert_eq!(double(-1.0f64), &[0x1b, 0x00, 0x00, 0x00, 0x00, 0x00, 0x00, 0xf0, 0xbf]);
}

#[test]
fn char() {
    assert_eq!(string(&'a'.to_string()), &[0x41, 0x61]);
    assert_eq!(string(&'?'.to_string()), &[0x41, 0x3f]);
}

#[test]
fn ser_string() {
    assert_eq!(string(""), &[0x40]);
    assert_eq!(string("a"), &[0x41, 0x61]);
    assert_eq!(string("?"), &[0x41, 0x3f]);
    assert_eq!(string("The quick brown fox jumps over the lazy dog."), vec![
        0x6c, 0x54, 0x68, 0x65, 0x20, 0x71, 0x75, 0x69, 0x63, 0x6b, 0x20, 0x62, 0x72, 0x6f, 0x77, 0x6e,
        0x20, 0x66, 0x6f, 0x78, 0x20, 0x6a, 0x75, 0x6d, 0x70, 0x73, 0x20, 0x6f, 0x76, 0x65, 0x72, 0x20,
        0x74, 0x68, 0x65, 0x20, 0x6c, 0x61, 0x7a, 0x79, 0x20, 0x64, 0x6f, 0x67, 0x2e,
    ]);
    assert_eq!(string("AAAAAAAAAAAAAAAAAAAAAAAAAAAAAAAAAAAAAAAAAAAAAAAAAAAAAAAAAAAAAAAAAAAAAAAAAAAAAAAAAAAAAAAAAAAAAAAAAAAAAAAAAAAAAAAAAAAAAAAAAAAAAAAAAAAAAAAAAAAAAAAAAAAAAAA"), vec![
        0xbf, 0x97, 0x00, 0x00, 0x00, 0x00, 0x00, 0x00, 0x00, 0x41, 0x41, 0x41, 0x41, 0x41, 0x41, 0x41,
        0x41, 0x41, 0x41, 0x41, 0x41, 0x41, 0x41, 0x41, 0x41, 0x41, 0x41, 0x41, 0x41, 0x41, 0x41, 0x41,
        0x41, 0x41, 0x41, 0x41, 0x41, 0x41, 0x41, 0x41, 0x41, 0x41, 0x41, 0x41, 0x41, 0x41, 0x41, 0x41,
        0x41, 0x41, 0x41, 0x41, 0x41, 0x41, 0x41, 0x41, 0x41, 0x41, 0x41, 0x41, 0x41, 0x41, 0x41, 0x41,
        0x41, 0x41, 0x41, 0x41, 0x41, 0x41, 0x41, 0x41, 0x41, 0x41, 0x41, 0x41, 0x41, 0x41, 0x41, 0x41,
        0x41, 0x41, 0x41, 0x41, 0x41, 0x41, 0x41, 0x41, 0x41, 0x41, 0x41, 0x41, 0x41, 0x41, 0x41, 0x41,
        0x41, 0x41, 0x41, 0x41, 0x41, 0x41, 0x41, 0x41, 0x41, 0x41, 0x41, 0x41, 0x41, 0x41, 0x41, 0x41,
        0x41, 0x41, 0x41, 0x41, 0x41, 0x41, 0x41, 0x41, 0x41, 0x41, 0x41, 0x41, 0x41, 0x41, 0x41, 0x41,
        0x41, 0x41, 0x41, 0x41, 0x41, 0x41, 0x41, 0x41, 0x41, 0x41, 0x41, 0x41, 0x41, 0x41, 0x41, 0x41,
        0x41, 0x41, 0x41, 0x41, 0x41, 0x41, 0x41, 0x41, 0x41, 0x41, 0x41, 0x41, 0x41, 0x41, 0x41, 0x41,
    ]);
}

#[test]
fn test_bytes() {
    // a byte string has no tag of its own here: it is written as an array of
    // its bytes
    assert_eq!(to_bytes(&uints(&[1, 2, 3])), &[0x02, 0x05, 0x31, 0x32, 0x33]);
}

#[test]
fn none() {
    let o: Option<u32> = None;
    assert!(o.is_none());
    assert_eq!(null(), &[0x18]);
}

#[test]
fn some() {
    let o: Option<bool> = Some(true);
    assert_eq!(boolean(o.unwrap()), &[0x1a]);
}

#[test]
fn ser_unit() {
    assert_eq!(null(), &[0x18]);
}

#[test]
fn unit_struct() {
    assert_eq!(to_bytes(&Value::Null), &[0x18]);
}

#[test]
fn unit_variant() {
    // a unit variant is written as its name
    assert_eq!(string("Red"), &[0x43, 0x52, 0x65, 0x64]);
}

#[test]
fn newtype_struct() {
    // a newtype is written as the value it wraps
    assert_eq!(unsigned(6u8 as u64), &[0x36]);
}

#[test]
fn ser_array_empty() {
    assert_eq!(to_bytes(&Value::Array(Vec::new())), &[0x01]);
}

#[test]
fn ser_array_no_index() {
    assert_eq!(to_bytes(&uints(&[1, 2, 3])), &[0x02, 0x05, 0x31, 0x32, 0x33]);

    let expected: Vec<u8> = vec![
        0x03, 0x02, 0x01, 0x31, 0x31, 0x31, 0x31, 0x31, 0x31, 0x31, 0x31, 0x31, 0x31, 0x31, 0x31, 0x31,
        0x31, 0x31, 0x31, 0x31, 0x31, 0x31, 0x31, 0x31, 0x31, 0x31, 0x31, 0x31, 0x31, 0x31, 0x31, 0x31,
        0x31, 0x31, 0x31, 0x31, 0x31, 0x31, 0x31, 0x31, 0x31, 0x31, 0x31, 0x31, 0x31, 0x31, 0x31, 0x31,
        0x31, 0x31, 0x31, 0x31, 0x31, 0x31, 0x31, 0x31, 0x31, 0x31, 0x31, 0x31, 0x31, 0x31, 0x31, 0x31,
        0x31, 0x31, 0x31, 0x31, 0x31, 0x31, 0x31, 0x31, 0x31, 0x31, 0x31, 0x31, 0x31, 0x31, 0x31, 0x31,
        0x31, 0x31, 0x31, 0x31, 0x31, 0x31, 0x31, 0x31, 0x31, 0x31, 0x31, 0x31, 0x31, 0x31, 0x31, 0x31,
        0x31, 0x31, 0x31, 0x31, 0x31, 0x31, 0x31, 0x31, 0x31, 0x31, 0x31, 0x31, 0x31, 0x31, 0x31, 0x31,
        0x31, 0x31, 0x31, 0x31, 0x31, 0x31, 0x31, 0x31, 0x31, 0x31, 0x31, 0x31, 0x31, 0x31, 0x31, 0x31,
        0x31, 0x31, 0x31, 0x31, 0x31, 0x31, 0x31, 0x31, 0x31, 0x31, 0x31, 0x31, 0x31, 0x31, 0x31, 0x31,
        0x31, 0x31, 0x31, 0x31, 0x31, 0x31, 0x31, 0x31, 0x31, 0x31, 0x31, 0x31, 0x31, 0x31, 0x31, 0x31,
        0x31, 0x31, 0x31, 0x31, 0x31, 0x31, 0x31, 0x31, 0x31, 0x31, 0x31, 0x31, 0x31, 0x31, 0x31, 0x31,
        0x31, 0x31, 0x31, 0x31, 0x31, 0x31, 0x31, 0x31, 0x31, 0x31, 0x31, 0x31, 0x31, 0x31, 0x31, 0x31,
        0x31, 0x31, 0x31, 0x31, 0x31, 0x31, 0x31, 0x31, 0x31, 0x31, 0x31, 0x31, 0x31, 0x31, 0x31, 0x31,
        0x31, 0x31, 0x31, 0x31, 0x31, 0x31, 0x31, 0x31, 0x31, 0x31, 0x31, 0x31, 0x31, 0x31, 0x31, 0x31,
        0x31, 0x31, 0x31, 0x31, 0x31, 0x31, 0x31, 0x31, 0x31, 0x31, 0x31, 0x31, 0x31, 0x31, 0x31, 0x31,
        0x31, 0x31, 0x31, 0x31, 0x31, 0x31, 0x31, 0x31, 0x31, 0x31, 0x31, 0x31, 0x31, 0x31, 0x31, 0x31,
        0x31, 0x31,
    ];
    assert_eq!(to_bytes(&uints(&[1; 255])), expected);

    let a = Value::Array(vec![Value::Array(Vec::new())]);
    assert_eq!(to_bytes(&a), &[0x02, 0x03, 0x01]);

    let a = Value::Array(vec![uints(&[1])]);
    assert_eq!(to_bytes(&a), &[0x02, 0x05, 0x02, 0x03, 0x31]);

    let a = Value::Array(vec![Value::Array(vec![uints(&[1, 2, 3]), uints(&[4, 5, 6]), uints(&[6, 7, 8])])]);
    assert_eq!(to_bytes(&a), &[0x02, 0x13, 0x02, 0x11, 0x02, 0x05, 0x31, 0x32, 0x33, 0x02, 0x05, 0x34, 0x35, 0x36, 0x02, 0x05,
        0x36, 0x37, 0x38]);
}

#[test]
fn ser_array_with_index() {
    let a = uints(&[1, 256]);
    assert_eq!(to_bytes(&a), &[0x06, 0x09, 0x02, 0x31, 0x29, 0x00, 0x01, 0x03, 0x04]);

    let a = Value::Array(vec![Value::UInt(1), text("a")]);
    assert_eq!(to_bytes(&a), &[0x06, 0x08, 0x02, 0x31, 0x41, 0x61, 0x03, 0x04]);
}

#[test]
fn ser_object_empty() {
    assert_eq!(to_bytes(&Value::Object(Vec::new())), &[0x0a]);

    let m = MapSerializer::new();
    let mut out = Serializer::new();
    m.end_map(&mut out);
    assert_eq!(out.into_bytes(), &[0x0a]);
}

#[test]
fn object() {
    let a = map_of(vec![("a", Value::UInt(1)), ("b", Value::UInt(2))]);
    assert_eq!(to_bytes(&a), &[0x0b, 0x0b, 0x02, 0x41, 0x61, 0x31, 0x41, 0x62, 0x32, 0x03, 0x06]);

    let a = map_of(vec![("a", Value::UInt(12)), ("b", Value::Bool(true)), ("c", text("xyz"))]);
    assert_eq!(to_bytes(&a), &[0x0b, 0x13, 0x03, 0x41, 0x61, 0x28, 0x0c, 0x41, 0x62, 0x1a, 0x41, 0x63, 0x43, 0x78, 0x79, 0x7a, 0x03, 0x07, 0x0a]);

    // a map hands over its entries in key order
    let a = map_of(vec![("a", Value::Bool(false)), ("b", Value::Bool(true))]);
    let expected: Vec<u8> = vec![0x0b, 0x0b, 0x02, 0x41, 0x61, 0x19, 0x41, 0x62, 0x1a, 0x03, 0x06];
    assert_eq!(to_bytes(&a), expected);

    // a struct's fields, in declaration order
    let alice = map_of(vec![("name", text("Alice")), ("age", Value::UInt(42)), ("friends", Value::Array(Vec::new()))]);
    let p = map_of(vec![("name", text("Bob")), ("age", Value::UInt(23)), ("friends", Value::Array(vec![alice]))]);
    let expected: Vec<u8> = vec![0x0b, 0x3f, 0x03, 0x44, 0x6e, 0x61, 0x6d, 0x65, 0x43, 0x42, 0x6f, 0x62, 0x43, 0x61, 0x67, 0x65, 0x28, 0x17, 0x47, 0x66, 0x72, 0x69, 0x65, 0x6e, 0x64, 0x73, 0x02, 0x22, 0x0b, 0x20, 0x03, 0x44, 0x6e, 0x61, 0x6d, 0x65, 0x45, 0x41, 0x6c, 0x69, 0x63, 0x65, 0x43, 0x61, 0x67, 0x65, 0x28, 0x2a, 0x47, 0x66, 0x72, 0x69, 0x65, 0x6e, 0x64, 0x73, 0x01, 0x0e, 0x03, 0x14, 0x0c, 0x03, 0x12];
    assert_eq!(to_bytes(&p), expected);

    // the same object through the builders
    let mut m = MapSerializer::new();
    let mut one = Serializer::new();
    one.serialize_u64(1);
    m.serialize_entry("a", one);
    let mut two = Serializer::new();
    two.serialize_u64(2);
    m.serialize_entry("b", two);
    let mut out = Serializer::new();
    m.end_map(&mut out);
    assert_eq!(out.into_bytes(), &[0x0b, 0x0b, 0x02, 0x41, 0x61, 0x31, 0x41, 0x62, 0x32, 0x03, 0x06]);

    let mut arr = ArraySerializer::new();
    let mut x = Serializer::new();
    x.serialize_u64(1);
    arr.serialize_element(x);
    let mut out = Serializer::new();
    arr.end_array(&mut out);
    assert_eq!(out.into_bytes(), &[0x02, 0x03, 0x31]);
}
