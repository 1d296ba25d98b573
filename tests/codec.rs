use velocypack::{
    first_from_bytes, from_bytes, push_reverse_varint, push_varint, read_forward_varint,
    read_reverse_varint, is_encodable, to_bytes, Deserializer, Error, Value,
};

fn text(s: &str) -> Value {
    Value::String(s.to_owned())
}

fn object(entries: Vec<(&str, Value)>) -> Value {
    Value::Object(entries.into_iter().map(|(k, v)| (k.to_owned(), v)).collect())
}

#[test]
fn scalars_round_trip() {
    let cases = vec![
        (Value::Null, Value::Null),
        (Value::Bool(true), Value::Bool(true)),
        (Value::Bool(false), Value::Bool(false)),
        (Value::Int(-1000), Value::Int(-1000)),
        (Value::Int(i64::MIN), Value::Int(i64::MIN)),
        (Value::Int(5), Value::UInt(5)),
        (Value::Int(70000), Value::UInt(70000)),
        (Value::UInt(u64::MAX), Value::UInt(u64::MAX)),
        (Value::Double(1.5f64.to_bits()), Value::Double(1.5f64.to_bits())),
        (text(""), text("")),
        (text("héllo"), text("héllo")),
        (text(&"x".repeat(300)), text(&"x".repeat(300))),
    ];
    for (v, back) in cases {
        let b = to_bytes(&v);
        assert_eq!(from_bytes(&b).unwrap(), back);
        assert_eq!(to_bytes(&back), b);
    }
}

#[test]
fn small_ints_are_one_byte() {
    for i in 0..10u64 {
        assert_eq!(to_bytes(&Value::UInt(i)), vec![0x30 + i as u8]);
        assert_eq!(to_bytes(&Value::Int(i as i64)), vec![0x30 + i as u8]);
    }
    assert_eq!(to_bytes(&Value::UInt(10)), vec![0x28, 0x0a]);
}

#[test]
fn declared_length_is_written_length() {
    let nested = object(vec![
        ("list", Value::Array(vec![Value::UInt(1), text("two"), Value::Null])),
        ("flag", Value::Bool(true)),
    ]);
    let b = to_bytes(&nested);
    assert_eq!(b[0], 0x0b);
    assert_eq!(b[1] as usize, b.len());

    // unequal children that need 2-byte fields
    let mut items = Vec::new();
    for i in 0..300u64 {
        items.push(if i % 2 == 0 { Value::UInt(i) } else { text("odd") });
    }
    let b = to_bytes(&Value::Array(items));
    assert_eq!(b[0], 0x07);
    assert_eq!(u16::from_le_bytes([b[1], b[2]]) as usize, b.len());
    assert_eq!(u16::from_le_bytes([b[3], b[4]]), 300);
}

#[test]
fn object_index_follows_key_bytes() {
    // encoded keys: "b" = 41 62, "aa" = 42 61 61, "a" = 41 61
    let o = object(vec![("b", Value::UInt(1)), ("aa", Value::UInt(2)), ("a", Value::UInt(3))]);
    let b = to_bytes(&o);
    assert_eq!(b[0], 0x0b);
    assert_eq!(b[1] as usize, b.len());
    assert_eq!(b[2], 3);
    // payload in the order given; index: "a" at 10, "b" at 3, "aa" at 6
    assert_eq!(&b[3..13], &[0x41, 0x62, 0x31, 0x42, 0x61, 0x61, 0x32, 0x41, 0x61, 0x33]);
    assert_eq!(&b[13..], &[0x0a, 0x03, 0x06]);
    // equal keys keep the order in which they were given
    let dup = object(vec![("k", Value::UInt(1)), ("k", Value::UInt(2))]);
    assert_eq!(to_bytes(&dup), vec![0x0b, 0x0b, 0x02, 0x41, 0x6b, 0x31, 0x41, 0x6b, 0x32, 0x03, 0x06]);
}

#[test]
fn index_only_for_unequal_children() {
    assert_eq!(to_bytes(&Value::Array(vec![text("ab"), text("cd")]))[0], 0x02);
    let b = to_bytes(&Value::Array(vec![text("ab"), text("c")]));
    assert_eq!(b, vec![0x06, 0x0a, 0x02, 0x42, 0x61, 0x62, 0x41, 0x63, 0x03, 0x06]);
}

#[test]
fn varints_round_trip() {
    let mut out = Vec::new();
    push_varint(&mut out, 751);
    assert_eq!(out, vec![0xef, 0x05]);
    assert_eq!(read_forward_varint(&out, 0, out.len()).unwrap(), (751, 2));

    let mut out = vec![0x31, 0x31];
    push_reverse_varint(&mut out, 746);
    assert_eq!(out, vec![0x31, 0x31, 0x05, 0xea]);
    assert_eq!(read_reverse_varint(&out, 0, out.len()).unwrap(), (746, 2));

    for v in [0u64, 1, 127, 128, 16383, 16384, (1u64 << 56) - 1, 1u64 << 63, u64::MAX] {
        let mut f = Vec::new();
        push_varint(&mut f, v);
        f.push(0x99);
        assert_eq!(read_forward_varint(&f, 0, f.len()).unwrap(), (v, f.len() - 1));
        let mut r = vec![0x77];
        push_reverse_varint(&mut r, v);
        assert_eq!(read_reverse_varint(&r, 0, r.len()).unwrap(), (v, r.len() - 1));
    }

    let mut max = Vec::new();
    push_varint(&mut max, u64::MAX);
    assert_eq!(max.len(), 10);
    let too_long = [0x80u8; 10];
    assert_eq!(read_forward_varint(&too_long, 0, 10), Err(Error::Malformed));
    let too_large = [0xff, 0xff, 0xff, 0xff, 0xff, 0xff, 0xff, 0xff, 0xff, 0x02];
    assert_eq!(read_forward_varint(&too_large, 0, 10), Err(Error::Malformed));
    assert_eq!(read_forward_varint(&[0x80, 0x80], 0, 2), Err(Error::Eof));
}

#[test]
fn trailing_bytes_are_counted() {
    assert_eq!(from_bytes(&[0x31, 0x00, 0x00]), Err(Error::TrailingBytes(2)));
    assert_eq!(from_bytes(&[0x02, 0x05, 0x31, 0x32, 0x33, 0x18]), Err(Error::TrailingBytes(1)));
    let (v, rest) = first_from_bytes(&[0x43, 0x66, 0x6f, 0x6f, 0x19, 0x1a]).unwrap();
    assert_eq!(v, text("foo"));
    assert_eq!(rest, &[0x19, 0x1a]);
}

#[test]
fn wide_object_decodes() {
    // 8-byte fields: length 28, one entry "a": 1 at offset 9, count last
    let mut b = vec![0x0e, 28, 0, 0, 0, 0, 0, 0, 0, 0x41, 0x61, 0x31];
    b.extend_from_slice(&9u64.to_le_bytes());
    b.extend_from_slice(&1u64.to_le_bytes());
    assert_eq!(from_bytes(&b).unwrap(), object(vec![("a", Value::UInt(1))]));
}

#[test]
fn cursor_reads_in_order() {
    let bytes = [0x1a, 0x28, 0xff, 0x20, 0x80, 0x02, 0x04, 0x31, 0x32, 0x0b, 0x07, 0x01, 0x41, 0x61, 0x18, 0x03];
    let mut de = Deserializer::from_bytes(&bytes);
    assert_eq!(de.parse_bool(), Ok(true));
    assert_eq!(de.deserialize_u8(), Ok(255));
    assert_eq!(de.deserialize_i8(), Ok(-128));
    assert_eq!(de.deserialize_seq(), Ok(vec![Value::UInt(1), Value::UInt(2)]));
    assert_eq!(de.deserialize_map(), Ok(vec![("a".to_owned(), Value::Null)]));
    assert_eq!(de.end(), Ok(()));
}

#[test]
fn padding_is_skipped() {
    let mut de = Deserializer::from_bytes(&[0x00, 0x00, 0x31]);
    de.consume_padding();
    assert_eq!(de.remaining(), &[0x31]);
    assert_eq!(de.consume_uint(1), Ok(0x31));
    assert_eq!(de.next_byte(), Err(Error::Eof));
}

#[test]
fn ordinary_values_are_encodable() {
    assert!(is_encodable(&Value::Null));
    assert!(is_encodable(&text(&"y".repeat(1000))));
    let nested = object(vec![
        ("list", Value::Array(vec![Value::UInt(1), text("two"), Value::Array(Vec::new())])),
        ("inner", object(vec![("k", Value::Int(-3))])),
    ]);
    assert!(is_encodable(&nested));
}
