use tens::binary::{TensDecoder, TensEncoder};
use tens::canon::canonicalize;
use tens::hashing::hash_tens_binary;
use tens::value::Value;
use tens::varint::{decode_varint, encode_varint};

fn s(x: &str) -> Value {
    Value::Str(x.to_string())
}

fn obj(fields: Vec<(&str, Value)>) -> Value {
    Value::Obj(fields.into_iter().map(|(k, v)| (k.to_string(), v)).collect())
}

// ── Varint tests ──

#[test]
fn test_varint_single_byte() {
    let encoded = encode_varint(0);
    assert_eq!(encoded, vec![0]);
    let (val, len) = decode_varint(&encoded);
    assert_eq!(val, 0);
    assert_eq!(len, 1);
}

#[test]
fn test_varint_127() {
    let encoded = encode_varint(127);
    assert_eq!(encoded, vec![127]);
    let (val, _) = decode_varint(&encoded);
    assert_eq!(val, 127);
}

#[test]
fn test_varint_128() {
    let encoded = encode_varint(128);
    assert_eq!(encoded, vec![0x80, 0x01]);
    let (val, len) = decode_varint(&encoded);
    assert_eq!(val, 128);
    assert_eq!(len, 2);
}

#[test]
fn test_varint_300() {
    let encoded = encode_varint(300);
    let (val, _) = decode_varint(&encoded);
    assert_eq!(val, 300);
}

#[test]
fn test_varint_large() {
    let encoded = encode_varint(100_000);
    let (val, _) = decode_varint(&encoded);
    assert_eq!(val, 100_000);
}

// ── Header tests ──

#[test]
fn test_binary_header() {
    let mut enc = TensEncoder::new();
    let bytes = enc.encode(&Value::Null);
    assert_eq!(&bytes[0..5], b"TENS\x02");
}

// ── Null encoding ──

#[test]
fn test_encode_null() {
    let mut enc = TensEncoder::new();
    let bytes = enc.encode(&Value::Null);
    // Header(5) + dict_count varint(1 byte = 0) + NULL opcode(1)
    assert_eq!(bytes.len(), 7);
    assert_eq!(bytes[5], 0);
    assert_eq!(bytes[6], 0x00);
}

// ── Boolean encoding ──

#[test]
fn test_encode_true() {
    let mut enc = TensEncoder::new();
    let bytes = enc.encode(&Value::Bool(true));
    assert_eq!(bytes[6], 0x01);
}

#[test]
fn test_encode_false() {
    let mut enc = TensEncoder::new();
    let bytes = enc.encode(&Value::Bool(false));
    assert_eq!(bytes[6], 0x02);
}

// ── Number encoding ──

#[test]
fn test_encode_int8_zero() {
    let mut enc = TensEncoder::new();
    let bytes = enc.encode(&Value::Int(0));
    assert_eq!(bytes[6], 0x03);
    assert_eq!(bytes[7], 0u8);
}

#[test]
fn test_encode_int8_positive() {
    let mut enc = TensEncoder::new();
    let bytes = enc.encode(&Value::Int(42));
    assert_eq!(bytes[6], 0x03);
    assert_eq!(bytes[7], 42u8);
}

#[test]
fn test_encode_int8_negative() {
    let mut enc = TensEncoder::new();
    let bytes = enc.encode(&Value::Int(-1));
    assert_eq!(bytes[6], 0x03);
    assert_eq!(bytes[7], 0xFFu8);
}

#[test]
fn test_encode_int8_max() {
    let mut enc = TensEncoder::new();
    let bytes = enc.encode(&Value::Int(127));
    assert_eq!(bytes[6], 0x03);
    assert_eq!(bytes[7], 127u8);
}

#[test]
fn test_encode_int8_min() {
    let mut enc = TensEncoder::new();
    let bytes = enc.encode(&Value::Int(-128));
    assert_eq!(bytes[6], 0x03);
    assert_eq!(bytes[7], 0x80u8);
}

#[test]
fn test_encode_int32() {
    let mut enc = TensEncoder::new();
    let bytes = enc.encode(&Value::Int(1000));
    assert_eq!(bytes[6], 0x05);
    let val = i32::from_le_bytes([bytes[7], bytes[8], bytes[9], bytes[10]]);
    assert_eq!(val, 1000);
}

#[test]
fn test_encode_int32_negative() {
    let mut enc = TensEncoder::new();
    let bytes = enc.encode(&Value::Int(-500));
    assert_eq!(bytes[6], 0x05);
    let val = i32::from_le_bytes([bytes[7], bytes[8], bytes[9], bytes[10]]);
    assert_eq!(val, -500);
}

#[test]
fn test_encode_float64() {
    let mut enc = TensEncoder::new();
    let bytes = enc.encode(&Value::Float(3.14f64.to_bits()));
    assert_eq!(bytes[6], 0x06);
    let val = f64::from_le_bytes([
        bytes[7], bytes[8], bytes[9], bytes[10], bytes[11], bytes[12], bytes[13], bytes[14],
    ]);
    assert!((val - 3.14).abs() < f64::EPSILON);
}

// ── String encoding ──

#[test]
fn test_encode_string() {
    let mut enc = TensEncoder::new();
    let bytes = enc.encode(&s("hello"));
    assert_eq!(bytes[5], 1);
    assert_eq!(bytes[6], 5);
    assert_eq!(&bytes[7..12], b"hello");
    assert_eq!(bytes[12], 0x07);
    assert_eq!(bytes[13], 0);
}

#[test]
fn test_string_dedup() {
    let mut enc = TensEncoder::new();
    let bytes = enc.encode(&Value::Arr(vec![s("hello"), s("hello"), s("world")]));
    assert_eq!(bytes[5], 2);
}

// ── Array encoding ──

#[test]
fn test_encode_empty_array() {
    let mut enc = TensEncoder::new();
    let bytes = enc.encode(&Value::Arr(vec![]));
    assert_eq!(bytes[6], 0x08);
    assert_eq!(bytes[7], 0);
}

#[test]
fn test_encode_array() {
    let mut enc = TensEncoder::new();
    let bytes = enc.encode(&Value::Arr(vec![Value::Int(1), Value::Int(2), Value::Int(3)]));
    assert_eq!(bytes[6], 0x08);
    assert_eq!(bytes[7], 3);
    assert_eq!(bytes[8], 0x03);
    assert_eq!(bytes[9], 1);
    assert_eq!(bytes[10], 0x03);
    assert_eq!(bytes[11], 2);
    assert_eq!(bytes[12], 0x03);
    assert_eq!(bytes[13], 3);
}

// ── Object encoding ──

#[test]
fn test_encode_empty_object() {
    let mut enc = TensEncoder::new();
    let bytes = enc.encode(&obj(vec![]));
    assert_eq!(bytes[6], 0x09);
    assert_eq!(bytes[7], 0);
}

#[test]
fn test_encode_object_sorted_keys() {
    let mut enc = TensEncoder::new();
    let _bytes = enc.encode(&obj(vec![("b", Value::Int(2)), ("a", Value::Int(1))]));
    let entries = enc.string_table_entries();
    assert_eq!(entries, &["a".to_string(), "b".to_string()][..]);
}

// ── Canonicalization tests ──

#[test]
fn test_canonicalize_sorts_keys() {
    let val = obj(vec![("c", Value::Int(3)), ("a", Value::Int(1)), ("b", Value::Int(2))]);
    let canonical = canonicalize(&val);
    match canonical {
        Value::Obj(fields) => {
            let keys: Vec<&str> = fields.iter().map(|(k, _)| k.as_str()).collect();
            assert_eq!(keys, vec!["a", "b", "c"]);
        }
        _ => panic!("expected an object"),
    }
}

#[test]
fn test_canonicalize_nested_sort() {
    let val = obj(vec![
        ("z", obj(vec![("b", Value::Int(1)), ("a", Value::Int(2))])),
        ("m", Value::Int(3)),
    ]);
    let canonical = canonicalize(&val);
    match canonical {
        Value::Obj(fields) => {
            let outer_keys: Vec<&str> = fields.iter().map(|(k, _)| k.as_str()).collect();
            assert_eq!(outer_keys, vec!["m", "z"]);
            match &fields[1].1 {
                Value::Obj(inner) => {
                    let inner_keys: Vec<&str> = inner.iter().map(|(k, _)| k.as_str()).collect();
                    assert_eq!(inner_keys, vec!["a", "b"]);
                }
                _ => panic!("expected an inner object"),
            }
        }
        _ => panic!("expected an object"),
    }
}

// ── Round-trip tests ──

#[test]
fn test_roundtrip_null() {
    let mut enc = TensEncoder::new();
    let mut dec = TensDecoder::new();
    let bytes = enc.encode(&Value::Null);
    let decoded = dec.decode(&bytes).unwrap();
    assert_eq!(decoded, Value::Null);
}

#[test]
fn test_roundtrip_bool() {
    let mut enc = TensEncoder::new();
    let mut dec = TensDecoder::new();
    let bytes = enc.encode(&Value::Bool(true));
    assert_eq!(dec.decode(&bytes).unwrap(), Value::Bool(true));

    let bytes = enc.encode(&Value::Bool(false));
    assert_eq!(dec.decode(&bytes).unwrap(), Value::Bool(false));
}

#[test]
fn test_roundtrip_integers() {
    let mut enc = TensEncoder::new();
    for val in &[0i64, 1, -1, 42, -128, 127, 128, -500, 1000, 100_000, -100_000] {
        let bytes = enc.encode(&Value::Int(*val));
        let mut dec = TensDecoder::new();
        let decoded = dec.decode(&bytes).unwrap();
        assert_eq!(decoded, Value::Int(*val), "roundtrip failed for {}", val);
    }
}

#[test]
fn test_roundtrip_float() {
    let mut enc = TensEncoder::new();
    let bytes = enc.encode(&Value::Float(3.14159f64.to_bits()));
    let mut dec = TensDecoder::new();
    let decoded = dec.decode(&bytes).unwrap();
    match decoded {
        Value::Float(bits) => {
            assert!((f64::from_bits(bits) - 3.14159).abs() < f64::EPSILON);
        }
        _ => panic!("expected a float"),
    }
}

#[test]
fn test_roundtrip_string() {
    let mut enc = TensEncoder::new();
    let bytes = enc.encode(&s("hello world"));
    let mut dec = TensDecoder::new();
    let decoded = dec.decode(&bytes).unwrap();
    assert_eq!(decoded, s("hello world"));
}

#[test]
fn test_roundtrip_array() {
    let mut enc = TensEncoder::new();
    let original = Value::Arr(vec![
        Value::Int(1),
        s("two"),
        Value::Bool(true),
        Value::Null,
        Value::Float(3.5f64.to_bits()),
    ]);
    let bytes = enc.encode(&original);
    let mut dec = TensDecoder::new();
    let decoded = dec.decode(&bytes).unwrap();

    match decoded {
        Value::Arr(arr) => {
            assert_eq!(arr.len(), 5);
            assert_eq!(arr[0], Value::Int(1));
            assert_eq!(arr[1], s("two"));
            assert_eq!(arr[2], Value::Bool(true));
            assert_eq!(arr[3], Value::Null);
        }
        _ => panic!("expected an array"),
    }
}

#[test]
fn test_roundtrip_object() {
    let mut enc = TensEncoder::new();
    let original = obj(vec![
        ("name", s("Alice")),
        ("age", Value::Int(30)),
        ("active", Value::Bool(true)),
    ]);
    let bytes = enc.encode(&original);
    let mut dec = TensDecoder::new();
    let decoded = dec.decode(&bytes).unwrap();

    match decoded {
        Value::Obj(fields) => {
            let get = |k: &str| fields.iter().find(|(fk, _)| fk == k).map(|(_, v)| v);
            assert_eq!(get("name"), Some(&s("Alice")));
            assert_eq!(get("age"), Some(&Value::Int(30)));
            assert_eq!(get("active"), Some(&Value::Bool(true)));
        }
        _ => panic!("expected an object"),
    }
}

#[test]
fn test_roundtrip_nested() {
    let mut enc = TensEncoder::new();
    let original = obj(vec![
        (
            "users",
            Value::Arr(vec![
                obj(vec![
                    ("name", s("Alice")),
                    (
                        "scores",
                        Value::Arr(vec![Value::Int(100), Value::Int(95), Value::Int(88)]),
                    ),
                ]),
                obj(vec![
                    ("name", s("Bob")),
                    ("scores", Value::Arr(vec![Value::Int(72), Value::Int(85)])),
                ]),
            ]),
        ),
        (
            "meta",
            obj(vec![("version", Value::Int(2)), ("format", s("tens"))]),
        ),
    ]);
    let bytes = enc.encode(&original);
    let mut dec = TensDecoder::new();
    let decoded = dec.decode(&bytes).unwrap();

    match &decoded {
        Value::Obj(fields) => {
            let users = fields.iter().find(|(k, _)| k == "users").map(|(_, v)| v).unwrap();
            match users {
                Value::Arr(us) => {
                    match &us[0] {
                        Value::Obj(u0) => {
                            let name = u0.iter().find(|(k, _)| k == "name").map(|(_, v)| v);
                            assert_eq!(name, Some(&s("Alice")));
                        }
                        _ => panic!("expected a user object"),
                    }
                    match &us[1] {
                        Value::Obj(u1) => {
                            let scores = u1.iter().find(|(k, _)| k == "scores").map(|(_, v)| v);
                            match scores {
                                Some(Value::Arr(sc)) => assert_eq!(sc[0], Value::Int(72)),
                                _ => panic!("expected scores"),
                            }
                        }
                        _ => panic!("expected a user object"),
                    }
                }
                _ => panic!("expected users array"),
            }
            let meta = fields.iter().find(|(k, _)| k == "meta").map(|(_, v)| v).unwrap();
            match meta {
                Value::Obj(m) => {
                    let version = m.iter().find(|(k, _)| k == "version").map(|(_, v)| v);
                    assert_eq!(version, Some(&Value::Int(2)));
                }
                _ => panic!("expected meta object"),
            }
        }
        _ => panic!("expected an object"),
    }
}

// ── Hash tests ──

#[test]
fn test_hash_deterministic() {
    let mut enc = TensEncoder::new();
    let bytes1 = enc.encode(&obj(vec![("a", Value::Int(1))]));
    let bytes2 = enc.encode(&obj(vec![("a", Value::Int(1))]));
    assert_eq!(hash_tens_binary(&bytes1), hash_tens_binary(&bytes2));
}

#[test]
fn test_hash_different_for_different_values() {
    let mut enc = TensEncoder::new();
    let bytes1 = enc.encode(&obj(vec![("a", Value::Int(1))]));
    let bytes2 = enc.encode(&obj(vec![("a", Value::Int(2))]));
    assert_ne!(hash_tens_binary(&bytes1), hash_tens_binary(&bytes2));
}

#[test]
fn test_hash_length() {
    let mut enc = TensEncoder::new();
    let bytes = enc.encode(&obj(vec![("test", s("data"))]));
    let hash = hash_tens_binary(&bytes);
    assert_eq!(hash.len(), 64);
}

// ── Decoder error handling ──

#[test]
fn test_decode_empty_input() {
    let mut dec = TensDecoder::new();
    assert!(dec.decode(&[]).is_err());
}

#[test]
fn test_decode_bad_magic() {
    let mut dec = TensDecoder::new();
    assert!(dec.decode(b"NOPE\x02\x00").is_err());
}

#[test]
fn test_decode_bad_version() {
    let mut dec = TensDecoder::new();
    assert!(dec.decode(b"TENS\x99\x00").is_err());
}
