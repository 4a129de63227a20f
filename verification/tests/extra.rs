use tens::binary::{DecodeError, TensDecoder, TensEncoder};
use tens::canon::canonicalize;
use tens::hashing::{hash_tens_binary, hex_encode};
use tens::schema::SchemaRegistry;
use tens::strtab::StringTable;
use tens::text::{decode_tens_text, encode_tens_text, TextError};
use tens::value::Value;

fn s(x: &str) -> Value {
    Value::Str(x.to_string())
}

fn obj(fields: Vec<(&str, Value)>) -> Value {
    Value::Obj(fields.into_iter().map(|(k, v)| (k.to_string(), v)).collect())
}

// ── The scenarios of the format description ──

#[test]
fn scenario_encode_null_exact_bytes() {
    let mut enc = TensEncoder::new();
    let bytes = enc.encode(&Value::Null);
    assert_eq!(bytes, vec![0x54, 0x45, 0x4E, 0x53, 0x02, 0x00, 0x00]);
}

#[test]
fn scenario_encode_forty_two() {
    let mut enc = TensEncoder::new();
    let bytes = enc.encode(&Value::Int(42));
    assert_eq!(bytes[5], 0x00);
    assert_eq!(bytes[6], 0x03);
    assert_eq!(bytes[7], 0x2A);
}

#[test]
fn scenario_encode_hello() {
    let mut enc = TensEncoder::new();
    let bytes = enc.encode(&s("hello"));
    assert_eq!(bytes[5], 0x01);
    assert_eq!(bytes[6], 0x05);
    assert_eq!(&bytes[7..12], b"hello");
    assert_eq!(bytes[12], 0x07);
    assert_eq!(bytes[13], 0x00);
}

#[test]
fn scenario_table_order_sorted() {
    let mut enc = TensEncoder::new();
    enc.encode(&obj(vec![("b", Value::Int(2)), ("a", Value::Int(1))]));
    let entries = enc.string_table_entries();
    assert_eq!(entries, &["a".to_string(), "b".to_string()][..]);
}

#[test]
fn scenario_text_dict_index_zero() {
    let data = Value::Arr(vec![
        obj(vec![("status", s("active"))]),
        obj(vec![("status", s("active"))]),
        obj(vec![("status", s("active"))]),
    ]);
    let text = encode_tens_text(&data, None).unwrap();
    assert!(text.contains("@dict active"));
    assert_eq!(text.matches("  status @0").count(), 3);
}

#[test]
fn scenario_decode_version_only() {
    let decoded = decode_tens_text("@version 1\n").unwrap();
    assert_eq!(decoded, Value::Arr(vec![]));
}

// ── Roundtrip on concrete values, with the numeric re-classification ──

#[test]
fn roundtrip_reclassifies_integral_float() {
    let mut enc = TensEncoder::new();
    let bytes = enc.encode(&Value::Float(2.0f64.to_bits()));
    // an int-like double travels as an integer opcode
    assert_eq!(bytes[6], 0x03);
    let mut dec = TensDecoder::new();
    assert_eq!(dec.decode(&bytes).unwrap(), Value::Int(2));
}

#[test]
fn roundtrip_large_integer_as_double() {
    let mut enc = TensEncoder::new();
    let big: i64 = 1_000_000_000_000;
    let bytes = enc.encode(&Value::Int(big));
    assert_eq!(bytes[6], 0x06);
    let expected = (big as f64).to_le_bytes();
    assert_eq!(&bytes[7..15], &expected[..]);
}

#[test]
fn roundtrip_rounded_large_integer() {
    // 2^53 + 1 is not exactly representable: the conversion rounds to even
    let mut enc = TensEncoder::new();
    let big: i64 = 9007199254740993;
    let bytes = enc.encode(&Value::Int(big));
    assert_eq!(bytes[6], 0x06);
    let expected = (big as f64).to_le_bytes();
    assert_eq!(&bytes[7..15], &expected[..]);
}

#[test]
fn roundtrip_negative_large_integer() {
    let mut enc = TensEncoder::new();
    for big in &[-1_000_000_000_000i64, i64::MIN, i64::MAX, 123456789012345678] {
        let bytes = enc.encode(&Value::Int(*big));
        assert_eq!(bytes[6], 0x06);
        let expected = (*big as f64).to_le_bytes();
        assert_eq!(&bytes[7..15], &expected[..], "conversion failed for {}", big);
    }
}

// ── Idempotence on concrete values ──

#[test]
fn canonicalize_idempotent_concrete() {
    let v = obj(vec![
        ("b", Value::Arr(vec![Value::Float(f64::NAN.to_bits()), s("x")])),
        ("a", Value::Float((-0.0f64).to_bits())),
    ]);
    let once = canonicalize(&v);
    let twice = canonicalize(&once);
    assert_eq!(once, twice);
}

#[test]
fn canonicalize_rules_concrete() {
    assert_eq!(canonicalize(&Value::Float(f64::NAN.to_bits())), Value::Null);
    assert_eq!(
        canonicalize(&Value::Float(f64::INFINITY.to_bits())),
        Value::Null
    );
    assert_eq!(
        canonicalize(&Value::Float(f64::NEG_INFINITY.to_bits())),
        Value::Null
    );
    assert_eq!(canonicalize(&Value::Float((-0.0f64).to_bits())), Value::Int(0));
    // trailing whitespace goes, line by line
    assert_eq!(canonicalize(&s("a \nb\t")), s("a\nb"));
    // NFKC: the ligature and the fullwidth digit normalize
    assert_eq!(canonicalize(&s("\u{fb01}")), s("fi"));
    assert_eq!(canonicalize(&s("\u{ff11}")), s("1"));
}

// ── Determinism on concrete values ──

#[test]
fn determinism_two_fresh_encoders() {
    let v = obj(vec![
        ("k", Value::Arr(vec![s("a"), s("b"), s("a")])),
        ("n", Value::Int(7)),
    ]);
    let mut enc1 = TensEncoder::new();
    let mut enc2 = TensEncoder::new();
    let b1 = enc1.encode(&v);
    let b2 = enc2.encode(&v);
    assert_eq!(b1, b2);
    assert_eq!(hash_tens_binary(&b1), hash_tens_binary(&b2));
}

// ── Dedup on concrete values ──

#[test]
fn dict_single_entry_many_references() {
    let mut enc = TensEncoder::new();
    let v = Value::Arr(vec![s("dup"), s("dup"), s("dup"), s("dup")]);
    let bytes = enc.encode(&v);
    assert_eq!(bytes[5], 1);
    assert_eq!(enc.string_table_entries().len(), 1);
    // four references to id 0 follow the single dictionary entry
    assert_eq!(&bytes[12..], &[0x07, 0, 0x07, 0, 0x07, 0, 0x07, 0]);
}

// ── Key-order invariance on concrete values ──

#[test]
fn key_order_invariance_concrete() {
    let v1 = obj(vec![("b", Value::Int(2)), ("a", Value::Int(1)), ("c", s("x"))]);
    let v2 = obj(vec![("c", s("x")), ("a", Value::Int(1)), ("b", Value::Int(2))]);
    assert_eq!(canonicalize(&v1), canonicalize(&v2));
    let mut enc1 = TensEncoder::new();
    let mut enc2 = TensEncoder::new();
    assert_eq!(enc1.encode(&v1), enc2.encode(&v2));
}

// ── Decode error variants, one input each ──

#[test]
fn decode_error_variants() {
    let mut dec = TensDecoder::new();
    assert_eq!(dec.decode(b"TEN"), Err(DecodeError::TooShort));
    assert_eq!(dec.decode(b"NOPE\x02\x00"), Err(DecodeError::BadMagic));
    assert_eq!(
        dec.decode(b"TENS\x99\x00"),
        Err(DecodeError::BadVersion { version: 0x99 })
    );
    // one dictionary entry whose declared length runs past the input
    assert_eq!(
        dec.decode(b"TENS\x02\x01\x05ab"),
        Err(DecodeError::Truncated { pos: 7 })
    );
    // one dictionary entry that is not valid UTF-8
    assert_eq!(
        dec.decode(b"TENS\x02\x01\x01\xff\x00"),
        Err(DecodeError::Encoding { pos: 7 })
    );
    // a string reference beyond the dictionary
    assert_eq!(
        dec.decode(b"TENS\x02\x00\x07\x05"),
        Err(DecodeError::Reference { id: 5, dict_len: 0 })
    );
    // an unrecognized opcode
    assert_eq!(
        dec.decode(b"TENS\x02\x00\x42"),
        Err(DecodeError::UnknownOpcode { opcode: 0x42, pos: 6 })
    );
    // a truncated payload
    assert_eq!(
        dec.decode(b"TENS\x02\x00\x03"),
        Err(DecodeError::Truncated { pos: 6 })
    );
}

// ── Text errors ──

#[test]
fn text_schema_error() {
    assert_eq!(encode_tens_text(&Value::Int(3), None), Err(TextError::Schema));
    assert_eq!(
        encode_tens_text(&Value::Arr(vec![Value::Int(1)]), None),
        Err(TextError::Schema)
    );
}

#[test]
fn text_float_error() {
    let v = Value::Arr(vec![obj(vec![("x", Value::Float(3.14f64.to_bits()))])]);
    let r = encode_tens_text(&v, None);
    assert_eq!(
        r,
        Err(TextError::Float { bits: 3.14f64.to_bits() })
    );
}

#[test]
fn text_integral_float_renders() {
    let v = Value::Arr(vec![obj(vec![("x", Value::Float(2.0f64.to_bits()))])]);
    let text = encode_tens_text(&v, None).unwrap();
    assert!(text.contains("  x 2\n"));
}

// ── Text grammar details ──

#[test]
fn text_quoting_and_unquoting() {
    let v = Value::Arr(vec![
        obj(vec![("a", s("has space")), ("b", s("plain")), ("c", s("123"))]),
        obj(vec![("a", s("x\"y\\z")), ("b", s("_")), ("c", s("@7"))]),
    ]);
    let text = encode_tens_text(&v, None).unwrap();
    assert!(text.contains("  a \"has space\"\n"));
    assert!(text.contains("  b plain\n"));
    assert!(text.contains("  c \"123\"\n"));
    assert!(text.contains("  a \"x\\\"y\\\\z\"\n"));
    assert!(text.contains("  b \"_\"\n"));
    assert!(text.contains("  c \"@7\"\n"));
    let decoded = decode_tens_text(&text).unwrap();
    assert_eq!(decoded, canonicalize(&v));
}

#[test]
fn text_repeating_field() {
    let v = Value::Arr(vec![
        obj(vec![("tags", Value::Arr(vec![s("x"), s("y")])), ("n", Value::Int(1))]),
        obj(vec![("tags", Value::Arr(vec![])), ("n", Value::Int(2))]),
    ]);
    let text = encode_tens_text(&v, None).unwrap();
    assert!(text.contains("tags:str[][]"));
    assert!(text.contains("  tags x\n  tags y\n"));
    let decoded = decode_tens_text(&text).unwrap();
    match decoded {
        Value::Arr(arr) => {
            match &arr[0] {
                Value::Obj(fields) => {
                    let tags = fields.iter().find(|(k, _)| k == "tags").map(|(_, v)| v);
                    assert_eq!(tags, Some(&Value::Arr(vec![s("x"), s("y")])));
                }
                _ => panic!("expected a record object"),
            }
        }
        _ => panic!("expected an array"),
    }
}

#[test]
fn text_single_record_decodes_alone() {
    let v = obj(vec![("name", s("solo"))]);
    let text = encode_tens_text(&v, None).unwrap();
    let decoded = decode_tens_text(&text).unwrap();
    assert_eq!(decoded, canonicalize(&v));
}

#[test]
fn text_encoding_label_line() {
    let v = obj(vec![("a", Value::Int(1))]);
    let text = encode_tens_text(&v, Some("dense")).unwrap();
    assert!(text.contains("@encoding dense\n"));
    assert_eq!(decode_tens_text(&text).unwrap(), canonicalize(&v));
}

#[test]
fn text_nested_object_as_json_string() {
    let v = Value::Arr(vec![obj(vec![
        ("meta", obj(vec![("k", Value::Int(1)), ("s", s("v"))])),
        ("n", Value::Int(2)),
    ])]);
    let text = encode_tens_text(&v, None).unwrap();
    assert!(text.contains("  meta \"{\\\"k\\\":1,\\\"s\\\":\\\"v\\\"}\"\n"));
}

#[test]
fn text_decode_comment_and_blank_lines() {
    let input = "@version 1\n# a comment\n@schema data a:num\n\ndata\n  a 5\n";
    let decoded = decode_tens_text(input).unwrap();
    assert_eq!(decoded, obj(vec![("a", Value::Int(5))]));
}

#[test]
fn text_decode_special_number_names_stay_strings() {
    let input = "@version 1\n@schema data a:num\n\ndata\n  a \"NaN\"\ndata\n  a \"Infinity\"\n";
    let decoded = decode_tens_text(input).unwrap();
    match decoded {
        Value::Arr(arr) => {
            assert_eq!(arr[0], obj(vec![("a", s("NaN"))]));
            assert_eq!(arr[1], obj(vec![("a", s("Infinity"))]));
        }
        _ => panic!("expected an array"),
    }
}

#[test]
fn text_decode_dict_reference_fallback() {
    let input = "@version 1\n@schema data a:str\n@dict one two\n\ndata\n  a @1\ndata\n  a @9\n";
    let decoded = decode_tens_text(input).unwrap();
    match decoded {
        Value::Arr(arr) => {
            assert_eq!(arr[0], obj(vec![("a", s("two"))]));
            assert_eq!(arr[1], obj(vec![("a", s("@9"))]));
        }
        _ => panic!("expected an array"),
    }
}

// ── The string table ──

#[test]
fn string_table_idempotent_add() {
    let mut t = StringTable::new();
    let a = t.add("x");
    let b = t.add("y");
    let c = t.add("x");
    assert_eq!(a, 0);
    assert_eq!(b, 1);
    assert_eq!(c, 0);
    assert_eq!(t.len(), 2);
    assert_eq!(t.entries(), &["x".to_string(), "y".to_string()][..]);
}

// ── The schema registry ──

#[test]
fn schema_registry_set_equal_keys_same_id() {
    let mut reg = SchemaRegistry::new();
    let keys1 = vec!["b".to_string(), "a".to_string()];
    let types1 = vec!["num".to_string(), "str".to_string()];
    let keys2 = vec!["a".to_string(), "b".to_string()];
    let types2 = vec!["str".to_string(), "num".to_string()];
    let (id1, new1) = reg.get_or_register(&keys1, &types1);
    let (id2, new2) = reg.get_or_register(&keys2, &types2);
    assert_eq!(id1, 1);
    assert!(new1);
    assert_eq!(id2, 1);
    assert!(!new2);
    let (id3, new3) = reg.get_or_register(&["c".to_string()], &["num".to_string()]);
    assert_eq!(id3, 2);
    assert!(new3);
    let schema = reg.get(1).unwrap();
    assert_eq!(schema.keys, vec!["a".to_string(), "b".to_string()]);
    assert_eq!(schema.field_types, vec!["str".to_string(), "num".to_string()]);
    assert!(reg.get(0).is_none());
    assert!(reg.get(3).is_none());
    assert_eq!(reg.all().len(), 2);
}

// ── Hashing ──

#[test]
fn hex_encode_exact() {
    assert_eq!(hex_encode(&[0x00, 0xff, 0x1a]), "00ff1a");
    assert_eq!(hex_encode(&[]), "");
}

#[test]
fn sha256_known_answer() {
    // the digest of the empty input
    assert_eq!(
        hash_tens_binary(b""),
        "e3b0c44298fc1c149afbf4c8996fb92427ae41e4649b934ca495991b7852b855"
    );
    // the digest of "abc"
    assert_eq!(
        hash_tens_binary(b"abc"),
        "ba7816bf8f01cfea414140de5dae2223b00361a396177a9cb410ff61f20015ad"
    );
}

// ── Binary decode of duplicate keys keeps the last write ──

#[test]
fn decode_duplicate_keys_last_wins() {
    // dictionary ["k"], object with the key twice: 1 then 2
    let bytes = b"TENS\x02\x01\x01k\x09\x02\x00\x03\x01\x00\x03\x02";
    let mut dec = TensDecoder::new();
    let decoded = dec.decode(bytes).unwrap();
    assert_eq!(decoded, obj(vec![("k", Value::Int(2))]));
}
