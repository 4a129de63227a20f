use tens::text::{decode_tens_text, encode_tens_text};
use tens::value::Value;

fn s(x: &str) -> Value {
    Value::Str(x.to_string())
}

fn obj(fields: Vec<(&str, Value)>) -> Value {
    Value::Obj(fields.into_iter().map(|(k, v)| (k.to_string(), v)).collect())
}

#[test]
fn test_tens_text_basic() {
    let data = Value::Arr(vec![
        obj(vec![("name", s("Alice")), ("age", Value::Int(30))]),
        obj(vec![("name", s("Bob")), ("age", Value::Int(25))]),
    ]);
    let text = encode_tens_text(&data, None).unwrap();
    assert!(text.starts_with("@version 1"));
    assert!(text.contains("@schema"));
    assert!(text.contains("Alice"));
    assert!(text.contains("Bob"));
}

#[test]
fn test_tens_text_dict_dedup() {
    let data = Value::Arr(vec![
        obj(vec![("status", s("active")), ("name", s("A"))]),
        obj(vec![("status", s("active")), ("name", s("B"))]),
        obj(vec![("status", s("active")), ("name", s("C"))]),
    ]);
    let text = encode_tens_text(&data, None).unwrap();
    assert!(text.contains("@dict"));
    assert!(text.contains("active"));
    // "active" appears 3 times, so the records reference @0
    assert!(text.contains("@0"));
}

#[test]
fn test_tens_text_roundtrip() {
    let data = Value::Arr(vec![
        obj(vec![("name", s("Alice")), ("score", Value::Int(95))]),
        obj(vec![("name", s("Bob")), ("score", Value::Int(88))]),
    ]);
    let text = encode_tens_text(&data, None).unwrap();
    let decoded = decode_tens_text(&text).unwrap();
    match decoded {
        Value::Arr(arr) => {
            assert_eq!(arr.len(), 2);
            match &arr[0] {
                Value::Obj(fields) => {
                    let name = fields.iter().find(|(k, _)| k == "name").map(|(_, v)| v);
                    assert_eq!(name, Some(&s("Alice")));
                }
                _ => panic!("expected a record object"),
            }
            match &arr[1] {
                Value::Obj(fields) => {
                    let score = fields.iter().find(|(k, _)| k == "score").map(|(_, v)| v);
                    assert_eq!(score, Some(&Value::Int(88)));
                }
                _ => panic!("expected a record object"),
            }
        }
        _ => panic!("expected an array of records"),
    }
}

#[test]
fn test_tens_text_null_value() {
    let data = Value::Arr(vec![obj(vec![("val", Value::Null)])]);
    let text = encode_tens_text(&data, None).unwrap();
    assert!(text.contains("  val _"));
}
