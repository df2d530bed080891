use mico::{to_string, Mapping, Value};

fn string_mapping(key: &str, value: &str) -> Mapping {
    Mapping::new(key.to_string(), Value::String(value.to_string()))
}

fn list_mapping(key: &str, items: &[&str]) -> Mapping {
    let items: Vec<String> = items.iter().map(|s| s.to_string()).collect();
    Mapping::new(key.to_string(), Value::List(items))
}

#[test]
fn emitter_test_string() {
    let encoded = to_string(&[string_mapping("key", "value")], 0);
    assert_eq!(encoded, "key: value\n");
}

#[test]
fn emitter_test_list() {
    let encoded = to_string(&[list_mapping("key", &["value"])], 0);
    assert_eq!(encoded, "key\n- value\n");
}

#[test]
fn test_list_indent() {
    let encoded = to_string(&[list_mapping("key", &["value1", "value2"])], 2);
    assert_eq!(encoded, "key\n  - value1\n  - value2\n");
}

#[test]
fn emitter_test_empty() {
    let encoded = to_string(&[], 1);
    assert_eq!(encoded, "");
}

#[test]
fn emitter_test_mixed() {
    let encoded = to_string(
        &[
            string_mapping("key1", "value1"),
            list_mapping("key2", &["value2"]),
            string_mapping("key3", "value3"),
            list_mapping("key4", &["value4"]),
        ],
        2,
    );
    assert_eq!(
        encoded,
        "key1: value1\nkey2\n  - value2\nkey3: value3\nkey4\n  - value4\n"
    );
}

#[test]
fn emit_empty_list_entry() {
    let encoded = to_string(&[list_mapping("k", &[])], 3);
    assert_eq!(encoded, "k\n");
}

#[test]
fn emit_empty_key() {
    let encoded = to_string(&[string_mapping("", "v")], 0);
    assert_eq!(encoded, ": v\n");
}

#[test]
fn emitter_new_emit() {
    let emitter = mico::Emitter::new(1);
    let encoded = emitter.emit(&[list_mapping("key", &["a", "b"])]);
    assert_eq!(encoded, "key\n - a\n - b\n");
}
