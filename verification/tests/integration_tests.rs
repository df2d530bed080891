use mico::{from_str, to_string, Mapping, Value};

fn assert_string(mapping: &Mapping, key: &str, value: &str) {
    assert_eq!(mapping.key, key);
    assert_eq!(mapping.value, Value::String(value.to_string()));
}

fn assert_list(mapping: &Mapping, key: &str, value: Vec<&str>) {
    let items: Vec<String> = value.iter().map(|s| s.to_string()).collect();
    assert_eq!(mapping.key, key);
    assert_eq!(mapping.value, Value::List(items));
}

#[test]
fn tests_test_string() {
    let mappings = from_str("key: value");
    assert_eq!(mappings.len(), 1);
    assert_string(&mappings[0], "key", "value");
}

#[test]
fn tests_test_string_with_whitespace() {
    let mappings = from_str(" key  with  whitespace :  value  with  whitespace ");
    assert_eq!(mappings.len(), 1);
    assert_string(
        &mappings[0],
        "key  with  whitespace",
        "value  with  whitespace",
    );
}

#[test]
fn tests_test_list() {
    let mappings = from_str("key\n- item1\n- item2");
    assert_eq!(mappings.len(), 1);
    assert_list(&mappings[0], "key", vec!["item1", "item2"]);
}

#[test]
fn tests_test_list_with_whitespace() {
    let mappings = from_str(" key  with  whitespace \n -  item 1 \n -  item 2 ");
    assert_eq!(mappings.len(), 1);
    assert_list(&mappings[0], "key  with  whitespace", vec!["item 1", "item 2"]);
}

#[test]
fn tests_test_empty_lists() {
    let mappings = from_str("key1\nkey2");
    assert_eq!(mappings.len(), 2);
    assert_list(&mappings[0], "key1", Vec::new());
    assert_list(&mappings[1], "key2", Vec::new());
}

#[test]
fn tests_test_mixed() {
    let mappings = from_str("key1: value1\n \nkey2\n- item1\n- item2\nkey3: value2");
    assert_eq!(mappings.len(), 3);
    assert_string(&mappings[0], "key1", "value1");
    assert_list(&mappings[1], "key2", vec!["item1", "item2"]);
    assert_string(&mappings[2], "key3", "value2");
}

#[test]
fn round_trip_mixed() {
    let text = "a: 1\n\nlist\n- x\n- y: z\nempty\nb: 2\n- tail";
    let parsed = from_str(text);
    let emitted = to_string(&parsed, 4);
    let reparsed = from_str(&emitted);
    assert_eq!(parsed.len(), reparsed.len());
    for (m1, m2) in parsed.iter().zip(reparsed.iter()) {
        assert_eq!(m1.key, m2.key);
        assert_eq!(m1.value, m2.value);
    }
    assert_eq!(to_string(&reparsed, 4), emitted);
}

#[test]
fn round_trip_preserves_duplicate_keys_and_order() {
    let text = "k: 1\nk\n- a\nk: 2";
    let parsed = from_str(text);
    assert_eq!(parsed.len(), 3);
    assert_string(&parsed[0], "k", "1");
    assert_list(&parsed[1], "k", vec!["a"]);
    assert_string(&parsed[2], "k", "2");
    let reparsed = from_str(&to_string(&parsed, 0));
    assert_eq!(reparsed.len(), 3);
    assert_string(&reparsed[0], "k", "1");
    assert_list(&reparsed[1], "k", vec!["a"]);
    assert_string(&reparsed[2], "k", "2");
}
