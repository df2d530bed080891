use mico::{from_str, Mapping, Value};

fn assert_string(mapping: Option<&Mapping>, key: &str, value: &str) {
    let mapping = mapping.unwrap();
    assert_eq!(mapping.key, key);
    assert_eq!(mapping.value, Value::String(value.to_string()));
}

fn assert_list(mapping: Option<&Mapping>, key: &str, value: &[&str]) {
    let mapping = mapping.unwrap();
    let items: Vec<String> = value.iter().map(|s| s.to_string()).collect();
    assert_eq!(mapping.key, key);
    assert_eq!(mapping.value, Value::List(items));
}

#[test]
fn parser_test_string() {
    let mappings = from_str("key: value");
    assert_eq!(mappings.len(), 1);
    assert_string(mappings.get(0), "key", "value");
}

#[test]
fn parser_test_string_with_whitespace() {
    let mappings = from_str(" key  with  whitespace :  value  with  whitespace ");
    assert_eq!(mappings.len(), 1);
    assert_string(
        mappings.get(0),
        "key  with  whitespace",
        "value  with  whitespace",
    );
}

#[test]
fn parser_test_list() {
    let mappings = from_str("key\n- value1\n- value2");
    assert_eq!(mappings.len(), 1);
    assert_list(mappings.get(0), "key", &["value1", "value2"]);
}

#[test]
fn parser_test_list_with_whitespace() {
    let mappings = from_str(" key  with  whitespace \n -  value 1 \n -  value 2 ");
    assert_eq!(mappings.len(), 1);
    assert_list(
        mappings.get(0),
        "key  with  whitespace",
        &["value 1", "value 2"],
    );
}

#[test]
fn parser_test_empty() {
    let mappings = from_str(" ");
    assert_eq!(mappings.len(), 0);
}

#[test]
fn parser_test_empty_lists() {
    let mappings = from_str("key1\nkey2");
    assert_eq!(mappings.len(), 2);
    assert_list(mappings.get(0), "key1", &[]);
    assert_list(mappings.get(1), "key2", &[]);
}

#[test]
fn parser_test_mixed() {
    let mappings = from_str("key1: value1\n \nkey2\n- value2\nkey3: value3\nkey4\n- value4\n");
    assert_eq!(mappings.len(), 4);
    assert_string(mappings.get(0), "key1", "value1");
    assert_list(mappings.get(1), "key2", &["value2"]);
    assert_string(mappings.get(2), "key3", "value3");
    assert_list(mappings.get(3), "key4", &["value4"]);
}

#[test]
fn first_separator_wins() {
    let mappings = from_str("a: b: c");
    assert_eq!(mappings.len(), 1);
    assert_string(mappings.get(0), "a", "b: c");
}

#[test]
fn colon_without_space_opens_list() {
    let mappings = from_str("key:value");
    assert_eq!(mappings.len(), 1);
    assert_list(mappings.get(0), "key:value", &[]);
}

#[test]
fn blank_line_inside_list() {
    let mappings = from_str("key\n- a\n \n- b");
    assert_eq!(mappings.len(), 1);
    assert_list(mappings.get(0), "key", &["a", "b"]);
}

#[test]
fn empty_key_string_entry() {
    let mappings = from_str(": v");
    assert_eq!(mappings.len(), 1);
    assert_string(mappings.get(0), "", "v");
}

#[test]
fn totality_on_odd_input() {
    let mappings = from_str("::::\n- \n-\n:- x\n\n\n  - y: z ");
    assert_eq!(mappings.len(), 4);
    assert_list(mappings.get(0), "::::", &[]);
    assert_list(mappings.get(1), "-", &[]);
    assert_list(mappings.get(2), "-", &[]);
    assert_list(mappings.get(3), ":- x", &["y: z"]);
}

#[test]
fn crlf_lines_are_trimmed() {
    let mappings = from_str("key: value\r\nother\r\n- item\r\n");
    assert_eq!(mappings.len(), 2);
    assert_string(mappings.get(0), "key", "value");
    assert_list(mappings.get(1), "other", &["item"]);
}

#[test]
fn incremental_parse_line() {
    let mut parser = mico::Parser::default();
    parser.parse_line("key: value");
    let mappings = parser.parse("rest\n- item");
    assert_eq!(mappings.len(), 2);
    assert_string(mappings.get(0), "key", "value");
    assert_list(mappings.get(1), "rest", &["item"]);
}
