//! The text scanner: field extraction, escaping, and object extraction.

use notekeep::scan::{
    extract_objects, json_escape, json_get_bool, json_get_string, json_get_string_array,
    json_get_u128, json_get_u64,
};

#[test]
fn string_field_with_escapes() {
    let body = br#"{"content":"a\"b\\c\nd\re\tf"}"#;
    let v = json_get_string(body, b"content").expect("value");
    assert_eq!(v, b"a\"b\\c\nd\re\tf".to_vec());
}

#[test]
fn string_field_unknown_escape_passes_through() {
    let body = br#"{"k":"a\qb"}"#;
    assert_eq!(json_get_string(body, b"k"), Some(b"aqb".to_vec()));
}

#[test]
fn string_field_absent_or_not_a_string() {
    assert_eq!(json_get_string(b"{}", b"k"), None);
    assert_eq!(json_get_string(br#"{"k":5}"#, b"k"), None);
    assert_eq!(json_get_string(br#"{"k":"unterminated"#, b"k"), None);
}

#[test]
fn bool_field() {
    assert_eq!(json_get_bool(br#"{"pinned": true}"#, b"pinned"), Some(true));
    assert_eq!(json_get_bool(br#"{"pinned":false}"#, b"pinned"), Some(false));
    assert_eq!(json_get_bool(br#"{"pinned":"yes"}"#, b"pinned"), None);
    assert_eq!(json_get_bool(br#"{}"#, b"pinned"), None);
}

#[test]
fn string_array_field() {
    let body = br#"{"tags":[ "a" , "b\"x" ,"c" ]}"#;
    let v = json_get_string_array(body, b"tags").expect("value");
    assert_eq!(v, vec![b"a".to_vec(), b"b\"x".to_vec(), b"c".to_vec()]);
    assert_eq!(json_get_string_array(br#"{"tags":[]}"#, b"tags"), Some(vec![]));
    assert_eq!(json_get_string_array(br#"{"tags":["a",5]}"#, b"tags"), None);
    assert_eq!(json_get_string_array(br#"{"tags":"a"}"#, b"tags"), None);
}

#[test]
fn unsigned_fields() {
    assert_eq!(json_get_u64(br#"{"id": 42}"#, b"id"), Some(42));
    assert_eq!(json_get_u64(br#"{"id":18446744073709551615}"#, b"id"), Some(u64::MAX));
    assert_eq!(json_get_u64(br#"{"id":18446744073709551616}"#, b"id"), None);
    assert_eq!(json_get_u64(br#"{"id":x}"#, b"id"), None);
    assert_eq!(
        json_get_u128(br#"{"t":340282366920938463463374607431768211455}"#, b"t"),
        Some(u128::MAX)
    );
    assert_eq!(json_get_u128(br#"{"t":340282366920938463463374607431768211456}"#, b"t"), None);
}

#[test]
fn escape_exact() {
    let out = json_escape(b"a\"b\\c\nd\re\tf");
    assert_eq!(out, b"a\\\"b\\\\c\\nd\\re\\tf".to_vec());
    assert_eq!(json_escape(b"plain"), b"plain".to_vec());
}

#[test]
fn extract_top_level_objects() {
    let text = br#"[{"a":1},{"b":"}{"},{"c":{"d":2}}]"#;
    let objs = extract_objects(text);
    assert_eq!(objs.len(), 3);
    assert_eq!(objs[0], br#"{"a":1}"#.to_vec());
    assert_eq!(objs[1], br#"{"b":"}{"}"#.to_vec());
    assert_eq!(objs[2], br#"{"c":{"d":2}}"#.to_vec());
}

#[test]
fn extract_ignores_unclosed_tail() {
    let text = br#"{"a":1},{"b":2"#;
    let objs = extract_objects(text);
    assert_eq!(objs.len(), 1);
    assert_eq!(objs[0], br#"{"a":1}"#.to_vec());
}

#[test]
fn extract_honours_escaped_quotes() {
    let text = br#"{"a":"x\"}{\"y"}"#;
    let objs = extract_objects(text);
    assert_eq!(objs.len(), 1);
    assert_eq!(objs[0], text.to_vec());
}

#[test]
fn key_lookup_is_plain_substring_search() {
    // A key name inside an earlier string value is found first; the value
    // that follows the next colon is what comes back.
    let body = br#"{"note":"id","id":7}"#;
    assert_eq!(json_get_u64(body, b"id"), Some(7));
}
