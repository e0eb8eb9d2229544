use codex_state::json::{json_eq, parse_json, sorted_by_name, stable_json, JsonValue};
use codex_state::text::{
    byte_length, characters, decimal_text, find, not_after, occurrences, same_text, truncated,
};

fn parsed(text: &str) -> JsonValue {
    parse_json(text).unwrap()
}

#[test]
fn stable_text_sorts_members_and_drops_white_space() {
    assert_eq!(
        stable_json(&parsed(
            "{\"b\": [1, 2.50, null, true, false], \"a\": {\"z\": \"\", \"y\": -3}}"
        )),
        "{\"a\":{\"y\":-3,\"z\":\"\"},\"b\":[1,2.5,null,true,false]}"
    );
    assert_eq!(stable_json(&parsed("[]")), "[]");
    assert_eq!(stable_json(&parsed("{}")), "{}");
}

#[test]
fn strings_are_escaped_in_stable_text() {
    let value = JsonValue::Text("\"\\\u{8}\t\n\u{c}\r\u{1}\u{1f}/é😀\u{7f}".to_string());
    assert_eq!(
        stable_json(&value),
        "\"\\\"\\\\\\b\\t\\n\\f\\r\\u0001\\u001f/é😀\u{7f}\""
    );
    assert_eq!(
        stable_json(&value),
        serde_json::to_string("\"\\\u{8}\t\n\u{c}\r\u{1}\u{1f}/é😀\u{7f}").unwrap()
    );
}

#[test]
fn member_order_and_the_sign_of_zero_do_not_matter() {
    assert!(json_eq(
        &parsed("{\"a\": 1, \"b\": [{\"c\": 2, \"d\": 3}]}"),
        &parsed("{\"b\": [{\"d\": 3, \"c\": 2}], \"a\": 1}")
    ));
    assert!(json_eq(&parsed("[-0.0]"), &parsed("[0.0]")));
    assert_ne!(
        stable_json(&parsed("[-0.0]")),
        stable_json(&parsed("[0.0]"))
    );
    assert!(!json_eq(&parsed("1"), &parsed("1.0")));
    assert!(!json_eq(&parsed("[1, 2]"), &parsed("[2, 1]")));
    assert!(!json_eq(&parsed("{\"a\": 1}"), &parsed("{\"a\": 1, \"b\": 1}")));
    assert!(!json_eq(&parsed("null"), &parsed("false")));
}

#[test]
fn values_built_by_hand_may_list_members_in_any_order() {
    let one = JsonValue::Object(vec![
        ("b".to_string(), JsonValue::Null),
        ("a".to_string(), JsonValue::Bool(true)),
    ]);
    assert!(json_eq(&one, &parsed("{\"a\": true, \"b\": null}")));
    assert_eq!(stable_json(&one.clone()), "{\"a\":true,\"b\":null}");
    assert!(matches!(one.get("b"), Some(JsonValue::Null)));
    assert!(one.get("c").is_none());
    assert!(JsonValue::Null.get("a").is_none());
    assert_eq!(
        JsonValue::Text("t".to_string()).text().map(String::as_str),
        Some("t")
    );
    assert!(one.text().is_none());
}

#[test]
fn what_is_not_json_is_not_read() {
    assert!(parse_json("{not json").is_none());
    assert!(parse_json("").is_none());
    assert!(parse_json("1 2").is_none());
    assert!(matches!(parse_json(" 7 "), Some(JsonValue::Number(n)) if n == "7"));
}

#[test]
fn names_are_ordered_by_their_bytes() {
    assert!(not_after("a", "a"));
    assert!(not_after("a", "ab"));
    assert!(!not_after("b", "ab"));
    assert!(not_after("Z", "a"));
    assert!(not_after("z", "é"));
    let sorted = sorted_by_name(vec![
        ("b".to_string(), "1".to_string()),
        ("é".to_string(), "2".to_string()),
        ("a".to_string(), "3".to_string()),
        ("b".to_string(), "4".to_string()),
    ]);
    let order: Vec<&str> = sorted.iter().map(|(_, value)| value.as_str()).collect();
    assert_eq!(order, vec!["3", "1", "4", "2"]);
}

#[test]
fn texts_are_cut_between_characters() {
    assert_eq!(truncated("aé😀b", 0), "");
    assert_eq!(truncated("aé😀b", 2), "a");
    assert_eq!(truncated("aé😀b", 3), "aé");
    assert_eq!(truncated("aé😀b", 6), "aé");
    assert_eq!(truncated("aé😀b", 7), "aé😀");
    assert_eq!(truncated("aé😀b", 100), "aé😀b");
    assert_eq!(byte_length("aé😀b"), 8);
    assert!(same_text("é", "é") && !same_text("é", "e"));
}

#[test]
fn occurrences_do_not_overlap() {
    let count = |hay: &str, needle: &str| occurrences(&characters(hay), &characters(needle));
    assert_eq!(count("aaaa", "aa"), 2);
    assert_eq!(count("aaaaa", "aa"), 2);
    assert_eq!(count("abab", "ab"), 2);
    assert_eq!(count("abab", "b"), 2);
    assert_eq!(count("ab", "abc"), 0);
    assert_eq!(find(&characters("abab"), &characters("ab"), 1), Some(2));
    assert_eq!(find(&characters("abab"), &characters("ab"), 3), None);
}

#[test]
fn numbers_are_written_in_decimal() {
    assert_eq!(decimal_text(0), "0");
    assert_eq!(decimal_text(9), "9");
    assert_eq!(decimal_text(10), "10");
    assert_eq!(decimal_text(12_345), "12345");
    assert_eq!(decimal_text(usize::MAX), usize::MAX.to_string());
}
