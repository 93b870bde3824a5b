use json_reader::check_is_valid_json;
use json_reader::from_json_string;
use json_reader::JsonToken;

fn key(s: &str) -> JsonToken {
    JsonToken::JsonKey(String::from(s))
}

fn strv(s: &str) -> JsonToken {
    JsonToken::JsonString(String::from(s))
}

fn num(s: &str) -> JsonToken {
    JsonToken::JsonNum(String::from(s))
}

#[test]
fn end_to_end_flat_object() {
    let text = String::from("{\"hello\":\"world\",\"num\":123,\"bool\":true}");
    let map = from_json_string(&text).unwrap();
    assert_eq!(map.get(&String::from("hello")), Some(&strv("world")));
    assert_eq!(map.get(&String::from("num")), Some(&num("123")));
    assert_eq!(map.get(&String::from("bool")), Some(&JsonToken::JsonBool(true)));
    assert_eq!(map.get(&String::from("missing")), None);
}

#[test]
fn end_to_end_nested_containers() {
    let text = String::from("{\"a\":[1,[2,true]]}");
    let map = from_json_string(&text).unwrap();
    let expected = JsonToken::JsonArr(vec![
        num("1"),
        JsonToken::JsonArr(vec![num("2"), JsonToken::JsonBool(true)]),
    ]);
    assert_eq!(map.get(&String::from("a")), Some(&expected));
}

#[test]
fn unclosed_object_is_rejected() {
    let text = String::from("{\"a\":\"b\"");
    assert!(from_json_string(&text).is_err());
}

#[test]
fn empty_input_is_rejected() {
    let text = String::from("");
    assert!(from_json_string(&text).is_err());
}

#[test]
fn array_root_is_rejected() {
    let text = String::from("[1, 2, true]");
    assert!(from_json_string(&text).is_err());
}

#[test]
fn nested_object_parses_end_to_end() {
    let text = String::from("{\"object\": {\"hello\": \"world\"}}");
    let map = from_json_string(&text).unwrap();
    let inner = match map.get(&String::from("object")) {
        Some(JsonToken::JsonObj(m)) => m,
        other => panic!("expected an object, got {:?}", other),
    };
    assert_eq!(inner.get(&String::from("hello")), Some(&strv("world")));
}

#[test]
fn validator_accepts_balanced_tokens() {
    let tokens = vec![
        JsonToken::JsonObjBeg,
        key("k"),
        strv("v"),
        JsonToken::JsonObjEnd,
    ];
    assert!(check_is_valid_json(&tokens));
}

#[test]
fn validator_rejects_odd_object_count() {
    let tokens = vec![JsonToken::JsonObjBeg, key("a"), strv("b")];
    assert!(!check_is_valid_json(&tokens));
}

#[test]
fn validator_rejects_odd_array_count() {
    let tokens = vec![
        JsonToken::JsonObjBeg,
        key("a"),
        JsonToken::JsonArrBeg,
        num("1"),
        JsonToken::JsonObjEnd,
    ];
    assert!(!check_is_valid_json(&tokens));
}

#[test]
fn validator_rejects_invalid_sentinel() {
    let tokens = vec![
        JsonToken::JsonObjBeg,
        key("a"),
        JsonToken::JsonInvalid,
        JsonToken::JsonObjEnd,
    ];
    assert!(!check_is_valid_json(&tokens));
}

#[test]
fn validator_rejects_key_without_value() {
    let tokens = vec![JsonToken::JsonObjBeg, key("a"), JsonToken::JsonObjEnd];
    assert!(!check_is_valid_json(&tokens));
}

#[test]
fn duplicate_keys_last_write_wins() {
    let text = String::from("{\"k\":\"first\",\"k\":\"second\"}");
    let map = from_json_string(&text).unwrap();
    assert_eq!(map.get(&String::from("k")), Some(&strv("second")));
}

#[test]
fn mismatched_nesting_passes_count_check_but_fails_build() {
    // Counts balance independently, so the count-based check accepts;
    // the builder then finds no matching closer and the parse fails.
    let tokens = vec![
        JsonToken::JsonArrBeg,
        JsonToken::JsonObjEnd,
        JsonToken::JsonObjBeg,
        JsonToken::JsonArrEnd,
    ];
    assert!(check_is_valid_json(&tokens));
    let text = String::from("[}{]");
    assert!(from_json_string(&text).is_err());
}

#[test]
fn single_digit_before_brace_consumes_it() {
    // The numeric scan consumes one character past a single digit, so the
    // closing brace right after it never becomes a token and the input is
    // rejected as unbalanced.
    let text = String::from("{\"n\": 1}");
    assert_eq!(
        vec![JsonToken::JsonObjBeg, key("n"), num("1")],
        json_reader::tokenize_json_string(&text)
    );
    assert!(from_json_string(&text).is_err());
}
