use json_reader::InvalidJsonUnwrap;
use json_reader::JsonMap;
use json_reader::JsonToken;

#[test]
fn as_str_returns_held_string() {
    let t = JsonToken::JsonString(String::from("payload"));
    assert_eq!(t.as_str(), Ok("payload"));
}

#[test]
fn as_str_mismatch_is_typed_error() {
    let t = JsonToken::JsonBool(true);
    assert_eq!(t.as_str(), Err(InvalidJsonUnwrap));
}

#[test]
fn as_num_returns_literal_text() {
    let t = JsonToken::JsonNum(String::from("3.14"));
    assert_eq!(t.as_num(), Ok(String::from("3.14")));
}

#[test]
fn as_num_mismatch_is_typed_error() {
    let t = JsonToken::JsonString(String::from("3.14"));
    assert_eq!(t.as_num(), Err(InvalidJsonUnwrap));
}

#[test]
fn as_bool_returns_held_boolean() {
    assert_eq!(JsonToken::JsonBool(false).as_bool(), Ok(false));
    assert_eq!(JsonToken::JsonBool(true).as_bool(), Ok(true));
}

#[test]
fn as_bool_mismatch_is_typed_error() {
    let t = JsonToken::JsonNum(String::from("1"));
    assert_eq!(t.as_bool(), Err(InvalidJsonUnwrap));
}

#[test]
fn as_map_returns_held_object() {
    let mut m = JsonMap::new();
    m.insert(String::from("k"), JsonToken::JsonBool(true));
    let t = JsonToken::JsonObj(m);
    let copy = t.as_map().unwrap();
    assert_eq!(copy.get(&String::from("k")), Some(&JsonToken::JsonBool(true)));
}

#[test]
fn as_map_always_fails_on_non_objects() {
    assert!(JsonToken::JsonString(String::from("s")).as_map().is_err());
    assert!(JsonToken::JsonNum(String::from("1")).as_map().is_err());
    assert!(JsonToken::JsonBool(true).as_map().is_err());
    assert!(JsonToken::JsonArr(vec![]).as_map().is_err());
    assert!(JsonToken::JsonArrBeg.as_map().is_err());
    assert!(JsonToken::JsonObjEnd.as_map().is_err());
    assert!(JsonToken::JsonInvalid.as_map().is_err());
    assert!(JsonToken::JsonKey(String::from("k")).as_map().is_err());
}

#[test]
fn as_vec_returns_held_array() {
    let t = JsonToken::JsonArr(vec![JsonToken::JsonBool(true)]);
    assert_eq!(t.as_vec(), Ok(vec![JsonToken::JsonBool(true)]));
}

#[test]
fn as_vec_mismatch_is_typed_error() {
    let t = JsonToken::JsonObj(JsonMap::new());
    assert_eq!(t.as_vec(), Err(InvalidJsonUnwrap));
}

#[test]
fn is_value_separates_values_from_markers() {
    assert!(JsonToken::JsonString(String::from("s")).is_value());
    assert!(JsonToken::JsonNum(String::from("1")).is_value());
    assert!(JsonToken::JsonBool(false).is_value());
    assert!(JsonToken::JsonObj(JsonMap::new()).is_value());
    assert!(JsonToken::JsonArr(vec![]).is_value());
    assert!(!JsonToken::JsonKey(String::from("k")).is_value());
    assert!(!JsonToken::JsonArrBeg.is_value());
    assert!(!JsonToken::JsonArrEnd.is_value());
    assert!(!JsonToken::JsonObjBeg.is_value());
    assert!(!JsonToken::JsonObjEnd.is_value());
    assert!(!JsonToken::JsonInvalid.is_value());
}

#[test]
fn map_insert_overwrites_in_place() {
    let mut m = JsonMap::new();
    m.insert(String::from("k"), JsonToken::JsonBool(true));
    m.insert(String::from("k"), JsonToken::JsonBool(false));
    assert_eq!(m.get(&String::from("k")), Some(&JsonToken::JsonBool(false)));
}

#[test]
fn map_get_missing_key_is_none() {
    let m = JsonMap::new();
    assert_eq!(m.get(&String::from("k")), None);
}
