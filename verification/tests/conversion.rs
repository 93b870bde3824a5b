use json_reader::json_tokens_to_json_object;
use json_reader::JsonMap;
use json_reader::JsonToken;

fn key(s: &str) -> JsonToken {
    JsonToken::JsonKey(String::from(s))
}

fn strv(s: &str) -> JsonToken {
    JsonToken::JsonString(String::from(s))
}

fn num(s: &str) -> JsonToken {
    JsonToken::JsonNum(String::from(s))
}

#[test]
fn lib_converts_tokens_to_hashmap_containers_following_each_other() {
    let json_token_vec: Vec<JsonToken> = vec![
        JsonToken::JsonObjBeg,
        key("key1"),
        strv("string"),
        key("key2"),
        JsonToken::JsonBool(true),
        key("key3"),
        JsonToken::JsonArrBeg,
        strv("thing1"),
        strv("thing2"),
        JsonToken::JsonArrEnd,
        key("key4"),
        JsonToken::JsonObjBeg,
        key("key1"),
        strv("full test"),
        JsonToken::JsonObjEnd,
        JsonToken::JsonObjEnd,
    ];

    let mut json_map = JsonMap::new();
    let mut inner_map = JsonMap::new();
    inner_map.insert(String::from("key1"), strv("full test"));
    json_map.insert(String::from("key1"), strv("string"));
    json_map.insert(String::from("key2"), JsonToken::JsonBool(true));
    json_map.insert(
        String::from("key3"),
        JsonToken::JsonArr(vec![strv("thing1"), strv("thing2")]),
    );
    json_map.insert(String::from("key4"), JsonToken::JsonObj(inner_map));

    let created_map = match json_tokens_to_json_object(&json_token_vec) {
        JsonToken::JsonObj(map) => map,
        _ => JsonMap::new(),
    };

    assert_eq!(json_map, created_map);
}

#[test]
fn lib_converts_not_nested_tokens_to_hashmap() {
    let json_token_vec: Vec<JsonToken> = vec![
        JsonToken::JsonObjBeg,
        key("hello"),
        strv("world"),
        key("num"),
        num("123"),
        key("bool"),
        JsonToken::JsonBool(true),
        JsonToken::JsonObjEnd,
    ];

    let mut json_map = JsonMap::new();
    json_map.insert(String::from("hello"), strv("world"));
    json_map.insert(String::from("num"), num("123"));
    json_map.insert(String::from("bool"), JsonToken::JsonBool(true));

    let created_map = match json_tokens_to_json_object(&json_token_vec) {
        JsonToken::JsonObj(map) => map,
        _ => JsonMap::new(),
    };

    assert_eq!(json_map, created_map);
}

#[test]
fn lib_converts_tokens_w_array_to_hashmap() {
    let json_token_vec: Vec<JsonToken> = vec![
        JsonToken::JsonObjBeg,
        key("hello"),
        strv("world"),
        key("num"),
        num("123"),
        key("bool"),
        JsonToken::JsonBool(true),
        key("array"),
        JsonToken::JsonArrBeg,
        num("123"),
        JsonToken::JsonBool(false),
        JsonToken::JsonArrEnd,
        JsonToken::JsonObjEnd,
    ];

    let mut json_map = JsonMap::new();
    json_map.insert(String::from("hello"), strv("world"));
    json_map.insert(String::from("num"), num("123"));
    json_map.insert(String::from("bool"), JsonToken::JsonBool(true));
    json_map.insert(
        String::from("array"),
        JsonToken::JsonArr(vec![num("123"), JsonToken::JsonBool(false)]),
    );

    let created_map = match json_tokens_to_json_object(&json_token_vec) {
        JsonToken::JsonObj(map) => map,
        _ => JsonMap::new(),
    };

    assert_eq!(json_map, created_map);
}

#[test]
fn lib_converts_tokens_w_nested_array_to_hashmap() {
    let json_token_vec: Vec<JsonToken> = vec![
        JsonToken::JsonObjBeg,
        key("hello"),
        strv("world"),
        key("num"),
        num("123"),
        key("bool"),
        JsonToken::JsonBool(true),
        key("array"),
        JsonToken::JsonArrBeg,
        num("123"),
        JsonToken::JsonBool(false),
        JsonToken::JsonArrBeg,
        num("321"),
        JsonToken::JsonBool(false),
        JsonToken::JsonArrEnd,
        JsonToken::JsonArrEnd,
        JsonToken::JsonObjEnd,
    ];

    let mut json_map = JsonMap::new();
    json_map.insert(String::from("hello"), strv("world"));
    json_map.insert(String::from("num"), num("123"));
    json_map.insert(String::from("bool"), JsonToken::JsonBool(true));
    json_map.insert(
        String::from("array"),
        JsonToken::JsonArr(vec![
            num("123"),
            JsonToken::JsonBool(false),
            JsonToken::JsonArr(vec![num("321"), JsonToken::JsonBool(false)]),
        ]),
    );

    let created_map = match json_tokens_to_json_object(&json_token_vec) {
        JsonToken::JsonObj(map) => map,
        _ => JsonMap::new(),
    };

    assert_eq!(json_map, created_map);
}

#[test]
fn lib_converts_tokens_w_nested_object_to_hashmap() {
    let json_token_vec: Vec<JsonToken> = vec![
        JsonToken::JsonObjBeg,
        key("hello"),
        strv("world"),
        key("num"),
        num("123"),
        key("bool"),
        JsonToken::JsonBool(true),
        key("obj"),
        JsonToken::JsonObjBeg,
        key("key1"),
        strv("nested obj test"),
        JsonToken::JsonObjEnd,
        JsonToken::JsonObjEnd,
    ];

    let mut nested_map = JsonMap::new();
    nested_map.insert(String::from("key1"), strv("nested obj test"));

    let mut json_map = JsonMap::new();
    json_map.insert(String::from("hello"), strv("world"));
    json_map.insert(String::from("num"), num("123"));
    json_map.insert(String::from("bool"), JsonToken::JsonBool(true));
    json_map.insert(String::from("obj"), JsonToken::JsonObj(nested_map));

    let created_map = match json_tokens_to_json_object(&json_token_vec) {
        JsonToken::JsonObj(map) => map,
        _ => JsonMap::new(),
    };

    assert_eq!(json_map, created_map);
}

#[test]
fn token_conversion_converts_tokens_to_hashmap_containers_following_each_other() {
    let json_token_vec: Vec<JsonToken> = vec![
        JsonToken::JsonObjBeg,
        key("key1"),
        strv("string"),
        key("key2"),
        JsonToken::JsonBool(true),
        key("key3"),
        JsonToken::JsonArrBeg,
        strv("thing1"),
        strv("thing2"),
        JsonToken::JsonArrEnd,
        key("key4"),
        JsonToken::JsonObjBeg,
        key("key1"),
        strv("full test"),
        JsonToken::JsonObjEnd,
        JsonToken::JsonObjEnd,
    ];

    let mut json_map = JsonMap::new();
    let mut inner_map = JsonMap::new();
    inner_map.insert(String::from("key1"), strv("full test"));
    json_map.insert(String::from("key1"), strv("string"));
    json_map.insert(String::from("key2"), JsonToken::JsonBool(true));
    json_map.insert(
        String::from("key3"),
        JsonToken::JsonArr(vec![strv("thing1"), strv("thing2")]),
    );
    json_map.insert(String::from("key4"), JsonToken::JsonObj(inner_map));

    let created_map = match json_tokens_to_json_object(&json_token_vec) {
        JsonToken::JsonObj(map) => map,
        _ => JsonMap::new(),
    };

    assert_eq!(json_map, created_map);
}

#[test]
fn token_conversion_converts_not_nested_tokens_to_hashmap() {
    let json_token_vec: Vec<JsonToken> = vec![
        JsonToken::JsonObjBeg,
        key("hello"),
        strv("world"),
        key("num"),
        num("123"),
        key("bool"),
        JsonToken::JsonBool(true),
        JsonToken::JsonObjEnd,
    ];

    let mut json_map = JsonMap::new();
    json_map.insert(String::from("hello"), strv("world"));
    json_map.insert(String::from("num"), num("123"));
    json_map.insert(String::from("bool"), JsonToken::JsonBool(true));

    let created_map = match json_tokens_to_json_object(&json_token_vec) {
        JsonToken::JsonObj(map) => map,
        _ => JsonMap::new(),
    };

    assert_eq!(json_map, created_map);
}

#[test]
fn token_conversion_converts_tokens_w_array_to_hashmap() {
    let json_token_vec: Vec<JsonToken> = vec![
        JsonToken::JsonObjBeg,
        key("hello"),
        strv("world"),
        key("num"),
        num("123"),
        key("bool"),
        JsonToken::JsonBool(true),
        key("array"),
        JsonToken::JsonArrBeg,
        num("123"),
        JsonToken::JsonBool(false),
        JsonToken::JsonArrEnd,
        JsonToken::JsonObjEnd,
    ];

    let mut json_map = JsonMap::new();
    json_map.insert(String::from("hello"), strv("world"));
    json_map.insert(String::from("num"), num("123"));
    json_map.insert(String::from("bool"), JsonToken::JsonBool(true));
    json_map.insert(
        String::from("array"),
        JsonToken::JsonArr(vec![num("123"), JsonToken::JsonBool(false)]),
    );

    let created_map = match json_tokens_to_json_object(&json_token_vec) {
        JsonToken::JsonObj(map) => map,
        _ => JsonMap::new(),
    };

    assert_eq!(json_map, created_map);
}

#[test]
fn token_conversion_converts_tokens_w_nested_array_to_hashmap() {
    let json_token_vec: Vec<JsonToken> = vec![
        JsonToken::JsonObjBeg,
        key("hello"),
        strv("world"),
        key("num"),
        num("123"),
        key("bool"),
        JsonToken::JsonBool(true),
        key("array"),
        JsonToken::JsonArrBeg,
        num("123"),
        JsonToken::JsonBool(false),
        JsonToken::JsonArrBeg,
        num("321"),
        JsonToken::JsonBool(false),
        JsonToken::JsonArrEnd,
        JsonToken::JsonArrEnd,
        JsonToken::JsonObjEnd,
    ];

    let mut json_map = JsonMap::new();
    json_map.insert(String::from("hello"), strv("world"));
    json_map.insert(String::from("num"), num("123"));
    json_map.insert(String::from("bool"), JsonToken::JsonBool(true));
    json_map.insert(
        String::from("array"),
        JsonToken::JsonArr(vec![
            num("123"),
            JsonToken::JsonBool(false),
            JsonToken::JsonArr(vec![num("321"), JsonToken::JsonBool(false)]),
        ]),
    );

    let created_map = match json_tokens_to_json_object(&json_token_vec) {
        JsonToken::JsonObj(map) => map,
        _ => JsonMap::new(),
    };

    assert_eq!(json_map, created_map);
}

#[test]
fn token_conversion_converts_tokens_w_nested_object_to_hashmap() {
    let json_token_vec: Vec<JsonToken> = vec![
        JsonToken::JsonObjBeg,
        key("hello"),
        strv("world"),
        key("num"),
        num("123"),
        key("bool"),
        JsonToken::JsonBool(true),
        key("obj"),
        JsonToken::JsonObjBeg,
        key("key1"),
        strv("nested obj test"),
        JsonToken::JsonObjEnd,
        JsonToken::JsonObjEnd,
    ];

    let mut nested_map = JsonMap::new();
    nested_map.insert(String::from("key1"), strv("nested obj test"));

    let mut json_map = JsonMap::new();
    json_map.insert(String::from("hello"), strv("world"));
    json_map.insert(String::from("num"), num("123"));
    json_map.insert(String::from("bool"), JsonToken::JsonBool(true));
    json_map.insert(String::from("obj"), JsonToken::JsonObj(nested_map));

    let created_map = match json_tokens_to_json_object(&json_token_vec) {
        JsonToken::JsonObj(map) => map,
        _ => JsonMap::new(),
    };

    assert_eq!(json_map, created_map);
}
