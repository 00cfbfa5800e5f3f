use jsonp::error::JsonError;
use jsonp::lexer::TokenReader;
use jsonp::parser::{check_comma, parse, JMap, JVal};
use jsonp::reader::JsonReader;

fn try_parse(input: &str) -> Result<JVal, JsonError> {
    let file_reader = JsonReader::new(input.as_bytes().to_vec());
    let mut reader = TokenReader::new(file_reader);
    parse(&mut reader)
}

fn parse_str(input: &str) -> JVal {
    try_parse(input).unwrap()
}

fn num(v: &JVal) -> f64 {
    match v {
        JVal::JNum(text) => text.parse::<f64>().unwrap(),
        other => panic!("expected a number, got {:?}", other),
    }
}

#[test]
fn test_parse_simple_object() {
    let input = r#"{"name": "John", "age": 30}"#;
    let result = parse_str(input);

    if let JVal::JObject(map) = result {
        assert_eq!(map.get("name"), Some(&JVal::JString("John".to_string())));
        assert_eq!(map.get("age").map(num), Some(30.0));
    } else {
        panic!("Expected JObject");
    }
}

#[test]
fn test_parse_null_keyt() {
    let input = r#"{"name": null, "age": 30}"#;
    let result = parse_str(input);

    if let JVal::JObject(map) = result {
        assert_eq!(map.get("name"), Some(&JVal::JNull));
        assert_eq!(map.get("age").map(num), Some(30.0));
    } else {
        panic!("Expected JObject");
    }
}

#[test]
fn test_parse_simple_array() {
    let input = r#"[1, 2, 3, "test"]"#;
    let result = parse_str(input);

    if let JVal::JArray(arr) = result {
        assert_eq!(num(&arr[0]), 1.0);
        assert_eq!(num(&arr[1]), 2.0);
        assert_eq!(num(&arr[2]), 3.0);
        assert_eq!(arr[3], JVal::JString("test".to_string()));
    } else {
        panic!("Expected JArray");
    }
}

#[test]
fn test_parse_nested_object() {
    let input = r#"{"user": {"name": "John", "active": true}}"#;
    let result = parse_str(input);

    if let JVal::JObject(map) = result {
        if let Some(JVal::JObject(inner)) = map.get("user") {
            assert_eq!(inner.get("name"), Some(&JVal::JString("John".to_string())));
            assert_eq!(inner.get("active"), Some(&JVal::JBool(true)));
        } else {
            panic!("Expected nested object");
        }
    } else {
        panic!("Expected JObject");
    }
}

#[test]
fn test_parse_nested_array() {
    let input = r#"[1, [2, 3], 4]"#;
    let result = parse_str(input);

    if let JVal::JArray(arr) = result {
        assert_eq!(num(&arr[0]), 1.0);
        if let JVal::JArray(inner) = &arr[1] {
            assert_eq!(num(&inner[0]), 2.0);
            assert_eq!(num(&inner[1]), 3.0);
        } else {
            panic!("Expected nested array");
        }
        assert_eq!(num(&arr[2]), 4.0);
    } else {
        panic!("Expected JArray");
    }
}

#[test]
fn test_invalid_json_start() {
    assert_eq!(try_parse(r#""invalid""#), Err(JsonError::InvalidStart));
}

#[test]
fn test_missing_colon() {
    assert_eq!(try_parse(r#"{"key" "value"}"#), Err(JsonError::MissingColon));
}

#[test]
fn test_unclosed_object() {
    assert_eq!(try_parse(r#"{"key": "value""#), Err(JsonError::UnclosedStructure));
}

#[test]
fn test_complex_nested_structure() {
    let input = r#"
    {
        "name": "John",
        "details": {
            "age": 30,
            "hobbies": ["reading", "coding"],
            "address": {
                "city": "New York",
                "zip": 10001
            }
        },
        "active": true
    }"#;

    let result = parse_str(input);

    if let JVal::JObject(map) = result {
        assert_eq!(map.get("name"), Some(&JVal::JString("John".to_string())));
        assert_eq!(map.get("active"), Some(&JVal::JBool(true)));

        if let Some(JVal::JObject(details)) = map.get("details") {
            assert_eq!(details.get("age").map(num), Some(30.0));

            if let Some(JVal::JArray(hobbies)) = details.get("hobbies") {
                assert_eq!(hobbies[0], JVal::JString("reading".to_string()));
                assert_eq!(hobbies[1], JVal::JString("coding".to_string()));
            } else {
                panic!("Expected hobbies array");
            }

            if let Some(JVal::JObject(address)) = details.get("address") {
                assert_eq!(address.get("city"), Some(&JVal::JString("New York".to_string())));
                assert_eq!(address.get("zip").map(num), Some(10001.0));
            } else {
                panic!("Expected address object");
            }
        } else {
            panic!("Expected details object");
        }
    } else {
        panic!("Expected JObject");
    }
}

#[test]
fn object_holding_array_matches_expected_tree() {
    let result = parse_str(r#"{"key": [1, true, "value"]}"#);
    let JVal::JObject(map) = result else { panic!("Expected JObject") };
    assert_eq!(map.len(), 1);
    let Some(JVal::JArray(items)) = map.get("key") else { panic!("Expected JArray") };
    assert_eq!(items.len(), 3);
    assert_eq!(num(&items[0]), 1.0);
    assert_eq!(items[1], JVal::JBool(true));
    assert_eq!(items[2], JVal::JString("value".to_string()));
}

#[test]
fn numbers_zero_and_half_inside_a_document() {
    let JVal::JArray(items) = parse_str("[0, 0.5]") else { panic!("Expected JArray") };
    assert_eq!(num(&items[0]), 0.0);
    assert_eq!(num(&items[1]), 0.5);
    assert_eq!(try_parse("[01]"), Err(JsonError::InvalidNumber));
}

#[test]
fn commas_must_separate_exactly() {
    let JVal::JArray(items) = parse_str("[1, 2, 3]") else { panic!("Expected JArray") };
    assert_eq!(items.len(), 3);
    assert_eq!(try_parse("[1 2]"), Err(JsonError::MissingComma));
    assert_eq!(try_parse("[1,, 2]"), Err(JsonError::MissingComma));
    assert_eq!(try_parse("[,1]"), Err(JsonError::MissingComma));
    assert_eq!(try_parse("[1,]"), Err(JsonError::MissingComma));
    assert_eq!(try_parse("[[1,] 2]"), Err(JsonError::MissingComma));
    assert_eq!(try_parse(r#"{"a": 1 "b": 2}"#), Err(JsonError::MissingComma));
    assert_eq!(try_parse(r#"{, "a": 1}"#), Err(JsonError::MissingComma));
    assert_eq!(try_parse(r#"{"a": 1,}"#), Err(JsonError::MissingComma));
    assert_eq!(try_parse(r#"{"a": [1] "b": 2}"#), Err(JsonError::MissingComma));
}

#[test]
fn deep_nesting_does_not_exhaust_the_stack() {
    let depth = 10_000;
    let input = format!("{}{}", "[".repeat(depth), "]".repeat(depth));
    let mut value = parse_str(&input);
    let mut seen = 1;
    loop {
        let JVal::JArray(mut items) = value else { panic!("Expected JArray") };
        if items.is_empty() {
            break;
        }
        assert_eq!(items.len(), 1);
        value = items.pop().unwrap();
        seen += 1;
    }
    assert_eq!(seen, depth);
}

#[test]
fn escapes_inside_a_document() {
    let JVal::JArray(items) = parse_str(r#"["a\"b\\c\nd"]"#) else { panic!("Expected JArray") };
    assert_eq!(items[0], JVal::JString("a\"b\\c\nd".to_string()));
    assert_eq!(try_parse(r#"["\q"]"#), Err(JsonError::InvalidEscape('q')));
}

#[test]
fn bare_scalar_documents_are_rejected() {
    assert_eq!(try_parse(r#""hello""#), Err(JsonError::InvalidStart));
    assert_eq!(try_parse("42"), Err(JsonError::InvalidStart));
    assert_eq!(try_parse("true"), Err(JsonError::InvalidStart));
    assert_eq!(try_parse("]"), Err(JsonError::InvalidStart));
    assert!(try_parse("{}").is_ok());
    assert!(try_parse("[]").is_ok());
}

#[test]
fn empty_document_is_end_of_input() {
    assert_eq!(try_parse(""), Err(JsonError::UnexpectedEof));
    assert_eq!(try_parse("  \n"), Err(JsonError::UnexpectedEof));
}

#[test]
fn unclosed_and_truncated_structures() {
    assert_eq!(try_parse("[1, [2"), Err(JsonError::UnclosedStructure));
    assert_eq!(try_parse(r#"{"key""#), Err(JsonError::UnexpectedEof));
    assert_eq!(try_parse(r#"{"key":"#), Err(JsonError::UnexpectedEof));
}

#[test]
fn misplaced_tokens_are_structure_errors() {
    assert_eq!(try_parse("[}"), Err(JsonError::InvalidArrayStructure));
    assert_eq!(try_parse("[:]"), Err(JsonError::InvalidArrayStructure));
    assert_eq!(try_parse("{1: 2}"), Err(JsonError::InvalidObjectStructure));
    assert_eq!(try_parse(r#"{"a": }"#), Err(JsonError::InvalidObjectStructure));
    assert_eq!(try_parse(r#"{"a": :}"#), Err(JsonError::InvalidObjectStructure));
}

#[test]
fn duplicate_keys_keep_the_last_value() {
    let JVal::JObject(map) = parse_str(r#"{"a": 1, "b": 2, "a": "x"}"#) else { panic!("Expected JObject") };
    assert_eq!(map.len(), 2);
    assert_eq!(map.get("a"), Some(&JVal::JString("x".to_string())));
    assert_eq!(map.get("b").map(num), Some(2.0));
    assert_eq!(map.get("c"), None);
}

#[test]
fn nested_value_under_duplicate_key_replaces_it() {
    let JVal::JObject(map) = parse_str(r#"{"a": 1, "a": [true]}"#) else { panic!("Expected JObject") };
    assert_eq!(map.len(), 1);
    assert_eq!(map.get("a"), Some(&JVal::JArray(vec![JVal::JBool(true)])));
}

#[test]
fn text_after_the_root_is_not_read() {
    assert!(try_parse("[] @").is_ok());
}

#[test]
fn parsing_twice_gives_equal_trees() {
    let input = r#"{"a": [1, {"b": null}], "c": "d"}"#;
    assert_eq!(try_parse(input), try_parse(input));
}

#[test]
fn lexical_errors_reach_the_caller() {
    assert_eq!(try_parse("[@]"), Err(JsonError::UnexpectedCharacter('@')));
    assert_eq!(try_parse("[tru]"), Err(JsonError::InvalidBooleanLiteral));
    assert_eq!(try_parse("[nul"), Err(JsonError::UnexpectedEof));
}

#[test]
fn check_comma_needs_a_separator_after_the_first_element() {
    let mut flags = vec![false, true];
    assert_eq!(check_comma(2, &mut flags), Ok(()));
    assert_eq!(flags, vec![false, false]);
    assert_eq!(check_comma(2, &mut flags), Err(JsonError::MissingComma));
    assert_eq!(flags, vec![false, false]);
    assert_eq!(check_comma(0, &mut flags), Ok(()));
    assert_eq!(flags, vec![false, false]);
    let mut none: Vec<bool> = Vec::new();
    assert_eq!(check_comma(0, &mut none), Ok(()));
    assert_eq!(check_comma(1, &mut none), Err(JsonError::MissingComma));
}

#[test]
fn map_insert_replaces_and_appends() {
    let mut map = JMap::new();
    assert_eq!(map.len(), 0);
    map.insert("a".to_string(), JVal::JNull);
    map.insert("b".to_string(), JVal::JBool(false));
    map.insert("a".to_string(), JVal::JBool(true));
    assert_eq!(map.len(), 2);
    assert_eq!(map.get("a"), Some(&JVal::JBool(true)));
    assert_eq!(map.get("b"), Some(&JVal::JBool(false)));
    assert_eq!(map.get("z"), None);
}
