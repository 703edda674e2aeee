use http1::json::de::{from_str, DeError, JsonDeserializer, JsonValue, Number};
use http1::json::map::OrderedMap;
use http1::json::ser::{to_bytes, to_pretty_string, to_string, to_writer};

#[test]
fn should_deserialize_bool() {
    assert_eq!(from_str::<bool>("true").unwrap(), true);
    assert_eq!(from_str::<bool>("false").unwrap(), false);
}

#[test]
fn should_deserialize_integer() {
    assert_eq!(from_str::<u8>("23").unwrap(), 23);
    assert_eq!(from_str::<u16>("5090").unwrap(), 5090);
    assert_eq!(from_str::<u32>("239000000").unwrap(), 239000000);
    assert_eq!(from_str::<u64>("239000000000").unwrap(), 239000000000);
    assert_eq!(
        from_str::<u128>("239000000000000000").unwrap(),
        239000000000000000
    );
}

#[test]
fn should_deserialize_unit_from_null() {
    assert_eq!(from_str::<()>("null"), Ok(()));
    assert_eq!(from_str::<()>("nul"), Err(DeError::ExpectedNull));
}

#[test]
fn should_read_true_only_at_the_end_of_input() {
    assert_eq!(from_str::<bool>("true "), Err(DeError::ExpectedBool));
    assert_eq!(from_str::<bool>("falsey"), Ok(false));
}

#[test]
fn should_reject_integer_out_of_range() {
    assert_eq!(from_str::<u8>("256"), Err(DeError::TypeMismatch));
    assert_eq!(from_str::<i8>("127"), Ok(127));
    assert_eq!(from_str::<i8>("128"), Err(DeError::TypeMismatch));
}

#[test]
fn should_reject_negative_integer() {
    assert_eq!(from_str::<i32>("-5"), Err(DeError::InvalidInteger));
}

#[test]
fn should_reject_sign_after_two_chars() {
    assert_eq!(from_str::<u32>("12.5"), Err(DeError::ExpectedNumberSign));
    assert_eq!(from_str::<u32>("..5"), Err(DeError::InvalidDecimalNumber));
}

#[test]
fn should_keep_float_text() {
    let mut de = JsonDeserializer::new(b"1.5");
    match de.parse_number() {
        Ok(Number::Float(text)) => assert_eq!(text, "1.5"),
        other => panic!("unexpected {:?}", other),
    }
    let mut de = JsonDeserializer::new(b"e5");
    assert_eq!(de.parse_number(), Err(DeError::InvalidFloat));
}

#[test]
fn should_reject_integer_too_large_for_i128() {
    assert_eq!(
        from_str::<u128>("170141183460469231731687303715884105728"),
        Err(DeError::InvalidInteger)
    );
    assert_eq!(
        from_str::<u128>("170141183460469231731687303715884105727"),
        Ok(170141183460469231731687303715884105727)
    );
}

#[test]
fn should_deserialize_string_with_escapes() {
    assert_eq!(
        from_str::<String>(r#""a\"b\\c\nd\te""#).unwrap(),
        "a\"b\\c\nd\te"
    );
    assert_eq!(from_str::<String>(r#""a\x""#), Err(DeError::InvalidEscape(b'x')));
    assert_eq!(from_str::<String>(r#""abc"#), Err(DeError::ExpectedStringChar));
    assert_eq!(from_str::<String>("abc"), Err(DeError::ExpectedStartOfString));
}

#[test]
fn should_deserialize_char() {
    assert_eq!(from_str::<char>(r#""x""#), Ok('x'));
    assert_eq!(from_str::<char>(r#""""#), Err(DeError::ExpectedCharButEmpty));
    assert_eq!(from_str::<char>(r#""xy""#), Err(DeError::ExpectedSingleChar));
}

#[test]
fn should_deserialize_array_of_strings() {
    match from_str::<JsonValue>(r#" [ "a" , "b" ] "#).unwrap() {
        JsonValue::Array(items) => {
            assert_eq!(items.len(), 2);
            match &items[1] {
                JsonValue::String(s) => assert_eq!(s, "b"),
                other => panic!("unexpected {:?}", other),
            }
        }
        other => panic!("unexpected {:?}", other),
    }
}

#[test]
fn should_deserialize_nested_arrays() {
    let v = from_str::<JsonValue>("[[null],[null,null]]").unwrap();
    match v {
        JsonValue::Array(items) => assert_eq!(items.len(), 2),
        other => panic!("unexpected {:?}", other),
    }
}

#[test]
fn should_consume_the_byte_after_a_number() {
    // The number reading consumes the closing bracket.
    assert_eq!(from_str::<JsonValue>("[1]").unwrap_err(), DeError::EmptyArrayElement);
    assert!(from_str::<JsonValue>("[1 ]").is_ok());
}

#[test]
fn should_not_start_number_with_nine() {
    assert_eq!(from_str::<JsonValue>("9").unwrap_err(), DeError::UnexpectedToken(b'9'));
}

#[test]
fn should_fail_on_object() {
    assert_eq!(
        from_str::<JsonValue>(r#"{"a": null}"#).unwrap_err(),
        DeError::UnexpectedToken(b':')
    );
}

#[test]
fn should_fail_on_empty_input() {
    assert_eq!(from_str::<JsonValue>("   ").unwrap_err(), DeError::EmptyValue);
}

#[test]
fn should_deserialize_null() {
    assert_eq!(from_str::<JsonValue>("null").unwrap(), JsonValue::Null);
    assert_eq!(from_str::<()>("null").unwrap(), ());
}

#[test]
fn should_serialize_number() {
    let f = JsonValue::Number(Number::Float("0.5".to_string()));
    let u = JsonValue::Number(Number::UInteger(102398));
    let i = JsonValue::Number(Number::Integer(-1328));

    assert_eq!(to_string(&f).unwrap(), "0.5");
    assert_eq!(to_string(&u).unwrap(), "102398");
    assert_eq!(to_string(&i).unwrap(), "-1328");
}

#[test]
fn should_serialize_string() {
    let s = JsonValue::String(String::from("Hello, world!"));
    assert_eq!(to_string(&s).unwrap(), "\"Hello, world!\"");
}

#[test]
fn should_serialize_bool() {
    assert_eq!(to_string(&JsonValue::Bool(true)).unwrap(), "true");
    assert_eq!(to_string(&JsonValue::Bool(false)).unwrap(), "false");
}

#[test]
fn should_serialize_array() {
    let array = JsonValue::Array(vec![
        JsonValue::Number(Number::Float("1.23".to_string())),
        JsonValue::Bool(true),
        JsonValue::String(String::from("Test")),
    ]);

    assert_eq!(to_string(&array).unwrap(), "[1.23,true,\"Test\"]");
    assert_eq!(
        to_pretty_string(&array).unwrap(),
        "[\n  1.23,\n  true,\n  \"Test\"\n]"
    );
}

#[test]
fn should_serialize_object() {
    let mut map = OrderedMap::new();
    map.insert(
        String::from("number"),
        JsonValue::Number(Number::UInteger(123)),
    );
    map.insert(
        String::from("string"),
        JsonValue::String(String::from("Hello")),
    );
    map.insert(String::from("boolean"), JsonValue::Bool(false));

    let object = JsonValue::Object(map);

    let expected_compact = "{\"number\":123,\"string\":\"Hello\",\"boolean\":false}";
    assert_eq!(to_string(&object).unwrap(), expected_compact);

    let expected_pretty =
        "{\n  \"number\": 123,\n  \"string\": \"Hello\",\n  \"boolean\": false\n}";
    assert_eq!(to_pretty_string(&object).unwrap(), expected_pretty);
}

#[test]
fn should_serialize_null() {
    let null = JsonValue::Null;
    assert_eq!(to_string(&null).unwrap(), "null");
}

#[test]
fn should_serialize_nested_and_empty_containers() {
    let mut inner = OrderedMap::new();
    inner.insert(String::from("a"), JsonValue::Array(vec![]));
    let value = JsonValue::Array(vec![JsonValue::Object(inner), JsonValue::Object(OrderedMap::new())]);
    assert_eq!(to_string(&value).unwrap(), "[{\"a\":[]},{}]");
    assert_eq!(
        to_pretty_string(&value).unwrap(),
        "[\n  {\n    \"a\": []\n  },\n  {}\n]"
    );
    assert_eq!(to_bytes(&value).unwrap(), b"[{\"a\":[]},{}]".to_vec());
    let mut out = b"x".to_vec();
    to_writer(&mut out, &JsonValue::Bool(true)).unwrap();
    assert_eq!(out, b"xtrue".to_vec());
}

#[test]
fn serialized_value_reads_back() {
    let value = JsonValue::Array(vec![
        JsonValue::Bool(false),
        JsonValue::Null,
        JsonValue::String("x".to_string()),
    ]);
    let text = to_string(&value).unwrap();
    assert_eq!(from_str::<JsonValue>(&text).unwrap(), value);
}

#[test]
fn json_value_accessors() {
    let v = JsonValue::Array(vec![JsonValue::Null, JsonValue::Bool(true)]);
    assert!(v.is_array());
    assert!(!v.is_null());
    assert_eq!(v.as_array().unwrap().len(), 2);
    assert!(v.as_bool().is_none());
    assert_eq!(JsonValue::Bool(false).as_bool(), Some(false));
    assert_eq!(JsonValue::String("x".to_string()).as_str(), Some("x"));
    assert_eq!(
        JsonValue::Number(Number::Integer(-3)).as_number(),
        Some(&Number::Integer(-3))
    );
    let mut map = OrderedMap::new();
    map.insert("k".to_string(), JsonValue::Null);
    let obj = JsonValue::Object(map);
    assert_eq!(obj.as_map().unwrap().len(), 1);
    assert!(JsonValue::Null.is_null());
    assert!(JsonValue::Null.as_map().is_none());
}

#[test]
fn number_text() {
    assert_eq!(Number::UInteger(0).to_string(), "0");
    assert_eq!(Number::Integer(i128::MIN).to_string(), "-170141183460469231731687303715884105728");
    assert_eq!(Number::Integer(42).to_string(), "42");
    assert_eq!(Number::Float("1e3".to_string()).to_string(), "1e3");
}
