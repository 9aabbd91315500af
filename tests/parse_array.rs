use keyvalues::parse_array::{flatten_array, parse_array};
use keyvalues::{ObjectMap, Token, Value};

fn object_of<'a>(pairs: Vec<(&'a str, Value<'a>)>) -> ObjectMap<'a> {
    let mut map = ObjectMap::new();
    for (k, v) in pairs {
        map.put(k, v);
    }
    map
}

#[test]
fn test_parse_empty_array() {
    let mut lexer = Token::lexer("}");
    let result = parse_array(&mut lexer);
    assert!(result.is_ok());
    assert!(matches!(result.unwrap(), Value::Empty));
}

#[test]
fn test_flatten_empty_array() {
    let array = Vec::new();
    let result = flatten_array(array);
    assert!(result.is_ok());
    assert!(matches!(result.unwrap(), Value::Empty));
}

#[test]
fn test_parse_single_element_array() {
    let mut lexer = Token::lexer("hello }");
    let result = parse_array(&mut lexer);
    assert!(result.is_ok());
    let array = match result.unwrap() {
        Value::Array(arr) => arr,
        _ => panic!(),
    };
    assert_eq!(array.len(), 1);
    assert!(matches!(array[0], Value::String(_)));
}

#[test]
fn test_parse_multiple_element_array() {
    let mut lexer = Token::lexer("hello world }");
    let result = parse_array(&mut lexer);
    assert!(result.is_ok());
    let array = match result.unwrap() {
        Value::Array(arr) => arr,
        _ => panic!(),
    };
    assert_eq!(array.len(), 2);
    assert!(matches!(array[0], Value::String(_)));
    assert!(matches!(array[1], Value::String(_)));
}

#[test]
fn test_parse_mixed_simple_values_array() {
    let mut lexer = Token::lexer(" hello world 1 2 3.4 \"test\" }");
    let result = parse_array(&mut lexer);
    assert!(result.is_ok());
    let array = match result.unwrap() {
        Value::Array(arr) => arr,
        _ => panic!(),
    };
    assert_eq!(array.len(), 6);
    assert!(matches!(array[0], Value::String("hello")));
    assert!(matches!(array[1], Value::String("world")));
    assert!(matches!(array[2], Value::Integer(1)));
    assert!(matches!(array[3], Value::Integer(2)));
    assert!(matches!(array[4], Value::Float(text) if text.parse::<f64>() == Ok(3.4)));
    assert!(matches!(array[5], Value::String("test")));
}

#[test]
fn test_flatten_array_single_object() {
    let mut ordered_map = ObjectMap::new();
    ordered_map.put("key", Value::String("value"));
    let object = vec![Value::Object(ordered_map)];
    let result = flatten_array(object);
    assert!(result.is_ok());
    let object = match result.unwrap() {
        Value::Object(obj) => obj,
        _ => panic!(),
    };
    assert_eq!(object, object_of(vec![("key", Value::String("value"))]));
    assert_eq!(object.into_entries().len(), 1);
}

#[test]
fn test_flatten_array_multiple_objects() {
    let mut ordered_map1 = ObjectMap::new();
    ordered_map1.put("key1", Value::String("value1"));
    let mut ordered_map2 = ObjectMap::new();
    ordered_map2.put("key2", Value::String("value2"));
    let array = vec![Value::Object(ordered_map1), Value::Object(ordered_map2)];
    let result = flatten_array(array);
    assert!(result.is_ok());
    let object = match result.unwrap() {
        Value::Object(obj) => obj,
        _ => panic!(),
    };
    assert_eq!(
        object,
        object_of(vec![
            ("key1", Value::String("value1")),
            ("key2", Value::String("value2"))
        ])
    );
    assert_eq!(object.into_entries().len(), 2);
}

#[test]
fn test_flatten_array_non_object_values() {
    let array = vec![Value::String("non-object"), Value::Integer(42)];
    let result = flatten_array(array);
    assert!(result.is_err());
    let mut array = vec![Value::String("non-object"), Value::Integer(42)];
    array.push(Value::Object(object_of(vec![("key", Value::String("value"))])));
    let result = flatten_array(array);
    assert!(result.is_err());

    let array = vec![Value::Object(object_of(vec![("key", Value::String("value"))]))];
    let result = flatten_array(array);
    assert!(result.is_ok());
}

#[test]
fn flatten_keeps_first_position_of_repeated_key() {
    let array = vec![
        Value::Object(object_of(vec![("a", Value::Integer(1)), ("b", Value::Integer(2))])),
        Value::Object(object_of(vec![("a", Value::Integer(3))])),
    ];
    let object = match flatten_array(array) {
        Ok(Value::Object(obj)) => obj,
        _ => panic!(),
    };
    let entries = object.into_entries();
    assert_eq!(entries, vec![("a", Value::Integer(3)), ("b", Value::Integer(2))]);
}

#[test]
fn flatten_single_flat_object_is_unchanged() {
    let entries = vec![("x", Value::Integer(1)), ("y", Value::Bool(true)), ("z", Value::Null)];
    let array = vec![Value::Object(object_of(entries))];
    let object = match flatten_array(array) {
        Ok(Value::Object(obj)) => obj,
        _ => panic!(),
    };
    assert_eq!(
        object.into_entries(),
        vec![("x", Value::Integer(1)), ("y", Value::Bool(true)), ("z", Value::Null)]
    );
}

#[test]
fn flatten_mixed_error_message() {
    let array = vec![Value::Object(object_of(vec![("k", Value::Null)])), Value::Integer(1)];
    let err = flatten_array(array).unwrap_err();
    assert_eq!(err.0, "array containing object is mixed with non-object value");
}

#[test]
fn object_map_put_overwrites_in_place() {
    let mut map = ObjectMap::new();
    map.put("first", Value::Integer(1));
    map.put("second", Value::Integer(2));
    map.put("first", Value::Integer(10));
    assert_eq!(
        map.into_entries(),
        vec![("first", Value::Integer(10)), ("second", Value::Integer(2))]
    );
}

#[test]
fn object_map_extend_merges_in_order() {
    let mut map = object_of(vec![("a", Value::Integer(1)), ("b", Value::Integer(2))]);
    map.extend(object_of(vec![("c", Value::Integer(3)), ("a", Value::Integer(4))]));
    assert_eq!(
        map.into_entries(),
        vec![("a", Value::Integer(4)), ("b", Value::Integer(2)), ("c", Value::Integer(3))]
    );
}

#[test]
fn identifier_before_brace_ends_block() {
    let mut lexer = Token::lexer("1 last } rest");
    let result = parse_array(&mut lexer).unwrap();
    assert_eq!(result, Value::Array(vec![Value::Integer(1), Value::String("last")]));
}

#[test]
fn identifier_then_open_brace_is_an_error() {
    let mut lexer = Token::lexer("name { } }");
    let err = parse_array(&mut lexer).unwrap_err();
    assert_eq!(err.0, "unexpected token after identifier in array");
    assert_eq!((err.1.start, err.1.end), (5, 6));
}

#[test]
fn equal_sign_in_block_is_an_error() {
    let mut lexer = Token::lexer("1 = }");
    let err = parse_array(&mut lexer).unwrap_err();
    assert_eq!(err.0, "unexpected token when expecting simple value");
    assert_eq!((err.1.start, err.1.end), (2, 3));
}

#[test]
fn invalid_byte_in_block_is_an_error() {
    let mut lexer = Token::lexer("1 @ }");
    let err = parse_array(&mut lexer).unwrap_err();
    assert_eq!(err.0, "unrecognised token");
    assert_eq!((err.1.start, err.1.end), (2, 3));
}
