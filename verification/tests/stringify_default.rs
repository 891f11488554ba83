use json_lib::io::destinations::buffer::Buffer;
use json_lib::nodes::node::{Node, Numeric};

#[test]
fn default_test_stringify_null() {
    let mut dest = Buffer::new();
    json_lib::stringify::default::stringify(&Node::Null, &mut dest);
    assert_eq!(dest.to_string(), "null");
}

#[test]
fn default_test_stringify_boolean() {
    let mut dest = Buffer::new();
    json_lib::stringify::default::stringify(&Node::Boolean(true), &mut dest);
    assert_eq!(dest.to_string(), "true");
}

#[test]
fn default_test_stringify_number() {
    let mut dest = Buffer::new();
    json_lib::stringify::default::stringify(&Node::Number(Numeric::Float("42.5".to_string())), &mut dest);
    assert_eq!(dest.to_string(), "42.5");
}

#[test]
fn default_test_stringify_string() {
    let mut dest = Buffer::new();
    json_lib::stringify::default::stringify(&Node::Str("Hello\n\"World\"".to_string()), &mut dest);
    assert_eq!(dest.to_string(), "\"Hello\\n\\\"World\\\"\"");
}

#[test]
fn default_test_stringify_array() {
    let mut dest = Buffer::new();
    json_lib::stringify::default::stringify(
        &Node::Array(vec![
            Node::Number(Numeric::Float("1".to_string())),
            Node::Str("test".to_string()),
        ]),
        &mut dest,
    );
    assert_eq!(dest.to_string(), "[1,\"test\"]");
}

#[test]
fn default_test_stringify_object() {
    let mut dest = Buffer::new();
    let map = vec![("key".to_string(), Node::Str("value".to_string()))];
    json_lib::stringify::default::stringify(&Node::Object(map), &mut dest);
    assert_eq!(dest.to_string(), "{\"key\":\"value\"}");
}

#[test]
fn test_stringify_nested_objects() {
    let mut dest = Buffer::new();
    let inner_map = vec![("inner_key".to_string(), Node::Number(Numeric::Integer(42)))];
    let outer_map = vec![("outer_key".to_string(), Node::Object(inner_map))];
    json_lib::stringify::default::stringify(&Node::Object(outer_map), &mut dest);
    assert_eq!(dest.to_string(), "{\"outer_key\":{\"inner_key\":42}}");
}

#[test]
fn test_stringify_mixed_array() {
    let mut dest = Buffer::new();
    let obj = vec![("key".to_string(), Node::Boolean(true))];
    let array = Node::Array(vec![
        Node::Number(Numeric::Float("1.5".to_string())),
        Node::Array(vec![Node::Str("nested".to_string())]),
        Node::Object(obj),
        Node::Null,
    ]);
    json_lib::stringify::default::stringify(&array, &mut dest);
    assert_eq!(dest.to_string(), "[1.5,[\"nested\"],{\"key\":true},null]");
}

#[test]
fn test_stringify_special_characters() {
    let mut dest = Buffer::new();
    let map = vec![("special\t\n".to_string(), Node::Str("value\u{0001}".to_string()))];
    json_lib::stringify::default::stringify(&Node::Object(map), &mut dest);
    assert_eq!(dest.to_string(), "{\"special\\t\\n\":\"value\\u0001\"}");
}

#[test]
fn test_stringify_number_formats() {
    let mut dest = Buffer::new();
    let array = Node::Array(vec![
        Node::Number(Numeric::Integer(-42)),
        Node::Number(Numeric::UInteger(42)),
        Node::Number(Numeric::Float("42.42".to_string())),
        Node::Number(Numeric::Byte(255)),
        Node::Number(Numeric::Int32(-2147483648)),
        Node::Number(Numeric::UInt32(4294967295)),
    ]);
    json_lib::stringify::default::stringify(&array, &mut dest);
    assert_eq!(dest.to_string(), "[-42,42,42.42,255,-2147483648,4294967295]");
}
