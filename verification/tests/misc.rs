use json_lib::io::destinations::buffer::Buffer as BufferDestination;
use json_lib::io::sources::buffer::Buffer as BufferSource;
use json_lib::misc::{get_version, print, strip};
use json_lib::nodes::node::{Node, Numeric};

#[test]
fn test_get_version_env() {
    assert_eq!(get_version(), "0.1.0");
}

#[test]
fn test_print_boolean() {
    let mut dest = BufferDestination::new();
    print(&Node::Boolean(true), &mut dest, 0, 0);
    assert_eq!(dest.to_string(), "true");
}

#[test]
fn test_print_numeric() {
    let mut dest = BufferDestination::new();
    print(&Node::Number(Numeric::Integer(42)), &mut dest, 0, 0);
    assert_eq!(dest.to_string(), "42");
}

#[test]
fn test_print_string() {
    let mut dest = BufferDestination::new();
    print(&Node::Str("hello".to_string()), &mut dest, 0, 0);
    assert_eq!(dest.to_string(), "\"hello\"");
}

#[test]
fn test_print_array() {
    let mut dest = BufferDestination::new();
    print(
        &Node::Array(vec![Node::Boolean(true), Node::Number(Numeric::Integer(1))]),
        &mut dest,
        0,
        0,
    );
    assert_eq!(dest.to_string(), "[\ntrue,\n1\n]");
}

#[test]
fn test_print_object() {
    let mut dest = BufferDestination::new();
    let map = vec![("key".to_string(), Node::Str("value".to_string()))];
    print(&Node::Object(map), &mut dest, 0, 0);
    assert_eq!(dest.to_string(), "{\n\"key\": \"value\"\n}");
}

#[test]
fn test_print_null() {
    let mut dest = BufferDestination::new();
    print(&Node::Null, &mut dest, 0, 0);
    assert_eq!(dest.to_string(), "null");
}

#[test]
fn test_strip_basic_object() {
    let json = "{ \"name\" :  \"value\" }";
    let mut source = BufferSource::new(json.as_bytes());
    let mut dest = BufferDestination::new();
    strip(&mut source, &mut dest);
    assert_eq!(dest.to_string(), "{\"name\":\"value\"}");
}

#[test]
fn test_strip_string_content() {
    let json = "{ \"text\" : \"  keep  spaces  \" }";
    let mut source = BufferSource::new(json.as_bytes());
    let mut dest = BufferDestination::new();
    strip(&mut source, &mut dest);
    assert_eq!(dest.to_string(), "{\"text\":\"  keep  spaces  \"}");
}

#[test]
fn test_strip_nested_structure() {
    let json = "{\n \"array\": [\n  1,\n  2\n ]\n}";
    let mut source = BufferSource::new(json.as_bytes());
    let mut dest = BufferDestination::new();
    strip(&mut source, &mut dest);
    assert_eq!(dest.to_string(), "{\"array\":[1,2]}");
}

#[test]
fn test_print_with_indent() {
    let mut dest = BufferDestination::new();
    let map = vec![("key".to_string(), Node::Array(vec![Node::Number(Numeric::Integer(7))]))];
    print(&Node::Object(map), &mut dest, 2, 0);
    assert_eq!(dest.to_string(), "{\n  \"key\": [\n    7\n  ]\n}");
}

#[test]
fn test_strip_escaped_quote() {
    let json = "{ \"a\" : \"x \\\" y\" }";
    let mut source = BufferSource::new(json.as_bytes());
    let mut dest = BufferDestination::new();
    strip(&mut source, &mut dest);
    assert_eq!(dest.to_string(), "{\"a\":\"x \\\" y\"}");
}

#[test]
fn test_strip_idempotent_concrete() {
    let json = " { \"a b\" : [ 1 , \"c  d\" ] } ";
    let mut source = BufferSource::new(json.as_bytes());
    let mut dest = BufferDestination::new();
    strip(&mut source, &mut dest);
    let once = dest.to_string();
    let mut source2 = BufferSource::new(once.as_bytes());
    let mut dest2 = BufferDestination::new();
    strip(&mut source2, &mut dest2);
    assert_eq!(dest2.to_string(), once);
}
