use json_lib::io::destinations::buffer::Buffer;
use json_lib::nodes::node::{Node, Numeric};

#[test]
fn bencode_test_stringify_none() {
    let mut dest = Buffer::new();
    json_lib::stringify::bencode::stringify(&Node::Null, &mut dest);
    assert_eq!(dest.to_string(), "");
}

#[test]
fn bencode_test_stringify_boolean() {
    let mut dest = Buffer::new();
    json_lib::stringify::bencode::stringify(&Node::Boolean(true), &mut dest);
    assert_eq!(dest.to_string(), "i1e");

    let mut dest = Buffer::new();
    json_lib::stringify::bencode::stringify(&Node::Boolean(false), &mut dest);
    assert_eq!(dest.to_string(), "i0e");
}

#[test]
fn bencode_test_stringify_numbers() {
    let mut dest = Buffer::new();
    json_lib::stringify::bencode::stringify(&Node::Number(Numeric::Integer(-42)), &mut dest);
    assert_eq!(dest.to_string(), "i-42e");

    let mut dest = Buffer::new();
    json_lib::stringify::bencode::stringify(&Node::Number(Numeric::UInteger(42)), &mut dest);
    assert_eq!(dest.to_string(), "i42e");

    let mut dest = Buffer::new();
    json_lib::stringify::bencode::stringify(&Node::Number(Numeric::Float("42.7".to_string())), &mut dest);
    assert_eq!(dest.to_string(), "i43e");

    let mut dest = Buffer::new();
    json_lib::stringify::bencode::stringify(&Node::Number(Numeric::Byte(255)), &mut dest);
    assert_eq!(dest.to_string(), "i255e");

    let mut dest = Buffer::new();
    json_lib::stringify::bencode::stringify(&Node::Number(Numeric::Int32(-2147483648)), &mut dest);
    assert_eq!(dest.to_string(), "i-2147483648e");

    let mut dest = Buffer::new();
    json_lib::stringify::bencode::stringify(&Node::Number(Numeric::UInt32(4294967295)), &mut dest);
    assert_eq!(dest.to_string(), "i4294967295e");
}

#[test]
fn bencode_test_stringify_string() {
    let mut dest = Buffer::new();
    json_lib::stringify::bencode::stringify(&Node::Str("test".to_string()), &mut dest);
    assert_eq!(dest.to_string(), "4:test");
}

#[test]
fn bencode_test_stringify_array() {
    let mut dest = Buffer::new();
    json_lib::stringify::bencode::stringify(
        &Node::Array(vec![
            Node::Number(Numeric::Integer(1)),
            Node::Str("test".to_string()),
        ]),
        &mut dest,
    );
    assert_eq!(dest.to_string(), "li1e4:teste");

    let mut dest = Buffer::new();
    json_lib::stringify::bencode::stringify(&Node::Array(vec![]), &mut dest);
    assert_eq!(dest.to_string(), "le");
}

#[test]
fn bencode_test_stringify_object() {
    let mut dest = Buffer::new();
    let map = vec![
        ("b".to_string(), Node::Str("value1".to_string())),
        ("a".to_string(), Node::Str("value2".to_string())),
    ];
    json_lib::stringify::bencode::stringify(&Node::Object(map), &mut dest);
    assert_eq!(dest.to_string(), "d1:a6:value21:b6:value1e");

    let mut dest = Buffer::new();
    json_lib::stringify::bencode::stringify(&Node::Object(Vec::new()), &mut dest);
    assert_eq!(dest.to_string(), "de");
}

#[test]
fn bencode_test_stringify_empty_string() {
    let mut dest = Buffer::new();
    json_lib::stringify::bencode::stringify(&Node::Str("".to_string()), &mut dest);
    assert_eq!(dest.to_string(), "0:");
}

#[test]
fn test_stringify_nested_empty() {
    let mut dest = Buffer::new();
    let inner_map: Vec<(String, Node)> = Vec::new();
    let outer_map = vec![
        ("empty_object".to_string(), Node::Object(inner_map)),
        ("empty_array".to_string(), Node::Array(vec![])),
        ("empty_string".to_string(), Node::Str("".to_string())),
    ];
    json_lib::stringify::bencode::stringify(&Node::Object(outer_map), &mut dest);
    assert_eq!(dest.to_string(), "d11:empty_arrayle12:empty_objectde12:empty_string0:e");
}

#[test]
fn bencode_test_stringify_nested_object() {
    let inner_map = vec![
        ("a".to_string(), Node::Str("value1".to_string())),
        ("b".to_string(), Node::Str("value2".to_string())),
    ];
    let mut outer_map = Vec::new();
    outer_map.push(("inner".to_string(), Node::Object(inner_map)));
}
