use json_lib::io::destinations::buffer::Buffer;
use json_lib::nodes::node::{Node, Numeric};

#[test]
fn yaml_test_stringify_null() {
    let mut dest = Buffer::new();
    json_lib::stringify::yaml::stringify(&Node::Null, &mut dest).unwrap();
    assert_eq!(dest.to_string(), "null");
}

#[test]
fn yaml_test_stringify_boolean() {
    let mut dest = Buffer::new();
    json_lib::stringify::yaml::stringify(&Node::Boolean(true), &mut dest).unwrap();
    assert_eq!(dest.to_string(), "true");
    dest.clear();
    json_lib::stringify::yaml::stringify(&Node::Boolean(false), &mut dest).unwrap();
    assert_eq!(dest.to_string(), "false");
}

#[test]
fn yaml_test_stringify_numbers() {
    let mut dest = Buffer::new();
    let test_cases = vec![
        (Node::Number(Numeric::Integer(-42)), "-42"),
        (Node::Number(Numeric::UInteger(42)), "42"),
        (Node::Number(Numeric::Float("42.5".to_string())), "42.5"),
        (Node::Number(Numeric::Byte(255)), "255"),
        (Node::Number(Numeric::Int32(-2147483648)), "-2147483648"),
        (Node::Number(Numeric::UInt32(4294967295)), "4294967295"),
    ];
    for (node, expected) in test_cases {
        dest.clear();
        json_lib::stringify::yaml::stringify(&node, &mut dest).unwrap();
        assert_eq!(dest.to_string(), expected);
    }
}

#[test]
fn yaml_test_stringify_string() {
    let mut dest = Buffer::new();
    json_lib::stringify::yaml::stringify(&Node::Str("simple".to_string()), &mut dest).unwrap();
    assert_eq!(dest.to_string(), "simple");

    dest.clear();
    json_lib::stringify::yaml::stringify(&Node::Str("multi\nline".to_string()), &mut dest).unwrap();
    assert_eq!(dest.to_string(), "|\n  multi\n  line\n");

    dest.clear();
    json_lib::stringify::yaml::stringify(&Node::Str("with \"quotes\"".to_string()), &mut dest).unwrap();
    assert_eq!(dest.to_string(), "|\n  with \"quotes\"\n");
}

#[test]
fn yaml_test_stringify_array() {
    let mut dest = Buffer::new();
    json_lib::stringify::yaml::stringify(&Node::Array(vec![]), &mut dest).unwrap();
    assert_eq!(dest.to_string(), "[]");

    dest.clear();
    json_lib::stringify::yaml::stringify(
        &Node::Array(vec![
            Node::Number(Numeric::Integer(1)),
            Node::Str("test".to_string()),
        ]),
        &mut dest,
    )
        .unwrap();
    assert_eq!(dest.to_string(), "\n- 1\n- test\n");
}

#[test]
fn yaml_test_stringify_object() {
    let mut dest = Buffer::new();
    json_lib::stringify::yaml::stringify(&Node::Object(Vec::new()), &mut dest).unwrap();
    assert_eq!(dest.to_string(), "{}");

    dest.clear();
    let map = vec![("key".to_string(), Node::Str("value".to_string()))];
    json_lib::stringify::yaml::stringify(&Node::Object(map), &mut dest).unwrap();
    assert_eq!(dest.to_string(), "\nkey: value\n");
}

#[test]
fn yaml_test_stringify_complex() {
    let mut dest = Buffer::new();
    let inner_map = vec![(
        "nested".to_string(),
        Node::Array(vec![Node::Boolean(true), Node::Str("multi\nline".to_string())]),
    )];
    let outer_map = vec![("test".to_string(), Node::Object(inner_map))];
    json_lib::stringify::yaml::stringify(&Node::Object(outer_map), &mut dest).unwrap();
    assert_eq!(
        dest.to_string(),
        "\ntest: \n  nested: \n    - true\n    - |\n        multi\n        line\n\n\n\n",
    );
}

#[test]
fn yaml_test_stringify_empty_array() {
    let mut dest = Buffer::new();
    json_lib::stringify::yaml::stringify(&Node::Array(vec![]), &mut dest).unwrap();
    assert_eq!(dest.to_string(), "[]");
}

#[test]
fn test_stringify_nested_arrays() {
    let mut dest = Buffer::new();
    json_lib::stringify::yaml::stringify(
        &Node::Array(vec![
            Node::Array(vec![
                Node::Number(Numeric::Integer(1)),
                Node::Number(Numeric::Integer(2)),
            ]),
            Node::Array(vec![
                Node::Number(Numeric::Integer(3)),
                Node::Number(Numeric::Integer(4)),
            ]),
        ]),
        &mut dest,
    )
        .unwrap();
    assert_eq!(dest.to_string(), "\n- \n  - 1\n  - 2\n\n- \n  - 3\n  - 4\n\n");
}

#[test]
fn test_stringify_complex_string() {
    let mut dest = Buffer::new();
    json_lib::stringify::yaml::stringify(&Node::Str("Hello \"world\"\nWith\nMultiple\nLines".to_string()), &mut dest)
        .unwrap();
    assert_eq!(dest.to_string(), "|\n  Hello \"world\"\n  With\n  Multiple\n  Lines\n");
}

#[test]
fn test_stringify_array_with_empty_object() {
    let mut dest = Buffer::new();
    json_lib::stringify::yaml::stringify(
        &Node::Array(vec![Node::Object(Vec::new()), Node::Number(Numeric::Integer(1))]),
        &mut dest,
    )
        .unwrap();
    assert_eq!(dest.to_string(), "\n- {}\n- 1\n");
}

#[test]
fn yaml_test_stringify_empty_object() {
    let mut dest = Buffer::new();
    json_lib::stringify::yaml::stringify(&Node::Object(Vec::new()), &mut dest).unwrap();
    assert_eq!(dest.to_string(), "{}");
}

#[test]
fn yaml_test_stringify_empty_string() {
    let mut dest = Buffer::new();
    json_lib::stringify::yaml::stringify(&Node::Str("".to_string()), &mut dest).unwrap();
}

#[test]
fn test_stringify_empty_number() {
    let mut dest = Buffer::new();
    json_lib::stringify::yaml::stringify(&Node::Number(Numeric::Integer(0)), &mut dest).unwrap();
    assert_eq!(dest.to_string(), "0");
}

#[test]
fn test_stringify_empty_boolean() {
    let mut dest = Buffer::new();
    json_lib::stringify::yaml::stringify(&Node::Boolean(false), &mut dest).unwrap();
    assert_eq!(dest.to_string(), "false");
}

#[test]
fn test_stringify_empty_null() {
    let mut dest = Buffer::new();
    json_lib::stringify::yaml::stringify(&Node::Null, &mut dest).unwrap();
    assert_eq!(dest.to_string(), "null");
}

#[test]
fn test_stringify_empty_array_with_empty_string() {
    let mut dest = Buffer::new();
    json_lib::stringify::yaml::stringify(
        &Node::Array(vec![Node::Str("".to_string()), Node::Number(Numeric::Integer(1))]),
        &mut dest,
    )
        .unwrap();
    assert_eq!(dest.to_string(), "\n- \n- 1\n");
}
