use json_lib::io::destinations::buffer::Buffer;
use json_lib::nodes::node::{Node, Numeric};

#[test]
fn xml_test_stringify_null() {
    let mut dest = Buffer::new();
    json_lib::stringify::xml::stringify(&Node::Null, &mut dest).unwrap();
    assert_eq!(dest.to_string(), "<null/>");
}

#[test]
fn xml_test_stringify_boolean() {
    let mut dest = Buffer::new();
    json_lib::stringify::xml::stringify(&Node::Boolean(true), &mut dest).unwrap();
    assert_eq!(dest.to_string(), "<boolean>true</boolean>");
}

#[test]
fn xml_test_stringify_boolean_false() {
    let mut dest = Buffer::new();
    json_lib::stringify::xml::stringify(&Node::Boolean(false), &mut dest).unwrap();
    assert_eq!(dest.to_string(), "<boolean>false</boolean>");
}

#[test]
fn xml_test_stringify_number() {
    let mut dest = Buffer::new();
    json_lib::stringify::xml::stringify(&Node::Number(Numeric::Float("42.5".to_string())), &mut dest).unwrap();
    assert_eq!(dest.to_string(), "<number>42.5</number>");
}

#[test]
fn xml_test_stringify_all_numbers() {
    let mut dest = Buffer::new();
    json_lib::stringify::xml::stringify(&Node::Number(Numeric::Integer(-42)), &mut dest).unwrap();
    assert_eq!(dest.to_string(), "<number>-42</number>");

    dest = Buffer::new();
    json_lib::stringify::xml::stringify(&Node::Number(Numeric::UInteger(42)), &mut dest).unwrap();
    assert_eq!(dest.to_string(), "<number>42</number>");

    dest = Buffer::new();
    json_lib::stringify::xml::stringify(&Node::Number(Numeric::Byte(255)), &mut dest).unwrap();
    assert_eq!(dest.to_string(), "<number>255</number>");

    dest = Buffer::new();
    json_lib::stringify::xml::stringify(&Node::Number(Numeric::Int32(-2147483648)), &mut dest).unwrap();
    assert_eq!(dest.to_string(), "<number>-2147483648</number>");

    dest = Buffer::new();
    json_lib::stringify::xml::stringify(&Node::Number(Numeric::UInt32(4294967295)), &mut dest).unwrap();
    assert_eq!(dest.to_string(), "<number>4294967295</number>");
}

#[test]
fn xml_test_stringify_string() {
    let mut dest = Buffer::new();
    json_lib::stringify::xml::stringify(&Node::Str("Hello & World".to_string()), &mut dest).unwrap();
    assert_eq!(dest.to_string(), "<string>Hello &amp; World</string>");
}

#[test]
fn xml_test_stringify_special_chars() {
    let mut dest = Buffer::new();
    json_lib::stringify::xml::stringify(&Node::Str("<>&\"'".to_string()), &mut dest).unwrap();
    assert_eq!(dest.to_string(), "<string>&lt;&gt;&amp;&quot;&apos;</string>");
}

#[test]
fn xml_test_stringify_array() {
    let mut dest = Buffer::new();
    json_lib::stringify::xml::stringify(
        &Node::Array(vec![
            Node::Number(Numeric::Integer(1)),
            Node::Str("test".to_string()),
        ]),
        &mut dest,
    )
        .unwrap();
    assert_eq!(
        dest.to_string(),
        "<array><item><number>1</number></item><item><string>test</string></item></array>",
    );
}

#[test]
fn xml_test_stringify_object() {
    let mut dest = Buffer::new();
    let map = vec![("key".to_string(), Node::Str("value".to_string()))];
    json_lib::stringify::xml::stringify(&Node::Object(map), &mut dest).unwrap();
    assert_eq!(
        dest.to_string(),
        "<object><entry><key>key</key><value><string>value</string></value></entry></object>",
    );
}

#[test]
fn xml_test_stringify_complex_nested() {
    let mut dest = Buffer::new();
    let inner_map = vec![(
        "inner".to_string(),
        Node::Array(vec![
            Node::Boolean(true),
            Node::Null,
            Node::Number(Numeric::Float("42.5".to_string())),
        ]),
    )];
    let outer_map = vec![("outer<".to_string(), Node::Object(inner_map))];
    json_lib::stringify::xml::stringify(&Node::Object(outer_map), &mut dest).unwrap();
    assert_eq!(
        dest.to_string(),
        "<object><entry><key>outer&lt;</key><value><object><entry><key>inner</key><value><array><item><boolean>true</boolean></item><item><null/></item><item><number>42.5</number></item></array></value></entry></object></value></entry></object>",
    );
}

#[test]
fn xml_test_stringify_empty_array() {
    let mut dest = Buffer::new();
    json_lib::stringify::xml::stringify(&Node::Array(vec![]), &mut dest).unwrap();
    assert_eq!(dest.to_string(), "<array></array>");
}

#[test]
fn xml_test_stringify_empty_object() {
    let mut dest = Buffer::new();
    json_lib::stringify::xml::stringify(&Node::Object(Vec::new()), &mut dest).unwrap();
    assert_eq!(dest.to_string(), "<object></object>");
}

#[test]
fn test_stringify_unicode_string() {
    let mut dest = Buffer::new();
    json_lib::stringify::xml::stringify(&Node::Str("Hello 🦀 World".to_string()), &mut dest).unwrap();
    assert_eq!(dest.to_string(), "<string>Hello 🦀 World</string>");
}

#[test]
fn test_stringify_large_numbers() {
    let mut dest = Buffer::new();
    json_lib::stringify::xml::stringify(&Node::Number(Numeric::Float(f64::MAX.to_string())), &mut dest).unwrap();
    assert_eq!(dest.to_string(), format!("<number>{}</number>", f64::MAX));
}
