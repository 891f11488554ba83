use json_lib::nodes::node::{make_node, Node, Numeric};

#[test]
fn test_make_node_integers() {
    assert_eq!(make_node(42i64), Node::Number(Numeric::Integer(42)));
    assert_eq!(make_node(42u64), Node::Number(Numeric::UInteger(42)));
    assert_eq!(make_node(7u8), Node::Number(Numeric::Byte(7)));
    assert_eq!(make_node(-5i32), Node::Number(Numeric::Int32(-5)));
    assert_eq!(make_node(5u32), Node::Number(Numeric::UInt32(5)));
    assert_eq!(make_node(-5i16), Node::Number(Numeric::Int16(-5)));
    assert_eq!(make_node(5u16), Node::Number(Numeric::UInt16(5)));
    assert_eq!(make_node(-5i8), Node::Number(Numeric::Int8(-5)));
}

#[test]
fn test_make_node_bool_and_string() {
    assert_eq!(make_node(true), Node::Boolean(true));
    assert_eq!(make_node("x".to_string()), Node::Str("x".to_string()));
}

#[test]
fn test_make_node_collections() {
    assert_eq!(
        make_node(vec![Node::Boolean(false)]),
        Node::Array(vec![Node::Boolean(false)]),
    );
    assert_eq!(
        make_node(vec![("k".to_string(), Node::Null)]),
        Node::Object(vec![("k".to_string(), Node::Null)]),
    );
}

#[test]
fn test_numeric_from() {
    assert_eq!(Numeric::from(1i64), Numeric::Integer(1));
    assert_eq!(Numeric::from(1u64), Numeric::UInteger(1));
    assert_eq!(Numeric::from(1u8), Numeric::Byte(1));
    assert_eq!(Numeric::from(1i32), Numeric::Int32(1));
    assert_eq!(Numeric::from(1u32), Numeric::UInt32(1));
    assert_eq!(Numeric::from(1i16), Numeric::Int16(1));
    assert_eq!(Numeric::from(1u16), Numeric::UInt16(1));
    assert_eq!(Numeric::from(1i8), Numeric::Int8(1));
}

#[test]
fn test_debug_fallback_widths() {
    // the widths without a rendering of their own fall back to their debug
    // form in the serializers
    let mut dest = json_lib::BufferDestination::new();
    json_lib::stringify::default::stringify(&Node::Number(Numeric::Int16(-5)), &mut dest);
    assert_eq!(dest.to_string(), "Int16(-5)");
    let mut dest = json_lib::BufferDestination::new();
    json_lib::stringify::bencode::stringify(&Node::Number(Numeric::Int8(3)), &mut dest);
    assert_eq!(dest.to_string(), "iInt8(3)e");
    // the pretty-printer renders every width numerically
    let mut dest = json_lib::BufferDestination::new();
    json_lib::misc::print(&Node::Number(Numeric::Int16(-5)), &mut dest, 0, 0);
    assert_eq!(dest.to_string(), "-5");
}
