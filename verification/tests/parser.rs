use json_lib::io::sources::buffer::Buffer;
use json_lib::nodes::node::{Node, Numeric};
use json_lib::parser::default::parse;

#[test]
fn test_parse_null() {
    let mut source = Buffer::new(b"null");
    assert!(matches!(parse(&mut source), Ok(Node::Null)));
}

#[test]
fn test_parse_true() {
    let mut source = Buffer::new(b"true");
    assert!(matches!(parse(&mut source), Ok(Node::Boolean(true))));
}

#[test]
fn test_parse_false() {
    let mut source = Buffer::new(b"false");
    assert!(matches!(parse(&mut source), Ok(Node::Boolean(false))));
}

#[test]
fn test_parse_string() {
    let mut source = Buffer::new(b"\"hello\"");
    assert!(matches!(parse(&mut source), Ok(Node::Str(s)) if s == "hello"));
}

#[test]
fn test_parse_escaped_string() {
    let mut source = Buffer::new(b"\"hello\\\"world\"");
    assert!(matches!(parse(&mut source), Ok(Node::Str(s)) if s == "hello\"world"));
}

#[test]
fn test_parse_number_integer() {
    let mut source = Buffer::new(b"123");
    assert!(matches!(parse(&mut source), Ok(Node::Number(Numeric::Integer(123)))));
}

#[test]
fn test_parse_number_float() {
    let mut source = Buffer::new(b"123.45");
    assert!(
        matches!(parse(&mut source), Ok(Node::Number(Numeric::Float(n))) if (n.parse::<f64>().unwrap() - 123.45).abs() < f64::EPSILON)
    );
}

#[test]
fn test_parse_array() {
    let mut source = Buffer::new(b"[1,2,3]");
    match parse(&mut source) {
        Ok(Node::Array(arr)) => assert_eq!(arr.len(), 3),
        _ => panic!("Expected array"),
    }
}

#[test]
fn test_parse_object() {
    let mut source = Buffer::new(b"{\"key\":\"value\"}");
    match parse(&mut source) {
        Ok(Node::Object(obj)) => assert_eq!(obj.len(), 1),
        _ => panic!("Expected object"),
    }
}

#[test]
fn test_parse_empty_array() {
    let mut source = Buffer::new(b"[]");
    match parse(&mut source) {
        Ok(Node::Array(arr)) => assert_eq!(arr.len(), 0),
        _ => panic!("Expected empty array"),
    }
}

#[test]
fn test_parse_empty_object() {
    let mut source = Buffer::new(b"{}");
    match parse(&mut source) {
        Ok(Node::Object(obj)) => assert_eq!(obj.len(), 0),
        _ => panic!("Expected empty object"),
    }
}

#[test]
fn test_invalid_number() {
    let mut source = Buffer::new(b"12.34.56");
    assert!(parse(&mut source).is_err());
}

#[test]
fn test_invalid_escape() {
    let mut source = Buffer::new(b"\"\\x\"");
    assert!(parse(&mut source).is_err());
}

#[test]
fn test_unterminated_string() {
    let mut source = Buffer::new(b"\"unterminated");
    assert!(parse(&mut source).is_err());
}

#[test]
fn test_whitespace() {
    let mut source = Buffer::new(b" \t\n\r{} ");
    match parse(&mut source) {
        Ok(Node::Object(obj)) => assert_eq!(obj.len(), 0),
        _ => panic!("Expected empty object"),
    }
}

#[test]
fn test_unicode_escape() {
    let mut source = Buffer::new(b"\"\\u0048\\u0065\\u006c\\u006c\\u006f\"");
    assert!(matches!(parse(&mut source), Ok(Node::Str(s)) if s == "Hello"));
}

#[test]
fn test_mixed_unicode_escape() {
    let mut source = Buffer::new(b"\"Hello, \\u0057\\u006f\\u0072\\u006c\\u0064!\"");
    assert!(matches!(parse(&mut source), Ok(Node::Str(s)) if s == "Hello, World!"));
}

#[test]
fn test_invalid_unicode_escape() {
    let mut source = Buffer::new(b"\"\\u00\"");
    assert!(parse(&mut source).is_err());
}

#[test]
fn test_invalid_unicode_hex() {
    let mut source = Buffer::new(b"\"\\u00zz\"");
    assert!(parse(&mut source).is_err());
}

#[test]
fn test_parse_negative_number() {
    let mut source = Buffer::new(b"-123");
    assert!(matches!(parse(&mut source), Ok(Node::Number(Numeric::Integer(-123)))));

    let mut source = Buffer::new(b"-123.45");
    assert!(
        matches!(parse(&mut source), Ok(Node::Number(Numeric::Float(n))) if (n.parse::<f64>().unwrap() - -123.45).abs() < f64::EPSILON)
    );
}

#[test]
fn test_parse_scientific_notation() {
    let mut source = Buffer::new(b"1.23e+2");
    assert!(
        matches!(parse(&mut source), Ok(Node::Number(Numeric::Float(n))) if (n.parse::<f64>().unwrap() - 123.0).abs() < f64::EPSILON)
    );

    let mut source = Buffer::new(b"1.23E-2");
    assert!(
        matches!(parse(&mut source), Ok(Node::Number(Numeric::Float(n))) if (n.parse::<f64>().unwrap() - 0.0123).abs() < f64::EPSILON)
    );
}

#[test]
fn test_parse_complex_object() {
    let mut source = Buffer::new(b"{\"array\":[1,{\"nested\":true},null],\"string\":\"value\"}");
    match parse(&mut source) {
        Ok(Node::Object(obj)) => {
            assert_eq!(obj.len(), 2);
            assert!(obj.iter().any(|e| e.0 == "array"));
            assert!(obj.iter().any(|e| e.0 == "string"));
        },
        _ => panic!("Expected complex object"),
    }
}

#[test]
fn test_invalid_syntax() {
    let mut source = Buffer::new(b"{\"key\": value}");
    assert!(parse(&mut source).is_err());

    let mut source = Buffer::new(b"[1,2,]");
    assert!(parse(&mut source).is_err());

    let mut source = Buffer::new(b"{,}");
    assert!(parse(&mut source).is_err());
}

#[test]
fn test_string_escapes() {
    let mut source = Buffer::new(b"\"\\\"\\\\\\/\\b\\f\\n\\r\\t\"");
    assert!(matches!(parse(&mut source), Ok(Node::Str(s)) if s == "\"\\/\x08\x0c\n\r\t"));
}
