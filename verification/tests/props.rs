use json_lib::io::destinations::buffer::Buffer as BufferDestination;
use json_lib::io::sources::buffer::Buffer as BufferSource;
use json_lib::nodes::node::{Node, Numeric};
use json_lib::parser::default::parse;

fn parse_text(text: &str) -> Node {
    let mut source = BufferSource::new(text.as_bytes());
    parse(&mut source).unwrap()
}

fn to_default(node: &Node) -> String {
    let mut dest = BufferDestination::new();
    json_lib::stringify::default::stringify(node, &mut dest);
    dest.to_string()
}

fn to_bencode_text(node: &Node) -> String {
    let mut dest = BufferDestination::new();
    json_lib::stringify::bencode::stringify(node, &mut dest);
    dest.to_string()
}

#[test]
fn test_empty_forms_parse_and_reserialize() {
    // an empty object in every format that has a form for it
    let obj = parse_text("{}");
    assert_eq!(obj, Node::Object(Vec::new()));
    assert_eq!(to_default(&obj), "{}");
    assert_eq!(to_bencode_text(&obj), "de");
    let mut dest = BufferDestination::new();
    json_lib::stringify::xml::stringify(&obj, &mut dest).unwrap();
    assert_eq!(dest.to_string(), "<object></object>");
    let mut dest = BufferDestination::new();
    json_lib::stringify::yaml::stringify(&obj, &mut dest).unwrap();
    assert_eq!(dest.to_string(), "{}");
    let mut dest = BufferDestination::new();
    json_lib::stringify::toml::stringify(&obj, &mut dest).unwrap();
    assert_eq!(dest.to_string(), "");

    // an empty array likewise
    let arr = parse_text("[]");
    assert_eq!(arr, Node::Array(Vec::new()));
    assert_eq!(to_default(&arr), "[]");
    assert_eq!(to_bencode_text(&arr), "le");
    let mut dest = BufferDestination::new();
    json_lib::stringify::xml::stringify(&arr, &mut dest).unwrap();
    assert_eq!(dest.to_string(), "<array></array>");
    let mut dest = BufferDestination::new();
    json_lib::stringify::yaml::stringify(&arr, &mut dest).unwrap();
    assert_eq!(dest.to_string(), "[]");
}

#[test]
fn test_parse_list_of_integers() {
    assert_eq!(
        parse_text("[1,2,3]"),
        Node::Array(vec![
            Node::Number(Numeric::Integer(1)),
            Node::Number(Numeric::Integer(2)),
            Node::Number(Numeric::Integer(3)),
        ]),
    );
}

#[test]
fn test_parse_object_and_back() {
    let node = parse_text("{\"k\":\"v\"}");
    assert_eq!(
        node,
        Node::Object(vec![("k".to_string(), Node::Str("v".to_string()))]),
    );
    assert_eq!(to_default(&node), "{\"k\":\"v\"}");
}

#[test]
fn test_parse_unicode_escapes_spell_hello() {
    assert_eq!(parse_text("\"\\u0048\\u0065\\u006c\\u006c\\u006f\""), Node::Str("Hello".to_string()));
}

#[test]
fn test_bencode_scenarios() {
    assert_eq!(to_bencode_text(&Node::Number(Numeric::Integer(-42))), "i-42e");
    assert_eq!(to_bencode_text(&Node::Str("test".to_string())), "4:test");
}

#[test]
fn test_bencode_key_order_is_sorted() {
    // the same mapping, entered in two orders, encodes to one text
    let a = Node::Object(vec![
        ("b".to_string(), Node::Str("v1".to_string())),
        ("a".to_string(), Node::Str("v2".to_string())),
    ]);
    let b = Node::Object(vec![
        ("a".to_string(), Node::Str("v2".to_string())),
        ("b".to_string(), Node::Str("v1".to_string())),
    ]);
    assert_eq!(to_bencode_text(&a), "d1:a2:v21:b2:v1e");
    assert_eq!(to_bencode_text(&a), to_bencode_text(&b));
}

#[test]
fn test_toml_mixed_array_is_refused() {
    let root = Node::Object(vec![(
        "x".to_string(),
        Node::Array(vec![
            Node::Number(Numeric::Integer(1)),
            Node::Str("a".to_string()),
        ]),
    )]);
    let mut dest = BufferDestination::new();
    let result = json_lib::stringify::toml::stringify(&root, &mut dest);
    assert!(result.is_err());
    assert_eq!(result.unwrap_err(), "TOML arrays must contain elements of the same type");
    // nothing was written
    assert_eq!(dest.to_string(), "");
}

#[test]
fn test_toml_profile_scenario() {
    let address = vec![("city".to_string(), Node::Str("Paris".to_string()))];
    let profile = vec![
        ("name".to_string(), Node::Str("Alice".to_string())),
        ("address".to_string(), Node::Object(address)),
    ];
    let root = Node::Object(vec![("profile".to_string(), Node::Object(profile))]);
    let mut dest = BufferDestination::new();
    json_lib::stringify::toml::stringify(&root, &mut dest).unwrap();
    assert_eq!(
        dest.to_string(),
        "[profile]\nname = \"Alice\"\n[profile.address]\ncity = \"Paris\"\n",
    );
}

#[test]
fn test_round_trip_nested_tree() {
    let text = "{\"a\":[1,-2,3.5,true,null,\"x\\ny\"],\"b\":{\"c\":\"d\"}}";
    let node = parse_text(text);
    let again = parse_text(&to_default(&node));
    assert_eq!(node, again);
}

#[test]
fn test_round_trip_keeps_float_literal() {
    let node = parse_text("1.230e+2");
    assert_eq!(node, Node::Number(Numeric::Float("1.230e+2".to_string())));
    assert_eq!(to_default(&node), "1.230e+2");
    assert_eq!(parse_text(&to_default(&node)), node);
}

#[test]
fn test_bencode_float_rounding() {
    // rounding is by the decimal digits, halves away from zero
    assert_eq!(to_bencode_text(&Node::Number(Numeric::Float("-42.5".to_string()))), "i-43e");
    assert_eq!(to_bencode_text(&Node::Number(Numeric::Float("0.49".to_string()))), "i0e");
    assert_eq!(to_bencode_text(&Node::Number(Numeric::Float("7.89043e+18".to_string()))), "i7890430000000000000e");
    assert_eq!(to_bencode_text(&Node::Number(Numeric::Float("1e30".to_string()))), format!("i{}e", i64::MAX));
    assert_eq!(to_bencode_text(&Node::Number(Numeric::Float("-1e30".to_string()))), format!("i{}e", i64::MIN));
    assert_eq!(to_bencode_text(&Node::Number(Numeric::Float("1e-30".to_string()))), "i0e");
    // a float that holds no well-formed literal falls back to zero
    assert_eq!(to_bencode_text(&Node::Number(Numeric::Float("oops".to_string()))), "i0e");
}

#[test]
fn test_parse_integer_overflow_is_refused() {
    let mut source = BufferSource::new(b"9223372036854775808");
    assert!(parse(&mut source).is_err());
    let mut source = BufferSource::new(b"9223372036854775807");
    assert_eq!(parse(&mut source).unwrap(), Node::Number(Numeric::Integer(i64::MAX)));
    let mut source = BufferSource::new(b"-9223372036854775808");
    assert_eq!(parse(&mut source).unwrap(), Node::Number(Numeric::Integer(i64::MIN)));
}

#[test]
fn test_parse_error_messages() {
    let mut source = BufferSource::new(b"");
    assert_eq!(parse(&mut source).unwrap_err(), "Empty input");
    let mut source = BufferSource::new(b"@");
    assert_eq!(parse(&mut source).unwrap_err(), "Unexpected character: @");
    let mut source = BufferSource::new(b"tru");
    assert_eq!(parse(&mut source).unwrap_err(), "Expected 'true'");
    let mut source = BufferSource::new(b"fals!");
    assert_eq!(parse(&mut source).unwrap_err(), "Expected 'false'");
    let mut source = BufferSource::new(b"nul");
    assert_eq!(parse(&mut source).unwrap_err(), "Expected 'null'");
    let mut source = BufferSource::new(b"12.3.4");
    assert_eq!(parse(&mut source).unwrap_err(), "Multiple decimal points in number");
    let mut source = BufferSource::new(b"1e");
    assert_eq!(parse(&mut source).unwrap_err(), "Invalid float number");
    let mut source = BufferSource::new(b"-");
    assert_eq!(parse(&mut source).unwrap_err(), "Invalid integer number");
    let mut source = BufferSource::new(b"{\"k\" \"v\"}");
    assert_eq!(parse(&mut source).unwrap_err(), "Expected ':' after object key");
    let mut source = BufferSource::new(b"{\"k\":1 2}");
    assert_eq!(parse(&mut source).unwrap_err(), "Expected ',' or '}' in object");
    let mut source = BufferSource::new(b"[1 2]");
    assert_eq!(parse(&mut source).unwrap_err(), "Expected ',' or ']' in array");
    let mut source = BufferSource::new(b"\"ab");
    assert_eq!(parse(&mut source).unwrap_err(), "Unterminated string");
    let mut source = BufferSource::new(b"\"\\uD800\"");
    assert_eq!(parse(&mut source).unwrap_err(), "Invalid escape sequence");
}

#[test]
fn test_duplicate_keys_overwrite_in_place() {
    let node = parse_text("{\"a\":1,\"b\":2,\"a\":3}");
    assert_eq!(
        node,
        Node::Object(vec![
            ("a".to_string(), Node::Number(Numeric::Integer(3))),
            ("b".to_string(), Node::Number(Numeric::Integer(2))),
        ]),
    );
}

#[test]
fn test_source_decodes_utf8_bytes() {
    // the byte constructor really decodes: a two-byte UTF-8 sequence
    // becomes one character
    let node = parse_text("\"caf\u{e9}\"");
    assert_eq!(node, Node::Str("caf\u{e9}".to_string()));
}

#[test]
fn test_pretty_print_empty_collections() {
    let mut dest = BufferDestination::new();
    json_lib::misc::print(&Node::Array(vec![]), &mut dest, 4, 0);
    assert_eq!(dest.to_string(), "[\n]");
    let mut dest = BufferDestination::new();
    json_lib::misc::print(&Node::Object(Vec::new()), &mut dest, 4, 0);
    assert_eq!(dest.to_string(), "{\n}");
}
