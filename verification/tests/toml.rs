use json_lib::io::destinations::buffer::Buffer as BufferDestination;
use json_lib::io::sources::buffer::Buffer as BufferSource;
use json_lib::nodes::node::{make_node, Node, Numeric};
use json_lib::parser::default::parse;

#[test]
fn toml_test_stringify_array() {
    let mut dest = BufferDestination::new();
    let result = json_lib::stringify::toml::stringify(
        &Node::Array(vec![
            Node::Str("a".to_string()),
            Node::Number(Numeric::Float("1".to_string())),
            Node::Boolean(true),
        ]),
        &mut dest,
    );
    assert!(result.is_err());
    assert_eq!(result.unwrap_err(), "TOML format requires a Object at the root level");
}

#[test]
fn toml_test_stringify_object() {
    let map = vec![("key".to_string(), Node::Str("value".to_string()))];
    let mut dest = BufferDestination::new();
    let _ = json_lib::stringify::toml::stringify(&Node::Object(map), &mut dest);
    assert_eq!(dest.to_string(), "key = \"value\"\n");
}

#[test]
fn test_stringify_non_object_root() {
    let mut dest = BufferDestination::new();
    let result = json_lib::stringify::toml::stringify(&Node::Str("test".to_string()), &mut dest);
    assert!(result.is_err());
    assert_eq!(result.unwrap_err(), "TOML format requires a Object at the root level");
}

#[test]
fn toml_test_stringify_nested_object() {
    let inner = vec![("inner_key".to_string(), Node::Str("value".to_string()))];
    let outer = vec![("outer".to_string(), Node::Object(inner))];
    let mut dest = BufferDestination::new();
    json_lib::stringify::toml::stringify(&Node::Object(outer), &mut dest).unwrap();
    assert_eq!(dest.to_string(), "[outer]\ninner_key = \"value\"\n");
}

#[test]
fn test_stringify_deeply_nested_object() {
    let level3 = vec![("deep_key".to_string(), Node::Number(Numeric::Integer(123)))];
    let level3 = Node::Object(level3);

    let level2 = vec![("level3".to_string(), level3)];
    let level2 = Node::Object(level2);

    let level1 = vec![("level2".to_string(), level2)];
    let level1 = Node::Object(level1);

    let root = vec![("level1".to_string(), level1)];

    let mut dest = BufferDestination::new();
    json_lib::stringify::toml::stringify(&Node::Object(root), &mut dest).unwrap();
    assert_eq!(dest.to_string(), "[level1.level2.level3]\ndeep_key = 123\n");
}

#[test]
fn test_stringify_object_with_multiple_nested_tables_and_values() {
    let address = vec![
        ("city".to_string(), Node::Str("Paris".to_string())),
        ("zip".to_string(), Node::Number(Numeric::Integer(75000))),
    ];

    let profile = vec![
        ("name".to_string(), Node::Str("Alice".to_string())),
        ("age".to_string(), Node::Number(Numeric::Integer(30))),
        ("address".to_string(), Node::Object(address)),
    ];

    let root = vec![
        ("profile".to_string(), Node::Object(profile)),
        ("active".to_string(), Node::Boolean(true)),
    ];

    let mut dest = BufferDestination::new();
    json_lib::stringify::toml::stringify(&Node::Object(root), &mut dest).unwrap();
    assert_eq!(
        dest.to_string(),
        "active = true\n[profile]\nage = 30\nname = \"Alice\"\n[profile.address]\ncity = \"Paris\"\nzip = 75000\n",
    );
}

#[test]
fn test_stringify_simple_array_of_tables() {
    let table1 = vec![("name".to_string(), Node::Str("First".to_string()))];
    let table2 = vec![("name".to_string(), Node::Str("Second".to_string()))];

    let array = vec![Node::Object(table1), Node::Object(table2)];
    let root = vec![("items".to_string(), Node::Array(array))];

    let mut dest = BufferDestination::new();
    json_lib::stringify::toml::stringify(&Node::Object(root), &mut dest).unwrap();
    assert_eq!(dest.to_string(), "[[items]]\nname = \"First\"\n[[items]]\nname = \"Second\"\n");
}

#[test]
fn test_stringify_table() {
    let mut source = BufferSource::new(
        "{\r\n    \"colors\": [\r\n        {\r\n            \"color\": \"black\",\r\n            \"category\": \"hue\",\r\n            \"type\": \"primary\",\r\n            \"code\": {\r\n                \"rgba\": [\r\n                    255,\r\n                    255,\r\n                    255,\r\n                    1\r\n                ],\r\n                \"hex\": \"#000\"\r\n            }\r\n        }\r\n    ]\r\n}".as_bytes(),
    );
    let node = parse(&mut source).unwrap();
    let mut dest = BufferDestination::new();
    json_lib::stringify::toml::stringify(&node, &mut dest).unwrap();
    assert_eq!(
        dest.to_string(),
        "[[colors]]\ncategory = \"hue\"\ncolor = \"black\"\ntype = \"primary\"\n[colors.code]\nhex = \"#000\"\nrgba = [255, 255, 255, 1]\n",
    );
}

#[test]
fn test_stringify_nested_array_of_tables() {
    let batter1 = vec![
        ("id".to_string(), Node::Str("1001".to_string())),
        ("type".to_string(), Node::Str("Regular".to_string())),
    ];

    let batter2 = vec![
        ("id".to_string(), Node::Str("1002".to_string())),
        ("type".to_string(), Node::Str("Chocolate".to_string())),
    ];

    let batters = vec![Node::Object(batter1), Node::Object(batter2)];
    let batters_obj = vec![("batter".to_string(), Node::Array(batters))];

    let item = vec![
        ("batters".to_string(), Node::Object(batters_obj)),
        ("name".to_string(), Node::Str("Cake".to_string())),
    ];

    let items = vec![Node::Object(item)];
    let root = vec![("items".to_string(), Node::Array(items))];

    let mut dest = BufferDestination::new();
    json_lib::stringify::toml::stringify(&Node::Object(root), &mut dest).unwrap();
    assert_eq!(
        dest.to_string(),
        "[[items]]\nname = \"Cake\"\n[[items.batters.batter]]\nid = \"1001\"\ntype = \"Regular\"\n[[items.batters.batter]]\nid = \"1002\"\ntype = \"Chocolate\"\n",
    );
}

#[test]
fn test_stringify_complex_array_of_tables() {
    let code1 = vec![
        ("hex".to_string(), Node::Str("#000".to_string())),
        (
            "rgba".to_string(),
            Node::Array(vec![
                Node::Number(Numeric::Integer(0)),
                Node::Number(Numeric::Integer(0)),
                Node::Number(Numeric::Integer(0)),
                Node::Number(Numeric::Integer(1)),
            ]),
        ),
    ];

    let color1 = vec![
        ("name".to_string(), Node::Str("black".to_string())),
        ("code".to_string(), Node::Object(code1)),
    ];

    let colors = vec![Node::Object(color1)];
    let root = vec![("colors".to_string(), Node::Array(colors))];

    let mut dest = BufferDestination::new();
    json_lib::stringify::toml::stringify(&Node::Object(root), &mut dest).unwrap();
    assert_eq!(
        dest.to_string(),
        "[[colors]]\nname = \"black\"\n[colors.code]\nhex = \"#000\"\nrgba = [0, 0, 0, 1]\n",
    );
}

#[test]
fn test_stringify_nested_array() {
    let mut source = BufferSource::new(b"{ \"info\": {\r\n    \"files\": [\r\n      {\r\n        \"length\": 351874,\r\n        \"path\": [\r\n          \"large.jpeg\"\r\n        ]\r\n      },\r\n      {\r\n        \"length\": 100,\r\n        \"path\": [\r\n          \"2\"\r\n        ]\r\n        \r\n      }\r\n      ]\r\n    }\r\n      \r\n   }.");
    let node = parse(&mut source).unwrap();
    let mut dest = BufferDestination::new();
    json_lib::stringify::toml::stringify(&node, &mut dest).unwrap();
    assert_eq!(
        dest.to_string(),
        "[[info.files]]\nlength = 351874\npath = [\"large.jpeg\"]\n[[info.files]]\nlength = 100\npath = [\"2\"]\n",
    );
}

#[test]
fn test_stringify_nested_object_with_array() {
    let mut source = BufferSource::new(b"{ \"info\": {\r\n    \"file\": {\"length\": 351874,\r\n        \"path\": [\r\n\"large.jpeg\"\r\n]}}}");
    let node = parse(&mut source).unwrap();
    let mut dest = BufferDestination::new();
    json_lib::stringify::toml::stringify(&node, &mut dest).unwrap();
    assert_eq!(dest.to_string(), "[info.file]\nlength = 351874\npath = [\"large.jpeg\"]\n");
}

#[test]
fn test_nested_array_tables() {
    let mut dest = BufferDestination::new();
    let deepest = vec![("value".to_string(), make_node(42i32))];

    let inner = vec![(
        "nested".to_string(),
        make_node(vec![make_node(Node::Object(deepest))]),
    )];

    let dict = vec![("items".to_string(), make_node(vec![make_node(Node::Object(inner))]))];

    json_lib::stringify::toml::stringify(&Node::Object(dict), &mut dest).unwrap();
    assert_eq!(dest.to_string(), "[[items]]\n[items.nested]\nvalue = 42\n");
}
