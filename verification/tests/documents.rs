use figtree::{Figtree, ParseError, LexError, LexToken, Position, Value, Node, Document, Dict};

#[test]
fn construct_empty_file() {
    let mut figgy = Figtree::from_string("");
    let config = figgy.parse().unwrap();
    assert!(config.is_empty());
}

#[test]
fn construct_empty_nodes_in_file() {
    let mut figgy = Figtree::from_string("node {} hello { nested {} }");
    let config = figgy.parse().unwrap();
    assert_eq!(config.node_count(), 2);
}

#[test]
fn construct_key_value_pairs_from_file() {
    let mut figgy =
        Figtree::from_string("node { 'str': 's', 'int': 5, 'float': 3.4, 'bool': true, 'ident': !gh }");
    let config = figgy.parse().unwrap();
    let node = config.get_node("node").unwrap();
    assert_eq!(node.get_attr("str").unwrap(), &Value::new_string("s"));
    assert_eq!(node.get_attr("int").unwrap(), &Value::new_int(5));
    assert_eq!(node.get_attr("float").unwrap(), &Value::new_float("3.4"));
    assert_eq!(node.get_attr("bool").unwrap(), &Value::new_bool(true));
    assert_eq!(node.get_attr("ident").unwrap(), &Value::new_ident("gh"));

    let mut figgy = Figtree::from_string(
        "node {
                'list': [1, 'two', 3.0, !four, true, []],
                'dict': {
                    'str': 's', 'int': 5, 'float': 3.4, 'bool': true,
                    'ident': !gh, 'list': [], 'dict': {}
                }
            }",
    );
    let config = figgy.parse().unwrap();
    let node = config.get_node("node").unwrap();
    assert_eq!(
        node.get_attr("list").unwrap(),
        &Value::List(vec![
            Value::new_int(1),
            Value::new_string("two"),
            Value::new_float("3.0"),
            Value::new_ident("four"),
            Value::new_bool(true),
            Value::List(Vec::new()),
        ])
    );
    assert_eq!(node.get_attr("dict").unwrap(), &Value::Dict({
        let mut dict = Dict::new();
        dict.insert("str".to_string(), Value::new_string("s"));
        dict.insert("int".to_string(), Value::new_int(5));
        dict.insert("float".to_string(), Value::new_float("3.4"));
        dict.insert("bool".to_string(), Value::new_bool(true));
        dict.insert("ident".to_string(), Value::new_ident("gh"));
        dict.insert("list".to_string(), Value::List(Vec::new()));
        dict.insert("dict".to_string(), Value::Dict(Dict::new()));
        dict
    }));
}

#[test]
fn type_creations() {
    let doc = Document::new();
    assert_eq!(doc.node_count(), 0);

    let node = Node::new();
    assert_eq!(node.node_count(), 0);
    assert_eq!(node.attr_count(), 0);

    let string = Value::new_string("hello");
    assert_eq!(string, Value::Str("hello".to_string()));
    assert_eq!(string, Value::new_string("hello"));

    let identifier = Value::new_ident("hello");
    assert_eq!(identifier, Value::Ident("hello".to_string()));
    assert_eq!(identifier, Value::new_ident("hello"));

    let integer = Value::new_int(34);
    assert_eq!(integer, Value::Int(34));

    let floatval = Value::new_float("33.4");
    assert_eq!(floatval, Value::Float("33.4".to_string()));

    let boolean = Value::new_bool(false);
    assert_eq!(boolean, Value::Bool(false));
}

#[test]
fn node_with_subnodes() {
    let mut node = Node::new();
    assert!(node.is_empty());
    assert!(!node.has_nodes());
    assert!(!node.has_attrs());
    assert_eq!(node.node_count(), 0);
    assert_eq!(node.attr_count(), 0);

    let mut inner = Node::new();
    inner.new_node_or_get("secondary_subnode");
    node.insert_node("subnode_name", inner);
    assert_eq!(
        node.get_node("subnode_name")
            .expect("couldn't find subnode_name")
            .get_node("secondary_subnode"),
        Some(&Node::new())
    );
    assert!(!node.is_empty());
    assert!(node.has_nodes());
    assert!(!node.has_attrs());
    assert_eq!(node.node_count(), 1);
    assert_eq!(node.attr_count(), 0);

    let subnode = node.delete_node("subnode_name").expect("node should have existed");
    assert!(node.is_empty());
    assert!(!node.has_nodes());
    assert!(!node.has_attrs());
    assert_eq!(node.node_count(), 0);
    assert_eq!(node.attr_count(), 0);

    node.insert_node("new subnode", subnode);
    assert!(!node.is_empty());
    assert!(node.has_nodes());
    assert!(!node.has_attrs());
    assert_eq!(node.node_count(), 1);
    assert_eq!(node.attr_count(), 0);
}

#[test]
fn node_with_attributes() {
    let mut node = Node::new();
    assert!(node.is_empty());
    assert!(!node.has_nodes());
    assert!(!node.has_attrs());
    assert_eq!(node.node_count(), 0);
    assert_eq!(node.attr_count(), 0);

    assert_eq!(node.insert_attr("key", Value::new_int(6)), None);
    assert!(!node.is_empty());
    assert!(!node.has_nodes());
    assert!(node.has_attrs());
    assert_eq!(node.node_count(), 0);
    assert_eq!(node.attr_count(), 1);

    assert_eq!(node.delete_attr("key"), Some(Value::new_int(6)));
    assert!(node.is_empty());
    assert!(!node.has_nodes());
    assert!(!node.has_attrs());
    assert_eq!(node.node_count(), 0);
    assert_eq!(node.attr_count(), 0);
}

#[test]
fn document_tests() {
    let mut doc = Document::new();
    let mut node = Node::new();
    node.new_node_or_get("subnode");
    doc.insert_node("node_name", node);
    assert_eq!(
        doc.get_node("node_name").expect("couldn't find node_name").get_node("subnode"),
        Some(&Node::new())
    );
}

#[test]
fn repeated_nodes() {
    let repeated_in_document = "
    node { 'key': 1 }
    node { 'key': 2 }";
    let repeated_in_node = "
    node {
        subnode { 'key': 1 }
        subnode { 'key': 2 }
    }";
    let repeated_across_namespaces = "
    node {
        subby { 'exists': true }
        'subby': null
    }";

    let mut figgy = Figtree::from_string(repeated_in_document);
    let error = figgy.parse().err().expect("Parsing should have failed (document)");
    assert_eq!(error.0, ParseError::RepeatedNode("node".to_string()));

    let mut figgy = Figtree::from_string(repeated_in_node);
    let error = figgy.parse().err().expect("Parsing should have failed (node)");
    assert_eq!(error.0, ParseError::RepeatedNode("subnode".to_string()));

    let mut figgy = Figtree::from_string(repeated_across_namespaces);
    let config = figgy.parse().ok().expect("Parsing should not have failed (attrs)");
    let node = config.get_node("node").expect("missing top-level node 'node'");
    assert!(
        node.get_node("subby")
            .and_then(|node| node.get_attr("exists"))
            .and_then(|attr| attr.get_bool())
            .expect("subby (node type) error")
    );
    assert!(node.get_attr("subby").map(|attr| attr.is_null()).expect("subby (attr type) error"));
}

#[test]
fn error_position_points_at_the_offending_token() {
    let mut figgy = Figtree::from_string("invalid document");
    let error = figgy.parse().err().expect("parsing should have failed");
    assert_eq!(error.0, ParseError::UnexpectedToken(LexToken::Identifier("document".to_string())));
    assert_eq!(error.1, Position::at(0, 8));
}

#[test]
fn attribute_overwrite_keeps_last_value() {
    let mut figgy = Figtree::from_string("node { 'k': 1, 'k': 2 }");
    let config = figgy.parse().unwrap();
    let node = config.get_node("node").unwrap();
    assert_eq!(node.get_attr("k").unwrap(), &Value::new_int(2));
    assert_eq!(node.attr_count(), 1);
}

#[test]
fn unclosed_constructs_fail_with_matching_errors() {
    let mut figgy = Figtree::from_string("node { 'k': 'oops }");
    let error = figgy.parse().err().expect("parsing should have failed");
    assert_eq!(error.0, ParseError::LexError(LexError::UnclosedStringError));

    let mut figgy = Figtree::from_string("node { /* 'k': 1 }");
    let error = figgy.parse().err().expect("parsing should have failed");
    assert_eq!(error.0, ParseError::LexError(LexError::UnclosedCommentError));
}

#[test]
fn reparsing_builds_an_equal_document() {
    let text = "node { 'k': [1, 'a' 'b', {'x': null}], sub {} }";
    let mut one = Figtree::from_string(text);
    let first = one.parse().unwrap();
    let mut two = Figtree::from_string(text);
    let second = two.parse().unwrap();
    assert_eq!(first, second);
    assert_eq!(first.get_node("node").unwrap().get_attr("k").unwrap().get_list().unwrap().len(), 3);
}

#[test]
fn trailing_comma_list_and_subnode() {
    let mut figgy = Figtree::from_string("node{'k':[1,2,],sub{}}");
    let config = figgy.parse().unwrap();
    let node = config.get_node("node").unwrap();
    let list = node.get_attr("k").unwrap().get_list().unwrap();
    assert_eq!(list.len(), 2);
    assert_eq!(list[0], Value::new_int(1));
    assert_eq!(list[1], Value::new_int(2));
    assert!(node.get_node("sub").unwrap().is_empty());
}

#[test]
fn adjacent_strings_concatenate() {
    let mut figgy = Figtree::from_string("node{'k':'a' 'b'}");
    let config = figgy.parse().unwrap();
    let node = config.get_node("node").unwrap();
    assert_eq!(node.get_attr("k").unwrap(), &Value::new_string("ab"));
}
