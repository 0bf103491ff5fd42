use figtree::{Lexer, LexToken, Parser, ParseEvent, ParseError, ParsedValue};

#[test]
fn handle_empty_file() {
    let mut parser = Parser::parse(Lexer::lex(""));
    assert_eq!(parser.next().unwrap().unwrap().0, ParseEvent::FileStart);
    assert_eq!(parser.next().unwrap().unwrap().0, ParseEvent::FileEnd);
    assert!(parser.next().is_none());
}

#[test]
fn handle_node() {
    let mut parser = Parser::parse(Lexer::lex("node { }"));
    assert_eq!(parser.next().unwrap().unwrap().0, ParseEvent::FileStart);
    assert_eq!(parser.next().unwrap().unwrap().0, ParseEvent::NodeStart("node".to_string()));
    assert_eq!(parser.next().unwrap().unwrap().0, ParseEvent::NodeEnd);
    assert_eq!(parser.next().unwrap().unwrap().0, ParseEvent::FileEnd);
    assert!(parser.next().is_none());
}

#[test]
fn handle_nested_node() {
    let mut parser = Parser::parse(Lexer::lex("node { subnode {} }"));
    assert_eq!(parser.next().unwrap().unwrap().0, ParseEvent::FileStart);
    assert_eq!(parser.next().unwrap().unwrap().0, ParseEvent::NodeStart("node".to_string()));
    assert_eq!(parser.next().unwrap().unwrap().0, ParseEvent::NodeStart("subnode".to_string()));
    assert_eq!(parser.next().unwrap().unwrap().0, ParseEvent::NodeEnd);
    assert_eq!(parser.next().unwrap().unwrap().0, ParseEvent::NodeEnd);
    assert_eq!(parser.next().unwrap().unwrap().0, ParseEvent::FileEnd);

    let mut parser = Parser::parse(Lexer::lex("node { subnode { sub { sub { sub {} } } } }"));
    assert_eq!(parser.next().unwrap().unwrap().0, ParseEvent::FileStart);
    assert_eq!(parser.next().unwrap().unwrap().0, ParseEvent::NodeStart("node".to_string()));
    assert_eq!(parser.next().unwrap().unwrap().0, ParseEvent::NodeStart("subnode".to_string()));
    assert_eq!(parser.next().unwrap().unwrap().0, ParseEvent::NodeStart("sub".to_string()));
    assert_eq!(parser.next().unwrap().unwrap().0, ParseEvent::NodeStart("sub".to_string()));
    assert_eq!(parser.next().unwrap().unwrap().0, ParseEvent::NodeStart("sub".to_string()));
    assert_eq!(parser.next().unwrap().unwrap().0, ParseEvent::NodeEnd);
    assert_eq!(parser.next().unwrap().unwrap().0, ParseEvent::NodeEnd);
    assert_eq!(parser.next().unwrap().unwrap().0, ParseEvent::NodeEnd);
    assert_eq!(parser.next().unwrap().unwrap().0, ParseEvent::NodeEnd);
    assert_eq!(parser.next().unwrap().unwrap().0, ParseEvent::NodeEnd);
    assert_eq!(parser.next().unwrap().unwrap().0, ParseEvent::FileEnd);
}

#[test]
fn handle_key_value_pair() {
    let mut parser = Parser::parse(Lexer::lex("node { 'key': 'value' }"));
    assert_eq!(parser.next().unwrap().unwrap().0, ParseEvent::FileStart);
    assert_eq!(parser.next().unwrap().unwrap().0, ParseEvent::NodeStart("node".to_string()));
    assert_eq!(parser.next().unwrap().unwrap().0, ParseEvent::Key("key".to_string()));
    assert_eq!(
        parser.next().unwrap().unwrap().0,
        ParseEvent::Value(ParsedValue::Str("value".to_string()))
    );
    assert_eq!(parser.next().unwrap().unwrap().0, ParseEvent::NodeEnd);
    assert_eq!(parser.next().unwrap().unwrap().0, ParseEvent::FileEnd);
    assert!(parser.next().is_none());

    let mut parser = Parser::parse(Lexer::lex("node { 'key': 3 }"));
    assert_eq!(parser.next().unwrap().unwrap().0, ParseEvent::FileStart);
    assert_eq!(parser.next().unwrap().unwrap().0, ParseEvent::NodeStart("node".to_string()));
    assert_eq!(parser.next().unwrap().unwrap().0, ParseEvent::Key("key".to_string()));
    assert_eq!(parser.next().unwrap().unwrap().0, ParseEvent::Value(ParsedValue::Int(3)));
    assert_eq!(parser.next().unwrap().unwrap().0, ParseEvent::NodeEnd);
    assert_eq!(parser.next().unwrap().unwrap().0, ParseEvent::FileEnd);
    assert!(parser.next().is_none());

    let mut parser = Parser::parse(Lexer::lex("node { 'key': 3.5 }"));
    assert_eq!(parser.next().unwrap().unwrap().0, ParseEvent::FileStart);
    assert_eq!(parser.next().unwrap().unwrap().0, ParseEvent::NodeStart("node".to_string()));
    assert_eq!(parser.next().unwrap().unwrap().0, ParseEvent::Key("key".to_string()));
    assert_eq!(
        parser.next().unwrap().unwrap().0,
        ParseEvent::Value(ParsedValue::Float("3.5".to_string()))
    );
    assert_eq!(parser.next().unwrap().unwrap().0, ParseEvent::NodeEnd);
    assert_eq!(parser.next().unwrap().unwrap().0, ParseEvent::FileEnd);
    assert!(parser.next().is_none());

    let mut parser = Parser::parse(Lexer::lex("node { 'key': true }"));
    assert_eq!(parser.next().unwrap().unwrap().0, ParseEvent::FileStart);
    assert_eq!(parser.next().unwrap().unwrap().0, ParseEvent::NodeStart("node".to_string()));
    assert_eq!(parser.next().unwrap().unwrap().0, ParseEvent::Key("key".to_string()));
    assert_eq!(parser.next().unwrap().unwrap().0, ParseEvent::Value(ParsedValue::Bool(true)));
    assert_eq!(parser.next().unwrap().unwrap().0, ParseEvent::NodeEnd);
    assert_eq!(parser.next().unwrap().unwrap().0, ParseEvent::FileEnd);
    assert!(parser.next().is_none());

    let mut parser = Parser::parse(Lexer::lex("node { 'key': false }"));
    assert_eq!(parser.next().unwrap().unwrap().0, ParseEvent::FileStart);
    assert_eq!(parser.next().unwrap().unwrap().0, ParseEvent::NodeStart("node".to_string()));
    assert_eq!(parser.next().unwrap().unwrap().0, ParseEvent::Key("key".to_string()));
    assert_eq!(parser.next().unwrap().unwrap().0, ParseEvent::Value(ParsedValue::Bool(false)));
    assert_eq!(parser.next().unwrap().unwrap().0, ParseEvent::NodeEnd);
    assert_eq!(parser.next().unwrap().unwrap().0, ParseEvent::FileEnd);
    assert!(parser.next().is_none());

    let mut parser = Parser::parse(Lexer::lex("node { 'key': !my_ident }"));
    assert_eq!(parser.next().unwrap().unwrap().0, ParseEvent::FileStart);
    assert_eq!(parser.next().unwrap().unwrap().0, ParseEvent::NodeStart("node".to_string()));
    assert_eq!(parser.next().unwrap().unwrap().0, ParseEvent::Key("key".to_string()));
    assert_eq!(
        parser.next().unwrap().unwrap().0,
        ParseEvent::Value(ParsedValue::Ident("my_ident".to_string()))
    );
    assert_eq!(parser.next().unwrap().unwrap().0, ParseEvent::NodeEnd);
    assert_eq!(parser.next().unwrap().unwrap().0, ParseEvent::FileEnd);
    assert!(parser.next().is_none());
}

#[test]
fn concats_string_values() {
    let mut parser = Parser::parse(Lexer::lex("node { 'key': 'value 1' 'value 2' }"));
    assert_eq!(parser.next().unwrap().unwrap().0, ParseEvent::FileStart);
    assert_eq!(parser.next().unwrap().unwrap().0, ParseEvent::NodeStart("node".to_string()));
    assert_eq!(parser.next().unwrap().unwrap().0, ParseEvent::Key("key".to_string()));
    assert_eq!(
        parser.next().unwrap().unwrap().0,
        ParseEvent::Value(ParsedValue::Str("value 1value 2".to_string()))
    );
    assert_eq!(parser.next().unwrap().unwrap().0, ParseEvent::NodeEnd);
    assert_eq!(parser.next().unwrap().unwrap().0, ParseEvent::FileEnd);
    assert!(parser.next().is_none());
}

#[test]
fn requires_comma_between_key_value_pairs() {
    let mut parser = Parser::parse(Lexer::lex("node { 'key1': true, 'key2': 'val' }"));
    assert_eq!(parser.next().unwrap().unwrap().0, ParseEvent::FileStart);
    assert_eq!(parser.next().unwrap().unwrap().0, ParseEvent::NodeStart("node".to_string()));
    assert_eq!(parser.next().unwrap().unwrap().0, ParseEvent::Key("key1".to_string()));
    assert_eq!(parser.next().unwrap().unwrap().0, ParseEvent::Value(ParsedValue::Bool(true)));
    assert_eq!(parser.next().unwrap().unwrap().0, ParseEvent::Key("key2".to_string()));
    assert_eq!(
        parser.next().unwrap().unwrap().0,
        ParseEvent::Value(ParsedValue::Str("val".to_string()))
    );
    assert_eq!(parser.next().unwrap().unwrap().0, ParseEvent::NodeEnd);
    assert_eq!(parser.next().unwrap().unwrap().0, ParseEvent::FileEnd);
    assert!(parser.next().is_none());

    let mut parser = Parser::parse(Lexer::lex("node { 'key1': true 'key2': 'val' }"));
    assert_eq!(parser.next().unwrap().unwrap().0, ParseEvent::FileStart);
    assert_eq!(parser.next().unwrap().unwrap().0, ParseEvent::NodeStart("node".to_string()));
    assert_eq!(parser.next().unwrap().unwrap().0, ParseEvent::Key("key1".to_string()));
    assert_eq!(parser.next().unwrap().unwrap().0, ParseEvent::Value(ParsedValue::Bool(true)));
    assert_eq!(
        parser.next().unwrap().unwrap_err().0,
        ParseError::UnexpectedToken(LexToken::StringLit("key2".to_string()))
    );
    assert!(parser.next().is_none());

    let mut parser = Parser::parse(Lexer::lex("node { 'key1': 'true' 'key2': 'val' }"));
    assert_eq!(parser.next().unwrap().unwrap().0, ParseEvent::FileStart);
    assert_eq!(parser.next().unwrap().unwrap().0, ParseEvent::NodeStart("node".to_string()));
    assert_eq!(parser.next().unwrap().unwrap().0, ParseEvent::Key("key1".to_string()));
    assert_eq!(
        parser.next().unwrap().unwrap().0,
        ParseEvent::Value(ParsedValue::Str("truekey2".to_string()))
    );
    assert_eq!(parser.next().unwrap().unwrap_err().0, ParseError::UnexpectedToken(LexToken::Colon));
    assert!(parser.next().is_none());
}

#[test]
fn handle_list_values() {
    let mut parser = Parser::parse(Lexer::lex("node { 'key': ['val1', 2, 3.4, false, !ident] }"));
    assert_eq!(parser.next().unwrap().unwrap().0, ParseEvent::FileStart);
    assert_eq!(parser.next().unwrap().unwrap().0, ParseEvent::NodeStart("node".to_string()));
    assert_eq!(parser.next().unwrap().unwrap().0, ParseEvent::Key("key".to_string()));
    assert_eq!(parser.next().unwrap().unwrap().0, ParseEvent::ListStart);
    assert_eq!(
        parser.next().unwrap().unwrap().0,
        ParseEvent::Value(ParsedValue::Str("val1".to_string()))
    );
    assert_eq!(parser.next().unwrap().unwrap().0, ParseEvent::Value(ParsedValue::Int(2)));
    assert_eq!(
        parser.next().unwrap().unwrap().0,
        ParseEvent::Value(ParsedValue::Float("3.4".to_string()))
    );
    assert_eq!(parser.next().unwrap().unwrap().0, ParseEvent::Value(ParsedValue::Bool(false)));
    assert_eq!(
        parser.next().unwrap().unwrap().0,
        ParseEvent::Value(ParsedValue::Ident("ident".to_string()))
    );
    assert_eq!(parser.next().unwrap().unwrap().0, ParseEvent::ListEnd);
    assert_eq!(parser.next().unwrap().unwrap().0, ParseEvent::NodeEnd);
    assert_eq!(parser.next().unwrap().unwrap().0, ParseEvent::FileEnd);
    assert!(parser.next().is_none());
}

#[test]
fn handle_nested_lists() {
    let mut parser = Parser::parse(Lexer::lex("node { 'key': ['lista', ['listb', []]] }"));
    assert_eq!(parser.next().unwrap().unwrap().0, ParseEvent::FileStart);
    assert_eq!(parser.next().unwrap().unwrap().0, ParseEvent::NodeStart("node".to_string()));
    assert_eq!(parser.next().unwrap().unwrap().0, ParseEvent::Key("key".to_string()));
    assert_eq!(parser.next().unwrap().unwrap().0, ParseEvent::ListStart);
    assert_eq!(
        parser.next().unwrap().unwrap().0,
        ParseEvent::Value(ParsedValue::Str("lista".to_string()))
    );
    assert_eq!(parser.next().unwrap().unwrap().0, ParseEvent::ListStart);
    assert_eq!(
        parser.next().unwrap().unwrap().0,
        ParseEvent::Value(ParsedValue::Str("listb".to_string()))
    );
    assert_eq!(parser.next().unwrap().unwrap().0, ParseEvent::ListStart);
    assert_eq!(parser.next().unwrap().unwrap().0, ParseEvent::ListEnd);
    assert_eq!(parser.next().unwrap().unwrap().0, ParseEvent::ListEnd);
    assert_eq!(parser.next().unwrap().unwrap().0, ParseEvent::ListEnd);
    assert_eq!(parser.next().unwrap().unwrap().0, ParseEvent::NodeEnd);
    assert_eq!(parser.next().unwrap().unwrap().0, ParseEvent::FileEnd);
    assert!(parser.next().is_none());
}

#[test]
fn trailing_commas() {
    let mut parser = Parser::parse(Lexer::lex("node { 'key': [1, 2,], subnode {} }"));
    assert_eq!(parser.next().unwrap().unwrap().0, ParseEvent::FileStart);
    assert_eq!(parser.next().unwrap().unwrap().0, ParseEvent::NodeStart("node".to_string()));
    assert_eq!(parser.next().unwrap().unwrap().0, ParseEvent::Key("key".to_string()));
    assert_eq!(parser.next().unwrap().unwrap().0, ParseEvent::ListStart);
    assert_eq!(parser.next().unwrap().unwrap().0, ParseEvent::Value(ParsedValue::Int(1)));
    assert_eq!(parser.next().unwrap().unwrap().0, ParseEvent::Value(ParsedValue::Int(2)));
    assert_eq!(parser.next().unwrap().unwrap().0, ParseEvent::ListEnd);
    assert_eq!(parser.next().unwrap().unwrap().0, ParseEvent::NodeStart("subnode".to_string()));
    assert_eq!(parser.next().unwrap().unwrap().0, ParseEvent::NodeEnd);
    assert_eq!(parser.next().unwrap().unwrap().0, ParseEvent::NodeEnd);
    assert_eq!(parser.next().unwrap().unwrap().0, ParseEvent::FileEnd);
    assert!(parser.next().is_none());

    let mut parser = Parser::parse(Lexer::lex("node { , }"));
    assert_eq!(parser.next().unwrap().unwrap().0, ParseEvent::FileStart);
    assert_eq!(parser.next().unwrap().unwrap().0, ParseEvent::NodeStart("node".to_string()));
    assert_eq!(parser.next().unwrap().unwrap_err().0, ParseError::UnexpectedToken(LexToken::Comma));
    assert!(parser.next().is_none());
}

#[test]
fn handles_dict_values() {
    let mut parser = Parser::parse(Lexer::lex("node { 'key': {'1': 2, '3': 4} }"));
    assert_eq!(parser.next().unwrap().unwrap().0, ParseEvent::FileStart);
    assert_eq!(parser.next().unwrap().unwrap().0, ParseEvent::NodeStart("node".to_string()));
    assert_eq!(parser.next().unwrap().unwrap().0, ParseEvent::Key("key".to_string()));
    assert_eq!(parser.next().unwrap().unwrap().0, ParseEvent::DictStart);
    assert_eq!(parser.next().unwrap().unwrap().0, ParseEvent::Key("1".to_string()));
    assert_eq!(parser.next().unwrap().unwrap().0, ParseEvent::Value(ParsedValue::Int(2)));
    assert_eq!(parser.next().unwrap().unwrap().0, ParseEvent::Key("3".to_string()));
    assert_eq!(parser.next().unwrap().unwrap().0, ParseEvent::Value(ParsedValue::Int(4)));
    assert_eq!(parser.next().unwrap().unwrap().0, ParseEvent::DictEnd);
    assert_eq!(parser.next().unwrap().unwrap().0, ParseEvent::NodeEnd);
    assert_eq!(parser.next().unwrap().unwrap().0, ParseEvent::FileEnd);
    assert!(parser.next().is_none());
}

#[test]
fn handle_nested_dicts() {
    let mut parser = Parser::parse(Lexer::lex("node { 'key': {'1': {'b': {} } } }"));
    assert_eq!(parser.next().unwrap().unwrap().0, ParseEvent::FileStart);
    assert_eq!(parser.next().unwrap().unwrap().0, ParseEvent::NodeStart("node".to_string()));
    assert_eq!(parser.next().unwrap().unwrap().0, ParseEvent::Key("key".to_string()));
    assert_eq!(parser.next().unwrap().unwrap().0, ParseEvent::DictStart);
    assert_eq!(parser.next().unwrap().unwrap().0, ParseEvent::Key("1".to_string()));
    assert_eq!(parser.next().unwrap().unwrap().0, ParseEvent::DictStart);
    assert_eq!(parser.next().unwrap().unwrap().0, ParseEvent::Key("b".to_string()));
    assert_eq!(parser.next().unwrap().unwrap().0, ParseEvent::DictStart);
    assert_eq!(parser.next().unwrap().unwrap().0, ParseEvent::DictEnd);
    assert_eq!(parser.next().unwrap().unwrap().0, ParseEvent::DictEnd);
    assert_eq!(parser.next().unwrap().unwrap().0, ParseEvent::DictEnd);
    assert_eq!(parser.next().unwrap().unwrap().0, ParseEvent::NodeEnd);
    assert_eq!(parser.next().unwrap().unwrap().0, ParseEvent::FileEnd);
    assert!(parser.next().is_none());
}

#[test]
fn nesting_depth_returns_to_zero() {
    let mut parser = Parser::parse(Lexer::lex("node { 'key': [1, {'a': [2]}], sub { 'k': {} } }"));
    let mut depth: i64 = 0;
    let mut file_ended = false;
    loop {
        match parser.next() {
            Some(Ok((ev, _pos))) => match ev {
                ParseEvent::NodeStart(_) | ParseEvent::ListStart | ParseEvent::DictStart => {
                    depth += 1;
                },
                ParseEvent::NodeEnd | ParseEvent::ListEnd | ParseEvent::DictEnd => {
                    depth -= 1;
                    assert!(depth >= 0);
                },
                ParseEvent::FileEnd => {
                    assert_eq!(depth, 0);
                    file_ended = true;
                },
                _ => {},
            },
            Some(Err(e)) => panic!("parsing failed: {:?}", e),
            None => break,
        }
    }
    assert!(file_ended);
}

#[test]
fn null_is_a_value() {
    let mut parser = Parser::parse(Lexer::lex("node { 'key': null }"));
    assert_eq!(parser.next().unwrap().unwrap().0, ParseEvent::FileStart);
    assert_eq!(parser.next().unwrap().unwrap().0, ParseEvent::NodeStart("node".to_string()));
    assert_eq!(parser.next().unwrap().unwrap().0, ParseEvent::Key("key".to_string()));
    assert_eq!(parser.next().unwrap().unwrap().0, ParseEvent::Value(ParsedValue::Null));
    assert_eq!(parser.next().unwrap().unwrap().0, ParseEvent::NodeEnd);
    assert_eq!(parser.next().unwrap().unwrap().0, ParseEvent::FileEnd);
    assert!(parser.next().is_none());
}

#[test]
fn bare_identifier_is_rejected_as_value() {
    let mut parser = Parser::parse(Lexer::lex("node { 'key': bare }"));
    assert_eq!(parser.next().unwrap().unwrap().0, ParseEvent::FileStart);
    assert_eq!(parser.next().unwrap().unwrap().0, ParseEvent::NodeStart("node".to_string()));
    assert_eq!(parser.next().unwrap().unwrap().0, ParseEvent::Key("key".to_string()));
    assert_eq!(
        parser.next().unwrap().unwrap_err().0,
        ParseError::UnexpectedToken(LexToken::Identifier("bare".to_string()))
    );
    assert!(parser.next().is_none());
}

#[test]
fn unexpected_end_of_file() {
    let mut parser = Parser::parse(Lexer::lex("node {"));
    assert_eq!(parser.next().unwrap().unwrap().0, ParseEvent::FileStart);
    assert_eq!(parser.next().unwrap().unwrap().0, ParseEvent::NodeStart("node".to_string()));
    assert_eq!(parser.next().unwrap().unwrap_err().0, ParseError::UnexpectedEndOfFile);
    assert!(parser.next().is_none());
}
