use figtree::TokenCollection;
use figtree::lexutils::{parse_string, parse_integer};

#[test]
fn test_parse_string() {
    assert_eq!(parse_string("'hello'".to_string()), "hello");
    assert_eq!(parse_string(r#""hello""#.to_string()), "hello");
    assert_eq!(parse_string("'he\\nllo'".to_string()), "he\nllo");
    assert_eq!(parse_string(r#"'he"llo'"#.to_string()), "he\"llo");
    assert_eq!(parse_string(r"'\u0058'".to_string()), "\u{0058}");
}

#[test]
fn test_parse_integer() {
    assert_eq!(parse_integer("0d5".to_string()), 5);
    assert_eq!(parse_integer("0D5474".to_string()), 5474);
    assert_eq!(parse_integer("0x4f3".to_string()), 0x4f3);
    assert_eq!(parse_integer("0X7Df31".to_string()), 0x7df31);
    assert_eq!(parse_integer("0o443".to_string()), 3 + (8 * 4) + (64 * 4));
    assert_eq!(parse_integer("0O70131".to_string()), 28761);
    assert_eq!(parse_integer("0b01101".to_string()), 0b01101);
    assert_eq!(parse_integer("0B10010".to_string()), 0b10010);
    assert_eq!(parse_integer("32353".to_string()), 32353);
    assert_eq!(parse_integer("-1234".to_string()), -1234);
    assert_eq!(parse_integer("+4321".to_string()), 4321);
}

#[test]
fn literals_match() {
    let tk = TokenCollection::new();
    assert_eq!(tk.open_brace.get_match("{"), Some(1));
    assert_eq!(tk.open_brace.get_match("}"), None);
    assert_eq!(tk.close_brace.get_match("}"), Some(1));
    assert_eq!(tk.close_brace.get_match("d"), None);
    assert_eq!(tk.open_bracket.get_match("["), Some(1));
    assert_eq!(tk.open_bracket.get_match(" "), None);
    assert_eq!(tk.close_bracket.get_match("]"), Some(1));
    assert_eq!(tk.close_bracket.get_match("["), None);
    assert_eq!(tk.comma.get_match(","), Some(1));
    assert_eq!(tk.comma.get_match(""), None);
    assert_eq!(tk.colon.get_match(":"), Some(1));
    assert_eq!(tk.colon.get_match(";"), None);
}

#[test]
fn identifier_matches() {
    let tk = TokenCollection::new();
    assert_eq!(tk.identifier.get_match("hello"), Some(5));
    assert_eq!(tk.identifier.get_match("HELLO"), Some(5));
    assert_eq!(tk.identifier.get_match("45fefe"), None);
    assert_eq!(tk.identifier.get_match("fefe45"), Some(6));
    assert_eq!(tk.identifier.get_match("true"), Some(4));
    assert_eq!(tk.identifier.get_match("$"), None);
}

#[test]
fn string_matches() {
    let tk = TokenCollection::new();
    assert_eq!(tk.stringlit.get_match(""), None);
    assert_eq!(tk.stringlit.get_match("hello"), None);
    assert_eq!(tk.stringlit.get_match("'hello'"), Some(7));
    assert_eq!(tk.stringlit.get_match("{}[],: 'string'"), None);
    assert_eq!(tk.stringlit.get_match(r#""hello""#), Some(7));
    assert_eq!(tk.stringlit.get_match(r"'hello\n'"), Some(9));
    assert_eq!(tk.stringlit.get_match(r"'hello\''"), Some(9));
    assert_eq!(
        tk.stringlit.get_match(
            r"'
            no newline in strings'"
        ),
        None
    );
}

#[test]
fn integer_matches() {
    let tk = TokenCollection::new();
    assert_eq!(tk.integerlit.get_match("345"), Some(3));
    assert_eq!(tk.integerlit.get_match("3_4_5"), Some(5));
    assert_eq!(tk.integerlit.get_match("0d3_4_5"), Some(7));
    assert_eq!(tk.integerlit.get_match("0x45"), Some(4));
    assert_eq!(tk.integerlit.get_match("0Xff"), Some(4));
    assert_eq!(tk.integerlit.get_match("0xf_f"), Some(5));
    assert_eq!(tk.integerlit.get_match("0xgg"), Some(1));
    assert_eq!(tk.integerlit.get_match("0o44"), Some(4));
    assert_eq!(tk.integerlit.get_match("0O44"), Some(4));
    assert_eq!(tk.integerlit.get_match("0o99"), Some(1));
}

#[test]
fn float_matches() {
    let tk = TokenCollection::new();
    assert_eq!(tk.floatlit.get_match("300."), Some(4));
    assert_eq!(tk.floatlit.get_match("30.0"), Some(4));
    assert_eq!(tk.floatlit.get_match(".300"), Some(4));
    assert_eq!(tk.floatlit.get_match("300"), None);
    assert_eq!(tk.floatlit.get_match("3.e5"), Some(4));
    assert_eq!(tk.floatlit.get_match("3.e-5"), Some(5));
    assert_eq!(tk.floatlit.get_match("3.E-5"), Some(5));
}
