use figtree::{Lexer, LexToken, LexError, MutablePosition};

#[test]
fn iterator() {
    let mut lexer = Lexer::lex("ident { } [ ! ] : , 34 3.5 'str' true r/raw string/");
    assert_eq!(lexer.next().unwrap().unwrap(), LexToken::Identifier("ident".to_string()));
    assert_eq!(lexer.token_start, MutablePosition::at(0, 0));
    assert_eq!(lexer.position, MutablePosition::at(0, 5));
    assert_eq!(lexer.next().unwrap().unwrap(), LexToken::OpenBrace);
    assert_eq!(lexer.token_start, MutablePosition::at(0, 6));
    assert_eq!(lexer.position, MutablePosition::at(0, 7));
    assert_eq!(lexer.next().unwrap().unwrap(), LexToken::CloseBrace);
    assert_eq!(lexer.token_start, MutablePosition::at(0, 8));
    assert_eq!(lexer.position, MutablePosition::at(0, 9));
    assert_eq!(lexer.next().unwrap().unwrap(), LexToken::OpenBracket);
    assert_eq!(lexer.token_start, MutablePosition::at(0, 10));
    assert_eq!(lexer.position, MutablePosition::at(0, 11));
    assert_eq!(lexer.next().unwrap().unwrap(), LexToken::Bang);
    assert_eq!(lexer.token_start, MutablePosition::at(0, 12));
    assert_eq!(lexer.position, MutablePosition::at(0, 13));
    assert_eq!(lexer.next().unwrap().unwrap(), LexToken::CloseBracket);
    assert_eq!(lexer.token_start, MutablePosition::at(0, 14));
    assert_eq!(lexer.position, MutablePosition::at(0, 15));
    assert_eq!(lexer.next().unwrap().unwrap(), LexToken::Colon);
    assert_eq!(lexer.token_start, MutablePosition::at(0, 16));
    assert_eq!(lexer.position, MutablePosition::at(0, 17));
    assert_eq!(lexer.next().unwrap().unwrap(), LexToken::Comma);
    assert_eq!(lexer.token_start, MutablePosition::at(0, 18));
    assert_eq!(lexer.position, MutablePosition::at(0, 19));
    assert_eq!(lexer.next().unwrap().unwrap(), LexToken::IntegerLit(34));
    assert_eq!(lexer.token_start, MutablePosition::at(0, 20));
    assert_eq!(lexer.position, MutablePosition::at(0, 22));
    assert_eq!(lexer.next().unwrap().unwrap(), LexToken::FloatLit("3.5".to_string()));
    assert_eq!(lexer.token_start, MutablePosition::at(0, 23));
    assert_eq!(lexer.position, MutablePosition::at(0, 26));
    assert_eq!(lexer.next().unwrap().unwrap(), LexToken::StringLit("str".to_string()));
    assert_eq!(lexer.token_start, MutablePosition::at(0, 27));
    assert_eq!(lexer.position, MutablePosition::at(0, 32));
    assert_eq!(lexer.next().unwrap().unwrap(), LexToken::Identifier("true".to_string()));
    assert_eq!(lexer.token_start, MutablePosition::at(0, 33));
    assert_eq!(lexer.position, MutablePosition::at(0, 37));
    assert_eq!(lexer.next().unwrap().unwrap(), LexToken::StringLit("raw string".to_string()));
    assert_eq!(lexer.token_start, MutablePosition::at(0, 38));
    assert_eq!(lexer.position, MutablePosition::at(0, 51));
    assert!(lexer.next().is_none());
}

#[test]
fn ignore_comments() {
    let mut lexer = Lexer::lex(
        "
            1
            // hello
            2",
    );
    assert_eq!(lexer.next().unwrap().unwrap(), LexToken::IntegerLit(1));
    assert_eq!(lexer.next().unwrap().unwrap(), LexToken::IntegerLit(2));
    assert!(lexer.next().is_none());

    let mut lexer = Lexer::lex(
        "
            1
            // hello",
    );
    assert_eq!(lexer.next().unwrap().unwrap(), LexToken::IntegerLit(1));
    assert!(lexer.next().is_none());

    let mut lexer = Lexer::lex(
        "
            1 /*
            hello
            */ 2",
    );
    assert_eq!(lexer.next().unwrap().unwrap(), LexToken::IntegerLit(1));
    assert_eq!(lexer.next().unwrap().unwrap(), LexToken::IntegerLit(2));
    assert!(lexer.next().is_none());

    let mut lexer = Lexer::lex(
        "
            1 /* /*
            hello
            */ */ 2",
    );
    assert_eq!(lexer.next().unwrap().unwrap(), LexToken::IntegerLit(1));
    assert_eq!(lexer.next().unwrap().unwrap(), LexToken::IntegerLit(2));
    assert!(lexer.next().is_none());

    let mut lexer = Lexer::lex("1 /*");
    assert_eq!(lexer.next().unwrap().unwrap(), LexToken::IntegerLit(1));
    assert_eq!(lexer.next().unwrap().unwrap_err(), LexError::UnclosedCommentError);
    assert!(lexer.next().is_none());
}

#[test]
fn parse_unrecognised_char() {
    let mut lexer = Lexer::lex("&");
    match lexer.next() {
        None => panic!("Should return some"),
        Some(Ok(tok)) => panic!("Should return err, returned Ok({:?})", tok),
        Some(Err(LexError::UnrecognisedCharError(c))) => assert_eq!(c, '&'),
        Some(Err(err)) => panic!("Should return char error, returned {:?}", err),
    }
}

#[test]
fn lexer_parse_ident() {
    let mut lexer = Lexer::lex("ThisIsAnIdent");
    assert_eq!(lexer.parse_ident().unwrap().unwrap(), LexToken::Identifier("ThisIsAnIdent".to_string()));

    let mut lexer = Lexer::lex("this_is_an_ident");
    assert_eq!(
        lexer.parse_ident().unwrap().unwrap(),
        LexToken::Identifier("this_is_an_ident".to_string())
    );

    let mut lexer = Lexer::lex("th15_1s_an_1d3n7");
    assert_eq!(
        lexer.parse_ident().unwrap().unwrap(),
        LexToken::Identifier("th15_1s_an_1d3n7".to_string())
    );

    let mut lexer = Lexer::lex("7h15_1s_an_1d3n7");
    assert!(lexer.parse_ident().is_none());

    let mut lexer = Lexer::lex("\u{1F436}");
    assert_eq!(lexer.parse_ident().unwrap().unwrap(), LexToken::Identifier("\u{1F436}".to_string()));

    let mut lexer = Lexer::lex("`ident`");
    assert_eq!(lexer.parse_ident_escaped().unwrap().unwrap(), LexToken::Identifier("ident".to_string()));

    let mut lexer = Lexer::lex("`id\\u0041ent`");
    assert_eq!(
        lexer.parse_ident_escaped().unwrap().unwrap(),
        LexToken::Identifier("idAent".to_string())
    );

    let mut lexer = Lexer::lex("`i\\ndent`");
    assert_eq!(
        lexer.parse_ident_escaped().unwrap().unwrap(),
        LexToken::Identifier("i\ndent".to_string())
    );

    let mut lexer = Lexer::lex("`i\ndent`");
    assert_eq!(lexer.parse_ident_escaped().unwrap().unwrap_err(), LexError::NewlineInIdentifier);

    let mut lexer = Lexer::lex("`stri\\\\ng`");
    assert_eq!(
        lexer.parse_ident_escaped().unwrap().unwrap(),
        LexToken::Identifier("stri\\ng".to_string())
    );

    let mut lexer = Lexer::lex("`string");
    match lexer.parse_ident_escaped().unwrap() {
        Ok(_) => panic!("should raise error"),
        Err(LexError::UnclosedIdentError) => assert!(true),
        Err(_) => panic!("wrong error raised"),
    }
}

#[test]
fn lexer_parse_numeric() {
    let mut lexer = Lexer::lex("12345");
    assert_eq!(lexer.parse_numeric().unwrap().unwrap(), LexToken::IntegerLit(12345));

    let mut lexer = Lexer::lex("0");
    assert_eq!(lexer.parse_numeric().unwrap().unwrap(), LexToken::IntegerLit(0));

    let mut lexer = Lexer::lex("0d10");
    assert_eq!(lexer.parse_numeric().unwrap().unwrap(), LexToken::IntegerLit(10));

    let mut lexer = Lexer::lex("0D10");
    assert_eq!(lexer.parse_numeric().unwrap().unwrap(), LexToken::IntegerLit(10));

    let mut lexer = Lexer::lex("0b10");
    assert_eq!(lexer.parse_numeric().unwrap().unwrap(), LexToken::IntegerLit(2));

    let mut lexer = Lexer::lex("0B10");
    assert_eq!(lexer.parse_numeric().unwrap().unwrap(), LexToken::IntegerLit(2));

    let mut lexer = Lexer::lex("0x10");
    assert_eq!(lexer.parse_numeric().unwrap().unwrap(), LexToken::IntegerLit(16));

    let mut lexer = Lexer::lex("0X10");
    assert_eq!(lexer.parse_numeric().unwrap().unwrap(), LexToken::IntegerLit(16));

    let mut lexer = Lexer::lex("0o10");
    assert_eq!(lexer.parse_numeric().unwrap().unwrap(), LexToken::IntegerLit(8));

    let mut lexer = Lexer::lex("0O10");
    assert_eq!(lexer.parse_numeric().unwrap().unwrap(), LexToken::IntegerLit(8));

    let mut lexer = Lexer::lex("0d10e5");
    assert_eq!(lexer.parse_numeric().unwrap().unwrap(), LexToken::IntegerLit(10));

    let mut lexer = Lexer::lex("10e5");
    match lexer.parse_numeric().unwrap().unwrap() {
        LexToken::FloatLit(text) => assert_eq!(text.parse::<f64>().unwrap(), 10e5),
        tok => panic!("expected a float, got {:?}", tok),
    }

    let mut lexer = Lexer::lex("10.5");
    match lexer.parse_numeric().unwrap().unwrap() {
        LexToken::FloatLit(text) => assert_eq!(text.parse::<f64>().unwrap(), 10.5),
        tok => panic!("expected a float, got {:?}", tok),
    }

    let mut lexer = Lexer::lex("105");
    assert_eq!(lexer.parse_numeric().unwrap().unwrap(), LexToken::IntegerLit(105));

    let mut lexer = Lexer::lex("1_0__5___");
    assert_eq!(lexer.parse_numeric().unwrap().unwrap(), LexToken::IntegerLit(105));
}

#[test]
fn parse_string() {
    let mut lexer = Lexer::lex("'string'");
    assert_eq!(lexer.parse_string().unwrap().unwrap(), LexToken::StringLit("string".to_string()));

    let mut lexer = Lexer::lex("\"string\"");
    assert_eq!(lexer.parse_string().unwrap().unwrap(), LexToken::StringLit("string".to_string()));

    let mut lexer = Lexer::lex("\"s\\ntring\"");
    assert_eq!(lexer.parse_string().unwrap().unwrap(), LexToken::StringLit("s\ntring".to_string()));

    let mut lexer = Lexer::lex("'s\ntring'");
    assert_eq!(lexer.parse_string().unwrap().unwrap(), LexToken::StringLit("s\ntring".to_string()));

    let mut lexer = Lexer::lex("'st\\u0041ring'");
    assert_eq!(lexer.parse_string().unwrap().unwrap(), LexToken::StringLit("stAring".to_string()));

    let mut lexer = Lexer::lex("'stri\\\\ng'");
    assert_eq!(lexer.parse_string().unwrap().unwrap(), LexToken::StringLit("stri\\ng".to_string()));

    let mut lexer = Lexer::lex("'str\\'ing'");
    assert_eq!(lexer.parse_string().unwrap().unwrap(), LexToken::StringLit("str'ing".to_string()));

    let mut lexer = Lexer::lex("'string");
    match lexer.parse_string().unwrap() {
        Ok(_) => panic!("should raise error"),
        Err(LexError::UnclosedStringError) => assert!(true),
        Err(_) => panic!("wrong error raised"),
    }
}

#[test]
fn parse_raw_string() {
    let mut lexer = Lexer::lex("r/hello/");
    assert_eq!(lexer.parse_raw_string().unwrap().unwrap(), LexToken::StringLit("hello".to_string()));

    let mut lexer = Lexer::lex("r////hello////");
    assert_eq!(lexer.parse_raw_string().unwrap().unwrap(), LexToken::StringLit("hello".to_string()));

    let mut lexer = Lexer::lex("r////hel///lo////");
    assert_eq!(
        lexer.parse_raw_string().unwrap().unwrap(),
        LexToken::StringLit("hel///lo".to_string())
    );

    let mut lexer = Lexer::lex("r((/hel/(((()//lo))");
    assert_eq!(
        lexer.parse_raw_string().unwrap().unwrap(),
        LexToken::StringLit("/hel/(((()//lo".to_string())
    );
}

#[test]
fn numeric_bases_lex() {
    let mut lexer = Lexer::lex("0x10 0o10 0b10 0d10 1_0__5");
    assert_eq!(lexer.next().unwrap().unwrap(), LexToken::IntegerLit(16));
    assert_eq!(lexer.next().unwrap().unwrap(), LexToken::IntegerLit(8));
    assert_eq!(lexer.next().unwrap().unwrap(), LexToken::IntegerLit(2));
    assert_eq!(lexer.next().unwrap().unwrap(), LexToken::IntegerLit(10));
    assert_eq!(lexer.next().unwrap().unwrap(), LexToken::IntegerLit(105));
    assert!(lexer.next().is_none());

    let mut lexer = Lexer::lex("10e5");
    match lexer.next().unwrap().unwrap() {
        LexToken::FloatLit(text) => assert_eq!(text.parse::<f64>().unwrap(), 1000000.0),
        tok => panic!("expected a float, got {:?}", tok),
    }
}

#[test]
fn string_escapes_lex() {
    let mut lexer = Lexer::lex("'he\\nllo'");
    assert_eq!(lexer.next().unwrap().unwrap(), LexToken::StringLit("he\nllo".to_string()));

    let mut lexer = Lexer::lex("'\\u0058'");
    assert_eq!(lexer.next().unwrap().unwrap(), LexToken::StringLit("X".to_string()));
}

#[test]
fn lexing_error_kinds() {
    let mut lexer = Lexer::lex("'abc");
    assert_eq!(lexer.next().unwrap().unwrap_err(), LexError::UnclosedStringError);
    assert!(lexer.next().is_none());

    let mut lexer = Lexer::lex("'a\\qb'");
    assert_eq!(lexer.next().unwrap().unwrap_err(), LexError::InvalidEscape('q'));

    let mut lexer = Lexer::lex("'\\uZZZZ'");
    assert_eq!(lexer.next().unwrap().unwrap_err(), LexError::InvalidUnicodeEscape(0));

    let mut lexer = Lexer::lex("'\\uD800'");
    assert_eq!(lexer.next().unwrap().unwrap_err(), LexError::InvalidUnicodeEscape(0xD800));

    let mut lexer = Lexer::lex("`abc");
    assert_eq!(lexer.next().unwrap().unwrap_err(), LexError::UnclosedIdentError);

    let mut lexer = Lexer::lex("0x");
    assert_eq!(lexer.next().unwrap().unwrap_err(), LexError::IntegerParseError);

    let mut lexer = Lexer::lex("99999999999999999999999");
    assert_eq!(lexer.next().unwrap().unwrap_err(), LexError::IntegerParseError);

    let mut lexer = Lexer::lex("1e");
    assert_eq!(lexer.next().unwrap().unwrap_err(), LexError::FloatParseError);

    let mut lexer = Lexer::lex(".");
    assert_eq!(lexer.next().unwrap().unwrap_err(), LexError::FloatParseError);
}

#[test]
fn mod_parse_ident() {
    let mut lexer = Lexer::lex("ThisIsAnIdent");
    assert_eq!(lexer.parse_ident().unwrap().unwrap(), LexToken::Identifier("ThisIsAnIdent".to_string()));

    let mut lexer = Lexer::lex("this_is_an_ident");
    assert_eq!(
        lexer.parse_ident().unwrap().unwrap(),
        LexToken::Identifier("this_is_an_ident".to_string())
    );

    let mut lexer = Lexer::lex("th15_1s_an_1d3n7");
    assert_eq!(
        lexer.parse_ident().unwrap().unwrap(),
        LexToken::Identifier("th15_1s_an_1d3n7".to_string())
    );

    let mut lexer = Lexer::lex("7h15_1s_an_1d3n7");
    assert!(lexer.parse_ident().is_none());

    let mut lexer = Lexer::lex("th15_1s_an_1d3n7");
    assert_eq!(
        lexer.parse_ident().unwrap().unwrap(),
        LexToken::Identifier("th15_1s_an_1d3n7".to_string())
    );
}

#[test]
fn mod_parse_numeric() {
    let mut lexer = Lexer::lex("12345");
    assert_eq!(lexer.parse_numeric().unwrap().unwrap(), LexToken::IntegerLit(12345));

    let mut lexer = Lexer::lex("0");
    assert_eq!(lexer.parse_numeric().unwrap().unwrap(), LexToken::IntegerLit(0));

    let mut lexer = Lexer::lex("0d10");
    assert_eq!(lexer.parse_numeric().unwrap().unwrap(), LexToken::IntegerLit(10));

    let mut lexer = Lexer::lex("0D10");
    assert_eq!(lexer.parse_numeric().unwrap().unwrap(), LexToken::IntegerLit(10));

    let mut lexer = Lexer::lex("0b10");
    assert_eq!(lexer.parse_numeric().unwrap().unwrap(), LexToken::IntegerLit(2));

    let mut lexer = Lexer::lex("0B10");
    assert_eq!(lexer.parse_numeric().unwrap().unwrap(), LexToken::IntegerLit(2));

    let mut lexer = Lexer::lex("0x10");
    assert_eq!(lexer.parse_numeric().unwrap().unwrap(), LexToken::IntegerLit(16));

    let mut lexer = Lexer::lex("0X10");
    assert_eq!(lexer.parse_numeric().unwrap().unwrap(), LexToken::IntegerLit(16));

    let mut lexer = Lexer::lex("0o10");
    assert_eq!(lexer.parse_numeric().unwrap().unwrap(), LexToken::IntegerLit(8));

    let mut lexer = Lexer::lex("0O10");
    assert_eq!(lexer.parse_numeric().unwrap().unwrap(), LexToken::IntegerLit(8));

    let mut lexer = Lexer::lex("0d10e5");
    assert_eq!(lexer.parse_numeric().unwrap().unwrap(), LexToken::IntegerLit(10));

    let mut lexer = Lexer::lex("10e5");
    match lexer.parse_numeric().unwrap().unwrap() {
        LexToken::FloatLit(text) => assert_eq!(text.parse::<f64>().unwrap(), 10e5),
        tok => panic!("expected a float, got {:?}", tok),
    }

    let mut lexer = Lexer::lex("10.5");
    match lexer.parse_numeric().unwrap().unwrap() {
        LexToken::FloatLit(text) => assert_eq!(text.parse::<f64>().unwrap(), 10.5),
        tok => panic!("expected a float, got {:?}", tok),
    }

    let mut lexer = Lexer::lex("105");
    assert_eq!(lexer.parse_numeric().unwrap().unwrap(), LexToken::IntegerLit(105));

    let mut lexer = Lexer::lex("1_0__5___");
    assert_eq!(lexer.parse_numeric().unwrap().unwrap(), LexToken::IntegerLit(105));
}
