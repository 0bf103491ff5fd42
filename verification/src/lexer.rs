//! The lexer: turns the characters of a figtree document into a stream of
//! tokens.  It skips white space and comments (line comments, and block
//! comments that nest), then reads one token per call: structural
//! singletons, identifiers (bare or backtick-escaped), quoted strings with
//! escapes, raw strings, and numeric literals in several bases.  Every token
//! records the position of its first character.

use vstd::prelude::*;
use crate::position::MutablePosition;
use crate::utils::{
    spec_ident_head, spec_ident_body, spec_is_space, spec_digit_val, spec_char_from, ident_head,
    ident_body, is_space, digit_val, char_from_u32, push_char, chars_of,
};
use crate::lexutils::digits_val;

verus! {

/// A lexical token.  A float literal keeps its spelling: the digits, point
/// and exponent as they stood in the input (with a leading minus sign when
/// the literal was negative), so that callers may convert it as they wish.
#[derive(Debug)]
pub enum LexToken {
    OpenBrace,
    CloseBrace,
    OpenBracket,
    CloseBracket,
    Comma,
    Colon,
    Bang,
    Identifier(String),
    StringLit(String),
    IntegerLit(i64),
    FloatLit(String),
}

/// The mathematical shape of a token: text as a sequence of characters.
pub enum TokenV {
    OpenBrace,
    CloseBrace,
    OpenBracket,
    CloseBracket,
    Comma,
    Colon,
    Bang,
    Identifier(Seq<char>),
    StringLit(Seq<char>),
    IntegerLit(i64),
    FloatLit(Seq<char>),
}

impl View for LexToken {
    type V = TokenV;

    open spec fn view(&self) -> TokenV {
        match self {
            LexToken::OpenBrace => TokenV::OpenBrace,
            LexToken::CloseBrace => TokenV::CloseBrace,
            LexToken::OpenBracket => TokenV::OpenBracket,
            LexToken::CloseBracket => TokenV::CloseBracket,
            LexToken::Comma => TokenV::Comma,
            LexToken::Colon => TokenV::Colon,
            LexToken::Bang => TokenV::Bang,
            LexToken::Identifier(s) => TokenV::Identifier(s@),
            LexToken::StringLit(s) => TokenV::StringLit(s@),
            LexToken::IntegerLit(n) => TokenV::IntegerLit(*n),
            LexToken::FloatLit(s) => TokenV::FloatLit(s@),
        }
    }
}

impl PartialEq for LexToken {
    /// Tokens are equal when they are the same kind and carry the same text
    /// or value.
    fn eq(&self, other: &LexToken) -> (r: bool) {
        match (self, other) {
            (LexToken::OpenBrace, LexToken::OpenBrace) => true,
            (LexToken::CloseBrace, LexToken::CloseBrace) => true,
            (LexToken::OpenBracket, LexToken::OpenBracket) => true,
            (LexToken::CloseBracket, LexToken::CloseBracket) => true,
            (LexToken::Comma, LexToken::Comma) => true,
            (LexToken::Colon, LexToken::Colon) => true,
            (LexToken::Bang, LexToken::Bang) => true,
            (LexToken::Identifier(a), LexToken::Identifier(b)) => *a == *b,
            (LexToken::StringLit(a), LexToken::StringLit(b)) => *a == *b,
            (LexToken::IntegerLit(a), LexToken::IntegerLit(b)) => *a == *b,
            (LexToken::FloatLit(a), LexToken::FloatLit(b)) => *a == *b,
            _ => false,
        }
    }
}

impl vstd::std_specs::cmp::PartialEqSpecImpl for LexToken {
    open spec fn obeys_eq_spec() -> bool {
        true
    }

    open spec fn eq_spec(&self, other: &LexToken) -> bool {
        self@ == other@
    }
}

/// The ways lexing can fail.
#[derive(Debug, PartialEq, Eq, Structural, Clone, Copy)]
pub enum LexError {
    UnclosedCommentError,
    UnclosedStringError,
    UnclosedIdentError,
    NewlineInIdentifier,
    InvalidEscape(char),
    InvalidUnicodeEscape(u32),
    FloatParseError,
    IntegerParseError,
    UnrecognisedCharError(char),
}

// ---------------------------------------------------------------------------
// Positions as a function of the consumed prefix of the input.
// ---------------------------------------------------------------------------
/// The line a cursor is on after consuming `s`: the number of newlines in it.
pub open spec fn pos_line(s: Seq<char>) -> int
    decreases s.len(),
{
    if s.len() == 0 {
        0
    } else {
        pos_line(s.drop_last()) + if s.last() == '\n' {
            1int
        } else {
            0int
        }
    }
}

/// The column a cursor is in after consuming `s`: the characters since the
/// last newline.
pub open spec fn pos_col(s: Seq<char>) -> int
    decreases s.len(),
{
    if s.len() == 0 {
        0
    } else if s.last() == '\n' {
        0
    } else {
        pos_col(s.drop_last()) + 1
    }
}

/// The lengths of the lines completed while consuming `s`.
pub open spec fn lens_of(s: Seq<char>) -> Seq<usize>
    decreases s.len(),
{
    if s.len() == 0 {
        Seq::<usize>::empty()
    } else if s.last() == '\n' {
        lens_of(s.drop_last()).push(pos_col(s.drop_last()) as usize)
    } else {
        lens_of(s.drop_last())
    }
}

/// Line, column and line count stay within the length of the consumed prefix.
pub proof fn lemma_pos_bounds(s: Seq<char>)
    ensures
        0 <= pos_line(s) <= s.len(),
        0 <= pos_col(s) <= s.len(),
        lens_of(s).len() == pos_line(s),
    decreases s.len(),
{
    if s.len() > 0 {
        lemma_pos_bounds(s.drop_last());
    }
}

// ---------------------------------------------------------------------------
// White space and comments.
// ---------------------------------------------------------------------------
/// The index just after a line comment that starts before index `i`: the
/// first position after a carriage return or newline, or the end of input.
pub open spec fn line_comment_end(s: Seq<char>, i: int) -> int
    decreases s.len() - i,
{
    if i < 0 || i >= s.len() {
        s.len() as int
    } else if s[i] == '\r' || s[i] == '\n' {
        i + 1
    } else {
        line_comment_end(s, i + 1)
    }
}

pub proof fn lemma_line_comment_end_bounds(s: Seq<char>, i: int)
    requires
        0 <= i <= s.len(),
    ensures
        i <= line_comment_end(s, i) <= s.len(),
    decreases s.len() - i,
{
    if i < s.len() && !(s[i] == '\r' || s[i] == '\n') {
        lemma_line_comment_end_bounds(s, i + 1);
    }
}

/// The index just after the close of a block comment entered with `depth`
/// levels open, or `None` when the input ends first.  `/*` opens one more
/// level and `*/` closes one.
pub open spec fn block_comment_end(s: Seq<char>, i: int, depth: int) -> Option<int>
    decreases s.len() - i,
{
    if i < 0 || i >= s.len() {
        None
    } else if s[i] == '/' && i + 1 < s.len() && s[i + 1] == '*' {
        block_comment_end(s, i + 2, depth + 1)
    } else if s[i] == '*' && i + 1 < s.len() && s[i + 1] == '/' {
        if depth <= 1 {
            Some(i + 2)
        } else {
            block_comment_end(s, i + 2, depth - 1)
        }
    } else {
        block_comment_end(s, i + 1, depth)
    }
}

pub proof fn lemma_block_comment_end_bounds(s: Seq<char>, i: int, depth: int)
    requires
        0 <= i <= s.len(),
    ensures
        block_comment_end(s, i, depth) is Some ==> i + 2 <= block_comment_end(s, i, depth)->0
            <= s.len(),
    decreases s.len() - i,
{
    if i < s.len() {
        if s[i] == '/' && i + 1 < s.len() && s[i + 1] == '*' {
            lemma_block_comment_end_bounds(s, i + 2, depth + 1);
        } else if s[i] == '*' && i + 1 < s.len() && s[i + 1] == '/' {
            if depth > 1 {
                lemma_block_comment_end_bounds(s, i + 2, depth - 1);
            }
        } else {
            lemma_block_comment_end_bounds(s, i + 1, depth);
        }
    }
}

/// Skip white space and comments from `i`.  `Ok` carries the index of the
/// first character of the next token (or the end of input); `Err` carries the
/// index of a block comment that never closes.
pub open spec fn skip_trivia(s: Seq<char>, i: int) -> Result<int, int>
    decreases s.len() - i,
    when 0 <= i <= s.len()
    via skip_trivia_dec
{
    if i >= s.len() {
        Ok(s.len() as int)
    } else if spec_is_space(s[i]) {
        skip_trivia(s, i + 1)
    } else if s[i] == '/' && i + 1 < s.len() && s[i + 1] == '/' {
        skip_trivia(s, line_comment_end(s, i + 2))
    } else if s[i] == '/' && i + 1 < s.len() && s[i + 1] == '*' {
        match block_comment_end(s, i + 2, 1) {
            Some(j) => skip_trivia(s, j),
            None => Err(i),
        }
    } else {
        Ok(i)
    }
}

#[via_fn]
proof fn skip_trivia_dec(s: Seq<char>, i: int) {
    if 0 <= i < s.len() {
        if s[i] == '/' && i + 1 < s.len() && s[i + 1] == '/' {
            lemma_line_comment_end_bounds(s, i + 2);
        } else if s[i] == '/' && i + 1 < s.len() && s[i + 1] == '*' {
            lemma_block_comment_end_bounds(s, i + 2, 1);
        }
    }
}

pub proof fn lemma_skip_trivia_bounds(s: Seq<char>, i: int)
    requires
        0 <= i <= s.len(),
    ensures
        skip_trivia(s, i) is Ok ==> i <= skip_trivia(s, i)->Ok_0 <= s.len(),
        skip_trivia(s, i) is Err ==> i <= skip_trivia(s, i)->Err_0 && skip_trivia(s, i)->Err_0 + 2
            <= s.len(),
    decreases s.len() - i,
{
    if i < s.len() {
        if spec_is_space(s[i]) {
            lemma_skip_trivia_bounds(s, i + 1);
        } else if s[i] == '/' && i + 1 < s.len() && s[i + 1] == '/' {
            lemma_line_comment_end_bounds(s, i + 2);
            lemma_skip_trivia_bounds(s, line_comment_end(s, i + 2));
        } else if s[i] == '/' && i + 1 < s.len() && s[i + 1] == '*' {
            lemma_block_comment_end_bounds(s, i + 2, 1);
            match block_comment_end(s, i + 2, 1) {
                Some(j) => {
                    lemma_skip_trivia_bounds(s, j);
                },
                None => {},
            }
        }
    }
}

// ---------------------------------------------------------------------------
// Quoted strings, escaped identifiers and raw strings.
// ---------------------------------------------------------------------------
/// The outcome of scanning one string-shaped literal: its decoded text or a
/// lexical error, and the index just after the last character consumed.
pub struct StrScan {
    pub out: Result<Seq<char>, LexError>,
    pub end: int,
}

/// One step of the quoted-string scanner.  `esc` holds after a backslash;
/// `uni` with `uidx` digits read and value `uval` holds inside a `\uXXXX`
/// escape; `acc` is the text decoded so far; `q` is the closing quote.
pub open spec fn str_scan(
    s: Seq<char>,
    i: int,
    q: char,
    esc: bool,
    uni: bool,
    uidx: int,
    uval: int,
    acc: Seq<char>,
) -> StrScan
    decreases s.len() - i,
{
    if i < 0 || i >= s.len() {
        StrScan { out: Err(LexError::UnclosedStringError), end: s.len() as int }
    } else {
        let c = s[i];
        if esc {
            if c == '/' || c == '\\' || c == '"' || c == '\'' {
                str_scan(s, i + 1, q, false, false, 0, 0, acc.push(c))
            } else if c == 'n' {
                str_scan(s, i + 1, q, false, false, 0, 0, acc.push('\n'))
            } else if c == 'r' {
                str_scan(s, i + 1, q, false, false, 0, 0, acc.push('\r'))
            } else if c == 't' {
                str_scan(s, i + 1, q, false, false, 0, 0, acc.push('\t'))
            } else if c == 'b' {
                str_scan(s, i + 1, q, false, false, 0, 0, acc.push('\u{8}'))
            } else if c == 'f' {
                str_scan(s, i + 1, q, false, false, 0, 0, acc.push('\u{c}'))
            } else if c == 'u' {
                str_scan(s, i + 1, q, false, true, 0, 0, acc)
            } else {
                StrScan { out: Err(LexError::InvalidEscape(c)), end: i + 1 }
            }
        } else if uni {
            match spec_digit_val(c, 16) {
                None => StrScan {
                    out: Err(LexError::InvalidUnicodeEscape(uval as u32)),
                    end: i + 1,
                },
                Some(h) => {
                    let v2 = uval * 16 + h;
                    if uidx < 3 {
                        str_scan(s, i + 1, q, false, true, uidx + 1, v2, acc)
                    } else {
                        match spec_char_from(v2 as u32) {
                            Some(ch) => str_scan(s, i + 1, q, false, false, 0, 0, acc.push(ch)),
                            None => StrScan {
                                out: Err(LexError::InvalidUnicodeEscape(v2 as u32)),
                                end: i + 1,
                            },
                        }
                    }
                },
            }
        } else if c == '\\' {
            str_scan(s, i + 1, q, true, false, 0, 0, acc)
        } else if c == q {
            StrScan { out: Ok(acc), end: i + 1 }
        } else {
            str_scan(s, i + 1, q, false, false, 0, 0, acc.push(c))
        }
    }
}

pub proof fn lemma_str_scan_bounds(
    s: Seq<char>,
    i: int,
    q: char,
    esc: bool,
    uni: bool,
    uidx: int,
    uval: int,
    acc: Seq<char>,
)
    requires
        0 <= i <= s.len(),
    ensures
        i <= str_scan(s, i, q, esc, uni, uidx, uval, acc).end <= s.len(),
    decreases s.len() - i,
{
    if i < s.len() {
        let c = s[i];
        if esc {
            if c == '/' || c == '\\' || c == '"' || c == '\'' {
                lemma_str_scan_bounds(s, i + 1, q, false, false, 0, 0, acc.push(c));
            } else if c == 'n' {
                lemma_str_scan_bounds(s, i + 1, q, false, false, 0, 0, acc.push('\n'));
            } else if c == 'r' {
                lemma_str_scan_bounds(s, i + 1, q, false, false, 0, 0, acc.push('\r'));
            } else if c == 't' {
                lemma_str_scan_bounds(s, i + 1, q, false, false, 0, 0, acc.push('\t'));
            } else if c == 'b' {
                lemma_str_scan_bounds(s, i + 1, q, false, false, 0, 0, acc.push('\u{8}'));
            } else if c == 'f' {
                lemma_str_scan_bounds(s, i + 1, q, false, false, 0, 0, acc.push('\u{c}'));
            } else if c == 'u' {
                lemma_str_scan_bounds(s, i + 1, q, false, true, 0, 0, acc);
            }
        } else if uni {
            match spec_digit_val(c, 16) {
                None => {},
                Some(h) => {
                    let v2 = uval * 16 + h;
                    if uidx < 3 {
                        lemma_str_scan_bounds(s, i + 1, q, false, true, uidx + 1, v2, acc);
                    } else {
                        match spec_char_from(v2 as u32) {
                            Some(ch) => {
                                lemma_str_scan_bounds(s, i + 1, q, false, false, 0, 0, acc.push(ch))
                                ;
                            },
                            None => {},
                        }
                    }
                },
            }
        } else if c == '\\' {
            lemma_str_scan_bounds(s, i + 1, q, true, false, 0, 0, acc);
        } else if c == q {
        } else {
            lemma_str_scan_bounds(s, i + 1, q, false, false, 0, 0, acc.push(c));
        }
    }
}

/// One step of the backtick-escaped identifier scanner.  Like the string
/// scanner, but the only quote is the backtick, a bare newline is an error,
/// and running out of input is an unclosed-identifier error.
pub open spec fn esc_ident_scan(
    s: Seq<char>,
    i: int,
    esc: bool,
    uni: bool,
    uidx: int,
    uval: int,
    acc: Seq<char>,
) -> StrScan
    decreases s.len() - i,
{
    if i < 0 || i >= s.len() {
        if uni {
            StrScan { out: Err(LexError::UnclosedStringError), end: s.len() as int }
        } else {
            StrScan { out: Err(LexError::UnclosedIdentError), end: s.len() as int }
        }
    } else {
        let c = s[i];
        if esc {
            if c == '`' || c == '/' || c == '\\' {
                esc_ident_scan(s, i + 1, false, false, 0, 0, acc.push(c))
            } else if c == 'n' {
                esc_ident_scan(s, i + 1, false, false, 0, 0, acc.push('\n'))
            } else if c == 'r' {
                esc_ident_scan(s, i + 1, false, false, 0, 0, acc.push('\r'))
            } else if c == 't' {
                esc_ident_scan(s, i + 1, false, false, 0, 0, acc.push('\t'))
            } else if c == 'b' {
                esc_ident_scan(s, i + 1, false, false, 0, 0, acc.push('\u{8}'))
            } else if c == 'f' {
                esc_ident_scan(s, i + 1, false, false, 0, 0, acc.push('\u{c}'))
            } else if c == 'u' {
                esc_ident_scan(s, i + 1, false, true, 0, 0, acc)
            } else {
                StrScan { out: Err(LexError::InvalidEscape(c)), end: i + 1 }
            }
        } else if uni {
            match spec_digit_val(c, 16) {
                None => StrScan {
                    out: Err(LexError::InvalidUnicodeEscape(uval as u32)),
                    end: i + 1,
                },
                Some(h) => {
                    let v2 = uval * 16 + h;
                    if uidx < 3 {
                        esc_ident_scan(s, i + 1, false, true, uidx + 1, v2, acc)
                    } else {
                        match spec_char_from(v2 as u32) {
                            Some(ch) => esc_ident_scan(s, i + 1, false, false, 0, 0, acc.push(ch)),
                            None => StrScan {
                                out: Err(LexError::InvalidUnicodeEscape(v2 as u32)),
                                end: i + 1,
                            },
                        }
                    }
                },
            }
        } else if c == '\\' {
            esc_ident_scan(s, i + 1, true, false, 0, 0, acc)
        } else if c == '\n' {
            StrScan { out: Err(LexError::NewlineInIdentifier), end: i + 1 }
        } else if c == '`' {
            StrScan { out: Ok(acc), end: i + 1 }
        } else {
            esc_ident_scan(s, i + 1, false, false, 0, 0, acc.push(c))
        }
    }
}

pub proof fn lemma_esc_ident_scan_bounds(
    s: Seq<char>,
    i: int,
    esc: bool,
    uni: bool,
    uidx: int,
    uval: int,
    acc: Seq<char>,
)
    requires
        0 <= i <= s.len(),
    ensures
        i <= esc_ident_scan(s, i, esc, uni, uidx, uval, acc).end <= s.len(),
    decreases s.len() - i,
{
    if i < s.len() {
        let c = s[i];
        if esc {
            if c == '`' || c == '/' || c == '\\' {
                lemma_esc_ident_scan_bounds(s, i + 1, false, false, 0, 0, acc.push(c));
            } else if c == 'n' {
                lemma_esc_ident_scan_bounds(s, i + 1, false, false, 0, 0, acc.push('\n'));
            } else if c == 'r' {
                lemma_esc_ident_scan_bounds(s, i + 1, false, false, 0, 0, acc.push('\r'));
            } else if c == 't' {
                lemma_esc_ident_scan_bounds(s, i + 1, false, false, 0, 0, acc.push('\t'));
            } else if c == 'b' {
                lemma_esc_ident_scan_bounds(s, i + 1, false, false, 0, 0, acc.push('\u{8}'));
            } else if c == 'f' {
                lemma_esc_ident_scan_bounds(s, i + 1, false, false, 0, 0, acc.push('\u{c}'));
            } else if c == 'u' {
                lemma_esc_ident_scan_bounds(s, i + 1, false, true, 0, 0, acc);
            }
        } else if uni {
            match spec_digit_val(c, 16) {
                None => {},
                Some(h) => {
                    let v2 = uval * 16 + h;
                    if uidx < 3 {
                        lemma_esc_ident_scan_bounds(s, i + 1, false, true, uidx + 1, v2, acc);
                    } else {
                        match spec_char_from(v2 as u32) {
                            Some(ch) => {
                                lemma_esc_ident_scan_bounds(
                                    s,
                                    i + 1,
                                    false,
                                    false,
                                    0,
                                    0,
                                    acc.push(ch),
                                );
                            },
                            None => {},
                        }
                    }
                },
            }
        } else if c == '\\' {
            lemma_esc_ident_scan_bounds(s, i + 1, true, false, 0, 0, acc);
        } else if c == '\n' || c == '`' {
        } else {
            lemma_esc_ident_scan_bounds(s, i + 1, false, false, 0, 0, acc.push(c));
        }
    }
}

/// The character `c` repeated `n` times.
pub open spec fn rep(c: char, n: int) -> Seq<char>
    decreases n,
{
    if n <= 0 {
        Seq::<char>::empty()
    } else {
        rep(c, n - 1).push(c)
    }
}

/// The first index at or after `i` whose character differs from `d`.
pub open spec fn run_end(s: Seq<char>, i: int, d: char) -> int
    decreases s.len() - i,
{
    if i < 0 || i >= s.len() {
        s.len() as int
    } else if s[i] == d {
        run_end(s, i + 1, d)
    } else {
        i
    }
}

pub proof fn lemma_run_end_bounds(s: Seq<char>, i: int, d: char)
    requires
        0 <= i <= s.len(),
    ensures
        i <= run_end(s, i, d) <= s.len(),
    decreases s.len() - i,
{
    if i < s.len() && s[i] == d {
        lemma_run_end_bounds(s, i + 1, d);
    }
}

/// One step of the raw-string scanner.  `run` counts the closing characters
/// seen in the current run; a run of length `qlen` closes the literal, and a
/// shorter run is literal content.
pub open spec fn raw_scan(
    s: Seq<char>,
    i: int,
    close: char,
    qlen: int,
    run: int,
    acc: Seq<char>,
) -> StrScan
    decreases s.len() - i,
{
    if i < 0 || i >= s.len() {
        StrScan { out: Err(LexError::UnclosedStringError), end: s.len() as int }
    } else {
        let c = s[i];
        if c == close {
            if run + 1 >= qlen {
                StrScan { out: Ok(acc), end: i + 1 }
            } else {
                raw_scan(s, i + 1, close, qlen, run + 1, acc)
            }
        } else {
            raw_scan(s, i + 1, close, qlen, 0, acc + rep(close, run) + seq![c])
        }
    }
}

pub proof fn lemma_raw_scan_bounds(
    s: Seq<char>,
    i: int,
    close: char,
    qlen: int,
    run: int,
    acc: Seq<char>,
)
    requires
        0 <= i <= s.len(),
    ensures
        i <= raw_scan(s, i, close, qlen, run, acc).end <= s.len(),
    decreases s.len() - i,
{
    if i < s.len() {
        let c = s[i];
        if c == close {
            if run + 1 < qlen {
                lemma_raw_scan_bounds(s, i + 1, close, qlen, run + 1, acc);
            }
        } else {
            lemma_raw_scan_bounds(s, i + 1, close, qlen, 0, acc + rep(close, run) + seq![c]);
        }
    }
}

/// The first index at or after `i` whose character cannot continue an
/// identifier.
pub open spec fn ident_end(s: Seq<char>, i: int) -> int
    decreases s.len() - i,
{
    if i < 0 || i >= s.len() {
        s.len() as int
    } else if spec_ident_body(s[i]) {
        ident_end(s, i + 1)
    } else {
        i
    }
}

pub proof fn lemma_ident_end_bounds(s: Seq<char>, i: int)
    requires
        0 <= i <= s.len(),
    ensures
        i <= ident_end(s, i) <= s.len(),
    decreases s.len() - i,
{
    if i < s.len() && spec_ident_body(s[i]) {
        lemma_ident_end_bounds(s, i + 1);
    }
}

/// Scan a quoted string whose opening quote `q` stood just before `start`.
fn sc_string(v: &Vec<char>, start: usize, q: char) -> (r: (Result<String, LexError>, usize))
    requires
        start <= v@.len(),
    ensures
        ({
            let sp = str_scan(v@, start as int, q, false, false, 0, 0, Seq::<char>::empty());
            &&& r.1 == sp.end
            &&& match r.0 {
                Ok(t) => sp.out is Ok && t@ == sp.out->Ok_0,
                Err(e) => sp.out is Err && e == sp.out->Err_0,
            }
        }),
{
    let ghost target = str_scan(v@, start as int, q, false, false, 0, 0, Seq::<char>::empty());
    let mut i = start;
    let mut esc: bool = false;
    let mut uni: bool = false;
    let mut uidx: u32 = 0;
    let mut uval: u32 = 0;
    let mut out = String::new();
    loop
        invariant
            start <= i <= v@.len(),
            !(esc && uni),
            !uni ==> uidx == 0 && uval == 0,
            uni ==> uidx <= 3 && uval < (if uidx == 0 {
                1u32
            } else if uidx == 1 {
                16u32
            } else if uidx == 2 {
                256u32
            } else {
                4096u32
            }),
            str_scan(v@, i as int, q, esc, uni, uidx as int, uval as int, out@) == target,
            target == str_scan(v@, start as int, q, false, false, 0, 0, Seq::<char>::empty()),
        decreases v@.len() - i,
    {
        if i >= v.len() {
            return (Err(LexError::UnclosedStringError), v.len());
        }
        let c = v[i];
        if esc {
            esc = false;
            if c == '/' || c == '\\' || c == '"' || c == '\'' {
                push_char(&mut out, c);
            } else if c == 'n' {
                push_char(&mut out, '\n');
            } else if c == 'r' {
                push_char(&mut out, '\r');
            } else if c == 't' {
                push_char(&mut out, '\t');
            } else if c == 'b' {
                push_char(&mut out, '\u{8}');
            } else if c == 'f' {
                push_char(&mut out, '\u{c}');
            } else if c == 'u' {
                uni = true;
            } else {
                return (Err(LexError::InvalidEscape(c)), i + 1);
            }
        } else if uni {
            match digit_val(c, 16) {
                None => {
                    return (Err(LexError::InvalidUnicodeEscape(uval)), i + 1);
                },
                Some(h) => {
                    let v2 = uval * 16 + h;
                    if uidx < 3 {
                        uidx = uidx + 1;
                        uval = v2;
                    } else {
                        match char_from_u32(v2) {
                            Some(ch) => {
                                uni = false;
                                uidx = 0;
                                uval = 0;
                                push_char(&mut out, ch);
                            },
                            None => {
                                return (Err(LexError::InvalidUnicodeEscape(v2)), i + 1);
                            },
                        }
                    }
                },
            }
        } else if c == '\\' {
            esc = true;
        } else if c == q {
            return (Ok(out), i + 1);
        } else {
            push_char(&mut out, c);
        }
        i = i + 1;
    }
}

/// Scan a backtick-escaped identifier whose opening backtick stood just
/// before `start`.
fn sc_esc_ident(v: &Vec<char>, start: usize) -> (r: (Result<String, LexError>, usize))
    requires
        start <= v@.len(),
    ensures
        ({
            let sp = esc_ident_scan(v@, start as int, false, false, 0, 0, Seq::<char>::empty());
            &&& r.1 == sp.end
            &&& match r.0 {
                Ok(t) => sp.out is Ok && t@ == sp.out->Ok_0,
                Err(e) => sp.out is Err && e == sp.out->Err_0,
            }
        }),
{
    let mut i = start;
    let mut esc: bool = false;
    let mut uni: bool = false;
    let mut uidx: u32 = 0;
    let mut uval: u32 = 0;
    let mut out = String::new();
    loop
        invariant
            start <= i <= v@.len(),
            !(esc && uni),
            !uni ==> uidx == 0 && uval == 0,
            uni ==> uidx <= 3 && uval < (if uidx == 0 {
                1u32
            } else if uidx == 1 {
                16u32
            } else if uidx == 2 {
                256u32
            } else {
                4096u32
            }),
            esc_ident_scan(v@, i as int, esc, uni, uidx as int, uval as int, out@)
                == esc_ident_scan(v@, start as int, false, false, 0, 0, Seq::<char>::empty()),
        decreases v@.len() - i,
    {
        if i >= v.len() {
            if uni {
                return (Err(LexError::UnclosedStringError), v.len());
            } else {
                return (Err(LexError::UnclosedIdentError), v.len());
            }
        }
        let c = v[i];
        if esc {
            esc = false;
            if c == '`' || c == '/' || c == '\\' {
                push_char(&mut out, c);
            } else if c == 'n' {
                push_char(&mut out, '\n');
            } else if c == 'r' {
                push_char(&mut out, '\r');
            } else if c == 't' {
                push_char(&mut out, '\t');
            } else if c == 'b' {
                push_char(&mut out, '\u{8}');
            } else if c == 'f' {
                push_char(&mut out, '\u{c}');
            } else if c == 'u' {
                uni = true;
            } else {
                return (Err(LexError::InvalidEscape(c)), i + 1);
            }
        } else if uni {
            match digit_val(c, 16) {
                None => {
                    return (Err(LexError::InvalidUnicodeEscape(uval)), i + 1);
                },
                Some(h) => {
                    let v2 = uval * 16 + h;
                    if uidx < 3 {
                        uidx = uidx + 1;
                        uval = v2;
                    } else {
                        match char_from_u32(v2) {
                            Some(ch) => {
                                uni = false;
                                uidx = 0;
                                uval = 0;
                                push_char(&mut out, ch);
                            },
                            None => {
                                return (Err(LexError::InvalidUnicodeEscape(v2)), i + 1);
                            },
                        }
                    }
                },
            }
        } else if c == '\\' {
            esc = true;
        } else if c == '\n' {
            return (Err(LexError::NewlineInIdentifier), i + 1);
        } else if c == '`' {
            return (Ok(out), i + 1);
        } else {
            push_char(&mut out, c);
        }
        i = i + 1;
    }
}

/// Scan the body of a raw string: `qlen` repetitions of `close` end it.
fn sc_raw(v: &Vec<char>, start: usize, close: char, qlen: usize) -> (r: (
    Result<String, LexError>,
    usize,
))
    requires
        start <= v@.len(),
        qlen >= 1,
    ensures
        ({
            let sp = raw_scan(v@, start as int, close, qlen as int, 0, Seq::<char>::empty());
            &&& r.1 == sp.end
            &&& match r.0 {
                Ok(t) => sp.out is Ok && t@ == sp.out->Ok_0,
                Err(e) => sp.out is Err && e == sp.out->Err_0,
            }
        }),
{
    let mut i = start;
    let mut run: usize = 0;
    let mut out = String::new();
    loop
        invariant
            start <= i <= v@.len(),
            run < qlen,
            raw_scan(v@, i as int, close, qlen as int, run as int, out@) == raw_scan(
                v@,
                start as int,
                close,
                qlen as int,
                0,
                Seq::<char>::empty(),
            ),
        decreases v@.len() - i,
    {
        if i >= v.len() {
            return (Err(LexError::UnclosedStringError), v.len());
        }
        let c = v[i];
        if c == close {
            if run + 1 >= qlen {
                return (Ok(out), i + 1);
            } else {
                run = run + 1;
            }
        } else {
            let ghost base = out@;
            let mut k: usize = 0;
            while k < run
                invariant
                    k <= run,
                    out@ == base + rep(close, k as int),
                decreases run - k,
            {
                push_char(&mut out, close);
                proof {
                    assert(out@ =~= base + rep(close, k + 1));
                }
                k = k + 1;
            }
            push_char(&mut out, c);
            proof {
                assert(out@ =~= base + rep(close, run as int) + seq![c]);
            }
            run = 0;
        }
        i = i + 1;
    }
}

/// Find the end of a run of identifier characters starting at `start`.
fn sc_ident_end(v: &Vec<char>, start: usize) -> (r: usize)
    requires
        start <= v@.len(),
    ensures
        r == ident_end(v@, start as int),
        start <= r <= v@.len(),
    decreases v@.len() - start,
{
    let mut i = start;
    while i < v.len() && ident_body(v[i])
        invariant
            start <= i <= v@.len(),
            ident_end(v@, i as int) == ident_end(v@, start as int),
        decreases v@.len() - i,
    {
        i = i + 1;
    }
    i
}

/// Find the end of a run of copies of `d` starting at `start`.
fn sc_run_end(v: &Vec<char>, start: usize, d: char) -> (r: usize)
    requires
        start <= v@.len(),
    ensures
        r == run_end(v@, start as int, d),
        start <= r <= v@.len(),
{
    let mut i = start;
    while i < v.len() && v[i] == d
        invariant
            start <= i <= v@.len(),
            run_end(v@, i as int, d) == run_end(v@, start as int, d),
        decreases v@.len() - i,
    {
        i = i + 1;
    }
    i
}

// ---------------------------------------------------------------------------
// Numeric literals.
// ---------------------------------------------------------------------------
/// The digits collected for a base-prefixed integer literal, and where the
/// run ends.  Underscores are accepted and ignored.
pub struct DigScan {
    pub digits: Seq<char>,
    pub end: int,
}

pub open spec fn based_scan(s: Seq<char>, i: int, base: u32, acc: Seq<char>) -> DigScan
    decreases s.len() - i,
{
    if i < 0 || i >= s.len() {
        DigScan { digits: acc, end: s.len() as int }
    } else {
        let c = s[i];
        if spec_digit_val(c, base) is Some {
            based_scan(s, i + 1, base, acc.push(c))
        } else if c == '_' {
            based_scan(s, i + 1, base, acc)
        } else {
            DigScan { digits: acc, end: i }
        }
    }
}

pub proof fn lemma_based_scan_bounds(s: Seq<char>, i: int, base: u32, acc: Seq<char>)
    requires
        0 <= i <= s.len(),
    ensures
        i <= based_scan(s, i, base, acc).end <= s.len(),
    decreases s.len() - i,
{
    if i < s.len() {
        let c = s[i];
        if spec_digit_val(c, base) is Some {
            lemma_based_scan_bounds(s, i + 1, base, acc.push(c));
        } else if c == '_' {
            lemma_based_scan_bounds(s, i + 1, base, acc);
        }
    }
}

/// The outcome of scanning one numeric literal.
pub struct NumScan {
    pub out: Result<TokenV, LexError>,
    pub end: int,
}

/// A base-prefixed integer literal: its digits read in the base.  No digits
/// at all, or a value above the largest 64-bit signed integer, is an error.
pub open spec fn based_result(s: Seq<char>, i: int, base: u32) -> NumScan {
    let b = based_scan(s, i, base, Seq::<char>::empty());
    if b.digits.len() == 0 || digits_val(b.digits, base) > i64::MAX {
        NumScan { out: Err(LexError::IntegerParseError), end: b.end }
    } else {
        NumScan { out: Ok(TokenV::IntegerLit(digits_val(b.digits, base) as i64)), end: b.end }
    }
}

/// The mantissa of a decimal literal: its text (digits and at most one
/// point), whether a point made it a float, whether an exponent marker
/// followed, how many digits it holds, and where it ends.
pub struct MantScan {
    pub txt: Seq<char>,
    pub isf: bool,
    pub expo: bool,
    pub ndig: int,
    pub end: int,
}

pub open spec fn mant_scan(s: Seq<char>, i: int, isf: bool, acc: Seq<char>, nd: int) -> MantScan
    decreases s.len() - i,
{
    if i < 0 || i >= s.len() {
        MantScan { txt: acc, isf, expo: false, ndig: nd, end: s.len() as int }
    } else {
        let c = s[i];
        if c == '.' {
            if isf {
                MantScan { txt: acc, isf, expo: false, ndig: nd, end: i }
            } else {
                mant_scan(s, i + 1, true, acc.push('.'), nd)
            }
        } else if spec_digit_val(c, 10) is Some {
            mant_scan(s, i + 1, isf, acc.push(c), nd + 1)
        } else if c == '_' {
            mant_scan(s, i + 1, isf, acc, nd)
        } else if c == 'e' || c == 'E' {
            MantScan { txt: acc, isf: true, expo: true, ndig: nd, end: i + 1 }
        } else {
            MantScan { txt: acc, isf, expo: false, ndig: nd, end: i }
        }
    }
}

pub proof fn lemma_mant_scan_bounds(s: Seq<char>, i: int, isf: bool, acc: Seq<char>, nd: int)
    requires
        0 <= i <= s.len(),
    ensures
        i <= mant_scan(s, i, isf, acc, nd).end <= s.len(),
    decreases s.len() - i,
{
    if i < s.len() {
        let c = s[i];
        if c == '.' {
            if !isf {
                lemma_mant_scan_bounds(s, i + 1, true, acc.push('.'), nd);
            }
        } else if spec_digit_val(c, 10) is Some {
            lemma_mant_scan_bounds(s, i + 1, isf, acc.push(c), nd + 1);
        } else if c == '_' {
            lemma_mant_scan_bounds(s, i + 1, isf, acc, nd);
        }
    }
}

/// The first index at or after `i` whose character is no decimal digit.
pub open spec fn dig_run_end(s: Seq<char>, i: int) -> int
    decreases s.len() - i,
{
    if i < 0 || i >= s.len() {
        s.len() as int
    } else if spec_digit_val(s[i], 10) is Some {
        dig_run_end(s, i + 1)
    } else {
        i
    }
}

pub proof fn lemma_dig_run_end_bounds(s: Seq<char>, i: int)
    requires
        0 <= i <= s.len(),
    ensures
        i <= dig_run_end(s, i) <= s.len(),
    decreases s.len() - i,
{
    if i < s.len() && spec_digit_val(s[i], 10) is Some {
        lemma_dig_run_end_bounds(s, i + 1);
    }
}

/// The exponent part of a float literal, read just after its `e` or `E`: a
/// lower-case `e`, an optional sign, and a run of digits.
pub struct ExpoScan {
    pub txt: Seq<char>,
    pub ndig: int,
    pub end: int,
}

pub open spec fn expo_scan(s: Seq<char>, i: int) -> ExpoScan {
    let j = if 0 <= i < s.len() && (s[i] == '+' || s[i] == '-') {
        i + 1
    } else {
        i
    };
    let sgn = if j == i + 1 {
        seq![s[i]]
    } else {
        Seq::<char>::empty()
    };
    let k = dig_run_end(s, j);
    ExpoScan { txt: seq!['e'] + sgn + s.subrange(j, k), ndig: k - j, end: k }
}

/// A decimal literal: an optional sign, digits with at most one point, and
/// an optional exponent.  A point or an exponent marker makes it a float,
/// whose token keeps the spelling (always with a lower-case `e`); otherwise
/// it is an integer.  A float needs a digit in the mantissa and, when the
/// marker is present, a digit in the exponent; an integer needs a digit and
/// must fit in a 64-bit signed integer.
pub open spec fn scan_float_int(s: Seq<char>, i: int) -> NumScan {
    let neg = 0 <= i < s.len() && s[i] == '-';
    let i1 = if 0 <= i < s.len() && (s[i] == '+' || s[i] == '-') {
        i + 1
    } else {
        i
    };
    let sgn = if neg {
        seq!['-']
    } else {
        Seq::<char>::empty()
    };
    let m = mant_scan(s, i1, false, Seq::<char>::empty(), 0);
    if m.expo {
        let e = expo_scan(s, m.end);
        if m.ndig > 0 && e.ndig > 0 {
            NumScan { out: Ok(TokenV::FloatLit(sgn + m.txt + e.txt)), end: e.end }
        } else {
            NumScan { out: Err(LexError::FloatParseError), end: e.end }
        }
    } else if m.isf {
        if m.ndig > 0 {
            NumScan { out: Ok(TokenV::FloatLit(sgn + m.txt)), end: m.end }
        } else {
            NumScan { out: Err(LexError::FloatParseError), end: m.end }
        }
    } else {
        if m.txt.len() == 0 || digits_val(m.txt, 10) > i64::MAX {
            NumScan { out: Err(LexError::IntegerParseError), end: m.end }
        } else {
            NumScan {
                out: Ok(
                    TokenV::IntegerLit(
                        if neg {
                            (-digits_val(m.txt, 10)) as i64
                        } else {
                            digits_val(m.txt, 10) as i64
                        },
                    ),
                ),
                end: m.end,
            }
        }
    }
}

/// A numeric literal: a `0x`/`0o`/`0b`/`0d` prefix picks a base for an
/// unsigned integer; anything else is a decimal integer or float.
pub open spec fn scan_number(s: Seq<char>, i: int) -> NumScan {
    if i + 2 <= s.len() && i >= 0 && s[i] == '0' && (s[i + 1] == 'd' || s[i + 1] == 'D') {
        based_result(s, i + 2, 10)
    } else if i + 2 <= s.len() && i >= 0 && s[i] == '0' && (s[i + 1] == 'x' || s[i + 1] == 'X') {
        based_result(s, i + 2, 16)
    } else if i + 2 <= s.len() && i >= 0 && s[i] == '0' && (s[i + 1] == 'o' || s[i + 1] == 'O') {
        based_result(s, i + 2, 8)
    } else if i + 2 <= s.len() && i >= 0 && s[i] == '0' && (s[i + 1] == 'b' || s[i + 1] == 'B') {
        based_result(s, i + 2, 2)
    } else {
        scan_float_int(s, i)
    }
}

/// Scan a base-prefixed integer literal, whose prefix ended just before
/// `start`.
fn sc_based(v: &Vec<char>, start: usize, base: u32) -> (r: (Result<LexToken, LexError>, usize))
    requires
        start <= v@.len(),
        2 <= base <= 16,
    ensures
        ({
            let sp = based_result(v@, start as int, base);
            &&& r.1 == sp.end
            &&& match r.0 {
                Ok(t) => sp.out is Ok && t@ == sp.out->Ok_0,
                Err(e) => sp.out is Err && e == sp.out->Err_0,
            }
        }),
{
    let mut i = start;
    let mut acc: u64 = 0;
    let mut big: bool = false;
    let mut seen: bool = false;
    let ghost mut digits: Seq<char> = Seq::<char>::empty();
    loop
        invariant
            start <= i <= v@.len(),
            2 <= base <= 16,
            based_scan(v@, i as int, base, digits) == based_scan(
                v@,
                start as int,
                base,
                Seq::<char>::empty(),
            ),
            seen == (digits.len() > 0),
            !big ==> acc as int == digits_val(digits, base) && acc <= i64::MAX,
            big ==> digits_val(digits, base) > i64::MAX,
        ensures
            ({
                let b = based_scan(v@, start as int, base, Seq::<char>::empty());
                &&& b.digits == digits
                &&& b.end == i as int
                &&& seen == (digits.len() > 0)
                &&& !big ==> acc as int == digits_val(digits, base) && acc <= i64::MAX
                &&& big ==> digits_val(digits, base) > i64::MAX
            }),
        decreases v@.len() - i,
    {
        if i >= v.len() {
            break ;
        }
        let c = v[i];
        match digit_val(c, base) {
            Some(d) => {
                proof {
                    assert(digits.push(c).drop_last() == digits);
                    assert(digits.push(c).last() == c);
                }
                if big {
                    proof {
                        let dv = digits_val(digits, base);
                        assert(dv * base > i64::MAX) by (nonlinear_arith)
                            requires
                                dv > i64::MAX && base >= 2,
                        ;
                    }
                } else {
                    proof {
                        assert((acc as u128) * (base as u128) <= 0xFFFF_FFFF_FFFF_FFFFu128 * 16)
                            by (nonlinear_arith)
                            requires
                                acc <= u64::MAX && base <= 16,
                        ;
                    }
                    let tmp: u128 = (acc as u128) * (base as u128) + (d as u128);
                    if tmp > 0x7FFF_FFFF_FFFF_FFFFu128 {
                        big = true;
                    } else {
                        acc = tmp as u64;
                    }
                }
                proof {
                    digits = digits.push(c);
                }
                seen = true;
            },
            None => {
                if c == '_' {
                } else {
                    break ;
                }
            },
        }
        i = i + 1;
    }
    if big || !seen {
        (Err(LexError::IntegerParseError), i)
    } else {
        (Ok(LexToken::IntegerLit(acc as i64)), i)
    }
}

/// Scan the exponent of a float literal, just after its `e` or `E` marker.
/// Returns the exponent text (always with a lower-case `e`), the end of the
/// run, and how many digits it held.
fn sc_expo(v: &Vec<char>, start: usize) -> (r: (String, usize, usize))
    requires
        start <= v@.len(),
    ensures
        ({
            let e = expo_scan(v@, start as int);
            &&& r.0@ == e.txt
            &&& r.1 == e.end
            &&& r.2 == e.ndig
            &&& start <= r.1 <= v@.len()
        }),
{
    let mut out = String::new();
    push_char(&mut out, 'e');
    let mut i = start;
    if i < v.len() && (v[i] == '+' || v[i] == '-') {
        push_char(&mut out, v[i]);
        i = i + 1;
    }
    let js = i;
    let ghost j = i as int;
    let ghost head = out@;
    proof {
        lemma_dig_run_end_bounds(v@, j);
        assert(head + v@.subrange(j, j) =~= head);
        assert(expo_scan(v@, start as int).txt == head + v@.subrange(j, dig_run_end(v@, j)));
        assert(expo_scan(v@, start as int).end == dig_run_end(v@, j));
        assert(expo_scan(v@, start as int).ndig == dig_run_end(v@, j) - j);
    }
    loop
        invariant
            j <= i <= v@.len(),
            js == j,
            dig_run_end(v@, i as int) == dig_run_end(v@, j),
            out@ == head + v@.subrange(j, i as int),
            expo_scan(v@, start as int).txt == head + v@.subrange(j, dig_run_end(v@, j)),
            expo_scan(v@, start as int).end == dig_run_end(v@, j),
            expo_scan(v@, start as int).ndig == dig_run_end(v@, j) - j,
        ensures
            j <= i <= v@.len(),
            js == j,
            i as int == dig_run_end(v@, j),
            out@ == expo_scan(v@, start as int).txt,
        decreases v@.len() - i,
    {
        if i >= v.len() {
            break ;
        }
        let c = v[i];
        match digit_val(c, 10) {
            Some(_) => {
                push_char(&mut out, c);
                proof {
                    assert(out@ =~= head + v@.subrange(j, i + 1));
                }
                i = i + 1;
            },
            None => {
                break ;
            },
        }
    }
    (out, i, i - js)
}

/// Scan a decimal integer or float literal starting at `start`.
fn sc_float_int(v: &Vec<char>, start: usize) -> (r: (Result<LexToken, LexError>, usize))
    requires
        start <= v@.len(),
    ensures
        ({
            let sp = scan_float_int(v@, start as int);
            &&& r.1 == sp.end
            &&& start <= r.1 <= v@.len()
            &&& match r.0 {
                Ok(t) => sp.out is Ok && t@ == sp.out->Ok_0,
                Err(e) => sp.out is Err && e == sp.out->Err_0,
            }
        }),
{
    let mut i = start;
    let mut neg: bool = false;
    if i < v.len() && (v[i] == '+' || v[i] == '-') {
        neg = v[i] == '-';
        i = i + 1;
    }
    let ghost i1 = i as int;
    let ghost sgn = if neg {
        seq!['-']
    } else {
        Seq::<char>::empty()
    };
    let mut mtxt = String::new();
    let mut isf: bool = false;
    let mut has_expo: bool = false;
    let mut nd: usize = 0;
    let mut acc: u64 = 0;
    let mut big: bool = false;
    loop
        invariant_except_break
            has_expo == false,
            mant_scan(v@, i as int, isf, mtxt@, nd as int) == mant_scan(
                v@,
                i1,
                false,
                Seq::<char>::empty(),
                0,
            ),
        invariant
            i1 <= i <= v@.len(),
            nd <= i,
            !isf ==> ((!big ==> acc as int == digits_val(mtxt@, 10) && acc <= i64::MAX) && (big
                ==> digits_val(mtxt@, 10) > i64::MAX)),
        ensures
            ({
                let m = mant_scan(v@, i1, false, Seq::<char>::empty(), 0);
                &&& i1 <= i <= v@.len()
                &&& m.txt == mtxt@
                &&& m.expo == has_expo
                &&& m.ndig == nd as int
                &&& m.end == i as int
                &&& (!has_expo ==> m.isf == isf)
                &&& (!isf ==> ((!big ==> acc as int == digits_val(mtxt@, 10) && acc <= i64::MAX) && (
                big ==> digits_val(mtxt@, 10) > i64::MAX)))
            }),
        decreases v@.len() - i,
    {
        if i >= v.len() {
            break ;
        }
        let c = v[i];
        if c == '.' {
            if isf {
                break ;
            } else {
                isf = true;
                push_char(&mut mtxt, '.');
            }
        } else {
            match digit_val(c, 10) {
                Some(d) => {
                    proof {
                        assert(mtxt@.push(c).drop_last() == mtxt@);
                        assert(mtxt@.push(c).last() == c);
                        if !isf && big {
                            let dv = digits_val(mtxt@, 10);
                            assert(dv * 10 > i64::MAX) by (nonlinear_arith)
                                requires
                                    dv > i64::MAX,
                            ;
                        }
                    }
                    if !big {
                        let tmp: u128 = (acc as u128) * 10 + (d as u128);
                        if tmp > 0x7FFF_FFFF_FFFF_FFFFu128 {
                            big = true;
                        } else {
                            acc = tmp as u64;
                        }
                    }
                    push_char(&mut mtxt, c);
                    nd = nd + 1;
                },
                None => {
                    if c == '_' {
                    } else if c == 'e' || c == 'E' {
                        has_expo = true;
                        i = i + 1;
                        break ;
                    } else {
                        break ;
                    }
                },
            }
        }
        i = i + 1;
    }
    if has_expo {
        let (etxt, eend, endig) = sc_expo(v, i);
        if nd > 0 && endig > 0 {
            let mut out = String::new();
            if neg {
                push_char(&mut out, '-');
            }
            proof {
                assert(out@ =~= sgn);
            }
            out.append(mtxt.as_str());
            out.append(etxt.as_str());
            proof {
                assert(out@ =~= sgn + mtxt@ + etxt@);
            }
            (Ok(LexToken::FloatLit(out)), eend)
        } else {
            (Err(LexError::FloatParseError), eend)
        }
    } else if isf {
        if nd > 0 {
            let mut out = String::new();
            if neg {
                push_char(&mut out, '-');
            }
            proof {
                assert(out@ =~= sgn);
            }
            out.append(mtxt.as_str());
            proof {
                assert(out@ =~= sgn + mtxt@);
            }
            (Ok(LexToken::FloatLit(out)), i)
        } else {
            (Err(LexError::FloatParseError), i)
        }
    } else {
        if mtxt.as_str().is_empty() || big {
            (Err(LexError::IntegerParseError), i)
        } else {
            let val = acc as i64;
            (Ok(LexToken::IntegerLit(if neg { -val } else { val })), i)
        }
    }
}

/// Scan a numeric literal starting at `start`.
fn sc_number(v: &Vec<char>, start: usize) -> (r: (Result<LexToken, LexError>, usize))
    requires
        start <= v@.len(),
    ensures
        ({
            let sp = scan_number(v@, start as int);
            &&& r.1 == sp.end
            &&& start <= r.1 <= v@.len()
            &&& match r.0 {
                Ok(t) => sp.out is Ok && t@ == sp.out->Ok_0,
                Err(e) => sp.out is Err && e == sp.out->Err_0,
            }
        }),
{
    if v.len() - start >= 2 && v[start] == '0' && (v[start + 1] == 'd' || v[start + 1] == 'D') {
        proof {
            lemma_based_scan_bounds(v@, start + 2, 10, Seq::<char>::empty());
        }
        sc_based(v, start + 2, 10)
    } else if v.len() - start >= 2 && v[start] == '0' && (v[start + 1] == 'x' || v[start + 1]
        == 'X') {
        proof {
            lemma_based_scan_bounds(v@, start + 2, 16, Seq::<char>::empty());
        }
        sc_based(v, start + 2, 16)
    } else if v.len() - start >= 2 && v[start] == '0' && (v[start + 1] == 'o' || v[start + 1]
        == 'O') {
        proof {
            lemma_based_scan_bounds(v@, start + 2, 8, Seq::<char>::empty());
        }
        sc_based(v, start + 2, 8)
    } else if v.len() - start >= 2 && v[start] == '0' && (v[start + 1] == 'b' || v[start + 1]
        == 'B') {
        proof {
            lemma_based_scan_bounds(v@, start + 2, 2, Seq::<char>::empty());
        }
        sc_based(v, start + 2, 2)
    } else {
        sc_float_int(v, start)
    }
}

// ---------------------------------------------------------------------------
// One token, and the token stream.
// ---------------------------------------------------------------------------
/// Characters that may open a raw string after `r`.
pub open spec fn spec_is_raw_delim(c: char) -> bool {
    c == '/' || c == '|' || c == '#' || c == '$' || c == '%' || c == '(' || c == '"' || c == '\''
}

#[verifier::when_used_as_spec(spec_is_raw_delim)]
fn is_raw_delim(c: char) -> (r: bool)
    ensures
        r == spec_is_raw_delim(c),
{
    c == '/' || c == '|' || c == '#' || c == '$' || c == '%' || c == '(' || c == '"' || c == '\''
}

/// The character that closes a raw string opened with `c`.
pub open spec fn raw_close(c: char) -> char {
    if c == '(' {
        ')'
    } else {
        c
    }
}

/// The outcome of one lexing step: the token or error produced (`None` at the
/// end of input), the index of its first character (or, for an unclosed
/// comment, of the comment), and the index just after the last character
/// consumed.
pub struct ScanNext {
    pub out: Option<Result<TokenV, LexError>>,
    pub start: int,
    pub end: int,
}

/// A raw string starting at the `r` at index `j`: the run of delimiter
/// characters sets the length of the closing run.
pub open spec fn raw_token(s: Seq<char>, j: int) -> ScanNext {
    let d = s[j + 1];
    let qlen = run_end(s, j + 2, d) - (j + 1);
    let sp = raw_scan(s, j + 1 + qlen, raw_close(d), qlen, 0, Seq::<char>::empty());
    ScanNext {
        out: Some(
            match sp.out {
                Ok(t) => Ok(TokenV::StringLit(t)),
                Err(e) => Err(e),
            },
        ),
        start: j,
        end: sp.end,
    }
}

/// The token starting at the non-trivia index `j`.
pub open spec fn scan_token(s: Seq<char>, j: int) -> ScanNext {
    let c = s[j];
    if c == 'r' && j + 1 < s.len() && spec_is_raw_delim(s[j + 1]) {
        raw_token(s, j)
    } else if c == '{' {
        ScanNext { out: Some(Ok(TokenV::OpenBrace)), start: j, end: j + 1 }
    } else if c == '}' {
        ScanNext { out: Some(Ok(TokenV::CloseBrace)), start: j, end: j + 1 }
    } else if c == '[' {
        ScanNext { out: Some(Ok(TokenV::OpenBracket)), start: j, end: j + 1 }
    } else if c == ']' {
        ScanNext { out: Some(Ok(TokenV::CloseBracket)), start: j, end: j + 1 }
    } else if c == ',' {
        ScanNext { out: Some(Ok(TokenV::Comma)), start: j, end: j + 1 }
    } else if c == '!' {
        ScanNext { out: Some(Ok(TokenV::Bang)), start: j, end: j + 1 }
    } else if c == ':' {
        ScanNext { out: Some(Ok(TokenV::Colon)), start: j, end: j + 1 }
    } else if c == '`' {
        let sp = esc_ident_scan(s, j + 1, false, false, 0, 0, Seq::<char>::empty());
        ScanNext {
            out: Some(
                match sp.out {
                    Ok(t) => Ok(TokenV::Identifier(t)),
                    Err(e) => Err(e),
                },
            ),
            start: j,
            end: sp.end,
        }
    } else if spec_ident_head(c) {
        ScanNext {
            out: Some(Ok(TokenV::Identifier(s.subrange(j, ident_end(s, j))))),
            start: j,
            end: ident_end(s, j),
        }
    } else if spec_digit_val(c, 10) is Some || c == '+' || c == '-' || c == '.' {
        let n = scan_number(s, j);
        ScanNext {
            out: Some(n.out),
            start: j,
            end: n.end,
        }
    } else if c == '"' || c == '\'' {
        let sp = str_scan(s, j + 1, c, false, false, 0, 0, Seq::<char>::empty());
        ScanNext {
            out: Some(
                match sp.out {
                    Ok(t) => Ok(TokenV::StringLit(t)),
                    Err(e) => Err(e),
                },
            ),
            start: j,
            end: sp.end,
        }
    } else {
        ScanNext { out: Some(Err(LexError::UnrecognisedCharError(c))), start: j, end: j + 1 }
    }
}

/// One lexing step from index `i`: skip trivia, then read one token.
pub open spec fn scan_next(s: Seq<char>, i: int) -> ScanNext {
    match skip_trivia(s, i) {
        Err(cstart) => ScanNext {
            out: Some(Err(LexError::UnclosedCommentError)),
            start: cstart,
            end: s.len() as int,
        },
        Ok(j) => if j >= s.len() {
            ScanNext { out: None, start: j, end: j }
        } else {
            scan_token(s, j)
        },
    }
}

/// A lexing step stays within the input and, when it produces something,
/// consumes at least one character.
pub proof fn lemma_scan_next_bounds(s: Seq<char>, i: int)
    requires
        0 <= i <= s.len(),
    ensures
        i <= scan_next(s, i).start <= scan_next(s, i).end <= s.len(),
        scan_next(s, i).out is Some ==> scan_next(s, i).end > i,
        scan_next(s, i).out is None ==> scan_next(s, i).start == scan_next(s, i).end,
{
    lemma_skip_trivia_bounds(s, i);
    match skip_trivia(s, i) {
        Err(cstart) => {},
        Ok(j) => {
            if j < s.len() {
                let c = s[j];
                if c == 'r' && j + 1 < s.len() && spec_is_raw_delim(s[j + 1]) {
                    let d = s[j + 1];
                    lemma_run_end_bounds(s, j + 2, d);
                    let qlen = run_end(s, j + 2, d) - (j + 1);
                    lemma_raw_scan_bounds(
                        s,
                        j + 1 + qlen,
                        raw_close(d),
                        qlen,
                        0,
                        Seq::<char>::empty(),
                    );
                } else if c == '`' {
                    lemma_esc_ident_scan_bounds(s, j + 1, false, false, 0, 0, Seq::<char>::empty());
                } else if spec_ident_head(c) {
                    lemma_ident_end_bounds(s, j + 1);
                } else if spec_digit_val(c, 10) is Some || c == '+' || c == '-' || c == '.' {
                    lemma_scan_number_bounds(s, j);
                } else if c == '"' || c == '\'' {
                    lemma_str_scan_bounds(s, j + 1, c, false, false, 0, 0, Seq::<char>::empty());
                }
            }
        },
    }
}

/// A numeric literal starting at a digit, sign or point consumes at least
/// one character and stays within the input.
pub proof fn lemma_scan_number_bounds(s: Seq<char>, j: int)
    requires
        0 <= j < s.len(),
        spec_digit_val(s[j], 10) is Some || s[j] == '+' || s[j] == '-' || s[j] == '.',
    ensures
        j < scan_number(s, j).end <= s.len(),
{
    if j + 2 <= s.len() && s[j] == '0' && (s[j + 1] == 'd' || s[j + 1] == 'D' || s[j + 1] == 'x'
        || s[j + 1] == 'X' || s[j + 1] == 'o' || s[j + 1] == 'O' || s[j + 1] == 'b' || s[j + 1]
        == 'B') {
        lemma_based_scan_bounds(s, j + 2, 10, Seq::<char>::empty());
        lemma_based_scan_bounds(s, j + 2, 16, Seq::<char>::empty());
        lemma_based_scan_bounds(s, j + 2, 8, Seq::<char>::empty());
        lemma_based_scan_bounds(s, j + 2, 2, Seq::<char>::empty());
    } else {
        let i1 = if s[j] == '+' || s[j] == '-' {
            j + 1
        } else {
            j
        };
        lemma_mant_scan_bounds(s, i1, false, Seq::<char>::empty(), 0);
        let m = mant_scan(s, i1, false, Seq::<char>::empty(), 0);
        if i1 == j {
            assert(m.end > j) by {
                if spec_digit_val(s[j], 10) is Some {
                    lemma_mant_scan_bounds(s, j + 1, false, Seq::<char>::empty().push(s[j]), 1);
                } else {
                    lemma_mant_scan_bounds(s, j + 1, true, Seq::<char>::empty().push('.'), 0);
                }
            }
        }
        if m.expo {
            lemma_dig_run_end_bounds(
                s,
                if 0 <= m.end < s.len() && (s[m.end] == '+' || s[m.end] == '-') {
                    m.end + 1
                } else {
                    m.end
                },
            );
        }
    }
}

/// One produced item of the token stream: the token or error, the position of
/// its first character, and the lexer's position just after it.
pub struct LexItemV {
    pub res: Result<TokenV, LexError>,
    pub pos: crate::position::Position,
    pub endpos: crate::position::Position,
}

/// The position reached after consuming the prefix `s` of the input.
pub open spec fn pos_of(s: Seq<char>) -> crate::position::Position {
    crate::position::Position { line: pos_line(s) as usize, pos: pos_col(s) as usize }
}

/// The stream of tokens from index `i` on: one item per token, ending at the
/// end of input or with the first error.
pub open spec fn lex_seq(s: Seq<char>, i: int) -> Seq<LexItemV>
    decreases s.len() - i,
    when 0 <= i <= s.len()
    via lex_seq_dec
{
    let sn = scan_next(s, i);
    match sn.out {
        None => Seq::<LexItemV>::empty(),
        Some(Ok(t)) => seq![
            LexItemV { res: Ok(t), pos: pos_of(s.take(sn.start)), endpos: pos_of(s.take(sn.end)) },
        ] + lex_seq(s, sn.end),
        Some(Err(e)) => seq![
            LexItemV { res: Err(e), pos: pos_of(s.take(sn.start)), endpos: pos_of(s.take(sn.end)) },
        ],
    }
}

#[via_fn]
proof fn lex_seq_dec(s: Seq<char>, i: int) {
    lemma_scan_next_bounds(s, i);
}

/// The index where lexing from `i` stops: the end of input after trailing
/// trivia, or the end of the first error.
pub open spec fn lex_end_idx(s: Seq<char>, i: int) -> int
    decreases s.len() - i,
    when 0 <= i <= s.len()
    via lex_end_idx_dec
{
    let sn = scan_next(s, i);
    match sn.out {
        None => sn.start,
        Some(Ok(t)) => lex_end_idx(s, sn.end),
        Some(Err(e)) => sn.end,
    }
}

#[via_fn]
proof fn lex_end_idx_dec(s: Seq<char>, i: int) {
    lemma_scan_next_bounds(s, i);
}

/// Find the end of a line comment whose `//` stood just before `start`.
fn sc_line_end(v: &Vec<char>, start: usize) -> (r: usize)
    requires
        start <= v@.len(),
    ensures
        r == line_comment_end(v@, start as int),
        start <= r <= v@.len(),
{
    let mut i = start;
    loop
        invariant
            start <= i <= v@.len(),
            line_comment_end(v@, i as int) == line_comment_end(v@, start as int),
        decreases v@.len() - i,
    {
        if i >= v.len() {
            return v.len();
        }
        let c = v[i];
        if c == '\r' || c == '\n' {
            return i + 1;
        }
        i = i + 1;
    }
}

/// Find the end of a block comment whose `/*` stood just before `start`, or
/// report that it never closes.
fn sc_block_end(v: &Vec<char>, start: usize) -> (r: Option<usize>)
    requires
        start <= v@.len(),
    ensures
        match r {
            Some(j) => block_comment_end(v@, start as int, 1) == Some(j as int) && start <= j
                <= v@.len(),
            None => block_comment_end(v@, start as int, 1) is None,
        },
{
    let mut i = start;
    let mut depth: usize = 1;
    loop
        invariant
            start <= i <= v@.len(),
            1 <= depth <= i + 1,
            block_comment_end(v@, i as int, depth as int) == block_comment_end(
                v@,
                start as int,
                1,
            ),
        decreases v@.len() - i,
    {
        if i >= v.len() {
            return None;
        }
        let c = v[i];
        if c == '/' && i + 1 < v.len() && v[i + 1] == '*' {
            depth = depth + 1;
            i = i + 2;
        } else if c == '*' && i + 1 < v.len() && v[i + 1] == '/' {
            if depth == 1 {
                return Some(i + 2);
            }
            depth = depth - 1;
            i = i + 2;
        } else {
            i = i + 1;
        }
    }
}

/// Skip white space and comments from `start`; `Err` carries the index of a
/// block comment that never closes.
fn sc_trivia(v: &Vec<char>, start: usize) -> (r: Result<usize, usize>)
    requires
        start <= v@.len(),
    ensures
        match r {
            Ok(j) => skip_trivia(v@, start as int) == Ok::<int, int>(j as int) && start <= j
                <= v@.len(),
            Err(c) => skip_trivia(v@, start as int) == Err::<int, int>(c as int) && start <= c
                && c + 2 <= v@.len(),
        },
{
    proof {
        lemma_skip_trivia_bounds(v@, start as int);
    }
    let mut i = start;
    loop
        invariant
            start <= i <= v@.len(),
            skip_trivia(v@, i as int) == skip_trivia(v@, start as int),
        decreases v@.len() - i,
    {
        if i >= v.len() {
            return Ok(v.len());
        }
        let c = v[i];
        if is_space(c) {
            i = i + 1;
        } else if c == '/' && i + 1 < v.len() && v[i + 1] == '/' {
            proof {
                lemma_line_comment_end_bounds(v@, i + 2);
            }
            i = sc_line_end(v, i + 2);
        } else if c == '/' && i + 1 < v.len() && v[i + 1] == '*' {
            match sc_block_end(v, i + 2) {
                Some(j) => {
                    i = j;
                },
                None => {
                    proof {
                        lemma_skip_trivia_bounds(v@, i as int);
                    }
                    return Err(i);
                },
            }
        } else {
            return Ok(i);
        }
    }
}

/// Copy the characters of `v` between `from` and `to` into a fresh string.
fn string_range(v: &Vec<char>, from: usize, to: usize) -> (r: String)
    requires
        from <= to <= v@.len(),
    ensures
        r@ == v@.subrange(from as int, to as int),
{
    let mut out = String::new();
    let mut k = from;
    while k < to
        invariant
            from <= k <= to <= v@.len(),
            out@ == v@.subrange(from as int, k as int),
        decreases to - k,
    {
        push_char(&mut out, v[k]);
        proof {
            assert(out@ =~= v@.subrange(from as int, k + 1));
        }
        k = k + 1;
    }
    out
}

/// One lexing step from `start`: the token or error produced (`None` at the
/// end of input), the index of its first character, and the index just after
/// its last.
fn sc_next(v: &Vec<char>, start: usize) -> (r: (Option<Result<LexToken, LexError>>, usize, usize))
    requires
        start <= v@.len(),
    ensures
        ({
            let sn = scan_next(v@, start as int);
            &&& r.1 == sn.start
            &&& r.2 == sn.end
            &&& start <= r.1 <= r.2 <= v@.len()
            &&& match (r.0, sn.out) {
                (None, None) => true,
                (Some(Ok(t)), Some(Ok(tv))) => t@ == tv,
                (Some(Err(e)), Some(Err(ev))) => e == ev,
                _ => false,
            }
        }),
{
    proof {
        lemma_scan_next_bounds(v@, start as int);
    }
    match sc_trivia(v, start) {
        Err(c) => (Some(Err(LexError::UnclosedCommentError)), c, v.len()),
        Ok(j) => {
            if j >= v.len() {
                return (None, j, j);
            }
            let c = v[j];
            if c == 'r' && j + 1 < v.len() && is_raw_delim(v[j + 1]) {
                let d = v[j + 1];
                proof {
                    lemma_run_end_bounds(v@, j + 2, d);
                }
                let re = sc_run_end(v, j + 2, d);
                let qlen = re - (j + 1);
                let close = if d == '(' {
                    ')'
                } else {
                    d
                };
                let (res, end) = sc_raw(v, j + 1 + qlen, close, qlen);
                match res {
                    Ok(t) => (Some(Ok(LexToken::StringLit(t))), j, end),
                    Err(e) => (Some(Err(e)), j, end),
                }
            } else if c == '{' {
                (Some(Ok(LexToken::OpenBrace)), j, j + 1)
            } else if c == '}' {
                (Some(Ok(LexToken::CloseBrace)), j, j + 1)
            } else if c == '[' {
                (Some(Ok(LexToken::OpenBracket)), j, j + 1)
            } else if c == ']' {
                (Some(Ok(LexToken::CloseBracket)), j, j + 1)
            } else if c == ',' {
                (Some(Ok(LexToken::Comma)), j, j + 1)
            } else if c == '!' {
                (Some(Ok(LexToken::Bang)), j, j + 1)
            } else if c == ':' {
                (Some(Ok(LexToken::Colon)), j, j + 1)
            } else if c == '`' {
                let (res, end) = sc_esc_ident(v, j + 1);
                match res {
                    Ok(t) => (Some(Ok(LexToken::Identifier(t))), j, end),
                    Err(e) => (Some(Err(e)), j, end),
                }
            } else if ident_head(c) {
                let k = sc_ident_end(v, j);
                let text = string_range(v, j, k);
                (Some(Ok(LexToken::Identifier(text))), j, k)
            } else if digit_val(c, 10).is_some() || c == '+' || c == '-' || c == '.' {
                let (res, end) = sc_number(v, j);
                match res {
                    Ok(t) => (Some(Ok(t)), j, end),
                    Err(e) => (Some(Err(e)), j, end),
                }
            } else if c == '"' || c == '\'' {
                let (res, end) = sc_string(v, j + 1, c);
                match res {
                    Ok(t) => (Some(Ok(LexToken::StringLit(t))), j, end),
                    Err(e) => (Some(Err(e)), j, end),
                }
            } else {
                (Some(Err(LexError::UnrecognisedCharError(c))), j, j + 1)
            }
        },
    }
}

/// Advance a position cursor over the characters of `v` from `from` to `to`.
fn advance_mp(p: &mut MutablePosition, v: &Vec<char>, from: usize, to: usize)
    requires
        from <= to <= v@.len(),
        old(p).line == pos_line(v@.take(from as int)),
        old(p).pos == pos_col(v@.take(from as int)),
        old(p).lens() == lens_of(v@.take(from as int)),
    ensures
        final(p).line == pos_line(v@.take(to as int)),
        final(p).pos == pos_col(v@.take(to as int)),
        final(p).lens() == lens_of(v@.take(to as int)),
{
    let mut k = from;
    while k < to
        invariant
            from <= k <= to <= v@.len(),
            p.line == pos_line(v@.take(k as int)),
            p.pos == pos_col(v@.take(k as int)),
            p.lens() == lens_of(v@.take(k as int)),
        decreases to - k,
    {
        proof {
            lemma_pos_bounds(v@.take(k as int));
            assert(v@.take(k + 1).drop_last() == v@.take(k as int));
            assert(v@.take(k + 1).last() == v@[k as int]);
        }
        if v[k] == '\n' {
            p.new_line();
        } else {
            p.push(1);
        }
        k = k + 1;
    }
}

// ---------------------------------------------------------------------------
// The lexer.
// ---------------------------------------------------------------------------
/// The lexer: a cursor over the characters of the input, the position just
/// after the last consumed token, and the starting position of that token.
/// After yielding an error it is exhausted and yields nothing further.
pub struct Lexer {
    /// The position of the first character of the last token.
    pub token_start: MutablePosition,
    /// The position just after the last consumed character.
    pub position: MutablePosition,
    pub chars: Vec<char>,
    pub idx: usize,
    pub errored: bool,
}

impl Lexer {
    /// The characters being lexed.
    pub closed spec fn src(&self) -> Seq<char> {
        self.chars@
    }

    /// The index of the first unconsumed character.
    pub closed spec fn cursor(&self) -> int {
        self.idx as int
    }

    /// Whether an error has been yielded; the lexer is then exhausted.
    pub closed spec fn has_errored(&self) -> bool {
        self.errored
    }

    /// The cursor stays within the input and the position cursor mirrors the
    /// consumed prefix.
    pub closed spec fn wf(&self) -> bool {
        &&& self.idx <= self.chars@.len()
        &&& self.position.line == pos_line(self.chars@.take(self.idx as int))
        &&& self.position.pos == pos_col(self.chars@.take(self.idx as int))
        &&& self.position.lens() == lens_of(self.chars@.take(self.idx as int))
    }

    /// The tokens still to come: one item per token, ending at the end of
    /// input or with the first error; empty once an error was yielded.
    pub open spec fn items(&self) -> Seq<LexItemV> {
        if self.has_errored() {
            Seq::<LexItemV>::empty()
        } else {
            lex_seq(self.src(), self.cursor())
        }
    }

    /// The position reported at the end of input, after trailing trivia.
    pub open spec fn eof_pos(&self) -> crate::position::Position {
        pos_of(self.src().take(lex_end_idx(self.src(), self.cursor())))
    }

    /// Make a lexer over the characters of `input`.
    pub fn lex(input: &str) -> (r: Self)
        ensures
            r.wf(),
            r.src() == input@,
            r.cursor() == 0,
            !r.has_errored(),
            r.token_start.line == 0 && r.token_start.pos == 0,
            r.position.line == 0 && r.position.pos == 0,
    {
        let v = chars_of(input);
        proof {
            assert(v@.take(0) =~= Seq::<char>::empty());
        }
        Lexer {
            token_start: MutablePosition::new(),
            position: MutablePosition::new(),
            chars: v,
            idx: 0,
            errored: false,
        }
    }

    /// Read the next token.  `None` means the input is exhausted, or an error
    /// was already yielded.  On a token or error, `token_start` holds the
    /// position of its first character and `position` the position just after
    /// the last character consumed.
    pub fn next(&mut self) -> (r: Option<Result<LexToken, LexError>>)
        requires
            old(self).wf(),
        ensures
            final(self).wf(),
            final(self).src() == old(self).src(),
            old(self).has_errored() ==> r is None && *final(self) == *old(self),
            !old(self).has_errored() ==> ({
                let its = old(self).items();
                if its.len() > 0 {
                    &&& (match (r, its[0].res) {
                        (Some(Ok(t)), Ok(tv)) => t@ == tv,
                        (Some(Err(e)), Err(ev)) => e == ev,
                        _ => false,
                    })
                    &&& final(self).items() == its.drop_first()
                    &&& final(self).has_errored() == (its[0].res is Err)
                    &&& final(self).token_start.line == its[0].pos.line && final(self).token_start.pos == its[0].pos.pos
                    &&& final(self).position.line == its[0].endpos.line && final(self).position.pos == its[0].endpos.pos
                    &&& (its[0].res is Ok ==> final(self).eof_pos() == old(self).eof_pos())
                } else {
                    &&& r is None
                    &&& final(self).items() == its
                    &&& !final(self).has_errored()
                    &&& final(self).token_start.line == old(self).eof_pos().line && final(self).token_start.pos == old(self).eof_pos().pos
                    &&& final(self).position.line == old(self).eof_pos().line && final(self).position.pos == old(self).eof_pos().pos
                    &&& final(self).eof_pos() == old(self).eof_pos()
                }
            }),
    {
        if self.errored {
            return None;
        }
        let ghost s = self.chars@;
        let ghost i0 = self.idx as int;
        proof {
            lemma_scan_next_bounds(s, i0);
            lemma_pos_bounds(s.take(scan_next(s, i0).start));
            lemma_pos_bounds(s.take(scan_next(s, i0).end));
        }
        let (out, start, end) = sc_next(&self.chars, self.idx);
        advance_mp(&mut self.position, &self.chars, self.idx, start);
        self.token_start = self.position.clone();
        advance_mp(&mut self.position, &self.chars, start, end);
        self.idx = end;
        match out {
            None => None,
            Some(Ok(t)) => Some(Ok(t)),
            Some(Err(e)) => {
                self.errored = true;
                Some(Err(e))
            },
        }
    }

    /// Read one bare identifier starting at the cursor.  `None`, with nothing
    /// consumed, when the next character cannot open an identifier or the
    /// input is exhausted.
    pub fn parse_ident(&mut self) -> (r: Option<Result<LexToken, LexError>>)
        requires
            old(self).wf(),
        ensures
            final(self).wf(),
            final(self).src() == old(self).src(),
            final(self).has_errored() == old(self).has_errored(),
            ({
                let s = old(self).src();
                let i = old(self).cursor();
                if i < s.len() && spec_ident_head(s[i]) {
                    &&& (match r {
                        Some(Ok(t)) => t@ == TokenV::Identifier(s.subrange(i, ident_end(s, i))),
                        _ => false,
                    })
                    &&& final(self).cursor() == ident_end(s, i)
                } else {
                    r is None && final(self).cursor() == i
                }
            }),
    {
        if self.idx < self.chars.len() && ident_head(self.chars[self.idx]) {
            proof {
                lemma_ident_end_bounds(self.chars@, self.idx as int);
            }
            let k = sc_ident_end(&self.chars, self.idx);
            let text = string_range(&self.chars, self.idx, k);
            advance_mp(&mut self.position, &self.chars, self.idx, k);
            self.idx = k;
            Some(Ok(LexToken::Identifier(text)))
        } else {
            None
        }
    }

    /// Read one numeric literal starting at the cursor.  `None` when the
    /// input is exhausted.
    pub fn parse_numeric(&mut self) -> (r: Option<Result<LexToken, LexError>>)
        requires
            old(self).wf(),
        ensures
            final(self).wf(),
            final(self).src() == old(self).src(),
            final(self).has_errored() == old(self).has_errored(),
            ({
                let s = old(self).src();
                let i = old(self).cursor();
                if i < s.len() {
                    let n = scan_number(s, i);
                    &&& (match (r, n.out) {
                        (Some(Ok(t)), Ok(tv)) => t@ == tv,
                        (Some(Err(e)), Err(ev)) => e == ev,
                        _ => false,
                    })
                    &&& final(self).cursor() == n.end
                } else {
                    r is None && final(self).cursor() == i
                }
            }),
    {
        if self.idx >= self.chars.len() {
            return None;
        }
        let (res, end) = sc_number(&self.chars, self.idx);
        advance_mp(&mut self.position, &self.chars, self.idx, end);
        self.idx = end;
        match res {
            Ok(t) => Some(Ok(t)),
            Err(e) => Some(Err(e)),
        }
    }

    /// Read one quoted string whose opening quote stands at the cursor.
    /// `None` when the input is exhausted.
    pub fn parse_string(&mut self) -> (r: Option<Result<LexToken, LexError>>)
        requires
            old(self).wf(),
            old(self).cursor() >= old(self).src().len() || old(self).src()[old(self).cursor()]
                == '\'' || old(self).src()[old(self).cursor()] == '"',
        ensures
            final(self).wf(),
            final(self).src() == old(self).src(),
            ({
                let s = old(self).src();
                let i = old(self).cursor();
                if i < s.len() {
                    let sp = str_scan(s, i + 1, s[i], false, false, 0, 0, Seq::<char>::empty());
                    &&& (match (r, sp.out) {
                        (Some(Ok(t)), Ok(tv)) => t@ == TokenV::StringLit(tv),
                        (Some(Err(e)), Err(ev)) => e == ev,
                        _ => false,
                    })
                    &&& final(self).cursor() == sp.end
                    &&& final(self).has_errored() == (old(self).has_errored() || sp.out is Err)
                } else {
                    r is None && final(self).cursor() == i && final(self).has_errored() == old(
                        self,
                    ).has_errored()
                }
            }),
    {
        if self.idx >= self.chars.len() {
            return None;
        }
        let q = self.chars[self.idx];
        proof {
            lemma_str_scan_bounds(
                self.chars@,
                self.idx + 1,
                q,
                false,
                false,
                0,
                0,
                Seq::<char>::empty(),
            );
        }
        let (res, end) = sc_string(&self.chars, self.idx + 1, q);
        advance_mp(&mut self.position, &self.chars, self.idx, end);
        self.idx = end;
        match res {
            Ok(t) => Some(Ok(LexToken::StringLit(t))),
            Err(e) => {
                self.errored = true;
                Some(Err(e))
            },
        }
    }

    /// Read one backtick-escaped identifier whose opening backtick stands at
    /// the cursor.  `None` when the input is exhausted.
    pub fn parse_ident_escaped(&mut self) -> (r: Option<Result<LexToken, LexError>>)
        requires
            old(self).wf(),
            old(self).cursor() >= old(self).src().len() || old(self).src()[old(self).cursor()]
                == '`',
        ensures
            final(self).wf(),
            final(self).src() == old(self).src(),
            ({
                let s = old(self).src();
                let i = old(self).cursor();
                if i < s.len() {
                    let sp = esc_ident_scan(s, i + 1, false, false, 0, 0, Seq::<char>::empty());
                    &&& (match (r, sp.out) {
                        (Some(Ok(t)), Ok(tv)) => t@ == TokenV::Identifier(tv),
                        (Some(Err(e)), Err(ev)) => e == ev,
                        _ => false,
                    })
                    &&& final(self).cursor() == sp.end
                    &&& final(self).has_errored() == (old(self).has_errored() || sp.out is Err)
                } else {
                    r is None && final(self).cursor() == i && final(self).has_errored() == old(
                        self,
                    ).has_errored()
                }
            }),
    {
        if self.idx >= self.chars.len() {
            return None;
        }
        proof {
            lemma_esc_ident_scan_bounds(
                self.chars@,
                self.idx + 1,
                false,
                false,
                0,
                0,
                Seq::<char>::empty(),
            );
        }
        let (res, end) = sc_esc_ident(&self.chars, self.idx + 1);
        advance_mp(&mut self.position, &self.chars, self.idx, end);
        self.idx = end;
        match res {
            Ok(t) => Some(Ok(LexToken::Identifier(t))),
            Err(e) => {
                self.errored = true;
                Some(Err(e))
            },
        }
    }

    /// Read one raw string whose `r` stands at the cursor.  `None`, with the
    /// `r` consumed, when the input ends right after it.
    pub fn parse_raw_string(&mut self) -> (r: Option<Result<LexToken, LexError>>)
        requires
            old(self).wf(),
            old(self).cursor() < old(self).src().len(),
            old(self).src()[old(self).cursor()] == 'r',
            old(self).cursor() + 1 >= old(self).src().len() || spec_is_raw_delim(
                old(self).src()[old(self).cursor() + 1],
            ),
        ensures
            final(self).wf(),
            final(self).src() == old(self).src(),
            ({
                let s = old(self).src();
                let i = old(self).cursor();
                if i + 1 < s.len() {
                    let rt = raw_token(s, i);
                    &&& (match (r, rt.out) {
                        (Some(Ok(t)), Some(Ok(tv))) => t@ == tv,
                        (Some(Err(e)), Some(Err(ev))) => e == ev,
                        _ => false,
                    })
                    &&& final(self).cursor() == rt.end
                    &&& final(self).has_errored() == (old(self).has_errored() || !(rt.out
                        is Some && rt.out->0 is Ok))
                } else {
                    r is None && final(self).cursor() == i + 1 && final(self).has_errored() == old(
                        self,
                    ).has_errored()
                }
            }),
    {
        let n = self.chars.len();
        proof {
            assert(self.idx < self.chars@.len());
            assert(n == self.chars@.len());
        }
        if self.idx + 1 >= n {
            advance_mp(&mut self.position, &self.chars, self.idx, self.idx + 1);
            self.idx = self.idx + 1;
            return None;
        }
        let d = self.chars[self.idx + 1];
        proof {
            lemma_run_end_bounds(self.chars@, self.idx + 2, d);
        }
        let re = sc_run_end(&self.chars, self.idx + 2, d);
        let qlen = re - (self.idx + 1);
        let close = if d == '(' {
            ')'
        } else {
            d
        };
        proof {
            lemma_raw_scan_bounds(
                self.chars@,
                self.idx + 1 + qlen,
                close,
                qlen as int,
                0,
                Seq::<char>::empty(),
            );
        }
        let (res, end) = sc_raw(&self.chars, self.idx + 1 + qlen, close, qlen);
        advance_mp(&mut self.position, &self.chars, self.idx, end);
        self.idx = end;
        match res {
            Ok(t) => Some(Ok(LexToken::StringLit(t))),
            Err(e) => {
                self.errored = true;
                Some(Err(e))
            },
        }
    }

    /// Look at the next token without consuming it or moving the positions.
    pub fn peek(&self) -> (r: Option<Result<LexToken, LexError>>)
        requires
            self.wf(),
        ensures
            ({
                let its = self.items();
                if its.len() > 0 {
                    match (r, its[0].res) {
                        (Some(Ok(t)), Ok(tv)) => t@ == tv,
                        (Some(Err(e)), Err(ev)) => e == ev,
                        _ => false,
                    }
                } else {
                    r is None
                }
            }),
    {
        if self.errored {
            return None;
        }
        proof {
            lemma_scan_next_bounds(self.chars@, self.idx as int);
        }
        let (out, _start, _end) = sc_next(&self.chars, self.idx);
        out
    }
}

} // verus!
