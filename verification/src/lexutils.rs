//! Regex-backed token recognisers and standalone literal decoders: matching a
//! single token pattern against the start of a text, stripping quotes and
//! escapes out of a quoted string, and reading a multi-base integer literal.

use vstd::prelude::*;
use crate::utils::{spec_digit_val, digit_val, spec_char_from, char_from_u32, push_char, chars_of};

verus! {

use vstd::string::StringExecFns;

/// What `regex::Regex::find` returns for a pattern and a text: the byte range
/// of the leftmost match, or `None` when nothing matches (or the pattern does
/// not compile).  A function of the two strings alone.
pub uninterp spec fn regex_find_of(pattern: Seq<char>, text: Seq<char>) -> Option<(usize, usize)>;

/// Relies on regex::Regex::new and regex::Regex::find: for a fixed pattern
/// and text the leftmost match is a function of the two strings alone; a
/// pattern that does not compile matches nothing.
#[verifier::external_body]
fn regex_find(pattern: &str, text: &str) -> (r: Option<(usize, usize)>)
    ensures
        r == regex_find_of(pattern@, text@),
{
    match regex::Regex::new(pattern) {
        Ok(re) => match re.find(text) {
            Some(m) => Some((m.start(), m.end())),
            None => None,
        },
        Err(_) => None,
    }
}

/// The length of the match when the pattern matches at the very start of the
/// text, and `None` otherwise.
pub open spec fn spec_get_match(pattern: Seq<char>, text: Seq<char>) -> Option<usize> {
    match regex_find_of(pattern, text) {
        Some((s, e)) => if s == 0 {
            Some(e)
        } else {
            None
        },
        None => None,
    }
}

/// One token recogniser: a regex pattern that is matched against the start of
/// a candidate text.
pub struct Token {
    pattern: String,
}

impl Token {
    /// The regex pattern this recogniser matches with.
    pub closed spec fn pattern(&self) -> Seq<char> {
        self.pattern@
    }

    /// Make a recogniser from a regex pattern.
    pub fn new(pattern: &str) -> (r: Self)
        ensures
            r.pattern() == pattern@,
    {
        Token { pattern: String::from_str(pattern) }
    }

    /// The length of the match when this recogniser's pattern matches at the
    /// very start of `text`, and `None` otherwise.
    pub fn get_match(&self, text: &str) -> (r: Option<usize>)
        ensures
            r == spec_get_match(self.pattern(), text@),
    {
        match regex_find(self.pattern.as_str(), text) {
            Some((s, e)) => if s == 0 {
                Some(e)
            } else {
                None
            },
            None => None,
        }
    }
}

/// One recogniser for each kind of token in the language.
pub struct TokenCollection {
    pub open_brace: Token,
    pub close_brace: Token,
    pub open_bracket: Token,
    pub close_bracket: Token,
    pub comma: Token,
    pub colon: Token,
    pub identifier: Token,
    pub stringlit: Token,
    pub integerlit: Token,
    pub floatlit: Token,
}

impl TokenCollection {
    /// Build the recognisers for the language's tokens: the structural
    /// singletons, identifiers, quoted strings, integers in every base, and
    /// floats with an optional exponent.
    pub fn new() -> (r: Self)
        ensures
            r.open_brace.pattern() == r"\{"@,
            r.close_brace.pattern() == r"\}"@,
            r.open_bracket.pattern() == r"\["@,
            r.close_bracket.pattern() == r"\]"@,
            r.comma.pattern() == r","@,
            r.colon.pattern() == r":"@,
    {
        TokenCollection {
            open_brace: Token::new(r"\{"),
            close_brace: Token::new(r"\}"),
            open_bracket: Token::new(r"\["),
            close_bracket: Token::new(r"\]"),
            comma: Token::new(r","),
            colon: Token::new(r":"),
            identifier: Token::new(
                r#"(?x)
                [
                    \p{L} # letters
                    \p{M} # combining marks
                    \p{Pc} # connector punctuation (e.g. _)
                ]
                \w* # all word characters
            "#,
            ),
            stringlit: Token::new(
                r#"(?x)
                  "(?: [^"\n\\] | \\n | \\r | \\t | \\\\ | \\b
                    | \\f | \\/ | \\" | \\' | \\u[0-9a-fA-F]{4} )*"
                | '(?: [^'\n\\] | \\n | \\r | \\t | \\\\ | \\b
                    | \\f | \\/ | \\" | \\' | \\u[0-9a-fA-F]{4} )*'
            "#,
            ),
            integerlit: Token::new(
                r#"(?x)
                  0[xX][0-9a-fA-F_]+
                | 0[oO][0-8_]+
                | 0[bB][10_]+
                | 0[dD][\d_]+
                | [+-]?[\d_]+
            "#,
            ),
            floatlit: Token::new(
                r#"(?x)
                [-+]? # optional sign
                (?:
                      \d+\.\d*  # numbers <dot> <optional numbers>
                    | \.\d+     # <dot> numbers
                )
                (?:
                    [eE]  # begin exponent
                    [+-]? # sign
                    \d+   # exponent
                )? # optional exponent part
            "#,
            ),
        }
    }
}

/// One step of the quoted-string decoder: `esc` after a backslash, `uni`
/// with `uidx` digits and value `uval` inside a `\uXXXX` escape.  Quote
/// characters are dropped, escapes are replaced, everything else is kept.
pub open spec fn strip_spec(
    s: Seq<char>,
    i: int,
    q: char,
    esc: bool,
    uni: bool,
    uidx: int,
    uval: int,
    acc: Seq<char>,
) -> Seq<char>
    decreases s.len() - i,
{
    if i < 0 || i >= s.len() {
        acc
    } else {
        let c = s[i];
        if esc {
            if c == 'n' {
                strip_spec(s, i + 1, q, false, uni, uidx, uval, acc.push('\n'))
            } else if c == 'r' {
                strip_spec(s, i + 1, q, false, uni, uidx, uval, acc.push('\r'))
            } else if c == 't' {
                strip_spec(s, i + 1, q, false, uni, uidx, uval, acc.push('\t'))
            } else if c == 'b' {
                strip_spec(s, i + 1, q, false, uni, uidx, uval, acc.push('\u{8}'))
            } else if c == 'f' {
                strip_spec(s, i + 1, q, false, uni, uidx, uval, acc.push('\u{c}'))
            } else if c == 'u' {
                strip_spec(s, i + 1, q, false, true, 0, 0, acc)
            } else {
                strip_spec(s, i + 1, q, false, uni, uidx, uval, acc.push(c))
            }
        } else if uni {
            match spec_digit_val(c, 16) {
                None => strip_spec(s, i + 1, q, false, uni, uidx, uval, acc),
                Some(h) => {
                    let v2 = uval * 16 + h;
                    if uidx < 3 {
                        strip_spec(s, i + 1, q, false, true, uidx + 1, v2, acc)
                    } else {
                        match spec_char_from(v2 as u32) {
                            Some(ch) => strip_spec(s, i + 1, q, false, false, 0, 0, acc.push(ch)),
                            None => strip_spec(s, i + 1, q, false, false, 0, 0, acc),
                        }
                    }
                },
            }
        } else if c == q {
            strip_spec(s, i + 1, q, false, false, uidx, uval, acc)
        } else if c == '\\' {
            strip_spec(s, i + 1, q, true, false, uidx, uval, acc)
        } else {
            strip_spec(s, i + 1, q, false, false, uidx, uval, acc.push(c))
        }
    }
}

/// What decoding a whole quoted literal yields: every occurrence of the
/// leading quote character is dropped, and escapes are replaced.
pub open spec fn spec_parse_string(s: Seq<char>) -> Seq<char> {
    strip_spec(s, 0, s[0], false, false, 0, 0, Seq::<char>::empty())
}

/// Decode a quoted string literal: drop the quotes, replace the escape
/// sequences (`\n \r \t \b \f \uXXXX`, and a backslash before any other
/// character stands for that character).
pub fn parse_string(inp: String) -> (r: String)
    requires
        inp@.len() > 0,
    ensures
        r@ == spec_parse_string(inp@),
{
    let cs = chars_of(inp.as_str());
    let ghost s = inp@;
    let q: char = cs[0];
    let mut out = String::new();
    let mut esc: bool = false;
    let mut uni: bool = false;
    let mut uidx: u32 = 0;
    let mut uval: u32 = 0;
    let mut i: usize = 0;
    while i < cs.len()
        invariant
            cs@ == s,
            i <= s.len(),
            uni ==> uidx <= 3 && uval < (if uidx == 0 {
                1u32
            } else if uidx == 1 {
                16u32
            } else if uidx == 2 {
                256u32
            } else {
                4096u32
            }),
            strip_spec(s, i as int, q, esc, uni, uidx as int, uval as int, out@) == spec_parse_string(
                s,
            ),
        decreases s.len() - i,
    {
        let c = cs[i];
        if esc {
            esc = false;
            if c == 'n' {
                push_char(&mut out, '\n');
            } else if c == 'r' {
                push_char(&mut out, '\r');
            } else if c == 't' {
                push_char(&mut out, '\t');
            } else if c == 'b' {
                push_char(&mut out, '\u{8}');
            } else if c == 'f' {
                push_char(&mut out, '\u{c}');
            } else if c == 'u' {
                uni = true;
                uidx = 0;
                uval = 0;
            } else {
                push_char(&mut out, c);
            }
        } else if uni {
            match digit_val(c, 16) {
                None => {},
                Some(h) => {
                    let v2 = uval * 16 + h;
                    if uidx < 3 {
                        uidx = uidx + 1;
                        uval = v2;
                    } else {
                        uni = false;
                        uidx = 0;
                        uval = 0;
                        match char_from_u32(v2) {
                            Some(ch) => {
                                push_char(&mut out, ch);
                            },
                            None => {},
                        }
                    }
                },
            }
        } else if c == q {
        } else if c == '\\' {
            esc = true;
        } else {
            push_char(&mut out, c);
        }
        i = i + 1;
    }
    out
}

/// The value of a run of digits read in the given base, most significant
/// digit first.  Digits that are not valid in the base count as zero; the
/// validity predicate rules them out.
pub open spec fn digits_val(s: Seq<char>, base: u32) -> int
    decreases s.len(),
{
    if s.len() == 0 {
        0
    } else {
        digits_val(s.drop_last(), base) * base + (match spec_digit_val(s.last(), base) {
            Some(d) => d as int,
            None => 0,
        })
    }
}

/// Every character of `s` is a digit in the given base.
pub open spec fn all_digits(s: Seq<char>, base: u32) -> bool {
    forall|j: int| 0 <= j < s.len() ==> spec_digit_val(s[j], base) is Some
}

/// The base of an integer literal and where its digits start: a `0x`, `0o`,
/// `0b` or `0d` prefix picks the base, a leading sign is skipped, everything
/// else is read in base ten.
pub open spec fn int_lit_parts(s: Seq<char>) -> (u32, int, bool) {
    if s.len() >= 2 && s[0] == '0' && (s[1] == 'd' || s[1] == 'D') {
        (10u32, 2int, false)
    } else if s.len() >= 2 && s[0] == '0' && (s[1] == 'x' || s[1] == 'X') {
        (16u32, 2int, false)
    } else if s.len() >= 2 && s[0] == '0' && (s[1] == 'o' || s[1] == 'O') {
        (8u32, 2int, false)
    } else if s.len() >= 2 && s[0] == '0' && (s[1] == 'b' || s[1] == 'B') {
        (2u32, 2int, false)
    } else if s.len() >= 1 && s[0] == '+' {
        (10u32, 1int, false)
    } else if s.len() >= 1 && s[0] == '-' {
        (10u32, 1int, true)
    } else {
        (10u32, 0int, false)
    }
}

/// A well-formed integer literal: after the prefix there is at least one
/// digit, all characters are digits of the base, and the value fits in a
/// 64-bit signed integer.
pub open spec fn spec_parse_integer_valid(s: Seq<char>) -> bool {
    let (base, start, neg) = int_lit_parts(s);
    let digits = s.skip(start);
    &&& digits.len() > 0
    &&& all_digits(digits, base)
    &&& (if neg {
        digits_val(digits, base) <= 0x8000_0000_0000_0000
    } else {
        digits_val(digits, base) <= 0x7FFF_FFFF_FFFF_FFFF
    })
}

/// The value of a well-formed integer literal.
pub open spec fn spec_parse_integer(s: Seq<char>) -> int {
    let (base, start, neg) = int_lit_parts(s);
    if neg {
        -digits_val(s.skip(start), base)
    } else {
        digits_val(s.skip(start), base)
    }
}

/// The value of a digit run is never negative.
proof fn lemma_digits_val_nonneg(s: Seq<char>, base: u32)
    requires
        base >= 2,
    ensures
        digits_val(s, base) >= 0,
    decreases s.len(),
{
    if s.len() > 0 {
        lemma_digits_val_nonneg(s.drop_last(), base);
        let x = digits_val(s.drop_last(), base);
        assert(x * base >= 0) by (nonlinear_arith)
            requires
                x >= 0 && base >= 2,
        ;
    }
}

/// The value of a digit run never goes down when digits are appended.
proof fn lemma_digits_val_bounds(s: Seq<char>, base: u32, j: int)
    requires
        base >= 2,
        0 <= j <= s.len(),
    ensures
        0 <= digits_val(s.take(j), base) <= digits_val(s, base),
    decreases s.len() - j,
{
    lemma_digits_val_nonneg(s.take(j), base);
    if j == s.len() {
        assert(s.take(j) == s);
    } else {
        lemma_digits_val_bounds(s, base, j + 1);
        assert(s.take(j + 1).drop_last() == s.take(j));
        let x = digits_val(s.take(j), base);
        assert(x <= x * base) by (nonlinear_arith)
            requires
                x >= 0 && base >= 2,
        ;
        assert(digits_val(s.take(j), base) <= digits_val(s.take(j + 1), base));
    }
}

/// Read an integer literal: an optional `0x`/`0o`/`0b`/`0d` base prefix or
/// sign, then digits of that base, most significant first.
pub fn parse_integer(inp: String) -> (r: i64)
    requires
        spec_parse_integer_valid(inp@),
    ensures
        r as int == spec_parse_integer(inp@),
{
    let cs = chars_of(inp.as_str());
    let ghost s = inp@;
    let mut base: u32 = 10;
    let mut start: usize = 0;
    let mut neg: bool = false;
    if cs.len() >= 2 && cs[0] == '0' && (cs[1] == 'd' || cs[1] == 'D') {
        base = 10;
        start = 2;
    } else if cs.len() >= 2 && cs[0] == '0' && (cs[1] == 'x' || cs[1] == 'X') {
        base = 16;
        start = 2;
    } else if cs.len() >= 2 && cs[0] == '0' && (cs[1] == 'o' || cs[1] == 'O') {
        base = 8;
        start = 2;
    } else if cs.len() >= 2 && cs[0] == '0' && (cs[1] == 'b' || cs[1] == 'B') {
        base = 2;
        start = 2;
    } else if cs.len() >= 1 && cs[0] == '+' {
        start = 1;
    } else if cs.len() >= 1 && cs[0] == '-' {
        start = 1;
        neg = true;
    }
    let ghost digits = s.skip(start as int);
    let mut acc: i64 = 0;
    let mut i: usize = start;
    while i < cs.len()
        invariant
            cs@ == s,
            (base, start as int, neg) == int_lit_parts(s),
            base >= 2,
            start <= i <= s.len(),
            spec_parse_integer_valid(s),
            digits == s.skip(start as int),
            acc as int == -digits_val(digits.take(i - start), base),
        decreases s.len() - i,
    {
        proof {
            lemma_digits_val_bounds(digits, base, i - start);
            lemma_digits_val_bounds(digits, base, i + 1 - start);
            assert(digits.take(i + 1 - start).drop_last() == digits.take(i - start));
            assert(digits.take(i + 1 - start).last() == digits[i - start]);
            assert(digits[i - start] == s[i as int]);
            assert(spec_digit_val(s[i as int], base) is Some);
        }
        let d: u32 = match digit_val(cs[i], base) {
            Some(d) => d,
            None => 0,
        };
        proof {
            let xj = digits_val(digits.take(i - start), base);
            let xj1 = digits_val(digits.take(i + 1 - start), base);
            assert(xj1 == xj * base + d);
            assert((acc as int) * (base as int) == -(xj * base)) by (nonlinear_arith)
                requires
                    acc as int == -xj,
            ;
            assert(xj * base >= 0) by (nonlinear_arith)
                requires
                    xj >= 0 && base >= 2,
            ;
            assert(xj1 <= 0x8000_0000_0000_0000);
        }
        acc = acc * (base as i64) - (d as i64);
        i = i + 1;
    }
    proof {
        assert(digits.take(i - start) == digits);
    }
    if neg {
        acc
    } else {
        -acc
    }
}

} // verus!
