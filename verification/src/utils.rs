//! Character classification for the lexer, and a pushback-free character
//! source that hands out the characters of an input string one at a time.

use vstd::prelude::*;

verus! {

use vstd::std_specs::iter::IteratorSpec;
use vstd::string::StringExecFns;

/// Characters that may open an identifier: letters, the underscore, and a
/// generous set of further Unicode ranges.
pub open spec fn spec_ident_head(c: char) -> bool {
    let u = c as u32;
    ||| (u >= 'a' as u32 && u <= 'z' as u32)
    ||| (u >= 'A' as u32 && u <= 'Z' as u32)
    ||| u == '_' as u32
    ||| u == 0x00A8 || u == 0x00AA || u == 0x00AD || u == 0x00AF
    ||| (u >= 0x00B2 && u <= 0x00B5) || (u >= 0x00B7 && u <= 0x00BA)
    ||| (u >= 0x00BC && u <= 0x00BE) || (u >= 0x00C0 && u <= 0x00D6)
    ||| (u >= 0x00D8 && u <= 0x00F6) || (u >= 0x00F8 && u <= 0x00FF)
    ||| (u >= 0x0100 && u <= 0x02FF) || (u >= 0x0370 && u <= 0x167F)
    ||| (u >= 0x1681 && u <= 0x180D) || (u >= 0x180F && u <= 0x1DBF)
    ||| (u >= 0x1E00 && u <= 0x1FFF) || (u >= 0x200B && u <= 0x200D)
    ||| (u >= 0x202A && u <= 0x202E) || (u >= 0x203F && u <= 0x2040)
    ||| u == 0x2054 || (u >= 0x2060 && u <= 0x206F)
    ||| (u >= 0x2070 && u <= 0x20CF) || (u >= 0x2100 && u <= 0x218F)
    ||| (u >= 0x2460 && u <= 0x24FF) || (u >= 0x2776 && u <= 0x2793)
    ||| (u >= 0x2C00 && u <= 0x2DFF) || (u >= 0x2E80 && u <= 0x2FFF)
    ||| (u >= 0x3004 && u <= 0x3007) || (u >= 0x3021 && u <= 0x302F)
    ||| (u >= 0x3031 && u <= 0x303F) || (u >= 0x3040 && u <= 0xD7FF)
    ||| (u >= 0xF900 && u <= 0xFD3D) || (u >= 0xFD40 && u <= 0xFDCF)
    ||| (u >= 0xFDF0 && u <= 0xFE1F) || (u >= 0xFE30 && u <= 0xFE45)
    ||| (u >= 0xFE47 && u <= 0xFFFD)
    ||| (u >= 0x10000 && u <= 0x1FFFD) || (u >= 0x20000 && u <= 0x2FFFD)
    ||| (u >= 0x30000 && u <= 0x3FFFD) || (u >= 0x40000 && u <= 0x4FFFD)
    ||| (u >= 0x50000 && u <= 0x5FFFD) || (u >= 0x60000 && u <= 0x6FFFD)
    ||| (u >= 0x70000 && u <= 0x7FFFD) || (u >= 0x80000 && u <= 0x8FFFD)
    ||| (u >= 0x90000 && u <= 0x9FFFD) || (u >= 0xA0000 && u <= 0xAFFFD)
    ||| (u >= 0xB0000 && u <= 0xBFFFD) || (u >= 0xC0000 && u <= 0xCFFFD)
    ||| (u >= 0xD0000 && u <= 0xDFFFD) || (u >= 0xE0000 && u <= 0xEFFFD)
}

/// Characters that may continue an identifier: everything an identifier may
/// open with, plus digits and combining-mark ranges.
pub open spec fn spec_ident_body(c: char) -> bool {
    let u = c as u32;
    ||| spec_ident_head(c)
    ||| (u >= '0' as u32 && u <= '9' as u32)
    ||| (u >= 0x0300 && u <= 0x036F) || (u >= 0x1DC0 && u <= 0x1DFF)
    ||| (u >= 0x20D0 && u <= 0x20FF) || (u >= 0xFE20 && u <= 0xFE2F)
}

/// The Unicode white-space characters the lexer skips between tokens.
pub open spec fn spec_is_space(c: char) -> bool {
    let u = c as u32;
    ||| (u >= 0x09 && u <= 0x0D)
    ||| u == 0x20 || u == 0x85 || u == 0xA0 || u == 0x1680
    ||| (u >= 0x2000 && u <= 0x200A)
    ||| u == 0x2028 || u == 0x2029 || u == 0x202F || u == 0x205F || u == 0x3000
}

/// Decide whether `c` may open an identifier.
#[verifier::when_used_as_spec(spec_ident_head)]
pub fn ident_head(c: char) -> (r: bool)
    ensures
        r == spec_ident_head(c),
{
    let u = c as u32;
    (u >= 'a' as u32 && u <= 'z' as u32) || (u >= 'A' as u32 && u <= 'Z' as u32) || u
        == '_' as u32 || u == 0x00A8 || u == 0x00AA || u == 0x00AD || u == 0x00AF || (u >= 0x00B2
        && u <= 0x00B5) || (u >= 0x00B7 && u <= 0x00BA) || (u >= 0x00BC && u <= 0x00BE) || (u
        >= 0x00C0 && u <= 0x00D6) || (u >= 0x00D8 && u <= 0x00F6) || (u >= 0x00F8 && u <= 0x00FF)
        || (u >= 0x0100 && u <= 0x02FF) || (u >= 0x0370 && u <= 0x167F) || (u >= 0x1681 && u
        <= 0x180D) || (u >= 0x180F && u <= 0x1DBF) || (u >= 0x1E00 && u <= 0x1FFF) || (u >= 0x200B
        && u <= 0x200D) || (u >= 0x202A && u <= 0x202E) || (u >= 0x203F && u <= 0x2040) || u
        == 0x2054 || (u >= 0x2060 && u <= 0x206F) || (u >= 0x2070 && u <= 0x20CF) || (u >= 0x2100
        && u <= 0x218F) || (u >= 0x2460 && u <= 0x24FF) || (u >= 0x2776 && u <= 0x2793) || (u
        >= 0x2C00 && u <= 0x2DFF) || (u >= 0x2E80 && u <= 0x2FFF) || (u >= 0x3004 && u <= 0x3007)
        || (u >= 0x3021 && u <= 0x302F) || (u >= 0x3031 && u <= 0x303F) || (u >= 0x3040 && u
        <= 0xD7FF) || (u >= 0xF900 && u <= 0xFD3D) || (u >= 0xFD40 && u <= 0xFDCF) || (u >= 0xFDF0
        && u <= 0xFE1F) || (u >= 0xFE30 && u <= 0xFE45) || (u >= 0xFE47 && u <= 0xFFFD) || (u
        >= 0x10000 && u <= 0x1FFFD) || (u >= 0x20000 && u <= 0x2FFFD) || (u >= 0x30000 && u
        <= 0x3FFFD) || (u >= 0x40000 && u <= 0x4FFFD) || (u >= 0x50000 && u <= 0x5FFFD) || (u
        >= 0x60000 && u <= 0x6FFFD) || (u >= 0x70000 && u <= 0x7FFFD) || (u >= 0x80000 && u
        <= 0x8FFFD) || (u >= 0x90000 && u <= 0x9FFFD) || (u >= 0xA0000 && u <= 0xAFFFD) || (u
        >= 0xB0000 && u <= 0xBFFFD) || (u >= 0xC0000 && u <= 0xCFFFD) || (u >= 0xD0000 && u
        <= 0xDFFFD) || (u >= 0xE0000 && u <= 0xEFFFD)
}

/// Decide whether `c` may continue an identifier.
#[verifier::when_used_as_spec(spec_ident_body)]
pub fn ident_body(c: char) -> (r: bool)
    ensures
        r == spec_ident_body(c),
{
    if ident_head(c) {
        true
    } else {
        let u = c as u32;
        (u >= '0' as u32 && u <= '9' as u32) || (u >= 0x0300 && u <= 0x036F) || (u >= 0x1DC0 && u
            <= 0x1DFF) || (u >= 0x20D0 && u <= 0x20FF) || (u >= 0xFE20 && u <= 0xFE2F)
    }
}

/// Decide whether `c` is white space.
#[verifier::when_used_as_spec(spec_is_space)]
pub fn is_space(c: char) -> (r: bool)
    ensures
        r == spec_is_space(c),
{
    let u = c as u32;
    (u >= 0x09 && u <= 0x0D) || u == 0x20 || u == 0x85 || u == 0xA0 || u == 0x1680 || (u >= 0x2000
        && u <= 0x200A) || u == 0x2028 || u == 0x2029 || u == 0x202F || u == 0x205F || u == 0x3000
}

/// The numeric value of `c` as a digit in the given base, if it is one.
/// Letters `a` to `z` (either case) stand for ten to thirty-five.
pub open spec fn spec_digit_val(c: char, base: u32) -> Option<u32> {
    let u = c as u32;
    let d = if u >= '0' as u32 && u <= '9' as u32 {
        Some((u - '0' as u32) as u32)
    } else if u >= 'a' as u32 && u <= 'z' as u32 {
        Some((u - 'a' as u32 + 10) as u32)
    } else if u >= 'A' as u32 && u <= 'Z' as u32 {
        Some((u - 'A' as u32 + 10) as u32)
    } else {
        None
    };
    if d is Some && d->0 < base {
        d
    } else {
        None
    }
}

/// Compute the digit value of `c` in the given base, if it is a digit there.
#[verifier::when_used_as_spec(spec_digit_val)]
pub fn digit_val(c: char, base: u32) -> (r: Option<u32>)
    ensures
        r == spec_digit_val(c, base),
{
    let u = c as u32;
    let d: Option<u32> = if u >= '0' as u32 && u <= '9' as u32 {
        Some(u - '0' as u32)
    } else if u >= 'a' as u32 && u <= 'z' as u32 {
        Some(u - 'a' as u32 + 10)
    } else if u >= 'A' as u32 && u <= 'Z' as u32 {
        Some(u - 'A' as u32 + 10)
    } else {
        None
    };
    match d {
        Some(v) if v < base => Some(v),
        _ => None,
    }
}

/// Compare a string against a literal by content.
pub fn string_eq(a: &String, b: &str) -> (r: bool)
    ensures
        r == (a@ == b@),
{
    let bs = String::from_str(b);
    *a == bs
}

/// The character with scalar value `v`, or `None` when `v` is no Unicode
/// scalar value (a surrogate, or above the last code point).
pub open spec fn spec_char_from(v: u32) -> Option<char> {
    if vstd::utf8::is_scalar(v) {
        Some(v as char)
    } else {
        None
    }
}

/// Relies on char::from_u32: `Some` exactly for Unicode scalar values, and
/// then the character with that value.
#[verifier::external_body]
pub(crate) fn char_from_u32(v: u32) -> (r: Option<char>)
    ensures
        r == spec_char_from(v),
{
    char::from_u32(v)
}

/// Relies on String::push: appends exactly the one character.
#[verifier::external_body]
pub(crate) fn push_char(s: &mut String, c: char)
    ensures
        final(s)@ == old(s)@.push(c),
{
    s.push(c);
}

/// Collect the characters of a string into a vector, in order.
pub fn chars_of(s: &str) -> (r: Vec<char>)
    ensures
        r@ == s@,
{
    broadcast use vstd::string::axiom_spec_iter, vstd::string::next_postcondition;

    let mut it = s.chars();
    let ghost all: Seq<char> = s@;
    let mut v: Vec<char> = Vec::new();
    loop
        invariant
            it.obeys_prophetic_iter_laws(),
            it.decrease() is Some,
            v@ + it.remaining() == all,
        ensures
            v@ == all,
        decreases it.decrease()->0,
    {
        match it.next() {
            Some(c) => {
                v.push(c);
            },
            None => {
                proof {
                    assert(v@ =~= all);
                }
                break ;
            },
        }
    }
    v
}

/// Adapts an input string into a character source that hands the characters
/// out one at a time.
pub struct CharReader {
    chars: Vec<char>,
    index: usize,
}

impl View for CharReader {
    type V = Seq<char>;

    /// The characters not yet handed out.
    closed spec fn view(&self) -> Seq<char> {
        self.chars@.skip(self.index as int)
    }
}

impl CharReader {
    /// The cursor never runs past the end of the input.
    pub closed spec fn wf(&self) -> bool {
        self.index <= self.chars@.len()
    }

    /// Wrap an input string.
    pub fn new(input: &str) -> (r: Self)
        ensures
            r@ == input@,
            r.wf(),
    {
        let v = chars_of(input);
        CharReader { chars: v, index: 0 }
    }

    /// Hand out the next character, if any is left.
    pub fn next(&mut self) -> (r: Option<char>)
        requires
            old(self).wf(),
        ensures
            final(self).wf(),
            old(self)@.len() > 0 ==> r == Some(old(self)@[0]) && final(self)@ == old(
                self,
            )@.drop_first(),
            old(self)@.len() == 0 ==> r is None && final(self)@ == old(self)@,
    {
        if self.index < self.chars.len() {
            let c = self.chars[self.index];
            self.index = self.index + 1;
            proof {
                assert(final(self)@ == old(self)@.drop_first());
            }
            Some(c)
        } else {
            None
        }
    }
}

} // verus!
