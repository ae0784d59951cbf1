use crate::text::{chars_to_string, str_to_chars, trim, trimmed};
use vstd::prelude::*;
use vstd::slice::slice_to_vec;

verus! {

/// The plain character that stands for `c`: a straight single quote for a
/// curly single quote or a backtick, a straight double quote for a curly one,
/// a space for a no-break, thin or narrow no-break space, and `c` itself
/// otherwise.
pub open spec fn folded(c: char) -> char {
    if c == '\u{2018}' || c == '\u{2019}' || c == '`' {
        '\''
    } else if c == '\u{201C}' || c == '\u{201D}' {
        '"'
    } else if c == '\u{00A0}' || c == '\u{2009}' || c == '\u{202F}' {
        ' '
    } else {
        c
    }
}

/// `s` with every character folded.
pub open spec fn folded_text(s: Seq<char>) -> Seq<char> {
    Seq::new(s.len(), |i: int| folded(s[i]))
}

/// The normal form of an expression: every character folded, and no white
/// space at the ends.
pub open spec fn normalized(s: Seq<char>) -> Seq<char> {
    trimmed(folded_text(s))
}

/// Folds one character.
pub fn fold_char(c: char) -> (r: char)
    ensures
        r == folded(c),
{
    if c == '\u{2018}' || c == '\u{2019}' || c == '`' {
        '\''
    } else if c == '\u{201C}' || c == '\u{201D}' {
        '"'
    } else if c == '\u{00A0}' || c == '\u{2009}' || c == '\u{202F}' {
        ' '
    } else {
        c
    }
}

/// The normal form of the characters `s`.
pub fn normalize_chars(s: &[char]) -> (r: Vec<char>)
    ensures
        r@ == normalized(s@),
{
    let mut plain: Vec<char> = Vec::new();
    let mut i: usize = 0;
    while i < s.len()
        invariant
            i <= s.len(),
            plain@.len() == i,
            forall|k: int| 0 <= k < i ==> plain@[k] == folded(s@[k]),
        decreases s.len() - i,
    {
        plain.push(fold_char(s[i]));
        i += 1;
    }
    assert(plain@ =~= folded_text(s@));
    slice_to_vec(trim(plain.as_slice()))
}

/// Normalizes an expression: curly quotes and backticks become straight
/// quotes, the unusual spaces become plain spaces, and white space at the ends
/// is dropped.
pub fn normalize_expression(expr: &str) -> (r: String)
    ensures
        r@ == normalized(expr@),
{
    let chars = str_to_chars(expr);
    let plain = normalize_chars(chars.as_slice());
    chars_to_string(plain.as_slice())
}

} // verus!
