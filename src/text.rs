//! Text helpers shared by the store and the capture step.

use vstd::prelude::*;

verus! {

/// The name of the reserved directory that receives captured clipboard text.
pub const CAPTURE_DIRECTORY: &'static str = "Clipboard";

/// The reserved directory's name as a sequence of characters.
pub open spec fn capture_name() -> Seq<char> {
    seq!['C', 'l', 'i', 'p', 'b', 'o', 'a', 'r', 'd']
}

/// Characters with the Unicode `White_Space` property.
pub open spec fn is_white_space(c: char) -> bool {
    ('\u{9}' <= c && c <= '\u{d}') || c == ' ' || c == '\u{85}' || c == '\u{a0}'
        || c == '\u{1680}' || ('\u{2000}' <= c && c <= '\u{200a}') || c == '\u{2028}'
        || c == '\u{2029}' || c == '\u{202f}' || c == '\u{205f}' || c == '\u{3000}'
}

/// `s` without its leading white space.
pub open spec fn trim_start(s: Seq<char>) -> Seq<char>
    decreases s.len(),
{
    if s.len() > 0 && is_white_space(s[0]) {
        trim_start(s.drop_first())
    } else {
        s
    }
}

/// `s` without its trailing white space.
pub open spec fn trim_end(s: Seq<char>) -> Seq<char>
    decreases s.len(),
{
    if s.len() > 0 && is_white_space(s.last()) {
        trim_end(s.drop_last())
    } else {
        s
    }
}

/// `s` without leading and trailing white space.
pub open spec fn trimmed(s: Seq<char>) -> Seq<char> {
    trim_end(trim_start(s))
}

/// The reserved directory's name has no surrounding white space.
pub proof fn lemma_capture_name_trimmed()
    ensures
        trimmed(capture_name()) == capture_name(),
{
    let c = capture_name();
    assert(!is_white_space(c[0]));
    assert(trim_start(c) == c);
    assert(!is_white_space(c.last()));
    assert(trim_end(c) == c);
}

/// Relies on `str::trim`: the string without leading and trailing characters
/// that have the `White_Space` property.
#[verifier::external_body]
pub(crate) fn trim(s: &str) -> (r: String)
    ensures
        r@ == trimmed(s@),
{
    s.trim().to_string()
}

/// Whether `s` is the reserved directory's name.
pub fn is_capture_directory(s: &String) -> (r: bool)
    ensures
        r == (s@ == capture_name()),
{
    let reserved = capture_directory();
    *s == reserved
}

/// A fresh copy of the reserved directory's name.
pub fn capture_directory() -> (r: String)
    ensures
        r@ == capture_name(),
{
    proof {
        reveal_strlit("Clipboard");
    }
    let r = String::from_str(CAPTURE_DIRECTORY);
    assert(r@ =~= capture_name());
    r
}

/// Whether a string holds nothing but white space (or nothing at all).
pub fn is_blank(s: &String) -> (r: bool)
    ensures
        r == (trimmed(s@).len() == 0),
{
    let t = trim(s.as_str());
    t.as_str().unicode_len() == 0
}

} // verus!
