//! Text of the standard library, as far as the rest of the library reads it.

use vstd::prelude::*;

verus! {

/// Whether a character has the Unicode property White_Space.
pub open spec fn white_space(c: char) -> bool {
    ||| '\u{9}' <= c <= '\u{d}'
    ||| c == '\u{20}'
    ||| c == '\u{85}'
    ||| c == '\u{a0}'
    ||| c == '\u{1680}'
    ||| '\u{2000}' <= c <= '\u{200a}'
    ||| c == '\u{2028}'
    ||| c == '\u{2029}'
    ||| c == '\u{202f}'
    ||| c == '\u{205f}'
    ||| c == '\u{3000}'
}

/// A text without the whitespace at its start.
pub open spec fn without_leading(text: Seq<char>) -> Seq<char>
    decreases text.len(),
{
    if text.len() > 0 && white_space(text[0]) {
        without_leading(text.skip(1))
    } else {
        text
    }
}

/// A text without the whitespace at its end.
pub open spec fn without_trailing(text: Seq<char>) -> Seq<char>
    decreases text.len(),
{
    if text.len() > 0 && white_space(text.last()) {
        without_trailing(text.drop_last())
    } else {
        text
    }
}

/// A text without the whitespace at its two ends.
pub open spec fn trimmed(text: Seq<char>) -> Seq<char> {
    without_trailing(without_leading(text))
}

/// `==` of two string slices: whether they hold the same characters.
#[verifier::external_body]
pub(crate) fn same_text(a: &str, b: &str) -> (same: bool)
    ensures
        same == (a@ == b@),
{
    a == b
}

/// `str::starts_with` a string slice: whether it is a prefix.
#[verifier::external_body]
pub(crate) fn starts_with(text: &str, prefix: &str) -> (found: bool)
    ensures
        found == prefix@.is_prefix_of(text@),
{
    text.starts_with(prefix)
}

/// `str::trim`: the text without leading and trailing whitespace.
#[verifier::external_body]
pub(crate) fn trim(text: &str) -> (rest: &str)
    ensures
        rest@ == trimmed(text@),
{
    text.trim()
}

/// What is left of a text between its whitespace: a text without whitespace at
/// either end is left as it is, and what whitespace is put around it goes again.
pub proof fn law_trimming_takes_whitespace_only(text: Seq<char>, before: char, after: char)
    requires
        text.len() > 0 ==> !white_space(text[0]) && !white_space(text.last()),
    ensures
        trimmed(text) == text,
        white_space(before) ==> trimmed(seq![before] + text) == text,
        white_space(after) ==> trimmed(text.push(after)) == text,
{
    if white_space(before) {
        let padded = seq![before] + text;
        assert(padded.skip(1) =~= text);
        assert(without_leading(padded) == without_leading(text));
    }
    if white_space(after) {
        let padded = text.push(after);
        if text.len() > 0 {
            assert(padded[0] == text[0]);
            assert(padded.drop_last() =~= text);
            assert(padded.last() == after);
        } else {
            assert(padded.skip(1) =~= text);
        }
    }
}

/// The characters of a line that are whitespace: the space, the tab, and the ends
/// of a line; no letter, digit or mark is.
pub proof fn law_visible_ascii_is_no_whitespace(c: char)
    ensures
        ' ' < c < '\u{7f}' ==> !white_space(c),
        white_space(' ') && white_space('\t') && white_space('\n') && white_space('\r'),
{
}

} // verus!
