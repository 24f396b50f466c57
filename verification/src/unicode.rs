//! Character classification and the small set of Unicode operations
//! that the pipeline takes from outside code: lowercasing, canonical
//! decomposition, the nonspacing-mark and punctuation categories.

use vstd::prelude::*;

verus! {

/// A C0 or C1 control codepoint (U+0000..=U+001F, U+007F..=U+009F).
pub open spec fn is_control_char(c: char) -> bool {
    (c as u32) < 0x20 || (0x7f <= (c as u32) && (c as u32) <= 0x9f)
}

/// What the cleaning stage makes of one codepoint: the null and
/// replacement characters and every control character become a
/// space; tab, newline and carriage return become a space only when
/// `strip_whitespace` is set; everything else is kept.
pub open spec fn spec_cleaned_char(c: char, strip_whitespace: bool) -> char {
    if c == '\t' || c == '\n' || c == '\r' {
        if strip_whitespace {
            ' '
        } else {
            c
        }
    } else if c == '\u{0}' || c == '\u{fffd}' || is_control_char(c) {
        ' '
    } else {
        c
    }
}

/// A CJK ideograph: the CJK Unified Ideographs block, its
/// extensions A through F, and the two compatibility blocks.
pub open spec fn is_cjk_char(c: char) -> bool {
    let u = c as u32;
    (0x4e00 <= u && u <= 0x9fff) || (0x3400 <= u && u <= 0x4dbf) || (0x20000 <= u && u
        <= 0x2a6df) || (0x2a700 <= u && u <= 0x2b73f) || (0x2b740 <= u && u <= 0x2b81f) || (0x2b820
        <= u && u <= 0x2ceaf) || (0x2ceb0 <= u && u <= 0x2ebef) || (0xf900 <= u && u <= 0xfaff) || (
    0x2f800 <= u && u <= 0x2fa1f)
}

/// An ASCII codepoint treated as punctuation: the four ASCII ranges
/// `!`..`/`, `:`..`@`, `[`..`` ` `` and `{`..`~`.
pub open spec fn is_ascii_punct(c: char) -> bool {
    let u = c as u32;
    (33 <= u && u <= 47) || (58 <= u && u <= 64) || (91 <= u && u <= 96) || (123 <= u && u <= 126)
}

/// Whether a non-ASCII codepoint belongs to a Unicode punctuation
/// category (P*), as the category tables decide it.
pub uninterp spec fn unicode_punct(c: char) -> bool;

/// A punctuation codepoint: decided by the ASCII ranges below 128
/// and by the Unicode punctuation categories above.
pub open spec fn spec_is_punctuation(c: char) -> bool {
    if (c as u32) < 128 {
        is_ascii_punct(c)
    } else {
        unicode_punct(c)
    }
}

/// Whether a codepoint is a nonspacing mark (category Mn), as the
/// Unicode category tables decide it.
pub uninterp spec fn nonspacing_mark(c: char) -> bool;

/// The canonical decomposition of one codepoint, in the order the
/// decomposition tables give it.
pub uninterp spec fn canonical_decomposition(c: char) -> Seq<char>;

/// The simple (non-locale-dependent) lowercase form of a string.
pub uninterp spec fn lower_of(s: Seq<char>) -> Seq<char>;

/// Relies on unicode_categories::UnicodeCategories::is_punctuation:
/// membership of the codepoint in the P* categories, a function of
/// the codepoint alone.
#[verifier::external_body]
pub(crate) fn unicode_punct_check(c: char) -> (r: bool)
    ensures
        r == unicode_punct(c),
{
    unicode_categories::UnicodeCategories::is_punctuation(c)
}

/// Relies on unicode_categories::UnicodeCategories::is_mark_nonspacing:
/// membership of the codepoint in category Mn, a function of the
/// codepoint alone.
#[verifier::external_body]
pub(crate) fn nonspacing_mark_check(c: char) -> (r: bool)
    ensures
        r == nonspacing_mark(c),
{
    unicode_categories::UnicodeCategories::is_mark_nonspacing(c)
}

/// Relies on unicode_normalization::char::decompose_canonical: it
/// hands out the full canonical decomposition of the codepoint, one
/// codepoint at a time, a function of the codepoint alone.
#[verifier::external_body]
pub(crate) fn decompose_char(c: char) -> (r: Vec<char>)
    ensures
        r@ == canonical_decomposition(c),
{
    let mut out: Vec<char> = Vec::new();
    unicode_normalization::char::decompose_canonical(c, |d| out.push(d));
    out
}

/// Relies on str::to_lowercase (std): the Unicode lowercase mapping
/// of the string, a function of its codepoints alone; an empty
/// string stays empty.
#[verifier::external_body]
pub(crate) fn lowercase(s: &String) -> (r: String)
    ensures
        r@ == lower_of(s@),
        s@.len() == 0 ==> r@.len() == 0,
{
    s.as_str().to_lowercase()
}

/// Relies on str::chars (std): it yields the string's codepoints in
/// order, so collecting them gives the string's view.
#[verifier::external_body]
pub(crate) fn chars_of(s: &str) -> (r: Vec<char>)
    ensures
        r@ == s@,
{
    s.chars().collect()
}

/// Relies on String's FromIterator over char (std): the collected
/// string holds exactly the iterated codepoints in order.
#[verifier::external_body]
pub(crate) fn string_from_chars(v: &[char]) -> (r: String)
    ensures
        r@ == v@,
{
    v.iter().collect()
}

/// The cleaned form of one codepoint.
pub(crate) fn cleaned_char(c: char, strip_whitespace: bool) -> (r: char)
    ensures
        r == spec_cleaned_char(c, strip_whitespace),
{
    let u = c as u32;
    if c == '\t' || c == '\n' || c == '\r' {
        if strip_whitespace {
            ' '
        } else {
            c
        }
    } else if u == 0 || u == 0xfffd || u < 0x20 || (0x7f <= u && u <= 0x9f) {
        ' '
    } else {
        c
    }
}

/// Whether a codepoint is a CJK ideograph.
pub fn is_cjk(c: char) -> (r: bool)
    ensures
        r == is_cjk_char(c),
{
    let u = c as u32;
    (0x4e00 <= u && u <= 0x9fff) || (0x3400 <= u && u <= 0x4dbf) || (0x20000 <= u && u
        <= 0x2a6df) || (0x2a700 <= u && u <= 0x2b73f) || (0x2b740 <= u && u <= 0x2b81f) || (0x2b820
        <= u && u <= 0x2ceaf) || (0x2ceb0 <= u && u <= 0x2ebef) || (0xf900 <= u && u <= 0xfaff) || (
    0x2f800 <= u && u <= 0x2fa1f)
}

/// Whether a codepoint is punctuation for the splitting stage.
pub fn is_punctuation(c: char) -> (r: bool)
    ensures
        r == spec_is_punctuation(c),
{
    let u = c as u32;
    if u < 128 {
        (33 <= u && u <= 47) || (58 <= u && u <= 64) || (91 <= u && u <= 96) || (123 <= u && u
            <= 126)
    } else {
        unicode_punct_check(c)
    }
}

/// A copy of a character vector.
pub(crate) fn copy_chars(v: &Vec<char>) -> (r: Vec<char>)
    ensures
        r@ == v@,
{
    let mut r: Vec<char> = Vec::new();
    let n = v.len();
    for i in 0..n
        invariant
            n == v@.len(),
            r@ == v@.take(i as int),
    {
        r.push(v[i]);
        proof {
            assert(v@.take(i + 1) =~= v@.take(i as int).push(v@[i as int]));
        }
    }
    proof {
        assert(v@.take(n as int) =~= v@);
    }
    r
}

/// Elementwise equality of two character slices.
pub fn chars_eq(a: &[char], b: &[char]) -> (r: bool)
    ensures
        r == (a@ == b@),
{
    if a.len() != b.len() {
        assert(a@.len() != b@.len());
        return false;
    }
    let n = a.len();
    for i in 0..n
        invariant
            n == a@.len(),
            n == b@.len(),
            forall|j: int| 0 <= j < i ==> a@[j] == b@[j],
    {
        if a[i] != b[i] {
            return false;
        }
    }
    assert(a@ =~= b@);
    true
}

} // verus!
