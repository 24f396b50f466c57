//! Per-codepoint normalization stages: cleaning control
//! characters, isolating CJK ideographs with surrounding spaces,
//! and stripping accents by canonical decomposition.

use vstd::prelude::*;
use crate::unicode::{
    spec_cleaned_char,
    cleaned_char,
    is_cjk_char,
    is_cjk,
    canonical_decomposition,
    decompose_char,
    nonspacing_mark,
    nonspacing_mark_check,
};

verus! {

/// The cleaned form of a string: every codepoint replaced as
/// `spec_cleaned_char` says.
pub open spec fn spec_clean(s: Seq<char>, strip_whitespace: bool) -> Seq<char> {
    s.map_values(|c: char| spec_cleaned_char(c, strip_whitespace))
}

/// The string with every CJK ideograph surrounded by single spaces.
pub open spec fn spec_cjk_pad(s: Seq<char>) -> Seq<char>
    decreases s.len(),
{
    if s.len() == 0 {
        Seq::empty()
    } else {
        spec_cjk_pad(s.drop_last()) + (if is_cjk_char(s.last()) {
            seq![' ', s.last(), ' ']
        } else {
            seq![s.last()]
        })
    }
}

/// The subsequence of `s` without its nonspacing marks.
pub open spec fn without_marks(s: Seq<char>) -> Seq<char>
    decreases s.len(),
{
    if s.len() == 0 {
        Seq::empty()
    } else {
        without_marks(s.drop_last()) + (if nonspacing_mark(s.last()) {
            Seq::empty()
        } else {
            seq![s.last()]
        })
    }
}

/// The accent-stripped form of a string: each codepoint canonically
/// decomposed, nonspacing marks dropped.
pub open spec fn spec_strip_accents(s: Seq<char>) -> Seq<char>
    decreases s.len(),
{
    if s.len() == 0 {
        Seq::empty()
    } else {
        spec_strip_accents(s.drop_last()) + without_marks(canonical_decomposition(s.last()))
    }
}

/// A string none of whose codepoints the cleaner replaces is left
/// unchanged by cleaning.
pub proof fn lemma_clean_fixed(s: Seq<char>, strip_whitespace: bool)
    requires
        forall|i: int|
            0 <= i < s.len() ==> spec_cleaned_char(#[trigger] s[i], strip_whitespace) == s[i],
    ensures
        spec_clean(s, strip_whitespace) == s,
{
    assert(spec_clean(s, strip_whitespace) =~= s);
}

/// A string without CJK ideographs is left unchanged by CJK
/// padding.
pub proof fn lemma_cjk_pad_fixed(s: Seq<char>)
    requires
        forall|i: int| 0 <= i < s.len() ==> !is_cjk_char(#[trigger] s[i]),
    ensures
        spec_cjk_pad(s) == s,
    decreases s.len(),
{
    if s.len() > 0 {
        assert(forall|i: int|
            0 <= i < s.drop_last().len() ==> s.drop_last()[i] == #[trigger] s[i]);
        lemma_cjk_pad_fixed(s.drop_last());
        assert(spec_cjk_pad(s) =~= s.drop_last() + seq![s.last()]);
        assert(s.drop_last() + seq![s.last()] =~= s);
    }
}

/// Replaces the null and replacement characters and every control
/// character by a space; with `strip_whitespace` set, tab, newline
/// and carriage return as well.
pub fn clean_text(text: &Vec<char>, strip_whitespace: bool) -> (r: Vec<char>)
    ensures
        r@ == spec_clean(text@, strip_whitespace),
{
    let mut r: Vec<char> = Vec::new();
    let n = text.len();
    proof {
        assert(r@ =~= spec_clean(text@.take(0), strip_whitespace));
    }
    for i in 0..n
        invariant
            n == text@.len(),
            r@ == spec_clean(text@.take(i as int), strip_whitespace),
    {
        r.push(cleaned_char(text[i], strip_whitespace));
        proof {
            assert(spec_clean(text@.take(i + 1), strip_whitespace) =~= spec_clean(
                text@.take(i as int),
                strip_whitespace,
            ).push(spec_cleaned_char(text@[i as int], strip_whitespace)));
        }
    }
    proof {
        assert(text@.take(n as int) =~= text@);
    }
    r
}

/// Surrounds every CJK ideograph with single spaces, so that the
/// whitespace split later isolates each ideograph.
pub fn tokenize_cjk_chars(text: &Vec<char>) -> (r: Vec<char>)
    ensures
        r@ == spec_cjk_pad(text@),
{
    let mut r: Vec<char> = Vec::new();
    let n = text.len();
    for i in 0..n
        invariant
            n == text@.len(),
            r@ == spec_cjk_pad(text@.take(i as int)),
    {
        let c = text[i];
        if is_cjk(c) {
            r.push(' ');
            r.push(c);
            r.push(' ');
        } else {
            r.push(c);
        }
        proof {
            assert(text@.take(i + 1).drop_last() =~= text@.take(i as int));
            assert(text@.take(i + 1).last() == text@[i as int]);
        }
    }
    proof {
        assert(text@.take(n as int) =~= text@);
    }
    r
}

/// Canonically decomposes every codepoint and drops the nonspacing
/// marks, so that accented letters lose their accents while every
/// retained codepoint is kept in order.
pub fn strip_accents(text: &Vec<char>) -> (r: Vec<char>)
    ensures
        r@ == spec_strip_accents(text@),
{
    let mut r: Vec<char> = Vec::new();
    let n = text.len();
    for i in 0..n
        invariant
            n == text@.len(),
            r@ == spec_strip_accents(text@.take(i as int)),
    {
        let d = decompose_char(text[i]);
        let m = d.len();
        proof {
            assert(d@.take(0) =~= Seq::<char>::empty());
        }
        for j in 0..m
            invariant
                n == text@.len(),
                i < n,
                m == d@.len(),
                d@ == canonical_decomposition(text@[i as int]),
                r@ == spec_strip_accents(text@.take(i as int)) + without_marks(d@.take(j as int)),
        {
            let c = d[j];
            if !nonspacing_mark_check(c) {
                r.push(c);
            }
            proof {
                assert(d@.take(j + 1).drop_last() =~= d@.take(j as int));
                assert(d@.take(j + 1).last() == d@[j as int]);
                if nonspacing_mark(d@[j as int]) {
                    assert(without_marks(d@.take(j + 1)) =~= without_marks(d@.take(j as int)));
                } else {
                    assert(without_marks(d@.take(j + 1)) =~= without_marks(d@.take(j as int)).push(
                        d@[j as int],
                    ));
                }
            }
        }
        proof {
            assert(d@.take(m as int) =~= d@);
            assert(text@.take(i + 1).drop_last() =~= text@.take(i as int));
            assert(text@.take(i + 1).last() == text@[i as int]);
        }
    }
    proof {
        assert(text@.take(n as int) =~= text@);
    }
    r
}

} // verus!
