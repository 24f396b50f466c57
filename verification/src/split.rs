//! Splitting stages: cutting the raw input at special-token
//! literals (longest match first), splitting on whitespace, and
//! splitting punctuation off into single-codepoint pieces.

use vstd::prelude::*;
use crate::unicode::{spec_is_punctuation, is_punctuation};
use crate::vocab::Vocab;
use crate::truncation::subvec;

verus! {

/// The views of a list of character-vector pieces.
pub open spec fn pieces_view(v: Seq<Vec<char>>) -> Seq<Seq<char>> {
    v.map_values(|p: Vec<char>| p@)
}

/// Whitespace scanning state after a prefix: the finished segments
/// and the unfinished run of non-space codepoints.
pub open spec fn spec_ws_accum(s: Seq<char>) -> (Seq<Seq<char>>, Seq<char>)
    decreases s.len(),
{
    if s.len() == 0 {
        (Seq::empty(), Seq::empty())
    } else {
        let (segs, cur) = spec_ws_accum(s.drop_last());
        if s.last() == ' ' {
            if cur.len() == 0 {
                (segs, cur)
            } else {
                (segs.push(cur), Seq::empty())
            }
        } else {
            (segs, cur.push(s.last()))
        }
    }
}

/// The maximal runs of non-space codepoints, in order.
pub open spec fn spec_whitespace_split(s: Seq<char>) -> Seq<Seq<char>> {
    let (segs, cur) = spec_ws_accum(s);
    if cur.len() == 0 {
        segs
    } else {
        segs.push(cur)
    }
}

/// Scanning a string without spaces leaves one unfinished run:
/// the whole string.
pub proof fn lemma_ws_accum_no_space(s: Seq<char>)
    requires
        forall|i: int| 0 <= i < s.len() ==> (#[trigger] s[i]) != ' ',
    ensures
        spec_ws_accum(s) == (Seq::<Seq<char>>::empty(), s),
    decreases s.len(),
{
    if s.len() > 0 {
        assert(forall|i: int|
            0 <= i < s.drop_last().len() ==> s.drop_last()[i] == #[trigger] s[i]);
        lemma_ws_accum_no_space(s.drop_last());
        assert(s.drop_last().push(s.last()) =~= s);
    }
}

/// A run that holds no ASCII space.
pub open spec fn space_free(w: Seq<char>) -> bool {
    forall|k: int| 0 <= k < w.len() ==> (#[trigger] w[k]) != ' '
}

/// Scanning leaves only nonempty, space-free segments and a
/// space-free unfinished run.
pub proof fn lemma_ws_accum_segments(s: Seq<char>)
    ensures
        ({
            let (segs, cur) = spec_ws_accum(s);
            &&& forall|i: int|
                0 <= i < segs.len() ==> (#[trigger] segs[i]).len() > 0 && space_free(segs[i])
            &&& space_free(cur)
        }),
    decreases s.len(),
{
    if s.len() > 0 {
        lemma_ws_accum_segments(s.drop_last());
    }
}

/// Every whitespace-split segment is nonempty and space-free.
pub proof fn lemma_ws_split_segments(s: Seq<char>)
    ensures
        forall|i: int|
            0 <= i < spec_whitespace_split(s).len() ==> (#[trigger] spec_whitespace_split(s)[
                i
            ]).len() > 0 && space_free(spec_whitespace_split(s)[i]),
{
    lemma_ws_accum_segments(s);
}

/// A nonempty string without spaces splits into itself alone.
pub proof fn lemma_ws_split_no_space(s: Seq<char>)
    requires
        s.len() > 0,
        forall|i: int| 0 <= i < s.len() ==> (#[trigger] s[i]) != ' ',
    ensures
        spec_whitespace_split(s) == seq![s],
{
    lemma_ws_accum_no_space(s);
    assert(Seq::<Seq<char>>::empty().push(s) =~= seq![s]);
}

/// A trailing space closes the unfinished run: the scan state
/// becomes the full split with nothing pending.
pub proof fn lemma_ws_accum_trailing_space(s: Seq<char>)
    ensures
        spec_ws_accum(s + seq![' ']) == (spec_whitespace_split(s), Seq::<char>::empty()),
{
    assert((s + seq![' ']).drop_last() =~= s);
    assert((s + seq![' ']).last() == ' ');
}

/// A space-free tail scanned after a closed state becomes the
/// unfinished run, leaving the finished segments alone.
pub proof fn lemma_ws_accum_space_free_tail(s: Seq<char>, tail: Seq<char>)
    requires
        spec_ws_accum(s).1 == Seq::<char>::empty(),
        space_free(tail),
    ensures
        spec_ws_accum(s + tail) == (spec_ws_accum(s).0, tail),
    decreases tail.len(),
{
    if tail.len() == 0 {
        assert(s + tail =~= s);
        assert(tail =~= Seq::<char>::empty());
    } else {
        assert forall|i: int| 0 <= i < tail.drop_last().len() implies (#[trigger] tail.drop_last()[
            i
        ]) != ' ' by {
            assert(tail.drop_last()[i] == tail[i]);
        }
        lemma_ws_accum_space_free_tail(s, tail.drop_last());
        assert((s + tail).drop_last() =~= s + tail.drop_last());
        assert((s + tail).last() == tail.last());
        assert(tail.last() != ' ');
        assert(tail.drop_last().push(tail.last()) =~= tail);
    }
}

/// Scanning further text never removes finished segments: the
/// earlier segments stay a prefix of the later ones.
pub proof fn lemma_ws_accum_prefix(a: Seq<char>, b: Seq<char>)
    ensures
        ({
            let p = spec_ws_accum(a).0;
            let q = spec_ws_accum(a + b).0;
            p.len() <= q.len() && q.take(p.len() as int) == p
        }),
    decreases b.len(),
{
    let p = spec_ws_accum(a).0;
    if b.len() == 0 {
        assert(a + b =~= a);
        assert(p.take(p.len() as int) =~= p);
    } else {
        lemma_ws_accum_prefix(a, b.drop_last());
        assert((a + b).drop_last() =~= a + b.drop_last());
        let (segs, cur) = spec_ws_accum(a + b.drop_last());
        let q = spec_ws_accum(a + b).0;
        if q == segs.push(cur) {
            assert(segs.push(cur).take(p.len() as int) =~= segs.take(p.len() as int));
        }
    }
}

/// Punctuation scanning state after a prefix: finished segments and
/// the unfinished run; every punctuation codepoint stands alone.
pub open spec fn spec_punct_accum(s: Seq<char>) -> (Seq<Seq<char>>, Seq<char>)
    decreases s.len(),
{
    if s.len() == 0 {
        (Seq::empty(), Seq::empty())
    } else {
        let (segs, cur) = spec_punct_accum(s.drop_last());
        if spec_is_punctuation(s.last()) {
            let closed = if cur.len() == 0 {
                segs
            } else {
                segs.push(cur)
            };
            (closed.push(seq![s.last()]), Seq::empty())
        } else {
            (segs, cur.push(s.last()))
        }
    }
}

/// The segments of `s` cut at punctuation, each punctuation
/// codepoint its own segment.
pub open spec fn spec_punct_split(s: Seq<char>) -> Seq<Seq<char>> {
    let (segs, cur) = spec_punct_accum(s);
    if cur.len() == 0 {
        segs
    } else {
        segs.push(cur)
    }
}

/// What the punctuation stage makes of one piece: a special-token
/// literal is kept whole, anything else is split at punctuation.
pub open spec fn spec_split_on_punct(vocab: Vocab, s: Seq<char>) -> Seq<Seq<char>> {
    if vocab.spec_is_special(s) {
        seq![s]
    } else {
        spec_punct_split(s)
    }
}

/// The length of the longest special literal that is a prefix of
/// `s`; 0 when none matches.
pub open spec fn best_special_len(specials: Seq<(Seq<char>, i64)>, s: Seq<char>) -> nat
    decreases specials.len(),
{
    if specials.len() == 0 {
        0
    } else {
        let rest = best_special_len(specials.drop_first(), s);
        let lit = specials[0].0;
        if lit.len() <= s.len() && s.take(lit.len() as int) == lit && lit.len() > rest {
            lit.len()
        } else {
            rest
        }
    }
}

/// No prefix match is longer than the string.
pub proof fn lemma_best_special_len_le(specials: Seq<(Seq<char>, i64)>, s: Seq<char>)
    ensures
        best_special_len(specials, s) <= s.len(),
    decreases specials.len(),
{
    if specials.len() > 0 {
        lemma_best_special_len_le(specials.drop_first(), s);
    }
}

/// A positive best match is witnessed by a special literal of that
/// length standing at the front of `s`.
pub proof fn lemma_best_special_len_witness(specials: Seq<(Seq<char>, i64)>, s: Seq<char>)
    requires
        best_special_len(specials, s) > 0,
    ensures
        exists|j: int|
            0 <= j < specials.len() && (#[trigger] specials[j]).0 == s.take(
                best_special_len(specials, s) as int,
            ),
    decreases specials.len(),
{
    let best = best_special_len(specials, s);
    let rest = best_special_len(specials.drop_first(), s);
    let lit = specials[0].0;
    if lit.len() <= s.len() && s.take(lit.len() as int) == lit && lit.len() > rest {
        assert(specials[0].0 == s.take(best as int));
    } else {
        lemma_best_special_len_witness(specials.drop_first(), s);
        let j = choose|j: int|
            0 <= j < specials.drop_first().len() && (#[trigger] specials.drop_first()[j]).0
                == s.take(best_special_len(specials.drop_first(), s) as int);
        assert(specials[j + 1] == specials.drop_first()[j]);
    }
}

/// A literal that is a prefix of `s` bounds the best match from
/// below.
pub proof fn lemma_best_special_len_at_least(
    specials: Seq<(Seq<char>, i64)>,
    s: Seq<char>,
    j: int,
)
    requires
        0 <= j < specials.len(),
        specials[j].0.len() <= s.len(),
        s.take(specials[j].0.len() as int) == specials[j].0,
    ensures
        best_special_len(specials, s) >= specials[j].0.len(),
    decreases specials.len(),
{
    if j > 0 {
        assert(specials.drop_first()[j - 1] == specials[j]);
        lemma_best_special_len_at_least(specials.drop_first(), s, j - 1);
    }
}

/// A string that is exactly a nonempty special literal is cut into
/// that literal alone.
pub proof fn lemma_split_special_whole(specials: Seq<(Seq<char>, i64)>, s: Seq<char>, j: int)
    requires
        0 <= j < specials.len(),
        specials[j].0 == s,
        s.len() > 0,
    ensures
        spec_split_special(specials, s) == seq![(s, true)],
{
    assert(s.take(s.len() as int) =~= s);
    lemma_best_special_len_at_least(specials, s, j);
    lemma_best_special_len_le(specials, s);
    let l = best_special_len(specials, s);
    assert(l == s.len());
    assert(s.skip(l as int) =~= Seq::<char>::empty());
    assert(spec_split_special(specials, s.skip(l as int)) =~= Seq::<(Seq<char>, bool)>::empty());
    assert(seq![(s.take(l as int), true)] + Seq::<(Seq<char>, bool)>::empty() =~= seq![
        (s, true),
    ]);
}

/// A non-special segment `seg` placed before already-split
/// segments: it fuses with a leading non-special segment, else it
/// stands on its own.
pub open spec fn merge_front(seg: Seq<char>, rest: Seq<(Seq<char>, bool)>) -> Seq<
    (Seq<char>, bool),
> {
    if rest.len() > 0 && !rest[0].1 {
        seq![(seg + rest[0].0, false)] + rest.drop_first()
    } else {
        seq![(seg, false)] + rest
    }
}

/// The input cut at special-token literals, longest match first:
/// a sequence of (segment, is-special) pairs whose segments
/// concatenate back to the input, special literals standing alone.
pub open spec fn spec_split_special(specials: Seq<(Seq<char>, i64)>, s: Seq<char>) -> Seq<
    (Seq<char>, bool),
>
    decreases s.len(),
    via spec_split_special_decreases
{
    if s.len() == 0 {
        Seq::empty()
    } else {
        let l = best_special_len(specials, s);
        if l > 0 {
            seq![(s.take(l as int), true)] + spec_split_special(specials, s.skip(l as int))
        } else {
            merge_front(seq![s[0]], spec_split_special(specials, s.skip(1)))
        }
    }
}

#[via_fn]
proof fn spec_split_special_decreases(specials: Seq<(Seq<char>, i64)>, s: Seq<char>) {
    lemma_best_special_len_le(specials, s);
}

/// The segments of a tagged split, without the tags.
pub open spec fn tagged_view(t: Seq<(Seq<char>, bool)>) -> Seq<Seq<char>> {
    t.map_values(|p: (Seq<char>, bool)| p.0)
}

/// The segments of the special-token cut, without the tags.
pub open spec fn spec_split_on_special(vocab: Vocab, s: Seq<char>) -> Seq<Seq<char>> {
    tagged_view(spec_split_special(vocab.specials(), s))
}

/// Pushing a piece and its tagged counterpart keeps the untagged
/// views aligned.
proof fn lemma_view_push(
    out_old: Seq<Vec<char>>,
    v: Vec<char>,
    t_old: Seq<(Seq<char>, bool)>,
    p: (Seq<char>, bool),
)
    requires
        pieces_view(out_old) == tagged_view(t_old),
        v@ == p.0,
    ensures
        pieces_view(out_old.push(v)) == tagged_view(t_old.push(p)),
{
    let a = pieces_view(out_old.push(v));
    let b = tagged_view(t_old.push(p));
    assert(pieces_view(out_old).len() == out_old.len());
    assert(tagged_view(t_old).len() == t_old.len());
    assert(out_old.len() == t_old.len());
    assert forall|j: int| 0 <= j < a.len() implies a[j] == b[j] by {
        if j < out_old.len() {
            assert(pieces_view(out_old)[j] == out_old[j]@);
            assert(tagged_view(t_old)[j] == t_old[j].0);
            assert(out_old.push(v)[j] == out_old[j]);
            assert(t_old.push(p)[j] == t_old[j]);
        } else {
            assert(out_old.push(v)[j] == v);
            assert(t_old.push(p)[j] == p);
        }
    }
    assert(a =~= b);
}

/// Special-token occurrence: when no special literal matches
/// before position `k` and some literal matches at `k`, the
/// special cut isolates the longest such occurrence as its own
/// special segment, behind one non-special segment holding the
/// text before it.
pub proof fn lemma_split_special_occurrence(
    specials: Seq<(Seq<char>, i64)>,
    t: Seq<char>,
    k: int,
)
    requires
        0 <= k < t.len(),
        forall|p: int| 0 <= p < k ==> best_special_len(specials, #[trigger] t.skip(p)) == 0,
        best_special_len(specials, t.skip(k)) > 0,
    ensures
        ({
            let l = best_special_len(specials, t.skip(k)) as int;
            let rest = spec_split_special(specials, t.skip(k + l));
            spec_split_special(specials, t) == if k == 0 {
                seq![(t.skip(k).take(l), true)] + rest
            } else {
                seq![(t.take(k), false), (t.skip(k).take(l), true)] + rest
            }
        }),
    decreases k,
{
    let l = best_special_len(specials, t.skip(k)) as int;
    lemma_best_special_len_le(specials, t.skip(k));
    if k == 0 {
        assert(t.skip(0) =~= t);
        assert(t.take(l) =~= t.skip(0).take(l));
        assert(t.skip(l) =~= t.skip(0 + l));
    } else {
        assert(t.skip(0) =~= t);
        assert(best_special_len(specials, t) == 0);
        let t1 = t.skip(1);
        assert forall|p: int| 0 <= p < k - 1 implies best_special_len(
            specials,
            #[trigger] t1.skip(p),
        ) == 0 by {
            assert(t1.skip(p) =~= t.skip(p + 1));
        }
        assert(t1.skip(k - 1) =~= t.skip(k));
        lemma_split_special_occurrence(specials, t1, k - 1);
        let rest = spec_split_special(specials, t1.skip((k - 1) + l));
        assert(t1.skip((k - 1) + l) =~= t.skip(k + l));
        assert(spec_split_special(specials, t) == merge_front(
            seq![t[0]],
            spec_split_special(specials, t1),
        ));
        if k == 1 {
            assert(spec_split_special(specials, t1) == seq![(t1.skip(0).take(l), true)] + rest);
            assert((seq![(t1.skip(0).take(l), true)] + rest)[0].1);
            assert(seq![t[0]] =~= t.take(1));
            assert(t1.skip(0).take(l) =~= t.skip(k).take(l));
            assert(merge_front(seq![t[0]], spec_split_special(specials, t1)) =~= seq![
                (t.take(k), false),
                (t.skip(k).take(l), true),
            ] + rest);
        } else {
            let head = (t1.take(k - 1), false);
            let mid = (t1.skip(k - 1).take(l), true);
            assert(spec_split_special(specials, t1) == seq![head, mid] + rest);
            assert((seq![head, mid] + rest)[0] == head);
            assert(seq![t[0]] + t1.take(k - 1) =~= t.take(k));
            assert(t1.skip(k - 1).take(l) =~= t.skip(k).take(l));
            assert((seq![head, mid] + rest).drop_first() =~= seq![mid] + rest);
            assert(merge_front(seq![t[0]], spec_split_special(specials, t1)) =~= seq![
                (t.take(k), false),
                (t.skip(k).take(l), true),
            ] + rest);
        }
    }
}

/// Splits on maximal runs of ASCII spaces, dropping the spaces.
pub fn whitespace_tokenize(text: &Vec<char>) -> (r: Vec<Vec<char>>)
    ensures
        pieces_view(r@) == spec_whitespace_split(text@),
{
    let mut segs: Vec<Vec<char>> = Vec::new();
    let mut cur: Vec<char> = Vec::new();
    let n = text.len();
    proof {
        assert(text@.take(0) =~= Seq::<char>::empty());
        assert(pieces_view(segs@) =~= Seq::<Seq<char>>::empty());
    }
    for i in 0..n
        invariant
            n == text@.len(),
            pieces_view(segs@) == spec_ws_accum(text@.take(i as int)).0,
            cur@ == spec_ws_accum(text@.take(i as int)).1,
    {
        let c = text[i];
        proof {
            assert(text@.take(i + 1).drop_last() =~= text@.take(i as int));
            assert(text@.take(i + 1).last() == text@[i as int]);
        }
        if c == ' ' {
            if cur.len() > 0 {
                let ghost old_segs = segs@;
                let ghost old_cur = cur@;
                segs.push(cur);
                cur = Vec::new();
                proof {
                    assert(pieces_view(segs@) =~= pieces_view(old_segs).push(old_cur));
                }
            }
        } else {
            cur.push(c);
        }
    }
    proof {
        assert(text@.take(n as int) =~= text@);
    }
    if cur.len() > 0 {
        let ghost old_segs = segs@;
        let ghost old_cur = cur@;
        segs.push(cur);
        proof {
            assert(pieces_view(segs@) =~= pieces_view(old_segs).push(old_cur));
        }
    }
    segs
}

/// Splits one piece at punctuation codepoints, keeping each as its
/// own single-codepoint piece; a special-token literal is exempt.
pub fn split_on_punct(piece: Vec<char>, vocab: &Vocab) -> (r: Vec<Vec<char>>)
    ensures
        pieces_view(r@) == spec_split_on_punct(*vocab, piece@),
{
    if vocab.is_special(piece.as_slice()) {
        let mut r: Vec<Vec<char>> = Vec::new();
        let ghost p = piece@;
        r.push(piece);
        proof {
            assert(pieces_view(r@) =~= seq![p]);
        }
        return r;
    }
    let mut segs: Vec<Vec<char>> = Vec::new();
    let mut cur: Vec<char> = Vec::new();
    let n = piece.len();
    proof {
        assert(piece@.take(0) =~= Seq::<char>::empty());
        assert(pieces_view(segs@) =~= Seq::<Seq<char>>::empty());
    }
    for i in 0..n
        invariant
            n == piece@.len(),
            pieces_view(segs@) == spec_punct_accum(piece@.take(i as int)).0,
            cur@ == spec_punct_accum(piece@.take(i as int)).1,
    {
        let c = piece[i];
        proof {
            assert(piece@.take(i + 1).drop_last() =~= piece@.take(i as int));
            assert(piece@.take(i + 1).last() == piece@[i as int]);
        }
        if is_punctuation(c) {
            let ghost old_cur = cur@;
            if cur.len() > 0 {
                let ghost old_segs = segs@;
                segs.push(cur);
                cur = Vec::new();
                proof {
                    assert(pieces_view(segs@) =~= pieces_view(old_segs).push(old_cur));
                }
            }
            let mut single: Vec<char> = Vec::new();
            single.push(c);
            let ghost old_segs = segs@;
            segs.push(single);
            proof {
                assert(pieces_view(segs@) =~= pieces_view(old_segs).push(seq![piece@[i as int]]));
            }
        } else {
            cur.push(c);
        }
    }
    proof {
        assert(piece@.take(n as int) =~= piece@);
    }
    if cur.len() > 0 {
        let ghost old_segs = segs@;
        let ghost old_cur = cur@;
        segs.push(cur);
        proof {
            assert(pieces_view(segs@) =~= pieces_view(old_segs).push(old_cur));
        }
    }
    segs
}

/// Whether the literal `lit` occurs in `text` starting at `i`.
fn matches_at(text: &Vec<char>, i: usize, lit: &Vec<char>) -> (r: bool)
    requires
        i <= text@.len(),
    ensures
        r == (lit@.len() <= text@.len() - i && text@.skip(i as int).take(lit@.len() as int)
            == lit@),
{
    if lit.len() > text.len() - i {
        return false;
    }
    let m = lit.len();
    for j in 0..m
        invariant
            i + m <= text@.len(),
            text@.len() <= usize::MAX,
            m == lit@.len(),
            forall|k: int| 0 <= k < j ==> text@[i + k] == lit@[k],
    {
        if text[i + j] != lit[j] {
            assert(text@.skip(i as int).take(m as int)[j as int] != lit@[j as int]);
            return false;
        }
    }
    proof {
        assert(text@.skip(i as int).take(m as int) =~= lit@);
    }
    true
}

/// The length of the longest special literal of `vocab` occurring
/// in `text` at position `i`; 0 when none does.
fn best_special_match_at(text: &Vec<char>, i: usize, vocab: &Vocab) -> (l: usize)
    requires
        i <= text@.len(),
    ensures
        l as nat == best_special_len(vocab.specials(), text@.skip(i as int)),
        l <= text@.len() - i,
{
    let ghost s = text@.skip(i as int);
    let mut best: usize = 0;
    let m = vocab.special_values.len();
    proof {
        assert(vocab.specials().skip(0) =~= vocab.specials());
    }
    for j in 0..m
        invariant
            i <= text@.len(),
            s == text@.skip(i as int),
            m == vocab.special_values@.len(),
            best <= text@.len() - i,
            best_special_len(vocab.specials(), s) == ({
                let rest = best_special_len(vocab.specials().skip(j as int), s);
                if rest > best {
                    rest
                } else {
                    best as nat
                }
            }),
    {
        proof {
            assert(vocab.specials().skip(j as int)[0] == vocab.specials()[j as int]);
            assert(vocab.specials().skip(j as int).drop_first() =~= vocab.specials().skip(j + 1));
            assert(vocab.specials()[j as int].0 == vocab.special_values@[j as int].0@);
        }
        if matches_at(text, i, &vocab.special_values[j].0) {
            proof {
                assert(s.len() == text@.len() - i);
            }
            if vocab.special_values[j].0.len() > best {
                best = vocab.special_values[j].0.len();
            }
        }
    }
    proof {
        assert(vocab.specials().skip(m as int) =~= Seq::<(Seq<char>, i64)>::empty());
    }
    best
}

/// `merge_front` of one more codepoint commutes with fusing a
/// pending run: extending the run and then merging equals merging
/// the codepoint first and fusing the run after.
proof fn lemma_merge_front_fuse(cur: Seq<char>, c: char, rest: Seq<(Seq<char>, bool)>)
    requires
        cur.len() > 0,
    ensures
        merge_front(cur, merge_front(seq![c], rest)) == merge_front(cur.push(c), rest),
{
    if rest.len() > 0 && !rest[0].1 {
        assert(merge_front(seq![c], rest) == seq![(seq![c] + rest[0].0, false)]
            + rest.drop_first());
        assert(cur + (seq![c] + rest[0].0) =~= cur.push(c) + rest[0].0);
        assert(merge_front(cur, merge_front(seq![c], rest)) =~= merge_front(cur.push(c), rest));
    } else {
        assert(cur + seq![c] =~= cur.push(c));
        assert(merge_front(cur, merge_front(seq![c], rest)) =~= merge_front(cur.push(c), rest));
    }
}

/// The pending non-special run `cur` placed before `rest`; an
/// empty run disappears.
pub open spec fn pending_front(cur: Seq<char>, rest: Seq<(Seq<char>, bool)>) -> Seq<
    (Seq<char>, bool),
> {
    if cur.len() == 0 {
        rest
    } else {
        merge_front(cur, rest)
    }
}

/// Cuts the raw input at every occurrence of a special-token
/// literal, longest match first, keeping each literal as its own
/// segment and the text between as non-special segments.
pub fn split_on_special_tokens(text: &Vec<char>, vocab: &Vocab) -> (r: Vec<Vec<char>>)
    ensures
        pieces_view(r@) == spec_split_on_special(*vocab, text@),
{
    let ghost full = spec_split_special(vocab.specials(), text@);
    let mut out: Vec<Vec<char>> = Vec::new();
    let ghost mut tout: Seq<(Seq<char>, bool)> = Seq::empty();
    let mut cur: Vec<char> = Vec::new();
    let mut i: usize = 0;
    let n = text.len();
    proof {
        assert(text@.skip(0) =~= text@);
        assert(pieces_view(out@) =~= Seq::<Seq<char>>::empty());
        assert(full =~= tout + pending_front(cur@, spec_split_special(vocab.specials(), text@)));
    }
    while i < n
        invariant
            i <= n,
            n == text@.len(),
            full == spec_split_special(vocab.specials(), text@),
            full == tout + pending_front(
                cur@,
                spec_split_special(vocab.specials(), text@.skip(i as int)),
            ),
            pieces_view(out@) == tagged_view(tout),
        decreases n - i,
    {
        let ghost s = text@.skip(i as int);
        let ghost rest_split = spec_split_special(vocab.specials(), s);
        let l = best_special_match_at(text, i, vocab);
        if l > 0 {
            proof {
                assert(rest_split == seq![(s.take(l as int), true)] + spec_split_special(
                    vocab.specials(),
                    s.skip(l as int),
                ));
            }
            if cur.len() > 0 {
                let ghost old_out = out@;
                let ghost old_tout = tout;
                let ghost old_cur = cur@;
                out.push(cur);
                cur = Vec::new();
                proof {
                    lemma_view_push(old_out, out@.last(), tout, (old_cur, false));
                    tout = tout.push((old_cur, false));
                    assert(out@ =~= old_out.push(out@.last()));
                    assert(pending_front(old_cur, rest_split) =~= seq![(old_cur, false)]
                        + rest_split);
                    assert(old_tout + (seq![(old_cur, false)] + rest_split) =~= tout + rest_split);
                }
            }
            let seg = subvec(text, i, i + l);
            proof {
                assert(seg@ =~= s.take(l as int));
            }
            let ghost old_tout = tout;
            let ghost old_out = out@;
            out.push(seg);
            proof {
                lemma_view_push(old_out, out@.last(), tout, (s.take(l as int), true));
                tout = tout.push((s.take(l as int), true));
                assert(out@ =~= old_out.push(out@.last()));
                assert(old_tout + (seq![(s.take(l as int), true)] + spec_split_special(
                    vocab.specials(),
                    s.skip(l as int),
                )) =~= tout + spec_split_special(vocab.specials(), s.skip(l as int)));
                assert(text@.skip(i + l) =~= s.skip(l as int));
            }
            i = i + l;
        } else {
            let c = text[i];
            proof {
                assert(s[0] == text@[i as int]);
                assert(s.skip(1) =~= text@.skip(i + 1));
                assert(rest_split == merge_front(
                    seq![s[0]],
                    spec_split_special(vocab.specials(), s.skip(1)),
                ));
                if cur@.len() > 0 {
                    lemma_merge_front_fuse(
                        cur@,
                        s[0],
                        spec_split_special(vocab.specials(), s.skip(1)),
                    );
                } else {
                    assert(seq![s[0]] =~= cur@.push(s[0]));
                }
            }
            cur.push(c);
            i = i + 1;
        }
    }
    proof {
        assert(text@.skip(n as int) =~= Seq::<char>::empty());
        assert(spec_split_special(vocab.specials(), text@.skip(n as int)) =~= Seq::<
            (Seq<char>, bool),
        >::empty());
    }
    if cur.len() > 0 {
        let ghost old_out = out@;
        let ghost old_cur = cur@;
        out.push(cur);
        proof {
            assert(pending_front(old_cur, Seq::empty()) =~= seq![(old_cur, false)]);
            lemma_view_push(old_out, out@.last(), tout, (old_cur, false));
            tout = tout.push((old_cur, false));
            assert(out@ =~= old_out.push(out@.last()));
            assert(full =~= tout);
        }
    } else {
        proof {
            assert(full =~= tout);
        }
    }
    proof {
        assert(pieces_view(out@) =~= spec_split_on_special(*vocab, text@));
    }
    out
}

} // verus!
