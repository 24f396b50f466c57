//! Pair truncation: dropping pieces until a combined length fits,
//! collecting the dropped pieces, and copying a stride of retained
//! pieces in front of them for sliding-window re-encoding.

use vstd::prelude::*;

verus! {

/// How to shorten one or two id sequences that are over length.
#[derive(Clone, Copy, Debug, PartialEq, Eq, Structural)]
pub enum TruncationStrategy {
    /// Drop from whichever sequence is currently longer, one piece
    /// at a time; ties drop from the first.
    LongestFirst,
    /// Drop only from the first sequence.
    OnlyFirst,
    /// Drop only from the second sequence.
    OnlySecond,
    /// Never drop; fail instead.
    DoNotTruncate,
}

/// A tokenization failure surfaced to the caller.
#[derive(Clone, Copy, Debug, PartialEq, Eq, Structural)]
pub enum TokenizationError {
    /// The input exceeds the maximum length and the strategy does
    /// not permit (enough) truncation.
    Overflow,
}

/// The length of an optional sequence, an absent one counting as 0.
pub open spec fn opt_len(s: Option<Seq<i64>>) -> nat {
    match s {
        Some(v) => v.len(),
        None => 0,
    }
}

/// The lengths kept after `n` longest-first removals: each step
/// shortens the currently longer side, a tie shortening the first.
pub open spec fn spec_longest_first_lens(len1: nat, len2: nat, n: nat) -> (nat, nat)
    decreases n,
{
    if n == 0 {
        (len1, len2)
    } else if len1 == 0 && len2 == 0 {
        (len1, len2)
    } else if len1 >= len2 {
        spec_longest_first_lens((len1 - 1) as nat, len2, (n - 1) as nat)
    } else {
        spec_longest_first_lens(len1, (len2 - 1) as nat, (n - 1) as nat)
    }
}

/// The last `stride` elements of `retained` (all of them when it is
/// shorter than that).
pub open spec fn spec_stride_prefix(retained: Seq<i64>, stride: nat) -> Seq<i64> {
    if stride >= retained.len() {
        retained
    } else {
        retained.skip(retained.len() - stride)
    }
}

/// What truncation returns: the two shortened sequences and the
/// overflow list, which carries the stride of last retained pieces
/// of the shortened (first, for `LongestFirst`) sequence followed by
/// every dropped piece, each sequence's dropped suffix in its
/// original order, the first sequence's before the second's.
pub open spec fn spec_truncate(
    s1: Seq<i64>,
    s2: Option<Seq<i64>>,
    n: nat,
    strategy: TruncationStrategy,
    stride: nat,
) -> Result<(Seq<i64>, Option<Seq<i64>>, Seq<i64>), TokenizationError> {
    if n == 0 {
        Ok((s1, s2, Seq::empty()))
    } else {
        match strategy {
            TruncationStrategy::DoNotTruncate => Err(TokenizationError::Overflow),
            TruncationStrategy::LongestFirst => {
                if n <= s1.len() + opt_len(s2) {
                    let (k1, k2) = spec_longest_first_lens(s1.len(), opt_len(s2), n);
                    let r1 = s1.take(k1 as int);
                    let dropped = s1.skip(k1 as int) + (match s2 {
                        Some(s) => s.skip(k2 as int),
                        None => Seq::empty(),
                    });
                    let r2 = match s2 {
                        Some(s) => Some(s.take(k2 as int)),
                        None => None,
                    };
                    Ok((r1, r2, spec_stride_prefix(r1, stride) + dropped))
                } else {
                    Err(TokenizationError::Overflow)
                }
            },
            TruncationStrategy::OnlyFirst => {
                if n <= s1.len() {
                    let k1 = (s1.len() - n) as int;
                    Ok(
                        (
                            s1.take(k1),
                            s2,
                            spec_stride_prefix(s1.take(k1), stride) + s1.skip(k1),
                        ),
                    )
                } else {
                    Err(TokenizationError::Overflow)
                }
            },
            TruncationStrategy::OnlySecond => {
                match s2 {
                    Some(s) => if n <= s.len() {
                        let k2 = (s.len() - n) as int;
                        Ok(
                            (
                                s1,
                                Some(s.take(k2)),
                                spec_stride_prefix(s.take(k2), stride) + s.skip(k2),
                            ),
                        )
                    } else {
                        Err(TokenizationError::Overflow)
                    },
                    None => Err(TokenizationError::Overflow),
                }
            },
        }
    }
}

/// The view of an optional id vector.
pub open spec fn opt_view(o: Option<Vec<i64>>) -> Option<Seq<i64>> {
    match o {
        Some(v) => Some(v@),
        None => None,
    }
}

/// The view of a truncation result.
pub open spec fn truncate_result_view(
    r: Result<(Vec<i64>, Option<Vec<i64>>, Vec<i64>), TokenizationError>,
) -> Result<(Seq<i64>, Option<Seq<i64>>, Seq<i64>), TokenizationError> {
    match r {
        Ok(t) => Ok((t.0@, opt_view(t.1), t.2@)),
        Err(e) => Err(e),
    }
}

/// After `n` longest-first removals from sides of lengths `len1`
/// and `len2`, with `n` not exceeding their sum, the kept lengths
/// shrink by exactly `n` in total and neither side grows.
pub proof fn lemma_longest_first_lens(len1: nat, len2: nat, n: nat)
    requires
        n <= len1 + len2,
    ensures
        ({
            let (k1, k2) = spec_longest_first_lens(len1, len2, n);
            k1 <= len1 && k2 <= len2 && k1 + k2 + n == len1 + len2
        }),
    decreases n,
{
    if n > 0 {
        if len1 >= len2 {
            lemma_longest_first_lens((len1 - 1) as nat, len2, (n - 1) as nat);
        } else {
            lemma_longest_first_lens(len1, (len2 - 1) as nat, (n - 1) as nat);
        }
    }
}

/// The copy of `v[from..to]`.
pub(crate) fn subvec<T: Copy>(v: &Vec<T>, from: usize, to: usize) -> (r: Vec<T>)
    requires
        from <= to <= v@.len(),
    ensures
        r@ == v@.subrange(from as int, to as int),
{
    let mut r: Vec<T> = Vec::new();
    for i in from..to
        invariant
            from <= i <= to <= v@.len(),
            r@ == v@.subrange(from as int, i as int),
    {
        r.push(v[i]);
        proof {
            assert(v@.subrange(from as int, i + 1) =~= v@.subrange(from as int, i as int).push(
                v@[i as int],
            ));
        }
    }
    r
}

/// The concatenation of the last `min(stride, a.len())` elements of
/// `a` and all of `b`.
fn stride_overflow(a: &Vec<i64>, stride: usize, b: Vec<i64>) -> (r: Vec<i64>)
    ensures
        r@ == spec_stride_prefix(a@, stride as nat) + b@,
{
    let window = if stride >= a.len() {
        0
    } else {
        a.len() - stride
    };
    let mut r = subvec(a, window, a.len());
    proof {
        assert(r@ =~= spec_stride_prefix(a@, stride as nat));
    }
    let mut rest = b;
    r.append(&mut rest);
    r
}

/// Shortens one or two id sequences by `num_tokens_to_remove`
/// pieces under the given strategy, handing back the dropped pieces
/// behind a stride of retained ones; fails with `Overflow` when the
/// strategy cannot drop that many.
pub fn truncate_sequences(
    tokens_1: Vec<i64>,
    tokens_2: Option<Vec<i64>>,
    num_tokens_to_remove: usize,
    truncation_strategy: &TruncationStrategy,
    stride: usize,
) -> (r: Result<(Vec<i64>, Option<Vec<i64>>, Vec<i64>), TokenizationError>)
    ensures
        truncate_result_view(r) == spec_truncate(
            tokens_1@,
            opt_view(tokens_2),
            num_tokens_to_remove as nat,
            *truncation_strategy,
            stride as nat,
        ),
{
    if num_tokens_to_remove == 0 {
        return Ok((tokens_1, tokens_2, Vec::new()));
    }
    match truncation_strategy {
        TruncationStrategy::DoNotTruncate => Err(TokenizationError::Overflow),
        TruncationStrategy::LongestFirst => {
            let len1 = tokens_1.len();
            let len2 = match &tokens_2 {
                Some(v) => v.len(),
                None => 0,
            };
            if num_tokens_to_remove > len1 && num_tokens_to_remove - len1 > len2 {
                return Err(TokenizationError::Overflow);
            }
            let mut a = len1;
            let mut b = len2;
            let mut m = num_tokens_to_remove;
            while m > 0
                invariant
                    m <= a + b,
                    a <= len1,
                    b <= len2,
                    spec_longest_first_lens(a as nat, b as nat, m as nat)
                        == spec_longest_first_lens(
                        len1 as nat,
                        len2 as nat,
                        num_tokens_to_remove as nat,
                    ),
                decreases m,
            {
                if a >= b {
                    a = a - 1;
                } else {
                    b = b - 1;
                }
                m = m - 1;
            }
            let r1 = subvec(&tokens_1, 0, a);
            proof {
                assert(r1@ =~= tokens_1@.take(a as int));
            }
            let dropped1 = subvec(&tokens_1, a, len1);
            let (r2, dropped) = match &tokens_2 {
                Some(v) => {
                    let r2 = subvec(v, 0, b);
                    proof {
                        assert(r2@ =~= v@.take(b as int));
                    }
                    let mut dropped = dropped1;
                    let mut d2 = subvec(v, b, v.len());
                    dropped.append(&mut d2);
                    (Some(r2), dropped)
                },
                None => (None, dropped1),
            };
            let overflow = stride_overflow(&r1, stride, dropped);
            Ok((r1, r2, overflow))
        },
        TruncationStrategy::OnlyFirst => {
            if num_tokens_to_remove > tokens_1.len() {
                return Err(TokenizationError::Overflow);
            }
            let k1 = tokens_1.len() - num_tokens_to_remove;
            let r1 = subvec(&tokens_1, 0, k1);
            proof {
                assert(r1@ =~= tokens_1@.take(k1 as int));
            }
            let dropped = subvec(&tokens_1, k1, tokens_1.len());
            let overflow = stride_overflow(&r1, stride, dropped);
            Ok((r1, tokens_2, overflow))
        },
        TruncationStrategy::OnlySecond => {
            match tokens_2 {
                Some(v) => {
                    if num_tokens_to_remove > v.len() {
                        return Err(TokenizationError::Overflow);
                    }
                    let k2 = v.len() - num_tokens_to_remove;
                    let r2 = subvec(&v, 0, k2);
                    proof {
                        assert(r2@ =~= v@.take(k2 as int));
                    }
                    let dropped = subvec(&v, k2, v.len());
                    let overflow = stride_overflow(&r2, stride, dropped);
                    Ok((tokens_1, Some(r2), overflow))
                },
                None => Err(TokenizationError::Overflow),
            }
        },
    }
}

/// Truncation conserves pieces: the retained lengths plus the count
/// of removed pieces equal the original lengths, and every overflow
/// entry past the stride window is a piece of one of the inputs.
pub proof fn lemma_truncation_conservation(
    s1: Seq<i64>,
    s2: Option<Seq<i64>>,
    n: nat,
    strategy: TruncationStrategy,
    stride: nat,
)
    requires
        spec_truncate(s1, s2, n, strategy, stride) is Ok,
    ensures
        ({
            let (r1, r2, of) = spec_truncate(s1, s2, n, strategy, stride).unwrap();
            &&& r1.len() + opt_len(r2) + n == s1.len() + opt_len(s2)
            &&& of.len() >= n
            &&& forall|i: int|
                of.len() - n <= i < of.len() ==> s1.contains(#[trigger] of[i]) || (s2 is Some
                    && s2.unwrap().contains(of[i]))
        }),
{
    let (r1, r2, of) = spec_truncate(s1, s2, n, strategy, stride).unwrap();
    if n == 0 {
    } else {
        match strategy {
            TruncationStrategy::DoNotTruncate => {},
            TruncationStrategy::LongestFirst => {
                let (k1, k2) = spec_longest_first_lens(s1.len(), opt_len(s2), n);
                lemma_longest_first_lens(s1.len(), opt_len(s2), n);
                let dropped = s1.skip(k1 as int) + (match s2 {
                    Some(s) => s.skip(k2 as int),
                    None => Seq::empty(),
                });
                assert(dropped.len() == n);
                assert forall|i: int| of.len() - n <= i < of.len() implies s1.contains(
                    #[trigger] of[i],
                ) || (s2 is Some && s2.unwrap().contains(of[i])) by {
                    let j = i - (of.len() - n);
                    assert(of[i] == dropped[j]);
                    if j < s1.len() - k1 {
                        assert(dropped[j] == s1[k1 + j]);
                        assert(s1.contains(dropped[j]));
                    } else {
                        let s = s2.unwrap();
                        assert(dropped[j] == s[k2 + (j - (s1.len() - k1))]);
                        assert(s.contains(dropped[j]));
                    }
                }
            },
            TruncationStrategy::OnlyFirst => {
                let k1 = (s1.len() - n) as int;
                assert forall|i: int| of.len() - n <= i < of.len() implies s1.contains(
                    #[trigger] of[i],
                ) || (s2 is Some && s2.unwrap().contains(of[i])) by {
                    let j = i - (of.len() - n);
                    assert(of[i] == s1.skip(k1)[j]);
                    assert(s1.skip(k1)[j] == s1[k1 + j]);
                    assert(s1.contains(s1[k1 + j]));
                }
            },
            TruncationStrategy::OnlySecond => {
                let s = s2.unwrap();
                let k2 = (s.len() - n) as int;
                assert forall|i: int| of.len() - n <= i < of.len() implies s1.contains(
                    #[trigger] of[i],
                ) || (s2 is Some && s2.unwrap().contains(of[i])) by {
                    let j = i - (of.len() - n);
                    assert(of[i] == s.skip(k2)[j]);
                    assert(s.skip(k2)[j] == s[k2 + j]);
                    assert(s.contains(s[k2 + j]));
                }
            },
        }
    }
}

} // verus!
