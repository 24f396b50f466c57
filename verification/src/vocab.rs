//! The vocabulary: an immutable association of subword pieces with
//! ids, a designated unknown piece, and the set of special-token
//! literals that the pipeline must keep intact.

use vstd::prelude::*;
use crate::unicode::{chars_of, chars_eq, string_from_chars};

verus! {

/// Reason a vocabulary could not be built.
#[derive(Clone, Copy, Debug, PartialEq, Eq, Structural)]
pub enum VocabularyError {
    /// The unknown piece is not bound by the vocabulary.
    MissingUnknownToken,
    /// A special-token literal is the empty string.
    EmptySpecialToken,
    /// A special-token literal is missing from the vocabulary or
    /// bound to a different id there.
    SpecialTokenNotInVocabulary,
}

/// The id bound to `key` by the first matching entry, if any.
pub open spec fn assoc_find(entries: Seq<(Seq<char>, i64)>, key: Seq<char>) -> Option<i64>
    decreases entries.len(),
{
    if entries.len() == 0 {
        None
    } else if entries[0].0 == key {
        Some(entries[0].1)
    } else {
        assoc_find(entries.drop_first(), key)
    }
}

/// The first key bound to `id`, if any.
pub open spec fn assoc_find_key(entries: Seq<(Seq<char>, i64)>, id: i64) -> Option<Seq<char>>
    decreases entries.len(),
{
    if entries.len() == 0 {
        None
    } else if entries[0].1 == id {
        Some(entries[0].0)
    } else {
        assoc_find_key(entries.drop_first(), id)
    }
}

/// The first reason the triple of values, unknown piece and special
/// entries does not form a vocabulary, checked in that order.
pub open spec fn check_specials(
    values: Seq<(Seq<char>, i64)>,
    specials: Seq<(Seq<char>, i64)>,
) -> Option<VocabularyError>
    decreases specials.len(),
{
    if specials.len() == 0 {
        None
    } else if specials[0].0.len() == 0 {
        Some(VocabularyError::EmptySpecialToken)
    } else if assoc_find(values, specials[0].0) != Some(specials[0].1) {
        Some(VocabularyError::SpecialTokenNotInVocabulary)
    } else {
        check_specials(values, specials.drop_first())
    }
}

/// See `check_specials`; the unknown piece is checked first.
pub open spec fn spec_vocab_check(
    values: Seq<(Seq<char>, i64)>,
    unknown: Seq<char>,
    specials: Seq<(Seq<char>, i64)>,
) -> Option<VocabularyError> {
    if assoc_find(values, unknown) is None {
        Some(VocabularyError::MissingUnknownToken)
    } else {
        check_specials(values, specials)
    }
}

/// No two entries share an id.
pub open spec fn distinct_ids(entries: Seq<(Seq<char>, i64)>) -> bool {
    forall|i: int, j: int|
        0 <= i < j < entries.len() ==> (#[trigger] entries[i]).1 != (#[trigger] entries[j]).1
}

/// A found binding is witnessed by an entry holding both the key
/// and the id.
pub proof fn lemma_assoc_find_mem(entries: Seq<(Seq<char>, i64)>, key: Seq<char>)
    requires
        assoc_find(entries, key) is Some,
    ensures
        exists|j: int|
            0 <= j < entries.len() && (#[trigger] entries[j]).0 == key && entries[j].1
                == assoc_find(entries, key).unwrap(),
    decreases entries.len(),
{
    if entries[0].0 == key {
        assert(entries[0].0 == key && entries[0].1 == assoc_find(entries, key).unwrap());
    } else {
        lemma_assoc_find_mem(entries.drop_first(), key);
        let j = choose|j: int|
            0 <= j < entries.drop_first().len() && (#[trigger] entries.drop_first()[j]).0 == key
                && entries.drop_first()[j].1 == assoc_find(entries.drop_first(), key).unwrap();
        assert(entries[j + 1] == entries.drop_first()[j]);
    }
}

/// An entry's key is always found.
pub proof fn lemma_assoc_find_present(entries: Seq<(Seq<char>, i64)>, j: int)
    requires
        0 <= j < entries.len(),
    ensures
        assoc_find(entries, entries[j].0) is Some,
    decreases entries.len(),
{
    if entries[0].0 != entries[j].0 {
        assert(entries.drop_first()[j - 1] == entries[j]);
        lemma_assoc_find_present(entries.drop_first(), j - 1);
    }
}

/// With distinct ids, looking the found id back up returns the
/// same key.
proof fn lemma_assoc_inverse(entries: Seq<(Seq<char>, i64)>, key: Seq<char>)
    requires
        distinct_ids(entries),
        assoc_find(entries, key) is Some,
    ensures
        assoc_find_key(entries, assoc_find(entries, key).unwrap()) == Some(key),
    decreases entries.len(),
{
    let id = assoc_find(entries, key).unwrap();
    if entries[0].0 == key {
    } else {
        let tail = entries.drop_first();
        assert forall|i: int, j: int| 0 <= i < j < tail.len() implies (#[trigger] tail[i]).1 != (
        #[trigger] tail[j]).1 by {
            assert(tail[i] == entries[i + 1]);
            assert(tail[j] == entries[j + 1]);
        }
        lemma_assoc_inverse(tail, key);
        lemma_assoc_find_mem(tail, key);
        let j = choose|j: int|
            0 <= j < tail.len() && (#[trigger] tail[j]).0 == key && tail[j].1 == assoc_find(
                tail,
                key,
            ).unwrap();
        assert(entries[j + 1] == tail[j]);
        assert(entries[0].1 != entries[j + 1].1);
    }
}

/// Id round-trip: in a vocabulary whose ids are distinct, a piece
/// that the vocabulary binds maps to an id that maps back to the
/// same piece.
pub proof fn lemma_id_round_trip(v: Vocab, piece: Seq<char>)
    requires
        distinct_ids(v.entries()),
        assoc_find(v.entries(), piece) is Some,
    ensures
        v.spec_id_to_token(v.spec_token_to_id(piece)) == piece,
{
    lemma_assoc_inverse(v.entries(), piece);
}

/// The view of a list of (piece, id) pairs given as strings.
pub open spec fn entries_view(v: Seq<(String, i64)>) -> Seq<(Seq<char>, i64)> {
    v.map_values(|p: (String, i64)| (p.0@, p.1))
}

/// An immutable piece-to-id vocabulary.
#[derive(Debug)]
pub struct Vocab {
    /// The (piece, id) entries; lookups take the first match.
    pub values: Vec<(Vec<char>, i64)>,
    /// The piece substituted for pieces the vocabulary lacks.
    pub unknown_value: Vec<char>,
    /// The special-token literals with their ids.
    pub special_values: Vec<(Vec<char>, i64)>,
}

impl Vocab {
    /// The entries as a sequence of (piece, id) pairs.
    pub open spec fn entries(&self) -> Seq<(Seq<char>, i64)> {
        self.values@.map_values(|p: (Vec<char>, i64)| (p.0@, p.1))
    }

    /// The special entries as a sequence of (piece, id) pairs.
    pub open spec fn specials(&self) -> Seq<(Seq<char>, i64)> {
        self.special_values@.map_values(|p: (Vec<char>, i64)| (p.0@, p.1))
    }

    /// The unknown piece.
    pub open spec fn unknown(&self) -> Seq<char> {
        self.unknown_value@
    }

    /// Well-formedness: the unknown piece is bound, and every
    /// special literal is nonempty and bound to its stated id.
    pub open spec fn wf(&self) -> bool {
        &&& assoc_find(self.entries(), self.unknown()) is Some
        &&& forall|i: int|
            0 <= i < self.specials().len() ==> (#[trigger] self.specials()[i]).0.len() > 0
                && assoc_find(self.entries(), self.specials()[i].0) == Some(self.specials()[i].1)
    }

    /// The id of `key`: its own binding if present, else the
    /// binding of the unknown piece.
    pub open spec fn spec_token_to_id(&self, key: Seq<char>) -> i64 {
        match assoc_find(self.entries(), key) {
            Some(id) => id,
            None => assoc_find(self.entries(), self.unknown()).unwrap(),
        }
    }

    /// Whether `key` is one of the special-token literals.
    pub open spec fn spec_is_special(&self, key: Seq<char>) -> bool {
        assoc_find(self.specials(), key) is Some
    }

    /// The piece bound to `id`: the first entry carrying that id,
    /// else the unknown piece as a placeholder.
    pub open spec fn spec_id_to_token(&self, id: i64) -> Seq<char> {
        match assoc_find_key(self.entries(), id) {
            Some(k) => k,
            None => self.unknown(),
        }
    }

    /// Builds a vocabulary, rejecting a triple whose unknown piece
    /// is unbound or whose special entries are empty or unbound.
    pub fn new(values: Vec<(String, i64)>, unknown_value: String, special_values: Vec<(String, i64)>)
        -> (r: Result<Vocab, VocabularyError>)
        ensures
            ({
                let vs = entries_view(values@);
                let sp = entries_view(special_values@);
                match r {
                    Ok(v) => spec_vocab_check(vs, unknown_value@, sp) is None && v.wf()
                        && v.entries() == vs && v.specials() == sp && v.unknown() == unknown_value@,
                    Err(e) => spec_vocab_check(vs, unknown_value@, sp) == Some(e),
                }
            }),
    {
        let ghost vs = entries_view(values@);
        let ghost sp = entries_view(special_values@);
        let mut cvalues: Vec<(Vec<char>, i64)> = Vec::new();
        let n = values.len();
        for i in 0..n
            invariant
                n == values@.len(),
                cvalues@.len() == i,
                forall|j: int|
                    0 <= j < i ==> (#[trigger] cvalues@[j]).0@ == values@[j].0@ && cvalues@[j].1
                        == values@[j].1,
        {
            let cs = chars_of(values[i].0.as_str());
            cvalues.push((cs, values[i].1));
        }
        let mut cspecials: Vec<(Vec<char>, i64)> = Vec::new();
        let m = special_values.len();
        for i in 0..m
            invariant
                m == special_values@.len(),
                cspecials@.len() == i,
                forall|j: int|
                    0 <= j < i ==> (#[trigger] cspecials@[j]).0@ == special_values@[j].0@
                        && cspecials@[j].1 == special_values@[j].1,
        {
            let cs = chars_of(special_values[i].0.as_str());
            cspecials.push((cs, special_values[i].1));
        }
        let cunknown = chars_of(unknown_value.as_str());
        let v = Vocab { values: cvalues, unknown_value: cunknown, special_values: cspecials };
        proof {
            assert(v.entries() =~= vs);
            assert(v.specials() =~= sp);
        }
        if v.lookup(v.unknown_value.as_slice()).is_none() {
            return Err(VocabularyError::MissingUnknownToken);
        }
        let k = v.special_values.len();
        proof {
            assert(sp.skip(0) =~= sp);
        }
        for i in 0..k
            invariant
                vs == entries_view(values@),
                sp == entries_view(special_values@),
                v.entries() == vs,
                v.specials() == sp,
                k == v.special_values@.len(),
                v.unknown() == unknown_value@,
                assoc_find(vs, v.unknown()) is Some,
                check_specials(vs, sp.skip(i as int)) == check_specials(vs, sp),
                forall|j: int|
                    0 <= j < i ==> (#[trigger] sp[j]).0.len() > 0 && assoc_find(vs, sp[j].0)
                        == Some(sp[j].1),
        {
            proof {
                assert(sp.skip(i as int)[0] == sp[i as int]);
                assert(sp.skip(i as int).drop_first() =~= sp.skip(i + 1));
            }
            proof {
                assert(sp[i as int] == v.specials()[i as int]);
                assert(sp[i as int].0 == v.special_values@[i as int].0@);
            }
            if v.special_values[i].0.len() == 0 {
                proof {
                    assert(check_specials(vs, sp.skip(i as int)) == Some(
                        VocabularyError::EmptySpecialToken,
                    ));
                }
                return Err(VocabularyError::EmptySpecialToken);
            }
            let found = v.lookup(v.special_values[i].0.as_slice());
            match found {
                Some(id) if id == v.special_values[i].1 => {},
                _ => {
                    proof {
                        assert(assoc_find(vs, sp[i as int].0) != Some(sp[i as int].1));
                        assert(check_specials(vs, sp.skip(i as int)) == Some(
                            VocabularyError::SpecialTokenNotInVocabulary,
                        ));
                    }
                    return Err(VocabularyError::SpecialTokenNotInVocabulary);
                },
            }
        }
        proof {
            assert(sp.skip(k as int) =~= Seq::<(Seq<char>, i64)>::empty());
        }
        Ok(v)
    }

    /// Looks `token` up among the entries.
    pub fn lookup(&self, token: &[char]) -> (r: Option<i64>)
        ensures
            r == assoc_find(self.entries(), token@),
    {
        let n = self.values.len();
        proof {
            assert(self.entries().skip(0) =~= self.entries());
        }
        for i in 0..n
            invariant
                n == self.values@.len(),
                assoc_find(self.entries().skip(i as int), token@) == assoc_find(
                    self.entries(),
                    token@,
                ),
        {
            proof {
                assert(self.entries().skip(i as int)[0] == self.entries()[i as int]);
                assert(self.entries().skip(i as int).drop_first() =~= self.entries().skip(i + 1));
            }
            if chars_eq(self.values[i].0.as_slice(), token) {
                return Some(self.values[i].1);
            }
        }
        proof {
            assert(self.entries().skip(n as int) =~= Seq::<(Seq<char>, i64)>::empty());
        }
        None
    }

    /// The id of `token`, falling back to the unknown piece's id.
    pub fn token_to_id(&self, token: &[char]) -> (id: i64)
        requires
            self.wf(),
        ensures
            id == self.spec_token_to_id(token@),
    {
        match self.lookup(token) {
            Some(id) => id,
            None => {
                match self.lookup(self.unknown_value.as_slice()) {
                    Some(id) => id,
                    None => {
                        proof {
                            assert(false);
                        }
                        0
                    },
                }
            },
        }
    }

    /// Whether `token` is a special-token literal.
    pub fn is_special(&self, token: &[char]) -> (r: bool)
        ensures
            r == self.spec_is_special(token@),
    {
        let n = self.special_values.len();
        proof {
            assert(self.specials().skip(0) =~= self.specials());
        }
        for i in 0..n
            invariant
                n == self.special_values@.len(),
                assoc_find(self.specials().skip(i as int), token@) == assoc_find(
                    self.specials(),
                    token@,
                ),
        {
            proof {
                assert(self.specials().skip(i as int)[0] == self.specials()[i as int]);
                assert(self.specials().skip(i as int).drop_first() =~= self.specials().skip(i + 1));
            }
            if chars_eq(self.special_values[i].0.as_slice(), token) {
                return true;
            }
        }
        proof {
            assert(self.specials().skip(n as int) =~= Seq::<(Seq<char>, i64)>::empty());
        }
        false
    }

    /// The piece text bound to `id`, or the unknown piece when no
    /// entry carries that id.
    pub fn id_to_token(&self, id: i64) -> (r: String)
        ensures
            r@ == self.spec_id_to_token(id),
    {
        let n = self.values.len();
        proof {
            assert(self.entries().skip(0) =~= self.entries());
        }
        for i in 0..n
            invariant
                n == self.values@.len(),
                assoc_find_key(self.entries().skip(i as int), id) == assoc_find_key(
                    self.entries(),
                    id,
                ),
        {
            proof {
                assert(self.entries().skip(i as int)[0] == self.entries()[i as int]);
                assert(self.entries().skip(i as int).drop_first() =~= self.entries().skip(i + 1));
            }
            if self.values[i].1 == id {
                return string_from_chars(self.values[i].0.as_slice());
            }
        }
        proof {
            assert(self.entries().skip(n as int) =~= Seq::<(Seq<char>, i64)>::empty());
        }
        string_from_chars(self.unknown_value.as_slice())
    }
}

} // verus!
