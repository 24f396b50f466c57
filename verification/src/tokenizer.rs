//! The base tokenizer: the whole pipeline from a raw string to
//! vocabulary ids, batch variants running the same pipeline over
//! many inputs, and length-bounded encoding of sentence pairs.

use vstd::prelude::*;
use rayon::iter::IntoParallelRefIterator;
use rayon::iter::ParallelIterator;
use crate::vocab::{
    Vocab,
    assoc_find,
    distinct_ids,
    lemma_assoc_find_mem,
    lemma_assoc_find_present,
    lemma_id_round_trip,
};
use crate::unicode::{
    chars_of,
    string_from_chars,
    lowercase,
    lower_of,
    copy_chars,
    spec_cleaned_char,
    is_cjk_char,
};
use crate::text::{
    spec_clean,
    spec_cjk_pad,
    spec_strip_accents,
    clean_text,
    tokenize_cjk_chars,
    strip_accents,
    lemma_clean_fixed,
    lemma_cjk_pad_fixed,
};
use crate::split::{
    pieces_view,
    tagged_view,
    space_free,
    spec_ws_accum,
    best_special_len,
    spec_split_special,
    lemma_ws_accum_trailing_space,
    lemma_ws_accum_space_free_tail,
    lemma_ws_accum_prefix,
    lemma_best_special_len_witness,
    lemma_split_special_occurrence,
    spec_whitespace_split,
    spec_split_on_punct,
    spec_split_on_special,
    whitespace_tokenize,
    split_on_punct,
    split_on_special_tokens,
    lemma_ws_split_no_space,
    lemma_split_special_whole,
};
use crate::truncation::{
    TruncationStrategy,
    TokenizationError,
    opt_len,
    opt_view,
    spec_truncate,
    truncate_sequences,
    subvec,
};

verus! {

/// The views of a list of strings.
pub open spec fn strings_view(v: Seq<String>) -> Seq<Seq<char>> {
    v.map_values(|s: String| s@)
}

/// The views of a list of string slices.
pub open spec fn strs_view(v: Seq<&str>) -> Seq<Seq<char>> {
    v.map_values(|s: &str| s@)
}

/// The views of a list of string-slice pairs.
pub open spec fn pairs_view(v: Seq<(&str, &str)>) -> Seq<(Seq<char>, Seq<char>)> {
    v.map_values(|p: (&str, &str)| (p.0@, p.1@))
}

/// The views of a list of id vectors.
pub open spec fn idss_view(v: Seq<Vec<i64>>) -> Seq<Seq<i64>> {
    v.map_values(|x: Vec<i64>| x@)
}

/// The parts concatenated with a single space between consecutive
/// parts.
pub open spec fn spec_join_spaces(parts: Seq<Seq<char>>) -> Seq<char>
    decreases parts.len(),
{
    if parts.len() == 0 {
        Seq::empty()
    } else if parts.len() == 1 {
        parts[0]
    } else {
        spec_join_spaces(parts.drop_last()) + seq![' '] + parts.last()
    }
}

/// Each segment cleaned, CJK-padded and whitespace-split, the word
/// lists concatenated in order.
pub open spec fn spec_normalize_segments(segs: Seq<Seq<char>>) -> Seq<Seq<char>>
    decreases segs.len(),
{
    if segs.len() == 0 {
        Seq::empty()
    } else {
        spec_normalize_segments(segs.drop_last()) + spec_whitespace_split(
            spec_cjk_pad(spec_clean(segs.last(), true)),
        )
    }
}

/// What case folding makes of one word: a special-token literal is
/// untouched, any other word is lowercased and stripped of accents.
pub open spec fn spec_fold_word(vocab: Vocab, w: Seq<char>) -> Seq<char> {
    if vocab.spec_is_special(w) {
        w
    } else {
        spec_strip_accents(lower_of(w))
    }
}

/// Case folding applied to each word.
pub open spec fn spec_case_fold(vocab: Vocab, words: Seq<Seq<char>>) -> Seq<Seq<char>>
    decreases words.len(),
{
    if words.len() == 0 {
        Seq::empty()
    } else {
        spec_case_fold(vocab, words.drop_last()).push(spec_fold_word(vocab, words.last()))
    }
}

/// Each word split at punctuation, the piece lists concatenated.
pub open spec fn spec_split_words_on_punct(vocab: Vocab, words: Seq<Seq<char>>) -> Seq<Seq<char>>
    decreases words.len(),
{
    if words.len() == 0 {
        Seq::empty()
    } else {
        spec_split_words_on_punct(vocab, words.drop_last()) + spec_split_on_punct(
            vocab,
            words.last(),
        )
    }
}

/// The whole tokenization pipeline: cut at special-token literals,
/// clean and CJK-pad each segment, split on whitespace, case-fold
/// the non-special words, split punctuation off, and re-split the
/// space-joined pieces.
pub open spec fn spec_tokenize(vocab: Vocab, text: Seq<char>) -> Seq<Seq<char>> {
    let segs = spec_split_on_special(vocab, text);
    let words = spec_normalize_segments(segs);
    let folded = spec_case_fold(vocab, words);
    let pieces = spec_split_words_on_punct(vocab, folded);
    spec_whitespace_split(spec_join_spaces(pieces))
}

/// Each piece mapped to its vocabulary id, unknown pieces to the
/// unknown id.
pub open spec fn spec_convert_ids(vocab: Vocab, toks: Seq<Seq<char>>) -> Seq<i64>
    decreases toks.len(),
{
    if toks.len() == 0 {
        Seq::empty()
    } else {
        spec_convert_ids(vocab, toks.drop_last()).push(vocab.spec_token_to_id(toks.last()))
    }
}

/// The framed input: the first sequence followed by the second.
pub open spec fn spec_build_input(t1: Seq<i64>, t2: Option<Seq<i64>>) -> Seq<i64> {
    t1 + (match t2 {
        Some(s) => s,
        None => Seq::empty(),
    })
}

/// The view of an optional string slice.
pub open spec fn opt_str_view(o: Option<&str>) -> Option<Seq<char>> {
    match o {
        Some(s) => Some(s@),
        None => None,
    }
}

/// The view of an id-sequence result.
pub open spec fn ids_result_view(r: Result<Vec<i64>, TokenizationError>) -> Result<
    Seq<i64>,
    TokenizationError,
> {
    match r {
        Ok(v) => Ok(v@),
        Err(e) => Err(e),
    }
}

/// The view of a batch result.
pub open spec fn list_result_view(r: Result<Vec<Vec<i64>>, TokenizationError>) -> Result<
    Seq<Seq<i64>>,
    TokenizationError,
> {
    match r {
        Ok(v) => Ok(idss_view(v@)),
        Err(e) => Err(e),
    }
}

/// What encoding one input (or pair) returns: both texts tokenized
/// and mapped to ids, the pair truncated to `max_len`, and the two
/// retained sequences concatenated.
pub open spec fn spec_encode(
    vocab: Vocab,
    text_1: Seq<char>,
    text_2: Option<Seq<char>>,
    max_len: nat,
    strategy: TruncationStrategy,
    stride: nat,
) -> Result<Seq<i64>, TokenizationError> {
    let ids_1 = spec_convert_ids(vocab, spec_tokenize(vocab, text_1));
    let ids_2 = match text_2 {
        Some(t) => Some(spec_convert_ids(vocab, spec_tokenize(vocab, t))),
        None => None,
    };
    let total = ids_1.len() + opt_len(ids_2);
    let num = if total > max_len {
        (total - max_len) as nat
    } else {
        0 as nat
    };
    if num > usize::MAX as nat {
        Err(TokenizationError::Overflow)
    } else {
        match spec_truncate(ids_1, ids_2, num, strategy, stride) {
            Ok(t) => Ok(spec_build_input(t.0, t.1)),
            Err(e) => Err(e),
        }
    }
}

/// Encoding each text on its own, stopping at the first failure.
pub open spec fn spec_encode_list(
    vocab: Vocab,
    texts: Seq<Seq<char>>,
    max_len: nat,
    strategy: TruncationStrategy,
    stride: nat,
) -> Result<Seq<Seq<i64>>, TokenizationError>
    decreases texts.len(),
{
    if texts.len() == 0 {
        Ok(Seq::empty())
    } else {
        match spec_encode(vocab, texts[0], None, max_len, strategy, stride) {
            Ok(ids) => match spec_encode_list(
                vocab,
                texts.drop_first(),
                max_len,
                strategy,
                stride,
            ) {
                Ok(rest) => Ok(seq![ids] + rest),
                Err(e) => Err(e),
            },
            Err(e) => Err(e),
        }
    }
}

/// Encoding each pair on its own, stopping at the first failure.
pub open spec fn spec_encode_pair_list(
    vocab: Vocab,
    pairs: Seq<(Seq<char>, Seq<char>)>,
    max_len: nat,
    strategy: TruncationStrategy,
    stride: nat,
) -> Result<Seq<Seq<i64>>, TokenizationError>
    decreases pairs.len(),
{
    if pairs.len() == 0 {
        Ok(Seq::empty())
    } else {
        match spec_encode(vocab, pairs[0].0, Some(pairs[0].1), max_len, strategy, stride) {
            Ok(ids) => match spec_encode_pair_list(
                vocab,
                pairs.drop_first(),
                max_len,
                strategy,
                stride,
            ) {
                Ok(rest) => Ok(seq![ids] + rest),
                Err(e) => Err(e),
            },
            Err(e) => Err(e),
        }
    }
}


/// A WordPiece continuation piece: one led by the textual marker
/// `##`.
pub open spec fn is_continuation(w: Seq<char>) -> bool {
    w.len() >= 2 && w[0] == '#' && w[1] == '#'
}

/// The pieces the ids name, in order; with `skip_special` set,
/// special pieces are left out.
pub open spec fn spec_pieces_of_ids(vocab: Vocab, ids: Seq<i64>, skip_special: bool) -> Seq<
    Seq<char>,
>
    decreases ids.len(),
{
    if ids.len() == 0 {
        Seq::empty()
    } else {
        let rest = spec_pieces_of_ids(vocab, ids.drop_last(), skip_special);
        let piece = vocab.spec_id_to_token(ids.last());
        if skip_special && vocab.spec_is_special(piece) {
            rest
        } else {
            rest.push(piece)
        }
    }
}

/// Pieces written out as text: a space before each piece but the
/// first, no space before a continuation piece, whose marker is
/// dropped.
pub open spec fn spec_decode_pieces(pieces: Seq<Seq<char>>) -> Seq<char>
    decreases pieces.len(),
{
    if pieces.len() == 0 {
        Seq::empty()
    } else if pieces.len() == 1 {
        pieces[0]
    } else {
        let prev = spec_decode_pieces(pieces.drop_last());
        if is_continuation(pieces.last()) {
            prev + pieces.last().skip(2)
        } else {
            prev + seq![' '] + pieces.last()
        }
    }
}

/// Whether the cleanup pass drops a space standing before this
/// codepoint.
pub open spec fn cleanup_punct(c: char) -> bool {
    c == '.' || c == ',' || c == '!' || c == '?' || c == ';' || c == ':' || c == '\''
}

/// Tokenization artifacts cleaned: a space standing immediately
/// before closing punctuation or an apostrophe is dropped.
pub open spec fn spec_clean_spaces(s: Seq<char>) -> Seq<char>
    decreases s.len(),
{
    if s.len() == 0 {
        Seq::empty()
    } else {
        let p = spec_clean_spaces(s.drop_last());
        let c = s.last();
        if cleanup_punct(c) && p.len() > 0 && p.last() == ' ' {
            p.drop_last().push(c)
        } else {
            p.push(c)
        }
    }
}

/// What decoding returns: the named pieces written out, cleaned of
/// artifacts when asked.
pub open spec fn spec_decode(
    vocab: Vocab,
    ids: Seq<i64>,
    skip_special: bool,
    clean_spaces: bool,
) -> Seq<char> {
    let d = spec_decode_pieces(spec_pieces_of_ids(vocab, ids, skip_special));
    if clean_spaces {
        spec_clean_spaces(d)
    } else {
        d
    }
}

/// The concatenation of piece lists seen through their views.
proof fn lemma_pieces_view_concat(a: Seq<Vec<char>>, b: Seq<Vec<char>>)
    ensures
        pieces_view(a + b) == pieces_view(a) + pieces_view(b),
{
    let l = pieces_view(a + b);
    let r = pieces_view(a) + pieces_view(b);
    assert forall|j: int| 0 <= j < l.len() implies l[j] == r[j] by {
        if j < a.len() {
            assert((a + b)[j] == a[j]);
        } else {
            assert((a + b)[j] == b[j - a.len()]);
        }
    }
    assert(l =~= r);
}

/// Relies on itertools::Itertools::join: the iterated elements
/// written out in order with the separator between each pair of
/// consecutive elements.
#[verifier::external_body]
fn join_with_spaces(parts: &Vec<String>) -> (r: String)
    ensures
        r@ == spec_join_spaces(strings_view(parts@)),
{
    itertools::Itertools::join(&mut parts.iter(), " ")
}

/// Turns each character-vector piece into a string.
fn pieces_to_strings(pieces: &Vec<Vec<char>>) -> (r: Vec<String>)
    ensures
        strings_view(r@) == pieces_view(pieces@),
{
    let mut r: Vec<String> = Vec::new();
    let n = pieces.len();
    for i in 0..n
        invariant
            n == pieces@.len(),
            r@.len() == i,
            forall|j: int| 0 <= j < i ==> (#[trigger] r@[j])@ == pieces@[j]@,
    {
        r.push(string_from_chars(pieces[i].as_slice()));
    }
    proof {
        assert(strings_view(r@) =~= pieces_view(pieces@));
    }
    r
}


/// Appends `v[from..]` to `out`.
fn append_range(out: &mut Vec<char>, v: &Vec<char>, from: usize)
    requires
        from <= v@.len(),
    ensures
        final(out)@ == old(out)@ + v@.skip(from as int),
{
    let n = v.len();
    proof {
        assert(v@.subrange(from as int, from as int) =~= Seq::<char>::empty());
        assert(out@ + v@.subrange(from as int, from as int) =~= out@);
    }
    for i in from..n
        invariant
            from <= i <= n,
            n == v@.len(),
            out@ == old(out)@ + v@.subrange(from as int, i as int),
    {
        out.push(v[i]);
        proof {
            assert(v@.subrange(from as int, i + 1) =~= v@.subrange(from as int, i as int).push(
                v@[i as int],
            ));
            assert(old(out)@ + v@.subrange(from as int, i as int).push(v@[i as int]) =~= (old(out)@
                + v@.subrange(from as int, i as int)).push(v@[i as int]));
        }
    }
    proof {
        assert(v@.subrange(from as int, n as int) =~= v@.skip(from as int));
    }
}

/// The base tokenizer: the normalization and splitting pipeline
/// around one shared, read-only vocabulary.
pub struct BaseTokenizer {
    /// The vocabulary the pipeline consults.
    pub vocab: Vocab,
}

/// Relies on rayon's par_iter().map().collect() over an indexed
/// parallel iterator: the output has one element per input, in the
/// input order, each element the closure's result; the closure only
/// calls the verified `tokenize`.
#[verifier::external_body]
fn par_tokenize(tok: &BaseTokenizer, texts: &Vec<&str>) -> (r: Vec<Vec<String>>)
    ensures
        r@.len() == texts@.len(),
        forall|i: int|
            0 <= i < texts@.len() ==> strings_view((#[trigger] r@[i])@) == spec_tokenize(
                tok.vocab,
                texts@[i]@,
            ),
{
    texts.par_iter().map(|t: &&str| tok.tokenize(*t)).collect()
}

/// Relies on rayon's par_iter().map().collect() over an indexed
/// parallel iterator: the output has one element per input, in the
/// input order, each element the closure's result; the closure only
/// calls the verified `encode`.
#[verifier::external_body]
fn par_encode(
    tok: &BaseTokenizer,
    texts: &Vec<&str>,
    max_len: usize,
    strategy: &TruncationStrategy,
    stride: usize,
) -> (r: Vec<Result<Vec<i64>, TokenizationError>>)
    requires
        tok.vocab.wf(),
    ensures
        r@.len() == texts@.len(),
        forall|i: int|
            0 <= i < texts@.len() ==> ids_result_view(#[trigger] r@[i]) == spec_encode(
                tok.vocab,
                texts@[i]@,
                None,
                max_len as nat,
                *strategy,
                stride as nat,
            ),
{
    texts.par_iter().map(|t: &&str| tok.encode(*t, None, max_len, strategy, stride)).collect()
}

/// Relies on rayon's par_iter().map().collect() over an indexed
/// parallel iterator: the output has one element per input, in the
/// input order, each element the closure's result; the closure only
/// calls the verified `encode`.
#[verifier::external_body]
fn par_encode_pairs(
    tok: &BaseTokenizer,
    pairs: &Vec<(&str, &str)>,
    max_len: usize,
    strategy: &TruncationStrategy,
    stride: usize,
) -> (r: Vec<Result<Vec<i64>, TokenizationError>>)
    requires
        tok.vocab.wf(),
    ensures
        r@.len() == pairs@.len(),
        forall|i: int|
            0 <= i < pairs@.len() ==> ids_result_view(#[trigger] r@[i]) == spec_encode(
                tok.vocab,
                pairs@[i].0@,
                Some(pairs@[i].1@),
                max_len as nat,
                *strategy,
                stride as nat,
            ),
{
    pairs.par_iter().map(
        |p: &(&str, &str)| tok.encode(p.0, Some(p.1), max_len, strategy, stride),
    ).collect()
}

impl BaseTokenizer {
    /// Wraps an already-built vocabulary.
    pub fn from_existing_vocab(vocab: Vocab) -> (t: BaseTokenizer)
        ensures
            t.vocab == vocab,
    {
        BaseTokenizer { vocab }
    }

    /// The tokenizer's vocabulary.
    pub fn vocab(&self) -> (r: &Vocab)
        ensures
            *r == self.vocab,
    {
        &self.vocab
    }

    /// Runs the pipeline on one string: the returned pieces are the
    /// words and punctuation marks of the cleaned, case-folded
    /// input, special-token literals kept whole.
    pub fn tokenize(&self, text: &str) -> (r: Vec<String>)
        ensures
            strings_view(r@) == spec_tokenize(self.vocab, text@),
    {
        let cs = chars_of(text);
        let segs = split_on_special_tokens(&cs, &self.vocab);
        let ghost segsv = pieces_view(segs@);

        let mut words: Vec<Vec<char>> = Vec::new();
        let n = segs.len();
        proof {
            assert(pieces_view(words@) =~= Seq::<Seq<char>>::empty());
            assert(segsv.take(0) =~= Seq::<Seq<char>>::empty());
        }
        for i in 0..n
            invariant
                n == segs@.len(),
                segsv == pieces_view(segs@),
                pieces_view(words@) == spec_normalize_segments(segsv.take(i as int)),
        {
            proof {
                assert(pieces_view(segs@)[i as int] == segs@[i as int]@);
            }
            let cleaned = clean_text(&segs[i], true);
            let padded = tokenize_cjk_chars(&cleaned);
            let mut ws = whitespace_tokenize(&padded);
            let ghost old_words = words@;
            let ghost old_ws = ws@;
            words.append(&mut ws);
            proof {
                lemma_pieces_view_concat(old_words, old_ws);
                assert(words@ == old_words + old_ws);
                assert(segsv.take(i + 1).drop_last() =~= segsv.take(i as int));
                assert(segsv.take(i + 1).last() == segsv[i as int]);
            }
        }
        proof {
            assert(segsv.take(n as int) =~= segsv);
        }

        let mut folded: Vec<Vec<char>> = Vec::new();
        let m = words.len();
        let ghost wordsv = pieces_view(words@);
        proof {
            assert(wordsv.take(0) =~= Seq::<Seq<char>>::empty());
        }
        for i in 0..m
            invariant
                m == words@.len(),
                wordsv == pieces_view(words@),
                pieces_view(folded@) == spec_case_fold(self.vocab, wordsv.take(i as int)),
        {
            proof {
                assert(pieces_view(words@)[i as int] == words@[i as int]@);
            }
            let ghost old_folded = folded@;
            if self.vocab.is_special(words[i].as_slice()) {
                let w = copy_chars(&words[i]);
                folded.push(w);
            } else {
                let lowered = lowercase(&string_from_chars(words[i].as_slice()));
                let lc = chars_of(lowered.as_str());
                let stripped = strip_accents(&lc);
                folded.push(stripped);
            }
            proof {
                assert(pieces_view(folded@) =~= pieces_view(old_folded).push(
                    spec_fold_word(self.vocab, wordsv[i as int]),
                ));
                assert(wordsv.take(i + 1).drop_last() =~= wordsv.take(i as int));
                assert(wordsv.take(i + 1).last() == wordsv[i as int]);
            }
        }
        proof {
            assert(wordsv.take(m as int) =~= wordsv);
        }

        let mut pieces: Vec<Vec<char>> = Vec::new();
        let k = folded.len();
        let ghost foldedv = pieces_view(folded@);
        proof {
            assert(foldedv.take(0) =~= Seq::<Seq<char>>::empty());
            assert(pieces_view(pieces@) =~= Seq::<Seq<char>>::empty());
        }
        for i in 0..k
            invariant
                k == folded@.len(),
                foldedv == pieces_view(folded@),
                pieces_view(pieces@) == spec_split_words_on_punct(
                    self.vocab,
                    foldedv.take(i as int),
                ),
        {
            proof {
                assert(pieces_view(folded@)[i as int] == folded@[i as int]@);
            }
            let w = copy_chars(&folded[i]);
            let mut ps = split_on_punct(w, &self.vocab);
            let ghost old_pieces = pieces@;
            let ghost old_ps = ps@;
            pieces.append(&mut ps);
            proof {
                lemma_pieces_view_concat(old_pieces, old_ps);
                assert(pieces@ == old_pieces + old_ps);
                assert(foldedv.take(i + 1).drop_last() =~= foldedv.take(i as int));
                assert(foldedv.take(i + 1).last() == foldedv[i as int]);
            }
        }
        proof {
            assert(foldedv.take(k as int) =~= foldedv);
        }

        let piece_strings = pieces_to_strings(&pieces);
        let joined = join_with_spaces(&piece_strings);
        let jc = chars_of(joined.as_str());
        let resplit = whitespace_tokenize(&jc);
        let out = pieces_to_strings(&resplit);
        out
    }

    /// Maps each piece to its id, unknown pieces to the unknown id.
    pub fn convert_tokens_to_ids(&self, tokens: &Vec<String>) -> (r: Vec<i64>)
        requires
            self.vocab.wf(),
        ensures
            r@ == spec_convert_ids(self.vocab, strings_view(tokens@)),
    {
        let ghost toksv = strings_view(tokens@);
        let mut r: Vec<i64> = Vec::new();
        let n = tokens.len();
        proof {
            assert(toksv.take(0) =~= Seq::<Seq<char>>::empty());
        }
        for i in 0..n
            invariant
                n == tokens@.len(),
                toksv == strings_view(tokens@),
                self.vocab.wf(),
                r@ == spec_convert_ids(self.vocab, toksv.take(i as int)),
        {
            proof {
                assert(strings_view(tokens@)[i as int] == tokens@[i as int]@);
            }
            let cs = chars_of(tokens[i].as_str());
            r.push(self.vocab.token_to_id(cs.as_slice()));
            proof {
                assert(toksv.take(i + 1).drop_last() =~= toksv.take(i as int));
                assert(toksv.take(i + 1).last() == toksv[i as int]);
            }
        }
        proof {
            assert(toksv.take(n as int) =~= toksv);
        }
        r
    }

    /// Frames one or two id sequences into one model input: here,
    /// their concatenation.
    pub fn build_input_with_special_tokens(
        &self,
        tokens_1: Vec<i64>,
        tokens_2: Option<Vec<i64>>,
    ) -> (r: Vec<i64>)
        ensures
            r@ == spec_build_input(tokens_1@, opt_view(tokens_2)),
    {
        let mut r = tokens_1;
        match tokens_2 {
            Some(t) => {
                let mut t2 = t;
                r.append(&mut t2);
                r
            },
            None => r,
        }
    }

    /// Tokenizes one or two texts, maps the pieces to ids,
    /// truncates the pair to `max_len` under the strategy, and
    /// frames the retained ids; fails with `Overflow` exactly when
    /// the strategy cannot shorten the input enough.
    pub fn encode(
        &self,
        text_1: &str,
        text_2: Option<&str>,
        max_len: usize,
        truncation_strategy: &TruncationStrategy,
        stride: usize,
    ) -> (r: Result<Vec<i64>, TokenizationError>)
        requires
            self.vocab.wf(),
        ensures
            ids_result_view(r) == spec_encode(
                self.vocab,
                text_1@,
                opt_str_view(text_2),
                max_len as nat,
                *truncation_strategy,
                stride as nat,
            ),
    {
        let toks_1 = self.tokenize(text_1);
        let ids_1 = self.convert_tokens_to_ids(&toks_1);
        let ids_2: Option<Vec<i64>> = match text_2 {
            Some(t) => {
                let toks_2 = self.tokenize(t);
                Some(self.convert_tokens_to_ids(&toks_2))
            },
            None => None,
        };
        let len_1 = ids_1.len();
        let len_2 = match &ids_2 {
            Some(v) => v.len(),
            None => 0,
        };
        let total: u128 = len_1 as u128 + len_2 as u128;
        let num_128: u128 = if total > max_len as u128 {
            total - max_len as u128
        } else {
            0
        };
        if num_128 > usize::MAX as u128 {
            return Err(TokenizationError::Overflow);
        }
        let num = num_128 as usize;
        match truncate_sequences(ids_1, ids_2, num, truncation_strategy, stride) {
            Ok(t) => {
                let (r1, r2, _overflow) = t;
                Ok(self.build_input_with_special_tokens(r1, r2))
            },
            Err(e) => Err(e),
        }
    }


    /// Maps ids back to piece texts and writes them out as
    /// readable text: a space between pieces, continuation pieces
    /// glued to their predecessor without their marker; special
    /// pieces dropped when `skip_special_tokens` is set, and spaces
    /// before closing punctuation dropped when
    /// `clean_up_tokenization_spaces` is set.
    pub fn decode(
        &self,
        ids: &Vec<i64>,
        skip_special_tokens: bool,
        clean_up_tokenization_spaces: bool,
    ) -> (r: String)
        ensures
            r@ == spec_decode(self.vocab, ids@, skip_special_tokens, clean_up_tokenization_spaces),
    {
        let mut pieces: Vec<Vec<char>> = Vec::new();
        let n = ids.len();
        proof {
            assert(ids@.take(0) =~= Seq::<i64>::empty());
            assert(pieces_view(pieces@) =~= Seq::<Seq<char>>::empty());
        }
        for i in 0..n
            invariant
                n == ids@.len(),
                pieces_view(pieces@) == spec_pieces_of_ids(
                    self.vocab,
                    ids@.take(i as int),
                    skip_special_tokens,
                ),
        {
            let piece_text = self.vocab.id_to_token(ids[i]);
            let piece = chars_of(piece_text.as_str());
            let ghost old_pieces = pieces@;
            if skip_special_tokens && self.vocab.is_special(piece.as_slice()) {
            } else {
                pieces.push(piece);
                proof {
                    assert(pieces_view(pieces@) =~= pieces_view(old_pieces).push(
                        self.vocab.spec_id_to_token(ids@[i as int]),
                    ));
                }
            }
            proof {
                assert(ids@.take(i + 1).drop_last() =~= ids@.take(i as int));
                assert(ids@.take(i + 1).last() == ids@[i as int]);
            }
        }
        proof {
            assert(ids@.take(n as int) =~= ids@);
        }

        let mut out: Vec<char> = Vec::new();
        let ghost pv = pieces_view(pieces@);
        let np = pieces.len();
        proof {
            assert(pv.take(0) =~= Seq::<Seq<char>>::empty());
        }
        for i in 0..np
            invariant
                np == pieces@.len(),
                pv == pieces_view(pieces@),
                out@ == spec_decode_pieces(pv.take(i as int)),
        {
            proof {
                assert(pieces_view(pieces@)[i as int] == pieces@[i as int]@);
                assert(pv.take(i + 1).drop_last() =~= pv.take(i as int));
                assert(pv.take(i + 1).last() == pv[i as int]);
            }
            let p = &pieces[i];
            if i == 0 {
                append_range(&mut out, p, 0);
                proof {
                    assert(p@.skip(0) =~= p@);
                    assert(Seq::<char>::empty() + p@ =~= p@);
                }
            } else if p.len() >= 2 && p[0] == '#' && p[1] == '#' {
                append_range(&mut out, p, 2);
            } else {
                let ghost mid = out@;
                out.push(' ');
                append_range(&mut out, p, 0);
                proof {
                    assert(p@.skip(0) =~= p@);
                    assert(mid.push(' ') + p@ =~= mid + seq![' '] + p@);
                }
            }
        }
        proof {
            assert(pv.take(np as int) =~= pv);
        }

        if clean_up_tokenization_spaces {
            let mut cleaned: Vec<char> = Vec::new();
            let m = out.len();
            proof {
                assert(out@.take(0) =~= Seq::<char>::empty());
            }
            for i in 0..m
                invariant
                    m == out@.len(),
                    cleaned@ == spec_clean_spaces(out@.take(i as int)),
            {
                proof {
                    assert(out@.take(i + 1).drop_last() =~= out@.take(i as int));
                    assert(out@.take(i + 1).last() == out@[i as int]);
                }
                let c = out[i];
                let drops = c == '.' || c == ',' || c == '!' || c == '?' || c == ';' || c == ':'
                    || c == '\'';
                if drops && cleaned.len() > 0 && cleaned[cleaned.len() - 1] == ' ' {
                    let ghost before = cleaned@;
                    let _dropped = cleaned.pop();
                    cleaned.push(c);
                    proof {
                        assert(before.subrange(0, before.len() - 1) =~= before.drop_last());
                    }
                } else {
                    cleaned.push(c);
                }
            }
            proof {
                assert(out@.take(m as int) =~= out@);
            }
            string_from_chars(cleaned.as_slice())
        } else {
            string_from_chars(out.as_slice())
        }
    }

    /// Tokenizes each text of a batch; the results stand in input
    /// order and each equals what `tokenize` returns for that text.
    pub fn tokenize_list(&self, text_list: Vec<&str>) -> (r: Vec<Vec<String>>)
        ensures
            r@.len() == text_list@.len(),
            forall|i: int|
                0 <= i < text_list@.len() ==> strings_view((#[trigger] r@[i])@) == spec_tokenize(
                    self.vocab,
                    text_list@[i]@,
                ),
    {
        par_tokenize(self, &text_list)
    }

    /// Encodes each text of a batch on its own; the results stand
    /// in input order, and the first failing text's error is
    /// returned when one fails.
    pub fn encode_list(
        &self,
        text_list: Vec<&str>,
        max_len: usize,
        truncation_strategy: &TruncationStrategy,
        stride: usize,
    ) -> (r: Result<Vec<Vec<i64>>, TokenizationError>)
        requires
            self.vocab.wf(),
        ensures
            list_result_view(r) == spec_encode_list(
                self.vocab,
                strs_view(text_list@),
                max_len as nat,
                *truncation_strategy,
                stride as nat,
            ),
    {
        let results = par_encode(self, &text_list, max_len, truncation_strategy, stride);
        let ghost tv = strs_view(text_list@);
        let ghost vocab = self.vocab;
        let ghost ml = max_len as nat;
        let ghost strat = *truncation_strategy;
        let ghost st = stride as nat;
        let mut out: Vec<Vec<i64>> = Vec::new();
        let n = results.len();
        proof {
            assert(tv.skip(0) =~= tv);
            assert(idss_view(out@) =~= Seq::<Seq<i64>>::empty());
        }
        for i in 0..n
            invariant
                n == results@.len(),
                n == text_list@.len(),
                tv == strs_view(text_list@),
                vocab == self.vocab,
                ml == max_len as nat,
                strat == *truncation_strategy,
                st == stride as nat,
                forall|j: int|
                    0 <= j < n ==> ids_result_view(#[trigger] results@[j]) == spec_encode(
                        vocab,
                        tv[j],
                        None,
                        ml,
                        strat,
                        st,
                    ),
                spec_encode_list(vocab, tv, ml, strat, st) == (match spec_encode_list(
                    vocab,
                    tv.skip(i as int),
                    ml,
                    strat,
                    st,
                ) {
                    Ok(rest) => Ok::<Seq<Seq<i64>>, TokenizationError>(idss_view(out@) + rest),
                    Err(e) => Err::<Seq<Seq<i64>>, TokenizationError>(e),
                }),
        {
            proof {
                assert(tv.skip(i as int)[0] == tv[i as int]);
                assert(tv.skip(i as int).drop_first() =~= tv.skip(i + 1));
                assert(strs_view(text_list@)[i as int] == text_list@[i as int]@);
            }
            let r_i = &results[i];
            match r_i {
                Ok(v) => {
                    let ghost old_out = out@;
                    let ids = subvec(v, 0, v.len());
                    proof {
                        assert(ids@ =~= v@);
                    }
                    out.push(ids);
                    proof {
                        assert(idss_view(out@) =~= idss_view(old_out).push(v@));
                        assert forall|rest: Seq<Seq<i64>>| true implies (idss_view(old_out) + (
                        seq![v@] + rest)) =~= (idss_view(out@) + rest) by {}
                    }
                },
                Err(e) => {
                    proof {
                        assert(spec_encode_list(vocab, tv.skip(i as int), ml, strat, st) == Err::<
                            Seq<Seq<i64>>,
                            TokenizationError,
                        >(*e));
                    }
                    return Err(*e);
                },
            }
        }
        proof {
            assert(tv.skip(n as int) =~= Seq::<Seq<char>>::empty());
            assert(idss_view(out@) + Seq::<Seq<i64>>::empty() =~= idss_view(out@));
        }
        Ok(out)
    }

    /// Encodes each pair of a batch on its own; the results stand
    /// in input order, and the first failing pair's error is
    /// returned when one fails.
    pub fn encode_pair_list(
        &self,
        text_list: Vec<(&str, &str)>,
        max_len: usize,
        truncation_strategy: &TruncationStrategy,
        stride: usize,
    ) -> (r: Result<Vec<Vec<i64>>, TokenizationError>)
        requires
            self.vocab.wf(),
        ensures
            list_result_view(r) == spec_encode_pair_list(
                self.vocab,
                pairs_view(text_list@),
                max_len as nat,
                *truncation_strategy,
                stride as nat,
            ),
    {
        let results = par_encode_pairs(self, &text_list, max_len, truncation_strategy, stride);
        let ghost tv = pairs_view(text_list@);
        let ghost vocab = self.vocab;
        let ghost ml = max_len as nat;
        let ghost strat = *truncation_strategy;
        let ghost st = stride as nat;
        let mut out: Vec<Vec<i64>> = Vec::new();
        let n = results.len();
        proof {
            assert(tv.skip(0) =~= tv);
            assert(idss_view(out@) =~= Seq::<Seq<i64>>::empty());
        }
        for i in 0..n
            invariant
                n == results@.len(),
                n == text_list@.len(),
                tv == pairs_view(text_list@),
                vocab == self.vocab,
                ml == max_len as nat,
                strat == *truncation_strategy,
                st == stride as nat,
                forall|j: int|
                    0 <= j < n ==> ids_result_view(#[trigger] results@[j]) == spec_encode(
                        vocab,
                        tv[j].0,
                        Some(tv[j].1),
                        ml,
                        strat,
                        st,
                    ),
                spec_encode_pair_list(vocab, tv, ml, strat, st) == (match spec_encode_pair_list(
                    vocab,
                    tv.skip(i as int),
                    ml,
                    strat,
                    st,
                ) {
                    Ok(rest) => Ok::<Seq<Seq<i64>>, TokenizationError>(idss_view(out@) + rest),
                    Err(e) => Err::<Seq<Seq<i64>>, TokenizationError>(e),
                }),
        {
            proof {
                assert(tv.skip(i as int)[0] == tv[i as int]);
                assert(tv.skip(i as int).drop_first() =~= tv.skip(i + 1));
                assert(pairs_view(text_list@)[i as int] == (
                text_list@[i as int].0@,
                text_list@[i as int].1@,
                ));
            }
            let r_i = &results[i];
            match r_i {
                Ok(v) => {
                    let ghost old_out = out@;
                    let ids = subvec(v, 0, v.len());
                    proof {
                        assert(ids@ =~= v@);
                    }
                    out.push(ids);
                    proof {
                        assert(idss_view(out@) =~= idss_view(old_out).push(v@));
                        assert forall|rest: Seq<Seq<i64>>| true implies (idss_view(old_out) + (
                        seq![v@] + rest)) =~= (idss_view(out@) + rest) by {}
                    }
                },
                Err(e) => {
                    proof {
                        assert(spec_encode_pair_list(vocab, tv.skip(i as int), ml, strat, st)
                            == Err::<Seq<Seq<i64>>, TokenizationError>(*e));
                    }
                    return Err(*e);
                },
            }
        }
        proof {
            assert(tv.skip(n as int) =~= Seq::<(Seq<char>, Seq<char>)>::empty());
            assert(idss_view(out@) + Seq::<Seq<i64>>::empty() =~= idss_view(out@));
        }
        Ok(out)
    }
}

/// Batch equivalence: a successful batch has one result per text,
/// each exactly what encoding that text alone returns; a failing
/// batch returns an error that encoding one of its texts returns.
#[verifier::rlimit(50)]
pub proof fn lemma_batch_equivalence(
    vocab: Vocab,
    texts: Seq<Seq<char>>,
    max_len: nat,
    strategy: TruncationStrategy,
    stride: nat,
)
    ensures
        match spec_encode_list(vocab, texts, max_len, strategy, stride) {
            Ok(rs) => rs.len() == texts.len() && forall|i: int|
                0 <= i < texts.len() ==> spec_encode(vocab, texts[i], None, max_len, strategy, stride)
                    == Ok::<Seq<i64>, TokenizationError>(rs[i]),
            Err(e) => exists|i: int|
                0 <= i < texts.len() && spec_encode(vocab, texts[i], None, max_len, strategy, stride)
                    == Err::<Seq<i64>, TokenizationError>(e),
        },
    decreases texts.len(),
{
    if texts.len() > 0 {
        lemma_batch_equivalence(vocab, texts.drop_first(), max_len, strategy, stride);
        match spec_encode(vocab, texts[0], None, max_len, strategy, stride) {
            Ok(ids) => {
                match spec_encode_list(vocab, texts.drop_first(), max_len, strategy, stride) {
                    Ok(rest) => {
                        let rs = seq![ids] + rest;
                        assert forall|i: int| 0 <= i < texts.len() implies spec_encode(
                            vocab,
                            texts[i],
                            None,
                            max_len,
                            strategy,
                            stride,
                        ) == Ok::<Seq<i64>, TokenizationError>(rs[i]) by {
                            if i == 0 {
                                assert(rs[0] == ids);
                            } else {
                                assert(rs[i] == rest[i - 1]);
                                assert(texts.drop_first()[i - 1] == texts[i]);
                            }
                        }
                    },
                    Err(e) => {
                        let j = choose|j: int|
                            0 <= j < texts.drop_first().len() && spec_encode(
                                vocab,
                                texts.drop_first()[j],
                                None,
                                max_len,
                                strategy,
                                stride,
                            ) == Err::<Seq<i64>, TokenizationError>(e);
                        assert(texts.drop_first()[j] == texts[j + 1]);
                        assert(spec_encode(vocab, texts[j + 1], None, max_len, strategy, stride)
                            == Err::<Seq<i64>, TokenizationError>(e));
                    },
                }
            },
            Err(e) => {
                assert(spec_encode(vocab, texts[0], None, max_len, strategy, stride) == Err::<
                    Seq<i64>,
                    TokenizationError,
                >(e));
            },
        }
    }
}

/// Special-token preservation: a text that is exactly one
/// special-token literal — one holding no space, no CJK ideograph
/// and no codepoint the cleaner replaces — tokenizes to that
/// literal alone.
pub proof fn lemma_special_token_preserved(vocab: Vocab, lit: Seq<char>)
    requires
        vocab.wf(),
        vocab.spec_is_special(lit),
        forall|i: int|
            0 <= i < lit.len() ==> spec_cleaned_char(#[trigger] lit[i], true) == lit[i],
        forall|i: int| 0 <= i < lit.len() ==> !is_cjk_char(#[trigger] lit[i]),
        forall|i: int| 0 <= i < lit.len() ==> (#[trigger] lit[i]) != ' ',
    ensures
        spec_tokenize(vocab, lit) == seq![lit],
{
    lemma_assoc_find_mem(vocab.specials(), lit);
    let j = choose|j: int|
        0 <= j < vocab.specials().len() && (#[trigger] vocab.specials()[j]).0 == lit
            && vocab.specials()[j].1 == assoc_find(vocab.specials(), lit).unwrap();
    assert(vocab.specials()[j].0.len() > 0);
    lemma_split_special_whole(vocab.specials(), lit, j);
    let segs = spec_split_on_special(vocab, lit);
    assert(segs =~= seq![lit]) by {
        assert(tagged_view(seq![(lit, true)])[0] == lit);
    }
    assert(seq![lit].drop_last() =~= Seq::<Seq<char>>::empty());
    assert(seq![lit].last() == lit);
    lemma_clean_fixed(lit, true);
    lemma_cjk_pad_fixed(lit);
    lemma_ws_split_no_space(lit);
    assert(spec_normalize_segments(Seq::<Seq<char>>::empty()) == Seq::<Seq<char>>::empty());
    let words = spec_normalize_segments(seq![lit]);
    assert(words == Seq::<Seq<char>>::empty() + seq![lit]);
    assert(words =~= seq![lit]);
    assert(spec_case_fold(vocab, Seq::<Seq<char>>::empty()) == Seq::<Seq<char>>::empty());
    let folded = spec_case_fold(vocab, seq![lit]);
    assert(folded == spec_case_fold(vocab, Seq::<Seq<char>>::empty()).push(lit));
    assert(folded =~= seq![lit]);
    assert(spec_split_words_on_punct(vocab, Seq::<Seq<char>>::empty()) == Seq::<
        Seq<char>,
    >::empty());
    let pieces = spec_split_words_on_punct(vocab, seq![lit]);
    assert(pieces == Seq::<Seq<char>>::empty() + spec_split_on_punct(vocab, lit));
    assert(pieces =~= seq![lit]);
    assert(spec_join_spaces(seq![lit]) == lit);
    assert(spec_tokenize(vocab, lit) == seq![lit]);
}

/// Every piece the pipeline hands out is nonempty and holds no
/// space: the final stage splits the joined pieces on spaces, and
/// such a split only leaves nonempty space-free runs.
pub proof fn lemma_tokenize_pieces_nonempty(vocab: Vocab, text: Seq<char>)
    ensures
        forall|i: int|
            0 <= i < spec_tokenize(vocab, text).len() ==> (#[trigger] spec_tokenize(vocab, text)[
                i
            ]).len() > 0 && crate::split::space_free(spec_tokenize(vocab, text)[i]),
{
    let pieces = spec_split_words_on_punct(
        vocab,
        spec_case_fold(vocab, spec_normalize_segments(spec_split_on_special(vocab, text))),
    );
    crate::split::lemma_ws_split_segments(spec_join_spaces(pieces));
}


/// The id list is as long as the piece list it came from.
proof fn lemma_convert_ids_len(vocab: Vocab, toks: Seq<Seq<char>>)
    ensures
        spec_convert_ids(vocab, toks).len() == toks.len(),
    decreases toks.len(),
{
    if toks.len() > 0 {
        lemma_convert_ids_len(vocab, toks.drop_last());
    }
}

/// Converting pieces to ids and naming them back returns the same
/// pieces, when the vocabulary binds each piece by a distinct id
/// and none is special.
proof fn lemma_pieces_of_convert(vocab: Vocab, toks: Seq<Seq<char>>)
    requires
        distinct_ids(vocab.entries()),
        forall|i: int|
            0 <= i < toks.len() ==> assoc_find(vocab.entries(), #[trigger] toks[i]) is Some,
        forall|i: int| 0 <= i < toks.len() ==> !vocab.spec_is_special(#[trigger] toks[i]),
    ensures
        spec_pieces_of_ids(vocab, spec_convert_ids(vocab, toks), true) == toks,
    decreases toks.len(),
{
    if toks.len() > 0 {
        let dl = toks.drop_last();
        assert forall|i: int|
            0 <= i < dl.len() implies assoc_find(vocab.entries(), #[trigger] dl[i]) is Some
            && !vocab.spec_is_special(dl[i]) by {
            assert(dl[i] == toks[i]);
        }
        lemma_pieces_of_convert(vocab, dl);
        let ids = spec_convert_ids(vocab, toks);
        assert(ids.last() == vocab.spec_token_to_id(toks.last()));
        assert(ids.drop_last() =~= spec_convert_ids(vocab, dl));
        assert(assoc_find(vocab.entries(), toks.last()) is Some);
        lemma_id_round_trip(vocab, toks.last());
        assert(vocab.spec_id_to_token(ids.last()) == toks.last());
        assert(spec_pieces_of_ids(vocab, ids, true) == spec_pieces_of_ids(
            vocab,
            spec_convert_ids(vocab, dl),
            true,
        ).push(toks.last()));
        assert(dl.push(toks.last()) =~= toks);
    }
}

/// Writing out pieces none of which is a continuation piece joins
/// them with single spaces.
proof fn lemma_decode_pieces_join(pieces: Seq<Seq<char>>)
    requires
        forall|i: int| 0 <= i < pieces.len() ==> !is_continuation(#[trigger] pieces[i]),
    ensures
        spec_decode_pieces(pieces) == spec_join_spaces(pieces),
    decreases pieces.len(),
{
    if pieces.len() >= 2 {
        let dl = pieces.drop_last();
        assert forall|i: int| 0 <= i < dl.len() implies !is_continuation(#[trigger] dl[i]) by {
            assert(dl[i] == pieces[i]);
        }
        lemma_decode_pieces_join(dl);
    }
}

/// Id round-trip: pieces the vocabulary binds by distinct ids,
/// none special and none a continuation piece, map to ids that
/// decode back (skipping specials, without cleanup) to the pieces
/// joined by single spaces.
pub proof fn lemma_id_sequence_round_trip(vocab: Vocab, toks: Seq<Seq<char>>)
    requires
        distinct_ids(vocab.entries()),
        forall|i: int|
            0 <= i < toks.len() ==> assoc_find(vocab.entries(), #[trigger] toks[i]) is Some,
        forall|i: int| 0 <= i < toks.len() ==> !vocab.spec_is_special(#[trigger] toks[i]),
        forall|i: int| 0 <= i < toks.len() ==> !is_continuation(#[trigger] toks[i]),
    ensures
        spec_decode(vocab, spec_convert_ids(vocab, toks), true, false) == spec_join_spaces(toks),
{
    lemma_pieces_of_convert(vocab, toks);
    lemma_decode_pieces_join(toks);
}

/// Round-trip through encoding: when the pipeline's pieces for
/// `text` are all bound by distinct ids, none special and none a
/// continuation piece, and they fit the length budget, encoding
/// succeeds and decoding the result (skipping specials, without
/// cleanup) gives the space-joined normalized pieces of `text`.
pub proof fn lemma_encode_decode_round_trip(
    vocab: Vocab,
    text: Seq<char>,
    max_len: nat,
    strategy: TruncationStrategy,
    stride: nat,
)
    requires
        distinct_ids(vocab.entries()),
        spec_tokenize(vocab, text).len() <= max_len,
        forall|i: int|
            0 <= i < spec_tokenize(vocab, text).len() ==> assoc_find(
                vocab.entries(),
                #[trigger] spec_tokenize(vocab, text)[i],
            ) is Some,
        forall|i: int|
            0 <= i < spec_tokenize(vocab, text).len() ==> !vocab.spec_is_special(
                #[trigger] spec_tokenize(vocab, text)[i],
            ),
        forall|i: int|
            0 <= i < spec_tokenize(vocab, text).len() ==> !is_continuation(
                #[trigger] spec_tokenize(vocab, text)[i],
            ),
    ensures
        ({
            let r = spec_encode(vocab, text, None, max_len, strategy, stride);
            &&& r is Ok
            &&& spec_decode(vocab, r.unwrap(), true, false) == spec_join_spaces(
                spec_tokenize(vocab, text),
            )
        }),
{
    let toks = spec_tokenize(vocab, text);
    lemma_convert_ids_len(vocab, toks);
    let ids = spec_convert_ids(vocab, toks);
    assert(spec_truncate(ids, None, 0, strategy, stride) == Ok::<
        (Seq<i64>, Option<Seq<i64>>, Seq<i64>),
        TokenizationError,
    >((ids, None, Seq::empty())));
    assert(spec_build_input(ids, None) =~= ids);
    lemma_id_sequence_round_trip(vocab, toks);
}


/// Joining two nonempty piece lists joins each and puts one space
/// between them.
proof fn lemma_join_concat(a: Seq<Seq<char>>, b: Seq<Seq<char>>)
    requires
        a.len() > 0,
        b.len() > 0,
    ensures
        spec_join_spaces(a + b) == spec_join_spaces(a) + seq![' '] + spec_join_spaces(b),
    decreases b.len(),
{
    if b.len() == 1 {
        assert(a + b =~= a.push(b[0]));
        assert((a.push(b[0])).drop_last() =~= a);
        assert((a.push(b[0])).last() == b[0]);
    } else {
        lemma_join_concat(a, b.drop_last());
        assert((a + b).drop_last() =~= a + b.drop_last());
        assert((a + b).last() == b.last());
        assert(spec_join_spaces(a) + seq![' '] + spec_join_spaces(b.drop_last()) + seq![' ']
            + b.last() =~= spec_join_spaces(a) + seq![' '] + (spec_join_spaces(b.drop_last())
            + seq![' '] + b.last()));
    }
}

/// Any nonempty space-free piece survives the space-join and the
/// whitespace re-split.
proof fn lemma_resplit_contains(pieces: Seq<Seq<char>>, j: int)
    requires
        0 <= j < pieces.len(),
        pieces[j].len() > 0,
        space_free(pieces[j]),
    ensures
        spec_whitespace_split(spec_join_spaces(pieces)).contains(pieces[j]),
{
    let u = pieces.take(j + 1);
    let v = pieces.skip(j + 1);
    let w = pieces[j];
    assert(u.last() == w);
    let state = spec_ws_accum(spec_join_spaces(u));
    if u.len() == 1 {
        assert(spec_join_spaces(u) == w);
        assert(spec_ws_accum(Seq::<char>::empty()) == (
            Seq::<Seq<char>>::empty(),
            Seq::<char>::empty(),
        ));
        lemma_ws_accum_space_free_tail(Seq::<char>::empty(), w);
        assert(Seq::<char>::empty() + w =~= w);
        assert(state == (Seq::<Seq<char>>::empty(), w));
    } else {
        let jdl = spec_join_spaces(u.drop_last());
        assert(spec_join_spaces(u) == jdl + seq![' '] + w);
        lemma_ws_accum_trailing_space(jdl);
        lemma_ws_accum_space_free_tail(jdl + seq![' '], w);
        assert(state == (spec_whitespace_split(jdl), w));
    }
    assert(state.1 == w);
    assert(spec_whitespace_split(spec_join_spaces(u)) == state.0.push(w));
    if v.len() == 0 {
        assert(pieces =~= u);
        let q = spec_whitespace_split(spec_join_spaces(pieces));
        assert(q == state.0.push(w));
        assert(q[state.0.len() as int] == w);
        assert(q.contains(w));
    } else {
        assert(pieces =~= u + v);
        lemma_join_concat(u, v);
        lemma_ws_accum_trailing_space(spec_join_spaces(u));
        let a = spec_join_spaces(u) + seq![' '];
        let b = spec_join_spaces(v);
        assert(a + b =~= spec_join_spaces(pieces));
        lemma_ws_accum_prefix(a, b);
        let p = spec_ws_accum(a).0;
        assert(p == state.0.push(w));
        assert(p[p.len() - 1] == w);
        let q0 = spec_ws_accum(spec_join_spaces(pieces)).0;
        assert(q0.take(p.len() as int)[p.len() - 1] == q0[p.len() - 1]);
        assert(q0[p.len() - 1] == w);
        let q = spec_whitespace_split(spec_join_spaces(pieces));
        if q == q0 {
            assert(q.contains(w));
        } else {
            assert(q == q0.push(spec_ws_accum(spec_join_spaces(pieces)).1));
            assert(q[p.len() - 1] == w);
            assert(q.contains(w));
        }
    }
}

/// A word of one segment's split stands in the combined word list.
proof fn lemma_normalize_contains(segs: Seq<Seq<char>>, j: int, w: Seq<char>)
    requires
        0 <= j < segs.len(),
        spec_whitespace_split(spec_cjk_pad(spec_clean(segs[j], true))).contains(w),
    ensures
        spec_normalize_segments(segs).contains(w),
    decreases segs.len(),
{
    let whole = spec_normalize_segments(segs);
    let left = spec_normalize_segments(segs.drop_last());
    let per = spec_whitespace_split(spec_cjk_pad(spec_clean(segs.last(), true)));
    if j == segs.len() - 1 {
        let i = choose|i: int| 0 <= i < per.len() && per[i] == w;
        assert(whole[left.len() + i] == w);
        assert(whole.contains(w));
    } else {
        assert(segs.drop_last()[j] == segs[j]);
        lemma_normalize_contains(segs.drop_last(), j, w);
        let i = choose|i: int| 0 <= i < left.len() && left[i] == w;
        assert(whole[i] == w);
        assert(whole.contains(w));
    }
}

/// Case folding is elementwise and keeps the length.
proof fn lemma_case_fold_index(vocab: Vocab, words: Seq<Seq<char>>, i: int)
    requires
        0 <= i < words.len(),
    ensures
        spec_case_fold(vocab, words).len() == words.len(),
        spec_case_fold(vocab, words)[i] == spec_fold_word(vocab, words[i]),
    decreases words.len(),
{
    if i == words.len() - 1 {
        lemma_case_fold_len(vocab, words.drop_last());
    } else {
        assert(words.drop_last()[i] == words[i]);
        lemma_case_fold_index(vocab, words.drop_last(), i);
    }
}

/// Case folding keeps the length.
proof fn lemma_case_fold_len(vocab: Vocab, words: Seq<Seq<char>>)
    ensures
        spec_case_fold(vocab, words).len() == words.len(),
    decreases words.len(),
{
    if words.len() > 0 {
        lemma_case_fold_len(vocab, words.drop_last());
    }
}

/// A piece of one word's punctuation split stands in the combined
/// piece list.
proof fn lemma_punct_split_contains(vocab: Vocab, words: Seq<Seq<char>>, j: int, w: Seq<char>)
    requires
        0 <= j < words.len(),
        spec_split_on_punct(vocab, words[j]).contains(w),
    ensures
        spec_split_words_on_punct(vocab, words).contains(w),
    decreases words.len(),
{
    let whole = spec_split_words_on_punct(vocab, words);
    let left = spec_split_words_on_punct(vocab, words.drop_last());
    let per = spec_split_on_punct(vocab, words.last());
    if j == words.len() - 1 {
        let i = choose|i: int| 0 <= i < per.len() && per[i] == w;
        assert(whole[left.len() + i] == w);
        assert(whole.contains(w));
    } else {
        assert(words.drop_last()[j] == words[j]);
        lemma_punct_split_contains(vocab, words.drop_last(), j, w);
        let i = choose|i: int| 0 <= i < left.len() && left[i] == w;
        assert(whole[i] == w);
        assert(whole.contains(w));
    }
}

/// The longest special literal standing at position `k` of `text`.
pub open spec fn matched_special(vocab: Vocab, text: Seq<char>, k: int) -> Seq<char> {
    text.skip(k).take(best_special_len(vocab.specials(), text.skip(k)) as int)
}

/// Special-token preservation: when a special literal occurs at
/// the first position of `text` where any special literal matches,
/// and the matched literal holds no space, no CJK ideograph and no
/// codepoint the cleaner replaces, then that literal comes out of
/// the pipeline as a piece of its own.
pub proof fn lemma_special_token_occurrence_preserved(vocab: Vocab, text: Seq<char>, k: int)
    requires
        vocab.wf(),
        0 <= k < text.len(),
        forall|p: int|
            0 <= p < k ==> best_special_len(vocab.specials(), #[trigger] text.skip(p)) == 0,
        best_special_len(vocab.specials(), text.skip(k)) > 0,
        forall|i: int|
            0 <= i < matched_special(vocab, text, k).len() ==> spec_cleaned_char(
                #[trigger] matched_special(vocab, text, k)[i],
                true,
            ) == matched_special(vocab, text, k)[i],
        forall|i: int|
            0 <= i < matched_special(vocab, text, k).len() ==> !is_cjk_char(
                #[trigger] matched_special(vocab, text, k)[i],
            ),
        forall|i: int|
            0 <= i < matched_special(vocab, text, k).len() ==> (#[trigger] matched_special(
                vocab,
                text,
                k,
            )[i]) != ' ',
    ensures
        spec_tokenize(vocab, text).contains(matched_special(vocab, text, k)),
{
    let lit = matched_special(vocab, text, k);
    let l = best_special_len(vocab.specials(), text.skip(k)) as int;
    lemma_split_special_occurrence(vocab.specials(), text, k);
    lemma_best_special_len_witness(vocab.specials(), text.skip(k));
    let jw = choose|jw: int|
        0 <= jw < vocab.specials().len() && (#[trigger] vocab.specials()[jw]).0 == text.skip(
            k,
        ).take(l);
    lemma_assoc_find_present(vocab.specials(), jw);
    assert(vocab.spec_is_special(lit));
    assert(lit.len() > 0);
    let segs = spec_split_on_special(vocab, text);
    let rest = spec_split_special(vocab.specials(), text.skip(k + l));
    let idx: int = if k == 0 { 0 } else { 1 };
    assert(segs[idx] == lit) by {
        if k == 0 {
            assert(spec_split_special(vocab.specials(), text)[0] == (lit, true));
        } else {
            assert(spec_split_special(vocab.specials(), text)[1] == (lit, true));
        }
    }
    lemma_clean_fixed(lit, true);
    lemma_cjk_pad_fixed(lit);
    lemma_ws_split_no_space(lit);
    assert(spec_whitespace_split(spec_cjk_pad(spec_clean(segs[idx], true))) == seq![lit]);
    assert(seq![lit][0] == lit);
    assert(seq![lit].contains(lit));
    assert(idx < segs.len()) by {
        assert(tagged_view(spec_split_special(vocab.specials(), text)).len()
            == spec_split_special(vocab.specials(), text).len());
    }
    lemma_normalize_contains(segs, idx, lit);
    let words = spec_normalize_segments(segs);
    let iw = choose|iw: int| 0 <= iw < words.len() && words[iw] == lit;
    lemma_case_fold_index(vocab, words, iw);
    let folded = spec_case_fold(vocab, words);
    assert(folded[iw] == lit);
    assert(spec_split_on_punct(vocab, lit) == seq![lit]);
    lemma_punct_split_contains(vocab, folded, iw, lit);
    let pieces = spec_split_words_on_punct(vocab, folded);
    let ip = choose|ip: int| 0 <= ip < pieces.len() && pieces[ip] == lit;
    lemma_resplit_contains(pieces, ip);
}

/// Determinism: what every operation returns is fixed by the
/// vocabulary, the input, the length budget, the strategy and the
/// stride alone, so two results of the same call coincide whatever
/// scheduling produced them.
pub proof fn lemma_encode_deterministic(
    vocab: Vocab,
    text_1: Seq<char>,
    text_2: Option<Seq<char>>,
    max_len: nat,
    strategy: TruncationStrategy,
    stride: nat,
    r1: Result<Seq<i64>, TokenizationError>,
    r2: Result<Seq<i64>, TokenizationError>,
)
    requires
        r1 == spec_encode(vocab, text_1, text_2, max_len, strategy, stride),
        r2 == spec_encode(vocab, text_1, text_2, max_len, strategy, stride),
    ensures
        r1 == r2,
{
}

} // verus!
