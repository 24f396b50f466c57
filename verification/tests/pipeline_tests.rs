use rust_tokenizers::BaseTokenizer;
use rust_tokenizers::TokenizationError;
use rust_tokenizers::TruncationStrategy;
use rust_tokenizers::Vocab;
use rust_tokenizers::VocabularyError;
use rust_tokenizers::truncation::truncate_sequences;

fn small_vocab() -> Vocab {
    let values: Vec<(String, i64)> = vec![
        ("hello".to_string(), 0),
        ("world".to_string(), 1),
        ("[UNK]".to_string(), 2),
        ("!".to_string(), 3),
        ("[MASK]".to_string(), 6),
        ("[PAD]".to_string(), 10),
    ];
    let special_values: Vec<(String, i64)> =
        vec![("[UNK]".to_string(), 2), ("[MASK]".to_string(), 6), ("[PAD]".to_string(), 10)];
    Vocab::new(values, "[UNK]".to_string(), special_values).unwrap()
}

#[test]
fn test_vocab_missing_unknown_token() {
    let values: Vec<(String, i64)> = vec![("hello".to_string(), 0)];
    let result = Vocab::new(values, "[UNK]".to_string(), vec![]);
    assert_eq!(result.unwrap_err(), VocabularyError::MissingUnknownToken);
}

#[test]
fn test_vocab_empty_special_token() {
    let values: Vec<(String, i64)> =
        vec![("[UNK]".to_string(), 0), ("".to_string(), 1)];
    let specials: Vec<(String, i64)> = vec![("".to_string(), 1)];
    let result = Vocab::new(values, "[UNK]".to_string(), specials);
    assert_eq!(result.unwrap_err(), VocabularyError::EmptySpecialToken);
}

#[test]
fn test_vocab_special_not_in_vocabulary() {
    let values: Vec<(String, i64)> = vec![("[UNK]".to_string(), 0)];
    let specials: Vec<(String, i64)> = vec![("[CLS]".to_string(), 4)];
    let result = Vocab::new(values, "[UNK]".to_string(), specials);
    assert_eq!(
        result.unwrap_err(),
        VocabularyError::SpecialTokenNotInVocabulary
    );
}

#[test]
fn test_vocab_special_with_wrong_id() {
    let values: Vec<(String, i64)> =
        vec![("[UNK]".to_string(), 0), ("[CLS]".to_string(), 4)];
    let specials: Vec<(String, i64)> = vec![("[CLS]".to_string(), 5)];
    let result = Vocab::new(values, "[UNK]".to_string(), specials);
    assert_eq!(
        result.unwrap_err(),
        VocabularyError::SpecialTokenNotInVocabulary
    );
}

#[test]
fn test_token_id_round_trip() {
    let vocab = small_vocab();
    let hello: Vec<char> = "hello".chars().collect();
    let id = vocab.token_to_id(&hello);
    assert_eq!(id, 0);
    assert_eq!(vocab.id_to_token(id), "hello".to_string());
    let mask: Vec<char> = "[MASK]".chars().collect();
    assert_eq!(vocab.id_to_token(vocab.token_to_id(&mask)), "[MASK]".to_string());
}

#[test]
fn test_unknown_piece_gets_unknown_id() {
    let vocab = small_vocab();
    let missing: Vec<char> = "missing".chars().collect();
    assert_eq!(vocab.token_to_id(&missing), 2);
    // an id no entry carries maps to the unknown piece
    assert_eq!(vocab.id_to_token(999), "[UNK]".to_string());
}

#[test]
fn test_truncate_longest_first_conservation() {
    let r = truncate_sequences(
        vec![1, 2, 3, 4, 5],
        Some(vec![6, 7]),
        3,
        &TruncationStrategy::LongestFirst,
        0,
    )
    .unwrap();
    assert_eq!(r.0, vec![1, 2]);
    assert_eq!(r.1, Some(vec![6, 7]));
    assert_eq!(r.2, vec![3, 4, 5]);
    // retained plus removed equals the original token count
    assert_eq!(r.0.len() + r.1.as_ref().unwrap().len() + 3, 5 + 2);
}

#[test]
fn test_truncate_with_stride() {
    let r = truncate_sequences(
        vec![1, 2, 3, 4, 5],
        None,
        2,
        &TruncationStrategy::OnlyFirst,
        2,
    )
    .unwrap();
    assert_eq!(r.0, vec![1, 2, 3]);
    assert_eq!(r.1, None);
    // the last two retained pieces stand in front of the dropped ones
    assert_eq!(r.2, vec![2, 3, 4, 5]);
}

#[test]
fn test_truncate_stride_longer_than_retained() {
    let r = truncate_sequences(vec![1, 2], None, 1, &TruncationStrategy::OnlyFirst, 5).unwrap();
    assert_eq!(r.0, vec![1]);
    // the stride window covers all of what was retained
    assert_eq!(r.2, vec![1, 2]);
}

#[test]
fn test_encode_empty_input() {
    let tokenizer = BaseTokenizer::from_existing_vocab(small_vocab());
    let r = tokenizer
        .encode("", None, 0, &TruncationStrategy::LongestFirst, 0)
        .unwrap();
    assert_eq!(r, Vec::<i64>::new());
}

#[test]
fn test_truncate_only_second() {
    let r = truncate_sequences(
        vec![1, 2],
        Some(vec![6, 7, 8]),
        1,
        &TruncationStrategy::OnlySecond,
        0,
    )
    .unwrap();
    assert_eq!(r.0, vec![1, 2]);
    assert_eq!(r.1, Some(vec![6, 7]));
    assert_eq!(r.2, vec![8]);
    let missing_second =
        truncate_sequences(vec![1, 2], None, 1, &TruncationStrategy::OnlySecond, 0);
    assert_eq!(missing_second.unwrap_err(), TokenizationError::Overflow);
}

#[test]
fn test_truncate_do_not_truncate() {
    let ok = truncate_sequences(
        vec![1, 2],
        None,
        0,
        &TruncationStrategy::DoNotTruncate,
        0,
    )
    .unwrap();
    assert_eq!(ok.0, vec![1, 2]);
    assert_eq!(ok.2, vec![]);
    let over = truncate_sequences(
        vec![1, 2],
        None,
        1,
        &TruncationStrategy::DoNotTruncate,
        0,
    );
    assert_eq!(over.unwrap_err(), TokenizationError::Overflow);
}

#[test]
fn test_truncate_insufficient_tokens() {
    let r = truncate_sequences(
        vec![1, 2],
        Some(vec![3]),
        4,
        &TruncationStrategy::LongestFirst,
        0,
    );
    assert_eq!(r.unwrap_err(), TokenizationError::Overflow);
    let r = truncate_sequences(vec![1, 2], None, 3, &TruncationStrategy::OnlyFirst, 0);
    assert_eq!(r.unwrap_err(), TokenizationError::Overflow);
}

#[test]
fn test_encode_do_not_truncate_overflow() {
    let tokenizer = BaseTokenizer::from_existing_vocab(small_vocab());
    let r = tokenizer.encode(
        "hello hello hello",
        None,
        2,
        &TruncationStrategy::DoNotTruncate,
        0,
    );
    assert_eq!(r.unwrap_err(), TokenizationError::Overflow);
}

#[test]
fn test_cleaning_and_whitespace() {
    let tokenizer = BaseTokenizer::from_existing_vocab(small_vocab());
    // control characters and the replacement character become spaces
    assert_eq!(tokenizer.tokenize("a\u{0}b"), vec!["a", "b"]);
    assert_eq!(tokenizer.tokenize("x\u{fffd}y"), vec!["x", "y"]);
    assert_eq!(tokenizer.tokenize("a\tb\nc"), vec!["a", "b", "c"]);
    // whitespace-only input yields no pieces
    assert_eq!(tokenizer.tokenize("     "), Vec::<String>::new());
}

#[test]
fn test_lowercase_and_accents() {
    let tokenizer = BaseTokenizer::from_existing_vocab(small_vocab());
    assert_eq!(tokenizer.tokenize("Hello WORLD"), vec!["hello", "world"]);
    assert_eq!(tokenizer.tokenize("tokénized"), vec!["tokenized"]);
}

#[test]
fn test_unicode_punctuation_splits() {
    let tokenizer = BaseTokenizer::from_existing_vocab(small_vocab());
    // guillemets are Unicode punctuation outside the ASCII ranges
    assert_eq!(
        tokenizer.tokenize("a\u{ab}b\u{bb}c"),
        vec!["a", "\u{ab}", "b", "\u{bb}", "c"]
    );
}

#[test]
fn test_special_token_kept_whole() {
    let tokenizer = BaseTokenizer::from_existing_vocab(small_vocab());
    assert_eq!(
        tokenizer.tokenize("x[MASK]y"),
        vec!["x", "[MASK]", "y"]
    );
    // the literal is not lowercased, not split at its brackets
    assert_eq!(tokenizer.tokenize("[MASK]"), vec!["[MASK]"]);
}

#[test]
fn test_batch_matches_single_calls() {
    let tokenizer = BaseTokenizer::from_existing_vocab(small_vocab());
    let texts = vec!["hello world!", "world [MASK] hello", "!!"];
    let strategy = TruncationStrategy::LongestFirst;
    let batch = tokenizer
        .encode_list(texts.clone(), 16, &strategy, 0)
        .unwrap();
    let singles: Vec<Vec<i64>> = texts
        .iter()
        .map(|t| tokenizer.encode(t, None, 16, &strategy, 0).unwrap())
        .collect();
    assert_eq!(batch, singles);
    let token_batch = tokenizer.tokenize_list(texts.clone());
    let token_singles: Vec<Vec<String>> = texts.iter().map(|t| tokenizer.tokenize(t)).collect();
    assert_eq!(token_batch, token_singles);
}

#[test]
fn test_batch_returns_first_error() {
    let tokenizer = BaseTokenizer::from_existing_vocab(small_vocab());
    let texts = vec!["hello", "hello hello hello", "world"];
    let r = tokenizer.encode_list(texts, 2, &TruncationStrategy::DoNotTruncate, 0);
    assert_eq!(r.unwrap_err(), TokenizationError::Overflow);
}

#[test]
fn test_encoding_is_deterministic() {
    let tokenizer = BaseTokenizer::from_existing_vocab(small_vocab());
    let strategy = TruncationStrategy::LongestFirst;
    let first = tokenizer.encode("hello [MASK] world!", None, 6, &strategy, 1);
    let second = tokenizer.encode("hello [MASK] world!", None, 6, &strategy, 1);
    assert_eq!(first, second);
}

fn wordpiece_vocab() -> Vocab {
    let values: Vec<(String, i64)> = vec![
        ("hello".to_string(), 0),
        ("world".to_string(), 1),
        ("[UNK]".to_string(), 2),
        ("!".to_string(), 3),
        ("[CLS]".to_string(), 4),
        ("[PAD]".to_string(), 10),
        ("una".to_string(), 11),
        ("##ffa".to_string(), 12),
        ("##ble".to_string(), 13),
    ];
    let special_values: Vec<(String, i64)> = vec![
        ("[UNK]".to_string(), 2),
        ("[CLS]".to_string(), 4),
        ("[PAD]".to_string(), 10),
    ];
    Vocab::new(values, "[UNK]".to_string(), special_values).unwrap()
}

#[test]
fn test_decode_continuation_pieces() {
    let tokenizer = BaseTokenizer::from_existing_vocab(wordpiece_vocab());
    assert_eq!(
        tokenizer.decode(&vec![11, 12, 13, 1], false, false),
        "unaffable world".to_string()
    );
}

#[test]
fn test_decode_skip_special_tokens() {
    let tokenizer = BaseTokenizer::from_existing_vocab(wordpiece_vocab());
    assert_eq!(
        tokenizer.decode(&vec![4, 0, 10], false, false),
        "[CLS] hello [PAD]".to_string()
    );
    assert_eq!(tokenizer.decode(&vec![4, 0, 10], true, false), "hello".to_string());
}

#[test]
fn test_decode_cleans_spaces() {
    let tokenizer = BaseTokenizer::from_existing_vocab(wordpiece_vocab());
    assert_eq!(
        tokenizer.decode(&vec![0, 3], false, false),
        "hello !".to_string()
    );
    assert_eq!(tokenizer.decode(&vec![0, 3], false, true), "hello!".to_string());
}

#[test]
fn test_decode_encode_round_trip() {
    let tokenizer = BaseTokenizer::from_existing_vocab(wordpiece_vocab());
    let ids = tokenizer
        .encode("Hello  world", None, 16, &TruncationStrategy::LongestFirst, 0)
        .unwrap();
    assert_eq!(tokenizer.decode(&ids, true, false), "hello world".to_string());
}

#[test]
fn test_empty_batches() {
    let tokenizer = BaseTokenizer::from_existing_vocab(small_vocab());
    let strategy = TruncationStrategy::LongestFirst;
    assert_eq!(tokenizer.tokenize_list(vec![]), Vec::<Vec<String>>::new());
    assert_eq!(
        tokenizer.encode_list(vec![], 8, &strategy, 0).unwrap(),
        Vec::<Vec<i64>>::new()
    );
    assert_eq!(
        tokenizer.encode_pair_list(vec![], 8, &strategy, 0).unwrap(),
        Vec::<Vec<i64>>::new()
    );
}
