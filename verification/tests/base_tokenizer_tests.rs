use rust_tokenizers::BaseTokenizer;
use rust_tokenizers::TruncationStrategy;
use rust_tokenizers::Vocab;

fn generate_test_vocab() -> Vocab {
    let values: Vec<(String, i64)> = vec![
        ("hello".to_string(), 0),
        ("world".to_string(), 1),
        ("[UNK]".to_string(), 2),
        ("!".to_string(), 3),
        ("[CLS]".to_string(), 4),
        ("[SEP]".to_string(), 5),
        ("[MASK]".to_string(), 6),
        ("中".to_string(), 7),
        ("华".to_string(), 8),
        ("人".to_string(), 9),
        ("[PAD]".to_string(), 10),
        ("una".to_string(), 11),
        ("##ffa".to_string(), 12),
        ("##ble".to_string(), 13),
    ];

    let special_values: Vec<(String, i64)> = vec![
        ("[UNK]".to_string(), 2),
        ("[CLS]".to_string(), 4),
        ("[SEP]".to_string(), 5),
        ("[MASK]".to_string(), 6),
        ("[PAD]".to_string(), 10),
    ];

    Vocab::new(values, "[UNK]".to_string(), special_values).unwrap()
}

#[test]
fn test_base_tokenizer() {
    //        Given
    let vocab = generate_test_vocab();
    let base_tokenizer: BaseTokenizer = BaseTokenizer::from_existing_vocab(vocab);
    let test_tuples = [
        (
            "Sentence with [MASK] token.",
            vec!["sentence", "with", "[MASK]", "token", "."],
        ),
        (
            "[CLS]Sentence with [MASK] token.",
            vec!["[CLS]", "sentence", "with", "[MASK]", "token", "."],
        ),
        ("[CLS]", vec!["[CLS]"]),
        ("[CLS] [PAD]", vec!["[CLS]", "[PAD]"]),
        ("[CLS]       [PAD]", vec!["[CLS]", "[PAD]"]),
        ("asdf[CLS]", vec!["asdf", "[CLS]"]),
        ("", vec![]),
        (
            "Allons, Flipote, allons; que d'eux je me délivre.",
            vec![
                "allons", ",", "flipote", ",", "allons", ";", "que", "d", "'", "eux", "je", "me",
                "delivre", ".",
            ],
        ),
        (
            "[UNK]中华人民共和国 [PAD] asdf",
            vec![
                "[UNK]", "中", "华", "人", "民", "共", "和", "国", "[PAD]", "asdf",
            ],
        ),
    ];
    let source_texts: Vec<&str> = test_tuples.iter().map(|v| v.0).collect();
    let expected_results: Vec<Vec<&str>> = test_tuples.iter().map(|v| v.1.clone()).collect();

    //        When & Then
    for (source_text, expected_result) in test_tuples.iter() {
        assert_eq!(base_tokenizer.tokenize(*source_text), *expected_result);
    }

    assert_eq!(base_tokenizer.tokenize_list(source_texts), expected_results);
}

#[test]
fn test_convert_tokens_to_ids() {
    //        Given
    let vocab = generate_test_vocab();
    let base_tokenizer: BaseTokenizer = BaseTokenizer::from_existing_vocab(vocab);
    let test_tuples = [
        (vec!["hello", "[MASK]", "world", "!"], vec![0, 6, 1, 3]),
        (
            vec!["hello", ",", "una", "##ffa", "##ble", "world", "!"],
            vec![0, 2, 11, 12, 13, 1, 3],
        ),
        (
            vec![
                "[UNK]", "[UNK]", "华", "[UNK]", "[UNK]", "[UNK]", "[UNK]", "[UNK]", "[PAD]",
                "[UNK]",
            ],
            vec![2, 2, 8, 2, 2, 2, 2, 2, 10, 2],
        ),
    ];

    //        When & Then
    for (source_text, expected_result) in test_tuples.iter() {
        assert_eq!(
            base_tokenizer.convert_tokens_to_ids(
                source_text
                    .iter()
                    .map(|v| String::from(*v))
                    .collect::<Vec<_>>()
                    .as_ref()
            ),
            *expected_result
        );
    }
}

#[test]
fn test_encode_single_sentence() {
    //        Given
    let vocab = generate_test_vocab();
    let base_tokenizer: BaseTokenizer = BaseTokenizer::from_existing_vocab(vocab);
    let truncation_strategy = TruncationStrategy::LongestFirst;
    let test_tuples = [
        ("hello[MASK] world!", vec![0, 6, 1, 3]),
        ("hello, unaffable world!", vec![0, 2, 2, 1, 3]),
        (
            "[UNK]中华人民共和国 [PAD] asdf",
            vec![2, 7, 8, 9, 2, 2, 2, 2, 10, 2],
        ),
        (
            "[UNK] a ! c ! e ! g ! i ! [PAD] a ! c ! e ! g ! i !",
            vec![2, 2, 3, 2, 3, 2, 3, 2, 3, 2],
        ),
    ];
    let source_texts: Vec<&str> = test_tuples.iter().map(|v| v.0).collect();
    let expected_results: Vec<Vec<i64>> = test_tuples.iter().map(|v| v.1.clone()).collect();

    //        When & Then
    for (source_text, expected_result) in test_tuples.iter() {
        assert_eq!(
            base_tokenizer
                .encode(source_text, None, 10, &truncation_strategy, 0)
                .unwrap(),
            *expected_result
        );
    }
    assert_eq!(
        base_tokenizer
            .encode_list(source_texts, 10, &truncation_strategy, 0)
            .unwrap(),
        expected_results
    );
}

#[test]
fn test_encode_sentence_pair() {
    //        Given
    let vocab = generate_test_vocab();
    let base_tokenizer: BaseTokenizer = BaseTokenizer::from_existing_vocab(vocab);
    let truncation_strategy = TruncationStrategy::LongestFirst;
    let test_tuples = [
        //            No truncation required
        (
            ("hello[MASK] world!", "This is the second sentence"),
            vec![0, 6, 1, 3, 2, 2, 2, 2, 2],
        ),
        //            Truncation of sentence 2 (longest)
        (
            ("hello[MASK] world!", "!This is the second sentence!!!"),
            vec![0, 6, 1, 3, 3, 2, 2, 2, 2, 2],
        ),
        //            Truncation of sentence 1 (longest)
        (
            (
                "[UNK] hello  hello  hello  hello  hello  hello  hello  hello  hello  hello  hello",
                "!!!",
            ),
            vec![2, 0, 0, 0, 0, 0, 0, 3, 3, 3],
        ),
        //            Truncation of both sentences (longest)
        (
            ("[UNK] hello  hello  hello  hello  hello", "!!!!!!!!"),
            vec![2, 0, 0, 0, 0, 3, 3, 3, 3, 3],
        ),
    ];
    let source_texts: Vec<(&str, &str)> = test_tuples.iter().map(|v| v.0).collect();
    let expected_results: Vec<Vec<i64>> = test_tuples.iter().map(|v| v.1.clone()).collect();

    //        When & Then
    for (source_text, expected_result) in test_tuples.iter() {
        assert_eq!(
            base_tokenizer
                .encode(source_text.0, Some(source_text.1), 10, &truncation_strategy, 0)
                .unwrap(),
            *expected_result
        );
    }
    assert_eq!(
        base_tokenizer
            .encode_pair_list(source_texts, 10, &truncation_strategy, 0)
            .unwrap(),
        expected_results
    );
}
