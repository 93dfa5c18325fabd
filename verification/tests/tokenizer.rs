use gpt_encoder::{bytes_to_unicode, get_pairs, Encoder, TokenizerError};

/// A vocabulary holding every single byte symbol, with the byte value as id.
fn byte_vocab() -> Vec<(String, u64)> {
    let map = bytes_to_unicode();
    let mut vocab = Vec::new();
    for b in 0..=255u8 {
        vocab.push((map[&b].to_string(), b as u64));
    }
    vocab
}

fn strs(pairs: &[(&str, &str)]) -> Vec<(String, String)> {
    pairs.iter().map(|(a, b)| (a.to_string(), b.to_string())).collect()
}

#[test]
fn construction_rejects_duplicate_strings() {
    let vocab = vec![("a".to_string(), 1u64), ("a".to_string(), 2u64)];
    assert!(matches!(
        Encoder::new(vocab, Vec::new()),
        Err(TokenizerError::MalformedVocabularyData)
    ));
}

#[test]
fn construction_rejects_duplicate_ids() {
    let vocab = vec![("a".to_string(), 1u64), ("b".to_string(), 1u64)];
    assert!(matches!(
        Encoder::new(vocab, Vec::new()),
        Err(TokenizerError::MalformedVocabularyData)
    ));
}

#[test]
fn a_single_space_is_one_token() {
    // The space byte maps to the symbol U+0120; give it the id the pretrained GPT-2 vocabulary uses.
    let vocab = vec![("\u{120}".to_string(), 220u64)];
    let mut enc = Encoder::new(vocab, Vec::new()).unwrap();
    assert_eq!(enc.encode(" ".to_string()), vec![220]);
}

#[test]
fn a_tab_is_one_token() {
    // The tab byte maps to the symbol U+0109; give it the id the pretrained GPT-2 vocabulary uses.
    let vocab = vec![("\u{109}".to_string(), 197u64)];
    let mut enc = Encoder::new(vocab, Vec::new()).unwrap();
    assert_eq!(enc.encode("\t".to_string()), vec![197]);
}

#[test]
fn merges_apply_everywhere_in_one_pass() {
    let mut vocab = byte_vocab();
    vocab.push(("ab".to_string(), 1000));
    let merges = strs(&[("a", "b")]);
    let mut enc = Encoder::new(vocab, merges).unwrap();
    assert_eq!(enc.encode("abab".to_string()), vec![1000, 1000]);
}

#[test]
fn lower_rank_merges_first() {
    let mut vocab = byte_vocab();
    vocab.push(("bc".to_string(), 1000));
    vocab.push(("ab".to_string(), 1001));
    vocab.push(("abc".to_string(), 1002));

    // Rank 0 is (b, c): "abc" becomes ["a", "bc"], and no pair (a, bc) is
    // trained, so the word stays split.
    let mut enc = Encoder::new(vocab.clone(), strs(&[("b", "c"), ("a", "b")])).unwrap();
    assert_eq!(enc.encode("abc".to_string()), vec![b'a' as u64, 1000]);

    // Rank 0 is (a, b): "abc" becomes ["ab", "c"], then (ab, c) merges too.
    let mut enc2 = Encoder::new(vocab, strs(&[("a", "b"), ("ab", "c")])).unwrap();
    assert_eq!(enc2.encode("abc".to_string()), vec![1002]);
}

#[test]
fn merged_symbols_without_an_entry_are_dropped() {
    // "ab" merges, but the vocabulary has no entry for it: the piece is
    // silently dropped, by design.
    let vocab = vec![("a".to_string(), 1u64), ("b".to_string(), 2u64)];
    let merges = strs(&[("a", "b")]);
    let mut enc = Encoder::new(vocab, merges).unwrap();
    assert_eq!(enc.encode("ab".to_string()), Vec::<u64>::new());
    assert_eq!(enc.encode("ba".to_string()), vec![2, 1]);
}

#[test]
fn bpe_is_idempotent_across_the_cache() {
    let mut enc = Encoder::new(byte_vocab(), strs(&[("a", "b"), ("ab", "c")])).unwrap();
    let first = enc.bpe("abcabc".to_string());
    let second = enc.bpe("abcabc".to_string());
    assert_eq!(first, "abc abc");
    assert_eq!(first, second);
}

#[test]
fn encode_is_deterministic() {
    let mut enc = Encoder::new(byte_vocab(), strs(&[("a", "b")])).unwrap();
    let a = enc.encode("to be or not to be".to_string());
    let b = enc.encode("to be or not to be".to_string());
    assert_eq!(a, b);
}

#[test]
fn decode_rejects_unknown_ids() {
    let enc = Encoder::new(byte_vocab(), Vec::new()).unwrap();
    assert_eq!(enc.decode(vec![99999]), Err(TokenizerError::UnknownTokenId));
}

#[test]
fn decode_rejects_symbols_outside_the_mapping() {
    // A raw space never appears as a symbol character: no byte maps to it.
    let vocab = vec![(" ".to_string(), 1u64)];
    let enc = Encoder::new(vocab, Vec::new()).unwrap();
    assert_eq!(enc.decode(vec![1]), Err(TokenizerError::InvalidSymbol));
}

#[test]
fn decode_rejects_invalid_utf8() {
    // The symbol for byte 0xFF alone decodes to a lone continuation byte.
    let vocab = vec![("\u{ff}".to_string(), 1u64)];
    let enc = Encoder::new(vocab, Vec::new()).unwrap();
    assert_eq!(enc.decode(vec![1]), Err(TokenizerError::InvalidUtf8));
}

#[test]
fn round_trip_over_the_byte_vocabulary() {
    let mut enc = Encoder::new(byte_vocab(), Vec::new()).unwrap();
    for text in [
        " ",
        "\t",
        "This is some text",
        "indivisible",
        "hello \u{1F44B} world \u{1F30D}",
        "toString constructor hasOwnProperty valueOf",
    ] {
        let ids = enc.encode(text.to_string());
        assert_eq!(enc.decode(ids), Ok(text.to_string()));
    }
}

#[test]
fn round_trip_with_merges() {
    let mut vocab = byte_vocab();
    vocab.push(("ab".to_string(), 1000));
    vocab.push(("\u{120}a".to_string(), 1001));
    let merges = strs(&[("a", "b"), ("\u{120}", "a")]);
    let mut enc = Encoder::new(vocab, merges).unwrap();
    let ids = enc.encode("ab ab cab".to_string());
    assert_eq!(enc.decode(ids), Ok("ab ab cab".to_string()));
}

#[test]
fn get_pairs_lists_adjacent_pairs_in_order() {
    let word: Vec<String> = ["h", "e", "l", "l", "o"].iter().map(|s| s.to_string()).collect();
    let pairs = get_pairs(&word);
    let expected: Vec<(String, String)> =
        strs(&[("h", "e"), ("e", "l"), ("l", "l"), ("l", "o")]);
    assert_eq!(pairs, expected);
}

#[test]
fn empty_text_and_empty_ids() {
    let mut enc = Encoder::new(byte_vocab(), Vec::new()).unwrap();
    assert_eq!(enc.encode(String::new()), Vec::<u64>::new());
    assert_eq!(enc.decode(Vec::new()), Ok(String::new()));
}

#[test]
fn single_symbol_chunks_are_terminal() {
    let mut enc = Encoder::new(byte_vocab(), strs(&[("a", "b")])).unwrap();
    assert_eq!(enc.bpe("a".to_string()), "a");
    assert_eq!(enc.encode("a".to_string()), vec![b'a' as u64]);
}
