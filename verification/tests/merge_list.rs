use gpt_encoder::{parse_merges, TokenizerError};

fn owned(pairs: &[(&str, &str)]) -> Vec<(String, String)> {
    pairs.iter().map(|(a, b)| (a.to_string(), b.to_string())).collect()
}

#[test]
fn lines_after_the_header_become_ranked_pairs() {
    let parsed = parse_merges("#version: 0.2\nt h\nth e\n");
    assert_eq!(parsed, Ok(owned(&[("t", "h"), ("th", "e")])));
}

#[test]
fn a_header_alone_gives_no_pairs() {
    assert_eq!(parse_merges("#version: 0.2\n"), Ok(Vec::new()));
    assert_eq!(parse_merges("#version: 0.2"), Ok(Vec::new()));
    assert_eq!(parse_merges(""), Ok(Vec::new()));
}

#[test]
fn parsing_stops_at_the_first_blank_line() {
    let parsed = parse_merges("#v\na b\n\nc d\n");
    assert_eq!(parsed, Ok(owned(&[("a", "b")])));
}

#[test]
fn the_last_line_may_lack_a_newline() {
    let parsed = parse_merges("#v\na b\nc d");
    assert_eq!(parsed, Ok(owned(&[("a", "b"), ("c", "d")])));
}

#[test]
fn only_the_first_two_fields_of_a_line_count() {
    let parsed = parse_merges("#v\na b c\n");
    assert_eq!(parsed, Ok(owned(&[("a", "b")])));
}

#[test]
fn a_line_without_a_space_is_malformed() {
    assert_eq!(parse_merges("#v\nab\n"), Err(TokenizerError::MalformedVocabularyData));
}

#[test]
fn parsed_merges_drive_the_engine() {
    let merges = parse_merges("#version: 0.2\na b\nab c\n").unwrap();
    let vocab = vec![("abc".to_string(), 7u64)];
    let mut enc = gpt_encoder::Encoder::new(vocab, merges).unwrap();
    assert_eq!(enc.encode("abc".to_string()), vec![7]);
}
