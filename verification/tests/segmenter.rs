use gpt_encoder::segment;

fn seg(text: &str) -> Vec<String> {
    segment(text)
}

#[test]
fn words_carry_their_leading_space() {
    assert_eq!(seg("This is some text"), vec!["This", " is", " some", " text"]);
}

#[test]
fn empty_text_has_no_chunks() {
    assert_eq!(seg(""), Vec::<String>::new());
}

#[test]
fn contractions_split_off() {
    assert_eq!(seg("can't"), vec!["can", "'t"]);
    assert_eq!(seg("I'm we're you've he'll she'd it's"), vec![
        "I", "'m", " we", "'re", " you", "'ve", " he", "'ll", " she", "'d", " it", "'s",
    ]);
}

#[test]
fn an_apostrophe_without_a_contraction_is_punctuation() {
    assert_eq!(seg("'rat"), vec!["'", "rat"]);
    assert_eq!(seg("rock 'n roll"), vec!["rock", " '", "n", " roll"]);
}

#[test]
fn digit_and_punctuation_runs() {
    assert_eq!(seg("abc123"), vec!["abc", "123"]);
    assert_eq!(seg("x = 42!"), vec!["x", " =", " 42", "!"]);
}

#[test]
fn whitespace_runs_form_their_own_chunk() {
    assert_eq!(seg("a  b"), vec!["a", "  ", "b"]);
    assert_eq!(seg("a \tb"), vec!["a", " \t", "b"]);
    assert_eq!(seg("x "), vec!["x", " "]);
    assert_eq!(seg(" "), vec![" "]);
    assert_eq!(seg("\t"), vec!["\t"]);
}

#[test]
fn non_ascii_text_is_tiled_exactly() {
    let text = "hello \u{1F44B} world \u{1F30D}";
    let chunks = seg(text);
    assert_eq!(chunks, vec!["hello", " \u{1F44B}", " world", " \u{1F30D}"]);
    assert_eq!(chunks.concat(), text);
}

#[test]
fn chunks_always_tile_the_input() {
    for text in ["", "a", "Mr. O'Neill paid $12.50... twice!", "  x  ", "\u{120}\u{109}\u{143}"] {
        let chunks = seg(text);
        assert_eq!(chunks.concat(), text);
        assert!(chunks.iter().all(|c| !c.is_empty()));
    }
}
