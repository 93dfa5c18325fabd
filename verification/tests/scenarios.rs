//! Scenario tests with the token ids of the pretrained GPT-2 tables, over
//! small tables whose merge chains mirror the trained behaviour involved.

use gpt_encoder::Encoder;

fn table(entries: &[(&str, u64)]) -> Vec<(String, u64)> {
    entries.iter().map(|(s, id)| (s.to_string(), *id)).collect()
}

fn chains(pairs: &[(&str, &str)]) -> Vec<(String, String)> {
    pairs.iter().map(|(a, b)| (a.to_string(), b.to_string())).collect()
}

#[test]
fn multi_chunk_sentence_round_trips() {
    // "This is some text" -> [1212, 318, 617, 2420]: each chunk merges into
    // one whole token, as the pretrained tables merge it.
    let vocab = table(&[
        ("This", 1212),
        ("\u{120}is", 318),
        ("\u{120}some", 617),
        ("\u{120}text", 2420),
    ]);
    let merges = chains(&[
        ("T", "h"),
        ("Th", "i"),
        ("Thi", "s"),
        ("\u{120}", "i"),
        ("\u{120}i", "s"),
        ("\u{120}", "s"),
        ("\u{120}s", "o"),
        ("\u{120}so", "m"),
        ("\u{120}som", "e"),
        ("\u{120}", "t"),
        ("\u{120}t", "e"),
        ("\u{120}te", "x"),
        ("\u{120}tex", "t"),
    ]);
    let mut enc = Encoder::new(vocab, merges).unwrap();
    let text = "This is some text";
    let ids = enc.encode(text.to_string());
    assert_eq!(ids, vec![1212, 318, 617, 2420]);
    assert_eq!(enc.decode(ids), Ok(text.to_string()));
}

#[test]
fn non_ascii_content_round_trips() {
    // "hello 👋 world 🌍" -> [31373, 50169, 233, 995, 12520, 234, 235]: the
    // emoji break into their UTF-8 bytes' symbols, partially merged.
    let vocab = table(&[
        ("hello", 31373),
        ("\u{120}\u{f0}\u{141}\u{133}", 50169),
        ("\u{12d}", 233),
        ("\u{120}world", 995),
        ("\u{120}\u{f0}\u{141}", 12520),
        ("\u{12e}", 234),
        ("\u{12f}", 235),
    ]);
    let merges = chains(&[
        ("h", "e"),
        ("he", "l"),
        ("hel", "l"),
        ("hell", "o"),
        ("\u{120}", "w"),
        ("\u{120}w", "o"),
        ("\u{120}wo", "r"),
        ("\u{120}wor", "l"),
        ("\u{120}worl", "d"),
        ("\u{120}", "\u{f0}"),
        ("\u{120}\u{f0}", "\u{141}"),
        ("\u{120}\u{f0}\u{141}", "\u{133}"),
    ]);
    let mut enc = Encoder::new(vocab, merges).unwrap();
    let text = "hello \u{1F44B} world \u{1F30D}";
    let ids = enc.encode(text.to_string());
    assert_eq!(ids, vec![31373, 50169, 233, 995, 12520, 234, 235]);
    assert_eq!(enc.decode(ids), Ok(text.to_string()));
}

#[test]
fn merges_find_trained_subword_boundaries() {
    // "indivisible" -> [521, 452, 12843]: the merge loop finds the trained
    // boundaries ind|iv|isible instead of per-character tokens.
    let vocab = table(&[("ind", 521), ("iv", 452), ("isible", 12843)]);
    let merges = chains(&[
        ("i", "n"),
        ("in", "d"),
        ("i", "v"),
        ("i", "s"),
        ("b", "l"),
        ("bl", "e"),
        ("i", "ble"),
        ("is", "ible"),
    ]);
    let mut enc = Encoder::new(vocab, merges).unwrap();
    let text = "indivisible";
    let ids = enc.encode(text.to_string());
    assert_eq!(ids, vec![521, 452, 12843]);
    assert_eq!(enc.decode(ids), Ok(text.to_string()));
}
