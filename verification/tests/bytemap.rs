use gpt_encoder::{bytes_to_unicode, to_byte, to_symbol, TokenizerError};

#[test]
fn printable_bytes_map_to_themselves() {
    assert_eq!(to_symbol(b'!'), '!');
    assert_eq!(to_symbol(b'A'), 'A');
    assert_eq!(to_symbol(b'~'), '~');
    assert_eq!(to_symbol(0xA1), '\u{a1}');
    assert_eq!(to_symbol(0xAC), '\u{ac}');
    assert_eq!(to_symbol(0xAE), '\u{ae}');
    assert_eq!(to_symbol(0xFF), '\u{ff}');
}

#[test]
fn fresh_bytes_map_above_256() {
    // Byte 0 is the first non-printable byte, space the 33rd, 0xAD the last.
    assert_eq!(to_symbol(0), '\u{100}');
    assert_eq!(to_symbol(b'\t'), '\u{109}');
    assert_eq!(to_symbol(b' '), '\u{120}');
    assert_eq!(to_symbol(0x7F), '\u{121}');
    assert_eq!(to_symbol(0xAD), '\u{143}');
}

#[test]
fn mapping_is_a_bijection_over_all_bytes() {
    let mut seen = Vec::new();
    for b in 0..=255u8 {
        let c = to_symbol(b);
        assert!(!seen.contains(&c));
        seen.push(c);
        assert_eq!(to_byte(c), Ok(b));
    }
}

#[test]
fn unmapped_characters_are_rejected() {
    assert_eq!(to_byte(' '), Err(TokenizerError::InvalidSymbol));
    assert_eq!(to_byte('\u{144}'), Err(TokenizerError::InvalidSymbol));
    assert_eq!(to_byte('\u{1F30D}'), Err(TokenizerError::InvalidSymbol));
}

#[test]
fn table_agrees_with_to_symbol() {
    let m = bytes_to_unicode();
    assert_eq!(m.len(), 256);
    for b in 0..=255u8 {
        assert_eq!(m.get(&b), Some(&to_symbol(b)));
    }
}
