use fbcon::glyph::ascii_to_matrix;

#[test]
fn known_glyph_matches_the_packaged_font() {
    // The 'A' of the packaged 8x8 basic font, bit 0 the leftmost column.
    assert_eq!(ascii_to_matrix('A'), [0x0C, 0x1E, 0x33, 0x33, 0x3F, 0x33, 0x33, 0x00]);
    assert_eq!(ascii_to_matrix('?'), [0x1E, 0x33, 0x30, 0x18, 0x0C, 0x00, 0x0C, 0x00]);
}

#[test]
fn space_glyph_is_blank() {
    assert_eq!(ascii_to_matrix(' '), [0u8; 8]);
}

#[test]
fn absent_characters_fall_back_to_the_question_mark() {
    let fallback = ascii_to_matrix('?');
    assert_eq!(ascii_to_matrix('\u{80}'), fallback);
    assert_eq!(ascii_to_matrix('€'), fallback);
    assert_eq!(ascii_to_matrix('λ'), fallback);
}
