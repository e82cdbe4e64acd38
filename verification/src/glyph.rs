//! The glyph source: a character's fixed 8x8 monochrome bitmap, one byte per
//! row, bit 0 the leftmost column. The table is the packaged basic-ASCII font;
//! any character outside it renders as the `'?'` glyph.

use vstd::prelude::*;

verus! {

/// What the basic font table holds for a character: an 8-row bitmap for every
/// character the table covers, nothing for the rest.
pub uninterp spec fn basic_glyph(c: char) -> Option<Seq<u8>>;

/// The bitmap the renderer uses for `ch`: the table's bitmap where the table
/// covers `ch`, the table's bitmap for `'?'` otherwise.
pub open spec fn glyph_seq(ch: char) -> Seq<u8> {
    if basic_glyph(ch) is Some {
        basic_glyph(ch)->Some_0
    } else {
        basic_glyph('?')->Some_0
    }
}

/// Relies on font8x8's `BASIC_FONTS.get`: a pure lookup in a fixed table that
/// covers exactly U+0000..=U+007F, eight bytes per glyph.
#[verifier::external_body]
fn basic_font_lookup(ch: char) -> (r: Option<[u8; 8]>)
    ensures
        r is Some <==> (ch as u32) < 128,
        r is Some <==> basic_glyph(ch) is Some,
        r matches Some(g) ==> basic_glyph(ch) == Some(g@),
{
    font8x8::UnicodeFonts::get(&font8x8::BASIC_FONTS, ch)
}

/// The 8x8 bitmap for `ch`, one byte per row, bit 0 the leftmost column: the
/// basic font's bitmap, falling back to the `'?'` bitmap for any character the
/// table does not cover.
pub fn ascii_to_matrix(ch: char) -> (r: [u8; 8])
    ensures
        r@ == glyph_seq(ch),
{
    match basic_font_lookup(ch) {
        Some(g) => g,
        None => {
            match basic_font_lookup('?') {
                Some(g) => g,
                None => {
                    // `'?'` is ASCII, so the table always covers it.
                    proof {
                        assert(false);
                    }
                    [0u8;8]
                },
            }
        },
    }
}

/// An unknown character renders as the fallback glyph: for every character the
/// table does not cover, the rendered bitmap is the one rendered for `'?'`.
pub proof fn lemma_unknown_glyph_fallback(ch: char)
    requires
        basic_glyph(ch) is None,
    ensures
        glyph_seq(ch) == glyph_seq('?'),
{
}

} // verus!
