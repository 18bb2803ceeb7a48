//! Text rendering against the 8x8 glyph table of `font8x8`.
use vstd::prelude::*;
use font8x8::unicode::BasicFonts;
use font8x8::UnicodeFonts;

verus! {

#[verifier::external_type_specification]
#[verifier::external_body]
pub struct ExBasicFonts(BasicFonts);

/// The eight rows of the basic glyph of `c`, as `font8x8` stores them: one
/// byte per row, top row first, the leftmost pixel in the lowest bit.
pub uninterp spec fn basic_glyph(c: char) -> Option<Seq<u8>>;

/// Relies on `UnicodeFonts::get` of `font8x8::unicode::BasicFonts`: it
/// looks `c` up in the table `BASIC_UNICODE`, which holds U+0000 to U+007F,
/// and returns that glyph's eight rows. Every `BasicFonts` value holds that
/// same table, so the result depends on `c` alone.
#[verifier::external_body]
fn glyph_rows(font: &BasicFonts, c: char) -> (r: Option<[u8; 8]>)
    ensures
        r is Some <==> basic_glyph(c) is Some,
        r is Some ==> basic_glyph(c) == Some(r->0@),
        r is Some <==> (c as u32) < 128,
{
    font.get(c)
}

/// Bit `col` (0 = lowest) of the byte `b`.
pub open spec fn bit_of(b: u8, col: int) -> u8 {
    ((b >> (col as u8)) & 1u8) as u8
}

/// The pixel at `(x, y)` of a line of text: character `x / 8`, glyph
/// column `x % 8`, glyph row `y % 8`; blank past the last character and
/// for characters without a basic glyph.
pub open spec fn text_pixel_spec(text: Seq<char>, x: int, y: int) -> u8 {
    if x / 8 >= text.len() {
        0
    } else {
        match basic_glyph(text[x / 8]) {
            Some(g) => bit_of(g[y % 8], x % 8),
            None => 0,
        }
    }
}

/// The pixel at `(x, y)` of `text` drawn with `font` from the element's
/// origin: 1 where a glyph stroke is, 0 elsewhere.
///
/// `font8x8` stores the leftmost pixel of a glyph row in its lowest bit, so
/// the row byte is read from the low end: glyph column `col` is bit `col`.
pub fn text_pixel(font: &BasicFonts, text: &str, x: u8, y: u8) -> (r: u8)
    ensures
        r == text_pixel_spec(text@, x as int, y as int),
{
    let row_idx = (y % 8) as usize;
    let char_idx = (x / 8) as usize;
    let col = x % 8;
    let len = text.unicode_len();
    if char_idx >= len {
        return 0;
    }
    let c = text.get_char(char_idx);
    match glyph_rows(font, c) {
        Some(rows) => {
            let row = rows[row_idx];
            proof {
                let g = basic_glyph(c)->0;
                assert(g == rows@);
                assert(g.len() == 8);
                assert(g[(y % 8) as int] == row);
            }
            (row >> col) & 1
        },
        None => 0,
    }
}

} // verus!
