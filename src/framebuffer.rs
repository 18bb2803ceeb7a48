//! The packed 1-bit-per-pixel framebuffer: rows of `SCREEN_WIDTH / 8` bytes,
//! top row first, the leftmost pixel of each byte in its highest bit.
use vstd::prelude::*;
use crate::geometry::{SCREEN_HEIGHT, SCREEN_WIDTH};

verus! {

/// Bytes in one row of pixels.
pub const ROW_BYTES: usize = 25;

/// Bytes in a whole frame.
pub const FRAME_BYTES: usize = 5000;

/// Index of the byte that holds pixel `(x, y)`.
pub open spec fn byte_index(x: int, y: int) -> int {
    y * ROW_BYTES as int + x / 8
}

/// Position, from the lowest bit, of pixel `(x, y)` within its byte.
pub open spec fn bit_index(x: int) -> int {
    7 - x % 8
}

/// The pixel `(x, y)` of a packed frame: 1 when its bit is set.
pub open spec fn pixel_of(buf: Seq<u8>, x: int, y: int) -> u8 {
    ((buf[byte_index(x, y)] >> (bit_index(x) as u8)) & 1u8) as u8
}

proof fn lemma_byte_index_in_frame(x: int, y: int)
    requires
        0 <= x < SCREEN_WIDTH as int,
        0 <= y < SCREEN_HEIGHT as int,
    ensures
        0 <= byte_index(x, y) < FRAME_BYTES as int,
        0 <= bit_index(x) < 8,
{
    assert(0 <= y * 25 <= 199 * 25) by (nonlinear_arith)
        requires
            0 <= y < 200,
    ;
}

proof fn lemma_distinct_pixels(x1: int, y1: int, x2: int, y2: int)
    requires
        0 <= x1 < SCREEN_WIDTH as int,
        0 <= y1 < SCREEN_HEIGHT as int,
        0 <= x2 < SCREEN_WIDTH as int,
        0 <= y2 < SCREEN_HEIGHT as int,
        byte_index(x1, y1) == byte_index(x2, y2),
        bit_index(x1) == bit_index(x2),
    ensures
        x1 == x2 && y1 == y2,
{
    assert(y1 * 25 + x1 / 8 == y2 * 25 + x2 / 8);
    assert(0 <= x1 / 8 < 25 && 0 <= x2 / 8 < 25);
    if y1 < y2 {
        assert(y1 * 25 + 25 <= y2 * 25) by (nonlinear_arith)
            requires
                y1 < y2,
        ;
    } else if y2 < y1 {
        assert(y2 * 25 + 25 <= y1 * 25) by (nonlinear_arith)
            requires
                y2 < y1,
        ;
    }
}

/// Sets pixel `(x, y)` of `buf` to 1 when `on`, else to 0; every other pixel
/// keeps its value.
pub fn set_pixel(buf: &mut Vec<u8>, x: u16, y: u16, on: bool)
    requires
        old(buf)@.len() == FRAME_BYTES,
        x < SCREEN_WIDTH,
        y < SCREEN_HEIGHT,
    ensures
        final(buf)@.len() == FRAME_BYTES,
        pixel_of(final(buf)@, x as int, y as int) == (if on { 1u8 } else { 0u8 }),
        forall|px: int, py: int|
            0 <= px < SCREEN_WIDTH as int && 0 <= py < SCREEN_HEIGHT as int && !(px == x && py
                == y) ==> #[trigger] pixel_of(final(buf)@, px, py) == pixel_of(old(buf)@, px, py),
{
    proof {
        lemma_byte_index_in_frame(x as int, y as int);
    }
    let idx: usize = (y as usize) * ROW_BYTES + (x as usize) / 8;
    let bit: u8 = 7 - (x % 8) as u8;
    let b = buf[idx];
    let nb: u8 = if on { b | (1u8 << bit) } else { b & !(1u8 << bit) };
    buf.set(idx, nb);
    proof {
        if on {
            assert((((b | (1u8 << bit)) >> bit) & 1u8) == 1u8) by (bit_vector)
                requires
                    bit < 8,
            ;
        } else {
            assert((((b & !(1u8 << bit)) >> bit) & 1u8) == 0u8) by (bit_vector)
                requires
                    bit < 8,
            ;
        }
        assert forall|px: int, py: int|
            0 <= px < SCREEN_WIDTH as int && 0 <= py < SCREEN_HEIGHT as int && !(px == x && py
                == y) implies #[trigger] pixel_of(buf@, px, py) == pixel_of(old(buf)@, px, py) by {
            lemma_byte_index_in_frame(px, py);
            if byte_index(px, py) == idx {
                if bit_index(px) == bit {
                    lemma_distinct_pixels(px, py, x as int, y as int);
                }
                let k = bit_index(px) as u8;
                assert(k != bit && k < 8);
                if on {
                    assert((((b | (1u8 << bit)) >> k) & 1u8) == ((b >> k) & 1u8)) by (bit_vector)
                        requires
                            bit < 8,
                            k < 8,
                            k != bit,
                    ;
                } else {
                    assert((((b & !(1u8 << bit)) >> k) & 1u8) == ((b >> k) & 1u8)) by (bit_vector)
                        requires
                            bit < 8,
                            k < 8,
                            k != bit,
                    ;
                }
            }
        }
    }
}

/// The pixel with row-major index `i` (`i = y * SCREEN_WIDTH + x`) of a
/// packed frame; 0 beyond the screen or beyond the end of `buffer`.
pub fn get_pixel_by_index(buffer: &[u8], i: usize) -> (r: u8)
    ensures
        i >= SCREEN_WIDTH as int * SCREEN_HEIGHT as int ==> r == 0,
        i < SCREEN_WIDTH as int * SCREEN_HEIGHT as int && byte_index(
            (i as int) % (SCREEN_WIDTH as int),
            (i as int) / (SCREEN_WIDTH as int),
        ) >= buffer@.len() ==> r == 0,
        i < SCREEN_WIDTH as int * SCREEN_HEIGHT as int && byte_index(
            (i as int) % (SCREEN_WIDTH as int),
            (i as int) / (SCREEN_WIDTH as int),
        ) < buffer@.len() ==> r == pixel_of(buffer@, (i as int) % (SCREEN_WIDTH as int), (i as int) / (SCREEN_WIDTH as int)),
{
    if i >= SCREEN_HEIGHT as usize * SCREEN_WIDTH as usize {
        return 0;
    }
    let x = i % (SCREEN_WIDTH as usize);
    let y = i / (SCREEN_WIDTH as usize);
    proof {
        lemma_byte_index_in_frame(x as int, y as int);
    }
    let byte_index = y * ROW_BYTES + x / 8;
    let bit_index = (7 - (x % 8)) as u8;
    if byte_index >= buffer.len() {
        return 0;
    }
    let byte_value = buffer[byte_index];
    if (byte_value >> bit_index) & 1 == 1 {
        1
    } else {
        proof {
            assert(((byte_value >> bit_index) & 1u8) == 0u8 || ((byte_value >> bit_index) & 1u8) == 1u8) by (bit_vector);
        }
        0
    }
}

} // verus!
