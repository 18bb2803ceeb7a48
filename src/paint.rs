//! Painting elements into the framebuffer: a flat color or a line of text,
//! over a region or where an element meets the repaint regions, and the
//! rule that the last element to paint a pixel decides it.
use vstd::prelude::*;
use font8x8::unicode::BasicFonts;
use crate::framebuffer::{pixel_of, set_pixel, FRAME_BYTES};
use crate::geometry::{covers, covers_upto, on_screen, BoundingRect, SCREEN_HEIGHT, SCREEN_WIDTH};
use crate::glyph::{text_pixel, text_pixel_spec};
use crate::signals::Value;
use crate::walk::TreeNode;

verus! {

/// What an element paints: a flat color, or a line of text.
pub enum Ink {
    Fill(u8),
    Glyphs(String),
}

/// A text element showing the value `v` paints with `ink`: the characters
/// of a text value; nothing for any other value.
pub open spec fn shows(v: Value, ink: Ink) -> bool {
    match v {
        Value::Text(s) => ink matches Ink::Glyphs(g) && g@ == s@,
        Value::Int(_) => ink matches Ink::Glyphs(g) && g@.len() == 0,
    }
}

/// The pixel that `ink` gives at element-local `(x, y)`.
pub open spec fn ink_pixel(ink: &Ink, x: int, y: int) -> u8 {
    match ink {
        Ink::Fill(c) => *c,
        Ink::Glyphs(s) => text_pixel_spec(s@, x, y),
    }
}

/// The framebuffer bit that `ink` gives at element-local `(x, y)`.
pub open spec fn ink_bit(ink: &Ink, x: int, y: int) -> u8 {
    if ink_pixel(ink, x, y) != 0 {
        1
    } else {
        0
    }
}

/// Pixels of `region` that are on screen and come before row `y`, or on row
/// `y` before column `x`, show `ink` drawn from `(ox, oy)`; every other
/// pixel is as in `buf0`.
pub open spec fn painted_upto(
    buf0: Seq<u8>,
    buf: Seq<u8>,
    region: BoundingRect,
    ox: int,
    oy: int,
    ink: &Ink,
    y: int,
    x: int,
) -> bool {
    forall|px: int, py: int|
        on_screen(px, py) ==> #[trigger] pixel_of(buf, px, py) == if region.has_point(px, py) && (
        py < y || (py == y && px < x)) {
            ink_bit(ink, px - ox, py - oy)
        } else {
            pixel_of(buf0, px, py)
        }
}

/// The pixel that `ink` gives at element-local `(lx, ly)`.
fn ink_at(ink: &Ink, font: &BasicFonts, lx: u8, ly: u8) -> (r: u8)
    ensures
        r == ink_pixel(ink, lx as int, ly as int),
{
    match ink {
        Ink::Fill(c) => *c,
        Ink::Glyphs(s) => text_pixel(font, s.as_str(), lx, ly),
    }
}

/// Paints the on-screen part of `region` with `ink`, drawn from the origin
/// `(ox, oy)`; no other pixel changes.
pub(crate) fn paint_region(
    buf: &mut Vec<u8>,
    font: &BasicFonts,
    region: BoundingRect,
    ox: i16,
    oy: i16,
    ink: &Ink,
)
    requires
        old(buf)@.len() == FRAME_BYTES,
        ox <= region.x,
        region.x_end() <= ox + 255,
        oy <= region.y,
        region.y_end() <= oy + 255,
    ensures
        final(buf)@.len() == FRAME_BYTES,
        forall|px: int, py: int|
            on_screen(px, py) ==> #[trigger] pixel_of(final(buf)@, px, py) == if region.has_point(
                px,
                py,
            ) {
                ink_bit(ink, px - ox, py - oy)
            } else {
                pixel_of(old(buf)@, px, py)
            },
{
    let ghost buf0 = buf@;
    let x0: i32 = if region.x >= 0 { region.x as i32 } else { 0 };
    let y0: i32 = if region.y >= 0 { region.y as i32 } else { 0 };
    let xe: i32 = region.x as i32 + region.width as i32;
    let ye: i32 = region.y as i32 + region.height as i32;
    let x1: i32 = if xe <= SCREEN_WIDTH as i32 { xe } else { SCREEN_WIDTH as i32 };
    let y1: i32 = if ye <= SCREEN_HEIGHT as i32 { ye } else { SCREEN_HEIGHT as i32 };
    let mut y: i32 = y0;
    while y < y1
        invariant
            buf@.len() == FRAME_BYTES,
            y0 <= y,
            y0 == (if region.y >= 0 { region.y as int } else { 0 }),
            x0 == (if region.x >= 0 { region.x as int } else { 0 }),
            x1 == (if region.x_end() <= SCREEN_WIDTH as int { region.x_end() } else { SCREEN_WIDTH as int }),
            y1 == (if region.y_end() <= SCREEN_HEIGHT as int { region.y_end() } else { SCREEN_HEIGHT as int }),
            ox <= region.x,
            region.x_end() <= ox + 255,
            oy <= region.y,
            region.y_end() <= oy + 255,
            painted_upto(buf0, buf@, region, ox as int, oy as int, ink, y as int, x0 as int),
        decreases y1 - y,
    {
        let mut x: i32 = x0;
        while x < x1
            invariant
                buf@.len() == FRAME_BYTES,
                y0 <= y < y1,
                x0 <= x,
                y0 == (if region.y >= 0 { region.y as int } else { 0 }),
                x0 == (if region.x >= 0 { region.x as int } else { 0 }),
                x1 == (if region.x_end() <= SCREEN_WIDTH as int { region.x_end() } else { SCREEN_WIDTH as int }),
                y1 == (if region.y_end() <= SCREEN_HEIGHT as int { region.y_end() } else { SCREEN_HEIGHT as int }),
                ox <= region.x,
                region.x_end() <= ox + 255,
                oy <= region.y,
                region.y_end() <= oy + 255,
                painted_upto(buf0, buf@, region, ox as int, oy as int, ink, y as int, x as int),
            decreases x1 - x,
        {
            let lx = (x - ox as i32) as u8;
            let ly = (y - oy as i32) as u8;
            let p = ink_at(ink, font, lx, ly);
            let ghost before = buf@;
            set_pixel(buf, x as u16, y as u16, p != 0);
            proof {
                assert forall|px: int, py: int| on_screen(px, py) implies #[trigger] pixel_of(buf@, px, py)
                    == if region.has_point(px, py) && (py < y || (py == y && px < x + 1)) {
                    ink_bit(ink, px - ox, py - oy)
                } else {
                    pixel_of(buf0, px, py)
                } by {
                    assert(pixel_of(before, px, py) == if region.has_point(px, py) && (py < y || (
                    py == y && px < x)) {
                        ink_bit(ink, px - ox, py - oy)
                    } else {
                        pixel_of(buf0, px, py)
                    });
                }
            }
            x += 1;
        }
        proof {
            assert forall|px: int, py: int| on_screen(px, py) implies #[trigger] pixel_of(buf@, px, py)
                == if region.has_point(px, py) && (py < y + 1 || (py == y + 1 && px < x0)) {
                ink_bit(ink, px - ox, py - oy)
            } else {
                pixel_of(buf0, px, py)
            } by {
                assert(pixel_of(buf@, px, py) == if region.has_point(px, py) && (py < y || (py == y
                    && px < x))
                {
                    ink_bit(ink, px - ox, py - oy)
                } else {
                    pixel_of(buf0, px, py)
                });
            }
        }
        y += 1;
    }
    proof {
        assert forall|px: int, py: int| on_screen(px, py) implies #[trigger] pixel_of(buf@, px, py)
            == if region.has_point(px, py) {
            ink_bit(ink, px - ox, py - oy)
        } else {
            pixel_of(buf0, px, py)
        } by {
            assert(pixel_of(buf@, px, py) == if region.has_point(px, py) && (py < y || (py == y && px
                < x0)) {
                ink_bit(ink, px - ox, py - oy)
            } else {
                pixel_of(buf0, px, py)
            });
        }
    }
}

/// Paints `ink`, drawn from the origin of `rect`, where `rect` meets one
/// of `regions`; `parts` is working storage. Every other pixel keeps its
/// value.
pub(crate) fn paint_clipped(
    buf: &mut Vec<u8>,
    font: &BasicFonts,
    regions: &Vec<BoundingRect>,
    parts: &mut Vec<BoundingRect>,
    rect: BoundingRect,
    ink: &Ink,
)
    requires
        old(buf)@.len() == FRAME_BYTES,
    ensures
        final(buf)@.len() == FRAME_BYTES,
        forall|px: int, py: int|
            on_screen(px, py) ==> #[trigger] pixel_of(final(buf)@, px, py) == if rect.has_point(px, py)
                && covers(regions@, px, py) {
                ink_bit(ink, px - rect.x, py - rect.y)
            } else {
                pixel_of(old(buf)@, px, py)
            },
{
    let ghost buf0 = buf@;
    parts.clear();
    let mut j: usize = 0;
    while j < regions.len()
        invariant
            j <= regions@.len(),
            forall|t: int|
                0 <= t < parts@.len() ==> {
                    &&& rect.x <= (#[trigger] parts@[t]).x
                    &&& parts@[t].x_end() <= rect.x_end()
                    &&& rect.y <= parts@[t].y
                    &&& parts@[t].y_end() <= rect.y_end()
                },
            forall|px: int, py: int| #[trigger]
                covers(parts@, px, py) <==> (rect.has_point(px, py) && covers_upto(
                    regions@,
                    j as int,
                    px,
                    py,
                )),
        decreases regions@.len() - j,
    {
        let region = regions[j];
        let ghost prev = parts@;
        match region.intersection(&rect) {
            Some(i) => {
                parts.push(i);
            },
            None => {},
        }
        proof {
            assert forall|px: int, py: int| #[trigger]
                covers(parts@, px, py) <==> (rect.has_point(px, py) && covers_upto(
                    regions@,
                    j + 1,
                    px,
                    py,
                )) by {
                if covers(parts@, px, py) {
                    let t = choose|t: int| 0 <= t < parts@.len() && #[trigger] parts@[t].has_point(px, py);
                    if t < prev.len() {
                        assert(parts@[t] == prev[t]);
                        assert(covers(prev, px, py));
                    } else {
                        assert(regions@[j as int].has_point(px, py));
                    }
                }
                if rect.has_point(px, py) && covers_upto(regions@, j + 1, px, py) {
                    let t = choose|t: int| 0 <= t < j + 1 && #[trigger] regions@[t].has_point(px, py);
                    if t < j {
                        assert(covers_upto(regions@, j as int, px, py));
                        assert(covers(prev, px, py));
                        let u = choose|u: int| 0 <= u < prev.len() && #[trigger] prev[u].has_point(px, py);
                        assert(parts@[u] == prev[u]);
                    } else {
                        assert(region.has_point(px, py));
                        assert(parts@[prev.len() as int].has_point(px, py));
                    }
                }
            }
        }
        j += 1;
    }
    let mut t: usize = 0;
    while t < parts.len()
        invariant
            t <= parts@.len(),
            buf@.len() == FRAME_BYTES,
            forall|u: int|
                0 <= u < parts@.len() ==> {
                    &&& rect.x <= (#[trigger] parts@[u]).x
                    &&& parts@[u].x_end() <= rect.x_end()
                    &&& rect.y <= parts@[u].y
                    &&& parts@[u].y_end() <= rect.y_end()
                },
            forall|px: int, py: int| #[trigger]
                covers(parts@, px, py) <==> (rect.has_point(px, py) && covers(regions@, px, py)),
            forall|px: int, py: int|
                on_screen(px, py) ==> #[trigger] pixel_of(buf@, px, py) == if covers_upto(
                    parts@,
                    t as int,
                    px,
                    py,
                ) {
                    ink_bit(ink, px - rect.x, py - rect.y)
                } else {
                    pixel_of(buf0, px, py)
                },
        decreases parts@.len() - t,
    {
        let part = parts[t];
        let ghost before = buf@;
        paint_region(buf, font, part, rect.x, rect.y, ink);
        proof {
            assert forall|px: int, py: int| on_screen(px, py) implies #[trigger] pixel_of(buf@, px, py)
                == if covers_upto(parts@, t + 1, px, py) {
                ink_bit(ink, px - rect.x, py - rect.y)
            } else {
                pixel_of(buf0, px, py)
            } by {
                assert(pixel_of(before, px, py) == if covers_upto(parts@, t as int, px, py) {
                    ink_bit(ink, px - rect.x, py - rect.y)
                } else {
                    pixel_of(buf0, px, py)
                });
                if part.has_point(px, py) {
                    assert(parts@[t as int].has_point(px, py));
                    assert(covers_upto(parts@, t + 1, px, py));
                } else if covers_upto(parts@, t + 1, px, py) {
                    let u = choose|u: int| 0 <= u < t + 1 && #[trigger] parts@[u].has_point(px, py);
                    assert(u != t);
                    assert(covers_upto(parts@, t as int, px, py));
                } else if covers_upto(parts@, t as int, px, py) {
                    let u = choose|u: int| 0 <= u < t && #[trigger] parts@[u].has_point(px, py);
                    assert(covers_upto(parts@, t + 1, px, py));
                }
            }
        }
        t += 1;
    }
    proof {
        assert forall|px: int, py: int| on_screen(px, py) implies #[trigger] pixel_of(buf@, px, py)
            == if rect.has_point(px, py) && covers(regions@, px, py) {
            ink_bit(ink, px - rect.x, py - rect.y)
        } else {
            pixel_of(buf0, px, py)
        } by {
            assert(covers(parts@, px, py) == covers_upto(parts@, parts@.len() as int, px, py));
        }
    }
}

/// Node `node` of the walk paints pixel `(px, py)`: anywhere in its
/// rectangle when it is repainted whole, else where its rectangle meets one
/// of `regions`.
pub open spec fn paints(node: TreeNode, whole: bool, regions: Seq<BoundingRect>, px: int, py: int) -> bool {
    node.rect.has_point(px, py) && (whole || covers(regions, px, py))
}

/// Index of the last of the first `k` nodes of `ordered` that paints
/// `(px, py)`, or -1 when none does. A node is repainted whole in a full
/// redraw or when its element is in `waiting`.
pub open spec fn last_painter(
    ordered: Seq<TreeNode>,
    full: bool,
    waiting: Set<usize>,
    regions: Seq<BoundingRect>,
    k: int,
    px: int,
    py: int,
) -> int
    decreases k,
{
    if k <= 0 {
        -1
    } else if paints(
        ordered[k - 1],
        full || waiting.contains(ordered[k - 1].element_id),
        regions,
        px,
        py,
    ) {
        k - 1
    } else {
        last_painter(ordered, full, waiting, regions, k - 1, px, py)
    }
}

/// Pixel `(px, py)` once the first `k` nodes of `ordered` have painted over
/// `frame0`, node `j` with `inks[j]`: the last node to paint it decides.
pub open spec fn painted_pixel(
    frame0: Seq<u8>,
    ordered: Seq<TreeNode>,
    inks: Seq<Ink>,
    full: bool,
    waiting: Set<usize>,
    regions: Seq<BoundingRect>,
    k: int,
    px: int,
    py: int,
) -> u8 {
    let j = last_painter(ordered, full, waiting, regions, k, px, py);
    if j >= 0 {
        ink_bit(&inks[j], px - ordered[j].rect.x, py - ordered[j].rect.y)
    } else {
        pixel_of(frame0, px, py)
    }
}

pub(crate) proof fn lemma_last_painter_bounds(
    ordered: Seq<TreeNode>,
    full: bool,
    waiting: Set<usize>,
    regions: Seq<BoundingRect>,
    k: int,
    px: int,
    py: int,
)
    ensures
        -1 <= last_painter(ordered, full, waiting, regions, k, px, py) < if k > 0 { k } else { 0 },
    decreases k,
{
    if k > 0 {
        lemma_last_painter_bounds(ordered, full, waiting, regions, k - 1, px, py);
    }
}

pub(crate) proof fn lemma_last_painter_is(
    ordered: Seq<TreeNode>,
    full: bool,
    waiting: Set<usize>,
    regions: Seq<BoundingRect>,
    k: int,
    kb: int,
    px: int,
    py: int,
)
    requires
        0 <= kb < k <= ordered.len(),
        paints(ordered[kb], full || waiting.contains(ordered[kb].element_id), regions, px, py),
        forall|j: int|
            kb < j < ordered.len() ==> !paints(
                #[trigger] ordered[j],
                full || waiting.contains(ordered[j].element_id),
                regions,
                px,
                py,
            ),
    ensures
        last_painter(ordered, full, waiting, regions, k, px, py) == kb,
    decreases k,
{
    if k - 1 > kb {
        assert(!paints(
            ordered[k - 1],
            full || waiting.contains(ordered[k - 1].element_id),
            regions,
            px,
            py,
        ));
        lemma_last_painter_is(ordered, full, waiting, regions, k - 1, kb, px, py);
    }
}

} // verus!
