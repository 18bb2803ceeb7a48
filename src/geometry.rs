//! Screen geometry: rectangles, clipping, and the sweep-line union that
//! turns overlapping damage rectangles into a disjoint covering.
use vstd::math::{max, min};
use vstd::prelude::*;

verus! {

/// Width of the panel in pixels (a multiple of 8).
pub const SCREEN_WIDTH: u8 = 200;

/// Height of the panel in pixels (a multiple of 8).
pub const SCREEN_HEIGHT: u8 = 200;

/// An axis-aligned rectangle: signed origin, unsigned extent. It covers the
/// points `(px, py)` with `x <= px < x + width` and `y <= py < y + height`.
#[derive(Clone, Copy, Debug, PartialEq, Eq, Structural)]
pub struct BoundingRect {
    pub x: i16,
    pub y: i16,
    pub width: u8,
    pub height: u8,
}

/// The point `(px, py)` lies on the panel.
pub open spec fn on_screen(px: int, py: int) -> bool {
    0 <= px < SCREEN_WIDTH as int && 0 <= py < SCREEN_HEIGHT as int
}

impl BoundingRect {
    pub open spec fn x_end(self) -> int {
        self.x + self.width
    }

    pub open spec fn y_end(self) -> int {
        self.y + self.height
    }

    /// The point `(px, py)` lies inside the rectangle.
    pub open spec fn has_point(self, px: int, py: int) -> bool {
        self.x <= px < self.x_end() && self.y <= py < self.y_end()
    }

    /// The rectangle covers no point.
    pub open spec fn is_empty(self) -> bool {
        self.width == 0 || self.height == 0
    }

    /// The two rectangles' open interiors intersect.
    pub open spec fn spec_overlaps(self, other: BoundingRect) -> bool {
        &&& self.x < other.x_end()
        &&& self.x_end() > other.x
        &&& self.y < other.y_end()
        &&& self.y_end() > other.y
    }

    /// The rectangle lies within the panel.
    pub open spec fn within_screen(self) -> bool {
        &&& 0 <= self.x
        &&& self.x_end() <= SCREEN_WIDTH as int
        &&& 0 <= self.y
        &&& self.y_end() <= SCREEN_HEIGHT as int
    }

    pub fn contains_point(&self, px: i16, py: i16) -> (r: bool)
        ensures
            r == self.has_point(px as int, py as int),
    {
        let x_end = self.x as i32 + self.width as i32;
        let y_end = self.y as i32 + self.height as i32;
        px >= self.x && (px as i32) < x_end && py >= self.y && (py as i32) < y_end
    }

    pub fn overlaps(&self, other: &BoundingRect) -> (r: bool)
        ensures
            r == self.spec_overlaps(*other),
    {
        (self.x as i32) < other.x as i32 + other.width as i32
            && self.x as i32 + self.width as i32 > other.x as i32
            && (self.y as i32) < other.y as i32 + other.height as i32
            && self.y as i32 + self.height as i32 > other.y as i32
    }

    /// The common part of two rectangles; `None` when they are apart.
    /// Rectangles that only touch give an empty (zero-width or zero-height)
    /// intersection.
    pub fn intersection(&self, other: &BoundingRect) -> (r: Option<BoundingRect>)
        ensures
            r.is_some() <==> (max(self.x as int, other.x as int) <= min(
                self.x_end(),
                other.x_end(),
            ) && max(self.y as int, other.y as int) <= min(self.y_end(), other.y_end())),
            r matches Some(i) ==> {
                &&& i.x == max(self.x as int, other.x as int)
                &&& i.y == max(self.y as int, other.y as int)
                &&& i.x_end() == min(self.x_end(), other.x_end())
                &&& i.y_end() == min(self.y_end(), other.y_end())
            },
            r matches Some(i) ==> forall|px: int, py: int|
                #[trigger] i.has_point(px, py) <==> (self.has_point(px, py) && other.has_point(
                    px,
                    py,
                )),
    {
        let x0: i32 = if self.x >= other.x { self.x as i32 } else { other.x as i32 };
        let y0: i32 = if self.y >= other.y { self.y as i32 } else { other.y as i32 };
        let sx1: i32 = self.x as i32 + self.width as i32;
        let ox1: i32 = other.x as i32 + other.width as i32;
        let sy1: i32 = self.y as i32 + self.height as i32;
        let oy1: i32 = other.y as i32 + other.height as i32;
        let x1: i32 = if sx1 <= ox1 { sx1 } else { ox1 };
        let y1: i32 = if sy1 <= oy1 { sy1 } else { oy1 };
        if x0 > x1 || y0 > y1 {
            None
        } else {
            Some(BoundingRect { x: x0 as i16, y: y0 as i16, width: (x1 - x0) as u8, height: (y1 - y0) as u8 })
        }
    }
}

/// The part of `rect` that lies on the panel, as half-open bounds
/// `(x0, x1, y0, y1)`; `None` when no part of it is on the panel.
pub fn normalize_rect_to_screen(rect: &BoundingRect) -> (r: Option<(i16, i16, i16, i16)>)
    ensures
        r.is_some() <==> (max(0, rect.x as int) < min(SCREEN_WIDTH as int, rect.x_end()) && max(
            0,
            rect.y as int,
        ) < min(SCREEN_HEIGHT as int, rect.y_end())),
        r matches Some((x0, x1, y0, y1)) ==> {
            &&& x0 == max(0, rect.x as int)
            &&& x1 == min(SCREEN_WIDTH as int, rect.x_end())
            &&& y0 == max(0, rect.y as int)
            &&& y1 == min(SCREEN_HEIGHT as int, rect.y_end())
        },
{
    let x0: i16 = if rect.x >= 0 { rect.x } else { 0 };
    let y0: i16 = if rect.y >= 0 { rect.y } else { 0 };
    let xe: i32 = rect.x as i32 + rect.width as i32;
    let ye: i32 = rect.y as i32 + rect.height as i32;
    let x1: i16 = if xe <= SCREEN_WIDTH as i32 { xe as i16 } else { SCREEN_WIDTH as i16 };
    let y1: i16 = if ye <= SCREEN_HEIGHT as i32 { ye as i16 } else { SCREEN_HEIGHT as i16 };
    if x0 >= x1 || y0 >= y1 {
        None
    } else {
        Some((x0, x1, y0, y1))
    }
}

/// Some rectangle among the first `n` of `rs` holds the point.
pub open spec fn covers_upto(rs: Seq<BoundingRect>, n: int, px: int, py: int) -> bool {
    exists|i: int| 0 <= i < n && #[trigger] rs[i].has_point(px, py)
}

/// Some rectangle of `rs` holds the point.
pub open spec fn covers(rs: Seq<BoundingRect>, px: int, py: int) -> bool {
    covers_upto(rs, rs.len() as int, px, py)
}

/// No two distinct rectangles of `rs` overlap.
pub open spec fn pairwise_disjoint(rs: Seq<BoundingRect>) -> bool {
    forall|i: int, j: int|
        0 <= i < rs.len() && 0 <= j < rs.len() && i != j ==> !#[trigger] rs[i].spec_overlaps(
            #[trigger] rs[j],
        )
}

/// Every rectangle of `rs` is non-empty and lies on the panel.
pub open spec fn all_on_screen(rs: Seq<BoundingRect>) -> bool {
    forall|i: int| 0 <= i < rs.len() ==> (#[trigger] rs[i]).within_screen() && !rs[i].is_empty()
}

/// The edges increase strictly.
pub open spec fn strictly_sorted(s: Seq<i16>) -> bool {
    forall|i: int, j: int| 0 <= i < j < s.len() ==> s[i] < s[j]
}

/// `v` is among the edges `s`.
pub open spec fn has_edge(s: Seq<i16>, v: int) -> bool {
    exists|j: int| 0 <= j < s.len() && s[j] == v
}

spec fn edges_in_range(s: Seq<i16>) -> bool {
    forall|j: int| 0 <= j < s.len() ==> 0 <= #[trigger] s[j] <= SCREEN_WIDTH as int
}

/// Adds `e` to a strictly increasing list of edges, unless it is there.
fn insert_edge(edges: &mut Vec<i16>, e: i16)
    requires
        strictly_sorted(old(edges)@),
        edges_in_range(old(edges)@),
        0 <= e <= SCREEN_WIDTH as int,
    ensures
        strictly_sorted(final(edges)@),
        edges_in_range(final(edges)@),
        final(edges)@.len() <= old(edges)@.len() + 1,
        forall|v: int| #[trigger]
            has_edge(final(edges)@, v) <==> (has_edge(old(edges)@, v) || v == e as int),
{
    let mut i: usize = 0;
    while i < edges.len() && edges[i] < e
        invariant
            i <= edges.len(),
            forall|j: int| 0 <= j < i ==> edges@[j] < e,
        decreases edges.len() - i,
    {
        i += 1;
    }
    if i < edges.len() && edges[i] == e {
        return;
    }
    let ghost before = edges@;
    edges.insert(i, e);
    proof {
        let after = edges@;
        assert(after == before.insert(i as int, e));
        assert forall|a: int, b: int| 0 <= a < b < after.len() implies after[a] < after[b] by {
            if b < i {
            } else if b == i {
            } else if a < i {
                assert(before[b - 1] >= e);
            } else if a == i {
                assert(before[b - 1] >= before[i as int]);
            } else {
            }
        }
        assert forall|v: int| #[trigger]
            has_edge(after, v) <==> (has_edge(before, v) || v == e as int) by {
            if has_edge(after, v) {
                let j = choose|j: int| 0 <= j < after.len() && after[j] == v;
                if j < i {
                    assert(before[j] == v);
                } else if j > i {
                    assert(before[j - 1] == v);
                }
            }
            if has_edge(before, v) {
                let j = choose|j: int| 0 <= j < before.len() && before[j] == v;
                if j < i {
                    assert(after[j] == v);
                } else {
                    assert(after[j + 1] == v);
                }
            }
            if v == e as int {
                assert(after[i as int] == v);
            }
        }
    }
}

spec fn sorted_by_start(s: Seq<(i16, i16)>) -> bool {
    forall|i: int, j: int| 0 <= i < j < s.len() ==> s[i].0 <= s[j].0
}

spec fn span_ok(t: (i16, i16)) -> bool {
    0 <= t.0 < t.1 <= SCREEN_HEIGHT as int
}

spec fn spans_ok(s: Seq<(i16, i16)>) -> bool {
    forall|j: int| 0 <= j < s.len() ==> span_ok(#[trigger] s[j])
}

/// One of the first `n` spans holds `py`.
spec fn spans_cover_upto(s: Seq<(i16, i16)>, n: int, py: int) -> bool {
    exists|j: int| 0 <= j < n && (#[trigger] s[j]).0 <= py < s[j].1
}

/// Inserts a span into a list kept in order of start.
fn insert_span(spans: &mut Vec<(i16, i16)>, t: (i16, i16))
    requires
        sorted_by_start(old(spans)@),
        spans_ok(old(spans)@),
        span_ok(t),
    ensures
        sorted_by_start(final(spans)@),
        spans_ok(final(spans)@),
        final(spans)@.len() == old(spans)@.len() + 1,
        forall|py: int| #[trigger]
            spans_cover_upto(final(spans)@, final(spans)@.len() as int, py) <==> (
            spans_cover_upto(old(spans)@, old(spans)@.len() as int, py) || t.0 <= py < t.1),
{
    let mut i: usize = 0;
    while i < spans.len() && spans[i].0 <= t.0
        invariant
            i <= spans.len(),
            forall|j: int| 0 <= j < i ==> spans@[j].0 <= t.0,
        decreases spans.len() - i,
    {
        i += 1;
    }
    let ghost before = spans@;
    spans.insert(i, t);
    proof {
        let after = spans@;
        assert(after == before.insert(i as int, t));
        assert forall|a: int, b: int| 0 <= a < b < after.len() implies after[a].0 <= after[b].0 by {
            if b < i {
            } else if b == i {
            } else if a < i {
                assert(before[b - 1].0 >= before[i as int].0);
            } else if a == i {
                assert(before[b - 1].0 >= before[i as int].0);
            } else {
            }
        }
        assert forall|j: int| 0 <= j < after.len() implies span_ok(#[trigger] after[j]) by {
            if j < i {
                assert(span_ok(before[j]));
            } else if j > i {
                assert(span_ok(before[j - 1]));
            }
        }
        assert forall|py: int| #[trigger]
            spans_cover_upto(after, after.len() as int, py) <==> (spans_cover_upto(
                before,
                before.len() as int,
                py,
            ) || t.0 <= py < t.1) by {
            if spans_cover_upto(after, after.len() as int, py) {
                let j = choose|j: int| 0 <= j < after.len() && (#[trigger] after[j]).0 <= py < after[j].1;
                if j < i {
                    assert(before[j] == after[j]);
                } else if j > i {
                    assert(before[j - 1] == after[j]);
                }
            }
            if spans_cover_upto(before, before.len() as int, py) {
                let j = choose|j: int| 0 <= j < before.len() && (#[trigger] before[j]).0 <= py < before[j].1;
                if j < i {
                    assert(after[j] == before[j]);
                } else {
                    assert(after[j + 1] == before[j]);
                }
            }
            if t.0 <= py < t.1 {
                assert(after[i as int] == t);
            }
        }
    }
}

/// The rectangles of `rs` from index `lo` on all span `[x0, x1)` across,
/// are non-empty, lie within the panel's height, and are stacked with a gap
/// between each and the next.
spec fn column_from(rs: Seq<BoundingRect>, lo: int, x0: int, x1: int) -> bool {
    &&& forall|k: int|
        lo <= k < rs.len() ==> {
            &&& (#[trigger] rs[k]).x == x0
            &&& rs[k].x_end() == x1
            &&& rs[k].height > 0
            &&& 0 <= rs[k].y
            &&& rs[k].y_end() <= SCREEN_HEIGHT as int
        }
    &&& forall|a: int, b: int| lo <= a < b < rs.len() ==> (#[trigger] rs[a]).y_end() < (#[trigger] rs[b]).y
}

/// One of the rectangles of `rs` from index `lo` on holds the row `py`.
spec fn rows_from(rs: Seq<BoundingRect>, lo: int, py: int) -> bool {
    exists|k: int| lo <= k < rs.len() && (#[trigger] rs[k]).y <= py < rs[k].y_end()
}

/// Merges spans sorted by start into maximal disjoint runs and appends one
/// rectangle `[x0, x1)` wide for each run.
fn merge_spans(spans: &Vec<(i16, i16)>, x0: i16, x1: i16, out: &mut Vec<BoundingRect>)
    requires
        spans.len() > 0,
        sorted_by_start(spans@),
        spans_ok(spans@),
        0 <= x0 < x1 <= SCREEN_WIDTH as int,
    ensures
        final(out)@.len() >= old(out)@.len(),
        final(out)@.len() <= old(out)@.len() + spans@.len(),
        final(out)@.subrange(0, old(out)@.len() as int) == old(out)@,
        column_from(final(out)@, old(out)@.len() as int, x0 as int, x1 as int),
        forall|py: int| #[trigger]
            rows_from(final(out)@, old(out)@.len() as int, py) <==> spans_cover_upto(
                spans@,
                spans@.len() as int,
                py,
            ),
{
    let ghost lo = out@.len() as int;
    let ghost start = out@;
    let mut cur: (i16, i16) = spans[0];
    let mut i: usize = 1;
    assert(span_ok(spans@[0]));
    while i < spans.len()
        invariant
            1 <= i <= spans.len(),
            sorted_by_start(spans@),
            spans_ok(spans@),
            0 <= x0 < x1 <= SCREEN_WIDTH as int,
            0 <= lo <= out@.len(),
            out@.len() <= lo + i - 1,
            out@.subrange(0, lo) == start,
            column_from(out@, lo, x0 as int, x1 as int),
            span_ok(cur),
            forall|k: int| lo <= k < out@.len() ==> (#[trigger] out@[k]).y_end() < cur.0,
            forall|j: int| i <= j < spans@.len() ==> cur.0 <= (#[trigger] spans@[j]).0,
            forall|py: int| #[trigger]
                spans_cover_upto(spans@, i as int, py) <==> (rows_from(out@, lo, py) || cur.0 <= py
                    < cur.1),
        decreases spans.len() - i,
    {
        let t = spans[i];
        assert(span_ok(spans@[i as int]));
        let ghost prev = out@;
        let ghost prev_cur = cur;
        if t.0 <= cur.1 {
            if t.1 > cur.1 {
                cur = (cur.0, t.1);
            }
            assert forall|py: int| #[trigger]
                spans_cover_upto(spans@, i + 1, py) <==> (rows_from(out@, lo, py) || cur.0 <= py
                    < cur.1) by {
                if spans_cover_upto(spans@, i + 1, py) {
                    let j = choose|j: int| 0 <= j < i + 1 && (#[trigger] spans@[j]).0 <= py < spans@[j].1;
                    if j < i {
                        assert(spans_cover_upto(spans@, i as int, py));
                    }
                }
                if rows_from(out@, lo, py) || prev_cur.0 <= py < prev_cur.1 {
                    assert(spans_cover_upto(spans@, i as int, py));
                    let j = choose|j: int| 0 <= j < i && (#[trigger] spans@[j]).0 <= py < spans@[j].1;
                    assert(spans_cover_upto(spans@, i + 1, py));
                } else if cur.0 <= py < cur.1 {
                    assert(spans@[i as int].0 <= py < spans@[i as int].1);
                    assert(spans_cover_upto(spans@, i + 1, py));
                }
            }
        } else {
            let r = BoundingRect {
                x: x0,
                y: cur.0,
                width: (x1 - x0) as u8,
                height: (cur.1 - cur.0) as u8,
            };
            out.push(r);
            assert(out@ == prev.push(r));
            cur = t;
            assert(out@.subrange(0, lo) =~= start) by {
                assert(prev.subrange(0, lo) == start);
            }
            assert forall|py: int| #[trigger]
                spans_cover_upto(spans@, i + 1, py) <==> (rows_from(out@, lo, py) || cur.0 <= py
                    < cur.1) by {
                if spans_cover_upto(spans@, i + 1, py) {
                    let j = choose|j: int| 0 <= j < i + 1 && (#[trigger] spans@[j]).0 <= py < spans@[j].1;
                    if j < i {
                        assert(spans_cover_upto(spans@, i as int, py));
                        if rows_from(prev, lo, py) {
                            let k = choose|k: int| lo <= k < prev.len() && (#[trigger] prev[k]).y <= py < prev[k].y_end();
                            assert(out@[k] == prev[k]);
                        } else {
                            assert(out@[prev.len() as int] == r);
                        }
                    }
                }
                if rows_from(out@, lo, py) {
                    let k = choose|k: int| lo <= k < out@.len() && (#[trigger] out@[k]).y <= py < out@[k].y_end();
                    if k < prev.len() {
                        assert(prev[k] == out@[k]);
                        assert(rows_from(prev, lo, py));
                    }
                    assert(spans_cover_upto(spans@, i as int, py));
                    let j = choose|j: int| 0 <= j < i && (#[trigger] spans@[j]).0 <= py < spans@[j].1;
                    assert(spans_cover_upto(spans@, i + 1, py));
                }
                if cur.0 <= py < cur.1 {
                    assert(spans@[i as int].0 <= py < spans@[i as int].1);
                    assert(spans_cover_upto(spans@, i + 1, py));
                }
            }
        }
        i += 1;
    }
    let ghost prev = out@;
    let r = BoundingRect { x: x0, y: cur.0, width: (x1 - x0) as u8, height: (cur.1 - cur.0) as u8 };
    out.push(r);
    assert(out@.subrange(0, lo) =~= start) by {
        assert(prev.subrange(0, lo) == start);
    }
    assert forall|py: int| #[trigger]
        rows_from(out@, lo, py) <==> spans_cover_upto(spans@, spans@.len() as int, py) by {
        if rows_from(out@, lo, py) {
            let k = choose|k: int| lo <= k < out@.len() && (#[trigger] out@[k]).y <= py < out@[k].y_end();
            if k < prev.len() {
                assert(prev[k] == out@[k]);
                assert(rows_from(prev, lo, py));
            }
        }
        if spans_cover_upto(spans@, spans@.len() as int, py) {
            if rows_from(prev, lo, py) {
                let k = choose|k: int| lo <= k < prev.len() && (#[trigger] prev[k]).y <= py < prev[k].y_end();
                assert(out@[k] == prev[k]);
            } else {
                assert(out@[prev.len() as int] == r);
            }
        }
    }
}

/// Both vertical edges of every rectangle of `rs` are in `edges`.
pub open spec fn edges_of_all(rs: Seq<BoundingRect>, edges: Seq<i16>) -> bool {
    forall|i: int|
        0 <= i < rs.len() ==> has_edge(edges, (#[trigger] rs[i]).x as int) && has_edge(
            edges,
            rs[i].x_end(),
        )
}

/// A rectangle holding a point of the slab `[edges[k], edges[k + 1])` spans
/// the whole slab, when both its vertical edges are among `edges`.
proof fn lemma_slab_spanned(edges: Seq<i16>, r: BoundingRect, k: int, px: int, py: int)
    requires
        strictly_sorted(edges),
        0 <= k,
        k + 1 < edges.len(),
        has_edge(edges, r.x as int),
        has_edge(edges, r.x_end()),
        edges[k] <= px < edges[k + 1],
        r.has_point(px, py),
    ensures
        r.x <= edges[k],
        r.x_end() >= edges[k + 1],
{
    let a = choose|j: int| 0 <= j < edges.len() && edges[j] == r.x as int;
    let b = choose|j: int| 0 <= j < edges.len() && edges[j] == r.x_end();
    if a > k {
        assert(edges[k + 1] <= edges[a]);
    }
    if b <= k {
        assert(edges[b] <= edges[k]);
    }
}

/// Every rectangle of `rs` lies between the first and the last edge.
proof fn lemma_edges_bound(rs: Seq<BoundingRect>, edges: Seq<i16>, i: int)
    requires
        strictly_sorted(edges),
        edges_of_all(rs, edges),
        0 <= i < rs.len(),
    ensures
        edges.len() > 0,
        edges[0] <= rs[i].x,
        rs[i].x_end() <= edges[edges.len() - 1],
{
    assert(has_edge(edges, rs[i].x as int));
    assert(has_edge(edges, rs[i].x_end()));
    let a = choose|j: int| 0 <= j < edges.len() && edges[j] == rs[i].x as int;
    let b = choose|j: int| 0 <= j < edges.len() && edges[j] == rs[i].x_end();
    if a > 0 {
        assert(edges[0] < edges[a]);
    }
    if b < edges.len() - 1 {
        assert(edges[b] < edges[edges.len() - 1]);
    }
}

/// Rectangles of `rs` that share a left edge share their width too, and
/// each lies wholly above the next with a gap between them: the runs of one
/// slab are merged as far as they go.
pub open spec fn same_column_apart(rs: Seq<BoundingRect>) -> bool {
    forall|a: int, b: int|
        0 <= a < b < rs.len() && (#[trigger] rs[a]).x == (#[trigger] rs[b]).x ==> rs[a].width == rs[b].width
            && rs[a].y_end() < rs[b].y
}

/// Computes a set of pairwise disjoint, non-empty rectangles whose union is
/// exactly the part of the union of `rects` that lies on the panel.
///
/// The union is cut into vertical slabs at every rectangle's left and right
/// edge; within a slab the rows covered by the rectangles spanning it are
/// merged into maximal runs, one output rectangle per run. `normalized`,
/// `x_edges` and `y_spans` are working storage, reused between calls so that
/// a steady frame loop allocates nothing. Afterwards `normalized` holds
/// rectangles whose union is the on-screen part of the inputs' union, and
/// `x_edges` the slab edges in increasing order, among them both vertical
/// edges of every rectangle of `normalized`; each output spans two
/// consecutive edges.
pub fn sweep_merge_rectangles(
    rects: &[BoundingRect],
    out: &mut Vec<BoundingRect>,
    normalized: &mut Vec<BoundingRect>,
    x_edges: &mut Vec<i16>,
    y_spans: &mut Vec<(i16, i16)>,
)
    ensures
        all_on_screen(final(out)@),
        pairwise_disjoint(final(out)@),
        forall|px: int, py: int| #[trigger]
            covers(final(out)@, px, py) <==> (covers(rects@, px, py) && on_screen(px, py)),
        same_column_apart(final(out)@),
        final(out)@.len() <= rects@.len() * (2 * rects@.len() - 1),
        strictly_sorted(final(x_edges)@),
        edges_of_all(final(normalized)@, final(x_edges)@),
        forall|px: int, py: int| #[trigger]
            covers(final(normalized)@, px, py) <==> (covers(rects@, px, py) && on_screen(px, py)),
        forall|j: int|
            0 <= j < final(out)@.len() ==> exists|kk: int|
                0 <= kk && kk + 1 < final(x_edges)@.len() && #[trigger] final(x_edges)@[kk] == (
                #[trigger] final(out)@[j]).x && final(x_edges)@[kk + 1] == final(out)@[j].x_end(),
{
    out.clear();
    normalized.clear();
    x_edges.clear();
    let mut i: usize = 0;
    while i < rects.len()
        invariant
            0 <= i <= rects@.len(),
            normalized@.len() <= i,
            x_edges@.len() <= 2 * normalized@.len(),
            all_on_screen(normalized@),
            strictly_sorted(x_edges@),
            edges_in_range(x_edges@),
            edges_of_all(normalized@, x_edges@),
            forall|px: int, py: int| #[trigger]
                covers(normalized@, px, py) <==> (covers_upto(rects@, i as int, px, py)
                    && on_screen(px, py)),
        decreases rects@.len() - i,
    {
        let rect = &rects[i];
        let ghost before = normalized@;
        let ghost edges_before = x_edges@;
        match normalize_rect_to_screen(rect) {
            Some((x0, x1, y0, y1)) => {
                let n = BoundingRect {
                    x: x0,
                    y: y0,
                    width: (x1 - x0) as u8,
                    height: (y1 - y0) as u8,
                };
                normalized.push(n);
                insert_edge(x_edges, x0);
                insert_edge(x_edges, x1);
                assert forall|j: int| 0 <= j < normalized@.len() implies has_edge(
                    x_edges@,
                    (#[trigger] normalized@[j]).x as int,
                ) && has_edge(x_edges@, normalized@[j].x_end()) by {
                    if j < before.len() {
                        assert(before[j] == normalized@[j]);
                    }
                }
                assert forall|px: int, py: int| #[trigger]
                    covers(normalized@, px, py) <==> (covers_upto(rects@, i + 1, px, py)
                        && on_screen(px, py)) by {
                    if covers(normalized@, px, py) {
                        let k = choose|k: int| 0 <= k < normalized@.len() && #[trigger] normalized@[k].has_point(px, py);
                        if k < before.len() {
                            assert(before[k] == normalized@[k]);
                            assert(covers(before, px, py));
                        } else {
                            assert(rects@[i as int].has_point(px, py));
                        }
                    }
                    if covers_upto(rects@, i + 1, px, py) && on_screen(px, py) {
                        let k = choose|k: int| 0 <= k < i + 1 && #[trigger] rects@[k].has_point(px, py);
                        if k < i {
                            assert(covers_upto(rects@, i as int, px, py));
                            assert(covers(before, px, py));
                            let m = choose|m: int| 0 <= m < before.len() && #[trigger] before[m].has_point(px, py);
                            assert(normalized@[m] == before[m]);
                        } else {
                            assert(normalized@[before.len() as int] == n);
                        }
                    }
                }
            },
            None => {
                assert forall|px: int, py: int| #[trigger]
                    covers(normalized@, px, py) <==> (covers_upto(rects@, i + 1, px, py)
                        && on_screen(px, py)) by {
                    if covers_upto(rects@, i + 1, px, py) && on_screen(px, py) {
                        let k = choose|k: int| 0 <= k < i + 1 && #[trigger] rects@[k].has_point(px, py);
                        if k == i {
                            assert(rects@[i as int].has_point(px, py));
                        }
                        assert(covers_upto(rects@, i as int, px, py));
                    }
                }
            },
        }
        i += 1;
    }
    if normalized.len() == 0 {
        proof {
            assert forall|px: int, py: int| #[trigger]
                covers(out@, px, py) <==> (covers(rects@, px, py) && on_screen(px, py)) by {
                if covers(rects@, px, py) && on_screen(px, py) {
                    assert(covers(normalized@, px, py));
                }
            }
        }
        return;
    }
    proof {
        lemma_edges_bound(normalized@, x_edges@, 0);
        assert(has_edge(x_edges@, normalized@[0].x as int));
        assert(has_edge(x_edges@, normalized@[0].x_end()));
        let a = choose|j: int| 0 <= j < x_edges@.len() && x_edges@[j] == normalized@[0].x as int;
        let b = choose|j: int| 0 <= j < x_edges@.len() && x_edges@[j] == normalized@[0].x_end();
        assert(a != b);
    }
    let n_edges = x_edges.len();
    let mut k: usize = 0;
    proof {
        assert(same_column_apart(out@));
    }
    while k + 1 < n_edges
        invariant
            n_edges == x_edges@.len(),
            x_edges@.len() >= 2,
            k + 1 <= x_edges@.len(),
            all_on_screen(normalized@),
            strictly_sorted(x_edges@),
            edges_in_range(x_edges@),
            edges_of_all(normalized@, x_edges@),
            forall|px: int, py: int| #[trigger]
                covers(normalized@, px, py) <==> (covers(rects@, px, py) && on_screen(px, py)),
            all_on_screen(out@),
            pairwise_disjoint(out@),
            forall|j: int| 0 <= j < out@.len() ==> (#[trigger] out@[j]).x_end() <= x_edges@[k as int],
            forall|px: int, py: int| #[trigger]
                covers(out@, px, py) <==> (covers(normalized@, px, py) && px < x_edges@[k as int]),
            same_column_apart(out@),
            forall|j: int|
                0 <= j < out@.len() ==> exists|kk: int|
                    0 <= kk < k && #[trigger] x_edges@[kk] == (#[trigger] out@[j]).x && x_edges@[kk + 1] == out@[j].x_end(),
            normalized@.len() <= rects@.len(),
            x_edges@.len() <= 2 * normalized@.len(),
            out@.len() <= k * normalized@.len(),
        decreases x_edges@.len() - k,
    {
        let x_start = x_edges[k];
        let x_end = x_edges[k + 1];
        y_spans.clear();
        let mut j: usize = 0;
        while j < normalized.len()
            invariant
                0 <= j <= normalized@.len(),
                y_spans@.len() <= j,
                k + 1 < x_edges@.len(),
                x_start == x_edges@[k as int],
                x_end == x_edges@[k + 1],
                all_on_screen(normalized@),
                sorted_by_start(y_spans@),
                spans_ok(y_spans@),
                forall|py: int| #[trigger]
                    spans_cover_upto(y_spans@, y_spans@.len() as int, py) <==> exists|m: int|
                        0 <= m < j && (#[trigger] normalized@[m]).x <= x_start && normalized@[m].x_end()
                            >= x_end && normalized@[m].y <= py < normalized@[m].y_end(),
            decreases normalized@.len() - j,
        {
            let r = normalized[j];
            assert((normalized@[j as int]).within_screen() && !normalized@[j as int].is_empty());
            if r.x <= x_start && r.x as i32 + r.width as i32 >= x_end as i32 {
                insert_span(y_spans, (r.y, (r.y as i32 + r.height as i32) as i16));
                assert forall|py: int| #[trigger]
                    spans_cover_upto(y_spans@, y_spans@.len() as int, py) <==> exists|m: int|
                        0 <= m < j + 1 && (#[trigger] normalized@[m]).x <= x_start
                            && normalized@[m].x_end() >= x_end && normalized@[m].y <= py
                            < normalized@[m].y_end() by {
                    if normalized@[j as int].y <= py < normalized@[j as int].y_end() {
                        assert(normalized@[j as int].x <= x_start);
                    }
                }
            } else {
                assert forall|py: int| #[trigger]
                    spans_cover_upto(y_spans@, y_spans@.len() as int, py) <==> exists|m: int|
                        0 <= m < j + 1 && (#[trigger] normalized@[m]).x <= x_start
                            && normalized@[m].x_end() >= x_end && normalized@[m].y <= py
                            < normalized@[m].y_end() by {
                    if exists|m: int|
                        0 <= m < j + 1 && (#[trigger] normalized@[m]).x <= x_start
                            && normalized@[m].x_end() >= x_end && normalized@[m].y <= py
                            < normalized@[m].y_end() {
                        let m = choose|m: int|
                            0 <= m < j + 1 && (#[trigger] normalized@[m]).x <= x_start
                                && normalized@[m].x_end() >= x_end && normalized@[m].y <= py
                                < normalized@[m].y_end();
                        assert(m != j);
                    }
                }
            }
            j += 1;
        }
        let ghost before = out@;
        if y_spans.len() > 0 {
            merge_spans(y_spans, x_start, x_end, out);
        }
        proof {
            let lo = before.len() as int;
            assert(out@.subrange(0, lo) == before);
            let m = normalized@.len() as int;
            assert(out@.len() <= (k + 1) * m) by (nonlinear_arith)
                requires
                    out@.len() <= lo + m,
                    lo <= k * m,
            ;
            assert forall|j: int| 0 <= j < out@.len() implies exists|kk: int|
                0 <= kk < k + 1 && #[trigger] x_edges@[kk] == (#[trigger] out@[j]).x && x_edges@[kk + 1]
                    == out@[j].x_end() by {
                if j < lo {
                    assert(out@[j] == before[j]);
                    let kk = choose|kk: int|
                        0 <= kk < k && #[trigger] x_edges@[kk] == (#[trigger] before[j]).x && x_edges@[kk + 1]
                            == before[j].x_end();
                    assert(x_edges@[kk] == out@[j].x);
                } else {
                    assert(x_edges@[k as int] == out@[j].x);
                }
            }
            assert forall|a: int, b: int|
                0 <= a < b < out@.len() && (#[trigger] out@[a]).x == (#[trigger] out@[b]).x implies out@[a].width
                    == out@[b].width && out@[a].y_end() < out@[b].y by {
                if b < lo {
                    assert(out@[a] == before[a] && out@[b] == before[b]);
                } else if a < lo {
                    assert(out@[a] == before[a]);
                    assert(out@[a].x_end() <= x_start);
                    assert(!out@[a].is_empty());
                }
            }
            assert forall|a: int| 0 <= a < out@.len() implies (#[trigger] out@[a]).within_screen()
                && !out@[a].is_empty() && out@[a].x_end() <= x_edges@[k + 1] by {
                if a < lo {
                    assert(out@[a] == before[a]);
                }
            }
            assert forall|a: int, b: int|
                0 <= a < out@.len() && 0 <= b < out@.len() && a != b implies !#[trigger] out@[a].spec_overlaps(
                #[trigger] out@[b],
            ) by {
                if a < lo && b < lo {
                    assert(out@[a] == before[a] && out@[b] == before[b]);
                } else if a < lo {
                    assert(out@[a] == before[a]);
                } else if b < lo {
                    assert(out@[b] == before[b]);
                } else if a < b {
                    assert(out@[a].y_end() < out@[b].y);
                } else {
                    assert(out@[b].y_end() < out@[a].y);
                }
            }
            assert forall|px: int, py: int| #[trigger]
                covers(out@, px, py) <==> (covers(normalized@, px, py) && px < x_edges@[k + 1]) by {
                if covers(out@, px, py) {
                    let a = choose|a: int| 0 <= a < out@.len() && #[trigger] out@[a].has_point(px, py);
                    if a < lo {
                        assert(out@[a] == before[a]);
                        assert(covers(before, px, py));
                    } else {
                        assert(rows_from(out@, lo, py));
                        assert(spans_cover_upto(y_spans@, y_spans@.len() as int, py));
                        let m = choose|m: int|
                            0 <= m < normalized@.len() && (#[trigger] normalized@[m]).x <= x_start
                                && normalized@[m].x_end() >= x_end && normalized@[m].y <= py
                                < normalized@[m].y_end();
                        assert(normalized@[m].has_point(px, py));
                    }
                }
                if covers(normalized@, px, py) && px < x_edges@[k + 1] {
                    if px < x_edges@[k as int] {
                        assert(covers(before, px, py));
                        let a = choose|a: int| 0 <= a < before.len() && #[trigger] before[a].has_point(px, py);
                        assert(out@[a] == before[a]);
                    } else {
                        let m = choose|m: int| 0 <= m < normalized@.len() && #[trigger] normalized@[m].has_point(px, py);
                        lemma_slab_spanned(x_edges@, normalized@[m], k as int, px, py);
                        assert(spans_cover_upto(y_spans@, y_spans@.len() as int, py));
                        assert(rows_from(out@, lo, py));
                        let a = choose|a: int| lo <= a < out@.len() && (#[trigger] out@[a]).y <= py < out@[a].y_end();
                        assert(out@[a].has_point(px, py));
                    }
                }
            }
        }
        k += 1;
    }
    proof {
        let m = normalized@.len() as int;
        let n = rects@.len() as int;
        assert(out@.len() <= n * (2 * n - 1)) by (nonlinear_arith)
            requires
                out@.len() <= k * m,
                k + 1 == x_edges@.len(),
                x_edges@.len() <= 2 * m,
                0 <= m <= n,
                1 <= m,
        ;
        assert forall|px: int, py: int| #[trigger]
            covers(out@, px, py) <==> (covers(rects@, px, py) && on_screen(px, py)) by {
            if covers(normalized@, px, py) {
                let m = choose|m: int| 0 <= m < normalized@.len() && #[trigger] normalized@[m].has_point(px, py);
                lemma_edges_bound(normalized@, x_edges@, m);
            }
        }
    }
}

} // verus!
