//! The walk of the scene tree in drawing order: the root first, each
//! element before its children, children in the order they were added,
//! with each element's absolute rectangle.
use vstd::prelude::*;
use crate::arena::ArbitraryIdStore;
use crate::dirty::{contains_id, ids_of, DirtySet};
use crate::elements::UIElement;
use crate::geometry::BoundingRect;

verus! {

/// An element reached by the walk of the scene tree, with its absolute
/// rectangle: its own rectangle moved by the offsets of its ancestors.
/// `parent` is the position in the walk of the element it was reached
/// from (the root's own position for the root), and `child_index` its
/// place among that element's children.
#[derive(Clone, Copy, Debug, PartialEq, Eq, Structural)]
pub struct TreeNode {
    pub element_id: usize,
    pub rect: BoundingRect,
    pub parent: usize,
    pub child_index: usize,
}

/// An element of the walk whose children are being visited: `at` is its
/// position in the walk, `next` the next child to visit, `(x, y)` its
/// absolute origin.
#[derive(Clone, Copy)]
struct Frame {
    at: usize,
    element_id: usize,
    next: usize,
    x: i16,
    y: i16,
}

/// `v` held to the range of `i16`.
pub open spec fn clamp16(v: int) -> i16 {
    if v < i16::MIN {
        i16::MIN
    } else if v > i16::MAX {
        i16::MAX
    } else {
        v as i16
    }
}

fn add_clamped(a: i16, b: i16) -> (r: i16)
    ensures
        r == clamp16(a + b),
{
    let v: i32 = a as i32 + b as i32;
    if v < i16::MIN as i32 {
        i16::MIN
    } else if v > i16::MAX as i32 {
        i16::MAX
    } else {
        v as i16
    }
}

/// The absolute rectangles of the nodes of `ordered` whose element is in
/// `dirty`, in order.
pub open spec fn dirty_rects(ordered: Seq<TreeNode>, dirty: Set<usize>) -> Seq<BoundingRect>
    decreases ordered.len(),
{
    if ordered.len() == 0 {
        Seq::empty()
    } else if dirty.contains(ordered.last().element_id) {
        dirty_rects(ordered.drop_last(), dirty).push(ordered.last().rect)
    } else {
        dirty_rects(ordered.drop_last(), dirty)
    }
}

/// The total area of `rs`, added up with saturation at `usize::MAX`.
pub open spec fn saturated_area(rs: Seq<BoundingRect>) -> int
    decreases rs.len(),
{
    if rs.len() == 0 {
        0
    } else {
        let a = saturated_area(rs.drop_last()) + rs.last().width * rs.last().height;
        if a > usize::MAX {
            usize::MAX as int
        } else {
            a
        }
    }
}

/// Slots of `bs` still false.
spec fn unvisited(bs: Seq<bool>) -> nat
    decreases bs.len(),
{
    if bs.len() == 0 {
        0
    } else {
        unvisited(bs.drop_last()) + if bs.last() {
            0nat
        } else {
            1nat
        }
    }
}

proof fn lemma_unvisited_mark(bs: Seq<bool>, i: int)
    requires
        0 <= i < bs.len(),
        !bs[i],
    ensures
        unvisited(bs.update(i, true)) + 1 == unvisited(bs),
    decreases bs.len(),
{
    let u = bs.update(i, true);
    if i == bs.len() - 1 {
        assert(u.drop_last() =~= bs.drop_last());
    } else {
        assert(u.drop_last() =~= bs.drop_last().update(i, true));
        lemma_unvisited_mark(bs.drop_last(), i);
    }
}

/// The arena holds an element in every slot, the root first, and every
/// child id names a slot.
pub open spec fn tree_ok(slots: Seq<Option<UIElement>>) -> bool {
    &&& slots.len() >= 1
    &&& forall|i: int| 0 <= i < slots.len() ==> (#[trigger] slots[i]) is Some
    &&& forall|i: int, k: int|
        0 <= i < slots.len() && 0 <= k < slots[i]->0.spec_children().len() ==> 0
            <= #[trigger] slots[i]->0.spec_children()[k] < slots.len()
}

/// The children of element `id` of `slots`.
pub open spec fn kids(slots: Seq<Option<UIElement>>, id: int) -> Seq<usize> {
    slots[id]->0.spec_children()
}

/// `local` moved by the absolute origin `(ox, oy)` of its parent.
pub open spec fn abs_rect(ox: int, oy: int, local: BoundingRect) -> BoundingRect {
    BoundingRect {
        x: clamp16(ox + local.x),
        y: clamp16(oy + local.y),
        width: local.width,
        height: local.height,
    }
}

/// Element `id` is among the first `k` nodes of the walk.
pub open spec fn listed_before(ordered: Seq<TreeNode>, id: usize, k: int) -> bool {
    exists|m: int| 0 <= m < k && (#[trigger] ordered[m]).element_id == id
}

/// Node `j` of the walk is node `p` or lies below it: following parents
/// from `j` reaches `p`.
pub open spec fn descends(ordered: Seq<TreeNode>, j: int, p: int) -> bool
    decreases j,
{
    if j == p {
        true
    } else if 0 < j < ordered.len() && (ordered[j].parent as int) < j {
        descends(ordered, ordered[j].parent as int, p)
    } else {
        false
    }
}

/// `ordered` is a walk of the scene `slots` from the root in pre-order:
/// the root comes first; every other node was reached as child
/// `child_index` of an earlier node `parent`, after all earlier children of
/// that parent, and the node just before it is that parent or lies below
/// it (so a node's whole subtree comes before its next sibling); its
/// rectangle is its own moved by its parent's origin; no element comes
/// twice; and every child of a node of the walk is in it.
#[verifier::opaque]
pub open spec fn walk_ok(slots: Seq<Option<UIElement>>, ordered: Seq<TreeNode>) -> bool {
    &&& ordered.len() >= 1
    &&& ordered[0].element_id == 0
    &&& ordered[0].rect == abs_rect(0, 0, slots[0]->0.spec_rect())
    &&& forall|k: int|
        0 <= k < ordered.len() ==> {
            &&& (#[trigger] ordered[k]).element_id < slots.len()
            &&& ordered[k].rect.width == slots[ordered[k].element_id as int]->0.spec_rect().width
            &&& ordered[k].rect.height == slots[ordered[k].element_id as int]->0.spec_rect().height
        }
    &&& forall|k: int|
        1 <= k < ordered.len() ==> {
            let p = (#[trigger] ordered[k]).parent as int;
            let ci = ordered[k].child_index as int;
            &&& p < k
            &&& ci < kids(slots, ordered[p].element_id as int).len()
            &&& kids(slots, ordered[p].element_id as int)[ci] == ordered[k].element_id
            &&& ordered[k].rect == abs_rect(
                ordered[p].rect.x as int,
                ordered[p].rect.y as int,
                slots[ordered[k].element_id as int]->0.spec_rect(),
            )
            &&& forall|a: int|
                0 <= a < ci ==> listed_before(
                    ordered,
                    #[trigger] kids(slots, ordered[p].element_id as int)[a],
                    k,
                )
        }
    &&& forall|k: int| 1 <= k < ordered.len() ==> descends(ordered, k - 1, (#[trigger] ordered[k]).parent as int)
    &&& forall|a: int, b: int|
        0 <= a < b < ordered.len() ==> (#[trigger] ordered[a]).element_id != (#[trigger] ordered[b]).element_id
    &&& forall|k: int, a: int|
        0 <= k < ordered.len() && 0 <= a < kids(slots, ordered[k].element_id as int).len() ==> listed_before(
            ordered,
            #[trigger] kids(slots, ordered[k].element_id as int)[a],
            ordered.len() as int,
        )
}

/// Frames still to finish: for each, the children left to visit plus one.
spec fn work(stack: Seq<Frame>, slots: Seq<Option<UIElement>>) -> nat
    decreases stack.len(),
{
    if stack.len() == 0 {
        0
    } else {
        work(stack.drop_last(), slots) + (kids(slots, stack.last().element_id as int).len()
            - stack.last().next + 1) as nat
    }
}

proof fn lemma_listed_grows(old: Seq<TreeNode>, new: Seq<TreeNode>, id: usize, k: int, k2: int)
    requires
        old.len() <= new.len(),
        new.subrange(0, old.len() as int) == old,
        k <= old.len(),
        k <= k2,
        listed_before(old, id, k),
    ensures
        listed_before(new, id, k2),
{
    let m = choose|m: int| 0 <= m < k && (#[trigger] old[m]).element_id == id;
    assert(new.subrange(0, old.len() as int)[m] == new[m]);
}

/// Appends `node` to the walk; when its element waits to be redrawn, its
/// rectangle joins `sources` and its area the total.
fn list_node(
    ordered: &mut Vec<TreeNode>,
    sources: &mut Vec<BoundingRect>,
    area: usize,
    dirty: &DirtySet,
    node: TreeNode,
) -> (r: usize)
    requires
        old(sources)@ == dirty_rects(old(ordered)@, ids_of(*dirty)),
        area == saturated_area(old(sources)@),
    ensures
        final(ordered)@ == old(ordered)@.push(node),
        final(sources)@ == dirty_rects(final(ordered)@, ids_of(*dirty)),
        r == saturated_area(final(sources)@),
{
    let ghost before = ordered@;
    ordered.push(node);
    proof {
        assert(ordered@.drop_last() =~= before);
    }
    if contains_id(dirty, node.element_id) {
        let ghost prev = sources@;
        let w = node.rect.width as usize;
        let h = node.rect.height as usize;
        assert(w * h <= 255 * 255) by (nonlinear_arith)
            requires
                w <= 255,
                h <= 255,
        ;
        let total = area.saturating_add(w * h);
        sources.push(node.rect);
        proof {
            assert(sources@.drop_last() =~= prev);
        }
        total
    } else {
        area
    }
}

/// The visited elements are exactly those listed in `ordered`.
#[verifier::opaque]
spec fn visited_listed(slots: Seq<Option<UIElement>>, visited: Seq<bool>, ordered: Seq<TreeNode>) -> bool {
    &&& visited.len() == slots.len()
    &&& forall|i: usize|
        i < slots.len() ==> #[trigger] visited[i as int] == listed_before(
            ordered,
            i,
            ordered.len() as int,
        )
}

/// The root comes first, at its own rectangle.
#[verifier::opaque]
spec fn root_first(slots: Seq<Option<UIElement>>, ordered: Seq<TreeNode>) -> bool {
    &&& ordered.len() >= 1
    &&& ordered[0].element_id == 0
    &&& ordered[0].rect == abs_rect(0, 0, slots[0]->0.spec_rect())
}

/// Every node names an element and has its size; every node but the root
/// was reached as a child of an earlier node, after that node's earlier
/// children, and sits at its own rectangle moved by the parent's origin.
#[verifier::opaque]
spec fn nodes_placed(slots: Seq<Option<UIElement>>, ordered: Seq<TreeNode>) -> bool {
    &&& forall|k: int|
        0 <= k < ordered.len() ==> {
            &&& (#[trigger] ordered[k]).element_id < slots.len()
            &&& ordered[k].rect.width == slots[ordered[k].element_id as int]->0.spec_rect().width
            &&& ordered[k].rect.height == slots[ordered[k].element_id as int]->0.spec_rect().height
        }
    &&& forall|k: int|
        1 <= k < ordered.len() ==> {
            let p = (#[trigger] ordered[k]).parent as int;
            let ci = ordered[k].child_index as int;
            &&& p < k
            &&& ci < kids(slots, ordered[p].element_id as int).len()
            &&& kids(slots, ordered[p].element_id as int)[ci] == ordered[k].element_id
            &&& ordered[k].rect == abs_rect(
                ordered[p].rect.x as int,
                ordered[p].rect.y as int,
                slots[ordered[k].element_id as int]->0.spec_rect(),
            )
            &&& forall|a: int|
                0 <= a < ci ==> listed_before(
                    ordered,
                    #[trigger] kids(slots, ordered[p].element_id as int)[a],
                    k,
                )
        }
}

/// No element is listed twice.
#[verifier::opaque]
spec fn nodes_distinct(ordered: Seq<TreeNode>) -> bool {
    forall|a: int, b: int|
        0 <= a < b < ordered.len() ==> (#[trigger] ordered[a]).element_id != (#[trigger] ordered[b]).element_id
}

/// Every frame on the stack is in order.
#[verifier::opaque]
spec fn frames_ok(slots: Seq<Option<UIElement>>, ordered: Seq<TreeNode>, stack: Seq<Frame>) -> bool {
    forall|t: int| 0 <= t < stack.len() ==> #[trigger] frame_ok(slots, ordered, stack[t])
}

/// A listed node either still has a frame on the stack or has all its
/// children listed.
#[verifier::opaque]
spec fn open_or_done(slots: Seq<Option<UIElement>>, ordered: Seq<TreeNode>, stack: Seq<Frame>) -> bool {
    forall|k: int|
        0 <= k < ordered.len() ==> (exists|t: int| 0 <= t < stack.len() && (#[trigger] stack[t]).at == k)
            || #[trigger] kids_listed(slots, ordered, k)
}

/// What holds of the walk between two steps.
spec fn walk_inv(
    slots: Seq<Option<UIElement>>,
    visited: Seq<bool>,
    ordered: Seq<TreeNode>,
    stack: Seq<Frame>,
) -> bool {
    &&& tree_ok(slots)
    &&& visited_listed(slots, visited, ordered)
    &&& root_first(slots, ordered)
    &&& nodes_placed(slots, ordered)
    &&& nodes_distinct(ordered)
    &&& frames_ok(slots, ordered, stack)
    &&& open_or_done(slots, ordered, stack)
    &&& in_preorder(ordered, stack)
}

/// The walk so far is in pre-order, and the stack is the path from the
/// root to the node whose subtree is being walked: each frame's node is
/// the parent of the next frame's, and the last listed node lies below the
/// top frame's.
#[verifier::opaque]
spec fn in_preorder(ordered: Seq<TreeNode>, stack: Seq<Frame>) -> bool {
    &&& forall|k: int| 1 <= k < ordered.len() ==> descends(ordered, k - 1, (#[trigger] ordered[k]).parent as int)
    &&& stack.len() > 0 ==> stack[0].at == 0 && descends(ordered, ordered.len() - 1, stack.last().at as int)
    &&& forall|t: int|
        1 <= t < stack.len() ==> stack[t - 1].at < (#[trigger] stack[t]).at && ordered[stack[t].at as int].parent
            == stack[t - 1].at
}

proof fn lemma_descends_grows(old: Seq<TreeNode>, new: Seq<TreeNode>, j: int, p: int)
    requires
        old.len() <= new.len(),
        new.subrange(0, old.len() as int) == old,
        j < old.len(),
        descends(old, j, p),
    ensures
        descends(new, j, p),
    decreases j,
{
    if j != p {
        assert(new.subrange(0, old.len() as int)[j] == new[j]);
        lemma_descends_grows(old, new, old[j].parent as int, p);
    }
}

proof fn lemma_descends_up(ordered: Seq<TreeNode>, j: int, p: int)
    requires
        descends(ordered, j, p),
        1 <= p < ordered.len(),
        (ordered[p].parent as int) < p,
    ensures
        descends(ordered, j, ordered[p].parent as int),
    decreases j,
{
    let q = ordered[p].parent as int;
    if j != p {
        lemma_descends_up(ordered, ordered[j].parent as int, p);
    } else {
        assert(descends(ordered, q, q));
    }
}

proof fn lemma_pre_new(ordered: Seq<TreeNode>, stack: Seq<Frame>, node: TreeNode, at: usize, nf: Frame)
    requires
        in_preorder(ordered, stack),
        stack.len() > 0,
        forall|t: int| 0 <= t < stack.len() ==> (#[trigger] stack[t]).at < ordered.len(),
        node.parent == stack.last().at,
        at == ordered.len(),
        nf.at == at,
    ensures
        in_preorder(ordered.push(node), stack.update(stack.len() - 1, advanced(stack.last())).push(nf)),
{
    reveal(in_preorder);
    let ord = ordered.push(node);
    let top = stack.len() - 1;
    let st = stack.update(top, advanced(stack.last())).push(nf);
    let L = ordered.len() as int;
    assert(ord.subrange(0, L) =~= ordered);
    assert forall|k: int| 1 <= k < ord.len() implies descends(ord, k - 1, (#[trigger] ord[k]).parent as int) by {
        if k < L {
            assert(ord[k] == ordered[k]);
            lemma_descends_grows(ordered, ord, k - 1, ordered[k].parent as int);
        } else {
            lemma_descends_grows(ordered, ord, L - 1, stack.last().at as int);
        }
    }
    assert(st[0].at == 0);
    assert(st.last().at == L);
    assert forall|t: int| 1 <= t < st.len() implies st[t - 1].at < (#[trigger] st[t]).at && ord[st[t].at as int].parent
        == st[t - 1].at by {
        if t < top {
            assert(stack[t].at == st[t].at && stack[t - 1].at == st[t - 1].at);
            assert(ord[stack[t].at as int] == ordered[stack[t].at as int]);
        } else if t == top {
            assert(stack[t].at == st[t].at && stack[t - 1].at == st[t - 1].at);
            assert(ord[stack[t].at as int] == ordered[stack[t].at as int]);
        } else {
            assert(st[t - 1].at == stack[top].at);
        }
    }
}

proof fn lemma_pre_seen(ordered: Seq<TreeNode>, stack: Seq<Frame>)
    requires
        in_preorder(ordered, stack),
        stack.len() > 0,
    ensures
        in_preorder(ordered, stack.update(stack.len() - 1, advanced(stack.last()))),
{
    reveal(in_preorder);
    let st = stack.update(stack.len() - 1, advanced(stack.last()));
    assert forall|t: int| 1 <= t < st.len() implies st[t - 1].at < (#[trigger] st[t]).at && ordered[st[t].at as int].parent
        == st[t - 1].at by {
        assert(stack[t].at == st[t].at && stack[t - 1].at == st[t - 1].at);
    }
}

proof fn lemma_pre_pop(ordered: Seq<TreeNode>, stack: Seq<Frame>)
    requires
        in_preorder(ordered, stack),
        stack.len() > 0,
        forall|t: int| 0 <= t < stack.len() ==> (#[trigger] stack[t]).at < ordered.len(),
    ensures
        in_preorder(ordered, stack.drop_last()),
{
    reveal(in_preorder);
    let st = stack.drop_last();
    let top = stack.len() - 1;
    if st.len() > 0 {
        let p = stack[top].at as int;
        assert(stack[top - 1].at < stack[top].at);
        assert(stack[top].at < ordered.len());
        lemma_descends_up(ordered, ordered.len() - 1, p);
    }
    assert forall|t: int| 1 <= t < st.len() implies st[t - 1].at < (#[trigger] st[t]).at && ordered[st[t].at as int].parent
        == st[t - 1].at by {
        assert(stack[t] == st[t] && stack[t - 1] == st[t - 1]);
    }
}

/// Every child of node `k` of the walk is listed.
spec fn kids_listed(slots: Seq<Option<UIElement>>, ordered: Seq<TreeNode>, k: int) -> bool {
    forall|a: int|
        0 <= a < kids(slots, ordered[k].element_id as int).len() ==> listed_before(
            ordered,
            #[trigger] kids(slots, ordered[k].element_id as int)[a],
            ordered.len() as int,
        )
}

/// Frame `f` stands for a listed node whose first `f.next` children are
/// listed.
spec fn frame_ok(slots: Seq<Option<UIElement>>, ordered: Seq<TreeNode>, f: Frame) -> bool {
    &&& f.at < ordered.len()
    &&& ordered[f.at as int].element_id == f.element_id
    &&& f.element_id < slots.len()
    &&& f.x == ordered[f.at as int].rect.x
    &&& f.y == ordered[f.at as int].rect.y
    &&& f.next <= kids(slots, f.element_id as int).len()
    &&& forall|a: int|
        0 <= a < f.next ==> listed_before(
            ordered,
            #[trigger] kids(slots, f.element_id as int)[a],
            ordered.len() as int,
        )
}

proof fn lemma_frame_ok_grows(slots: Seq<Option<UIElement>>, old: Seq<TreeNode>, new: Seq<TreeNode>, f: Frame)
    requires
        frame_ok(slots, old, f),
        old.len() <= new.len(),
        new.subrange(0, old.len() as int) == old,
    ensures
        frame_ok(slots, new, f),
{
    assert(new.subrange(0, old.len() as int)[f.at as int] == new[f.at as int]);
    assert forall|a: int| 0 <= a < f.next implies listed_before(
        new,
        #[trigger] kids(slots, f.element_id as int)[a],
        new.len() as int,
    ) by {
        lemma_listed_grows(old, new, kids(slots, f.element_id as int)[a], old.len() as int, new.len() as int);
    }
}

proof fn lemma_kids_listed_grows(slots: Seq<Option<UIElement>>, old: Seq<TreeNode>, new: Seq<TreeNode>, k: int)
    requires
        0 <= k < old.len(),
        kids_listed(slots, old, k),
        old.len() <= new.len(),
        new.subrange(0, old.len() as int) == old,
    ensures
        kids_listed(slots, new, k),
{
    assert(new.subrange(0, old.len() as int)[k] == new[k]);
    assert forall|a: int| 0 <= a < kids(slots, new[k].element_id as int).len() implies listed_before(
        new,
        #[trigger] kids(slots, new[k].element_id as int)[a],
        new.len() as int,
    ) by {
        lemma_listed_grows(old, new, kids(slots, old[k].element_id as int)[a], old.len() as int, new.len() as int);
    }
}

/// The node listed for child `c`, reached from frame `f`.
spec fn child_node(slots: Seq<Option<UIElement>>, f: Frame, c: usize) -> TreeNode {
    TreeNode {
        element_id: c,
        rect: abs_rect(f.x as int, f.y as int, slots[c as int]->0.spec_rect()),
        parent: f.at,
        child_index: f.next,
    }
}

/// `f` with its next child moved on by one.
spec fn advanced(f: Frame) -> Frame {
    Frame { next: (f.next + 1) as usize, ..f }
}

proof fn lemma_new_visited(
    slots: Seq<Option<UIElement>>,
    visited: Seq<bool>,
    ordered: Seq<TreeNode>,
    c: usize,
    node: TreeNode,
)
    requires
        visited_listed(slots, visited, ordered),
        0 <= c < slots.len(),
        !visited[c as int],
        node.element_id == c,
    ensures
        visited_listed(slots, visited.update(c as int, true), ordered.push(node)),
        !listed_before(ordered, c, ordered.len() as int),
{
    reveal(visited_listed);
    let ord = ordered.push(node);
    let vis = visited.update(c as int, true);
    let L = ordered.len() as int;
    assert(ord.subrange(0, L) =~= ordered);
    assert forall|i: usize| i < slots.len() implies #[trigger] vis[i as int] == listed_before(
        ord,
        i,
        ord.len() as int,
    ) by {
        if i == c {
            assert(ord[L].element_id == c);
        } else {
            if visited[i as int] {
                lemma_listed_grows(ordered, ord, i, L, L + 1);
            }
            if listed_before(ord, i, ord.len() as int) {
                let m = choose|m: int| 0 <= m < ord.len() && (#[trigger] ord[m]).element_id == i;
                assert(m != L);
                assert(ordered[m] == ord[m]);
                assert(listed_before(ordered, i, L));
            }
        }
    }
    assert(!listed_before(ordered, c, L)) by {
        assert(!visited[c as int]);
    }
}

proof fn lemma_new_placed(slots: Seq<Option<UIElement>>, ordered: Seq<TreeNode>, f: Frame, c: usize)
    requires
        nodes_placed(slots, ordered),
        frame_ok(slots, ordered, f),
        f.next < kids(slots, f.element_id as int).len(),
        c == kids(slots, f.element_id as int)[f.next as int],
        c < slots.len(),
    ensures
        nodes_placed(slots, ordered.push(child_node(slots, f, c))),
{
    reveal(nodes_placed);
    let node = child_node(slots, f, c);
    let ord = ordered.push(node);
    let L = ordered.len() as int;
    assert(ord.subrange(0, L) =~= ordered);
    assert forall|k: int| 0 <= k < ord.len() implies {
        &&& (#[trigger] ord[k]).element_id < slots.len()
        &&& ord[k].rect.width == slots[ord[k].element_id as int]->0.spec_rect().width
        &&& ord[k].rect.height == slots[ord[k].element_id as int]->0.spec_rect().height
    } by {
        if k < L {
            assert(ord[k] == ordered[k]);
        }
    }
    assert forall|k: int| 1 <= k < ord.len() implies {
        let p = (#[trigger] ord[k]).parent as int;
        let ci = ord[k].child_index as int;
        &&& p < k
        &&& ci < kids(slots, ord[p].element_id as int).len()
        &&& kids(slots, ord[p].element_id as int)[ci] == ord[k].element_id
        &&& ord[k].rect == abs_rect(
            ord[p].rect.x as int,
            ord[p].rect.y as int,
            slots[ord[k].element_id as int]->0.spec_rect(),
        )
        &&& forall|a: int|
            0 <= a < ci ==> listed_before(
                ord,
                #[trigger] kids(slots, ord[p].element_id as int)[a],
                k,
            )
    } by {
        if k < L {
            assert(ord[k] == ordered[k]);
            let p = ord[k].parent as int;
            assert(ord[p] == ordered[p]);
            assert forall|a: int| 0 <= a < ord[k].child_index as int implies listed_before(
                ord,
                #[trigger] kids(slots, ord[p].element_id as int)[a],
                k,
            ) by {
                lemma_listed_grows(ordered, ord, kids(slots, ord[p].element_id as int)[a], k, k);
            }
        } else {
            let p = f.at as int;
            assert(ord[p] == ordered[p]);
            assert forall|a: int| 0 <= a < f.next as int implies listed_before(
                ord,
                #[trigger] kids(slots, ord[p].element_id as int)[a],
                k,
            ) by {
                lemma_listed_grows(ordered, ord, kids(slots, f.element_id as int)[a], L, L);
            }
        }
    }
}

proof fn lemma_new_distinct(ordered: Seq<TreeNode>, node: TreeNode)
    requires
        nodes_distinct(ordered),
        !listed_before(ordered, node.element_id, ordered.len() as int),
    ensures
        nodes_distinct(ordered.push(node)),
{
    reveal(nodes_distinct);
    let ord = ordered.push(node);
    let L = ordered.len() as int;
    assert forall|x: int, y: int| 0 <= x < y < ord.len() implies (#[trigger] ord[x]).element_id
        != (#[trigger] ord[y]).element_id by {
        assert(ord[x] == ordered[x]);
        if y < L {
            assert(ord[y] == ordered[y]);
        }
    }
}

proof fn lemma_new_frames(
    slots: Seq<Option<UIElement>>,
    ordered: Seq<TreeNode>,
    stack: Seq<Frame>,
    c: usize,
    at: usize,
)
    requires
        frames_ok(slots, ordered, stack),
        at == ordered.len(),
        stack.last().next < usize::MAX,
        stack.len() > 0,
        stack.last().next < kids(slots, stack.last().element_id as int).len(),
        c == kids(slots, stack.last().element_id as int)[stack.last().next as int],
        c < slots.len(),
    ensures
        ({
            let node = child_node(slots, stack.last(), c);
            frames_ok(
                slots,
                ordered.push(node),
                stack.update(stack.len() - 1, advanced(stack.last())).push(
                    Frame { at, element_id: c, next: 0, x: node.rect.x, y: node.rect.y },
                ),
            )
        }),
{
    reveal(frames_ok);
    let f = stack.last();
    let top = stack.len() - 1;
    let node = child_node(slots, f, c);
    let f1 = advanced(f);
    let nf = Frame { at, element_id: c, next: 0, x: node.rect.x, y: node.rect.y };
    let ord = ordered.push(node);
    let st = stack.update(top, f1).push(nf);
    let L = ordered.len() as int;
    assert(ord.subrange(0, L) =~= ordered);
    assert(frame_ok(slots, ordered, stack[top]));
    assert forall|t: int| 0 <= t < st.len() implies #[trigger] frame_ok(slots, ord, st[t]) by {
        if t < top {
            assert(st[t] == stack[t]);
            assert(frame_ok(slots, ordered, stack[t]));
            lemma_frame_ok_grows(slots, ordered, ord, stack[t]);
        } else if t == top {
            assert(st[t] == f1);
            lemma_frame_ok_grows(slots, ordered, ord, f);
            assert forall|a: int| 0 <= a < f1.next implies listed_before(
                ord,
                #[trigger] kids(slots, f1.element_id as int)[a],
                ord.len() as int,
            ) by {
                if a == f.next {
                    assert(ord[L].element_id == kids(slots, f1.element_id as int)[a]);
                }
            }
        } else {
            assert(st[t] == nf);
            assert(ord[L] == node);
        }
    }
}

proof fn lemma_new_open(
    slots: Seq<Option<UIElement>>,
    ordered: Seq<TreeNode>,
    stack: Seq<Frame>,
    c: usize,
    at: usize,
)
    requires
        open_or_done(slots, ordered, stack),
        at == ordered.len(),
        stack.len() > 0,
    ensures
        ({
            let node = child_node(slots, stack.last(), c);
            open_or_done(
                slots,
                ordered.push(node),
                stack.update(stack.len() - 1, advanced(stack.last())).push(
                    Frame { at, element_id: c, next: 0, x: node.rect.x, y: node.rect.y },
                ),
            )
        }),
{
    reveal(open_or_done);
    let f = stack.last();
    let top = stack.len() - 1;
    let node = child_node(slots, f, c);
    let nf = Frame { at, element_id: c, next: 0, x: node.rect.x, y: node.rect.y };
    let ord = ordered.push(node);
    let st = stack.update(top, advanced(f)).push(nf);
    let L = ordered.len() as int;
    assert(ord.subrange(0, L) =~= ordered);
    assert forall|k: int| 0 <= k < ord.len() implies (exists|t: int| 0 <= t < st.len() && (#[trigger] st[t]).at == k)
        || #[trigger] kids_listed(slots, ord, k) by {
        if k == L {
            assert(st[st.len() - 1].at == k);
        } else if exists|t: int| 0 <= t < stack.len() && (#[trigger] stack[t]).at == k {
            let t = choose|t: int| 0 <= t < stack.len() && (#[trigger] stack[t]).at == k;
            assert(st[t].at == k);
        } else {
            assert(kids_listed(slots, ordered, k));
            lemma_kids_listed_grows(slots, ordered, ord, k);
        }
    }
}

proof fn lemma_root_stays(slots: Seq<Option<UIElement>>, ordered: Seq<TreeNode>, node: TreeNode)
    requires
        root_first(slots, ordered),
    ensures
        root_first(slots, ordered.push(node)),
{
    reveal(root_first);
}

/// Skipping a child already listed moves its parent's frame on.
proof fn lemma_step_seen(
    slots: Seq<Option<UIElement>>,
    visited: Seq<bool>,
    ordered: Seq<TreeNode>,
    stack: Seq<Frame>,
)
    requires
        walk_inv(slots, visited, ordered, stack),
        stack.len() > 0,
        stack.last().next < usize::MAX,
        stack.last().next < kids(slots, stack.last().element_id as int).len(),
        kids(slots, stack.last().element_id as int)[stack.last().next as int] < slots.len(),
        visited[kids(slots, stack.last().element_id as int)[stack.last().next as int] as int],
    ensures
        walk_inv(slots, visited, ordered, stack.update(stack.len() - 1, advanced(stack.last()))),
        work(stack.update(stack.len() - 1, advanced(stack.last())), slots) < work(stack, slots),
{
    let f = stack.last();
    let top = stack.len() - 1;
    let f1 = advanced(f);
    let st = stack.update(top, f1);
    assert(st.drop_last() =~= stack.drop_last());
    let c = kids(slots, f.element_id as int)[f.next as int];
    reveal(visited_listed);
    assert(visited[c as int]);
    assert(listed_before(ordered, c, ordered.len() as int));
    reveal(frames_ok);
    assert(frame_ok(slots, ordered, stack[top]));
    assert forall|t: int| 0 <= t < st.len() implies #[trigger] frame_ok(slots, ordered, st[t]) by {
        if t != top {
            assert(st[t] == stack[t]);
        } else {
            assert forall|a: int| 0 <= a < f1.next implies listed_before(
                ordered,
                #[trigger] kids(slots, f1.element_id as int)[a],
                ordered.len() as int,
            ) by {
                if a < f.next {
                    assert(listed_before(ordered, kids(slots, f.element_id as int)[a], ordered.len() as int));
                }
            }
        }
    }
    reveal(open_or_done);
    assert forall|k: int| 0 <= k < ordered.len() implies (exists|t: int| 0 <= t < st.len() && (#[trigger] st[t]).at == k)
        || #[trigger] kids_listed(slots, ordered, k) by {
        if exists|t: int| 0 <= t < stack.len() && (#[trigger] stack[t]).at == k {
            let t = choose|t: int| 0 <= t < stack.len() && (#[trigger] stack[t]).at == k;
            assert(st[t].at == k);
        }
    }    lemma_pre_seen(ordered, stack);
}

/// A frame whose children are all visited is closed.
proof fn lemma_step_pop(
    slots: Seq<Option<UIElement>>,
    visited: Seq<bool>,
    ordered: Seq<TreeNode>,
    stack: Seq<Frame>,
)
    requires
        walk_inv(slots, visited, ordered, stack),
        stack.len() > 0,
        stack.last().next >= kids(slots, stack.last().element_id as int).len(),
    ensures
        walk_inv(slots, visited, ordered, stack.drop_last()),
        work(stack.drop_last(), slots) < work(stack, slots),
{
    let f = stack.last();
    let top = stack.len() - 1;
    let st = stack.drop_last();
    reveal(frames_ok);
    assert forall|t: int| 0 <= t < stack.len() implies (#[trigger] stack[t]).at < ordered.len() by {
        assert(frame_ok(slots, ordered, stack[t]));
    }
    lemma_pre_pop(ordered, stack);
    assert(frame_ok(slots, ordered, stack[top]));
    assert forall|t: int| 0 <= t < st.len() implies #[trigger] frame_ok(slots, ordered, st[t]) by {
        assert(st[t] == stack[t]);
    }
    reveal(open_or_done);
    assert forall|k: int| 0 <= k < ordered.len() implies (exists|t: int| 0 <= t < st.len() && (#[trigger] st[t]).at == k)
        || #[trigger] kids_listed(slots, ordered, k) by {
        if exists|t: int| 0 <= t < stack.len() && (#[trigger] stack[t]).at == k {
            let t = choose|t: int| 0 <= t < stack.len() && (#[trigger] stack[t]).at == k;
            if t < top {
                assert(st[t].at == k);
            } else {
                assert(stack[t] == f);
                assert forall|a: int| 0 <= a < kids(slots, ordered[k].element_id as int).len() implies listed_before(
                    ordered,
                    #[trigger] kids(slots, ordered[k].element_id as int)[a],
                    ordered.len() as int,
                ) by {
                    assert(listed_before(ordered, kids(slots, f.element_id as int)[a], ordered.len() as int));
                }
            }
        }
    }
}

proof fn lemma_walk_start(slots: Seq<Option<UIElement>>, visited: Seq<bool>, root: TreeNode)
    requires
        tree_ok(slots),
        visited.len() == slots.len(),
        visited[0],
        forall|i: int| 1 <= i < slots.len() ==> !(#[trigger] visited[i]),
        root == (TreeNode { element_id: 0, rect: abs_rect(0, 0, slots[0]->0.spec_rect()), parent: 0, child_index: 0 }),
    ensures
        walk_inv(
            slots,
            visited,
            seq![root],
            seq![Frame { at: 0, element_id: 0, next: 0, x: root.rect.x, y: root.rect.y }],
        ),
{
    let ord = seq![root];
    let st = seq![Frame { at: 0, element_id: 0, next: 0, x: root.rect.x, y: root.rect.y }];
    reveal(visited_listed);
    assert forall|i: usize| i < slots.len() implies #[trigger] visited[i as int] == listed_before(
        ord,
        i,
        ord.len() as int,
    ) by {
        if i == 0 {
            assert(ord[0].element_id == 0);
        } else if listed_before(ord, i, ord.len() as int) {
            let m = choose|m: int| 0 <= m < ord.len() && (#[trigger] ord[m]).element_id == i;
            assert(m == 0);
        } else {
            assert(!visited[i as int]);
        }
    }
    reveal(root_first);
    reveal(nodes_placed);
    reveal(nodes_distinct);
    reveal(frames_ok);
    assert(frame_ok(slots, ord, st[0]));
    reveal(open_or_done);
    assert(st[0].at == 0);
    reveal(in_preorder);
}

proof fn lemma_walk_done(slots: Seq<Option<UIElement>>, visited: Seq<bool>, ordered: Seq<TreeNode>)
    requires
        walk_inv(slots, visited, ordered, Seq::empty()),
    ensures
        walk_ok(slots, ordered),
{
    reveal(walk_ok);
    reveal(in_preorder);
    reveal(root_first);
    reveal(nodes_placed);
    reveal(nodes_distinct);
    reveal(open_or_done);
    assert forall|k: int, a: int|
        0 <= k < ordered.len() && 0 <= a < kids(slots, ordered[k].element_id as int).len() implies listed_before(
        ordered,
        #[trigger] kids(slots, ordered[k].element_id as int)[a],
        ordered.len() as int,
    ) by {
        assert(kids_listed(slots, ordered, k));
    }
}

proof fn lemma_walk_facts(slots: Seq<Option<UIElement>>, visited: Seq<bool>, ordered: Seq<TreeNode>, stack: Seq<Frame>)
    requires
        walk_inv(slots, visited, ordered, stack),
    ensures
        visited.len() == slots.len(),
        forall|t: int| 0 <= t < stack.len() ==> #[trigger] frame_ok(slots, ordered, stack[t]),
{
    reveal(visited_listed);
    reveal(frames_ok);
}

/// Walks the scene tree from the root in tree order: each element before
/// its children, children in the order they were added. The walk keeps an
/// explicit stack of the elements whose children it is visiting, never
/// recursing. Returns the elements in that order with their absolute
/// rectangles, and the area of those waiting to be redrawn; `sources`
/// receives their rectangles. An element reached a second time is skipped.
pub(crate) fn collect_tree(
    elements: &ArbitraryIdStore<UIElement>,
    dirty: &DirtySet,
    sources: &mut Vec<BoundingRect>,
) -> (r: (Vec<TreeNode>, usize))
    requires
        tree_ok(elements@),
    ensures
        walk_ok(elements@, r.0@),
        final(sources)@ == dirty_rects(r.0@, ids_of(*dirty)),
        r.1 == saturated_area(final(sources)@),
{
    let ghost slots = elements@;
    let n = elements.slot_count();
    let mut visited: Vec<bool> = vec![false; n];
    proof {
        assert(unvisited(visited@) == n) by {
            lemma_all_unvisited(visited@);
        }
        lemma_unvisited_mark(visited@, 0);
    }
    visited.set(0, true);
    let mut remaining: usize = n - 1;
    let mut ordered: Vec<TreeNode> = Vec::new();
    sources.clear();
    proof {
        assert(sources@ =~= dirty_rects(ordered@, ids_of(*dirty)));
    }
    let root = elements.get(0).unwrap();
    let local = root.get_bounding_rect();
    let rx = add_clamped(0, local.x);
    let ry = add_clamped(0, local.y);
    let root_node = TreeNode {
        element_id: 0,
        rect: BoundingRect { x: rx, y: ry, width: local.width, height: local.height },
        parent: 0,
        child_index: 0,
    };
    let mut area = list_node(&mut ordered, sources, 0, dirty, root_node);
    let mut stack: Vec<Frame> = Vec::new();
    stack.push(Frame { at: 0, element_id: 0, next: 0, x: rx, y: ry });
    proof {
        assert(ordered@ =~= seq![root_node]);
        assert(stack@ =~= seq![Frame { at: 0, element_id: 0, next: 0, x: rx, y: ry }]);
        lemma_walk_start(slots, visited@, root_node);
    }
    while stack.len() > 0
        invariant
            slots == elements@,
            n == slots.len(),
            remaining == unvisited(visited@),
            walk_inv(slots, visited@, ordered@, stack@),
            sources@ == dirty_rects(ordered@, ids_of(*dirty)),
            area == saturated_area(sources@),
        decreases remaining, work(stack@, slots),
    {
        proof {
            lemma_walk_facts(slots, visited@, ordered@, stack@);
        }
        let top = stack.len() - 1;
        let f = stack[top];
        let ghost stack0 = stack@;
        proof {
            assert(frame_ok(slots, ordered@, stack@[top as int]));
        }
        let el = elements.get(f.element_id).unwrap();
        let nk = el.child_count();
        if f.next < nk {
            let c = el.child_at(f.next);
            let f1 = Frame { at: f.at, element_id: f.element_id, next: f.next + 1, x: f.x, y: f.y };
            proof {
                assert(0 <= c < n);
            }
            if !visited[c] {
                let ghost visited0 = visited@;
                let ghost ordered0 = ordered@;
                proof {
                    lemma_unvisited_mark(visited@, c as int);
                }
                visited.set(c, true);
                remaining -= 1;
                let cel = elements.get(c).unwrap();
                let local = cel.get_bounding_rect();
                let cx = add_clamped(f.x, local.x);
                let cy = add_clamped(f.y, local.y);
                let at = ordered.len();
                let node = TreeNode {
                    element_id: c,
                    rect: BoundingRect { x: cx, y: cy, width: local.width, height: local.height },
                    parent: f.at,
                    child_index: f.next,
                };
                area = list_node(&mut ordered, sources, area, dirty, node);
                stack.set(top, f1);
                stack.push(Frame { at, element_id: c, next: 0, x: cx, y: cy });
                proof {
                    assert(node == child_node(slots, stack0.last(), c));
                    assert(f1 == advanced(stack0.last()));
                    lemma_new_visited(slots, visited0, ordered0, c, node);
                    lemma_root_stays(slots, ordered0, node);
                    lemma_new_placed(slots, ordered0, stack0.last(), c);
                    lemma_new_distinct(ordered0, node);
                    lemma_new_frames(slots, ordered0, stack0, c, at);
                    lemma_new_open(slots, ordered0, stack0, c, at);
                    lemma_walk_facts(slots, visited0, ordered0, stack0);
                    assert forall|t: int| 0 <= t < stack0.len() implies (#[trigger] stack0[t]).at < ordered0.len() by {
                        assert(frame_ok(slots, ordered0, stack0[t]));
                    }
                    lemma_pre_new(ordered0, stack0, node, at, Frame { at, element_id: c, next: 0, x: cx, y: cy });
                    assert(stack@ =~= stack0.update(top as int, f1).push(
                        Frame { at, element_id: c, next: 0, x: cx, y: cy },
                    ));
                }
            } else {
                stack.set(top, f1);
                proof {
                    assert(f1 == advanced(stack0.last()));
                    assert(stack@ =~= stack0.update(top as int, advanced(stack0.last())));
                    lemma_step_seen(slots, visited@, ordered@, stack0);
                }
            }
        } else {
            stack.pop();
            proof {
                lemma_step_pop(slots, visited@, ordered@, stack0);
                assert(stack@ =~= stack0.drop_last());
            }
        }
    }
    proof {
        assert(stack@ =~= Seq::<Frame>::empty());
        lemma_walk_done(slots, visited@, ordered@);
    }
    (ordered, area)
}

proof fn lemma_all_unvisited(bs: Seq<bool>)
    requires
        forall|i: int| 0 <= i < bs.len() ==> !(#[trigger] bs[i]),
    ensures
        unvisited(bs) == bs.len(),
    decreases bs.len(),
{
    if bs.len() > 0 {
        lemma_all_unvisited(bs.drop_last());
    }
}

pub(crate) proof fn lemma_dirty_rect_listed(ordered: Seq<TreeNode>, d: Set<usize>, k: int)
    requires
        0 <= k < ordered.len(),
        d.contains(ordered[k].element_id),
    ensures
        exists|j: int|
            0 <= j < dirty_rects(ordered, d).len() && #[trigger] dirty_rects(ordered, d)[j]
                == ordered[k].rect,
    decreases ordered.len(),
{
    let rest = ordered.drop_last();
    if k == ordered.len() - 1 {
        let j = dirty_rects(rest, d).len() as int;
        assert(dirty_rects(ordered, d)[j] == ordered[k].rect);
    } else {
        lemma_dirty_rect_listed(rest, d, k);
        let j = choose|j: int|
            0 <= j < dirty_rects(rest, d).len() && #[trigger] dirty_rects(rest, d)[j] == rest[k].rect;
        assert(dirty_rects(ordered, d)[j] == ordered[k].rect);
    }
}

} // verus!
