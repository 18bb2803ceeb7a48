//! The redraw orchestrator: owns the element arena, the signal graph, the
//! set of elements waiting to be redrawn and the framebuffer, and once per
//! frame repaints what changed.
use vstd::prelude::*;
use font8x8::unicode::BasicFonts;
use crate::arena::ArbitraryIdStore;
use crate::dirty::{clear_ids, contains_id, id_count, ids_of, insert_id, new_id_set, DirtySet};
use crate::elements::{RectUIElement, TextUIElement, UIElement};
use crate::framebuffer::{pixel_of, FRAME_BYTES};
use crate::geometry::{
    all_on_screen, covers, on_screen, pairwise_disjoint, sweep_merge_rectangles, BoundingRect,
    SCREEN_HEIGHT, SCREEN_WIDTH,
};
use crate::paint::{
    ink_bit, last_painter, lemma_last_painter_bounds, lemma_last_painter_is, paint_clipped, paint_region,
    painted_pixel, paints, shows, Ink,
};
use crate::signals::{
    changed_in, lemma_pass_contains, pass_notices, set_post, Listener, Notice, SignalGraph, Value,
    with_listener,
};
use crate::walk::{
    collect_tree, dirty_rects, kids, lemma_dirty_rect_listed, listed_before, saturated_area, tree_ok,
    walk_ok, TreeNode,
};

verus! {

/// At most this many elements may be redrawn one by one in a frame; more
/// force a redraw of the whole screen.
pub const PARTIAL_ELEMENT_LIMIT: usize = 16;

/// The largest damaged area, in pixels, that is redrawn in part: a quarter
/// of the screen.
pub const PARTIAL_AREA_LIMIT: usize = 10000;

pub struct UIContext<F> {
    elements: ArbitraryIdStore<UIElement>,
    signals: SignalGraph<F>,
    elements_requesting_redraw: DirtySet,
    notices: Vec<Notice>,
    font: BasicFonts,
    screen_buffer: Vec<u8>,
    scratch_redraw_sources: Vec<BoundingRect>,
    scratch_optimized_regions: Vec<BoundingRect>,
    scratch_sweep_normalized: Vec<BoundingRect>,
    scratch_sweep_x_edges: Vec<i16>,
    scratch_sweep_y_spans: Vec<(i16, i16)>,
    scratch_region_intersections: Vec<BoundingRect>,
}

/// The whole panel as a rectangle.
pub open spec fn screen_rect() -> BoundingRect {
    BoundingRect { x: 0, y: 0, width: SCREEN_WIDTH, height: SCREEN_HEIGHT }
}

/// The scene `slots` is well formed against `graph`: slot 0 holds the root
/// rectangle, no slot is empty, children are elements other than the root,
/// a child of an element other than the root has a larger id, and texts
/// show nodes of the graph.
pub open spec fn scene_wf<F: Fn(&[Value]) -> Value>(
    slots: Seq<Option<UIElement>>,
    graph: SignalGraph<F>,
) -> bool {
    &&& slots.len() >= 1
    &&& slots[0] matches Some(UIElement::Rect(_))
    &&& forall|i: int| 0 <= i < slots.len() ==> (#[trigger] slots[i]) is Some
    &&& forall|i: int, k: int|
        0 <= i < slots.len() && 0 <= k < slots[i]->0.spec_children().len() ==> {
            &&& 0 < #[trigger] slots[i]->0.spec_children()[k] < slots.len()
            &&& i > 0 ==> i < slots[i]->0.spec_children()[k]
        }
    &&& forall|i: int|
        0 <= i < slots.len() ==> (#[trigger] slots[i] matches Some(UIElement::Text(t))
            ==> t.spec_text() < graph.node_count())
    &&& graph.wf()
}

/// The elements that the notices `ns` ask to redraw.
pub open spec fn redraw_targets(ns: Seq<Notice>) -> Set<usize>
    decreases ns.len(),
{
    if ns.len() == 0 {
        Set::empty()
    } else if ns.last().listener is Redraw {
        redraw_targets(ns.drop_last()).insert(ns.last().listener->Redraw_0)
    } else {
        redraw_targets(ns.drop_last())
    }
}

/// The notices of `ns` that are not redraw requests, in order.
pub open spec fn host_part(ns: Seq<Notice>) -> Seq<Notice>
    decreases ns.len(),
{
    if ns.len() == 0 {
        Seq::empty()
    } else if ns.last().listener is Redraw {
        host_part(ns.drop_last())
    } else {
        host_part(ns.drop_last()).push(ns.last())
    }
}

proof fn lemma_redraw_target_of(ns: Seq<Notice>, j: int, e: usize)
    requires
        0 <= j < ns.len(),
        ns[j].listener == Listener::Redraw(e),
    ensures
        redraw_targets(ns).contains(e),
    decreases ns.len(),
{
    if j < ns.len() - 1 {
        assert(ns.drop_last()[j] == ns[j]);
        lemma_redraw_target_of(ns.drop_last(), j, e);
    }
}

proof fn lemma_redraw_targets_concat(a: Seq<Notice>, b: Seq<Notice>)
    ensures
        redraw_targets(a + b) == redraw_targets(a).union(redraw_targets(b)),
    decreases b.len(),
{
    if b.len() == 0 {
        assert(a + b =~= a);
        assert(redraw_targets(a).union(redraw_targets(b)) =~= redraw_targets(a));
    } else {
        assert((a + b).drop_last() =~= a + b.drop_last());
        lemma_redraw_targets_concat(a, b.drop_last());
        assert((a + b).last() == b.last());
        if b.last().listener is Redraw {
            assert(redraw_targets(a + b) =~= redraw_targets(a).union(redraw_targets(b)));
        }
    }
}

/// Element `e` has a redraw listener on a node whose value changed in the
/// write of signal `id` that turned `g0` into `g1`.
pub open spec fn redraw_due<F: Fn(&[Value]) -> Value>(
    g0: SignalGraph<F>,
    g1: SignalGraph<F>,
    id: int,
    e: usize,
) -> bool {
    exists|n: int, s: int|
        0 <= n < g0.node_count() && 0 <= s < g0.listeners(n).len() && #[trigger] changed_in(g0, g1, id, n)
            && #[trigger] g0.listeners(n)[s] == Some(Listener::Redraw(e))
}

impl<F: Fn(&[Value]) -> Value> UIContext<F> {
    pub closed spec fn element_slots(&self) -> Seq<Option<UIElement>> {
        self.elements@
    }

    pub closed spec fn graph(&self) -> SignalGraph<F> {
        self.signals
    }

    /// Ids of the elements waiting to be redrawn.
    pub closed spec fn dirty(&self) -> Set<usize> {
        ids_of(self.elements_requesting_redraw)
    }

    pub closed spec fn frame(&self) -> Seq<u8> {
        self.screen_buffer@
    }

    /// Notices of host listeners, waiting for the host to take them.
    pub closed spec fn host_notices(&self) -> Seq<Notice> {
        self.notices@
    }

    /// The regions that the last frame repainted.
    pub closed spec fn regions(&self) -> Seq<BoundingRect> {
        self.scratch_optimized_regions@
    }

    /// The absolute rectangles of the elements that the last frame found
    /// waiting to be redrawn, in drawing order.
    pub closed spec fn sources(&self) -> Seq<BoundingRect> {
        self.scratch_redraw_sources@
    }

    pub open spec fn element(&self, id: int) -> UIElement {
        self.element_slots()[id]->0
    }

    pub open spec fn element_count(&self) -> nat {
        self.element_slots().len()
    }

    /// Slot 0 holds the root rectangle; no slot is empty; children are
    /// elements other than the root, and a child of an element other than
    /// the root comes after it; texts show nodes of the graph; the frame has
    /// its full size.
    pub open spec fn wf(&self) -> bool {
        scene_wf(self.element_slots(), self.graph()) && self.frame().len() == FRAME_BYTES
    }

    /// A context with the given signal graph and glyph table: a blank frame,
    /// the root (a screen-sized rectangle of color 0), and nothing waiting to
    /// be drawn.
    pub fn new(font: BasicFonts, signals: SignalGraph<F>) -> (r: Self)
        requires
            signals.wf(),
        ensures
            r.wf(),
            r.element_count() == 1,
            r.element(0) matches UIElement::Rect(root) && root.spec_rect() == screen_rect()
                && root.spec_color() == 0 && root.spec_children().len() == 0,
            r.dirty() == Set::<usize>::empty(),
            r.graph() == signals,
            forall|i: int| 0 <= i < FRAME_BYTES ==> #[trigger] r.frame()[i] == 0,
            r.host_notices().len() == 0,
    {
        let mut elements: ArbitraryIdStore<UIElement> = ArbitraryIdStore::new();
        let root = RectUIElement::new(
            BoundingRect { x: 0, y: 0, width: SCREEN_WIDTH, height: SCREEN_HEIGHT },
            0,
        );
        elements.add(UIElement::Rect(root));
        let dirty = new_id_set(64);
        let screen_buffer: Vec<u8> = vec![0u8; FRAME_BYTES];
        let r = UIContext {
            elements,
            signals,
            elements_requesting_redraw: dirty,
            notices: Vec::new(),
            font,
            screen_buffer,
            scratch_redraw_sources: Vec::with_capacity(64),
            scratch_optimized_regions: Vec::with_capacity(64),
            scratch_sweep_normalized: Vec::with_capacity(64),
            scratch_sweep_x_edges: Vec::with_capacity(128),
            scratch_sweep_y_spans: Vec::with_capacity(128),
            scratch_region_intersections: Vec::with_capacity(64),
        };
        r
    }

    pub fn get_screen_buffer(&self) -> (r: &Vec<u8>)
        ensures
            r@ == self.frame(),
    {
        &self.screen_buffer
    }

    pub fn get_redraw_regions(&self) -> (r: &Vec<BoundingRect>)
        ensures
            r@ == self.regions(),
    {
        &self.scratch_optimized_regions
    }

    pub fn signals(&self) -> (r: &SignalGraph<F>)
        ensures
            *r == self.graph(),
    {
        &self.signals
    }

    pub fn element_count_now(&self) -> (r: usize)
        ensures
            r == self.element_count(),
    {
        self.elements.slot_count()
    }

    /// The element `id`, if there is one.
    pub fn get_element(&self, id: usize) -> (r: Option<&UIElement>)
        ensures
            id < self.element_count() && self.element_slots()[id as int] is Some ==> (r matches Some(
                e,
            ) && *e == self.element(id as int)),
            !(id < self.element_count() && self.element_slots()[id as int] is Some) ==> r is None,
    {
        self.elements.get(id)
    }

    /// The element `id` waits to be redrawn.
    pub fn is_dirty(&self, id: usize) -> (r: bool)
        ensures
            r == self.dirty().contains(id),
    {
        contains_id(&self.elements_requesting_redraw, id)
    }

    /// Hands out the notices of host listeners and forgets them.
    pub fn take_notices(&mut self) -> (r: Vec<Notice>)
        requires
            old(self).wf(),
        ensures
            final(self).wf(),
            r@ == old(self).host_notices(),
            final(self).host_notices().len() == 0,
    {
        let ghost g0 = *self;
        let mut r: Vec<Notice> = Vec::new();
        std::mem::swap(&mut r, &mut self.notices);
        proof {
            assert(self.element_slots() == g0.element_slots());
            assert(self.graph() == g0.graph());
            assert(self.frame() == g0.frame());
        }
        r
    }
}

impl<F: Fn(&[Value]) -> Value> UIContext<F> {
    /// Moves the graph's notices out of its outbox: redraw requests mark
    /// their elements dirty, the others wait for the host.
    pub fn absorb_notices(&mut self)
        requires
            old(self).wf(),
        ensures
            final(self).wf(),
            final(self).dirty() == old(self).dirty().union(redraw_targets(old(self).graph().outbox())),
            final(self).host_notices() == old(self).host_notices() + host_part(old(self).graph().outbox()),
            final(self).graph().outbox().len() == 0,
            final(self).element_slots() == old(self).element_slots(),
            final(self).frame() == old(self).frame(),
            final(self).regions() == old(self).regions(),
            final(self).sources() == old(self).sources(),
            forall|i: int| 0 <= i < old(self).graph().node_count() ==> #[trigger] final(self).graph().listeners(i)
                == old(self).graph().listeners(i),
            forall|i: int| 0 <= i < old(self).graph().node_count() ==> #[trigger] final(self).graph().held(i)
                == old(self).graph().held(i),
            forall|i: int| 0 <= i < old(self).graph().node_count() ==> #[trigger] final(self).graph().kind(i)
                == old(self).graph().kind(i),
            final(self).graph().node_count() == old(self).graph().node_count(),
    {
        let ghost g0 = *self;
        let ns = self.signals.drain_outbox();
        let mut i: usize = 0;
        while i < ns.len()
            invariant
                i <= ns@.len(),
                ns@ == g0.graph().outbox(),
                self.dirty() == g0.dirty().union(redraw_targets(ns@.take(i as int))),
                self.host_notices() == g0.host_notices() + host_part(ns@.take(i as int)),
                self.element_slots() == g0.element_slots(),
                self.frame() == g0.frame(),
                self.regions() == g0.regions(),
                self.sources() == g0.sources(),
                self.graph().outbox().len() == 0,
                self.graph().wf(),
                self.graph().node_count() == g0.graph().node_count(),
                forall|j: int| 0 <= j < g0.graph().node_count() ==> #[trigger] self.graph().listeners(j)
                    == g0.graph().listeners(j),
                forall|j: int| 0 <= j < g0.graph().node_count() ==> #[trigger] self.graph().held(j)
                    == g0.graph().held(j),
                forall|j: int| 0 <= j < g0.graph().node_count() ==> #[trigger] self.graph().kind(j)
                    == g0.graph().kind(j),
            decreases ns@.len() - i,
        {
            let n = ns[i];
            proof {
                assert(ns@.take(i + 1).drop_last() =~= ns@.take(i as int));
                assert(ns@.take(i + 1).last() == n);
            }
            match n.listener {
                Listener::Redraw(e) => {
                    insert_id(&mut self.elements_requesting_redraw, e);
                    proof {
                        assert(self.dirty() =~= g0.dirty().union(redraw_targets(ns@.take(i + 1))));
                    }
                },
                _ => {
                    self.notices.push(n);
                    proof {
                        assert(self.host_notices() =~= g0.host_notices() + host_part(ns@.take(i + 1)));
                    }
                },
            }
            i += 1;
        }
        proof {
            assert(ns@.take(ns@.len() as int) =~= ns@);
        }
    }

    /// Writes `v` into signal `id` and files the notices it caused.
    pub fn set_signal(&mut self, id: usize, v: Value)
        requires
            old(self).wf(),
            id < old(self).graph().node_count(),
            old(self).graph().kind(id as int) is Signal,
        ensures
            final(self).wf(),
            final(self).graph().held(id as int).same(v),
            final(self).element_slots() == old(self).element_slots(),
            final(self).frame() == old(self).frame(),
            final(self).graph().outbox().len() == 0,
            exists|g1: SignalGraph<F>|
                {
                    &&& #[trigger] set_post(old(self).graph(), g1, id as int, v)
                    &&& final(self).dirty() == old(self).dirty().union(redraw_targets(g1.outbox()))
                    &&& final(self).host_notices() == old(self).host_notices() + host_part(g1.outbox())
                    &&& !old(self).graph().held(id as int).same(v) ==> forall|e: usize|
                        #[trigger] redraw_due(old(self).graph(), g1, id as int, e) ==> (final(self).dirty().contains(e))
                },
    {
        let ghost g0 = *self;
        self.signals.set(id, v);
        let ghost g1 = self.signals;
        proof {
            let g = self.graph();
            if !g0.graph().held(id as int).same(v) {
                assert(g.held(id as int) == v);
            }
            assert(g.held(id as int).same(v));
            assert forall|i: int| 0 <= i < self.element_slots().len() implies (#[trigger] self.element_slots()[i] matches Some(UIElement::Text(t))
                ==> t.spec_text() < self.graph().node_count()) by {
                assert(g0.element_slots()[i] matches Some(UIElement::Text(t)) ==> t.spec_text() < g0.graph().node_count());
            }
        }
        self.absorb_notices();
        proof {
            assert(set_post(g0.graph(), g1, id as int, v));
            assert forall|e: usize|
                !g0.graph().held(id as int).same(v) && #[trigger] redraw_due(g0.graph(), g1, id as int, e) implies self.dirty().contains(e) by {
                let gg = g0.graph();
                let (n, sl) = choose|n: int, sl: int|
                    0 <= n < gg.node_count() && 0 <= sl < gg.listeners(n).len() && #[trigger] changed_in(gg, g1, id as int, n)
                        && #[trigger] gg.listeners(n)[sl] == Some(Listener::Redraw(e));
                {
                    lemma_pass_contains(gg, g1, id as int, gg.node_count() as int, n, sl);
                    let p = pass_notices(gg, g1, id as int, gg.node_count() as int);
                    let j = choose|j: int|
                        0 <= j < p.len() && #[trigger] p[j] == (Notice {
                            node: n as usize,
                            slot: sl as usize,
                            listener: gg.listeners(n)[sl]->0,
                        });
                    lemma_redraw_target_of(p, j, e);
                    lemma_redraw_targets_concat(gg.outbox(), p);
                }
            }
        }
    }
}

impl<F: Fn(&[Value]) -> Value> UIContext<F> {
    /// Appends element `id` to the children of the rectangle `parent`.
    fn append_child(&mut self, parent: usize, id: usize)
        requires
            scene_wf(old(self).element_slots(), old(self).graph()),
            parent < old(self).element_count(),
            old(self).element(parent as int) is Rect,
            0 < id < old(self).element_count(),
            parent > 0 ==> parent < id,
        ensures
            scene_wf(final(self).element_slots(), final(self).graph()),
            final(self).element_count() == old(self).element_count(),
            final(self).element(parent as int) matches UIElement::Rect(r) && r.spec_children()
                == old(self).element(parent as int).spec_children().push(id),
            final(self).element(parent as int).spec_rect() == old(self).element(parent as int).spec_rect(),
            forall|i: int|
                0 <= i < old(self).element_count() && i != parent ==> #[trigger] final(self).element_slots()[i]
                    == old(self).element_slots()[i],
            final(self).graph() == old(self).graph(),
            final(self).dirty() == old(self).dirty(),
            final(self).frame() == old(self).frame(),
    {
        let ghost s0 = self.element_slots();
        match self.elements.get_mut(parent) {
            Some(UIElement::Rect(r)) => {
                r.insert_child_at_end(id);
            },
            _ => {},
        }
        proof {
            let s1 = self.element_slots();
            assert(s1.len() == s0.len());
            assert forall|i: int, k: int|
                0 <= i < s1.len() && 0 <= k < s1[i]->0.spec_children().len() implies {
                    &&& 0 < #[trigger] s1[i]->0.spec_children()[k] < s1.len()
                    &&& i > 0 ==> i < s1[i]->0.spec_children()[k]
                } by {
                if i != parent {
                    assert(s1[i] == s0[i]);
                } else if k < s0[i]->0.spec_children().len() {
                    assert(s1[i]->0.spec_children()[k] == s0[i]->0.spec_children()[k]);
                }
            }
            assert forall|i: int| 0 <= i < s1.len() implies (#[trigger] s1[i]) is Some by {
                if i != parent {
                    assert(s1[i] == s0[i]);
                }
            }
            assert forall|i: int| 0 <= i < s1.len() implies (#[trigger] s1[i] matches Some(UIElement::Text(t))
                ==> t.spec_text() < self.graph().node_count()) by {
                if i != parent {
                    assert(s1[i] == s0[i]);
                }
            }
        }
    }

    /// Makes the existing element `element_id` the last child of the root.
    pub fn add_to_root(&mut self, element_id: usize)
        requires
            old(self).wf(),
            0 < element_id < old(self).element_count(),
        ensures
            final(self).wf(),
            final(self).element(0).spec_children() == old(self).element(0).spec_children().push(
                element_id,
            ),
            forall|i: int|
                0 < i < old(self).element_count() ==> #[trigger] final(self).element_slots()[i]
                    == old(self).element_slots()[i],
            final(self).element_count() == old(self).element_count(),
            final(self).dirty() == old(self).dirty(),
            final(self).graph() == old(self).graph(),
            final(self).frame() == old(self).frame(),
    {
        self.append_child(0, element_id);
    }

    /// Adds `el` to the scene as the last child of the rectangle
    /// `parent_id` and returns its new id. The element is marked for
    /// redrawing, and a text subscribes to its node so that every change of
    /// the text marks it again.
    pub fn mount(&mut self, parent_id: usize, el: UIElement) -> (id: usize)
        requires
            old(self).wf(),
            parent_id < old(self).element_count(),
            old(self).element(parent_id as int) is Rect,
            old(self).element_count() < usize::MAX,
            el.spec_children().len() == 0,
            el matches UIElement::Text(t) ==> t.spec_text() < old(self).graph().node_count()
                && old(self).graph().listeners(t.spec_text() as int).len() < usize::MAX,
        ensures
            final(self).wf(),
            id == old(self).element_count(),
            final(self).element_count() == old(self).element_count() + 1,
            final(self).element(id as int) == el,
            final(self).element(parent_id as int).spec_children() == old(self).element(
                parent_id as int,
            ).spec_children().push(id),
            forall|i: int|
                0 <= i < old(self).element_count() && i != parent_id ==> (
                #[trigger] final(self).element_slots()[i]) == old(self).element_slots()[i],
            final(self).dirty() == old(self).dirty().insert(id),
            final(self).frame() == old(self).frame(),
            el matches UIElement::Text(t) ==> final(self).graph().listeners(t.spec_text() as int)
                == with_listener(old(self).graph().listeners(t.spec_text() as int), Listener::Redraw(id)),
            !(el is Text) ==> final(self).graph() == old(self).graph(),
    {
        let ghost s0 = self.element_slots();
        proof {
            crate::arena::lemma_add_without_holes_appends(s0);
        }
        let text_node: Option<usize> = match &el {
            UIElement::Text(t) => Some(t.text()),
            UIElement::Rect(_) => None,
        };
        let id = self.elements.add(el);
        insert_id(&mut self.elements_requesting_redraw, id);
        match text_node {
            Some(n) => {
                let ghost g0 = self.signals;
                self.signals.subscribe(n, Listener::Redraw(id));
                proof {
                    assert(self.signals.only_listeners_differ(&g0, n as int));
                }
            },
            None => {},
        }
        proof {
            let s1 = self.element_slots();
            assert(s1 == s0.push(Some(el)));
            assert forall|i: int, k: int|
                0 <= i < s1.len() && 0 <= k < s1[i]->0.spec_children().len() implies {
                    &&& 0 < #[trigger] s1[i]->0.spec_children()[k] < s1.len()
                    &&& i > 0 ==> i < s1[i]->0.spec_children()[k]
                } by {
                if i < s0.len() {
                    assert(s1[i] == s0[i]);
                }
            }
            assert forall|i: int| 0 <= i < s1.len() implies (#[trigger] s1[i]) is Some by {
                if i < s0.len() {
                    assert(s1[i] == s0[i]);
                }
            }
            assert forall|i: int| 0 <= i < s1.len() implies (#[trigger] s1[i] matches Some(UIElement::Text(t))
                ==> t.spec_text() < self.graph().node_count()) by {
                if i < s0.len() {
                    assert(s1[i] == s0[i]);
                }
            }
        }
        self.append_child(parent_id, id);
        id
    }
}

/// A frame with these waiting elements, whose rectangles are `sources`,
/// redraws the whole screen.
pub open spec fn full_redraw(waiting: Set<usize>, sources: Seq<BoundingRect>) -> bool {
    waiting.len() > PARTIAL_ELEMENT_LIMIT || saturated_area(sources) > PARTIAL_AREA_LIMIT
}

/// What a frame did: it walked the scene in tree order as `ordered`,
/// painted node `j` with `inks[j]` (a rectangle's color, or the glyphs of a
/// value that a text's node may show in `graph`), collected the rectangles of
/// the waiting elements as `sources`, and every pixel of `frame` is the
/// one the last node to paint it gave, or as in `frame0` where no node
/// painted.
pub open spec fn frame_story<F: Fn(&[Value]) -> Value>(
    slots: Seq<Option<UIElement>>,
    graph: SignalGraph<F>,
    frame0: Seq<u8>,
    frame: Seq<u8>,
    sources: Seq<BoundingRect>,
    regions: Seq<BoundingRect>,
    full: bool,
    waiting: Set<usize>,
    ordered: Seq<TreeNode>,
    inks: Seq<Ink>,
) -> bool {
    &&& walk_ok(slots, ordered)
    &&& inks.len() == ordered.len()
    &&& sources == dirty_rects(ordered, waiting)
    &&& forall|k: int|
        0 <= k < ordered.len() ==> {
            &&& slots[(#[trigger] ordered[k]).element_id as int] matches Some(UIElement::Rect(re))
                ==> inks[k] == Ink::Fill(re.spec_color())
            &&& slots[ordered[k].element_id as int] matches Some(UIElement::Text(t)) ==> exists|v: Value|
                #[trigger] graph.peeks_as(t.spec_text() as int, v) && shows(v, inks[k])
        }
    &&& forall|px: int, py: int|
        on_screen(px, py) ==> #[trigger] pixel_of(frame, px, py) == painted_pixel(
            frame0,
            ordered,
            inks,
            full,
            waiting,
            regions,
            ordered.len() as int,
            px,
            py,
        )
}

impl<F: Fn(&[Value]) -> Value> UIContext<F> {
    /// What `el` paints: a rectangle its color, a text the characters of
    /// its node's value (nothing when that value is not text).
    fn ink_of(&self, el: &UIElement) -> (r: Ink)
        requires
            self.wf(),
            el matches UIElement::Text(t) ==> t.spec_text() < self.graph().node_count(),
        ensures
            el matches UIElement::Rect(re) ==> r == Ink::Fill(re.spec_color()),
            el matches UIElement::Text(t) ==> exists|v: Value|
                #[trigger] self.graph().peeks_as(t.spec_text() as int, v) && shows(v, r),
    {
        match el {
            UIElement::Rect(r) => Ink::Fill(r.color()),
            UIElement::Text(t) => {
                let v = self.signals.peek(t.text());
                let ghost shown = v;
                let ink = match v {
                    Value::Text(s) => Ink::Glyphs(s),
                    Value::Int(_) => Ink::Glyphs(String::new()),
                };
                assert(self.graph().peeks_as(t.spec_text() as int, shown) && shows(shown, ink));
                ink
            },
        }
    }

    /// Draws one frame. Notices of the signal graph are filed first; then
    /// the tree is walked from the root, collecting the absolute rectangles
    /// of the elements waiting to be redrawn and their total area. With
    /// more than `PARTIAL_ELEMENT_LIMIT` such elements, or more than
    /// `PARTIAL_AREA_LIMIT` pixels of them, the whole screen is one region;
    /// otherwise the regions are the disjoint union of those rectangles.
    /// Every element is then painted in tree order, later ones over earlier
    /// ones: a waiting element (or any element, when the whole screen is
    /// redrawn) over its whole rectangle, any other only where it meets a
    /// region. Finally no element is left waiting.
    pub fn handle_draw_requests(&mut self)
        requires
            old(self).wf(),
        ensures
            final(self).wf(),
            final(self).dirty() == Set::<usize>::empty(),
            final(self).element_slots() == old(self).element_slots(),
            final(self).frame().len() == FRAME_BYTES,
            final(self).graph().outbox().len() == 0,
            final(self).host_notices() == old(self).host_notices() + host_part(old(self).graph().outbox()),
            final(self).graph().node_count() == old(self).graph().node_count(),
            forall|i: int| 0 <= i < old(self).graph().node_count() ==> #[trigger] final(self).graph().held(i)
                == old(self).graph().held(i),
            forall|i: int| 0 <= i < old(self).graph().node_count() ==> #[trigger] final(self).graph().listeners(i)
                == old(self).graph().listeners(i),
            ({
                let waiting = old(self).dirty().union(redraw_targets(old(self).graph().outbox()));
                let full = full_redraw(waiting, final(self).sources());
                &&& full ==> final(self).regions() == seq![screen_rect()]
                &&& !full ==> {
                    &&& all_on_screen(final(self).regions())
                    &&& pairwise_disjoint(final(self).regions())
                    &&& forall|px: int, py: int| #[trigger]
                        covers(final(self).regions(), px, py) <==> (covers(final(self).sources(), px, py)
                            && on_screen(px, py))
                    &&& forall|px: int, py: int|
                        on_screen(px, py) && !covers(final(self).regions(), px, py) ==> #[trigger] pixel_of(
                            final(self).frame(),
                            px,
                            py,
                        ) == pixel_of(old(self).frame(), px, py)
                }
                &&& exists|ordered: Seq<TreeNode>, inks: Seq<Ink>|
                    #[trigger] frame_story(
                        old(self).element_slots(),
                        final(self).graph(),
                        old(self).frame(),
                        final(self).frame(),
                        final(self).sources(),
                        final(self).regions(),
                        full,
                        waiting,
                        ordered,
                        inks,
                    )
            }),
    {
        self.absorb_notices();
        let ghost waiting = ids_of(self.elements_requesting_redraw);
        let ghost frame0 = self.screen_buffer@;
        let ghost slots = self.elements@;
        let ghost graph = self.signals;
        let ghost notices = self.notices@;
        let (ordered, tracked_area) = collect_tree(
            &self.elements,
            &self.elements_requesting_redraw,
            &mut self.scratch_redraw_sources,
        );
        let count = id_count(&self.elements_requesting_redraw);
        let doing_full_redraw = count > PARTIAL_ELEMENT_LIMIT || tracked_area > PARTIAL_AREA_LIMIT;
        self.scratch_optimized_regions.clear();
        if doing_full_redraw {
            self.scratch_optimized_regions.push(
                BoundingRect { x: 0, y: 0, width: SCREEN_WIDTH, height: SCREEN_HEIGHT },
            );
            proof {
                assert(self.scratch_optimized_regions@ =~= seq![screen_rect()]);
            }
        } else {
            sweep_merge_rectangles(
                self.scratch_redraw_sources.as_slice(),
                &mut self.scratch_optimized_regions,
                &mut self.scratch_sweep_normalized,
                &mut self.scratch_sweep_x_edges,
                &mut self.scratch_sweep_y_spans,
            );
        }
        proof {
            reveal(walk_ok);
        }
        let ghost mut inks: Seq<Ink> = Seq::empty();
        let mut k: usize = 0;
        while k < ordered.len()
            invariant
                self.notices@ == notices,
                walk_ok(slots, ordered@),
                k <= ordered@.len(),
                inks.len() == k,
                forall|t: int|
                    0 <= t < k ==> {
                        &&& slots[(#[trigger] ordered@[t]).element_id as int] matches Some(UIElement::Rect(re))
                            ==> inks[t] == Ink::Fill(re.spec_color())
                        &&& slots[ordered@[t].element_id as int] matches Some(UIElement::Text(tx)) ==> exists|v: Value|
                            #[trigger] graph.peeks_as(tx.spec_text() as int, v) && shows(v, inks[t])
                    },
                forall|a: int, b: int|
                    0 <= a < b < ordered@.len() ==> (#[trigger] ordered@[a]).element_id != (
                    #[trigger] ordered@[b]).element_id,
                self.screen_buffer@.len() == FRAME_BYTES,
                forall|px: int, py: int|
                    on_screen(px, py) ==> #[trigger] pixel_of(self.screen_buffer@, px, py) == painted_pixel(
                        frame0,
                        ordered@,
                        inks,
                        doing_full_redraw,
                        waiting,
                        self.scratch_optimized_regions@,
                        k as int,
                        px,
                        py,
                    ),
                self.wf(),
                self.elements@ == slots,
                self.signals == graph,
                tree_ok(slots),
                forall|t: int|
                    0 <= t < ordered@.len() ==> {
                        &&& (#[trigger] ordered@[t]).element_id < slots.len()
                        &&& ordered@[t].rect.width == slots[ordered@[t].element_id as int]->0.spec_rect().width
                        &&& ordered@[t].rect.height == slots[ordered@[t].element_id as int]->0.spec_rect().height
                    },
                ids_of(self.elements_requesting_redraw) == waiting,
                self.scratch_redraw_sources@ == dirty_rects(ordered@, waiting),
                doing_full_redraw == full_redraw(waiting, self.scratch_redraw_sources@),
                doing_full_redraw ==> self.scratch_optimized_regions@ == seq![screen_rect()],
                !doing_full_redraw ==> {
                    &&& all_on_screen(self.scratch_optimized_regions@)
                    &&& pairwise_disjoint(self.scratch_optimized_regions@)
                    &&& forall|px: int, py: int| #[trigger]
                        covers(self.scratch_optimized_regions@, px, py) <==> (covers(
                            self.scratch_redraw_sources@,
                            px,
                            py,
                        ) && on_screen(px, py))
                    &&& forall|px: int, py: int|
                        on_screen(px, py) && !covers(self.scratch_optimized_regions@, px, py) ==> #[trigger] pixel_of(
                            self.screen_buffer@,
                            px,
                            py,
                        ) == pixel_of(frame0, px, py)
                },
            decreases ordered@.len() - k,
        {
            let node = ordered[k];
            let id = node.element_id;
            let el = self.elements.get(id).unwrap();
            proof {
                assert(slots[id as int] is Some);
                assert(scene_wf(slots, graph));
                assert(slots[id as int] matches Some(UIElement::Text(t)) ==> t.spec_text() < graph.node_count());
            }
            let ink = self.ink_of(el);
            let rect = node.rect;
            let ghost before = self.screen_buffer@;
            let ghost regions = self.scratch_optimized_regions@;
            let ghost whole = doing_full_redraw || waiting.contains(id);
            if doing_full_redraw || contains_id(&self.elements_requesting_redraw, id) {
                paint_region(&mut self.screen_buffer, &self.font, rect, rect.x, rect.y, &ink);
                proof {
                    assert forall|px: int, py: int| on_screen(px, py) implies #[trigger] pixel_of(
                        self.screen_buffer@,
                        px,
                        py,
                    ) == if paints(node, whole, regions, px, py) {
                        ink_bit(&ink, px - rect.x, py - rect.y)
                    } else {
                        pixel_of(before, px, py)
                    } by {}
                    if !doing_full_redraw {
                        lemma_dirty_rect_listed(ordered@, ids_of(self.elements_requesting_redraw), k as int);
                        assert forall|px: int, py: int|
                            on_screen(px, py) && !covers(self.scratch_optimized_regions@, px, py) implies #[trigger] pixel_of(
                                self.screen_buffer@,
                                px,
                                py,
                            ) == pixel_of(frame0, px, py) by {
                            assert(pixel_of(before, px, py) == pixel_of(frame0, px, py));
                            if rect.has_point(px, py) {
                                let j = choose|j: int|
                                    0 <= j < self.scratch_redraw_sources@.len()
                                        && #[trigger] self.scratch_redraw_sources@[j] == rect;
                                assert(self.scratch_redraw_sources@[j].has_point(px, py));
                                assert(covers(self.scratch_redraw_sources@, px, py));
                            }
                        }
                    }
                }
            } else {
                paint_clipped(
                    &mut self.screen_buffer,
                    &self.font,
                    &self.scratch_optimized_regions,
                    &mut self.scratch_region_intersections,
                    rect,
                    &ink,
                );
                proof {
                    assert forall|px: int, py: int| on_screen(px, py) implies #[trigger] pixel_of(
                        self.screen_buffer@,
                        px,
                        py,
                    ) == if paints(node, whole, regions, px, py) {
                        ink_bit(&ink, px - rect.x, py - rect.y)
                    } else {
                        pixel_of(before, px, py)
                    } by {}
                }
            }
            proof {
                let inks1 = inks.push(ink);
                assert(node == ordered@[k as int]);
                assert forall|px: int, py: int| on_screen(px, py) implies #[trigger] pixel_of(
                    self.screen_buffer@,
                    px,
                    py,
                ) == painted_pixel(
                    frame0,
                    ordered@,
                    inks1,
                    doing_full_redraw,
                    waiting,
                    regions,
                    k + 1,
                    px,
                    py,
                ) by {
                    lemma_last_painter_bounds(ordered@, doing_full_redraw, waiting, regions, k as int, px, py);
                    assert(pixel_of(before, px, py) == painted_pixel(
                        frame0,
                        ordered@,
                        inks,
                        doing_full_redraw,
                        waiting,
                        regions,
                        k as int,
                        px,
                        py,
                    ));
                    let j = last_painter(ordered@, doing_full_redraw, waiting, regions, k as int, px, py);
                    if j >= 0 {
                        assert(inks1[j] == inks[j]);
                    }
                }
                inks = inks1;
            }
            k += 1;
        }
        clear_ids(&mut self.elements_requesting_redraw);
        proof {
            assert(waiting == old(self).dirty().union(redraw_targets(old(self).graph().outbox())));
            assert(frame0 == old(self).frame());
            assert(slots == old(self).element_slots());
            assert(doing_full_redraw == full_redraw(waiting, self.sources()));
            assert(frame_story(
                old(self).element_slots(),
                self.graph(),
                old(self).frame(),
                self.frame(),
                self.sources(),
                self.regions(),
                doing_full_redraw,
                waiting,
                ordered@,
                inks,
            ));
        }
    }
}

/// Paint order: siblings are drawn in the order they were added, so every
/// earlier child of a node's parent comes before it in the walk; and a
/// pixel that a node paints, and no node after it paints, shows that
/// node's ink. So of two overlapping siblings, the later one shows where
/// they overlap unless something drawn after it covers the spot.
pub proof fn lemma_later_sibling_paints_over<F: Fn(&[Value]) -> Value>(
    slots: Seq<Option<UIElement>>,
    graph: SignalGraph<F>,
    frame0: Seq<u8>,
    frame: Seq<u8>,
    sources: Seq<BoundingRect>,
    regions: Seq<BoundingRect>,
    full: bool,
    waiting: Set<usize>,
    ordered: Seq<TreeNode>,
    inks: Seq<Ink>,
    kb: int,
    a: int,
    px: int,
    py: int,
)
    requires
        frame_story(slots, graph, frame0, frame, sources, regions, full, waiting, ordered, inks),
        1 <= kb < ordered.len(),
        0 <= a < ordered[kb].child_index,
        on_screen(px, py),
        paints(ordered[kb], full || waiting.contains(ordered[kb].element_id), regions, px, py),
        forall|j: int|
            kb < j < ordered.len() ==> !paints(
                #[trigger] ordered[j],
                full || waiting.contains(ordered[j].element_id),
                regions,
                px,
                py,
            ),
    ensures
        listed_before(ordered, kids(slots, ordered[ordered[kb].parent as int].element_id as int)[a], kb),
        pixel_of(frame, px, py) == ink_bit(&inks[kb], px - ordered[kb].rect.x, py - ordered[kb].rect.y),
{
    reveal(walk_ok);
    let p = ordered[kb].parent as int;
    assert(listed_before(ordered, kids(slots, ordered[p].element_id as int)[a], kb));
    lemma_last_painter_is(ordered, full, waiting, regions, ordered.len() as int, kb, px, py);
}

} // verus!
