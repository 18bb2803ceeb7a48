//! The reactive graph: signals hold values, derivations compute from other
//! nodes, and listeners are notified synchronously, in slot order, when a
//! value actually changes.
//!
//! The graph owns every node. A subscription is a registered [`Listener`],
//! not a captured callback: a listener of the host is recorded in the
//! outbox as a [`Notice`] when it fires, and the host drains the outbox and
//! runs its own reaction. Listeners are data, so no listener can write a
//! signal while a change is still propagating: re-entrant mutation cannot
//! happen. A derivation can only depend on nodes created before it, so
//! ascending node order is a topological order: a write brings the nodes
//! after the signal up to date once each, in that order, and every
//! derivation recomputes at most once, from the final values of its inputs.
use vstd::prelude::*;

verus! {

/// A value held or computed by a node.
#[derive(Debug, PartialEq)]
pub enum Value {
    Int(i64),
    Text(String),
}

impl Value {
    /// The two values are equal: same variant and same contents.
    pub open spec fn same(self, other: Value) -> bool {
        match (self, other) {
            (Value::Int(a), Value::Int(b)) => a == b,
            (Value::Text(a), Value::Text(b)) => a@ == b@,
            _ => false,
        }
    }

    pub fn is_same(&self, other: &Value) -> (r: bool)
        ensures
            r == self.same(*other),
    {
        match (self, other) {
            (Value::Int(a), Value::Int(b)) => *a == *b,
            (Value::Text(a), Value::Text(b)) => *a == *b,
            _ => false,
        }
    }

    pub fn duplicate(&self) -> (r: Value)
        ensures
            r == *self,
    {
        match self {
            Value::Int(i) => Value::Int(*i),
            Value::Text(s) => Value::Text(s.clone()),
        }
    }
}

/// What a listener slot does when its node changes.
#[derive(Clone, Copy, Debug, PartialEq, Eq, Structural)]
pub enum Listener {
    /// A reaction of the host: recorded in the outbox.
    Watch,
    /// Asks for element `id` to be redrawn: recorded in the outbox.
    Redraw(usize),
    /// Feeds input `k` of derived node `node`, which then recomputes.
    Input(usize, usize),
}

/// A listener that fired: slot `slot` of node `node`.
#[derive(Clone, Copy, Debug, PartialEq, Eq, Structural)]
pub struct Notice {
    pub node: usize,
    pub slot: usize,
    pub listener: Listener,
}

#[derive(Clone, Copy, Debug, PartialEq, Eq, Structural)]
pub enum NodeKind {
    /// Holds a value that `set` changes.
    Signal,
    /// Holds a value that never changes.
    Constant,
    /// Computes its value from the last values seen of its inputs.
    Derived,
}

struct Node<F> {
    kind: NodeKind,
    /// The value of a signal or constant; a derivation leaves it unused.
    value: Value,
    /// The nodes a derivation reads, in the order its closure receives them.
    inputs: Vec<usize>,
    /// The last value seen of each input.
    snapshot: Vec<Value>,
    /// A derivation's last computed value, kept only while it has listeners.
    cache: Option<Value>,
    compute: Option<F>,
    /// Listener slots; an empty slot may be reused.
    listeners: Vec<Option<Listener>>,
}

/// A set of observable nodes, identified by index, whose derivations all
/// compute with closures of type `F`.
pub struct SignalGraph<F> {
    nodes: Vec<Node<F>>,
    outbox: Vec<Notice>,
}

/// The slots among the first `n` of `ls` whose listener reports to the host
/// (every live listener but a derivation's input), in slot order.
pub open spec fn host_slots(ls: Seq<Option<Listener>>, n: int) -> Seq<usize>
    decreases n,
{
    if n <= 0 {
        Seq::empty()
    } else if ls[n - 1] matches Some(l) && !(l is Input) {
        host_slots(ls, n - 1).push((n - 1) as usize)
    } else {
        host_slots(ls, n - 1)
    }
}

/// The slots of node `id` recorded in `ns`, in order of record.
pub open spec fn slots_of(ns: Seq<Notice>, id: usize) -> Seq<usize>
    decreases ns.len(),
{
    if ns.len() == 0 {
        Seq::empty()
    } else if ns.last().node == id {
        slots_of(ns.drop_last(), id).push(ns.last().slot)
    } else {
        slots_of(ns.drop_last(), id)
    }
}

/// The notices that serving the first `n` slots of `ls`, the listeners of
/// node `id`, records: one per host listener (every live listener but a
/// derivation's input), in slot order, each naming its listener.
pub open spec fn host_notices(id: usize, ls: Seq<Option<Listener>>, n: int) -> Seq<Notice>
    decreases n,
{
    if n <= 0 {
        Seq::empty()
    } else if ls[n - 1] is Some && !(ls[n - 1]->0 is Input) {
        host_notices(id, ls, n - 1).push(Notice { node: id, slot: (n - 1) as usize, listener: ls[n - 1]->0 })
    } else {
        host_notices(id, ls, n - 1)
    }
}

/// Some input of `inputs` is flagged.
pub open spec fn flagged(flags: Seq<bool>, inputs: Seq<usize>) -> bool {
    exists|j: int| 0 <= j < inputs.len() && #[trigger] flags[inputs[j] as int]
}

/// A derivation whose cache was `old` and that computed `c` caches `new`:
/// an equal old value stays, otherwise `c` is cached.
pub open spec fn recomputed(old: Option<Value>, new: Option<Value>, c: Value) -> bool {
    if old is Some && old->0.same(c) {
        new == old
    } else {
        new == Some(c)
    }
}

pub proof fn lemma_same_refl(v: Value)
    ensures
        v.same(v),
{
}

/// Some slot of `ls` holds a listener.
pub open spec fn has_live(ls: Seq<Option<Listener>>) -> bool {
    exists|s: int| 0 <= s < ls.len() && (#[trigger] ls[s]) is Some
}

/// The first empty slot of `ls` from `i` on, or `ls.len()` when there is
/// none.
pub open spec fn first_free_from(ls: Seq<Option<Listener>>, i: int) -> int
    decreases ls.len() - i,
{
    if i >= ls.len() || i < 0 {
        ls.len() as int
    } else if ls[i] is None {
        i
    } else {
        first_free_from(ls, i + 1)
    }
}

/// `ls` after subscribing `l`: it takes the first empty slot, or a new slot
/// at the end.
pub open spec fn with_listener(ls: Seq<Option<Listener>>, l: Listener) -> Seq<Option<Listener>> {
    let s = first_free_from(ls, 0);
    if s < ls.len() {
        ls.update(s, Some(l))
    } else {
        ls.push(Some(l))
    }
}

proof fn lemma_first_free_bounds(ls: Seq<Option<Listener>>, i: int)
    requires
        0 <= i <= ls.len(),
    ensures
        i <= first_free_from(ls, i) <= ls.len(),
        first_free_from(ls, i) < ls.len() ==> ls[first_free_from(ls, i)] is None,
        forall|j: int| i <= j < first_free_from(ls, i) ==> (#[trigger] ls[j]) is Some,
    decreases ls.len() - i,
{
    if i < ls.len() && ls[i] is Some {
        lemma_first_free_bounds(ls, i + 1);
    }
}

impl<F: Fn(&[Value]) -> Value> SignalGraph<F> {
    pub closed spec fn node_count(&self) -> nat {
        self.nodes@.len()
    }

    pub closed spec fn kind(&self, id: int) -> NodeKind {
        self.nodes@[id].kind
    }

    /// The value held by a signal or a constant.
    pub closed spec fn held(&self, id: int) -> Value {
        self.nodes@[id].value
    }

    pub closed spec fn inputs(&self, id: int) -> Seq<usize> {
        self.nodes@[id].inputs@
    }

    /// The last values that a derivation has seen of its inputs.
    pub closed spec fn snapshot(&self, id: int) -> Seq<Value> {
        self.nodes@[id].snapshot@
    }

    pub closed spec fn cache(&self, id: int) -> Option<Value> {
        self.nodes@[id].cache
    }

    pub closed spec fn compute(&self, id: int) -> F {
        self.nodes@[id].compute->0
    }

    pub closed spec fn listeners(&self, id: int) -> Seq<Option<Listener>> {
        self.nodes@[id].listeners@
    }

    /// The notices recorded and not yet drained.
    pub closed spec fn outbox(&self) -> Seq<Notice> {
        self.outbox@
    }

    spec fn node_wf(&self, i: int) -> bool {
        let n = self.nodes@[i];
        &&& n.kind is Derived ==> {
            &&& n.compute is Some
            &&& forall|s: &[Value]| call_requires(n.compute->0, (s,))
            &&& n.inputs@.len() == n.snapshot@.len()
            &&& forall|k: int| 0 <= k < n.inputs@.len() ==> n.inputs@[k] < i
            &&& !has_live(n.listeners@) ==> n.cache is None
        }
        &&& !(n.kind is Derived) ==> n.cache is None
        &&& forall|s: int|
            0 <= s < n.listeners@.len() ==> (#[trigger] n.listeners@[s] matches Some(
                Listener::Input(d, k),
            ) ==> {
                &&& i < d < self.nodes@.len()
                &&& self.nodes@[d as int].kind is Derived
                &&& k < self.nodes@[d as int].snapshot@.len()
            })
    }

    /// Every node is well formed: derivations have a closure that accepts
    /// any input, one snapshot entry per input, inputs older than
    /// themselves, and no cache while nobody listens.
    pub closed spec fn wf(&self) -> bool {
        forall|i: int| 0 <= i < self.nodes@.len() ==> #[trigger] self.node_wf(i)
    }

    /// `self` and `other` have the same nodes, inputs, closures and
    /// listeners; only values, snapshots, caches and the outbox may differ.
    pub closed spec fn same_shape(&self, other: &Self) -> bool {
        &&& self.nodes@.len() == other.nodes@.len()
        &&& forall|i: int|
            0 <= i < self.nodes@.len() ==> {
                &&& (#[trigger] self.nodes@[i]).kind == other.nodes@[i].kind
                &&& self.nodes@[i].inputs@ == other.nodes@[i].inputs@
                &&& self.nodes@[i].snapshot@.len() == other.nodes@[i].snapshot@.len()
                &&& self.nodes@[i].compute == other.nodes@[i].compute
                &&& self.nodes@[i].listeners@ == other.nodes@[i].listeners@
            }
    }

    pub fn new() -> (r: Self)
        ensures
            r.wf(),
            r.node_count() == 0,
            r.outbox() == Seq::<Notice>::empty(),
    {
        SignalGraph { nodes: Vec::new(), outbox: Vec::new() }
    }
}

impl<F: Fn(&[Value]) -> Value> SignalGraph<F> {
    /// Every node holds the same value in `self` and `other`.
    pub closed spec fn same_held(&self, other: &Self) -> bool {
        forall|i: int| 0 <= i < self.nodes@.len() ==> (#[trigger] self.nodes@[i]).value == other.nodes@[i].value
    }

    /// `r` is a value that `peek(id)` may return: the held value of a signal
    /// or constant; the cache of a derivation that has one; else what its
    /// closure gives on its snapshot.
    pub open spec fn peeks_as(&self, id: int, r: Value) -> bool {
        if !(self.kind(id) is Derived) {
            r == self.held(id)
        } else if self.cache(id) is Some {
            r == self.cache(id)->0
        } else {
            exists|s: &[Value]| s@ == self.snapshot(id) && call_ensures(self.compute(id), (s,), r)
        }
    }

    fn has_live_listener(&self, id: usize) -> (r: bool)
        requires
            id < self.node_count(),
        ensures
            r == has_live(self.listeners(id as int)),
    {
        let ls = &self.nodes[id].listeners;
        let mut s: usize = 0;
        while s < ls.len()
            invariant
                id < self.node_count(),
                ls@ == self.listeners(id as int),
                s <= ls@.len(),
                forall|j: int| 0 <= j < s ==> (#[trigger] ls@[j]) is None,
            decreases ls@.len() - s,
        {
            if ls[s].is_some() {
                assert(self.listeners(id as int)[s as int] is Some);
                return true;
            }
            s += 1;
        }
        false
    }

    /// Runs the closure of derivation `id` on its snapshot.
    fn compute_now(&self, id: usize) -> (r: Value)
        requires
            self.wf(),
            id < self.node_count(),
            self.kind(id as int) is Derived,
        ensures
            exists|s: &[Value]| s@ == self.snapshot(id as int) && call_ensures(self.compute(id as int), (s,), r),
    {
        assert(self.node_wf(id as int));
        let node = &self.nodes[id];
        let f = node.compute.as_ref().unwrap();
        let s = node.snapshot.as_slice();
        f(s)
    }

    /// The current value of node `id`. Reading never stores anything: a
    /// derivation without a cache computes its value afresh on each read.
    pub fn peek(&self, id: usize) -> (r: Value)
        requires
            self.wf(),
            id < self.node_count(),
        ensures
            self.peeks_as(id as int, r),
    {
        let node = &self.nodes[id];
        match node.kind {
            NodeKind::Derived => match &node.cache {
                Some(c) => c.duplicate(),
                None => self.compute_now(id),
            },
            _ => node.value.duplicate(),
        }
    }

    /// Records a notice for each host listener of node `id`, in slot order.
    fn notify_hosts(&mut self, id: usize)
        requires
            old(self).wf(),
            id < old(self).node_count(),
        ensures
            final(self).wf(),
            final(self).nodes@ == old(self).nodes@,
            final(self).outbox() == old(self).outbox() + host_notices(
                id,
                old(self).listeners(id as int),
                old(self).listeners(id as int).len() as int,
            ),
    {
        let ghost g0 = *self;
        let n = self.nodes[id].listeners.len();
        let mut s: usize = 0;
        while s < n
            invariant
                s <= n,
                id < g0.node_count(),
                n == g0.listeners(id as int).len(),
                self.nodes@ == g0.nodes@,
                self.outbox() == g0.outbox() + host_notices(id, g0.listeners(id as int), s as int),
            decreases n - s,
        {
            let ghost before = self.outbox();
            match self.nodes[id].listeners[s] {
                Some(Listener::Input(_, _)) => {},
                Some(l) => {
                    self.outbox.push(Notice { node: id, slot: s, listener: l });
                },
                None => {},
            }
            proof {
                let h = host_notices(id, g0.listeners(id as int), s as int);
                if g0.listeners(id as int)[s as int] is Some && !(g0.listeners(id as int)[s as int]->0 is Input) {
                    assert(self.outbox() =~= g0.outbox() + h.push(
                        Notice { node: id, slot: s, listener: g0.listeners(id as int)[s as int]->0 },
                    ));
                }
            }
            s += 1;
        }
        proof {
            assert forall|i: int| 0 <= i < self.nodes@.len() implies #[trigger] self.node_wf(i) by {
                assert(g0.node_wf(i));
            }
        }
    }

    /// Brings derivation `d` up to date in a pass where the nodes flagged in
    /// `flags` have changed: each changed input's new value enters the
    /// snapshot; a derivation with a changed input recomputes when someone
    /// listens (else drops its cache), keeps its cache when the new value
    /// equals it, and otherwise caches the new value and notifies its host
    /// listeners. Returns whether the cached value changed.
    fn settle(&mut self, d: usize, id: usize, flags: &Vec<bool>) -> (r: bool)
        requires
            old(self).wf(),
            id < d < old(self).node_count(),
            old(self).kind(d as int) is Derived,
            flags@.len() == old(self).node_count(),
            forall|i: int|
                0 <= i < flags@.len() && #[trigger] flags@[i] ==> i == id || (i != d && old(self).cache(i) is Some),
        ensures
            final(self).wf(),
            final(self).same_shape(old(self)),
            final(self).same_held(old(self)),
            forall|i: int| 0 <= i < old(self).node_count() && i != d ==> #[trigger] final(self).nodes@[i] == old(self).nodes@[i],
            final(self).snapshot(d as int).len() == old(self).snapshot(d as int).len(),
            forall|k: int|
                0 <= k < old(self).inputs(d as int).len() ==> (#[trigger] final(self).snapshot(d as int)[k]) == if flags@[
                    old(self).inputs(d as int)[k] as int] {
                    live_value(*old(self), id as int, old(self).inputs(d as int)[k] as int)
                } else {
                    old(self).snapshot(d as int)[k]
                },
            !flagged(flags@, old(self).inputs(d as int)) ==> final(self).cache(d as int) == old(self).cache(d as int),
            flagged(flags@, old(self).inputs(d as int)) && !has_live(old(self).listeners(d as int))
                ==> final(self).cache(d as int) is None,
            flagged(flags@, old(self).inputs(d as int)) && has_live(old(self).listeners(d as int)) ==> exists|c: Value|
                #[trigger] computes(old(self).compute(d as int), final(self).snapshot(d as int), c) && recomputed(
                    old(self).cache(d as int),
                    final(self).cache(d as int),
                    c,
                ),
            r == (final(self).cache(d as int) != old(self).cache(d as int)),
            final(self).outbox() == old(self).outbox() + if r {
                host_notices(d, old(self).listeners(d as int), old(self).listeners(d as int).len() as int)
            } else {
                Seq::empty()
            },
    {
        let ghost g0 = *self;
        proof {
            assert(self.node_wf(d as int));
        }
        let m = self.nodes[d].inputs.len();
        let mut fed = false;
        let mut k: usize = 0;
        while k < m
            invariant
                k <= m,
                m == g0.inputs(d as int).len(),
                id < d < g0.node_count(),
                flags@.len() == g0.node_count(),
                forall|i: int|
                    0 <= i < flags@.len() && #[trigger] flags@[i] ==> i == id || (i != d && g0.cache(i) is Some),
                g0.node_wf(d as int),
                g0.kind(d as int) is Derived,
                self.nodes@.len() == g0.nodes@.len(),
                self.outbox == g0.outbox,
                forall|i: int| 0 <= i < g0.node_count() && i != d ==> #[trigger] self.nodes@[i] == g0.nodes@[i],
                self.nodes@[d as int].kind == g0.nodes@[d as int].kind,
                self.nodes@[d as int].value == g0.nodes@[d as int].value,
                self.nodes@[d as int].inputs@ == g0.nodes@[d as int].inputs@,
                self.nodes@[d as int].cache == g0.nodes@[d as int].cache,
                self.nodes@[d as int].compute == g0.nodes@[d as int].compute,
                self.nodes@[d as int].listeners@ == g0.nodes@[d as int].listeners@,
                self.nodes@[d as int].snapshot@.len() == g0.nodes@[d as int].snapshot@.len(),
                forall|j: int|
                    0 <= j < m ==> #[trigger] self.nodes@[d as int].snapshot@[j] == if j < k && flags@[g0.inputs(
                        d as int,
                    )[j] as int] {
                        live_value(g0, id as int, g0.inputs(d as int)[j] as int)
                    } else {
                        g0.snapshot(d as int)[j]
                    },
                fed == exists|j: int| 0 <= j < k && #[trigger] flags@[g0.inputs(d as int)[j] as int],
            decreases m - k,
        {
            let src = self.nodes[d].inputs[k];
            proof {
                assert(src < d);
            }
            if flags[src] {
                let val = if src == id {
                    self.nodes[id].value.duplicate()
                } else {
                    proof {
                        assert(self.nodes@[src as int] == g0.nodes@[src as int]);
                    }
                    self.nodes[src].cache.as_ref().unwrap().duplicate()
                };
                proof {
                    assert(self.nodes@[id as int] == g0.nodes@[id as int]);
                    assert(val == live_value(g0, id as int, src as int));
                }
                self.nodes[d].snapshot.set(k, val);
                fed = true;
            }
            proof {
                if !fed {
                    assert(!exists|j: int| 0 <= j < k + 1 && #[trigger] flags@[g0.inputs(d as int)[j] as int]);
                }
            }
            k += 1;
        }
        proof {
            assert(fed == flagged(flags@, g0.inputs(d as int)));
            assert forall|i: int| 0 <= i < self.nodes@.len() implies #[trigger] self.node_wf(i) by {
                assert(g0.node_wf(i));
                if i == d {
                    assert(!has_live(self.nodes@[i].listeners@) ==> !has_live(g0.nodes@[i].listeners@));
                }
            }
        }
        if !fed {
            return false;
        }
        let live = self.has_live_listener(d);
        if !live {
            self.nodes[d].cache = None;
            proof {
                assert forall|i: int| 0 <= i < self.nodes@.len() implies #[trigger] self.node_wf(i) by {
                    assert(g0.node_wf(i));
                }
            }
            return false;
        }
        let c = self.compute_now(d);
        let same = match &self.nodes[d].cache {
            Some(p) => p.is_same(&c),
            None => false,
        };
        if same {
            proof {
                assert(computes(g0.compute(d as int), self.snapshot(d as int), c));
            }
            return false;
        }
        proof {
            if g0.cache(d as int) is Some {
                lemma_same_refl(c);
            }
        }
        self.nodes[d].cache = Some(c);
        proof {
            assert forall|i: int| 0 <= i < self.nodes@.len() implies #[trigger] self.node_wf(i) by {
                assert(g0.node_wf(i));
            }
        }
        let ghost g2 = *self;
        self.notify_hosts(d);
        proof {
            assert(computes(g0.compute(d as int), self.snapshot(d as int), c));
            assert(self.snapshot(d as int) == g2.snapshot(d as int));
        }
        true
    }
}

/// `c` is a value that closure `f` may return on the inputs `input`.
pub open spec fn computes<F: Fn(&[Value]) -> Value>(f: F, input: Seq<Value>, c: Value) -> bool {
    exists|s: &[Value]| s@ == input && call_ensures(f, (s,), c)
}

/// Node `n` changed in a write of signal `id` that turned `g0` into `g1`:
/// the signal itself, or a derivation whose cached value changed.
pub open spec fn changed_in<F: Fn(&[Value]) -> Value>(g0: SignalGraph<F>, g1: SignalGraph<F>, id: int, n: int) -> bool {
    n == id || (id < n && g0.kind(n) is Derived && g1.cache(n) != g0.cache(n))
}

/// The value of node `n` after the write of `v` into signal `id`: `v` for
/// the signal, the new cache of a derivation that changed.
pub open spec fn value_after<F: Fn(&[Value]) -> Value>(g1: SignalGraph<F>, id: int, n: int, v: Value) -> Value {
    if n == id {
        v
    } else {
        g1.cache(n)->0
    }
}

/// The value of a changed node `n` in `g`: the held value of signal `id`, or
/// the cache of a derivation.
pub open spec fn live_value<F: Fn(&[Value]) -> Value>(g: SignalGraph<F>, id: int, n: int) -> Value {
    if n == id {
        g.held(id)
    } else {
        g.cache(n)->0
    }
}

/// Some input of derivation `d` changed in the write.
pub open spec fn fed<F: Fn(&[Value]) -> Value>(g0: SignalGraph<F>, g1: SignalGraph<F>, id: int, d: int) -> bool {
    exists|k: int| 0 <= k < g0.inputs(d).len() && #[trigger] changed_in(g0, g1, id, g0.inputs(d)[k] as int)
}

/// Derivation `d` after the write of `v` into signal `id`: each changed
/// input's new value is in its snapshot, the others as before; with no
/// changed input its cache is as before; with one, it drops its cache when
/// nobody listens, and otherwise computed a value from the new snapshot and
/// cached it unless it equals the old cache.
pub open spec fn derived_after<F: Fn(&[Value]) -> Value>(
    g0: SignalGraph<F>,
    g1: SignalGraph<F>,
    id: int,
    v: Value,
    d: int,
) -> bool {
    &&& g1.snapshot(d).len() == g0.snapshot(d).len()
    &&& forall|k: int|
        0 <= k < g0.inputs(d).len() ==> #[trigger] g1.snapshot(d)[k] == if changed_in(
            g0,
            g1,
            id,
            g0.inputs(d)[k] as int,
        ) {
            value_after(g1, id, g0.inputs(d)[k] as int, v)
        } else {
            g0.snapshot(d)[k]
        }
    &&& !fed(g0, g1, id, d) ==> g1.cache(d) == g0.cache(d)
    &&& fed(g0, g1, id, d) && !has_live(g0.listeners(d)) ==> g1.cache(d) is None
    &&& fed(g0, g1, id, d) && has_live(g0.listeners(d)) ==> exists|c: Value|
        #[trigger] computes(g0.compute(d), g1.snapshot(d), c) && recomputed(g0.cache(d), g1.cache(d), c)
}

/// The notices recorded by the write of signal `id`, for the nodes below
/// `n`: node by node in ascending order, for each node that changed, its
/// host listeners in slot order.
pub open spec fn pass_notices<F: Fn(&[Value]) -> Value>(
    g0: SignalGraph<F>,
    g1: SignalGraph<F>,
    id: int,
    n: int,
) -> Seq<Notice>
    decreases n - id,
{
    if n <= id {
        Seq::empty()
    } else if changed_in(g0, g1, id, n - 1) {
        pass_notices(g0, g1, id, n - 1) + host_notices(
            (n - 1) as usize,
            g0.listeners(n - 1),
            g0.listeners(n - 1).len() as int,
        )
    } else {
        pass_notices(g0, g1, id, n - 1)
    }
}

/// What `set(id, v)` does: writing a value equal to the held one leaves the
/// graph exactly as it was. Writing a new value stores it, then brings every
/// later node up to date once, in ascending order (a derivation's inputs
/// are older than itself, so each sees its inputs' final values): see
/// `derived_after`. The notices recorded are those of `pass_notices`: the
/// signal's host listeners first, in slot order, then those of each
/// derivation whose value changed.
pub open spec fn set_post<F: Fn(&[Value]) -> Value>(
    g0: SignalGraph<F>,
    g1: SignalGraph<F>,
    id: int,
    v: Value,
) -> bool {
    &&& g1.wf()
    &&& g0.held(id).same(v) ==> g1 == g0
    &&& !g0.held(id).same(v) ==> {
        &&& g1.same_shape(&g0)
        &&& g1.node_count() == g0.node_count()
        &&& forall|i: int| 0 <= i < g0.node_count() ==> #[trigger] g1.kind(i) == g0.kind(i)
        &&& forall|i: int| 0 <= i < g0.node_count() ==> #[trigger] g1.listeners(i) == g0.listeners(i)
        &&& forall|i: int| 0 <= i < g0.node_count() ==> #[trigger] g1.inputs(i) == g0.inputs(i)
        &&& g1.held(id) == v
        &&& forall|i: int| 0 <= i < g0.node_count() && i != id ==> #[trigger] g1.held(i) == g0.held(i)
        &&& forall|i: int|
            0 <= i <= id ==> #[trigger] g1.cache(i) == g0.cache(i) && g1.snapshot(i) == g0.snapshot(i)
        &&& forall|d: int|
            id < d < g0.node_count() && g0.kind(d) is Derived ==> #[trigger] derived_after(g0, g1, id, v, d)
        &&& g1.outbox() == g0.outbox() + pass_notices(g0, g1, id, g0.node_count() as int)
    }
}

/// A derivation that changed in the write holds a cache.
proof fn lemma_changed_has_cache<F: Fn(&[Value]) -> Value>(
    g0: SignalGraph<F>,
    g: SignalGraph<F>,
    id: int,
    v: Value,
    i: int,
)
    requires
        g0.wf(),
        0 <= i < g0.node_count(),
        id < i,
        g0.kind(i) is Derived,
        derived_after(g0, g, id, v, i),
        g.cache(i) != g0.cache(i),
    ensures
        g.cache(i) is Some,
{
    g0.lemma_node_wf(i);
    if fed(g0, g, id, i) && has_live(g0.listeners(i)) {
        let c = choose|c: Value| #[trigger] computes(g0.compute(i), g.snapshot(i), c) && recomputed(g0.cache(i), g.cache(i), c);
    }
}

/// The notices of the write below `n` depend on the caches below `n` only.
proof fn lemma_pass_stable<F: Fn(&[Value]) -> Value>(
    g0: SignalGraph<F>,
    ga: SignalGraph<F>,
    gb: SignalGraph<F>,
    id: int,
    n: int,
)
    requires
        0 <= id,
        forall|i: int| 0 <= i < n ==> #[trigger] ga.cache(i) == gb.cache(i),
    ensures
        pass_notices(g0, ga, id, n) == pass_notices(g0, gb, id, n),
    decreases n - id,
{
    if n > id {
        assert(ga.cache(n - 1) == gb.cache(n - 1));
        lemma_pass_stable(g0, ga, gb, id, n - 1);
    }
}

/// What the write did to derivation `d` depends on `d` and the caches of
/// its inputs only.
proof fn lemma_derived_after_stable<F: Fn(&[Value]) -> Value>(
    g0: SignalGraph<F>,
    ga: SignalGraph<F>,
    gb: SignalGraph<F>,
    id: int,
    v: Value,
    d: int,
)
    requires
        0 <= d,
        derived_after(g0, ga, id, v, d),
        forall|k: int| 0 <= k < g0.inputs(d).len() ==> #[trigger] g0.inputs(d)[k] < d,
        forall|i: int| 0 <= i <= d ==> #[trigger] ga.cache(i) == gb.cache(i),
        ga.snapshot(d) == gb.snapshot(d),
    ensures
        derived_after(g0, gb, id, v, d),
{
    assert forall|k: int| 0 <= k < g0.inputs(d).len() implies #[trigger] changed_in(g0, ga, id, g0.inputs(d)[k] as int)
        == changed_in(g0, gb, id, g0.inputs(d)[k] as int) && value_after(ga, id, g0.inputs(d)[k] as int, v)
        == value_after(gb, id, g0.inputs(d)[k] as int, v) by {
        let src = g0.inputs(d)[k] as int;
        assert(src < d);
        if src >= 0 {
            assert(ga.cache(src) == gb.cache(src));
        }
    }
    if fed(g0, ga, id, d) {
        let k = choose|k: int| 0 <= k < g0.inputs(d).len() && #[trigger] changed_in(g0, ga, id, g0.inputs(d)[k] as int);
        assert(changed_in(g0, gb, id, g0.inputs(d)[k] as int));
    }
    if fed(g0, gb, id, d) {
        let k = choose|k: int| 0 <= k < g0.inputs(d).len() && #[trigger] changed_in(g0, gb, id, g0.inputs(d)[k] as int);
        assert(changed_in(g0, ga, id, g0.inputs(d)[k] as int));
    }
    assert(ga.cache(d) == gb.cache(d));
}

/// Writing the value a signal already holds changes nothing and notifies
/// no listener.
pub proof fn lemma_unchanged_set_is_silent<F: Fn(&[Value]) -> Value>(
    g0: SignalGraph<F>,
    g1: SignalGraph<F>,
    id: int,
    v: Value,
)
    requires
        set_post(g0, g1, id, v),
        g0.held(id).same(v),
    ensures
        g1 == g0,
        g1.outbox() == g0.outbox(),
{
}

/// Writing the same value twice in a row: the second write changes nothing
/// and notifies no listener.
pub proof fn lemma_repeated_set_is_silent<F: Fn(&[Value]) -> Value>(
    g0: SignalGraph<F>,
    g1: SignalGraph<F>,
    g2: SignalGraph<F>,
    id: int,
    v: Value,
)
    requires
        0 <= id < g0.node_count(),
        set_post(g0, g1, id, v),
        set_post(g1, g2, id, v),
    ensures
        g2 == g1,
        g2.outbox() == g1.outbox(),
{
    if !g0.held(id).same(v) {
        assert(g1.held(id) == v);
    }
}

proof fn lemma_pass_prefix<F: Fn(&[Value]) -> Value>(
    g0: SignalGraph<F>,
    g1: SignalGraph<F>,
    id: int,
    n: int,
)
    requires
        0 <= id < n,
        id <= usize::MAX,
    ensures
        ({
            let h = host_notices(id as usize, g0.listeners(id), g0.listeners(id).len() as int);
            h.len() <= pass_notices(g0, g1, id, n).len() && pass_notices(g0, g1, id, n).subrange(
                0,
                h.len() as int,
            ) == h
        }),
    decreases n - id,
{
    let h = host_notices(id as usize, g0.listeners(id), g0.listeners(id).len() as int);
    if n == id + 1 {
        assert(pass_notices(g0, g1, id, id) =~= Seq::<Notice>::empty());
        assert(pass_notices(g0, g1, id, n) =~= h);
        assert(h.subrange(0, h.len() as int) =~= h);
    } else {
        lemma_pass_prefix(g0, g1, id, n - 1);
        let p = pass_notices(g0, g1, id, n - 1);
        if changed_in(g0, g1, id, n - 1) {
            let x = host_notices((n - 1) as usize, g0.listeners(n - 1), g0.listeners(n - 1).len() as int);
            assert((p + x).subrange(0, h.len() as int) =~= p.subrange(0, h.len() as int));
        }
    }
}

proof fn lemma_host_contains(id: usize, ls: Seq<Option<Listener>>, n: int, s: int)
    requires
        0 <= s < n,
        s < ls.len(),
        ls[s] is Some,
        !(ls[s]->0 is Input),
    ensures
        exists|j: int|
            0 <= j < host_notices(id, ls, n).len() && #[trigger] host_notices(id, ls, n)[j] == (Notice {
                node: id,
                slot: s as usize,
                listener: ls[s]->0,
            }),
    decreases n,
{
    let h = host_notices(id, ls, n - 1);
    if s == n - 1 {
        assert(host_notices(id, ls, n)[h.len() as int] == (Notice { node: id, slot: s as usize, listener: ls[s]->0 }));
    } else {
        lemma_host_contains(id, ls, n - 1, s);
        let j = choose|j: int|
            0 <= j < h.len() && #[trigger] h[j] == (Notice { node: id, slot: s as usize, listener: ls[s]->0 });
        assert(host_notices(id, ls, n)[j] == h[j]);
    }
}

/// When node `m` changed in the write, the write's notices hold one for
/// each host listener of `m`.
pub proof fn lemma_pass_contains<F: Fn(&[Value]) -> Value>(
    g0: SignalGraph<F>,
    g1: SignalGraph<F>,
    id: int,
    n: int,
    m: int,
    s: int,
)
    requires
        0 <= id <= m < n,
        changed_in(g0, g1, id, m),
        0 <= s < g0.listeners(m).len(),
        g0.listeners(m)[s] is Some,
        !(g0.listeners(m)[s]->0 is Input),
    ensures
        exists|j: int|
            0 <= j < pass_notices(g0, g1, id, n).len() && #[trigger] pass_notices(g0, g1, id, n)[j] == (Notice {
                node: m as usize,
                slot: s as usize,
                listener: g0.listeners(m)[s]->0,
            }),
    decreases n - id,
{
    let x = Notice { node: m as usize, slot: s as usize, listener: g0.listeners(m)[s]->0 };
    let p = pass_notices(g0, g1, id, n - 1);
    if n - 1 == m {
        let h = host_notices(m as usize, g0.listeners(m), g0.listeners(m).len() as int);
        lemma_host_contains(m as usize, g0.listeners(m), g0.listeners(m).len() as int, s);
        let j = choose|j: int| 0 <= j < h.len() && #[trigger] h[j] == x;
        assert(pass_notices(g0, g1, id, n)[p.len() + j] == x);
    } else {
        lemma_pass_contains(g0, g1, id, n - 1, m, s);
        let j = choose|j: int| 0 <= j < p.len() && #[trigger] p[j] == x;
        assert(pass_notices(g0, g1, id, n)[j] == x);
    }
}

/// A write that changes a signal's value first notifies each of its host
/// listeners exactly once, in slot (subscription) order, each notice
/// naming the listener in its slot.
pub proof fn lemma_change_notifies_each_listener_once<F: Fn(&[Value]) -> Value>(
    g0: SignalGraph<F>,
    g1: SignalGraph<F>,
    id: int,
    v: Value,
)
    requires
        0 <= id < g0.node_count(),
        id <= usize::MAX,
        set_post(g0, g1, id, v),
        !g0.held(id).same(v),
    ensures
        ({
            let h = host_notices(id as usize, g0.listeners(id), g0.listeners(id).len() as int);
            g1.outbox().subrange(g0.outbox().len() as int, (g0.outbox().len() + h.len()) as int) == h
        }),
{
    lemma_pass_prefix(g0, g1, id, g0.node_count() as int);
    let h = host_notices(id as usize, g0.listeners(id), g0.listeners(id).len() as int);
    let p = pass_notices(g0, g1, id, g0.node_count() as int);
    assert(g1.outbox().subrange(g0.outbox().len() as int, (g0.outbox().len() + h.len()) as int) =~= p.subrange(
        0,
        h.len() as int,
    ));
}

proof fn lemma_slots_of_concat(a: Seq<Notice>, b: Seq<Notice>, m: usize)
    ensures
        slots_of(a + b, m) == slots_of(a, m) + slots_of(b, m),
    decreases b.len(),
{
    if b.len() == 0 {
        assert(a + b =~= a);
        assert(slots_of(a, m) + slots_of(b, m) =~= slots_of(a, m));
    } else {
        assert((a + b).drop_last() =~= a + b.drop_last());
        lemma_slots_of_concat(a, b.drop_last(), m);
        assert((a + b).last() == b.last());
        if b.last().node == m {
            assert(slots_of(a, m) + slots_of(b.drop_last(), m).push(b.last().slot) =~= (slots_of(a, m)
                + slots_of(b.drop_last(), m)).push(b.last().slot));
        }
    }
}

proof fn lemma_slots_of_host(id: usize, ls: Seq<Option<Listener>>, n: int, m: usize)
    ensures
        slots_of(host_notices(id, ls, n), m) == if id == m {
            host_slots(ls, n)
        } else {
            Seq::empty()
        },
    decreases n,
{
    if n > 0 {
        lemma_slots_of_host(id, ls, n - 1, m);
        let h = host_notices(id, ls, n - 1);
        if ls[n - 1] is Some && !(ls[n - 1]->0 is Input) {
            let x = Notice { node: id, slot: (n - 1) as usize, listener: ls[n - 1]->0 };
            assert(h.push(x).drop_last() =~= h);
        }
    }
}

proof fn lemma_slots_of_pass<F: Fn(&[Value]) -> Value>(
    g0: SignalGraph<F>,
    g1: SignalGraph<F>,
    id: int,
    n: int,
    m: int,
)
    requires
        0 <= id <= m <= usize::MAX,
        n <= usize::MAX + 1,
    ensures
        slots_of(pass_notices(g0, g1, id, n), m as usize) == if m < n && changed_in(g0, g1, id, m) {
            host_slots(g0.listeners(m), g0.listeners(m).len() as int)
        } else {
            Seq::empty()
        },
    decreases n - id,
{
    if n > id {
        lemma_slots_of_pass(g0, g1, id, n - 1, m);
        if changed_in(g0, g1, id, n - 1) {
            let x = host_notices((n - 1) as usize, g0.listeners(n - 1), g0.listeners(n - 1).len() as int);
            lemma_slots_of_concat(pass_notices(g0, g1, id, n - 1), x, m as usize);
            lemma_slots_of_host((n - 1) as usize, g0.listeners(n - 1), g0.listeners(n - 1).len() as int, m as usize);
            if n - 1 == m {
                assert(Seq::<usize>::empty() + host_slots(g0.listeners(m), g0.listeners(m).len() as int)
                    =~= host_slots(g0.listeners(m), g0.listeners(m).len() as int));
            } else {
                assert(slots_of(pass_notices(g0, g1, id, n - 1), m as usize) + Seq::<usize>::empty()
                    =~= slots_of(pass_notices(g0, g1, id, n - 1), m as usize));
            }
        }
    } else {
        assert(pass_notices(g0, g1, id, n) =~= Seq::<Notice>::empty());
    }
}

/// One write notifies the host listeners of any node at most once each:
/// exactly when the node's value changed, in slot order. A derivation
/// reached by several paths (a diamond's sink) is brought up to date once,
/// from the final values of its inputs (see `derived_after`), so it is
/// never notified once per path nor with a mix of new and old inputs.
pub proof fn lemma_each_node_notified_once<F: Fn(&[Value]) -> Value>(
    g0: SignalGraph<F>,
    g1: SignalGraph<F>,
    id: int,
    v: Value,
    m: int,
)
    requires
        0 <= id <= m < g0.node_count(),
        g0.node_count() <= usize::MAX,
        set_post(g0, g1, id, v),
        !g0.held(id).same(v),
    ensures
        slots_of(g1.outbox(), m as usize) == slots_of(g0.outbox(), m as usize) + if changed_in(g0, g1, id, m) {
            host_slots(g0.listeners(m), g0.listeners(m).len() as int)
        } else {
            Seq::empty()
        },
{
    lemma_slots_of_concat(g0.outbox(), pass_notices(g0, g1, id, g0.node_count() as int), m as usize);
    lemma_slots_of_pass(g0, g1, id, g0.node_count() as int, m);
}

/// A derivation that nobody listens to keeps no cache, so every read of it
/// computes afresh; one that holds a cache is read from it.
pub proof fn lemma_cache_discipline<F: Fn(&[Value]) -> Value>(g: SignalGraph<F>, id: int, r: Value)
    requires
        g.wf(),
        0 <= id < g.node_count(),
        g.kind(id) is Derived,
        g.peeks_as(id, r),
    ensures
        !has_live(g.listeners(id)) ==> g.cache(id) is None && exists|s: &[Value]|
            s@ == g.snapshot(id) && call_ensures(g.compute(id), (s,), r),
        g.cache(id) is Some ==> r == g.cache(id)->0,
{
    g.lemma_node_wf(id);
}

impl<F: Fn(&[Value]) -> Value> SignalGraph<F> {
    proof fn lemma_node_wf(self, id: int)
        requires
            self.wf(),
            0 <= id < self.node_count(),
        ensures
            self.kind(id) is Derived && !has_live(self.listeners(id)) ==> self.cache(id) is None,
    {
        assert(self.node_wf(id));
    }

    /// Writes `v` into signal `id`. Nothing happens when `v` equals the held
    /// value. Otherwise the value is stored, the signal's host listeners
    /// are notified, and every later node is brought up to date once, in
    /// ascending order, before `set` returns: a derivation's inputs are
    /// older than itself, so each recomputes once, from final values.
    pub fn set(&mut self, id: usize, v: Value)
        requires
            old(self).wf(),
            id < old(self).node_count(),
            old(self).kind(id as int) is Signal,
        ensures
            set_post(*old(self), *final(self), id as int, v),
    {
        if self.nodes[id].value.is_same(&v) {
            return;
        }
        let ghost g0 = *self;
        let ghost vv = v;
        self.nodes[id].value = v;
        proof {
            assert forall|i: int| 0 <= i < self.nodes@.len() implies #[trigger] self.node_wf(i) by {
                assert(g0.node_wf(i));
            }
        }
        self.notify_hosts(id);
        let n = self.nodes.len();
        let mut flags: Vec<bool> = vec![false; n];
        flags.set(id, true);
        proof {
            let h = host_notices(id, g0.listeners(id as int), g0.listeners(id as int).len() as int);
            assert(pass_notices(g0, *self, id as int, id as int) =~= Seq::<Notice>::empty());
            assert(pass_notices(g0, *self, id as int, id + 1) =~= h);
        }
        let mut d: usize = id + 1;
        while d < n
            invariant
                g0.wf(),
                id < d <= n,
                n == g0.node_count(),
                g0.kind(id as int) is Signal,
                self.wf(),
                self.same_shape(&g0),
                self.nodes@[id as int].value == vv,
                forall|i: int| 0 <= i < n && i != id ==> #[trigger] self.nodes@[i].value == g0.nodes@[i].value,
                flags@.len() == n,
                forall|i: int| 0 <= i < n ==> #[trigger] flags@[i] == (i < d && changed_in(g0, *self, id as int, i)),
                forall|i: int| d <= i < n ==> #[trigger] self.nodes@[i] == g0.nodes@[i],
                forall|i: int|
                    0 <= i <= id ==> #[trigger] self.cache(i) == g0.cache(i) && self.snapshot(i) == g0.snapshot(i),
                forall|dd: int|
                    id < dd < d && g0.kind(dd) is Derived ==> #[trigger] derived_after(g0, *self, id as int, vv, dd),
                self.outbox() == g0.outbox() + pass_notices(g0, *self, id as int, d as int),
            decreases n - d,
        {
            let ghost before = *self;
            proof {
                assert(self.nodes@[d as int] == g0.nodes@[d as int]);
            }
            let is_derived = match self.nodes[d].kind {
                NodeKind::Derived => true,
                _ => false,
            };
            if is_derived {
                proof {
                    assert forall|i: int|
                        0 <= i < flags@.len() && #[trigger] flags@[i] implies i == id || (i != d && self.cache(i) is Some) by {
                        if i != id {
                            assert(g0.node_wf(i));
                            lemma_changed_has_cache(g0, *self, id as int, vv, i);
                        }
                    }
                }
                let ghost fl = flags@;
                let r = self.settle(d, id, &flags);
                flags.set(d, r);
                proof {
                    let after = *self;
                    let di = d as int;
                    assert(g0.node_wf(di));
                    assert(before.nodes@[di] == g0.nodes@[di]);
                    // caches below d are untouched
                    assert forall|i: int| 0 <= i < n && i != di implies #[trigger] after.nodes@[i] == before.nodes@[i] by {}
                    assert forall|i: int| 0 <= i < di implies #[trigger] before.cache(i) == after.cache(i) by {
                        assert(after.nodes@[i] == before.nodes@[i]);
                    }
                    // flags
                    assert forall|i: int| 0 <= i < n implies #[trigger] flags@[i] == (i < d + 1 && changed_in(
                        g0,
                        after,
                        id as int,
                        i,
                    )) by {
                        if i != di {
                            assert(after.nodes@[i] == before.nodes@[i]);
                            assert(changed_in(g0, after, id as int, i) == changed_in(g0, before, id as int, i));
                        }
                    }
                    // derived_after for d itself
                    assert forall|k: int| 0 <= k < g0.inputs(di).len() implies #[trigger] fl[g0.inputs(di)[k] as int]
                        == changed_in(g0, after, id as int, g0.inputs(di)[k] as int) && live_value(
                        before,
                        id as int,
                        g0.inputs(di)[k] as int,
                    ) == value_after(after, id as int, g0.inputs(di)[k] as int, vv) by {
                        let src = g0.inputs(di)[k] as int;
                        assert(src < di);
                        assert(after.nodes@[src] == before.nodes@[src]);
                        assert(changed_in(g0, after, id as int, src) == changed_in(g0, before, id as int, src));
                    }
                    assert(before.inputs(di) == g0.inputs(di));
                    if flagged(fl, g0.inputs(di)) {
                        let k = choose|k: int| 0 <= k < g0.inputs(di).len() && #[trigger] fl[g0.inputs(di)[k] as int];
                        assert(changed_in(g0, after, id as int, g0.inputs(di)[k] as int));
                    }
                    if fed(g0, after, id as int, di) {
                        let k = choose|k: int|
                            0 <= k < g0.inputs(di).len() && #[trigger] changed_in(g0, after, id as int, g0.inputs(di)[k] as int);
                        assert(fl[g0.inputs(di)[k] as int]);
                    }
                    assert(before.compute(di) == g0.compute(di));
                    assert(before.cache(di) == g0.cache(di));
                    assert(before.listeners(di) == g0.listeners(di));
                    assert(before.snapshot(di) == g0.snapshot(di));
                    assert(after.snapshot(di).len() == g0.snapshot(di).len());
                    assert(forall|k: int|
                        0 <= k < g0.inputs(di).len() ==> #[trigger] after.snapshot(di)[k] == if changed_in(
                            g0,
                            after,
                            id as int,
                            g0.inputs(di)[k] as int,
                        ) {
                            value_after(after, id as int, g0.inputs(di)[k] as int, vv)
                        } else {
                            g0.snapshot(di)[k]
                        });
                    assert(fed(g0, after, id as int, di) == flagged(fl, g0.inputs(di)));
                    assert(derived_after(g0, after, id as int, vv, di));
                    // earlier derivations
                    assert forall|dd: int| id < dd < d + 1 && g0.kind(dd) is Derived implies #[trigger] derived_after(
                        g0,
                        after,
                        id as int,
                        vv,
                        dd,
                    ) by {
                        if dd < di {
                            assert(g0.node_wf(dd));
                            assert(after.nodes@[dd] == before.nodes@[dd]);
                            lemma_derived_after_stable(g0, before, after, id as int, vv, dd);
                        }
                    }
                    // notices
                    lemma_pass_stable(g0, before, after, id as int, di);
                    assert(after.cache(di) != g0.cache(di) == r);
                    if r {
                        assert(after.outbox() =~= g0.outbox() + pass_notices(g0, after, id as int, d + 1));
                    } else {
                        assert(after.outbox() =~= g0.outbox() + pass_notices(g0, after, id as int, d + 1));
                    }
                    assert forall|i: int| 0 <= i <= id implies #[trigger] after.cache(i) == g0.cache(i)
                        && after.snapshot(i) == g0.snapshot(i) by {
                        assert(after.nodes@[i] == before.nodes@[i]);
                        assert(before.cache(i) == g0.cache(i) && before.snapshot(i) == g0.snapshot(i));
                    }
                    assert forall|i: int| 0 <= i < n && i != id implies #[trigger] after.nodes@[i].value
                        == g0.nodes@[i].value by {
                        if i != di {
                            assert(after.nodes@[i] == before.nodes@[i]);
                        }
                    }
                }
            } else {
                proof {
                    assert(pass_notices(g0, *self, id as int, d + 1) == pass_notices(g0, *self, id as int, d as int));
                }
            }
            d += 1;
        }
        proof {
            assert forall|i: int| 0 <= i < g0.node_count() implies #[trigger] self.inputs(i) == g0.inputs(i) by {}
        }
    }

    /// Adds `l` to the listeners of node `id`, in its first empty slot or in
    /// a new slot at the end; returns the slot.
    fn add_listener(&mut self, id: usize, l: Listener) -> (slot: usize)
        requires
            old(self).wf(),
            id < old(self).node_count(),
            old(self).listeners(id as int).len() < usize::MAX,
            l matches Listener::Input(d, k) ==> {
                &&& id < d < old(self).node_count()
                &&& old(self).kind(d as int) is Derived
                &&& k < old(self).snapshot(d as int).len()
            },
        ensures
            final(self).wf(),
            slot == first_free_from(old(self).listeners(id as int), 0),
            final(self).listeners(id as int) == with_listener(old(self).listeners(id as int), l),
            final(self).only_listeners_differ(old(self), id as int),
    {
        let ghost g0 = *self;
        proof {
            lemma_first_free_bounds(g0.listeners(id as int), 0);
        }
        let n = self.nodes[id].listeners.len();
        let mut s: usize = 0;
        while s < n && self.nodes[id].listeners[s].is_some()
            invariant
                n == g0.listeners(id as int).len(),
                id < g0.node_count(),
                *self == g0,
                s <= n,
                first_free_from(g0.listeners(id as int), 0) == first_free_from(
                    g0.listeners(id as int),
                    s as int,
                ),
            decreases n - s,
        {
            s += 1;
        }
        if s < n {
            self.nodes[id].listeners.set(s, Some(l));
        } else {
            self.nodes[id].listeners.push(Some(l));
        }
        proof {
            assert(s == first_free_from(g0.listeners(id as int), 0));
            assert(self.listeners(id as int) == with_listener(g0.listeners(id as int), l));
            assert forall|i: int| 0 <= i < self.nodes@.len() implies #[trigger] self.node_wf(i) by {
                assert(g0.node_wf(i));
                if i == id {
                    assert forall|t: int| 0 <= t < self.nodes@[i].listeners@.len() implies (
                    #[trigger] self.nodes@[i].listeners@[t] matches Some(Listener::Input(d, k)) ==> {
                        &&& i < d < self.nodes@.len()
                        &&& self.nodes@[d as int].kind is Derived
                        &&& k < self.nodes@[d as int].snapshot@.len()
                    }) by {
                        if t != s {
                            assert(self.nodes@[i].listeners@[t] == g0.nodes@[i].listeners@[t]);
                        }
                    }
                    if self.nodes@[i].kind is Derived {
                        assert(self.nodes@[i].listeners@[s as int] is Some);
                    }
                }
            }
        }
        s
    }

    /// Only the listeners of node `id` may differ between `self` and `other`.
    pub closed spec fn only_listeners_differ(&self, other: &Self, id: int) -> bool {
        &&& self.nodes@.len() == other.nodes@.len()
        &&& self.outbox@ == other.outbox@
        &&& forall|i: int|
            0 <= i < self.nodes@.len() && i != id ==> #[trigger] self.nodes@[i] == other.nodes@[i]
        &&& self.nodes@[id].kind == other.nodes@[id].kind
        &&& self.nodes@[id].value == other.nodes@[id].value
        &&& self.nodes@[id].inputs@ == other.nodes@[id].inputs@
        &&& self.nodes@[id].snapshot@ == other.nodes@[id].snapshot@
        &&& self.nodes@[id].cache == other.nodes@[id].cache
        &&& self.nodes@[id].compute == other.nodes@[id].compute
    }
}

impl<F: Fn(&[Value]) -> Value> SignalGraph<F> {
    /// `self` is `other` with nodes appended; the outbox is unchanged.
    pub closed spec fn extends(&self, other: &Self) -> bool {
        &&& other.nodes@.len() <= self.nodes@.len()
        &&& self.outbox@ == other.outbox@
        &&& forall|i: int| 0 <= i < other.nodes@.len() ==> #[trigger] self.nodes@[i] == other.nodes@[i]
    }

    fn push_node(&mut self, node: Node<F>) -> (id: usize)
        requires
            old(self).wf(),
            old(self).node_count() < usize::MAX,
            node.listeners@.len() == 0,
            node.cache is None,
            node.kind is Derived ==> {
                &&& node.compute is Some
                &&& forall|s: &[Value]| call_requires(node.compute->0, (s,))
                &&& node.inputs@.len() == node.snapshot@.len()
                &&& forall|k: int| 0 <= k < node.inputs@.len() ==> node.inputs@[k] < old(self).node_count()
            },
        ensures
            final(self).wf(),
            id == old(self).node_count(),
            final(self).node_count() == old(self).node_count() + 1,
            final(self).extends(old(self)),
            final(self).nodes@[id as int] == node,
    {
        let ghost g0 = *self;
        let id = self.nodes.len();
        self.nodes.push(node);
        proof {
            assert forall|i: int| 0 <= i < self.nodes@.len() implies #[trigger] self.node_wf(i) by {
                if i < id {
                    assert(g0.node_wf(i));
                    assert(self.nodes@[i] == g0.nodes@[i]);
                }
            }
        }
        id
    }

    /// A new signal holding `v`.
    pub fn signal(&mut self, v: Value) -> (id: usize)
        requires
            old(self).wf(),
            old(self).node_count() < usize::MAX,
        ensures
            final(self).wf(),
            id == old(self).node_count(),
            final(self).node_count() == old(self).node_count() + 1,
            final(self).extends(old(self)),
            final(self).kind(id as int) is Signal,
            final(self).held(id as int) == v,
            final(self).listeners(id as int).len() == 0,
    {
        self.push_node(
            Node {
                kind: NodeKind::Signal,
                value: v,
                inputs: Vec::new(),
                snapshot: Vec::new(),
                cache: None,
                compute: None,
                listeners: Vec::new(),
            },
        )
    }

    /// A new constant holding `v`: it never changes, so its listeners never
    /// fire.
    pub fn constant(&mut self, v: Value) -> (id: usize)
        requires
            old(self).wf(),
            old(self).node_count() < usize::MAX,
        ensures
            final(self).wf(),
            id == old(self).node_count(),
            final(self).node_count() == old(self).node_count() + 1,
            final(self).extends(old(self)),
            final(self).kind(id as int) is Constant,
            final(self).held(id as int) == v,
            final(self).listeners(id as int).len() == 0,
    {
        self.push_node(
            Node {
                kind: NodeKind::Constant,
                value: v,
                inputs: Vec::new(),
                snapshot: Vec::new(),
                cache: None,
                compute: None,
                listeners: Vec::new(),
            },
        )
    }

    /// A new derivation of node `dep` through `f`. It records the current
    /// value of `dep` without computing anything, and subscribes to `dep` so
    /// that every change reaches it.
    pub fn derived(&mut self, dep: usize, f: F) -> (id: usize)
        requires
            old(self).wf(),
            dep < old(self).node_count(),
            old(self).node_count() < usize::MAX,
            old(self).listeners(dep as int).len() < usize::MAX,
            forall|s: &[Value]| call_requires(f, (s,)),
        ensures
            final(self).wf(),
            id == old(self).node_count(),
            final(self).node_count() == old(self).node_count() + 1,
            final(self).kind(id as int) is Derived,
            final(self).inputs(id as int) == seq![dep],
            final(self).snapshot(id as int).len() == 1,
            old(self).peeks_as(dep as int, final(self).snapshot(id as int)[0]),
            final(self).cache(id as int) is None,
            final(self).compute(id as int) == f,
            final(self).listeners(id as int).len() == 0,
            final(self).listeners(dep as int) == with_listener(
                old(self).listeners(dep as int),
                Listener::Input(id, 0),
            ),
            forall|i: int|
                0 <= i < old(self).node_count() && i != dep ==> #[trigger] final(self).listeners(i)
                    == old(self).listeners(i),
            final(self).outbox() == old(self).outbox(),
    {
        let first = self.peek(dep);
        let mut inputs: Vec<usize> = Vec::new();
        inputs.push(dep);
        let mut snapshot: Vec<Value> = Vec::new();
        snapshot.push(first);
        let ghost g0 = *self;
        let id = self.push_node(
            Node {
                kind: NodeKind::Derived,
                value: Value::Int(0),
                inputs,
                snapshot,
                cache: None,
                compute: Some(f),
                listeners: Vec::new(),
            },
        );
        let ghost g1 = *self;
        proof {
            assert(g1.nodes@[dep as int] == g0.nodes@[dep as int]);
        }
        self.add_listener(dep, Listener::Input(id, 0));
        proof {
            assert(self.nodes@[id as int] == g1.nodes@[id as int]);
            assert(self.inputs(id as int) =~= seq![dep]);
            assert forall|i: int| 0 <= i < g0.node_count() && i != dep implies #[trigger] self.listeners(i)
                == g0.listeners(i) by {
                assert(self.nodes@[i] == g1.nodes@[i]);
                assert(g1.nodes@[i] == g0.nodes@[i]);
            }
        }
        id
    }

    /// A new derivation of nodes `a` and `b` through `f`, which receives
    /// their values in that order; a change of either recomputes it.
    pub fn derived2(&mut self, a: usize, b: usize, f: F) -> (id: usize)
        requires
            old(self).wf(),
            a < old(self).node_count(),
            b < old(self).node_count(),
            old(self).node_count() < usize::MAX,
            old(self).listeners(a as int).len() + 2 < usize::MAX,
            old(self).listeners(b as int).len() + 2 < usize::MAX,
            forall|s: &[Value]| call_requires(f, (s,)),
        ensures
            final(self).wf(),
            id == old(self).node_count(),
            final(self).node_count() == old(self).node_count() + 1,
            final(self).kind(id as int) is Derived,
            final(self).inputs(id as int) == seq![a, b],
            final(self).snapshot(id as int).len() == 2,
            old(self).peeks_as(a as int, final(self).snapshot(id as int)[0]),
            old(self).peeks_as(b as int, final(self).snapshot(id as int)[1]),
            final(self).cache(id as int) is None,
            final(self).compute(id as int) == f,
            final(self).listeners(id as int).len() == 0,
            a != b ==> final(self).listeners(a as int) == with_listener(
                old(self).listeners(a as int),
                Listener::Input(id, 0),
            ),
            a != b ==> final(self).listeners(b as int) == with_listener(
                old(self).listeners(b as int),
                Listener::Input(id, 1),
            ),
            a == b ==> final(self).listeners(a as int) == with_listener(
                with_listener(old(self).listeners(a as int), Listener::Input(id, 0)),
                Listener::Input(id, 1),
            ),
            forall|i: int|
                0 <= i < old(self).node_count() && i != a && i != b ==> (
                #[trigger] final(self).listeners(i)) == old(self).listeners(i),
            final(self).outbox() == old(self).outbox(),
    {
        let first = self.peek(a);
        let second = self.peek(b);
        let mut inputs: Vec<usize> = Vec::new();
        inputs.push(a);
        inputs.push(b);
        let mut snapshot: Vec<Value> = Vec::new();
        snapshot.push(first);
        snapshot.push(second);
        let ghost g0 = *self;
        let id = self.push_node(
            Node {
                kind: NodeKind::Derived,
                value: Value::Int(0),
                inputs,
                snapshot,
                cache: None,
                compute: Some(f),
                listeners: Vec::new(),
            },
        );
        let ghost g1 = *self;
        proof {
            assert(g1.nodes@[a as int] == g0.nodes@[a as int]);
            assert(g1.nodes@[b as int] == g0.nodes@[b as int]);
            lemma_first_free_bounds(g0.listeners(a as int), 0);
        }
        self.add_listener(a, Listener::Input(id, 0));
        let ghost g2 = *self;
        proof {
            lemma_first_free_bounds(g2.listeners(b as int), 0);
        }
        self.add_listener(b, Listener::Input(id, 1));
        proof {
            assert(self.nodes@[id as int] == g1.nodes@[id as int]);
            assert(self.inputs(id as int) =~= seq![a, b]);
            if a != b {
                assert(g2.listeners(b as int) == g0.listeners(b as int));
                assert(self.listeners(a as int) == g2.listeners(a as int));
            }
            assert forall|i: int|
                0 <= i < g0.node_count() && i != a && i != b implies #[trigger] self.listeners(i)
                == g0.listeners(i) by {
                assert(self.nodes@[i] == g2.nodes@[i]);
                assert(g2.nodes@[i] == g1.nodes@[i]);
                assert(g1.nodes@[i] == g0.nodes@[i]);
            }
        }
        id
    }

    /// Subscribes a host listener (a watcher or a redraw request) to node
    /// `id`; returns its slot, the first empty one or a new one at the end.
    pub fn subscribe(&mut self, id: usize, l: Listener) -> (slot: usize)
        requires
            old(self).wf(),
            id < old(self).node_count(),
            old(self).listeners(id as int).len() < usize::MAX,
            !(l is Input),
        ensures
            final(self).wf(),
            slot == first_free_from(old(self).listeners(id as int), 0),
            final(self).listeners(id as int) == with_listener(old(self).listeners(id as int), l),
            final(self).only_listeners_differ(old(self), id as int),
            final(self).node_count() == old(self).node_count(),
            final(self).outbox() == old(self).outbox(),
            forall|i: int|
                0 <= i < old(self).node_count() && i != id ==> #[trigger] final(self).listeners(i)
                    == old(self).listeners(i),
            forall|i: int| 0 <= i < old(self).node_count() ==> #[trigger] final(self).held(i)
                == old(self).held(i),
            forall|i: int| 0 <= i < old(self).node_count() ==> #[trigger] final(self).kind(i)
                == old(self).kind(i),
    {
        let ghost g0 = *self;
        let slot = self.add_listener(id, l);
        proof {
            assert forall|i: int|
                0 <= i < g0.node_count() && i != id implies #[trigger] self.listeners(i)
                    == g0.listeners(i) by {
                assert(self.nodes@[i] == g0.nodes@[i]);
            }
            assert forall|i: int| 0 <= i < g0.node_count() implies #[trigger] self.held(i)
                == g0.held(i) by {
                if i != id {
                    assert(self.nodes@[i] == g0.nodes@[i]);
                }
            }
            assert forall|i: int| 0 <= i < g0.node_count() implies #[trigger] self.kind(i)
                == g0.kind(i) by {
                if i != id {
                    assert(self.nodes@[i] == g0.nodes@[i]);
                }
            }
        }
        slot
    }

    /// Clears slot `slot` of node `id`; the slot may be reused by a later
    /// subscription. A derivation left without listeners drops its cache.
    pub fn unsubscribe(&mut self, id: usize, slot: usize)
        requires
            old(self).wf(),
            id < old(self).node_count(),
            slot < old(self).listeners(id as int).len(),
            old(self).listeners(id as int)[slot as int] matches Some(l) && !(l is Input),
        ensures
            final(self).wf(),
            final(self).listeners(id as int) == old(self).listeners(id as int).update(slot as int, None),
            old(self).unobserved_after(id as int, slot as int) ==> final(self).cache(id as int) is None,
            !old(self).unobserved_after(id as int, slot as int) ==> final(self).cache(id as int)
                == old(self).cache(id as int),
            final(self).kind(id as int) == old(self).kind(id as int),
            final(self).held(id as int) == old(self).held(id as int),
            final(self).snapshot(id as int) == old(self).snapshot(id as int),
            final(self).node_count() == old(self).node_count(),
            final(self).outbox() == old(self).outbox(),
    {
        let ghost g0 = *self;
        self.nodes[id].listeners.set(slot, None);
        let live = self.has_live_listener(id);
        if !live && matches!(self.nodes[id].kind, NodeKind::Derived) {
            self.nodes[id].cache = None;
        }
        proof {
            assert forall|i: int| 0 <= i < self.nodes@.len() implies #[trigger] self.node_wf(i) by {
                assert(g0.node_wf(i));
                if i == id {
                    assert forall|t: int| 0 <= t < self.nodes@[i].listeners@.len() implies (
                    #[trigger] self.nodes@[i].listeners@[t] matches Some(Listener::Input(d, k)) ==> {
                        &&& i < d < self.nodes@.len()
                        &&& self.nodes@[d as int].kind is Derived
                        &&& k < self.nodes@[d as int].snapshot@.len()
                    }) by {
                        if t != slot {
                            assert(self.nodes@[i].listeners@[t] == g0.nodes@[i].listeners@[t]);
                        }
                    }
                }
            }
        }
    }

    /// The node is a derivation that slot `slot` is its last listener.
    pub open spec fn unobserved_after(&self, id: int, slot: int) -> bool {
        self.kind(id) is Derived && !has_live(self.listeners(id).update(slot, None))
    }

    /// Hands out the recorded notices, oldest first, and empties the outbox.
    pub fn drain_outbox(&mut self) -> (r: Vec<Notice>)
        ensures
            r@ == old(self).outbox(),
            final(self).outbox().len() == 0,
            final(self).wf() == old(self).wf(),
            forall|i: int| 0 <= i < old(self).node_count() ==> #[trigger] final(self).listeners(i)
                == old(self).listeners(i),
            forall|i: int| 0 <= i < old(self).node_count() ==> #[trigger] final(self).held(i)
                == old(self).held(i),
            forall|i: int| 0 <= i < old(self).node_count() ==> #[trigger] final(self).kind(i)
                == old(self).kind(i),
            final(self).node_count() == old(self).node_count(),
    {
        let ghost g0 = *self;
        let mut r: Vec<Notice> = Vec::new();
        std::mem::swap(&mut r, &mut self.outbox);
        proof {
            assert(self.nodes@ == g0.nodes@);
            if g0.wf() {
                assert forall|i: int| 0 <= i < self.nodes@.len() implies #[trigger] self.node_wf(i) by {
                    assert(g0.node_wf(i));
                }
            }
            if self.wf() {
                assert forall|i: int| 0 <= i < g0.nodes@.len() implies #[trigger] g0.node_wf(i) by {
                    assert(self.node_wf(i));
                }
            }
        }
        r
    }
}

} // verus!
