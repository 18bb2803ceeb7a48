//! A slot-reusing id store: ids are slot indices, deleted slots become holes
//! that later insertions fill, highest hole first.
use vstd::prelude::*;

verus! {

/// Index of the highest empty slot among the first `n`, or -1 when none of
/// them is empty.
pub open spec fn last_hole<V>(slots: Seq<Option<V>>, n: int) -> int
    decreases n,
{
    if n <= 0 {
        -1
    } else if slots[n - 1] is None {
        n - 1
    } else {
        last_hole(slots, n - 1)
    }
}

/// The id that `add` hands out for a store holding `slots`.
pub open spec fn next_id<V>(slots: Seq<Option<V>>) -> int {
    let h = last_hole(slots, slots.len() as int);
    if h >= 0 {
        h
    } else {
        slots.len() as int
    }
}

pub struct ArbitraryIdStore<V> {
    data: Vec<Option<V>>,
}

impl<V> View for ArbitraryIdStore<V> {
    type V = Seq<Option<V>>;

    closed spec fn view(&self) -> Seq<Option<V>> {
        self.data@
    }
}

impl<V> ArbitraryIdStore<V> {
    pub fn new() -> (r: Self)
        ensures
            r@ == Seq::<Option<V>>::empty(),
    {
        ArbitraryIdStore { data: Vec::new() }
    }

    /// Number of slots, live or empty.
    pub fn slot_count(&self) -> (r: usize)
        ensures
            r == self@.len(),
    {
        self.data.len()
    }

    /// Stores `value` in the highest empty slot, or in a new slot at the end
    /// when none is empty, and returns that slot's id.
    pub fn add(&mut self, value: V) -> (id: usize)
        requires
            old(self)@.len() < usize::MAX,
        ensures
            id == next_id(old(self)@),
            id < old(self)@.len() ==> final(self)@ == old(self)@.update(id as int, Some(value)),
            id == old(self)@.len() ==> final(self)@ == old(self)@.push(Some(value)),
    {
        let mut i: usize = self.data.len();
        while i > 0
            invariant
                i <= self.data@.len(),
                self.data@ == old(self)@,
                last_hole(self.data@, self.data@.len() as int) == last_hole(self.data@, i as int),
            decreases i,
        {
            if self.data[i - 1].is_none() {
                self.data.set(i - 1, Some(value));
                return i - 1;
            }
            i -= 1;
        }
        self.data.push(Some(value));
        self.data.len() - 1
    }

    /// Empties slot `id`; no other id moves.
    pub fn delete(&mut self, id: usize)
        requires
            id < old(self)@.len(),
        ensures
            final(self)@ == old(self)@.update(id as int, None),
    {
        self.data.set(id, None);
    }

    /// The value stored under `id`; `None` for an empty or unknown slot.
    pub fn get(&self, id: usize) -> (r: Option<&V>)
        ensures
            id < self@.len() && self@[id as int] is Some ==> (r matches Some(v) && *v
                == self@[id as int]->0),
            !(id < self@.len() && self@[id as int] is Some) ==> r is None,
    {
        if id < self.data.len() {
            self.data[id].as_ref()
        } else {
            None
        }
    }

    /// Mutable access to the value stored under `id`; `None` for an empty or
    /// unknown slot.
    pub fn get_mut(&mut self, id: usize) -> (r: Option<&mut V>)
        ensures
            id < old(self)@.len() && old(self)@[id as int] is Some ==> (r matches Some(m) && *m
                == old(self)@[id as int]->0 && final(self)@ == old(self)@.update(
                id as int,
                Some(*final(m)),
            )),
            !(id < old(self)@.len() && old(self)@[id as int] is Some) ==> r is None && final(self)@
                == old(self)@,
    {
        if id < self.data.len() {
            self.data[id].as_mut()
        } else {
            None
        }
    }
}

/// Filling a hole never grows the store: when slot `id` has just been
/// deleted, the next `add` reuses an id at least `id` and below the number
/// of slots, so no id beyond the previous maximum is handed out.
pub proof fn lemma_delete_then_add_reuses<V>(slots: Seq<Option<V>>, id: int)
    requires
        0 <= id < slots.len(),
    ensures
        id <= next_id(slots.update(id, None)) < slots.len(),
{
    let d = slots.update(id, None);
    lemma_last_hole_at_least(d, d.len() as int, id);
    lemma_last_hole_bounds(d, d.len() as int);
}

/// Without holes, `add` appends: the id it hands out is the number of
/// slots, above every id in use.
pub proof fn lemma_add_without_holes_appends<V>(slots: Seq<Option<V>>)
    requires
        forall|i: int| 0 <= i < slots.len() ==> (#[trigger] slots[i]) is Some,
    ensures
        next_id(slots) == slots.len(),
{
    lemma_no_hole(slots, slots.len() as int);
}

proof fn lemma_last_hole_bounds<V>(slots: Seq<Option<V>>, n: int)
    requires
        0 <= n <= slots.len(),
    ensures
        -1 <= last_hole(slots, n) < n,
        last_hole(slots, n) >= 0 ==> slots[last_hole(slots, n)] is None,
    decreases n,
{
    if n > 0 && slots[n - 1] is Some {
        lemma_last_hole_bounds(slots, n - 1);
    }
}

proof fn lemma_last_hole_at_least<V>(slots: Seq<Option<V>>, n: int, id: int)
    requires
        0 <= id < n <= slots.len(),
        slots[id] is None,
    ensures
        id <= last_hole(slots, n),
    decreases n,
{
    if n - 1 != id && slots[n - 1] is Some {
        lemma_last_hole_at_least(slots, n - 1, id);
    }
}

proof fn lemma_no_hole<V>(slots: Seq<Option<V>>, n: int)
    requires
        0 <= n <= slots.len(),
        forall|i: int| 0 <= i < slots.len() ==> (#[trigger] slots[i]) is Some,
    ensures
        last_hole(slots, n) == -1,
    decreases n,
{
    if n > 0 {
        assert(slots[n - 1] is Some);
        lemma_no_hole(slots, n - 1);
    }
}

} // verus!
