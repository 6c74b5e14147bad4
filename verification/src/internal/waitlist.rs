//! A guarded, doubly linked list of waiters whose cells live in a slab.
//!
//! The guard cell's `next` points to the first waiter (the head) and its `prev` to the
//! last one (the tail). A waiter that has been unlinked keeps its cell, linked to
//! itself, until its owner frees it.

use slab::Slab;
use vstd::prelude::*;

verus! {

#[verifier::external_type_specification]
#[verifier::external_body]
#[verifier::reject_recursive_types(T)]
pub struct ExSlab<T>(Slab<T>);

/// One cell of the wait list.
#[derive(Clone, Copy)]
pub struct Node {
    pub prev: usize,
    pub next: usize,
    /// `None` for the guard cell; the permits that the waiter still needs otherwise.
    pub stat: Option<usize>,
}

/// The cells that a slab holds, by key.
pub uninterp spec fn slab_entries(slab: Slab<Node>) -> Map<usize, Node>;

/// Calls `Slab::new`, which returns a slab that holds no cell.
#[verifier::external_body]
fn slab_new() -> (fresh: Slab<Node>)
    ensures
        slab_entries(fresh).dom().is_empty(),
{
    Slab::new()
}

/// Calls `Slab::insert`, which stores `node` under a key that held nothing and returns
/// that key. That the allocation can fail is not stated.
#[verifier::external_body]
fn slab_insert(slab: &mut Slab<Node>, node: Node) -> (key: usize)
    ensures
        !slab_entries(*old(slab)).dom().contains(key),
        slab_entries(*final(slab)) == slab_entries(*old(slab)).insert(key, node),
{
    slab.insert(node)
}

/// Calls `Index::index` of `Slab`, which returns the cell stored under `key` and panics
/// when there is none.
#[verifier::external_body]
fn slab_get(slab: &Slab<Node>, key: usize) -> (node: Node)
    requires
        slab_entries(*slab).dom().contains(key),
    ensures
        node == slab_entries(*slab)[key],
{
    slab[key]
}

/// Calls `IndexMut::index_mut` of `Slab` to overwrite the cell stored under `key`; it
/// panics when there is none.
#[verifier::external_body]
fn slab_set(slab: &mut Slab<Node>, key: usize, node: Node)
    requires
        slab_entries(*old(slab)).dom().contains(key),
    ensures
        slab_entries(*final(slab)) == slab_entries(*old(slab)).insert(key, node),
{
    slab[key] = node;
}

/// Calls `Slab::remove`, which takes the cell stored under `key` out of the slab and
/// panics when there is none.
#[verifier::external_body]
fn slab_remove(slab: &mut Slab<Node>, key: usize) -> (node: Node)
    requires
        slab_entries(*old(slab)).dom().contains(key),
    ensures
        node == slab_entries(*old(slab))[key],
        slab_entries(*final(slab)) == slab_entries(*old(slab)).remove(key),
{
    slab.remove(key)
}

/// The cell that follows position `i` of `order` (position `-1` is the guard).
pub open spec fn next_of(order: Seq<usize>, guard: usize, i: int) -> usize {
    if i + 1 < order.len() {
        order[i + 1]
    } else {
        guard
    }
}

/// The cell that precedes position `i` of `order` (position `order.len()` is the guard).
pub open spec fn prev_of(order: Seq<usize>, guard: usize, i: int) -> usize {
    if i >= 1 {
        order[i - 1]
    } else {
        guard
    }
}

/// The waiter at position `i` of `order` is a waiter cell linked to its neighbours.
pub open spec fn linked_at(e: Map<usize, Node>, order: Seq<usize>, guard: usize, i: int) -> bool {
    &&& e.dom().contains(order[i])
    &&& order[i] != guard
    &&& e[order[i]].stat is Some
    &&& e[order[i]].next == next_of(order, guard, i)
    &&& e[order[i]].prev == prev_of(order, guard, i)
}

/// The cell under `k` is a waiter cell that is linked to itself only.
pub open spec fn detached(e: Map<usize, Node>, k: usize) -> bool {
    &&& e[k].stat is Some
    &&& e[k].prev == k
    &&& e[k].next == k
}

/// A list of waiters, in the order in which they are to be served.
pub struct WaitList {
    /// The key of the guard cell; `None` until the first waiter registers.
    guard: Option<usize>,
    nodes: Slab<Node>,
    /// The keys of the linked waiters, head first.
    order: Ghost<Seq<usize>>,
}

impl WaitList {
    spec fn entries(&self) -> Map<usize, Node> {
        slab_entries(self.nodes)
    }

    /// The keys of the waiters in the list, head first.
    pub closed spec fn queue(&self) -> Seq<usize> {
        self.order@
    }

    /// Every registered waiter (linked or not) with the permits it still needs.
    pub closed spec fn need(&self) -> Map<usize, usize> {
        Map::new(
            |k: usize| self.entries().dom().contains(k) && Some(k) != self.guard,
            |k: usize| self.entries()[k].stat->Some_0,
        )
    }

    /// The list is well formed: its cells are linked in the order of `queue()`.
    pub closed spec fn wf(&self) -> bool {
        let e = self.entries();
        let o = self.order@;
        &&& e.dom().finite()
        &&& match self.guard {
            None => e.dom() == Set::<usize>::empty() && o.len() == 0,
            Some(g) => {
                &&& e.dom().contains(g)
                &&& e[g].stat is None
                &&& e[g].next == next_of(o, g, -1)
                &&& e[g].prev == prev_of(o, g, o.len() as int)
                &&& forall|i: int| 0 <= i < o.len() ==> #[trigger] linked_at(e, o, g, i)
                &&& forall|i: int, j: int| 0 <= i < j < o.len() ==> o[i] != o[j]
                &&& forall|k: usize|
                    e.dom().contains(k) && k != g && !o.contains(k) ==> #[trigger] detached(e, k)
            },
        }
    }

    /// In a well-formed list the queue holds distinct registered waiters.
    pub proof fn lemma_queue_registered(&self)
        requires
            self.wf(),
        ensures
            forall|i: int| 0 <= i < self.queue().len() ==> self.need().dom().contains(#[trigger] self.queue()[i]),
            forall|i: int, j: int|
                0 <= i < j < self.queue().len() ==> self.queue()[i] != self.queue()[j],
            self.need().dom().finite(),
    {
        match self.guard {
            Some(g) => {
                assert(self.need().dom() =~= self.entries().dom().remove(g));
            },
            None => {
                assert(self.need().dom() =~= self.entries().dom());
            },
        }
        if let Some(g) = self.guard {
            assert forall|i: int| 0 <= i < self.queue().len() implies self.need().dom().contains(
                #[trigger] self.queue()[i],
            ) by {
                assert(linked_at(self.entries(), self.order@, g, i));
            }
        }
    }

    /// Creates an empty wait list.
    pub fn new() -> (list: Self)
        ensures
            list.wf(),
            list.queue() == Seq::<usize>::empty(),
            list.need() == Map::<usize, usize>::empty(),
    {
        let list = WaitList { guard: None, nodes: slab_new(), order: Ghost(Seq::empty()) };
        assert(list.need() =~= Map::<usize, usize>::empty());
        list
    }

    /// Ensures the wait list is initialized, returning the guard index.
    fn ensure_init(&mut self) -> (guard: usize)
        requires
            old(self).wf(),
        ensures
            final(self).wf(),
            final(self).guard == Some(guard),
            old(self).guard is Some ==> final(self).guard == old(self).guard,
            final(self).queue() == old(self).queue(),
            final(self).need() == old(self).need(),
    {
        if let Some(guard) = self.guard {
            return guard;
        }
        let guard = slab_insert(&mut self.nodes, Node { prev: 0, next: 0, stat: None });
        slab_set(&mut self.nodes, guard, Node { prev: guard, next: guard, stat: None });
        self.guard = Some(guard);
        assert(self.entries().dom() =~= set![guard]);
        assert(self.need() =~= old(self).need());
        guard
    }

    /// Registers a waiter that needs `permits` permits at the tail of the list and stores
    /// its key in `idx`.
    pub fn register_waiter_to_tail(&mut self, idx: &mut Option<usize>, permits: usize)
        requires
            old(self).wf(),
            *old(idx) is None,
        ensures
            final(self).wf(),
            (*final(idx)) is Some,
            !old(self).need().dom().contains((*final(idx))->Some_0),
            final(self).queue() == old(self).queue().push((*final(idx))->Some_0),
            final(self).need() == old(self).need().insert((*final(idx))->Some_0, permits),
    {
        let guard = self.ensure_init();
        let ghost o = self.order@;
        let ghost e0 = self.entries();
        let prev_tail = slab_get(&self.nodes, guard).prev;
        assert(e0.dom().contains(prev_tail)) by {
            if o.len() > 0 {
                assert(linked_at(e0, o, guard, o.len() - 1));
            }
        }
        let new_key = slab_insert(&mut self.nodes, Node { prev: prev_tail, next: guard, stat: Some(permits) });
        let mut g = slab_get(&self.nodes, guard);
        g.prev = new_key;
        slab_set(&mut self.nodes, guard, g);
        let mut t = slab_get(&self.nodes, prev_tail);
        t.next = new_key;
        slab_set(&mut self.nodes, prev_tail, t);
        *idx = Some(new_key);
        self.order = Ghost(o.push(new_key));
        proof {
            let e = self.entries();
            let o2 = o.push(new_key);
            assert(!o.contains(new_key)) by {
                if o.contains(new_key) {
                    let i = choose|i: int| 0 <= i < o.len() && o[i] == new_key;
                    assert(linked_at(e0, o, guard, i));
                }
            }
            assert forall|i: int| 0 <= i < o2.len() implies #[trigger] linked_at(e, o2, guard, i) by {
                if i < o.len() {
                    assert(linked_at(e0, o, guard, i));
                    assert(o2[i] == o[i]);
                }
            }
            assert forall|i: int, j: int| 0 <= i < j < o2.len() implies o2[i] != o2[j] by {
                if j == o.len() {
                    assert(linked_at(e0, o, guard, i));
                }
            }
            assert forall|k: usize| e.dom().contains(k) && k != guard && !o2.contains(k) implies #[trigger] detached(e, k) by {
                assert(k != new_key) by {
                    assert(o2[o.len() as int] == new_key);
                }
                if k == prev_tail {
                    if o.len() > 0 {
                        assert(o2[o.len() - 1] == prev_tail);
                    }
                }
                assert(!o.contains(k)) by {
                    if o.contains(k) {
                        let i = choose|i: int| 0 <= i < o.len() && o[i] == k;
                        assert(o2[i] == k);
                    }
                }
                assert(detached(e0, k));
            }
            assert(self.need() =~= old(self).need().insert(new_key, permits));
            if o.len() > 0 {
                assert(linked_at(e0, o, guard, 0));
                assert(linked_at(e0, o, guard, o.len() - 1));
            }
            assert(e[guard].next == next_of(o2, guard, -1));
            assert(e[guard].prev == prev_of(o2, guard, o2.len() as int));
        }
    }

    /// Registers a waiter that needs `permits` permits at the head of the list and stores
    /// its key in `idx`.
    pub fn register_waiter_to_head(&mut self, idx: &mut Option<usize>, permits: usize)
        requires
            old(self).wf(),
            *old(idx) is None,
        ensures
            final(self).wf(),
            (*final(idx)) is Some,
            !old(self).need().dom().contains((*final(idx))->Some_0),
            final(self).queue() == seq![(*final(idx))->Some_0] + old(self).queue(),
            final(self).need() == old(self).need().insert((*final(idx))->Some_0, permits),
    {
        let guard = self.ensure_init();
        let ghost o = self.order@;
        let ghost e0 = self.entries();
        let prev_head = slab_get(&self.nodes, guard).next;
        assert(e0.dom().contains(prev_head)) by {
            if o.len() > 0 {
                assert(linked_at(e0, o, guard, 0));
            }
        }
        let new_key = slab_insert(&mut self.nodes, Node { prev: guard, next: prev_head, stat: Some(permits) });
        let mut g = slab_get(&self.nodes, guard);
        g.next = new_key;
        slab_set(&mut self.nodes, guard, g);
        let mut h = slab_get(&self.nodes, prev_head);
        h.prev = new_key;
        slab_set(&mut self.nodes, prev_head, h);
        *idx = Some(new_key);
        self.order = Ghost(seq![new_key] + o);
        proof {
            let e = self.entries();
            let o2 = seq![new_key] + o;
            assert(!o.contains(new_key)) by {
                if o.contains(new_key) {
                    let i = choose|i: int| 0 <= i < o.len() && o[i] == new_key;
                    assert(linked_at(e0, o, guard, i));
                }
            }
            assert forall|i: int| 0 <= i < o2.len() implies #[trigger] linked_at(e, o2, guard, i) by {
                if i > 0 {
                    assert(linked_at(e0, o, guard, i - 1));
                    assert(o2[i] == o[i - 1]);
                }
            }
            assert forall|i: int, j: int| 0 <= i < j < o2.len() implies o2[i] != o2[j] by {
                if i == 0 {
                    assert(linked_at(e0, o, guard, j - 1));
                } else {
                    assert(o2[i] == o[i - 1]);
                    assert(o2[j] == o[j - 1]);
                }
            }
            assert forall|k: usize| e.dom().contains(k) && k != guard && !o2.contains(k) implies #[trigger] detached(e, k) by {
                assert(k != new_key) by {
                    assert(o2[0] == new_key);
                }
                if k == prev_head {
                    if o.len() > 0 {
                        assert(o2[1] == prev_head);
                    }
                }
                assert(!o.contains(k)) by {
                    if o.contains(k) {
                        let i = choose|i: int| 0 <= i < o.len() && o[i] == k;
                        assert(o2[i + 1] == k);
                    }
                }
                assert(detached(e0, k));
            }
            assert(self.need() =~= old(self).need().insert(new_key, permits));
            if o.len() > 0 {
                assert(linked_at(e0, o, guard, 0));
                assert(linked_at(e0, o, guard, o.len() - 1));
            }
            assert(e[guard].next == next_of(o2, guard, -1));
            assert(e[guard].prev == prev_of(o2, guard, o2.len() as int));
        }
    }

    /// Unlinks the waiter `idx` from the list (it stays registered, linked to itself) and
    /// returns the permits it still needs. A waiter that is already unlinked stays so.
    pub fn remove_waiter(&mut self, idx: usize) -> (permits: usize)
        requires
            old(self).wf(),
            old(self).need().dom().contains(idx),
        ensures
            final(self).wf(),
            permits == old(self).need()[idx],
            final(self).need() == old(self).need(),
            old(self).queue().contains(idx) ==> final(self).queue() == old(self).queue().remove(
                old(self).queue().index_of(idx),
            ),
            !old(self).queue().contains(idx) ==> final(self).queue() == old(self).queue(),
    {
        assert(self.guard is Some) by {
            if self.guard is None {
                assert(self.entries().dom().contains(idx));
            }
        }
        let guard = self.guard.unwrap();
        let ghost o = self.order@;
        let ghost e0 = self.entries();
        let node = slab_get(&self.nodes, idx);
        let prev = node.prev;
        let next = node.next;
        let ghost linked = o.contains(idx);
        let ghost i = o.index_of(idx);
        proof {
            if linked {
                assert(linked_at(e0, o, guard, i));
                if i >= 1 {
                    assert(linked_at(e0, o, guard, i - 1));
                }
                if i + 1 < o.len() {
                    assert(linked_at(e0, o, guard, i + 1));
                }
            } else {
                assert(detached(e0, idx));
            }
        }
        let mut p = slab_get(&self.nodes, prev);
        p.next = next;
        slab_set(&mut self.nodes, prev, p);
        let mut n = slab_get(&self.nodes, next);
        n.prev = prev;
        slab_set(&mut self.nodes, next, n);
        let mut c = slab_get(&self.nodes, idx);
        c.prev = idx;
        c.next = idx;
        slab_set(&mut self.nodes, idx, c);
        proof {
            let e = self.entries();
            if linked {
                let o2 = o.remove(i);
                assert forall|j: int| 0 <= j < o2.len() implies #[trigger] linked_at(e, o2, guard, j) by {
                    if j < i {
                        assert(o2[j] == o[j]);
                        assert(linked_at(e0, o, guard, j));
                        if j + 1 < i {
                            assert(o2[j + 1] == o[j + 1]);
                        }
                        if j >= 1 {
                            assert(o2[j - 1] == o[j - 1]);
                        }
                        if i + 1 < o.len() {
                            assert(o[j] != o[i + 1]);
                        }
                        assert(o[j] != o[i]);
                    } else {
                        assert(o2[j] == o[j + 1]);
                        assert(linked_at(e0, o, guard, j + 1));
                        if j + 1 < o2.len() {
                            assert(o2[j + 1] == o[j + 2]);
                        }
                        if j > i {
                            assert(o2[j - 1] == o[j]);
                        }
                        if i >= 1 {
                            assert(o[j + 1] != o[i - 1]);
                        }
                        assert(o[j + 1] != o[i]);
                    }
                }
                assert forall|a: int, b: int| 0 <= a < b < o2.len() implies o2[a] != o2[b] by {
                    if a < i {
                        assert(o2[a] == o[a]);
                    } else {
                        assert(o2[a] == o[a + 1]);
                    }
                    if b < i {
                        assert(o2[b] == o[b]);
                    } else {
                        assert(o2[b] == o[b + 1]);
                    }
                }
                assert forall|k: usize| e.dom().contains(k) && k != guard && !o2.contains(k) implies #[trigger] detached(e, k) by {
                    if k != idx {
                        assert(!o.contains(k)) by {
                            if o.contains(k) {
                                let m = choose|m: int| 0 <= m < o.len() && o[m] == k;
                                if m < i {
                                    assert(o2[m] == k);
                                } else if m > i {
                                    assert(o2[m - 1] == k);
                                }
                            }
                        }
                        assert(detached(e0, k));
                        if i >= 1 {
                            assert(o[i - 1] != k);
                        }
                        if i + 1 < o.len() {
                            assert(o[i + 1] != k);
                        }
                    }
                }
                if o2.len() > 0 {
                    assert(o2[0] == if i == 0 { o[1] } else { o[0] });
                    assert(o2[o2.len() - 1] == if i == o.len() - 1 { o[o.len() - 2] } else { o[o.len() - 1] });
                    assert(linked_at(e0, o, guard, 0));
                    assert(linked_at(e0, o, guard, o.len() - 1));
                }
                assert(e[guard].next == next_of(o2, guard, -1));
                assert(e[guard].prev == prev_of(o2, guard, o2.len() as int));
                self.order = Ghost(o2);
            } else {
                assert(e =~= e0);
            }
            assert(self.need() =~= old(self).need());
        }
        node.stat.unwrap()
    }

    /// Returns `true` if no waiter is linked in the list.
    pub fn is_empty(&self) -> (empty: bool)
        requires
            self.wf(),
        ensures
            empty == (self.queue().len() == 0),
    {
        match self.guard {
            None => true,
            Some(guard) => {
                proof {
                    if self.order@.len() > 0 {
                        assert(linked_at(self.entries(), self.order@, guard, 0));
                    }
                }
                slab_get(&self.nodes, guard).next == guard
            },
        }
    }

    /// Returns the key of the first waiter, if any.
    pub fn first_waiter(&self) -> (first: Option<usize>)
        requires
            self.wf(),
        ensures
            first is None <==> self.queue().len() == 0,
            first is Some ==> first->Some_0 == self.queue()[0],
    {
        match self.guard {
            None => None,
            Some(guard) => {
                proof {
                    if self.order@.len() > 0 {
                        assert(linked_at(self.entries(), self.order@, guard, 0));
                    }
                }
                let first = slab_get(&self.nodes, guard).next;
                if first != guard {
                    Some(first)
                } else {
                    None
                }
            },
        }
    }

    /// Unlinks the first waiter from the list and returns its key, if any.
    pub fn remove_first_waiter(&mut self) -> (first: Option<usize>)
        requires
            old(self).wf(),
        ensures
            final(self).wf(),
            final(self).need() == old(self).need(),
            first is None <==> old(self).queue().len() == 0,
            first is None ==> final(self).queue() == old(self).queue(),
            first is Some ==> first->Some_0 == old(self).queue()[0] && final(self).queue()
                == old(self).queue().drop_first(),
    {
        match self.first_waiter() {
            None => None,
            Some(first) => {
                proof {
                    self.lemma_queue_registered();
                    assert(self.queue()[0] == first);
                    assert(self.queue().index_of(first) == 0);
                    assert(self.queue().remove(0) =~= self.queue().drop_first());
                }
                self.remove_waiter(first);
                Some(first)
            },
        }
    }

    /// Returns the permits that the registered waiter `idx` still needs.
    pub fn permits_of(&self, idx: usize) -> (permits: usize)
        requires
            self.wf(),
            self.need().dom().contains(idx),
        ensures
            permits == self.need()[idx],
    {
        proof {
            let g = self.guard->Some_0;
            if self.order@.contains(idx) {
                let i = choose|i: int| 0 <= i < self.order@.len() && self.order@[i] == idx;
                assert(linked_at(self.entries(), self.order@, g, i));
            } else {
                assert(detached(self.entries(), idx));
            }
        }
        slab_get(&self.nodes, idx).stat.unwrap()
    }

    /// Sets the permits that the registered waiter `idx` still needs.
    pub fn set_permits(&mut self, idx: usize, permits: usize)
        requires
            old(self).wf(),
            old(self).need().dom().contains(idx),
        ensures
            final(self).wf(),
            final(self).queue() == old(self).queue(),
            final(self).need() == old(self).need().insert(idx, permits),
    {
        let ghost e0 = self.entries();
        let mut node = slab_get(&self.nodes, idx);
        node.stat = Some(permits);
        slab_set(&mut self.nodes, idx, node);
        proof {
            let e = self.entries();
            let o = self.order@;
            let g = self.guard->Some_0;
            assert forall|i: int| 0 <= i < o.len() implies #[trigger] linked_at(e, o, g, i) by {
                assert(linked_at(e0, o, g, i));
            }
            assert forall|k: usize| e.dom().contains(k) && k != g && !o.contains(k) implies #[trigger] detached(e, k) by {
                assert(detached(e0, k));
            }
            assert(self.need() =~= old(self).need().insert(idx, permits));
        }
    }

    /// Frees the cell of a registered waiter that is no longer linked in the list.
    pub fn free_waiter(&mut self, idx: usize)
        requires
            old(self).wf(),
            old(self).need().dom().contains(idx),
            !old(self).queue().contains(idx),
        ensures
            final(self).wf(),
            final(self).queue() == old(self).queue(),
            final(self).need() == old(self).need().remove(idx),
    {
        let ghost e0 = self.entries();
        slab_remove(&mut self.nodes, idx);
        proof {
            let e = self.entries();
            let o = self.order@;
            let g = self.guard->Some_0;
            assert forall|i: int| 0 <= i < o.len() implies #[trigger] linked_at(e, o, g, i) by {
                assert(linked_at(e0, o, g, i));
            }
            assert forall|k: usize| e.dom().contains(k) && k != g && !o.contains(k) implies #[trigger] detached(e, k) by {
                assert(detached(e0, k));
            }
            assert(self.need() =~= old(self).need().remove(idx));
        }
    }
}

} // verus!
