//! The pairing heap: an arena of slots linked into a heap-ordered multiway
//! tree, with handles that stay valid while their node is in the heap.
use vstd::prelude::*;
use crate::laws::{merged_drain, sort_merge};
use crate::model::HeapModel;
use crate::prio::Prio;
use vstd::std_specs::cmp::PartialEqSpec;

verus! {

/// What a node carries for the user: a key and the priority it is ordered by.
pub struct Inner<K, P> {
    pub key: K,
    pub prio: P,
}

impl<K, P> Inner<K, P> {
    /// Pairs a key with its priority.
    pub fn new(key: K, prio: P) -> (r: Self)
        ensures
            r.key == key,
            r.prio == prio,
    {
        Self { key, prio }
    }

    /// Takes the pair apart.
    pub fn into_value(self) -> (r: (K, P))
        ensures
            r.0 == self.key,
            r.1 == self.prio,
    {
        (self.key, self.prio)
    }
}

/// A handle to a node of a heap: the number of a slot and the generation the
/// slot had when the node was inserted. A handle owns nothing.
#[derive(Clone, Copy, Debug)]
pub struct HeapElmt {
    slot: usize,
    gen: u64,
    set: bool,
}

impl HeapElmt {
    /// The slot and generation the handle names, or `None` for a handle that
    /// was never set or has been retired.
    pub closed spec fn view(&self) -> Option<(int, u64)> {
        if self.set {
            Some((self.slot as int, self.gen))
        } else {
            None
        }
    }

    /// Whether the handle names no node.
    pub fn is_none(&self) -> (r: bool)
        ensures
            r == self@.is_none(),
    {
        !self.set
    }

    /// Retires the handle: from now on it names no node.
    pub fn none(&mut self)
        ensures
            final(self)@.is_none(),
    {
        self.set = false;
    }
}

impl Default for HeapElmt {
    fn default() -> (r: Self)
        ensures
            r@.is_none(),
    {
        HeapElmt { slot: 0, gen: 0, set: false }
    }
}

/// One slot of the arena. A slot without an item is vacant.
struct Slot<K, P> {
    gen: u64,
    parent: Option<usize>,
    left: Option<usize>,
    right: Option<usize>,
    item: Option<Inner<K, P>>,
}

/// A min-pairing heap of keys with priorities.
pub struct PairingHeap<K, P> {
    slots: Vec<Slot<K, P>>,
    free: Vec<usize>,
    root: Option<usize>,
    len: usize,
    model: Ghost<HeapModel<K, P>>,
}

/// The link `l` points at node `i`.
spec fn points_at(l: Option<usize>, i: int) -> bool {
    l matches Some(x) && x as int == i
}

/// The link `l` after every slot number was raised by `off`.
spec fn raised(l: Option<usize>, off: usize) -> Option<usize> {
    match l {
        Some(p) => if p + off <= usize::MAX {
            Some((p + off) as usize)
        } else {
            None
        },
        None => None,
    }
}

/// Raises the slot number in a link by `off`.
fn raise(l: Option<usize>, off: usize) -> (r: Option<usize>)
    ensures
        r == raised(l, off),
{
    match l {
        Some(p) => if p <= usize::MAX - off {
            Some(p + off)
        } else {
            None
        },
        None => None,
    }
}

/// The slot `s` after every slot number in its links was raised by `off`.
spec fn raised_slot<K, P>(s: Slot<K, P>, off: usize) -> Slot<K, P> {
    Slot {
        gen: s.gen,
        parent: raised(s.parent, off),
        left: raised(s.left, off),
        right: raised(s.right, off),
        item: s.item,
    }
}

/// The slot numbers of `v` as node ids.
spec fn ids(v: Seq<usize>) -> Seq<int> {
    Seq::new(v.len(), |j: int| v[j] as int)
}

impl<K, P: Prio> PairingHeap<K, P> {
    /// The heap as a tree of nodes.
    pub closed spec fn view(&self) -> HeapModel<K, P> {
        self.model@
    }

    /// The number of slots of the arena, vacant ones included.
    pub closed spec fn slot_count(&self) -> nat {
        self.slots@.len()
    }

    /// The slot and the generation that the next insertion gives its node: those
    /// of the slot that was vacated last, or a new slot.
    pub closed spec fn next_handle(&self) -> (int, u64) {
        if self.free@.len() > 0 {
            (self.free@.last() as int, self.slots@[self.free@.last() as int].gen)
        } else {
            (self.slots@.len() as int, 0u64)
        }
    }

    /// The handle names a node that has left the heap: its slot has moved on to
    /// a later generation, or was given up for good. Such a handle never names a
    /// node again.
    pub closed spec fn retired(&self, h: HeapElmt) -> bool {
        &&& h.set
        &&& h.slot < self.slots@.len()
        &&& h.gen < self.slots@[h.slot as int].gen || (h.gen == self.slots@[h.slot as int].gen
            && self.slots@[h.slot as int].item.is_none() && !self.free@.contains(h.slot))
    }

    /// The two arenas have the same slots vacant, under the same generations,
    /// and the same slots free.
    spec fn same_cells(&self, o: &Self) -> bool {
        &&& self.slots@.len() == o.slots@.len()
        &&& self.free@ == o.free@
        &&& forall|i: int|
            0 <= i < self.slots@.len() ==> (#[trigger] self.slots@[i]).gen == o.slots@[i].gen
                && self.slots@[i].item.is_none() == o.slots@[i].item.is_none()
    }

    /// Where the cells are the same, the same handles are retired.
    proof fn lemma_same_retired(&self, o: &Self)
        requires
            self.same_cells(o),
        ensures
            forall|h: HeapElmt| o.retired(h) == #[trigger] self.retired(h),
    {
    }

    /// A retired handle names no node of the heap.
    pub proof fn lemma_retired_is_dead(&self, h: HeapElmt)
        requires
            self.wf(),
            self.retired(h),
        ensures
            !self.live(h),
    {
        if self.live(h) {
            assert(self.slot_ok(h.slot as int));
        }
    }

    /// The slot of node `i` holds what the model says of `i`.
    spec fn slot_ok(&self, i: int) -> bool {
        let s = self.slots@[i];
        let n = self.model@.nodes[i];
        &&& s.item == Some(Inner { key: n.key, prio: n.prio })
        &&& s.gen == n.gen
        &&& if n.kids.len() > 0 {
            points_at(s.left, n.kids[0])
        } else {
            s.left.is_none()
        }
        &&& n.parent matches Some(p) ==> points_at(s.parent, p)
        &&& self.siblings_ok(n.kids)
    }

    /// The sibling links run through `kids` in order: each child points at the
    /// next, and the last at none.
    spec fn siblings_ok(&self, kids: Seq<int>) -> bool {
        forall|j: int|
            0 <= j < kids.len() ==> if j + 1 < kids.len() {
                points_at((#[trigger] self.slots@[kids[j]]).right, kids[j + 1])
            } else {
                self.slots@[kids[j]].right.is_none()
            }
    }

    /// The sibling links of the children of `i` are in order in this arena if
    /// they were in the arena `o` and no child of `i` has another link since.
    proof fn lemma_siblings_kept(&self, o: &Self, m: HeapModel<K, P>, i: int)
        requires
            m.forest(),
            m.nodes.contains_key(i),
            o.siblings_ok(m.nodes[i].kids),
            forall|c: int|
                m.nodes.contains_key(c) && m.nodes[c].parent == Some(i) ==> (
                #[trigger] self.slots@[c]).right == o.slots@[c].right,
        ensures
            self.siblings_ok(m.nodes[i].kids),
    {
        let kids = m.nodes[i].kids;
        assert forall|j: int| 0 <= j < kids.len() implies if j + 1 < kids.len() {
            points_at((#[trigger] self.slots@[kids[j]]).right, kids[j + 1])
        } else {
            self.slots@[kids[j]].right.is_none()
        } by {
            m.lemma_kid(i, j);
        }
    }

    /// The arena and the model agree on which node is the root.
    spec fn repr(&self) -> bool {
        &&& self.arena_ok()
        &&& match self.root {
            Some(r) => self.model@.root == Some(r as int),
            None => self.model@.root.is_none(),
        }
    }

    /// The slots of the arena represent the nodes of the model.
    spec fn arena_ok(&self) -> bool {
        let m = self.model@;
        &&& m.nodes.dom().finite()
        &&& self.len + self.free@.len() <= self.slots@.len()
        &&& self.len == m.nodes.dom().len()
        &&& forall|i: int| #[trigger]
            m.nodes.contains_key(i) ==> 0 <= i < self.slots@.len() && self.slots@[i].item.is_some()
        &&& forall|i: int|
            0 <= i < self.slots@.len() && (#[trigger] self.slots@[i]).item.is_some()
                ==> m.nodes.contains_key(i)
        &&& forall|i: int| m.nodes.contains_key(i) ==> #[trigger] self.slot_ok(i)
        &&& self.free@.no_duplicates()
        &&& forall|j: int|
            0 <= j < self.free@.len() ==> (#[trigger] self.free@[j]) < self.slots@.len()
                && self.slots@[self.free@[j] as int].item.is_none()
    }

    /// Slot `x` has neither parent nor sibling.
    spec fn clean(&self, x: int) -> bool {
        self.slots@[x].parent.is_none() && self.slots@[x].right.is_none()
    }

    /// The invariant of the representation.
    pub closed spec fn inv(&self) -> bool {
        &&& self.repr()
        &&& self.root matches Some(r) ==> self.slots@[r as int].parent.is_none()
            && self.slots@[r as int].right.is_none()
    }

    /// The heap is well formed: the arena holds one heap-ordered tree.
    pub open spec fn wf(&self) -> bool {
        self.inv() && self@.wf()
    }

    /// The handle names a node that is in the heap.
    pub open spec fn live(&self, h: HeapElmt) -> bool {
        h@ matches Some(id) && self@.live_at(id.0, id.1)
    }

    /// Every node of the heap has the number of a slot of the arena.
    pub proof fn lemma_ids_in_slots(&self)
        requires
            self.wf(),
        ensures
            forall|d: int| #[trigger] self@.nodes.contains_key(d) ==> 0 <= d < self.slot_count(),
    {
    }

    /// Creates an empty pairing heap.
    pub fn new() -> (h: Self)
        ensures
            h.wf(),
            h@.root.is_none(),
            h@.nodes == Map::<int, crate::model::NodeModel<K, P>>::empty(),
            h.slot_count() == 0,
    {
        let h = PairingHeap {
            slots: Vec::new(),
            free: Vec::new(),
            root: None,
            len: 0,
            model: Ghost(HeapModel { root: None, nodes: Map::empty() }),
        };
        proof {
            reveal(HeapModel::forest);
            assert(h.model@.nodes.dom() =~= Set::empty());
        }
        h
    }

    /// Returns the number of elements stored in the heap.
    pub fn len(&self) -> (n: usize)
        requires
            self.wf(),
        ensures
            n == self@.nodes.len(),
    {
        self.len
    }

    /// Checks whether the heap is empty.
    pub fn is_empty(&self) -> (r: bool)
        requires
            self.wf(),
        ensures
            r == (self@.nodes.len() == 0),
            r == self@.root.is_none(),
    {
        proof {
            if self@.root.is_some() {
                assert(self@.nodes.dom().contains(self@.root.unwrap()));
            }
        }
        self.len == 0
    }

    /// Whether the handle names a node that is in the heap.
    pub fn is_live(&self, h: &HeapElmt) -> (r: bool)
        requires
            self.wf(),
        ensures
            r == self.live(*h),
    {
        if h.set && h.slot < self.slots.len() {
            proof {
                if self.model@.nodes.contains_key(h.slot as int) {
                    assert(self.slot_ok(h.slot as int));
                }
            }
            self.slots[h.slot].item.is_some() && self.slots[h.slot].gen == h.gen
        } else {
            false
        }
    }

    /// Returns the minimum element, which is the root, and its priority.
    pub fn find_min(&self) -> (r: Option<(&K, &P)>)
        requires
            self.wf(),
        ensures
            match r {
                None => self@.root.is_none(),
                Some(kp) => self@.root.is_some() && *kp.0 == self@.nodes[self@.root.unwrap()].key
                    && *kp.1 == self@.nodes[self@.root.unwrap()].prio && forall|d: int| #[trigger]
                    self@.nodes.contains_key(d) ==> kp.1.rank() <= self@.rank(d),
            },
    {
        match self.root {
            Some(r) => {
                proof {
                    self@.lemma_root_min();
                    assert(self.model@.nodes.contains_key(r as int));
                    assert(self.slot_ok(r as int));
                }
                match &self.slots[r].item {
                    Some(inner) => Some((&inner.key, &inner.prio)),
                    None => None,
                }
            },
            None => None,
        }
    }

    /// Whether node `a` ranks strictly below node `b`.
    fn less(&self, a: usize, b: usize) -> (r: bool)
        requires
            self.arena_ok(),
            self.model@.nodes.contains_key(a as int),
            self.model@.nodes.contains_key(b as int),
        ensures
            r == (self.model@.rank(a as int) < self.model@.rank(b as int)),
    {
        proof {
            assert(self.slot_ok(a as int));
            assert(self.slot_ok(b as int));
        }
        match (&self.slots[a].item, &self.slots[b].item) {
            (Some(x), Some(y)) => x.prio.below(&y.prio),
            _ => false,
        }
    }

    /// Melds the trees rooted at `a` and `b`: the root that does not win
    /// becomes the first child of the winner. Returns the winner.
    fn meld(&mut self, a: usize, b: usize) -> (w: usize)
        requires
            old(self).arena_ok(),
            old(self).model@.forest(),
            old(self).model@.is_root(a as int),
            old(self).model@.is_root(b as int),
            a != b,
        ensures
            final(self).arena_ok(),
            final(self).model@ == old(self).model@.meld(a as int, b as int),
            final(self).model@.forest(),
            w as int == old(self).model@.winner(a as int, b as int),
            w == a || w == b,
            final(self).slots@.len() == old(self).slots@.len(),
            final(self).same_cells(old(self)),
            final(self).free@ == old(self).free@,
            final(self).root == old(self).root,
            final(self).len == old(self).len,
            forall|i: int|
                0 <= i < old(self).slots@.len() && i != old(self).model@.loser(a as int, b as int)
                    ==> (#[trigger] final(self).slots@[i]).parent == old(self).slots@[i].parent
                    && final(self).slots@[i].right == old(self).slots@[i].right,
    {
        let ghost m0 = self.model@;
        let first = self.less(a, b);
        let w = if first { a } else { b };
        let l = if first { b } else { a };
        proof {
            assert(self.slot_ok(w as int));
            assert(self.slot_ok(l as int));
        }
        let wl = self.slots[w].left;
        self.slots[l].parent = Some(w);
        self.slots[l].right = wl;
        self.slots[w].left = Some(l);
        self.model = Ghost(m0.meld(a as int, b as int));
        proof {
            m0.lemma_meld(a as int, b as int);
            reveal(HeapModel::link);
            let m = self.model@;
            let wi = w as int;
            let li = l as int;
            assert(m == m0.link(wi, li));
            assert(m.nodes.dom() =~= m0.nodes.dom());
            assert forall|i: int| m.nodes.contains_key(i) implies #[trigger] self.slot_ok(i) by {
                assert(old(self).slot_ok(i));
                let n0 = m0.nodes[i];
                let n = m.nodes[i];
                if i == wi {
                    assert(n.kids == seq![li] + n0.kids);
                    assert forall|j: int| 0 <= j < n.kids.len() implies if j + 1 < n.kids.len() {
                        points_at((#[trigger] self.slots@[n.kids[j]]).right, n.kids[j + 1])
                    } else {
                        self.slots@[n.kids[j]].right.is_none()
                    } by {
                        if j > 0 {
                            assert(n.kids[j] == n0.kids[j - 1]);
                            m0.lemma_kid(i, j - 1);
                        }
                    }
                } else {
                    assert(n.kids == n0.kids);
                    self.lemma_siblings_kept(old(self), m0, i);
                }
            }
        }
        w
    }

    /// Names the root, in the arena and in the model.
    fn set_root(&mut self, r: Option<usize>)
        requires
            old(self).arena_ok(),
        ensures
            final(self).repr(),
            final(self).root == r,
            final(self).model@ == old(self).model@.rooted(
                match r {
                    Some(x) => Some(x as int),
                    None => None,
                },
            ),
            final(self).slots@ == old(self).slots@,
            final(self).same_cells(old(self)),
            final(self).free@ == old(self).free@,
            final(self).len == old(self).len,
    {
        let ghost m0 = self.model@;
        self.root = r;
        self.model = Ghost(
            m0.rooted(
                match r {
                    Some(x) => Some(x as int),
                    None => None,
                },
            ),
        );
        proof {
            assert forall|i: int| self.model@.nodes.contains_key(i) implies #[trigger] self.slot_ok(
                i,
            ) by {
                assert(old(self).slot_ok(i));
            }
        }
    }

    /// Clears the parent and sibling links of a root.
    fn clear_links(&mut self, c: usize)
        requires
            old(self).arena_ok(),
            old(self).model@.forest(),
            old(self).model@.is_root(c as int),
        ensures
            final(self).arena_ok(),
            final(self).model@ == old(self).model@,
            final(self).slots@.len() == old(self).slots@.len(),
            final(self).same_cells(old(self)),
            final(self).free@ == old(self).free@,
            final(self).root == old(self).root,
            final(self).len == old(self).len,
            final(self).slots@[c as int].parent.is_none(),
            final(self).slots@[c as int].right.is_none(),
            forall|i: int|
                0 <= i < old(self).slots@.len() && i != c ==> #[trigger] final(self).slots@[i]
                    == old(self).slots@[i],
    {
        self.slots[c].parent = None;
        self.slots[c].right = None;
        proof {
            let m = self.model@;
            assert forall|i: int| m.nodes.contains_key(i) implies #[trigger] self.slot_ok(i) by {
                assert(old(self).slot_ok(i));
                self.lemma_siblings_kept(old(self), m, i);
            }
        }
    }

    /// Inserts a new element into the heap and returns the handle to it.
    pub fn insert(&mut self, key: K, prio: P) -> (h: HeapElmt)
        requires
            old(self).wf(),
        ensures
            final(self).wf(),
            final(self).live(h),
            h@ == Some(old(self).next_handle()),
            !old(self).retired(h),
            forall|x: HeapElmt| old(self).retired(x) ==> #[trigger] final(self).retired(x),
            h@ matches Some(id) && !old(self)@.nodes.contains_key(id.0) && final(self)@ == old(
                self,
            )@.push(id.0, key, prio, id.1),
            final(self)@.nodes.dom() == old(self)@.nodes.dom().insert(h@.unwrap().0),
            final(self)@.nodes.len() == old(self)@.nodes.len() + 1,
            final(self)@.nodes[h@.unwrap().0].key == key,
            final(self)@.nodes[h@.unwrap().0].prio == prio,
            forall|d: int| #[trigger]
                old(self)@.nodes.contains_key(d) ==> final(self)@.nodes[d].key == old(
                    self,
                )@.nodes[d].key && final(self)@.nodes[d].prio == old(self)@.nodes[d].prio
                    && final(self)@.nodes[d].gen == old(self)@.nodes[d].gen,
            forall|x: HeapElmt| old(self).live(x) ==> #[trigger] final(self).live(x),
            final(self).slot_count() == if old(self).next_handle().0 == old(self).slot_count() {
                old(self).slot_count() + 1
            } else {
                old(self).slot_count()
            },
    {
        let ghost m0 = self.model@;
        let item = Inner::new(key, prio);
        let ghost key0 = item.key;
        let ghost prio0 = item.prio;
        let slot: usize;
        if self.free.len() > 0 {
            slot = self.free.pop().unwrap();
            proof {
                assert(old(self).free@[old(self).free@.len() - 1] == slot);
            }
            self.slots[slot].parent = None;
            self.slots[slot].left = None;
            self.slots[slot].right = None;
            self.slots[slot].item = Some(item);
        } else {
            slot = self.slots.len();
            self.slots.push(Slot { gen: 0, parent: None, left: None, right: None, item: Some(item) });
        }
        let gen = self.slots[slot].gen;
        let cap = self.slots.len();
        assert(self.len < cap);
        self.len = self.len + 1;
        self.model = Ghost(m0.add_leaf(slot as int, key0, prio0, gen));
        proof {
            let m = self.model@;
            m0.lemma_push(slot as int, key0, prio0, gen);
            m0.lemma_add_leaf(slot as int, key0, prio0, gen);
            assert(m.nodes.dom() =~= m0.nodes.dom().insert(slot as int));
            assert forall|i: int| m.nodes.contains_key(i) implies #[trigger] self.slot_ok(i) by {
                if i != slot {
                    assert(old(self).slot_ok(i));
                    self.lemma_siblings_kept(old(self), m0, i);
                }
            }
            assert forall|j: int| 0 <= j < self.free@.len() implies (#[trigger] self.free@[j])
                < self.slots@.len() && self.slots@[self.free@[j] as int].item.is_none() by {
                assert(self.free@[j] == old(self).free@[j]);
            }
        }
        let ghost filled = *self;
        proof {
            if old(self).free@.len() > 0 {
                assert(old(self).free@.contains(slot));
            }
            assert forall|x: HeapElmt| old(self).retired(x) implies filled.retired(x) by {
                if filled.free@.contains(x.slot) {
                    let j = choose|j: int| 0 <= j < filled.free@.len() && filled.free@[j] == x.slot;
                    assert(old(self).free@[j] == x.slot);
                }
            }
        }
        let ghost melded = filled;
        match self.root {
            None => {
                self.set_root(Some(slot));
            },
            Some(r) => {
                let w = self.meld(r, slot);
                proof {
                    melded = *self;
                }
                self.set_root(Some(w));
            },
        }
        proof {
            melded.lemma_same_retired(&filled);
            self.lemma_same_retired(&melded);
        }
        HeapElmt { slot, gen, set: true }
    }

    /// The children of node `r`, from the youngest on.
    fn kids_of(&self, r: usize) -> (kids: Vec<usize>)
        requires
            self.arena_ok(),
            self.model@.forest(),
            self.model@.nodes.contains_key(r as int),
        ensures
            ids(kids@) == self.model@.nodes[r as int].kids,
    {
        let ghost m0 = self.model@;
        let ghost ri = r as int;
        let ghost ks = m0.nodes[ri].kids;
        proof {
            assert(self.slot_ok(ri));
        }
        let mut kids: Vec<usize> = Vec::new();
        let mut cur = self.slots[r].left;
        while cur.is_some()
            invariant
                self.arena_ok(),
                self.model@ == m0,
                m0.forest(),
                m0.nodes.contains_key(ri),
                ks == m0.nodes[ri].kids,
                self.slot_ok(ri),
                kids@.len() <= ks.len(),
                forall|j: int| 0 <= j < kids@.len() ==> kids@[j] as int == ks[j],
                if kids@.len() < ks.len() {
                    points_at(cur, ks[kids@.len() as int])
                } else {
                    cur.is_none()
                },
            decreases ks.len() - kids@.len(),
        {
            let c = cur.unwrap();
            proof {
                m0.lemma_kid(ri, kids@.len() as int);
            }
            kids.push(c);
            cur = self.slots[c].right;
        }
        assert(ids(kids@) =~= ks);
        kids
    }

    /// Takes the root `r` out of its slot: its children become roots, and the
    /// slot is free for another node, under the next generation.
    fn vacate(&mut self, r: usize) -> (it: Option<Inner<K, P>>)
        requires
            old(self).arena_ok(),
            old(self).model@.wf(),
            old(self).model@.root == Some(r as int),
        ensures
            final(self).arena_ok(),
            final(self).model@ == old(self).model@.detach(r as int),
            final(self).slots@.len() == old(self).slots@.len(),
            forall|x: HeapElmt| old(self).retired(x) ==> #[trigger] final(self).retired(x),
            forall|x: HeapElmt|
                x.set && x.slot == r && x.gen == old(self).slots@[r as int].gen
                    ==> #[trigger] final(self).retired(x),
            it == Some(
                Inner {
                    key: old(self).model@.nodes[r as int].key,
                    prio: old(self).model@.nodes[r as int].prio,
                },
            ),
    {
        let ghost m0 = self.model@;
        let ghost ri = r as int;
        proof {
            assert(self.slot_ok(ri));
            m0.lemma_detach(ri);
        }
        let it = self.slots[r].item.take();
        self.slots[r].left = None;
        let g = self.slots[r].gen;
        if g < u64::MAX {
            self.slots[r].gen = g + 1;
            self.free.push(r);
        }
        proof {
            assert(m0.nodes.dom().contains(ri));
        }
        self.len = self.len - 1;
        self.model = Ghost(m0.detach(ri));
        proof {
            let d0 = self.model@;
            reveal(HeapModel::detach);
            assert(d0.nodes.dom() =~= m0.nodes.dom().remove(ri));
            assert forall|i: int| d0.nodes.contains_key(i) implies #[trigger] self.slot_ok(i) by {
                assert(old(self).slot_ok(i));
                self.lemma_siblings_kept(old(self), m0, i);
            }
            assert forall|j: int| 0 <= j < self.free@.len() implies (#[trigger] self.free@[j])
                < self.slots@.len() && self.slots@[self.free@[j] as int].item.is_none() by {
                if j < old(self).free@.len() {
                    assert(self.free@[j] == old(self).free@[j]);
                }
            }
            assert(self.free@.no_duplicates()) by {
                assert forall|a: int, b: int|
                    0 <= a < self.free@.len() && 0 <= b < self.free@.len() && a != b implies self.free@[a]
                    != self.free@[b] by {
                    if a < old(self).free@.len() {
                        assert(self.free@[a] == old(self).free@[a]);
                    }
                    if b < old(self).free@.len() {
                        assert(self.free@[b] == old(self).free@[b]);
                    }
                }
            }
            assert(!old(self).free@.contains(r)) by {
                if old(self).free@.contains(r) {
                    let j = choose|j: int| 0 <= j < old(self).free@.len() && old(self).free@[j] == r;
                    assert(old(self).slots@[old(self).free@[j] as int].item.is_none());
                }
            }
            assert forall|x: HeapElmt| old(self).retired(x) implies #[trigger] self.retired(x) by {
                if self.free@.contains(x.slot) && x.slot != r {
                    let j = choose|j: int| 0 <= j < self.free@.len() && self.free@[j] == x.slot;
                    assert(old(self).free@[j] == x.slot);
                }
            }
            assert forall|x: HeapElmt|
                x.set && x.slot == r && x.gen == old(self).slots@[r as int].gen implies #[trigger] self.retired(
                x,
            ) by {
                if self.free@.contains(r) && g == u64::MAX {
                    let j = choose|j: int| 0 <= j < self.free@.len() && self.free@[j] == r;
                    assert(old(self).free@[j] == r);
                }
            }
        }
        it
    }

    /// Clears the parent and sibling links of the roots in `kids`.
    fn release(&mut self, kids: &Vec<usize>)
        requires
            old(self).arena_ok(),
            old(self).model@.forest(),
            old(self).model@.roots(ids(kids@)),
        ensures
            final(self).arena_ok(),
            final(self).model@ == old(self).model@,
            final(self).slots@.len() == old(self).slots@.len(),
            final(self).same_cells(old(self)),
            forall|k: int| 0 <= k < kids@.len() ==> final(self).clean(#[trigger] ids(kids@)[k]),
    {
        let ghost d0 = self.model@;
        let ghost ks = ids(kids@);
        let ghost cap = self.slots@.len();
        let mut j: usize = 0;
        while j < kids.len()
            invariant
                self.arena_ok(),
                self.model@ == d0,
                d0.forest(),
                d0.roots(ks),
                ids(kids@) == ks,
                self.slots@.len() == cap,
                self.same_cells(old(self)),
                0 <= j <= kids@.len(),
                forall|k: int| 0 <= k < j ==> self.clean(#[trigger] ks[k]),
            decreases kids@.len() - j,
        {
            proof {
                assert(ks[j as int] == kids@[j as int] as int);
                assert(d0.is_root(ks[j as int]));
            }
            self.clear_links(kids[j]);
            proof {
                assert forall|k: int| 0 <= k < j + 1 implies self.clean(#[trigger] ks[k]) by {
                    assert(d0.is_root(ks[k]));
                }
            }
            j = j + 1;
        }
    }

    /// The first pass of a deletion: melds the roots in `kids` in pairs, from
    /// the left, and returns the winners in order.
    fn pair_pass(&mut self, kids: &Vec<usize>) -> (paired: Vec<usize>)
        requires
            old(self).arena_ok(),
            old(self).model@.forest(),
            old(self).model@.roots(ids(kids@)),
            forall|k: int| 0 <= k < kids@.len() ==> old(self).clean(#[trigger] ids(kids@)[k]),
        ensures
            final(self).arena_ok(),
            final(self).model@.forest(),
            final(self).model@ == old(self).model@.pair_up(ids(kids@)).0,
            ids(paired@) == old(self).model@.pair_up(ids(kids@)).1,
            final(self).slots@.len() == old(self).slots@.len(),
            final(self).same_cells(old(self)),
            forall|k: int|
                0 <= k < kids@.len() && final(self).model@.is_root(#[trigger] ids(kids@)[k])
                    ==> final(self).clean(ids(kids@)[k]),
    {
        let ghost d0 = self.model@;
        let ghost ks = ids(kids@);
        let ghost cap = self.slots@.len();
        let ghost pairs = d0.pair_up(ks);
        let mut paired: Vec<usize> = Vec::new();
        let mut i: usize = 0;
        proof {
            assert(ks.skip(0) =~= ks);
            assert(ids(paired@) + pairs.1 =~= pairs.1);
        }
        while i < kids.len()
            invariant
                self.arena_ok(),
                self.model@.forest(),
                self.slots@.len() == cap,
                self.same_cells(old(self)),
                ids(kids@) == ks,
                ks.no_duplicates(),
                0 <= i <= kids@.len(),
                pairs.0 == self.model@.pair_up(ks.skip(i as int)).0,
                pairs.1 == ids(paired@) + self.model@.pair_up(ks.skip(i as int)).1,
                forall|j: int| i <= j < ks.len() ==> self.model@.is_root(#[trigger] ks[j]),
                forall|j: int|
                    0 <= j < ks.len() && self.model@.is_root(#[trigger] ks[j]) ==> self.clean(ks[j]),
            decreases kids@.len() - i,
        {
            let ghost m = self.model@;
            let ghost s = ks.skip(i as int);
            let ghost pv = ids(paired@);
            if i + 1 < kids.len() {
                let a = kids[i];
                let b = kids[i + 1];
                proof {
                    assert(ks[i as int] == a as int && ks[i + 1] == b as int);
                    assert(s[0] == a as int && s[1] == b as int);
                    assert(s.skip(2) =~= ks.skip(i + 2));
                    m.lemma_meld(a as int, b as int);
                }
                let w = self.meld(a, b);
                paired.push(w);
                proof {
                    let rest = self.model@.pair_up(ks.skip(i + 2)).1;
                    assert(ids(paired@) =~= pv.push(w as int));
                    assert(pv.push(w as int) + rest =~= pv + (seq![w as int] + rest));
                    assert forall|j: int| i + 2 <= j < ks.len() implies self.model@.is_root(
                        #[trigger] ks[j],
                    ) by {
                        assert(m.is_root(ks[j]));
                    }
                }
                i = i + 2;
            } else {
                let a = kids[i];
                paired.push(a);
                proof {
                    assert(s =~= seq![a as int]);
                    assert(ks.skip(i + 1) =~= Seq::<int>::empty());
                    assert(ids(paired@) =~= pv.push(a as int));
                    assert(pv.push(a as int) + Seq::<int>::empty() =~= pv + s);
                }
                i = i + 1;
            }
        }
        proof {
            assert(ks.skip(i as int) =~= Seq::<int>::empty());
            assert(ids(paired@) + Seq::<int>::empty() =~= ids(paired@));
        }
        paired
    }

    /// The second pass of a deletion: melds the roots in `paired` into one
    /// tree, from the right, and returns its root.
    fn fold_pass(&mut self, paired: Vec<usize>) -> (w: usize)
        requires
            old(self).arena_ok(),
            old(self).model@.forest(),
            old(self).model@.roots(ids(paired@)),
            paired@.len() >= 1,
            forall|k: int| 0 <= k < paired@.len() ==> old(self).clean(#[trigger] ids(paired@)[k]),
        ensures
            final(self).arena_ok(),
            final(self).model@.forest(),
            final(self).model@ == old(self).model@.fold_back(ids(paired@)).0,
            w as int == old(self).model@.fold_back(ids(paired@)).1,
            final(self).slots@.len() == old(self).slots@.len(),
            final(self).same_cells(old(self)),
            final(self).clean(w as int),
    {
        let mut paired = paired;
        let ghost all = ids(paired@);
        let ghost f0 = self.model@.fold_back(all);
        let ghost cap = self.slots@.len();
        let mut acc = paired.pop().unwrap();
        proof {
            assert(ids(paired@).push(acc as int) =~= all);
            assert(all[all.len() - 1] == acc as int);
            assert forall|k: int| 0 <= k < paired@.len() implies all.contains(
                #[trigger] paired@[k] as int,
            ) by {
                assert(all[k] == paired@[k] as int);
            }
        }
        while paired.len() > 0
            invariant
                self.arena_ok(),
                self.model@.forest(),
                self.slots@.len() == cap,
                self.same_cells(old(self)),
                f0 == self.model@.fold_back(ids(paired@).push(acc as int)),
                self.model@.roots(ids(paired@).push(acc as int)),
                all.contains(acc as int),
                forall|k: int| 0 <= k < paired@.len() ==> all.contains(#[trigger] paired@[k] as int),
                forall|j: int|
                    0 <= j < all.len() && self.model@.is_root(#[trigger] all[j]) ==> self.clean(
                        all[j],
                    ),
            decreases paired@.len(),
        {
            let ghost m = self.model@;
            let ghost s = ids(paired@).push(acc as int);
            let ghost n = s.len() as int;
            let ghost acc0 = acc as int;
            let prev = paired.pop().unwrap();
            proof {
                assert(s[n - 1] == acc0 && s[n - 2] == prev as int);
                assert(m.is_root(s[n - 1]) && m.is_root(s[n - 2]));
                assert(s.take(n - 2) =~= ids(paired@));
                m.lemma_meld(acc0, prev as int);
            }
            acc = self.meld(acc, prev);
            proof {
                let t = ids(paired@).push(acc as int);
                assert(t == s.take(n - 2).push(m.winner(acc0, prev as int)));
                assert(t.no_duplicates()) by {
                    assert forall|x: int, y: int|
                        0 <= x < t.len() && 0 <= y < t.len() && x != y implies t[x] != t[y] by {
                        let x1 = if x < n - 2 {
                            x
                        } else if acc as int == acc0 {
                            n - 1
                        } else {
                            n - 2
                        };
                        let y1 = if y < n - 2 {
                            y
                        } else if acc as int == acc0 {
                            n - 1
                        } else {
                            n - 2
                        };
                        assert(t[x] == s[x1] && t[y] == s[y1]);
                    }
                }
                assert forall|k: int| 0 <= k < t.len() implies self.model@.is_root(
                    #[trigger] t[k],
                ) by {
                    if k < n - 2 {
                        assert(t[k] == s[k]);
                        assert(m.is_root(s[k]));
                        assert(s[k] != s[n - 1] && s[k] != s[n - 2]);
                    }
                }
            }
        }
        proof {
            assert(ids(paired@).push(acc as int) =~= seq![acc as int]);
            assert(self.model@.is_root(seq![acc as int][0]));
            let j = choose|j: int| 0 <= j < all.len() && all[j] == acc as int;
            assert(self.clean(all[j]));
        }
        acc
    }

    /// Deletes the minimum element, which is the root, and returns its key and
    /// priority. The children of the root are melded in pairs from the left,
    /// and the pairs are then melded into one tree from the right.
    pub fn delete_min(&mut self) -> (r: Option<(K, P)>)
        requires
            old(self).wf(),
        ensures
            final(self).wf(),
            final(self).slot_count() == old(self).slot_count(),
            forall|x: HeapElmt| old(self).retired(x) ==> #[trigger] final(self).retired(x),
            forall|x: HeapElmt|
                old(self).live(x) && old(self)@.root == Some(x@.unwrap().0)
                    ==> #[trigger] final(self).retired(x),
            match r {
                None => old(self)@.root.is_none() && final(self)@ == old(self)@,
                Some(kp) => old(self)@.root.is_some() && kp.0 == old(self)@.nodes[old(
                    self,
                )@.root.unwrap()].key && kp.1 == old(self)@.nodes[old(self)@.root.unwrap()].prio
                    && final(self)@ == old(self)@.pop() && final(self)@.nodes.len() == old(
                    self,
                )@.nodes.len() - 1 && !final(self)@.nodes.contains_key(old(self)@.root.unwrap())
                    && final(self)@.nodes.dom() == old(self)@.nodes.dom().remove(
                    old(self)@.root.unwrap(),
                ) && (forall|d: int| #[trigger]
                    final(self)@.nodes.contains_key(d) ==> kp.1.rank() <= final(self)@.rank(d)
                        && final(self)@.nodes[d].key == old(self)@.nodes[d].key
                        && final(self)@.nodes[d].prio == old(self)@.nodes[d].prio
                        && final(self)@.nodes[d].gen == old(self)@.nodes[d].gen)
                    && (forall|x: HeapElmt|
                    old(self).live(x) && x@.unwrap().0 != old(self)@.root.unwrap()
                        ==> #[trigger] final(self).live(x)),
            },
    {
        let r = match self.root {
            None => {
                return None;
            },
            Some(r) => r,
        };
        let ghost m0 = self.model@;
        let ghost ri = r as int;
        let ghost ks = m0.nodes[ri].kids;
        proof {
            m0.lemma_pop();
            m0.lemma_detach(ri);
            m0.lemma_finite();
        }
        let kids = self.kids_of(r);
        proof {
            assert(self.slot_ok(ri));
        }
        let it = self.vacate(r);
        let ghost d0 = self.model@;
        let ghost vacated = *self;
        let ghost released = vacated;
        let ghost paired_up = vacated;
        let ghost folded = vacated;
        if kids.len() == 0 {
            self.set_root(None);
            proof {
                assert(self.model@ == d0);
                assert(m0.pop() == d0);
            }
        } else {
            self.release(&kids);
            proof {
                released = *self;
            }
            proof {
                d0.lemma_pair_up(ks);
            }
            let paired = self.pair_pass(&kids);
            proof {
                paired_up = *self;
            }
            let ghost pairs = d0.pair_up(ks);
            proof {
                assert forall|k: int| 0 <= k < paired@.len() implies self.clean(
                    #[trigger] ids(paired@)[k],
                ) by {
                    let x = ids(paired@)[k];
                    assert(ks.contains(pairs.1[k]));
                    let j = choose|j: int| 0 <= j < ks.len() && ks[j] == x;
                    assert(self.model@.is_root(ids(kids@)[j]));
                }
                pairs.0.lemma_fold_back(pairs.1);
            }
            let w = self.fold_pass(paired);
            proof {
                folded = *self;
            }
            self.set_root(Some(w));
            proof {
                let f0 = pairs.0.fold_back(pairs.1);
                assert(m0.pop() == f0.0.rooted(Some(f0.1)));
            }
        }
        proof {
            released.lemma_same_retired(&vacated);
            paired_up.lemma_same_retired(&released);
            folded.lemma_same_retired(&paired_up);
            self.lemma_same_retired(&folded);
            m0.lemma_root_min();
            assert forall|d: int| #[trigger] self.model@.nodes.contains_key(d) implies m0.rank(ri)
                <= self.model@.rank(d) && self.model@.nodes[d].key == m0.nodes[d].key
                && self.model@.nodes[d].prio == m0.nodes[d].prio && self.model@.nodes[d].gen
                == m0.nodes[d].gen by {
                assert(m0.nodes.contains_key(d));
            }
            assert forall|x: HeapElmt|
                old(self).live(x) && x@.unwrap().0 != ri implies #[trigger] self.live(x) by {
                assert(self.model@.nodes.contains_key(x@.unwrap().0));
            }
        }
        match it {
            Some(inner) => Some(inner.into_value()),
            None => None,
        }
    }

    /// Replaces the priority of node `i`.
    fn put_prio(&mut self, i: usize, prio: P)
        requires
            old(self).arena_ok(),
            old(self).model@.forest(),
            old(self).model@.nodes.contains_key(i as int),
        ensures
            final(self).arena_ok(),
            final(self).model@ == old(self).model@.set_prio(i as int, prio),
            final(self).slots@.len() == old(self).slots@.len(),
            final(self).same_cells(old(self)),
            final(self).root == old(self).root,
            forall|x: int|
                0 <= x < old(self).slots@.len() ==> (#[trigger] final(self).slots@[x]).parent == old(
                    self,
                ).slots@[x].parent && final(self).slots@[x].right == old(self).slots@[x].right,
    {
        let ghost m0 = self.model@;
        proof {
            assert(self.slot_ok(i as int));
        }
        let it = self.slots[i].item.take();
        match it {
            Some(inner) => {
                self.slots[i].item = Some(Inner::new(inner.key, prio));
            },
            None => {},
        }
        self.model = Ghost(m0.set_prio(i as int, prio));
        proof {
            let m = self.model@;
            assert(m.nodes.dom() =~= m0.nodes.dom());
            assert forall|x: int| m.nodes.contains_key(x) implies #[trigger] self.slot_ok(x) by {
                assert(old(self).slot_ok(x));
                self.lemma_siblings_kept(old(self), m0, x);
            }
            assert forall|j: int| 0 <= j < self.free@.len() implies (#[trigger] self.free@[j])
                < self.slots@.len() && self.slots@[self.free@[j] as int].item.is_none() by {
                assert(old(self).slots@[old(self).free@[j] as int].item.is_none());
            }
        }
    }

    /// Cuts node `i`, which has a parent, out of its parent's child list.
    fn cut(&mut self, i: usize)
        requires
            old(self).arena_ok(),
            old(self).model@.forest(),
            old(self).model@.nodes.contains_key(i as int),
            old(self).model@.nodes[i as int].parent.is_some(),
        ensures
            final(self).arena_ok(),
            final(self).model@ == old(self).model@.cut(i as int),
            final(self).slots@.len() == old(self).slots@.len(),
            final(self).same_cells(old(self)),
            final(self).root == old(self).root,
            final(self).clean(i as int),
            forall|x: int|
                old(self).model@.is_root(x) ==> (#[trigger] final(self).slots@[x]).parent == old(
                    self,
                ).slots@[x].parent && final(self).slots@[x].right == old(self).slots@[x].right,
    {
        let ghost m0 = self.model@;
        let ghost ii = i as int;
        let ghost qi = m0.nodes[ii].parent.unwrap();
        let ghost kq = m0.nodes[qi].kids;
        let ghost at = kq.index_of(ii);
        proof {
            assert(self.slot_ok(ii));
            m0.lemma_parent(ii);
            assert(self.slot_ok(qi));
            assert(0 <= at < kq.len() && kq[at] == ii);
            m0.lemma_kid(qi, at);
        }
        let q = self.slots[i].parent.unwrap();
        let nxt = self.slots[i].right;
        let first = self.slots[q].left.unwrap();
        let ghost mut j: int = 0;
        let mut prev: usize = first;
        if first == i {
            self.slots[q].left = nxt;
            proof {
                assert(at == 0);
            }
        } else {
            loop
                invariant_except_break
                    0 <= j < at,
                    prev as int == kq[j],
                invariant
                    *self == *old(self),
                    self.arena_ok(),
                    self.slot_ok(qi),
                    m0 == self.model@,
                    m0.forest(),
                    m0.nodes.contains_key(qi),
                    kq == m0.nodes[qi].kids,
                    0 <= at < kq.len(),
                    kq[at] == ii,
                    ii == i as int,
                    kq.no_duplicates(),
                ensures
                    0 <= j < at,
                    j + 1 == at,
                    prev as int == kq[j],
                decreases at - j,
            {
                proof {
                    m0.lemma_kid(qi, j);
                    m0.lemma_kid(qi, j + 1);
                }
                let nx = self.slots[prev].right.unwrap();
                if nx == i {
                    break ;
                }
                prev = nx;
                proof {
                    j = j + 1;
                }
            }
            proof {
                m0.lemma_kid(qi, j);
            }
            self.slots[prev].right = nxt;
        }
        self.slots[i].parent = None;
        self.slots[i].right = None;
        self.model = Ghost(m0.cut(ii));
        proof {
            reveal(HeapModel::cut);
            m0.lemma_cut(ii);
            let m = self.model@;
            let kq2 = kq.remove(at);
            assert(m.nodes.dom() =~= m0.nodes.dom());
            assert(m.nodes[qi].kids == kq2);
            assert forall|t: int| 0 <= t < kq2.len() implies kq2[t] == kq[if t < at {
                t
            } else {
                t + 1
            }] by {}
            assert forall|x: int| m.nodes.contains_key(x) implies #[trigger] self.slot_ok(x) by {
                assert(old(self).slot_ok(x));
                let n = m.nodes[x];
                if x == qi {
                    assert forall|t: int| 0 <= t < n.kids.len() implies if t + 1 < n.kids.len() {
                        points_at((#[trigger] self.slots@[n.kids[t]]).right, n.kids[t + 1])
                    } else {
                        self.slots@[n.kids[t]].right.is_none()
                    } by {
                        let t0 = if t < at { t } else { t + 1 };
                        m0.lemma_kid(qi, t0);
                        assert(kq2[t] == kq[t0]);
                        if t + 1 < kq2.len() {
                            m0.lemma_kid(qi, t0 + 1);
                        }
                        if at + 1 < kq.len() {
                            m0.lemma_kid(qi, at + 1);
                        }
                        if at > 0 {
                            m0.lemma_kid(qi, at - 1);
                        }
                    }
                    if at == 0 && kq.len() > 1 {
                        m0.lemma_kid(qi, 1);
                    }
                } else {
                    assert(n.kids == m0.nodes[x].kids);
                    if at > 0 {
                        m0.lemma_kid(qi, at - 1);
                    }
                    self.lemma_siblings_kept(old(self), m0, x);
                }
            }
            assert forall|x: int| m0.is_root(x) implies (#[trigger] self.slots@[x]).parent == old(
                self,
            ).slots@[x].parent && self.slots@[x].right == old(self).slots@[x].right by {
                if at > 0 {
                    m0.lemma_kid(qi, at - 1);
                }
            }
        }
    }

    /// Gives node `i` the priority `prio` unless that would raise it.
    fn lower(&mut self, i: usize, prio: P)
        requires
            old(self).wf(),
            old(self)@.nodes.contains_key(i as int),
        ensures
            final(self).wf(),
            final(self)@ == old(self)@.lower(i as int, prio),
            final(self).slot_count() == old(self).slot_count(),
            final(self).same_cells(old(self)),
    {
        let ghost m0 = self.model@;
        let ghost ii = i as int;
        proof {
            assert(self.slot_ok(ii));
            m0.lemma_lower(ii, prio);
            assert(m0.top(ii) == m0.root.unwrap());
            reveal(HeapModel::forest);
            assert(m0.node_ok(ii));
        }
        let root = self.root.unwrap();
        let raise = match &self.slots[i].item {
            Some(inner) => inner.prio.below(&prio),
            None => false,
        };
        if raise {
            return ;
        }
        if i == root {
            self.put_prio(i, prio);
            return ;
        }
        let q = self.slots[i].parent.unwrap();
        proof {
            m0.lemma_parent(ii);
            assert(self.slot_ok(q as int));
        }
        let below = match &self.slots[q].item {
            Some(inner) => prio.below(&inner.prio),
            None => false,
        };
        if !below {
            self.put_prio(i, prio);
            return ;
        }
        self.cut(i);
        proof {
            m0.lemma_cut(ii);
        }
        self.put_prio(i, prio);
        proof {
            m0.cut(ii).lemma_set_prio(ii, prio);
            assert(self.model@.is_root(root as int));
            assert(self.model@.is_root(ii));
        }
        let w = self.meld(root, i);
        self.set_root(Some(w));
    }

    /// Lowers the priority of the node that the handle names to `new_prio`.
    /// Nothing happens where the handle names no node of the heap, or where
    /// `new_prio` ranks above the priority the node has. A node that comes to
    /// rank below its parent is cut out and melded with the root.
    pub fn update_prio(&mut self, h: &HeapElmt, new_prio: P)
        requires
            old(self).wf(),
        ensures
            final(self).wf(),
            final(self).slot_count() == old(self).slot_count(),
            final(self)@ == if old(self).live(*h) {
                old(self)@.lower(h@.unwrap().0, new_prio)
            } else {
                old(self)@
            },
            final(self)@.nodes.len() == old(self)@.nodes.len(),
            final(self)@.nodes.dom() == old(self)@.nodes.dom(),
            forall|x: HeapElmt| old(self).retired(x) == #[trigger] final(self).retired(x),
            forall|d: int| #[trigger]
                old(self)@.nodes.contains_key(d) ==> final(self)@.nodes[d].key == old(
                    self,
                )@.nodes[d].key && final(self)@.nodes[d].gen == old(self)@.nodes[d].gen
                    && final(self)@.nodes[d].prio == if old(self).live(*h) && d == h@.unwrap().0 && new_prio.rank()
                    <= old(self)@.rank(d) {
                    new_prio
                } else {
                    old(self)@.nodes[d].prio
                },
            forall|x: HeapElmt| old(self).live(x) == #[trigger] final(self).live(x),
    {
        if self.is_live(h) {
            proof {
                self.model@.lemma_lower(h.slot as int, new_prio);
            }
            self.lower(h.slot, new_prio);
            proof {
                self.lemma_same_retired(old(self));
                assert forall|x: HeapElmt| old(self).live(x) == #[trigger] self.live(x) by {
                    if old(self).live(x) {
                        assert(self.model@.nodes.contains_key(x@.unwrap().0));
                    }
                    if self.live(x) {
                        assert(old(self).model@.nodes.contains_key(x@.unwrap().0));
                    }
                }
            }
        }
    }

    /// An arena made of the slots of `s` and then those of `o`, with the links
    /// of `o` raised, represents the two forests side by side.
    proof fn lemma_appended(a: Self, s: Self, o: Self)
        requires
            s.arena_ok(),
            s.model@.forest(),
            o.arena_ok(),
            o.model@.forest(),
            s.slots@.len() + o.slots@.len() <= usize::MAX,
            a.slots@.len() == s.slots@.len() + o.slots@.len(),
            a.len == s.len + o.len,
            a.model@ == s.model@.join(o.model@, s.slots@.len() as int),
            a.free@.len() == s.free@.len() + o.free@.len(),
            forall|k: int| 0 <= k < s.free@.len() ==> #[trigger] a.free@[k] == s.free@[k],
            forall|k: int|
                0 <= k < o.free@.len() ==> (#[trigger] a.free@[s.free@.len() + k]) == o.free@[k]
                    + s.slots@.len(),
            forall|k: int| 0 <= k < s.slots@.len() ==> #[trigger] a.slots@[k] == s.slots@[k],
            forall|k: int|
                0 <= k < o.slots@.len() ==> #[trigger] a.slots@[s.slots@.len() + k] == raised_slot(
                    o.slots@[k],
                    s.slots@.len() as usize,
                ),
        ensures
            a.arena_ok(),
    {
        reveal(HeapModel::join);
        let ma = s.model@;
        let mb = o.model@;
        let off = s.slots@.len() as usize;
        let bs = o.slots@;
        let bf = o.free@;
        ma.lemma_join(mb, off as int);
        let m = a.model@;
        assert forall|x: int| #[trigger] m.nodes.contains_key(x) implies 0 <= x < a.slots@.len()
            && a.slots@[x].item.is_some() by {
            if !ma.nodes.contains_key(x) {
                assert(mb.nodes.contains_key(x - off));
                assert(a.slots@[off + (x - off)] == raised_slot(bs[x - off], off));
            }
        }
        assert forall|x: int|
            0 <= x < a.slots@.len() && (#[trigger] a.slots@[x]).item.is_some() implies m.nodes.contains_key(
            x,
        ) by {
            if x >= off {
                assert(a.slots@[off + (x - off)] == raised_slot(bs[x - off], off));
                assert(bs[x - off].item.is_some());
            }
        }
        assert forall|x: int| m.nodes.contains_key(x) implies #[trigger] a.slot_ok(x) by {
            if ma.nodes.contains_key(x) {
                assert(s.slot_ok(x));
                a.lemma_siblings_kept(&s, ma, x);
            } else {
                let e = x - off;
                assert(mb.nodes.contains_key(e));
                assert(o.slot_ok(e));
                assert(a.slots@[off + e] == raised_slot(bs[e], off));
                let nd = mb.nodes[e];
                let nd2 = m.nodes[x];
                assert(nd2 == nd.moved(off as int));
                if nd.kids.len() > 0 {
                    mb.lemma_kid(e, 0);
                }
                if nd.parent.is_some() {
                    mb.lemma_parent(e);
                }
                assert forall|t: int| 0 <= t < nd2.kids.len() implies if t + 1 < nd2.kids.len() {
                    points_at((#[trigger] a.slots@[nd2.kids[t]]).right, nd2.kids[t + 1])
                } else {
                    a.slots@[nd2.kids[t]].right.is_none()
                } by {
                    mb.lemma_kid(e, t);
                    let c = nd.kids[t];
                    assert(nd2.kids[t] == c + off);
                    assert(a.slots@[off + c] == raised_slot(bs[c], off));
                    if t + 1 < nd.kids.len() {
                        mb.lemma_kid(e, t + 1);
                    }
                }
            }
        }
        assert forall|k: int| 0 <= k < a.free@.len() implies (#[trigger] a.free@[k]) < a.slots@.len()
            && a.slots@[a.free@[k] as int].item.is_none() by {
            if k < s.free@.len() {
                assert(a.free@[k] == s.free@[k]);
            } else {
                let t = k - s.free@.len();
                assert(a.free@[s.free@.len() + t] == bf[t] + off);
                assert(a.slots@[off + bf[t]] == raised_slot(bs[bf[t] as int], off));
            }
        }
        assert(a.free@.no_duplicates()) by {
            assert forall|x: int, y: int|
                0 <= x < a.free@.len() && 0 <= y < a.free@.len() && x != y implies a.free@[x]
                != a.free@[y] by {
                let fl0 = s.free@.len() as int;
                if x < fl0 {
                    assert(a.free@[x] == s.free@[x]);
                } else {
                    assert(a.free@[fl0 + (x - fl0)] == bf[x - fl0] + off);
                }
                if y < fl0 {
                    assert(a.free@[y] == s.free@[y]);
                } else {
                    assert(a.free@[fl0 + (y - fl0)] == bf[y - fl0] + off);
                }
            }
        }
    }

    /// Merges two heaps: the slots of `other` are appended to the arena of
    /// `self`, and the two roots are melded. On equal priorities the root of
    /// `self` stays the root. A handle
    /// of `self` goes on naming its node; a node of `other` is found at its old
    /// slot number plus the number of slots that `self` had.
    pub fn merge(self, other: Self) -> (r: Self)
        requires
            self.wf(),
            other.wf(),
            self.slot_count() + other.slot_count() <= usize::MAX,
        ensures
            r.wf(),
            r@ == self@.absorb(other@, self.slot_count() as int),
            r.slot_count() == self.slot_count() + other.slot_count(),
            r@.nodes.len() == self@.nodes.len() + other@.nodes.len(),
            forall|d: int| #[trigger]
                r@.nodes.contains_key(d) <==> self@.nodes.contains_key(d)
                    || other@.nodes.contains_key(d - self.slot_count()),
            forall|d: int| #[trigger]
                self@.nodes.contains_key(d) ==> r@.nodes[d].key == self@.nodes[d].key
                    && r@.nodes[d].prio == self@.nodes[d].prio && r@.nodes[d].gen
                    == self@.nodes[d].gen,
            forall|d: int| #[trigger]
                other@.nodes.contains_key(d) ==> r@.nodes[d + self.slot_count()].key
                    == other@.nodes[d].key && r@.nodes[d + self.slot_count()].prio
                    == other@.nodes[d].prio && r@.nodes[d + self.slot_count()].gen
                    == other@.nodes[d].gen,
            r@.drained(r@.nodes.len()) == sort_merge(
                self@.drained(self@.nodes.len()),
                other@.drained(other@.nodes.len()),
            ),
            forall|x: HeapElmt| self.live(x) ==> #[trigger] r.live(x),
            forall|x: HeapElmt| self.retired(x) ==> #[trigger] r.retired(x),
    {
        let mut a = self;
        let mut b = other;
        let ghost ma = self.model@;
        let ghost mb = other.model@;
        let ghost bs = other.slots@;
        let ghost bf = other.free@;
        let off = a.slots.len();
        let n = b.slots.len();
        let mut i: usize = 0;
        while i < n
            invariant
                0 <= i <= n,
                n == bs.len(),
                off + n <= usize::MAX,
                off == self.slots@.len(),
                b.slots@.len() == n,
                b.free@ == bf,
                b.root == other.root,
                b.len == other.len,
                a.slots@.len() == off + i,
                a.free@ == self.free@,
                a.len == self.len,
                a.root == self.root,
                a.model@ == ma,
                forall|k: int| 0 <= k < off ==> #[trigger] a.slots@[k] == self.slots@[k],
                forall|k: int| i <= k < n ==> #[trigger] b.slots@[k] == bs[k],
                forall|k: int| 0 <= k < i ==> #[trigger] a.slots@[off + k] == raised_slot(bs[k], off),
            decreases n - i,
        {
            let gen = b.slots[i].gen;
            let parent = raise(b.slots[i].parent, off);
            let left = raise(b.slots[i].left, off);
            let right = raise(b.slots[i].right, off);
            let item = b.slots[i].item.take();
            a.slots.push(Slot { gen, parent, left, right, item });
            i = i + 1;
        }
        let fl = b.free.len();
        let mut j: usize = 0;
        proof {
            assert(other.arena_ok());
        }
        while j < fl
            invariant
                0 <= j <= fl,
                fl == bf.len(),
                b.free@ == bf,
                off + n <= usize::MAX,
                forall|k: int| 0 <= k < bf.len() ==> (#[trigger] bf[k]) < n,
                a.slots@.len() == off + n,
                a.len == self.len,
                a.root == self.root,
                a.model@ == ma,
                a.free@.len() == self.free@.len() + j,
                forall|k: int| 0 <= k < self.free@.len() ==> #[trigger] a.free@[k] == self.free@[k],
                forall|k: int|
                    0 <= k < j ==> (#[trigger] a.free@[self.free@.len() + k]) == bf[k] + off,
                forall|k: int| 0 <= k < off ==> #[trigger] a.slots@[k] == self.slots@[k],
                forall|k: int| 0 <= k < n ==> #[trigger] a.slots@[off + k] == raised_slot(bs[k], off),
            decreases fl - j,
        {
            let v = b.free[j];
            a.free.push(v + off);
            j = j + 1;
        }
        proof {
            assert(self.arena_ok());
        }
        a.len = a.len + b.len;
        a.model = Ghost(ma.join(mb, off as int));
        proof {
            assert forall|k: int| 0 <= k < bf.len() implies (#[trigger] a.free@[self.free@.len() + k])
                == bf[k] + off by {}
            Self::lemma_appended(a, self, other);
            ma.lemma_join(mb, off as int);
            ma.lemma_absorb(mb, off as int);
            merged_drain(ma, mb, off as int);
        }
        let ghost joined = a;
        let ghost melded = a;
        proof {
            assert forall|x: HeapElmt| self.retired(x) implies joined.retired(x) by {
                assert(joined.slots@[x.slot as int] == self.slots@[x.slot as int]);
                if joined.free@.contains(x.slot) {
                    let j = choose|j: int| 0 <= j < joined.free@.len() && joined.free@[j] == x.slot;
                    if j < self.free@.len() {
                        assert(joined.free@[j] == self.free@[j]);
                    } else {
                        let t = j - self.free@.len();
                        assert(joined.free@[self.free@.len() + t] == bf[t] + off);
                    }
                }
            }
        }
        match (a.root, b.root) {
            (Some(x), Some(y)) => {
                proof {
                    assert(mb.nodes.contains_key(y as int));
                    assert(a.slots@[off + y] == raised_slot(bs[y as int], off));
                    assert(a.model@.is_root(x as int));
                    assert(a.model@.is_root(y + off));
                }
                let w = a.meld(y + off, x);
                proof {
                    melded = a;
                }
                a.set_root(Some(w));
            },
            (None, Some(y)) => {
                proof {
                    assert(mb.nodes.contains_key(y as int));
                    assert(a.slots@[off + y] == raised_slot(bs[y as int], off));
                }
                a.set_root(Some(y + off));
            },
            _ => {},
        }
        proof {
            melded.lemma_same_retired(&joined);
            a.lemma_same_retired(&melded);
            assert forall|x: HeapElmt| self.live(x) implies #[trigger] a.live(x) by {
                let d = x@.unwrap().0;
                assert(ma.nodes.contains_key(d));
                assert(ma.nodes.dom().union(mb.nodes.dom().map(|y: int| y + off)).contains(d));
                assert(a.model@.nodes.contains_key(d));
            }
        }
        a
    }

    /// Decreases the priority of a key by the amount given in `delta`. The
    /// slots are searched in order and the first key that matches is taken.
    pub fn decrease_prio(&mut self, key: &K, delta: P) where K: PartialEq
        requires
            old(self).wf(),
        ensures
            final(self).wf(),
            final(self).slot_count() == old(self).slot_count(),
            K::obeys_eq_spec() ==> final(self)@ == old(self)@.lower_key(*key, delta),
            final(self)@.nodes.len() == old(self)@.nodes.len(),
            forall|x: HeapElmt| old(self).retired(x) == #[trigger] final(self).retired(x),
            forall|x: HeapElmt| old(self).live(x) == #[trigger] final(self).live(x),
    {
        let ghost m0 = self.model@;
        let n = self.slots.len();
        let mut i: usize = 0;
        let mut found: Option<usize> = None;
        while i < n && found.is_none()
            invariant
                *self == *old(self),
                self.arena_ok(),
                m0 == self.model@,
                n == self.slots@.len(),
                0 <= i <= n,
                found.is_none() && K::obeys_eq_spec() ==> forall|j: int| #[trigger]
                    m0.nodes.contains_key(j) && j < i ==> !m0.nodes[j].key.eq_spec(key),
                found matches Some(f) ==> m0.nodes.contains_key(f as int) && (K::obeys_eq_spec()
                    ==> m0.first_with(*key, f as int)),
            decreases n - i + if found.is_none() { 1int } else { 0int },
        {
            proof {
                if m0.nodes.contains_key(i as int) {
                    assert(self.slot_ok(i as int));
                }
            }
            let hit = match &self.slots[i].item {
                Some(inner) => same_key(&inner.key, key),
                None => false,
            };
            if hit {
                found = Some(i);
            } else {
                i = i + 1;
            }
        }
        match found {
            None => {
                proof {
                    if K::obeys_eq_spec() {
                        assert forall|x: int| !m0.first_with(*key, x) by {}
                        assert(m0.find(*key).is_none());
                    }
                }
            },
            Some(f) => {
                proof {
                    assert(self.slot_ok(f as int));
                    if K::obeys_eq_spec() {
                        let c = choose|x: int| m0.first_with(*key, x);
                        assert(m0.first_with(*key, c));
                        assert(c == f as int);
                        assert(m0.find(*key) == Some(f as int));
                    }
                }
                let np = match &self.slots[f].item {
                    Some(inner) => inner.prio.lower(&delta),
                    None => None,
                };
                match np {
                    Some(p) => {
                        proof {
                            m0.lemma_lower(f as int, p);
                        }
                        self.lower(f, p);
                        proof {
                            self.lemma_same_retired(old(self));
                            assert forall|x: HeapElmt| old(self).live(x) == #[trigger] self.live(
                                x,
                            ) by {
                                if old(self).live(x) {
                                    assert(self.model@.nodes.contains_key(x@.unwrap().0));
                                }
                                if self.live(x) {
                                    assert(m0.nodes.contains_key(x@.unwrap().0));
                                }
                            }
                        }
                    },
                    None => {},
                }
            },
        }
    }
}

impl<K, P: Prio> Default for PairingHeap<K, P> {
    /// Creates an empty pairing heap.
    fn default() -> (h: Self)
        ensures
            h.wf(),
            h@.root.is_none(),
            h@.nodes == Map::<int, crate::model::NodeModel<K, P>>::empty(),
    {
        PairingHeap::new()
    }
}

/// Whether two keys are equal.
fn same_key<K: PartialEq>(a: &K, b: &K) -> (r: bool)
    ensures
        K::obeys_eq_spec() ==> r == a.eq_spec(b),
{
    a == b
}

} // verus!
