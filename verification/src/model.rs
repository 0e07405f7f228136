//! The mathematical model of a pairing heap: a forest of multiway trees over
//! integer node ids, with one tree singled out as the heap.
use vstd::prelude::*;
use crate::prio::Prio;
use vstd::std_specs::cmp::PartialEqSpec;

verus! {

/// One node of the model.
pub struct NodeModel<K, P> {
    /// The user's key.
    pub key: K,
    /// The priority the node is ordered by.
    pub prio: P,
    /// The generation of the slot: a handle is live only while it carries this number.
    pub gen: u64,
    /// The parent, absent for the root of a tree.
    pub parent: Option<int>,
    /// The children, youngest first.
    pub kids: Seq<int>,
    /// The ancestors, from the root of the tree down to the parent.
    pub anc: Seq<int>,
}

/// A forest of heap-ordered trees and the root of the one that is the heap.
pub struct HeapModel<K, P> {
    /// The minimum node, absent when the heap is empty.
    pub root: Option<int>,
    /// The nodes, by id.
    pub nodes: Map<int, NodeModel<K, P>>,
}

impl<K, P: Prio> HeapModel<K, P> {
    /// `i` is a node of the forest.
    #[verifier::inline]
    pub open spec fn has(self, i: int) -> bool {
        self.nodes.contains_key(i)
    }

    /// The rank of the priority of node `i`.
    #[verifier::inline]
    pub open spec fn rank(self, i: int) -> int {
        self.nodes[i].prio.rank()
    }

    /// The root of the tree that holds `i`.
    pub open spec fn top(self, i: int) -> int {
        if self.nodes[i].anc.len() == 0 {
            i
        } else {
            self.nodes[i].anc[0]
        }
    }

    /// `i` is the root of a tree.
    pub open spec fn is_root(self, i: int) -> bool {
        self.nodes.contains_key(i) && self.nodes[i].parent.is_none()
    }

    /// Every ancestor listed for `d` is a node whose own ancestors are those
    /// listed before it, and the last of them is the parent.
    pub open spec fn anc_ok(self, d: int) -> bool {
        let n = self.nodes[d];
        &&& forall|k: int|
            0 <= k < n.anc.len() ==> self.nodes.contains_key(#[trigger] n.anc[k])
                && self.nodes[n.anc[k]].anc == n.anc.take(k)
        &&& n.parent == if n.anc.len() == 0 {
            None
        } else {
            Some(n.anc.last())
        }
    }

    /// The children of `d` are different nodes with `d` as their parent.
    pub open spec fn kids_ok(self, d: int) -> bool {
        let n = self.nodes[d];
        &&& n.kids.no_duplicates()
        &&& forall|j: int|
            0 <= j < n.kids.len() ==> self.nodes.contains_key(#[trigger] n.kids[j])
                && self.nodes[n.kids[j]].parent == Some(d)
    }

    /// The parent of `d` is a node that lists `d` as a child and does not rank above it.
    pub open spec fn up_ok(self, d: int) -> bool {
        self.nodes[d].parent matches Some(p) ==> self.nodes.contains_key(p)
            && self.nodes[p].kids.contains(d) && self.rank(p) <= self.rank(d)
    }

    /// What the forest asks of one node.
    pub open spec fn node_ok(self, d: int) -> bool {
        self.anc_ok(d) && self.kids_ok(d) && self.up_ok(d)
    }

    /// Every tree of the forest is a heap-ordered tree: child lists and parent
    /// links agree, no node is its own ancestor, and no child ranks below its parent.
    #[verifier::opaque]
    pub open spec fn forest(self) -> bool {
        &&& self.nodes.dom().finite()
        &&& forall|d: int| self.nodes.contains_key(d) ==> #[trigger] self.node_ok(d)
    }

    /// The forest is one tree (or empty) and `root` is its root.
    pub open spec fn wf(self) -> bool {
        &&& self.forest()
        &&& match self.root {
            None => self.nodes.dom() =~= Set::empty(),
            Some(r) => self.is_root(r) && forall|d: int| #[trigger]
                self.nodes.contains_key(d) ==> self.top(d) == r,
        }
    }

    /// Makes the root `c` the youngest child of the root `p`.
    #[verifier::opaque]
    pub open spec fn link(self, p: int, c: int) -> Self {
        HeapModel {
            root: self.root,
            nodes: Map::new(
                |d: int| self.nodes.contains_key(d),
                |d: int|
                    if d == p {
                        NodeModel { kids: seq![c] + self.nodes[p].kids, ..self.nodes[p] }
                    } else if self.top(d) == c {
                        NodeModel {
                            parent: if d == c {
                                Some(p)
                            } else {
                                self.nodes[d].parent
                            },
                            anc: seq![p] + self.nodes[d].anc,
                            ..self.nodes[d]
                        }
                    } else {
                        self.nodes[d]
                    },
            ),
        }
    }

    /// Which of two roots stays a root when they are melded: `a` where it ranks
    /// strictly below `b`, else `b`.
    pub open spec fn winner(self, a: int, b: int) -> int {
        if self.rank(a) < self.rank(b) {
            a
        } else {
            b
        }
    }

    /// Which of two roots becomes a child when they are melded.
    pub open spec fn loser(self, a: int, b: int) -> int {
        if self.rank(a) < self.rank(b) {
            b
        } else {
            a
        }
    }

    /// Melds the trees rooted at `a` and `b` into one tree.
    pub open spec fn meld(self, a: int, b: int) -> Self {
        self.link(self.winner(a, b), self.loser(a, b))
    }

    /// What `link` keeps: a forest stays a forest.
    pub proof fn lemma_link(self, p: int, c: int)
        requires
            self.forest(),
            self.is_root(p),
            self.is_root(c),
            p != c,
            self.rank(p) <= self.rank(c),
        ensures
            self.link(p, c).forest(),
            self.link(p, c).nodes.dom() == self.nodes.dom(),
            forall|d: int| #[trigger]
                self.nodes.contains_key(d) ==> self.link(p, c).top(d) == if self.top(d) == c {
                    p
                } else {
                    self.top(d)
                },
    {
        reveal(HeapModel::link);
        reveal(HeapModel::forest);
        let m = self.link(p, c);
        assert(m.nodes.dom() =~= self.nodes.dom());
        assert(self.node_ok(p) && self.node_ok(c));
        assert(self.nodes[p].anc.len() == 0);
        assert(self.nodes[c].anc.len() == 0);
        assert(self.top(p) == p && self.top(c) == c);
        assert forall|d: int| m.nodes.contains_key(d) implies #[trigger] m.node_ok(d) by {
            assert(self.node_ok(d));
            let n = self.nodes[d];
            let n2 = m.nodes[d];
            // ancestors
            assert forall|k: int| 0 <= k < n2.anc.len() implies m.nodes.contains_key(
                #[trigger] n2.anc[k],
            ) && m.nodes[n2.anc[k]].anc == n2.anc.take(k) by {
                if d != p && self.top(d) == c {
                    if k == 0 {
                        assert(n2.anc[0] == p);
                        assert(m.nodes[p].anc =~= n2.anc.take(0));
                    } else {
                        let x = n.anc[k - 1];
                        assert(n2.anc[k] == x);
                        assert(self.nodes[x].anc == n.anc.take(k - 1));
                        if k - 1 > 0 {
                            assert(n.anc.take(k - 1)[0] == n.anc[0]);
                        }
                        assert(self.top(x) == c);
                        assert(x != p);
                        assert(m.nodes[x].anc =~= n2.anc.take(k));
                    }
                } else {
                    let x = n.anc[k];
                    assert(n2.anc == n.anc);
                    assert(self.nodes[x].anc == n.anc.take(k));
                    if k > 0 {
                        assert(n.anc.take(k)[0] == n.anc[0]);
                    }
                    assert(self.top(x) == self.top(d));
                    if x == p {
                    } else {
                        assert(self.top(x) != c);
                    }
                    assert(m.nodes[x].anc == self.nodes[x].anc);
                }
            }
            // children
            if d == p {
                assert(!n.kids.contains(c)) by {
                    if n.kids.contains(c) {
                        let j = choose|j: int| 0 <= j < n.kids.len() && n.kids[j] == c;
                        assert(self.nodes[n.kids[j]].parent == Some(d));
                    }
                }
                assert(n2.kids.no_duplicates()) by {
                    assert forall|i: int, j: int|
                        0 <= i < n2.kids.len() && 0 <= j < n2.kids.len() && i != j implies n2.kids[i]
                        != n2.kids[j] by {
                        if i > 0 && j > 0 {
                            assert(n.kids[i - 1] != n.kids[j - 1]);
                        } else if i > 0 {
                            assert(n.kids.contains(n.kids[i - 1]));
                        } else {
                            assert(n.kids.contains(n.kids[j - 1]));
                        }
                    }
                }
            }
            assert forall|j: int| 0 <= j < n2.kids.len() implies m.nodes.contains_key(
                #[trigger] n2.kids[j],
            ) && m.nodes[n2.kids[j]].parent == Some(d) by {
                if d == p {
                    if j > 0 {
                        let x = n.kids[j - 1];
                        assert(n2.kids[j] == x);
                        assert(self.nodes[x].parent == Some(d));
                        assert(x != c);
                    }
                } else {
                    let x = n.kids[j];
                    assert(self.nodes[x].parent == Some(d));
                    assert(x != c && x != p);
                }
            }
            // upward
            if let Some(q) = n2.parent {
                if d == c {
                    assert(q == p);
                    assert(m.nodes[p].kids[0] == c);
                } else {
                    assert(n.parent == Some(q));
                    assert(self.nodes[q].kids.contains(d));
                    if q == p {
                        let j = choose|j: int|
                            0 <= j < self.nodes[q].kids.len() && self.nodes[q].kids[j] == d;
                        assert(m.nodes[q].kids[j + 1] == d);
                    } else {
                        assert(m.nodes[q].kids == self.nodes[q].kids);
                    }
                }
            }
        }
    }

    /// The two forests hold the same nodes with the same keys, priorities and generations.
    pub open spec fn same_entries(self, o: Self) -> bool {
        &&& self.nodes.dom() == o.nodes.dom()
        &&& forall|d: int| #[trigger]
            self.nodes.contains_key(d) ==> self.nodes[d].key == o.nodes[d].key && self.nodes[d].prio
                == o.nodes[d].prio && self.nodes[d].gen == o.nodes[d].gen
    }

    /// The members of `s` are distinct roots.
    pub open spec fn roots(self, s: Seq<int>) -> bool {
        &&& s.no_duplicates()
        &&& forall|j: int| 0 <= j < s.len() ==> self.is_root(#[trigger] s[j])
    }

    /// What `meld` keeps and what it changes.
    pub proof fn lemma_meld(self, a: int, b: int)
        requires
            self.forest(),
            self.is_root(a),
            self.is_root(b),
            a != b,
        ensures
            self.meld(a, b).forest(),
            self.meld(a, b).same_entries(self),
            self.meld(a, b).is_root(self.winner(a, b)),
            forall|x: int|
                self.is_root(x) && x != self.loser(a, b) <==> #[trigger] self.meld(a, b).is_root(x),
            forall|d: int| #[trigger]
                self.nodes.contains_key(d) ==> self.meld(a, b).top(d) == if self.top(d)
                    == self.loser(a, b) {
                    self.winner(a, b)
                } else {
                    self.top(d)
                },
    {
        reveal(HeapModel::link);
        reveal(HeapModel::forest);
        let w = self.winner(a, b);
        let l = self.loser(a, b);
        self.lemma_link(w, l);
        assert(self.node_ok(w) && self.node_ok(l));
        assert(self.top(w) == w && self.top(l) == l);
        assert(self.meld(a, b).nodes.dom() =~= self.nodes.dom());
    }

    /// The first pass of a deletion: melds the roots of `s` in adjacent pairs,
    /// from the left; an odd one at the end is carried over. Returns the forest
    /// and the roots that are left, in order.
    pub open spec fn pair_up(self, s: Seq<int>) -> (Self, Seq<int>)
        decreases s.len(),
    {
        if s.len() < 2 {
            (self, s)
        } else {
            let r = self.meld(s[0], s[1]).pair_up(s.skip(2));
            (r.0, seq![self.winner(s[0], s[1])] + r.1)
        }
    }

    /// The second pass of a deletion: starting from the last root of `s`, melds
    /// each root to the left into the one accumulated so far. Returns the forest
    /// and the one root that is left.
    pub open spec fn fold_back(self, s: Seq<int>) -> (Self, int)
        decreases s.len(),
    {
        if s.len() < 2 {
            (self, s[0])
        } else {
            let n = s.len() as int;
            self.meld(s[n - 1], s[n - 2]).fold_back(
                s.take(n - 2).push(self.winner(s[n - 1], s[n - 2])),
            )
        }
    }

    /// The first pass keeps a forest, keeps every entry, and leaves distinct
    /// roots that between them top every tree that a root of `s` topped.
    pub proof fn lemma_pair_up(self, s: Seq<int>)
        requires
            self.forest(),
            self.roots(s),
        ensures
            self.pair_up(s).0.forest(),
            self.pair_up(s).0.same_entries(self),
            self.pair_up(s).0.roots(self.pair_up(s).1),
            self.pair_up(s).1.len() == (s.len() + 1) / 2,
            forall|j: int|
                0 <= j < self.pair_up(s).1.len() ==> s.contains(#[trigger] self.pair_up(s).1[j]),
            forall|x: int|
                self.is_root(x) && !s.contains(x) ==> #[trigger] self.pair_up(s).0.is_root(x),
            forall|d: int|
                self.nodes.contains_key(d) ==> if s.contains(self.top(d)) {
                    self.pair_up(s).1.contains(#[trigger] self.pair_up(s).0.top(d))
                } else {
                    self.pair_up(s).0.top(d) == self.top(d)
                },
        decreases s.len(),
    {
        if s.len() < 2 {
        } else {
            let a = s[0];
            let b = s[1];
            let w = self.winner(a, b);
            let l = self.loser(a, b);
            let m = self.meld(a, b);
            let t = s.skip(2);
            self.lemma_meld(a, b);
            assert(s.contains(a) && s.contains(b));
            assert forall|j: int| 0 <= j < t.len() implies m.is_root(#[trigger] t[j]) by {
                assert(t[j] == s[j + 2]);
                assert(self.is_root(s[j + 2]));
            }
            assert(t.no_duplicates());
            m.lemma_pair_up(t);
            let r = m.pair_up(t);
            let out = seq![w] + r.1;
            assert(self.pair_up(s).1 == out);
            assert(!t.contains(w)) by {
                if t.contains(w) {
                    let j = choose|j: int| 0 <= j < t.len() && t[j] == w;
                    assert(s[j + 2] == w);
                }
            }
            assert(!t.contains(l)) by {
                if t.contains(l) {
                    let j = choose|j: int| 0 <= j < t.len() && t[j] == l;
                    assert(s[j + 2] == l);
                }
            }
            assert forall|x: int| t.contains(x) implies s.contains(x) by {
                let j = choose|j: int| 0 <= j < t.len() && t[j] == x;
                assert(s[j + 2] == x);
            }
            assert forall|j: int| 0 <= j < out.len() implies s.contains(#[trigger] out[j]) by {
                if j > 0 {
                    assert(out[j] == r.1[j - 1]);
                    assert(t.contains(r.1[j - 1]));
                }
            }
            assert(m.is_root(w) && !t.contains(w));
            assert(r.0.is_root(w));
            assert(out.no_duplicates()) by {
                assert forall|i: int, j: int|
                    0 <= i < out.len() && 0 <= j < out.len() && i != j implies out[i] != out[j] by {
                    if i > 0 && j > 0 {
                        assert(r.1[i - 1] != r.1[j - 1]);
                    } else if i > 0 {
                        assert(t.contains(r.1[i - 1]));
                    } else {
                        assert(t.contains(r.1[j - 1]));
                    }
                }
            }
            assert forall|j: int| 0 <= j < out.len() implies r.0.is_root(#[trigger] out[j]) by {
                if j > 0 {
                    assert(out[j] == r.1[j - 1]);
                }
            }
            assert forall|x: int| self.is_root(x) && !s.contains(x) implies #[trigger] r.0.is_root(
                x,
            ) by {
                assert(x != l);
                assert(m.is_root(x));
                if t.contains(x) {
                    assert(s.contains(x));
                }
            }
            assert forall|d: int| self.nodes.contains_key(d) implies if s.contains(self.top(d)) {
                out.contains(#[trigger] r.0.top(d))
            } else {
                r.0.top(d) == self.top(d)
            } by {
                assert(m.nodes.contains_key(d));
                let td = self.top(d);
                if s.contains(td) {
                    let j = choose|j: int| 0 <= j < s.len() && s[j] == td;
                    if j >= 2 {
                        assert(t[j - 2] == td);
                        assert(t.contains(m.top(d)));
                        let k = choose|k: int| 0 <= k < r.1.len() && r.1[k] == r.0.top(d);
                        assert(out[k + 1] == r.0.top(d));
                    } else {
                        assert(m.top(d) == w);
                        assert(r.0.top(d) == w);
                        assert(out[0] == w);
                    }
                } else {
                    assert(td != l);
                    assert(m.top(d) == td);
                    if t.contains(td) {
                        assert(s.contains(td));
                    }
                }
            }
        }
    }

    /// The second pass keeps a forest, keeps every entry, and leaves one root
    /// that tops every tree that a root of `s` topped.
    pub proof fn lemma_fold_back(self, s: Seq<int>)
        requires
            self.forest(),
            self.roots(s),
            s.len() >= 1,
        ensures
            self.fold_back(s).0.forest(),
            self.fold_back(s).0.same_entries(self),
            self.fold_back(s).0.is_root(self.fold_back(s).1),
            s.contains(self.fold_back(s).1),
            forall|d: int|
                self.nodes.contains_key(d) ==> #[trigger] self.fold_back(s).0.top(d)
                    == if s.contains(self.top(d)) {
                    self.fold_back(s).1
                } else {
                    self.top(d)
                },
        decreases s.len(),
    {
        if s.len() < 2 {
            assert(s[0] == self.fold_back(s).1);
            assert forall|d: int| self.nodes.contains_key(d) && s.contains(
                #[trigger] self.top(d),
            ) implies self.top(d) == s[0] by {
                let j = choose|j: int| 0 <= j < s.len() && s[j] == self.top(d);
            }
        } else {
            let n = s.len() as int;
            let a = s[n - 1];
            let b = s[n - 2];
            let w = self.winner(a, b);
            let l = self.loser(a, b);
            let m = self.meld(a, b);
            let t = s.take(n - 2).push(w);
            self.lemma_meld(a, b);
            assert(s.contains(a) && s.contains(b));
            assert(t.no_duplicates()) by {
                assert forall|i: int, j: int|
                    0 <= i < t.len() && 0 <= j < t.len() && i != j implies t[i] != t[j] by {
                    if i < n - 2 && j < n - 2 {
                        assert(s[i] != s[j]);
                    }
                }
            }
            assert forall|j: int| 0 <= j < t.len() implies m.is_root(#[trigger] t[j]) by {
                if j < n - 2 {
                    assert(t[j] == s[j]);
                    assert(self.is_root(s[j]));
                }
            }
            m.lemma_fold_back(t);
            let r = m.fold_back(t);
            assert(self.fold_back(s) == r);
            assert forall|x: int| t.contains(x) implies s.contains(x) by {
                let j = choose|j: int| 0 <= j < t.len() && t[j] == x;
                if j < n - 2 {
                    assert(s[j] == x);
                }
            }
            assert(!t.contains(l)) by {
                if t.contains(l) {
                    let j = choose|j: int| 0 <= j < t.len() && t[j] == l;
                    if j < n - 2 {
                        assert(s[j] == l);
                    }
                }
            }
            assert forall|d: int| self.nodes.contains_key(d) implies #[trigger] r.0.top(d)
                == if s.contains(self.top(d)) {
                r.1
            } else {
                self.top(d)
            } by {
                assert(m.nodes.contains_key(d));
                let td = self.top(d);
                if s.contains(td) {
                    let j = choose|j: int| 0 <= j < s.len() && s[j] == td;
                    if j < n - 2 {
                        assert(t[j] == td);
                        assert(t.contains(m.top(d)));
                    } else {
                        assert(m.top(d) == w);
                        assert(t[n - 2] == w);
                        assert(t.contains(m.top(d)));
                    }
                } else {
                    assert(td != l);
                    if t.contains(td) {
                        assert(s.contains(td));
                    }
                }
            }
        }
    }

    /// No node ranks below any of its ancestors.
    pub proof fn lemma_anc_le(self, d: int, k: int)
        requires
            self.forest(),
            self.has(d),
            0 <= k < self.nodes[d].anc.len(),
        ensures
            self.has(self.nodes[d].anc[k]),
            self.rank(self.nodes[d].anc[k]) <= self.rank(d),
        decreases self.nodes[d].anc.len(),
    {
        reveal(HeapModel::forest);
        let n = self.nodes[d];
        assert(self.node_ok(d));
        let p = n.anc.last();
        if k < n.anc.len() - 1 {
            assert(self.nodes.contains_key(n.anc[n.anc.len() - 1]));
            assert(self.nodes[p].anc == n.anc.take(n.anc.len() - 1));
            self.lemma_anc_le(p, k);
        }
    }

    /// The root of a well-formed heap ranks lowest.
    pub proof fn lemma_root_min(self)
        requires
            self.wf(),
            self.root.is_some(),
        ensures
            forall|d: int| #[trigger]
                self.nodes.contains_key(d) ==> self.rank(self.root.unwrap()) <= self.rank(d),
    {
        assert forall|d: int| #[trigger] self.nodes.contains_key(d) implies self.rank(
            self.root.unwrap(),
        ) <= self.rank(d) by {
            assert(self.top(d) == self.root.unwrap());
            if self.nodes[d].anc.len() > 0 {
                self.lemma_anc_le(d, 0);
            }
        }
    }

    /// Adds a node without parent or children.
    pub open spec fn add_leaf(self, i: int, key: K, prio: P, gen: u64) -> Self {
        HeapModel {
            root: self.root,
            nodes: self.nodes.insert(
                i,
                NodeModel { key, prio, gen, parent: None, kids: Seq::empty(), anc: Seq::empty() },
            ),
        }
    }

    /// The same forest with another root.
    pub open spec fn rooted(self, root: Option<int>) -> Self {
        HeapModel { root, nodes: self.nodes }
    }

    /// Which node is called the root does not matter to the forest.
    pub proof fn lemma_rooted(self, root: Option<int>)
        requires
            self.forest(),
        ensures
            self.rooted(root).forest(),
    {
        reveal(HeapModel::forest);
        let m = self.rooted(root);
        assert forall|d: int| m.nodes.contains_key(d) implies #[trigger] m.node_ok(d) by {
            assert(self.node_ok(d));
        }
    }

    /// Insertion: the new node is melded with the root, the root first, so that
    /// on equal ranks the new node becomes the root.
    pub open spec fn push(self, i: int, key: K, prio: P, gen: u64) -> Self {
        let m = self.add_leaf(i, key, prio, gen);
        match self.root {
            None => m.rooted(Some(i)),
            Some(r) => m.meld(r, i).rooted(Some(m.winner(r, i))),
        }
    }

    /// A new leaf is a tree of its own and changes no other node.
    pub proof fn lemma_add_leaf(self, i: int, key: K, prio: P, gen: u64)
        requires
            self.forest(),
            !self.has(i),
        ensures
            self.add_leaf(i, key, prio, gen).forest(),
            self.add_leaf(i, key, prio, gen).is_root(i),
            self.add_leaf(i, key, prio, gen).top(i) == i,
            forall|d: int| #[trigger]
                self.nodes.contains_key(d) ==> self.add_leaf(i, key, prio, gen).top(d) == self.top(
                    d,
                ) && self.add_leaf(i, key, prio, gen).nodes[d] == self.nodes[d],
    {
        reveal(HeapModel::forest);
        let m = self.add_leaf(i, key, prio, gen);
        assert forall|d: int| m.nodes.contains_key(d) implies #[trigger] m.node_ok(d) by {
            if d != i {
                assert(self.node_ok(d));
                let n = self.nodes[d];
                assert forall|k: int| 0 <= k < n.anc.len() implies m.nodes.contains_key(
                    #[trigger] n.anc[k],
                ) && m.nodes[n.anc[k]].anc == n.anc.take(k) by {
                    assert(self.nodes.contains_key(n.anc[k]));
                }
                assert forall|j: int| 0 <= j < n.kids.len() implies m.nodes.contains_key(
                    #[trigger] n.kids[j],
                ) && m.nodes[n.kids[j]].parent == Some(d) by {
                    assert(self.nodes.contains_key(n.kids[j]));
                }
            }
        }
    }

    /// Insertion keeps a heap well formed, adds the one node, and changes no
    /// entry of another.
    pub proof fn lemma_push(self, i: int, key: K, prio: P, gen: u64)
        requires
            self.wf(),
            !self.has(i),
        ensures
            self.push(i, key, prio, gen).wf(),
            self.push(i, key, prio, gen).nodes.dom() == self.nodes.dom().insert(i),
            self.push(i, key, prio, gen).nodes[i].key == key,
            self.push(i, key, prio, gen).nodes[i].prio == prio,
            self.push(i, key, prio, gen).nodes[i].gen == gen,
            forall|d: int| #[trigger]
                self.nodes.contains_key(d) ==> self.push(i, key, prio, gen).nodes[d].key
                    == self.nodes[d].key && self.push(i, key, prio, gen).nodes[d].prio
                    == self.nodes[d].prio && self.push(i, key, prio, gen).nodes[d].gen
                    == self.nodes[d].gen,
    {
        let m = self.add_leaf(i, key, prio, gen);
        self.lemma_add_leaf(i, key, prio, gen);
        assert(m.nodes.dom() =~= self.nodes.dom().insert(i));
        match self.root {
            None => {
                m.lemma_rooted(Some(i));
                assert(self.nodes.dom() =~= Set::empty());
                assert forall|d: int| #[trigger] m.nodes.contains_key(d) implies m.top(d) == i by {
                    assert(d == i || self.nodes.contains_key(d));
                }
            },
            Some(r) => {
                assert(m.is_root(r));
                m.lemma_meld(r, i);
                let m2 = m.meld(r, i);
                let w = m.winner(r, i);
                m2.lemma_rooted(Some(w));
                assert forall|d: int| #[trigger] m2.nodes.contains_key(d) implies m2.top(d)
                    == w by {
                    assert(m.nodes.contains_key(d));
                    if d != i {
                        assert(self.nodes.contains_key(d));
                        assert(self.top(d) == r);
                    }
                }
                assert forall|d: int| #[trigger] self.nodes.contains_key(d) implies m2.nodes[d].key
                    == self.nodes[d].key && m2.nodes[d].prio == self.nodes[d].prio
                    && m2.nodes[d].gen == self.nodes[d].gen by {
                    assert(m2.nodes.contains_key(d));
                }
                assert(m2.nodes.contains_key(i));
            },
        }
    }

    /// The forest without the root `r`: the children of `r` become roots.
    #[verifier::opaque]
    pub open spec fn detach(self, r: int) -> Self {
        HeapModel {
            root: None,
            nodes: Map::new(
                |d: int| self.nodes.contains_key(d) && d != r,
                |d: int|
                    NodeModel {
                        parent: if self.nodes[d].parent == Some(r) {
                            None
                        } else {
                            self.nodes[d].parent
                        },
                        anc: self.nodes[d].anc.skip(1),
                        ..self.nodes[d]
                    },
            ),
        }
    }

    /// Deletion of the root by the two-pass scheme: the children are paired up
    /// from the left, then the pairs are folded from the right.
    pub open spec fn pop(self) -> Self {
        let r = self.root.unwrap();
        let s = self.nodes[r].kids;
        let d = self.detach(r);
        if s.len() == 0 {
            d
        } else {
            let p = d.pair_up(s);
            let f = p.0.fold_back(p.1);
            f.0.rooted(Some(f.1))
        }
    }

    /// Without its root a heap is a forest whose roots are the children of
    /// the root, and no other entry has changed.
    pub proof fn lemma_detach(self, r: int)
        requires
            self.wf(),
            self.root == Some(r),
        ensures
            self.detach(r).forest(),
            self.detach(r).root.is_none(),
            self.detach(r).nodes.dom() == self.nodes.dom().remove(r),
            self.detach(r).roots(self.nodes[r].kids),
            forall|d: int|
                self.detach(r).nodes.contains_key(d) ==> self.nodes[r].kids.contains(
                    #[trigger] self.detach(r).top(d),
                ),
            forall|d: int| #[trigger]
                self.detach(r).nodes.contains_key(d) ==> self.detach(r).nodes[d].key
                    == self.nodes[d].key && self.detach(r).nodes[d].prio == self.nodes[d].prio
                    && self.detach(r).nodes[d].gen == self.nodes[d].gen,
    {
        reveal(HeapModel::forest);
        reveal(HeapModel::detach);
        let m = self.detach(r);
        let ks = self.nodes[r].kids;
        assert(m.nodes.dom() =~= self.nodes.dom().remove(r));
        assert(self.node_ok(r));
        assert(self.nodes[r].anc.len() == 0);
        // every other node sits below the root
        assert forall|d: int| #[trigger] m.nodes.contains_key(d) implies self.nodes[d].anc.len() > 0
            && self.nodes[d].anc[0] == r by {
            assert(self.nodes.contains_key(d));
            assert(self.top(d) == r);
        }
        assert forall|d: int| m.nodes.contains_key(d) implies #[trigger] m.node_ok(d) && ks.contains(m.top(d)) by {
            assert(self.nodes.contains_key(d));
            assert(self.node_ok(d));
            let n = self.nodes[d];
            let n2 = m.nodes[d];
            assert forall|k: int| 0 <= k < n2.anc.len() implies m.nodes.contains_key(
                #[trigger] n2.anc[k],
            ) && m.nodes[n2.anc[k]].anc == n2.anc.take(k) by {
                let x = n.anc[k + 1];
                assert(n2.anc[k] == x);
                assert(self.nodes.contains_key(x));
                assert(self.nodes[x].anc == n.anc.take(k + 1));
                assert(x != r);
                assert(m.nodes[x].anc =~= n2.anc.take(k));
            }
            if n.anc.len() == 1 {
                assert(n.parent == Some(r));
                assert(n2.anc.len() == 0);
                assert(m.top(d) == d);
                assert(ks.contains(d));
            } else {
                let q = n.anc.last();
                assert(self.nodes.contains_key(n.anc[n.anc.len() - 1]));
                assert(self.nodes[q].anc == n.anc.take(n.anc.len() - 1));
                assert(q != r);
                assert(n2.anc.last() == q);
                assert(n2.parent == Some(q));
                assert(m.nodes[q].kids == self.nodes[q].kids);
                // the top of d is the node just below the old root
                let t = n.anc[1];
                assert(m.top(d) == t);
                assert(self.nodes.contains_key(t));
                assert(self.nodes[t].anc == n.anc.take(1));
                assert(self.node_ok(t));
                assert(self.nodes[t].anc.last() == r);
                assert(ks.contains(t));
            }
            assert forall|j: int| 0 <= j < n2.kids.len() implies m.nodes.contains_key(
                #[trigger] n2.kids[j],
            ) && m.nodes[n2.kids[j]].parent == Some(d) by {
                let x = n.kids[j];
                assert(self.nodes.contains_key(x));
                assert(self.nodes[x].parent == Some(d));
            }
        }
        assert forall|j: int| 0 <= j < ks.len() implies m.is_root(#[trigger] ks[j]) by {
            assert(self.nodes.contains_key(ks[j]));
            assert(self.nodes[ks[j]].parent == Some(r));
        }
        assert forall|d: int| m.nodes.contains_key(d) implies ks.contains(#[trigger] m.top(d)) by {
            assert(m.node_ok(d));
        }
    }

    /// Deleting the root of a well-formed heap leaves a well-formed heap of the
    /// other nodes, each with its key, priority and generation.
    pub proof fn lemma_pop(self)
        requires
            self.wf(),
            self.root.is_some(),
        ensures
            self.pop().wf(),
            self.pop().nodes.dom() == self.nodes.dom().remove(self.root.unwrap()),
            forall|d: int| #[trigger]
                self.pop().nodes.contains_key(d) ==> self.pop().nodes[d].key == self.nodes[d].key
                    && self.pop().nodes[d].prio == self.nodes[d].prio && self.pop().nodes[d].gen
                    == self.nodes[d].gen,
    {
        let r = self.root.unwrap();
        let s = self.nodes[r].kids;
        let d = self.detach(r);
        let q = self.pop();
        self.lemma_detach(r);
        if s.len() == 0 {
            assert(q == d);
            assert(d.nodes.dom() =~= Set::empty()) by {
                assert forall|x: int| !d.nodes.contains_key(x) by {
                    if d.nodes.contains_key(x) {
                        assert(s.contains(d.top(x)));
                    }
                }
            }
        } else {
            d.lemma_pair_up(s);
            let p = d.pair_up(s);
            p.0.lemma_fold_back(p.1);
            let f = p.0.fold_back(p.1);
            f.0.lemma_rooted(Some(f.1));
            assert(q == f.0.rooted(Some(f.1)));
            assert(q.nodes == f.0.nodes);
            assert(q.is_root(f.1)) by {
                assert(f.0.is_root(f.1));
            }
            assert forall|x: int| #[trigger] q.nodes.contains_key(x) implies q.top(x) == f.1
                && q.nodes[x].key == self.nodes[x].key && q.nodes[x].prio == self.nodes[x].prio
                && q.nodes[x].gen == self.nodes[x].gen by {
                assert(d.nodes.contains_key(x));
                assert(p.0.nodes.contains_key(x));
                assert(f.0.nodes.contains_key(x));
                assert(s.contains(d.top(x)));
                assert(p.1.contains(p.0.top(x)));
                assert(f.0.top(x) == f.1);
                assert(q.top(x) == f.0.top(x));
            }
        }
    }

    /// `d` is `i` or one of its descendants.
    pub open spec fn under(self, i: int, d: int) -> bool {
        d == i || (self.nodes[d].anc.len() > self.nodes[i].anc.len()
            && self.nodes[d].anc[self.nodes[i].anc.len() as int] == i)
    }

    /// The same forest with the priority of `i` replaced.
    pub open spec fn set_prio(self, i: int, p: P) -> Self {
        HeapModel { root: self.root, nodes: self.nodes.insert(i, NodeModel { prio: p, ..self.nodes[i] }) }
    }

    /// Cuts `i`, which has a parent, out of its parent's child list: `i` becomes
    /// the root of a tree of its own, with its descendants.
    #[verifier::opaque]
    pub open spec fn cut(self, i: int) -> Self {
        let q = self.nodes[i].parent.unwrap();
        let depth = self.nodes[i].anc.len() as int;
        HeapModel {
            root: self.root,
            nodes: Map::new(
                |d: int| self.nodes.contains_key(d),
                |d: int|
                    if d == q {
                        NodeModel {
                            kids: self.nodes[q].kids.remove(self.nodes[q].kids.index_of(i)),
                            ..self.nodes[q]
                        }
                    } else if self.under(i, d) {
                        NodeModel {
                            parent: if d == i {
                                None
                            } else {
                                self.nodes[d].parent
                            },
                            anc: self.nodes[d].anc.skip(depth),
                            ..self.nodes[d]
                        }
                    } else {
                        self.nodes[d]
                    },
            ),
        }
    }

    /// A priority may be replaced by one that ranks no higher, as long as the
    /// parent does not rank above it.
    pub proof fn lemma_set_prio(self, i: int, p: P)
        requires
            self.forest(),
            self.has(i),
            p.rank() <= self.rank(i),
            self.nodes[i].parent matches Some(q) ==> self.rank(q) <= p.rank(),
        ensures
            self.set_prio(i, p).forest(),
            self.set_prio(i, p).nodes.dom() == self.nodes.dom(),
            forall|d: int| #[trigger]
                self.nodes.contains_key(d) ==> self.set_prio(i, p).top(d) == self.top(d)
                    && self.set_prio(i, p).is_root(d) == self.is_root(d),
    {
        reveal(HeapModel::forest);
        let m = self.set_prio(i, p);
        assert(m.nodes.dom() =~= self.nodes.dom());
        assert forall|d: int| m.nodes.contains_key(d) implies #[trigger] m.node_ok(d) by {
            assert(self.node_ok(d));
            let n = self.nodes[d];
            assert forall|k: int| 0 <= k < n.anc.len() implies m.nodes.contains_key(
                #[trigger] n.anc[k],
            ) && m.nodes[n.anc[k]].anc == n.anc.take(k) by {
                assert(self.nodes.contains_key(n.anc[k]));
            }
            assert forall|j: int| 0 <= j < n.kids.len() implies m.nodes.contains_key(
                #[trigger] n.kids[j],
            ) && m.nodes[n.kids[j]].parent == Some(d) by {
                assert(self.nodes.contains_key(n.kids[j]));
            }
            if let Some(q) = n.parent {
                if q == i {
                    assert(self.rank(i) <= self.rank(d));
                }
            }
        }
    }

    /// Cutting a node out keeps a forest and every entry, and makes the node
    /// the top of itself and its descendants.
    pub proof fn lemma_cut(self, i: int)
        requires
            self.forest(),
            self.has(i),
            self.nodes[i].parent.is_some(),
        ensures
            self.cut(i).forest(),
            self.cut(i).same_entries(self),
            self.cut(i).root == self.root,
            self.cut(i).is_root(i),
            forall|x: int| self.is_root(x) ==> #[trigger] self.cut(i).is_root(x),
            forall|d: int| #[trigger]
                self.nodes.contains_key(d) ==> self.cut(i).top(d) == if self.under(i, d) {
                    i
                } else {
                    self.top(d)
                },
    {
        reveal(HeapModel::forest);
        reveal(HeapModel::cut);
        let m = self.cut(i);
        let q = self.nodes[i].parent.unwrap();
        let depth = self.nodes[i].anc.len() as int;
        let kq = self.nodes[q].kids;
        let at = kq.index_of(i);
        assert(m.nodes.dom() =~= self.nodes.dom());
        assert(self.node_ok(i));
        assert(depth >= 1 && self.nodes[i].anc[depth - 1] == q);
        assert(self.nodes.contains_key(self.nodes[i].anc[depth - 1]));
        assert(self.nodes[q].anc == self.nodes[i].anc.take(depth - 1));
        assert(self.nodes[q].anc.len() == depth - 1);
        assert(!self.under(i, q));
        assert(kq.contains(i));
        assert(0 <= at < kq.len() && kq[at] == i);
        assert(self.node_ok(q));
        let kq2 = kq.remove(at);
        assert(m.nodes[q].kids == kq2);
        assert forall|j: int| 0 <= j < kq2.len() implies #[trigger] kq2[j] != i && kq.contains(
            kq2[j],
        ) by {
            if j < at {
                assert(kq2[j] == kq[j]);
            } else {
                assert(kq2[j] == kq[j + 1]);
            }
        }
        assert forall|x: int| kq.contains(x) && x != i implies kq2.contains(x) by {
            let j = choose|j: int| 0 <= j < kq.len() && kq[j] == x;
            if j < at {
                assert(kq2[j] == x);
            } else {
                assert(kq2[j - 1] == x);
            }
        }
        assert(kq2.no_duplicates()) by {
            assert forall|a: int, b: int|
                0 <= a < kq2.len() && 0 <= b < kq2.len() && a != b implies kq2[a] != kq2[b] by {
                let a1 = if a < at { a } else { a + 1 };
                let b1 = if b < at { b } else { b + 1 };
                assert(kq2[a] == kq[a1] && kq2[b] == kq[b1]);
            }
        }
        assert forall|d: int| m.nodes.contains_key(d) implies #[trigger] m.node_ok(d) && m.top(d) == if self.under(i, d) {
            i
        } else {
            self.top(d)
        } by {
            assert(self.node_ok(d));
            let n = self.nodes[d];
            let n2 = m.nodes[d];
            let len = n.anc.len() as int;
            if self.under(i, d) {
                assert(d != q);
                assert(n2.anc == n.anc.skip(depth));
                assert forall|k: int| 0 <= k < n2.anc.len() implies m.nodes.contains_key(
                    #[trigger] n2.anc[k],
                ) && m.nodes[n2.anc[k]].anc == n2.anc.take(k) by {
                    let x = n.anc[k + depth];
                    assert(n2.anc[k] == x);
                    assert(self.nodes.contains_key(x));
                    assert(self.nodes[x].anc == n.anc.take(k + depth));
                    if k > 0 {
                        assert(n.anc.take(k + depth)[depth] == n.anc[depth]);
                    }
                    assert(self.under(i, x));
                    assert(x != q);
                    assert(m.nodes[x].anc =~= n2.anc.take(k));
                }
                if d != i {
                    assert(n2.anc.last() == n.anc.last());
                    let g = n.anc.last();
                    assert(self.nodes.contains_key(n.anc[len - 1]));
                    assert(self.nodes[g].anc == n.anc.take(len - 1));
                    assert(g != q);
                    assert(m.nodes[g].kids == self.nodes[g].kids);
                    assert(n2.anc[0] == n.anc[depth]);
                }
            } else {
                assert(n2.anc == n.anc);
                assert forall|k: int| 0 <= k < n2.anc.len() implies m.nodes.contains_key(
                    #[trigger] n2.anc[k],
                ) && m.nodes[n2.anc[k]].anc == n2.anc.take(k) by {
                    let x = n.anc[k];
                    assert(self.nodes.contains_key(x));
                    assert(self.nodes[x].anc == n.anc.take(k));
                    if k > depth {
                        assert(n.anc.take(k)[depth] == n.anc[depth]);
                    }
                    assert(!self.under(i, x));
                }
                if let Some(g) = n.parent {
                    assert(g == n.anc.last());
                    assert(self.nodes.contains_key(n.anc[len - 1]));
                    assert(self.nodes[g].anc == n.anc.take(len - 1));
                    if len - 1 > depth {
                        assert(n.anc.take(len - 1)[depth] == n.anc[depth]);
                    }
                    assert(!self.under(i, g));
                    if g == q {
                        assert(kq.contains(d));
                        assert(kq2.contains(d));
                    } else {
                        assert(m.nodes[g].kids == self.nodes[g].kids);
                    }
                }
            }
            assert forall|j: int| 0 <= j < n2.kids.len() implies m.nodes.contains_key(
                #[trigger] n2.kids[j],
            ) && m.nodes[n2.kids[j]].parent == Some(d) by {
                let x = n2.kids[j];
                if d == q {
                    assert(kq.contains(x) && x != i);
                    let j0 = choose|j0: int| 0 <= j0 < kq.len() && kq[j0] == x;
                    assert(self.nodes[kq[j0]].parent == Some(d));
                } else {
                    assert(x == n.kids[j]);
                    assert(self.nodes[x].parent == Some(d));
                    assert(x != i);
                }
                assert(x != q || m.nodes[x].parent == self.nodes[x].parent);
            }
        }
        assert forall|x: int| self.is_root(x) implies #[trigger] m.is_root(x) by {
            assert(self.node_ok(x));
        }
    }

    /// The ranks that the first `n` deletions of the root return, in order;
    /// fewer where the heap is empty before that.
    pub open spec fn drained(self, n: nat) -> Seq<int>
        decreases n,
    {
        if n == 0 || self.root.is_none() {
            Seq::empty()
        } else {
            seq![self.rank(self.root.unwrap())] + self.pop().drained((n - 1) as nat)
        }
    }

    /// A handle to slot `i` of generation `gen` points at a node of the heap.
    pub open spec fn live_at(self, i: int, gen: u64) -> bool {
        self.nodes.contains_key(i) && self.nodes[i].gen == gen
    }

    /// Gives node `i` the priority `p`, where `p` does not rank above the
    /// priority that `i` has: among the nodes of another rank nothing changes.
    /// A node that then ranks below its parent is cut out, with its
    /// descendants, and melded with the root, the root first, so that on equal
    /// ranks the node becomes the root.
    pub open spec fn lower(self, i: int, p: P) -> Self {
        if !self.nodes.contains_key(i) || self.rank(i) < p.rank() {
            self
        } else {
            match self.nodes[i].parent {
                None => self.set_prio(i, p),
                Some(q) => if self.rank(q) <= p.rank() {
                    self.set_prio(i, p)
                } else {
                    let r = self.root.unwrap();
                    let m = self.cut(i).set_prio(i, p);
                    m.meld(r, i).rooted(Some(m.winner(r, i)))
                },
            }
        }
    }

    /// `lower` keeps a heap well formed, keeps every node, and changes no key,
    /// no generation and no priority but the one it is asked to change.
    pub proof fn lemma_lower(self, i: int, p: P)
        requires
            self.wf(),
        ensures
            self.lower(i, p).wf(),
            self.lower(i, p).nodes.dom() == self.nodes.dom(),
            forall|d: int| #[trigger]
                self.nodes.contains_key(d) ==> self.lower(i, p).nodes[d].key == self.nodes[d].key
                    && self.lower(i, p).nodes[d].gen == self.nodes[d].gen && self.lower(
                    i,
                    p,
                ).nodes[d].prio == if d == i && p.rank() <= self.rank(i) {
                    p
                } else {
                    self.nodes[d].prio
                },
    {
        if !self.nodes.contains_key(i) || self.rank(i) < p.rank() {
        } else {
            let r = self.root.unwrap();
            assert(self.top(i) == r);
            let stay = match self.nodes[i].parent {
                None => true,
                Some(q) => self.rank(q) <= p.rank(),
            };
            if stay {
                self.lemma_set_prio(i, p);
                let m = self.set_prio(i, p);
                assert(m == self.lower(i, p));
                assert forall|d: int| #[trigger] m.nodes.contains_key(d) implies m.top(d) == r by {
                    assert(self.nodes.contains_key(d));
                }
            } else {
                self.lemma_cut(i);
                let c = self.cut(i);
                assert(c.nodes.contains_key(i));
                c.lemma_set_prio(i, p);
                let m = c.set_prio(i, p);
                assert(m.nodes.contains_key(r) && m.nodes.contains_key(i));
                assert(c.is_root(r));
                assert(m.is_root(r) && m.is_root(i));
                m.lemma_meld(r, i);
                let w = m.winner(r, i);
                let f = m.meld(r, i);
                f.lemma_rooted(Some(w));
                let g = f.rooted(Some(w));
                assert(g == self.lower(i, p));
                assert(g.is_root(w)) by {
                    assert(f.is_root(w));
                }
                assert forall|d: int| #[trigger] g.nodes.contains_key(d) implies g.top(d) == w
                    && g.nodes[d].key == self.nodes[d].key && g.nodes[d].gen == self.nodes[d].gen
                    && g.nodes[d].prio == if d == i {
                    p
                } else {
                    self.nodes[d].prio
                } by {
                    assert(self.nodes.contains_key(d));
                    assert(c.nodes.contains_key(d));
                    assert(m.nodes.contains_key(d));
                    assert(self.top(d) == r);
                    assert(c.top(d) == if self.under(i, d) { i } else { r });
                    assert(m.top(d) == c.top(d));
                    assert(f.top(d) == w);
                    assert(g.top(d) == f.top(d));
                }
            }
        }
    }

    /// A forest has finitely many nodes.
    pub proof fn lemma_finite(self)
        requires
            self.forest(),
        ensures
            self.nodes.dom().finite(),
    {
        reveal(HeapModel::forest);
    }

    /// A child is a node, has its parent as parent, and stands once in the list.
    pub proof fn lemma_kid(self, d: int, j: int)
        requires
            self.forest(),
            self.has(d),
            0 <= j < self.nodes[d].kids.len(),
        ensures
            self.has(self.nodes[d].kids[j]),
            self.nodes[self.nodes[d].kids[j]].parent == Some(d),
            self.nodes[d].kids[j] != d,
            self.nodes[d].kids.no_duplicates(),
    {
        reveal(HeapModel::forest);
        assert(self.node_ok(d));
        let c = self.nodes[d].kids[j];
        assert(self.node_ok(c) && self.node_ok(d));
        if c == d {
            let n = self.nodes[d];
            assert(n.anc.last() == d);
            assert(self.nodes[n.anc[n.anc.len() - 1]].anc == n.anc.take(n.anc.len() - 1));
        }
    }

    /// A parent is a node, lists the child, and does not rank above it.
    pub proof fn lemma_parent(self, d: int)
        requires
            self.forest(),
            self.has(d),
            self.nodes[d].parent.is_some(),
        ensures
            self.has(self.nodes[d].parent.unwrap()),
            self.nodes[self.nodes[d].parent.unwrap()].kids.contains(d),
            self.rank(self.nodes[d].parent.unwrap()) <= self.rank(d),
            self.nodes[d].parent.unwrap() != d,
    {
        reveal(HeapModel::forest);
        assert(self.node_ok(d));
        let q = self.nodes[d].parent.unwrap();
        let j = self.nodes[q].kids.index_of(d);
        self.lemma_kid(q, j);
    }

    /// The forest of `self` beside the forest of `o`, the ids of `o` raised by `off`.
    #[verifier::opaque]
    pub open spec fn join(self, o: Self, off: int) -> Self {
        HeapModel {
            root: self.root,
            nodes: Map::new(
                |d: int| self.nodes.contains_key(d) || o.nodes.contains_key(d - off),
                |d: int|
                    if self.nodes.contains_key(d) {
                        self.nodes[d]
                    } else {
                        o.nodes[d - off].moved(off)
                    },
            ),
        }
    }

    /// Merging: the nodes of `o` move to the ids from `off` on, and the two
    /// roots are melded. The root of `o` becomes the root only where it ranks
    /// strictly below the root of `self`: on equal ranks the root of `self` stays.
    pub open spec fn absorb(self, o: Self, off: int) -> Self {
        let u = self.join(o, off);
        match (self.root, o.root) {
            (Some(a), Some(b)) => u.meld(b + off, a).rooted(Some(u.winner(b + off, a))),
            (None, Some(b)) => u.rooted(Some(b + off)),
            (_, None) => u,
        }
    }

    /// Two forests on ids that do not meet are one forest side by side.
    pub proof fn lemma_join(self, o: Self, off: int)
        requires
            self.forest(),
            o.forest(),
            forall|d: int| #[trigger] self.nodes.contains_key(d) ==> d < off,
            forall|d: int| #[trigger] o.nodes.contains_key(d) ==> 0 <= d,
        ensures
            self.join(o, off).forest(),
            self.join(o, off).nodes.dom().finite(),
            self.join(o, off).root == self.root,
            self.join(o, off).nodes.dom() == self.nodes.dom().union(
                o.nodes.dom().map(|x: int| x + off),
            ),
            self.join(o, off).nodes.len() == self.nodes.len() + o.nodes.len(),
            forall|d: int| #[trigger]
                self.nodes.contains_key(d) ==> self.join(o, off).nodes[d] == self.nodes[d]
                    && self.join(o, off).top(d) == self.top(d),
            forall|d: int| #[trigger]
                o.nodes.contains_key(d) ==> self.join(o, off).nodes[d + off] == o.nodes[d].moved(off)
                    && self.join(o, off).top(d + off) == o.top(d) + off,
    {
        reveal(HeapModel::forest);
        reveal(HeapModel::join);
        let m = self.join(o, off);
        let f = |x: int| x + off;
        let img = o.nodes.dom().map(f);
        assert(m.nodes.dom() =~= self.nodes.dom().union(img)) by {
            assert forall|d: int| m.nodes.dom().contains(d) <==> self.nodes.dom().union(img).contains(
                d,
            ) by {
                if o.nodes.contains_key(d - off) {
                    assert(f(d - off) == d);
                    assert(img.contains(d));
                }
            }
        }
        assert(vstd::relations::injective_on(f, o.nodes.dom()));
        vstd::set_lib::lemma_map_size(o.nodes.dom(), img, f);
        assert(self.nodes.dom().disjoint(img)) by {
            assert forall|d: int| !(self.nodes.dom().contains(d) && img.contains(d)) by {
                if img.contains(d) {
                    let x = choose|x: int| o.nodes.dom().contains(x) && f(x) == d;
                    assert(o.nodes.contains_key(x));
                }
            }
        }
        vstd::set_lib::lemma_set_disjoint_lens(self.nodes.dom(), img);
        assert forall|d: int| #[trigger] o.nodes.contains_key(d) implies m.nodes[d + off]
            == o.nodes[d].moved(off) && m.top(d + off) == o.top(d) + off by {
            assert(!self.nodes.contains_key(d + off));
        }
        assert forall|d: int| m.nodes.contains_key(d) implies #[trigger] m.node_ok(d) by {
            if self.nodes.contains_key(d) {
                assert(self.node_ok(d));
                let n = self.nodes[d];
                assert forall|k: int| 0 <= k < n.anc.len() implies m.nodes.contains_key(
                    #[trigger] n.anc[k],
                ) && m.nodes[n.anc[k]].anc == n.anc.take(k) by {
                    assert(self.nodes.contains_key(n.anc[k]));
                }
                assert forall|j: int| 0 <= j < n.kids.len() implies m.nodes.contains_key(
                    #[trigger] n.kids[j],
                ) && m.nodes[n.kids[j]].parent == Some(d) by {
                    assert(self.nodes.contains_key(n.kids[j]));
                }
            } else {
                let e = d - off;
                assert(o.nodes.contains_key(e));
                assert(o.node_ok(e));
                let n = o.nodes[e];
                let n2 = m.nodes[d];
                assert(n2 == n.moved(off));
                assert forall|k: int| 0 <= k < n2.anc.len() implies m.nodes.contains_key(
                    #[trigger] n2.anc[k],
                ) && m.nodes[n2.anc[k]].anc == n2.anc.take(k) by {
                    let x = n.anc[k];
                    assert(o.nodes.contains_key(x));
                    assert(n2.anc[k] == x + off);
                    assert(!self.nodes.contains_key(x + off));
                    assert(m.nodes[x + off] == o.nodes[x].moved(off));
                    assert(o.nodes[x].anc == n.anc.take(k));
                    assert(m.nodes[x + off].anc =~= n2.anc.take(k));
                }
                assert forall|j: int| 0 <= j < n2.kids.len() implies m.nodes.contains_key(
                    #[trigger] n2.kids[j],
                ) && m.nodes[n2.kids[j]].parent == Some(d) by {
                    let x = n.kids[j];
                    assert(o.nodes.contains_key(x));
                    assert(n2.kids[j] == x + off);
                    assert(!self.nodes.contains_key(x + off));
                }
                assert(n2.kids.no_duplicates()) by {
                    assert forall|a: int, b: int|
                        0 <= a < n2.kids.len() && 0 <= b < n2.kids.len() && a != b implies n2.kids[a]
                        != n2.kids[b] by {
                        assert(n.kids[a] != n.kids[b]);
                    }
                }
                if let Some(q) = n.parent {
                    assert(o.nodes.contains_key(q));
                    assert(!self.nodes.contains_key(q + off));
                    let j = o.nodes[q].kids.index_of(e);
                    assert(o.nodes[q].kids.contains(e));
                    assert(m.nodes[q + off].kids[j] == d);
                }
            }
        }
    }

    /// Merging two well-formed heaps gives a well-formed heap of the nodes of both.
    pub proof fn lemma_absorb(self, o: Self, off: int)
        requires
            self.wf(),
            o.wf(),
            forall|d: int| #[trigger] self.nodes.contains_key(d) ==> d < off,
            forall|d: int| #[trigger] o.nodes.contains_key(d) ==> 0 <= d,
        ensures
            self.absorb(o, off).wf(),
            self.absorb(o, off).nodes.dom() == self.nodes.dom().union(
                o.nodes.dom().map(|x: int| x + off),
            ),
            self.absorb(o, off).nodes.len() == self.nodes.len() + o.nodes.len(),
            forall|d: int| #[trigger]
                self.nodes.contains_key(d) ==> self.absorb(o, off).nodes[d].key == self.nodes[d].key
                    && self.absorb(o, off).nodes[d].prio == self.nodes[d].prio && self.absorb(
                    o,
                    off,
                ).nodes[d].gen == self.nodes[d].gen,
            forall|d: int| #[trigger]
                o.nodes.contains_key(d) ==> self.absorb(o, off).nodes[d + off].key == o.nodes[d].key
                    && self.absorb(o, off).nodes[d + off].prio == o.nodes[d].prio && self.absorb(
                    o,
                    off,
                ).nodes[d + off].gen == o.nodes[d].gen,
            forall|d: int| #[trigger]
                self.absorb(o, off).nodes.contains_key(d) <==> self.nodes.contains_key(d)
                    || o.nodes.contains_key(d - off),
    {
        self.lemma_join(o, off);
        let u = self.join(o, off);
        let f = |x: int| x + off;
        let r = self.absorb(o, off);
        assert(r.nodes.dom() == u.nodes.dom()) by {
            if self.root.is_some() && o.root.is_some() {
                let a = self.root.unwrap();
                let b = o.root.unwrap();
                assert(o.nodes.contains_key(b));
                assert(f(b) == b + off);
                assert(o.nodes.dom().map(f).contains(b + off));
                assert(u.is_root(a) && u.is_root(b + off));
                u.lemma_meld(b + off, a);
            }
        }
        assert forall|d: int| #[trigger] r.nodes.contains_key(d) <==> self.nodes.contains_key(d)
            || o.nodes.contains_key(d - off) by {
            if o.nodes.contains_key(d - off) {
                assert(f(d - off) == d);
                assert(o.nodes.dom().map(f).contains(d));
            }
            if r.nodes.contains_key(d) && !self.nodes.contains_key(d) {
                assert(o.nodes.dom().map(f).contains(d));
                let x = choose|x: int| o.nodes.dom().contains(x) && f(x) == d;
                assert(x == d - off);
            }
        }
        assert forall|d: int| u.nodes.contains_key(d) implies self.nodes.contains_key(d)
            || o.nodes.contains_key(d - off) by {
            if !self.nodes.contains_key(d) {
                assert(o.nodes.dom().map(f).contains(d));
                let x = choose|x: int| o.nodes.dom().contains(x) && f(x) == d;
                assert(x == d - off);
            }
        }
        assert forall|d: int| #[trigger] o.nodes.contains_key(d) implies u.nodes.contains_key(
            d + off,
        ) by {
            assert(f(d) == d + off);
            assert(o.nodes.dom().map(f).contains(d + off));
        }
        match (self.root, o.root) {
            (Some(a), Some(b)) => {
                assert(o.nodes.contains_key(b));
                assert(u.nodes.contains_key(b + off));
                assert(u.is_root(a) && u.is_root(b + off));
                u.lemma_meld(b + off, a);
                let w = u.winner(b + off, a);
                let g = u.meld(b + off, a);
                g.lemma_rooted(Some(w));
                assert(r.is_root(w)) by {
                    assert(g.is_root(w));
                }
                assert forall|d: int| #[trigger] r.nodes.contains_key(d) implies r.top(d) == w by {
                    assert(u.nodes.contains_key(d));
                    if self.nodes.contains_key(d) {
                        assert(u.top(d) == a);
                    } else {
                        assert(o.nodes.contains_key(d - off));
                        assert(u.top(d - off + off) == b + off);
                    }
                    assert(g.top(d) == w);
                    assert(r.top(d) == g.top(d));
                }
                assert forall|d: int| #[trigger] self.nodes.contains_key(d) implies r.nodes[d].key
                    == self.nodes[d].key && r.nodes[d].prio == self.nodes[d].prio && r.nodes[d].gen
                    == self.nodes[d].gen by {
                    assert(g.nodes.contains_key(d));
                }
                assert forall|d: int| #[trigger] o.nodes.contains_key(d) implies r.nodes[d + off].key
                    == o.nodes[d].key && r.nodes[d + off].prio == o.nodes[d].prio && r.nodes[d
                    + off].gen == o.nodes[d].gen by {
                    assert(g.nodes.contains_key(d + off));
                }
            },
            (None, Some(b)) => {
                assert(self.nodes.dom() =~= Set::empty());
                u.lemma_rooted(Some(b + off));
                assert(o.nodes.contains_key(b));
                assert(u.nodes.contains_key(b + off));
                assert(r.is_root(b + off)) by {
                    assert(o.is_root(b));
                }
                assert forall|d: int| #[trigger] r.nodes.contains_key(d) implies r.top(d) == b
                    + off by {
                    assert(u.nodes.contains_key(d));
                    assert(o.nodes.contains_key(d - off));
                    assert(u.top(d - off + off) == b + off);
                    assert(r.top(d) == u.top(d));
                }
            },
            (_, None) => {
                assert(o.nodes.dom() =~= Set::empty());
                assert forall|d: int| #[trigger] r.nodes.contains_key(d) implies self.nodes.contains_key(
                    d,
                ) by {
                    assert(u.nodes.contains_key(d));
                }
                if self.root.is_none() {
                    assert(self.nodes.dom() =~= Set::empty());
                    assert(r.nodes.dom() =~= Set::empty());
                }
            },
        }
    }
}

/// The ids of `s`, each raised by `off`.
pub open spec fn shift(s: Seq<int>, off: int) -> Seq<int> {
    Seq::new(s.len(), |j: int| s[j] + off)
}

impl<K, P> NodeModel<K, P> {
    /// The node as it is after every id in it was raised by `off`.
    pub open spec fn moved(self, off: int) -> Self {
        NodeModel {
            parent: match self.parent {
                Some(p) => Some(p + off),
                None => None,
            },
            kids: shift(self.kids, off),
            anc: shift(self.anc, off),
            ..self
        }
    }
}

impl<K: PartialEq, P: Prio> HeapModel<K, P> {
    /// `i` is the node of the lowest id whose key equals `key`.
    pub open spec fn first_with(self, key: K, i: int) -> bool {
        &&& self.nodes.contains_key(i)
        &&& self.nodes[i].key.eq_spec(&key)
        &&& forall|j: int| #[trigger]
            self.nodes.contains_key(j) && j < i ==> !self.nodes[j].key.eq_spec(&key)
    }

    /// The node of the lowest id whose key equals `key`, if there is one.
    pub open spec fn find(self, key: K) -> Option<int> {
        if exists|i: int| self.first_with(key, i) {
            Some(choose|i: int| self.first_with(key, i))
        } else {
            None
        }
    }

    /// Takes `delta` from the priority of the first node whose key equals
    /// `key`, as `lower` does. Nothing changes where no key matches or the
    /// priority cannot hold the difference.
    pub open spec fn lower_key(self, key: K, delta: P) -> Self {
        match self.find(key) {
            None => self,
            Some(i) => match self.nodes[i].prio.lowered(&delta) {
                None => self,
                Some(p) => self.lower(i, p),
            },
        }
    }
}

} // verus!
