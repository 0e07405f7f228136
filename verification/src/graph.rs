//! A simple undirected graph with weighted edges, and the algorithms on it.
use std::collections::HashMap;
use vstd::prelude::*;
use crate::weight::capped;
pub use crate::mst::mst_prim;
pub use crate::sssp::{LazyShortestPaths, ShortestPath};

verus! {

/// The adjacency lists of a graph: for each node the half-edges that leave it,
/// each with the node it leads to and its weight, in the order they were added.
pub type Adjacency<W> = Map<usize, Seq<(usize, W)>>;

/// The lists `adj` with the half-edge from `u` to `v` added at the end of the
/// list of `u`.
pub open spec fn with_half_edge<W>(adj: Adjacency<W>, u: usize, v: usize, w: W) -> Adjacency<W> {
    adj.insert(
        u,
        (if adj.contains_key(u) {
            adj[u]
        } else {
            Seq::empty()
        }).push((v, w)),
    )
}

/// The lists are those of an undirected graph without loops: every half-edge
/// leads to another node, which has a list of its own, and no list is empty.
pub open spec fn adjacency_ok<W>(adj: Adjacency<W>) -> bool {
    &&& adj.dom().finite()
    &&& forall|u: usize| #[trigger] adj.contains_key(u) ==> adj[u].len() > 0
    &&& forall|u: usize, j: int|
        adj.contains_key(u) && 0 <= j < adj[u].len() ==> adj.contains_key((#[trigger] adj[u][j]).0)
            && adj[u][j].0 != u
}

/// The graph has a half-edge from `a` to `b` of weight `w`.
pub open spec fn has_edge<W>(adj: Adjacency<W>, a: usize, b: usize, w: W) -> bool {
    adj.contains_key(a) && exists|j: int| 0 <= j < adj[a].len() && #[trigger] adj[a][j] == (b, w)
}

/// Every half-edge has its twin: one of the same weight the other way.
pub open spec fn symmetric<W>(adj: Adjacency<W>) -> bool {
    forall|u: usize, j: int|
        adj.contains_key(u) && 0 <= j < adj[u].len() ==> #[trigger] has_edge(
            adj,
            adj[u][j].0,
            u,
            adj[u][j].1,
        )
}

/// The number of half-edges in the lists of the nodes of `s`.
pub open spec fn half_edges_in<W>(adj: Adjacency<W>, s: Set<usize>) -> nat
    decreases s.len(),
    when s.finite()
{
    if s.len() == 0 {
        0
    } else {
        adj[s.choose()].len() + half_edges_in(adj, s.remove(s.choose()))
    }
}

/// The number of half-edges of the graph: the lengths of all lists together.
pub open spec fn half_edges<W>(adj: Adjacency<W>) -> nat {
    half_edges_in(adj, adj.dom())
}

/// The half-edges of a set of nodes are those of any one of them and those
/// of the others.
pub proof fn lemma_half_edges_pick<W>(adj: Adjacency<W>, s: Set<usize>, k: usize)
    requires
        s.finite(),
        s.contains(k),
    ensures
        half_edges_in(adj, s) == adj[k].len() + half_edges_in(adj, s.remove(k)),
    decreases s.len(),
{
    let c = s.choose();
    if c != k {
        lemma_half_edges_pick(adj, s.remove(c), k);
        lemma_half_edges_pick(adj, s.remove(k), c);
        assert(s.remove(c).remove(k) =~= s.remove(k).remove(c));
    }
}

/// Lists of the same lengths hold the same number of half-edges.
pub proof fn lemma_half_edges_same<W>(a: Adjacency<W>, b: Adjacency<W>, s: Set<usize>)
    requires
        s.finite(),
        forall|k: usize| s.contains(k) ==> a[k].len() == b[k].len(),
    ensures
        half_edges_in(a, s) == half_edges_in(b, s),
    decreases s.len(),
{
    if s.len() > 0 {
        lemma_half_edges_same(a, b, s.remove(s.choose()));
    }
}

/// One more half-edge in a list is one more half-edge in the graph.
pub proof fn lemma_half_edge_counted<W>(adj: Adjacency<W>, u: usize, v: usize, w: W)
    requires
        adj.dom().finite(),
    ensures
        half_edges(with_half_edge(adj, u, v, w)) == half_edges(adj) + 1,
{
    let a1 = with_half_edge(adj, u, v, w);
    let d = adj.dom();
    let d1 = a1.dom();
    assert(d1 =~= d.insert(u));
    lemma_half_edges_pick(a1, d1, u);
    assert(d1.remove(u) =~= d.remove(u));
    lemma_half_edges_same(a1, adj, d.remove(u));
    if d.contains(u) {
        lemma_half_edges_pick(adj, d, u);
    } else {
        assert(d.remove(u) =~= d);
    }
}

/// The nodes are numbered from zero without gaps.
pub open spec fn dense<W>(adj: Adjacency<W>) -> bool {
    forall|u: usize| #[trigger] adj.contains_key(u) ==> u < adj.len()
}

/// A set of `n` numbers lies below `n` if and only if it holds every number below `n`.
pub proof fn lemma_dense_iff_full(s: Set<usize>, n: nat)
    requires
        s.finite(),
        s.len() == n,
    ensures
        (forall|u: usize| s.contains(u) ==> u < n) <==> (forall|i: usize| i < n ==> s.contains(i)),
{
    let f = |u: usize| u as int;
    let d = s.map(f);
    let r = vstd::set_lib::set_int_range(0, n as int);
    assert(vstd::relations::injective_on(f, s));
    vstd::set_lib::lemma_map_size(s, d, f);
    vstd::set_lib::lemma_int_range(0, n as int);
    if forall|u: usize| s.contains(u) ==> u < n {
        assert(d.subset_of(r)) by {
            assert forall|x: int| d.contains(x) implies r.contains(x) by {
                let u = choose|u: usize| s.contains(u) && f(u) == x;
                assert(u < n);
            }
        }
        vstd::set_lib::lemma_subset_equality(d, r);
        assert forall|i: usize| i < n implies s.contains(i) by {
            assert(r.contains(i as int));
            assert(d.contains(i as int));
            let u = choose|u: usize| s.contains(u) && f(u) == i as int;
            assert(u == i);
        }
    }
    if forall|i: usize| i < n ==> s.contains(i) {
        assert(r.subset_of(d)) by {
            assert forall|x: int| r.contains(x) implies d.contains(x) by {
                let i = x as usize;
                assert(s.contains(i));
                assert(f(i) == x);
            }
        }
        vstd::set_lib::lemma_subset_equality(r, d);
        assert forall|u: usize| s.contains(u) implies u < n by {
            assert(d.contains(f(u)));
            assert(r.contains(u as int));
        }
    }
}

/// Adding an edge between two nodes keeps the lists those of an undirected
/// graph without loops.
pub proof fn lemma_edge_added<W>(a0: Adjacency<W>, n1: usize, n2: usize, w: W)
    requires
        adjacency_ok(a0),
        n1 != n2,
    ensures
        adjacency_ok(with_half_edge(with_half_edge(a0, n1, n2, w), n2, n1, w)),
        symmetric(a0) ==> symmetric(with_half_edge(with_half_edge(a0, n1, n2, w), n2, n1, w)),
{
    let b1 = if a0.contains_key(n1) {
        a0[n1]
    } else {
        Seq::empty()
    };
    let b2 = if a0.contains_key(n2) {
        a0[n2]
    } else {
        Seq::empty()
    };
    let l1 = b1.push((n2, w));
    let l2 = b2.push((n1, w));
    let a1 = with_half_edge(a0, n1, n2, w);
    let a2 = with_half_edge(a1, n2, n1, w);
    assert(a1 == a0.insert(n1, l1));
    assert(a1.contains_key(n2) == a0.contains_key(n2));
    assert(a1.contains_key(n2) ==> a1[n2] == a0[n2]);
    assert(a2 == a1.insert(n2, l2));
    assert(a2[n2] == l2);
    assert(a2[n1] == l1);
    assert(l1.len() == b1.len() + 1 && l2.len() == b2.len() + 1);
    assert(l1[b1.len() as int] == (n2, w) && l2[b2.len() as int] == (n1, w));
    assert(a2.dom() =~= a0.dom().insert(n1).insert(n2));
    assert forall|u: usize| #[trigger] a2.contains_key(u) implies a2[u].len() > 0 by {
        if u != n2 && u != n1 {
            assert(a0.contains_key(u));
            assert(a2[u] == a0[u]);
        }
    }
    assert forall|u: usize, j: int| a2.contains_key(u) && 0 <= j < a2[u].len() implies a2.contains_key(
        (#[trigger] a2[u][j]).0,
    ) && a2[u][j].0 != u by {
        if u == n1 {
            if j < b1.len() {
                assert(l1[j] == b1[j]);
                assert(a0.contains_key(a0[u][j].0));
            }
        } else if u == n2 {
            if j < b2.len() {
                assert(l2[j] == b2[j]);
                assert(a0.contains_key(a0[u][j].0));
            }
        } else {
            assert(a0.contains_key(u));
            assert(a2[u] == a0[u]);
            assert(a0.contains_key(a0[u][j].0));
        }
    }
    if symmetric(a0) {
        assert forall|u: usize, j: int| a2.contains_key(u) && 0 <= j < a2[u].len() implies #[trigger] has_edge(
            a2,
            a2[u][j].0,
            u,
            a2[u][j].1,
        ) by {
            let base = if a0.contains_key(u) {
                a0[u]
            } else {
                Seq::empty()
            };
            if (u == n1 || u == n2) && j >= base.len() {
                if u == n1 {
                    assert(a2[n2][b2.len() as int] == (n1, w));
                } else {
                    assert(a2[n1][b1.len() as int] == (n2, w));
                }
            } else {
                assert(a0.contains_key(u));
                assert(a2[u][j] == a0[u][j]);
                let v = a0[u][j].0;
                assert(has_edge(a0, v, u, a0[u][j].1));
                let k = choose|k: int| 0 <= k < a0[v].len() && #[trigger] a0[v][k] == (u, a0[u][j].1);
                assert(a2[v][k] == a0[v][k]);
            }
        }
    }
}

/// A simple and undirected graph.
///
/// The nodes are numbers. The graph keeps, for each node that an edge touches,
/// the list of the half-edges that leave it.
pub struct SimpleGraph<W> {
    n_edges: usize,
    weights: HashMap<usize, Vec<(usize, W)>>,
}

impl<W: Copy> SimpleGraph<W> {
    /// The adjacency lists of the graph.
    pub closed spec fn adj(&self) -> Adjacency<W> {
        Map::new(|u: usize| self.weights@.contains_key(u), |u: usize| self.weights@[u]@)
    }

    /// The count of half-edges that `n_edges` reports: in a well-formed graph
    /// the number of half-edges in the lists, or `usize::MAX` where there are more.
    pub closed spec fn edge_count(&self) -> usize {
        self.n_edges
    }

    /// The graph is well formed: its lists are those of an undirected graph
    /// without loops, in which every half-edge has its twin, and the count of
    /// half-edges is the number of half-edges in the lists, or `usize::MAX`
    /// where there are more.
    pub open spec fn wf(&self) -> bool {
        &&& adjacency_ok(self.adj())
        &&& symmetric(self.adj())
        &&& self.edge_count() == capped(half_edges(self.adj()) as int, usize::MAX as int)
    }

    /// Creates an empty graph.
    pub fn new() -> (g: Self)
        ensures
            g.wf(),
            g.adj() == Map::<usize, Seq<(usize, W)>>::empty(),
            g.edge_count() == 0,
    {
        let g = Self { n_edges: 0, weights: HashMap::new() };
        assert(g.adj() =~= Map::<usize, Seq<(usize, W)>>::empty());
        g
    }

    /// Creates an empty graph with room for the given number of nodes.
    pub fn with_capacity(n_nodes: usize) -> (g: Self)
        ensures
            g.wf(),
            g.adj() == Map::<usize, Seq<(usize, W)>>::empty(),
            g.edge_count() == 0,
    {
        let g = Self { n_edges: 0, weights: HashMap::with_capacity(n_nodes) };
        assert(g.adj() =~= Map::<usize, Seq<(usize, W)>>::empty());
        g
    }

    /// Returns the number of nodes in the graph: those that an edge touches.
    pub fn n_nodes(&self) -> (n: usize)
        ensures
            n == self.adj().len(),
    {
        assert(self.adj().dom() =~= self.weights@.dom());
        self.weights.len()
    }

    /// Returns the number of half-edges in the graph, two for each edge that
    /// was added. The count stops at `usize::MAX`.
    pub fn n_edges(&self) -> (n: usize)
        ensures
            n == self.edge_count(),
            self.wf() ==> n == capped(half_edges(self.adj()) as int, usize::MAX as int),
    {
        self.n_edges
    }

    /// Adds a weighted edge to the graph: a half-edge to `node2` at the end of
    /// the list of `node1`, and one to `node1` at the end of the list of
    /// `node2`. An edge from a node to itself is not added. Edges between the
    /// same two nodes may be added more than once.
    pub fn add_weighted_edges(&mut self, node1: usize, node2: usize, weight: W)
        requires
            old(self).wf(),
        ensures
            final(self).wf(),
            node1 == node2 ==> final(self).adj() == old(self).adj() && final(self).edge_count()
                == old(self).edge_count(),
            node1 != node2 ==> final(self).adj() == with_half_edge(
                with_half_edge(old(self).adj(), node1, node2, weight),
                node2,
                node1,
                weight,
            ) && final(self).edge_count() == if old(self).edge_count() + 2 <= usize::MAX {
                (old(self).edge_count() + 2) as usize
            } else {
                usize::MAX
            },
    {
        if node1 != node2 {
            self.insert_weight(node1, node2, weight);
            self.insert_weight(node2, node1, weight);
            self.n_edges = if self.n_edges <= usize::MAX - 2 {
                self.n_edges + 2
            } else {
                usize::MAX
            };
            proof {
                let a0 = old(self).adj();
                let a1 = with_half_edge(a0, node1, node2, weight);
                lemma_edge_added(a0, node1, node2, weight);
                lemma_half_edge_counted(a0, node1, node2, weight);
                assert(a1.dom() =~= a0.dom().insert(node1));
                lemma_half_edge_counted(a1, node2, node1, weight);
            }
        }
    }

    /// Returns the neighbours of a node: the half-edges that leave it.
    pub fn neighbours(&self, node: &usize) -> (r: Option<&Vec<(usize, W)>>)
        ensures
            match r {
                Some(v) => self.adj().contains_key(*node) && v@ == self.adj()[*node],
                None => !self.adj().contains_key(*node),
            },
    {
        self.weights.get(node)
    }

    /// Returns the nodes of the graph, each once, in no particular order.
    pub fn nodes(&self) -> (r: Vec<usize>)
        ensures
            r@.no_duplicates(),
            r@.to_set() == self.adj().dom(),
    {
        let mut r: Vec<usize> = Vec::new();
        let ghost all = vstd::std_specs::iter::IteratorSpec::remaining(
            &vstd::std_specs::hash::spec_keys_iter(&self.weights),
        ).unref();
        for k in it: self.weights.keys()
            invariant
                all == it.seq().unref(),
                r@ == all.take(it.index()),
        {
            proof {
                assert(all.take(it.index()).push(*k) =~= all.take(it.index() + 1));
            }
            r.push(*k);
        }
        proof {
            assert(r@ =~= all);
            assert(self.adj().dom() =~= self.weights@.dom());
        }
        r
    }

    /// Whether the nodes are numbered from zero without gaps.
    pub fn is_dense(&self) -> (r: bool)
        ensures
            r == dense(self.adj()),
    {
        let n = self.weights.len();
        proof {
            assert(self.adj().dom() =~= self.weights@.dom());
            lemma_dense_iff_full(self.adj().dom(), n as nat);
            assert(dense(self.adj()) <==> (forall|u: usize|
                self.adj().dom().contains(u) ==> u < n));
        }
        let mut i: usize = 0;
        while i < n
            invariant
                0 <= i <= n,
                self.adj().dom() == self.weights@.dom(),
                dense(self.adj()) <==> (forall|k: usize| k < n ==> self.adj().dom().contains(k)),
                forall|k: usize| k < i ==> self.adj().dom().contains(k),
            decreases n - i,
        {
            if !self.weights.contains_key(&i) {
                assert(!self.adj().dom().contains(i));
                return false;
            }
            i = i + 1;
        }
        true
    }

    /// Adds the half-edge from `node1` to `node2`.
    fn insert_weight(&mut self, node1: usize, node2: usize, weight: W)
        ensures
            final(self).adj() == with_half_edge(old(self).adj(), node1, node2, weight),
            final(self).n_edges == old(self).n_edges,
    {
        match self.weights.remove(&node1) {
            Some(mut v) => {
                v.push((node2, weight));
                self.weights.insert(node1, v);
            },
            None => {
                let mut v = Vec::new();
                v.push((node2, weight));
                self.weights.insert(node1, v);
            },
        }
        assert(self.adj() =~= with_half_edge(old(self).adj(), node1, node2, weight));
    }
}

impl<W: Copy> Default for SimpleGraph<W> {
    /// Creates an empty graph.
    fn default() -> (g: Self)
        ensures
            g.wf(),
            g.adj() == Map::<usize, Seq<(usize, W)>>::empty(),
            g.edge_count() == 0,
    {
        SimpleGraph::new()
    }
}

} // verus!
