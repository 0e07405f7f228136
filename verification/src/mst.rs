//! Minimum spanning trees by Prim's algorithm.
use vstd::prelude::*;
use crate::graph::{
    adjacency_ok, dense, has_edge, lemma_dense_iff_full, with_half_edge, Adjacency, SimpleGraph,
};
use crate::model::HeapModel;
use crate::ph::{HeapElmt, PairingHeap};
use crate::prio::Prio;
use crate::weight::{capped, Weight};

verus! {

/// What Prim's algorithm knows of one node.
#[derive(Clone, Copy, Debug)]
pub struct PrimNode<W> {
    /// The number of the node.
    pub idx: usize,
    /// The node of the tree that the lightest edge found so far comes from.
    pub parent: Option<usize>,
    /// The handle of the node in the heap, retired once the node is in the tree.
    pub heap: HeapElmt,
    /// The weight of the lightest edge found so far from the tree to the node.
    pub dist: W,
}

impl<W: Weight> PrimNode<W> {
    /// The state of a node that no edge has reached.
    pub fn new() -> (r: Self)
        ensures
            r.idx == 0,
            r.parent.is_none(),
            r.heap@.is_none(),
            r.dist.rank() == W::ceiling(),
    {
        Self { idx: 0, parent: None, heap: HeapElmt::default(), dist: W::max_value() }
    }
}

/// The tree edge of `v` is in order: it comes from a node of `before` along an
/// edge of the graph that weighs what is recorded for `v`, less than the
/// largest weight. A node without a tree edge has the weight it started with.
pub open spec fn link_ok<W: Weight>(
    adj: Adjacency<W>,
    nodes: Seq<PrimNode<W>>,
    src: usize,
    before: Seq<usize>,
    v: int,
) -> bool {
    let x = nodes[v];
    match x.parent {
        Some(p) => before.contains(p) && has_edge(adj, p, v as usize, x.dist) && x.dist.rank()
            < W::ceiling(),
        None => x.dist.rank() == if v == src {
            0
        } else {
            W::ceiling()
        },
    }
}

/// The node at place `t` of `order` joined the tree by Prim's rule: its tree
/// edge is in order, and no edge from a node before it to a node not before it
/// weighs less than what is recorded for it.
pub open spec fn grown<W: Weight>(
    adj: Adjacency<W>,
    nodes: Seq<PrimNode<W>>,
    src: usize,
    order: Seq<usize>,
    t: int,
) -> bool {
    let v = order[t];
    let before = order.take(t);
    &&& link_ok(adj, nodes, src, before, v as int)
    &&& forall|s: int, j: int|
        0 <= s < t && 0 <= j < adj[order[s]].len() && !before.contains(
            (#[trigger] adj[order[s]][j]).0,
        ) ==> nodes[v as int].dist.rank() <= adj[order[s]][j].1.rank()
}

/// `nodes` records a forest that Prim's algorithm grows from `src`: `order`
/// lists every node once, the source first, and each node joined by Prim's rule.
pub open spec fn prim_tree<W: Weight>(
    adj: Adjacency<W>,
    nodes: Seq<PrimNode<W>>,
    src: usize,
    order: Seq<usize>,
) -> bool {
    &&& nodes.len() == adj.len()
    &&& order.len() == nodes.len()
    &&& order.no_duplicates()
    &&& forall|t: int| 0 <= t < order.len() ==> (#[trigger] order[t]) < nodes.len()
    &&& forall|t: int| 0 <= t < order.len() ==> #[trigger] grown(adj, nodes, src, order, t)
    &&& src < nodes.len() ==> order[0] == src
}

/// The lists `adj` with the edge between `a` and `b`, unless they are one node.
pub open spec fn with_edge<W>(adj: Adjacency<W>, a: usize, b: usize, w: W) -> Adjacency<W> {
    if a == b {
        adj
    } else {
        with_half_edge(with_half_edge(adj, a, b, w), b, a, w)
    }
}

/// The graph of the tree edges of the first `k` nodes, added in the order of the nodes.
pub open spec fn tree_graph<W>(nodes: Seq<PrimNode<W>>, k: nat) -> Adjacency<W>
    decreases k,
{
    if k == 0 {
        Map::empty()
    } else {
        let g = tree_graph(nodes, (k - 1) as nat);
        let x = nodes[k - 1];
        match x.parent {
            Some(p) => with_edge(g, p, x.idx, x.dist),
            None => g,
        }
    }
}

/// The sum of the weights of the tree edges of the first `k` nodes.
pub open spec fn tree_weight<W: Weight>(nodes: Seq<PrimNode<W>>, k: nat) -> int
    decreases k,
{
    if k == 0 {
        0
    } else {
        tree_weight(nodes, (k - 1) as nat) + if nodes[k - 1].parent.is_some() {
            nodes[k - 1].dist.rank()
        } else {
            0
        }
    }
}

/// The number of tree edges of the first `k` nodes.
pub open spec fn tree_edges<W>(nodes: Seq<PrimNode<W>>, k: nat) -> nat
    decreases k,
{
    if k == 0 {
        0
    } else {
        tree_edges(nodes, (k - 1) as nat) + if nodes[k - 1].parent.is_some() {
            1nat
        } else {
            0nat
        }
    }
}

/// No edge from a node in the tree to `v` weighs less than what is recorded
/// for `v`; of the edges that leave `cur` only the first `upto` count.
spec fn relaxed_to<W: Weight>(
    adj: Adjacency<W>,
    nodes: Seq<PrimNode<W>>,
    order: Seq<usize>,
    cur: int,
    upto: int,
    v: int,
) -> bool {
    forall|s: int, j: int|
        0 <= s < order.len() && 0 <= j < adj[order[s]].len() && (#[trigger] adj[order[s]][j]).0 == v
            && (order[s] != cur || j < upto) ==> nodes[v].dist.rank() <= adj[order[s]][j].1.rank()
}

/// What the algorithm keeps true of node `v`.
spec fn pnode_inv<W: Weight>(
    adj: Adjacency<W>,
    nodes: Seq<PrimNode<W>>,
    h: HeapModel<usize, W>,
    src: usize,
    order: Seq<usize>,
    cur: int,
    upto: int,
    v: int,
) -> bool {
    let x = nodes[v];
    &&& x.idx == v
    &&& match x.heap@ {
        Some(id) => {
            &&& h.nodes.contains_key(id.0)
            &&& h.nodes[id.0].gen == id.1
            &&& h.nodes[id.0].key == v
            &&& h.nodes[id.0].prio == x.dist
            &&& !order.contains(v as usize)
            &&& link_ok(adj, nodes, src, order, v)
            &&& relaxed_to(adj, nodes, order, cur, upto, v)
        },
        None => order.contains(v as usize),
    }
}

/// What the algorithm keeps true of the heap entry `d`.
spec fn pentry_inv<W: Weight>(nodes: Seq<PrimNode<W>>, h: HeapModel<usize, W>, d: int) -> bool {
    let k = h.nodes[d].key;
    k < nodes.len() && nodes[k as int].heap@ == Some((d, h.nodes[d].gen))
}

/// The invariant of Prim's algorithm. `cur` is the node whose edges are being
/// looked at, of which `upto` are done; or -1.
spec fn prim_inv<W: Weight>(
    adj: Adjacency<W>,
    nodes: Seq<PrimNode<W>>,
    h: HeapModel<usize, W>,
    src: usize,
    order: Seq<usize>,
    cur: int,
    upto: int,
) -> bool {
    &&& adjacency_ok(adj)
    &&& nodes.len() == adj.len()
    &&& forall|u: usize| u < nodes.len() <==> #[trigger] adj.contains_key(u)
    &&& order.no_duplicates()
    &&& forall|t: int| 0 <= t < order.len() ==> (#[trigger] order[t]) < nodes.len()
    &&& forall|t: int| 0 <= t < order.len() ==> #[trigger] grown(adj, nodes, src, order, t)
    &&& src < nodes.len() && order.len() > 0 ==> order[0] == src
    &&& forall|v: int|
        0 <= v < nodes.len() ==> #[trigger] pnode_inv(adj, nodes, h, src, order, cur, upto, v)
    &&& forall|d: int| h.nodes.contains_key(d) ==> #[trigger] pentry_inv(nodes, h, d)
}

/// After the root `r` left the heap, its node is the next of the tree.
proof fn lemma_prim_popped<W: Weight>(
    adj: Adjacency<W>,
    nodes: Seq<PrimNode<W>>,
    nodes2: Seq<PrimNode<W>>,
    h: HeapModel<usize, W>,
    h2: HeapModel<usize, W>,
    src: usize,
    order: Seq<usize>,
    r: int,
)
    requires
        prim_inv(adj, nodes, h, src, order, -1, 0),
        h.nodes.contains_key(r),
        h2.nodes.dom() == h.nodes.dom().remove(r),
        forall|d: int| #[trigger]
            h2.nodes.contains_key(d) ==> h.nodes[r].prio.rank() <= h2.nodes[d].prio.rank()
                && h2.nodes[d].key == h.nodes[d].key && h2.nodes[d].prio == h.nodes[d].prio
                && h2.nodes[d].gen == h.nodes[d].gen,
        h.nodes[r].key < nodes.len() ==> nodes2.len() == nodes.len() && (forall|v: int|
            0 <= v < nodes.len() ==> (#[trigger] nodes2[v]).idx == nodes[v].idx && nodes2[v].parent
                == nodes[v].parent && nodes2[v].dist == nodes[v].dist && nodes2[v].heap@
                == if v == h.nodes[r].key {
                None
            } else {
                nodes[v].heap@
            }),
    ensures
        h.nodes[r].key < nodes.len(),
        prim_inv(adj, nodes2, h2, src, order.push(h.nodes[r].key), h.nodes[r].key as int, 0),
{
    let x = h.nodes[r].key;
    let xi = x as int;
    let n = nodes.len();
    let order2 = order.push(x);
    let big = order.len() as int;
    assert(pentry_inv(nodes, h, r));
    assert(pnode_inv(adj, nodes, h, src, order, -1, 0, xi));
    assert(!order.contains(x));
    assert(order2.take(big) =~= order);
    assert(order2.no_duplicates()) by {
        assert forall|a: int, b: int|
            0 <= a < order2.len() && 0 <= b < order2.len() && a != b implies order2[a]
            != order2[b] by {
            if a < big && b < big {
                assert(order[a] != order[b]);
            } else if a < big {
                assert(order.contains(order[a]));
            } else {
                assert(order.contains(order[b]));
            }
        }
    }
    assert forall|t: int| 0 <= t < order2.len() implies #[trigger] grown(
        adj,
        nodes2,
        src,
        order2,
        t,
    ) by {
        let v = order2[t];
        let before = order2.take(t);
        if t < big {
            assert(grown(adj, nodes, src, order, t));
            assert(before =~= order.take(t));
            assert(order.contains(order[t]));
            assert(v != x);
            assert forall|s: int, j: int|
                0 <= s < t && 0 <= j < adj[order2[s]].len() && !before.contains(
                    (#[trigger] adj[order2[s]][j]).0,
                ) implies nodes2[v as int].dist.rank() <= adj[order2[s]][j].1.rank() by {
                assert(order2[s] == order[s]);
            }
        } else {
            assert(before =~= order);
            assert(v == x);
            assert forall|s: int, j: int|
                0 <= s < t && 0 <= j < adj[order2[s]].len() && !before.contains(
                    (#[trigger] adj[order2[s]][j]).0,
                ) implies nodes2[v as int].dist.rank() <= adj[order2[s]][j].1.rank() by {
                assert(order2[s] == order[s]);
                let a = order[s];
                let u = adj[a][j].0;
                assert(adj.contains_key(a));
                assert(adj.contains_key(u));
                let ui = u as int;
                assert(pnode_inv(adj, nodes, h, src, order, -1, 0, ui));
                let id = nodes[ui].heap@.unwrap();
                if id.0 != r {
                    assert(h2.nodes.contains_key(id.0));
                }
            }
        }
    }
    if src < n && big == 0 {
        assert(pnode_inv(adj, nodes, h, src, order, -1, 0, src as int));
        W::lemma_range(nodes[xi].dist);
        let ids = nodes[src as int].heap@.unwrap();
        if ids.0 != r {
            assert(h2.nodes.contains_key(ids.0));
        }
        if nodes[xi].parent.is_some() {
            assert(order.contains(nodes[xi].parent.unwrap()));
        }
    }
    assert forall|v: int| 0 <= v < nodes2.len() implies #[trigger] pnode_inv(
        adj,
        nodes2,
        h2,
        src,
        order2,
        xi,
        0,
        v,
    ) by {
        assert(pnode_inv(adj, nodes, h, src, order, -1, 0, v));
        if v == xi {
            assert(order2[big] == x);
        } else {
            match nodes[v].heap@ {
                Some(id) => {
                    assert(id.0 != r);
                    assert(h2.nodes.contains_key(id.0));
                    assert(!order2.contains(v as usize)) by {
                        if order2.contains(v as usize) {
                            let a = choose|a: int| 0 <= a < order2.len() && order2[a] == v as usize;
                            assert(order[a] == v as usize);
                        }
                    }
                    if let Some(p) = nodes[v].parent {
                        let a = choose|a: int| 0 <= a < order.len() && order[a] == p;
                        assert(order2[a] == p);
                    }
                    assert forall|s: int, j: int|
                        0 <= s < order2.len() && 0 <= j < adj[order2[s]].len() && (
                        #[trigger] adj[order2[s]][j]).0 == v && (order2[s] != xi || j < 0) implies nodes2[v].dist.rank()
                        <= adj[order2[s]][j].1.rank() by {
                        assert(s < big);
                        assert(order2[s] == order[s]);
                    }
                },
                None => {
                    let a = choose|a: int| 0 <= a < order.len() && order[a] == v as usize;
                    assert(order2[a] == v as usize);
                },
            }
        }
    }
    assert forall|d: int| h2.nodes.contains_key(d) implies #[trigger] pentry_inv(nodes2, h2, d) by {
        assert(h.nodes.contains_key(d));
        assert(pentry_inv(nodes, h, d));
    }
}

/// An edge that offers its end nothing lighter, or whose end is in the tree,
/// leaves everything as it is.
proof fn lemma_prim_edge_kept<W: Weight>(
    adj: Adjacency<W>,
    nodes: Seq<PrimNode<W>>,
    h: HeapModel<usize, W>,
    src: usize,
    order: Seq<usize>,
    x: usize,
    j: int,
)
    requires
        prim_inv(adj, nodes, h, src, order, x as int, j),
        adj.contains_key(x),
        0 <= j < adj[x].len(),
        nodes[adj[x][j].0 as int].heap@.is_none() || !(adj[x][j].1.rank() < nodes[adj[x][j].0 as int].dist.rank()),
    ensures
        prim_inv(adj, nodes, h, src, order, x as int, j + 1),
{
    assert forall|v: int| 0 <= v < nodes.len() implies #[trigger] pnode_inv(
        adj,
        nodes,
        h,
        src,
        order,
        x as int,
        j + 1,
        v,
    ) by {
        assert(pnode_inv(adj, nodes, h, src, order, x as int, j, v));
    }
}

/// An edge that offers its end `u` something lighter: `u` records the weight
/// and the node the edge comes from, and its priority in the heap is lowered.
proof fn lemma_prim_edge_taken<W: Weight>(
    adj: Adjacency<W>,
    nodes: Seq<PrimNode<W>>,
    nodes2: Seq<PrimNode<W>>,
    h: HeapModel<usize, W>,
    h2: HeapModel<usize, W>,
    src: usize,
    order: Seq<usize>,
    x: usize,
    j: int,
)
    requires
        prim_inv(adj, nodes, h, src, order, x as int, j),
        adj.contains_key(x),
        order.contains(x),
        0 <= j < adj[x].len(),
        nodes[adj[x][j].0 as int].heap@.is_some(),
        adj[x][j].1.rank() < nodes[adj[x][j].0 as int].dist.rank(),
        nodes2 == nodes.update(
            adj[x][j].0 as int,
            PrimNode {
                idx: nodes[adj[x][j].0 as int].idx,
                parent: Some(x),
                heap: nodes[adj[x][j].0 as int].heap,
                dist: adj[x][j].1,
            },
        ),
        h2.nodes.dom() == h.nodes.dom(),
        forall|d: int| #[trigger]
            h.nodes.contains_key(d) ==> h2.nodes[d].key == h.nodes[d].key && h2.nodes[d].gen
                == h.nodes[d].gen && h2.nodes[d].prio == if d == nodes[adj[x][j].0 as int].heap@.unwrap().0 {
                adj[x][j].1
            } else {
                h.nodes[d].prio
            },
    ensures
        prim_inv(adj, nodes2, h2, src, order, x as int, j + 1),
{
    let u = adj[x][j].0;
    let ui = u as int;
    let w = adj[x][j].1;
    assert(adj.contains_key(u));
    assert(pnode_inv(adj, nodes, h, src, order, x as int, j, ui));
    let idu = nodes[ui].heap@.unwrap();
    W::lemma_range(nodes[ui].dist);
    assert forall|t: int| 0 <= t < order.len() implies #[trigger] grown(adj, nodes2, src, order, t) by {
        assert(grown(adj, nodes, src, order, t));
        assert(order.contains(order[t]));
        assert(order[t] != u);
    }
    assert forall|v: int| 0 <= v < nodes2.len() implies #[trigger] pnode_inv(
        adj,
        nodes2,
        h2,
        src,
        order,
        x as int,
        j + 1,
        v,
    ) by {
        assert(pnode_inv(adj, nodes, h, src, order, x as int, j, v));
        if v == ui {
            assert(adj[x][j] == (u, w));
            assert(has_edge(adj, x, u, w));
        } else {
            if let Some(id) = nodes[v].heap@ {
                assert(pentry_inv(nodes, h, id.0));
                assert(id.0 != idu.0) by {
                    assert(pentry_inv(nodes, h, idu.0));
                }
            }
        }
    }
    assert forall|d: int| h2.nodes.contains_key(d) implies #[trigger] pentry_inv(nodes2, h2, d) by {
        assert(pentry_inv(nodes, h, d));
    }
}

/// When all edges of `x` were looked at, no node is singled out any more.
proof fn lemma_prim_turn<W: Weight>(
    adj: Adjacency<W>,
    nodes: Seq<PrimNode<W>>,
    h: HeapModel<usize, W>,
    src: usize,
    order: Seq<usize>,
    x: usize,
)
    requires
        adj.contains_key(x),
        prim_inv(adj, nodes, h, src, order, x as int, adj[x].len() as int),
    ensures
        prim_inv(adj, nodes, h, src, order, -1, 0),
{
    assert forall|v: int| 0 <= v < nodes.len() implies #[trigger] pnode_inv(
        adj,
        nodes,
        h,
        src,
        order,
        -1,
        0,
        v,
    ) by {
        assert(pnode_inv(adj, nodes, h, src, order, x as int, adj[x].len() as int, v));
    }
}

/// The sum of two weights, stopped at `top`, is the sum stopped at `top`
/// whether or not the first was stopped before.
proof fn lemma_capped_sum(a: int, b: int, top: int)
    requires
        0 <= a,
        0 <= b,
        0 <= top,
    ensures
        capped(capped(a, top) + b, top) == capped(a + b, top),
{
}

/// What holds while the nodes are put into the heap: each node so far has the
/// weight it starts with, no tree edge, and an entry of its own in the heap.
spec fn init_inv<W: Weight>(
    nodes: Seq<PrimNode<W>>,
    h: HeapModel<usize, W>,
    src: usize,
) -> bool {
    &&& forall|v: int|
        0 <= v < nodes.len() ==> {
            let x = #[trigger] nodes[v];
            &&& x.idx == v
            &&& x.parent.is_none()
            &&& x.dist.rank() == if v == src {
                0
            } else {
                W::ceiling()
            }
            &&& x.heap@.is_some()
            &&& h.nodes.contains_key(x.heap@.unwrap().0)
            &&& h.nodes[x.heap@.unwrap().0].gen == x.heap@.unwrap().1
            &&& h.nodes[x.heap@.unwrap().0].key == v
            &&& h.nodes[x.heap@.unwrap().0].prio == x.dist
        }
    &&& forall|d: int| h.nodes.contains_key(d) ==> #[trigger] pentry_inv(nodes, h, d)
}

/// Once every node is in the heap the algorithm can start.
proof fn lemma_prim_start<W: Weight>(
    adj: Adjacency<W>,
    nodes: Seq<PrimNode<W>>,
    h: HeapModel<usize, W>,
    src: usize,
)
    requires
        adjacency_ok(adj),
        nodes.len() == adj.len(),
        forall|u: usize| u < nodes.len() <==> #[trigger] adj.contains_key(u),
        init_inv(nodes, h, src),
    ensures
        prim_inv(adj, nodes, h, src, Seq::<usize>::empty(), -1, 0),
{
    let order = Seq::<usize>::empty();
    assert forall|v: int| 0 <= v < nodes.len() implies #[trigger] pnode_inv(
        adj,
        nodes,
        h,
        src,
        order,
        -1,
        0,
        v,
    ) by {
        let x = nodes[v];
        assert(x.idx == v);
    }
}

/// The outcome of Prim's algorithm: a forest grown by Prim's rule, the graph
/// of its edges, their number and their weight.
pub open spec fn prim_result<W: Weight>(
    adj: Adjacency<W>,
    src: usize,
    nodes: Seq<PrimNode<W>>,
    order: Seq<usize>,
    tree: Adjacency<W>,
    half_edges: usize,
    total: W,
) -> bool {
    &&& prim_tree(adj, nodes, src, order)
    &&& nodes.len() <= usize::MAX
    &&& forall|u: usize| u < nodes.len() <==> #[trigger] adj.contains_key(u)
    &&& forall|v: int| 0 <= v < nodes.len() ==> (#[trigger] nodes[v]).idx == v
    &&& tree == tree_graph(nodes, nodes.len())
    &&& half_edges == capped(2 * tree_edges(nodes, nodes.len()) as int, usize::MAX as int)
    &&& total.rank() == capped(tree_weight(nodes, nodes.len()), W::ceiling())
}

/// Find the minimum spanning tree (MST) in a graph using Prim's algorithm.
///
/// The function returns a tuple of the total weight of the MST and a simple graph, whose edges are the MST's edges.
pub fn mst_prim<W: Weight>(graph: &SimpleGraph<W>, src: usize) -> (r: (SimpleGraph<W>, W))
    requires
        graph.wf(),
        dense(graph.adj()),
    ensures
        r.0.wf(),
        exists|nodes: Seq<PrimNode<W>>, order: Seq<usize>| #[trigger]
            prim_result(graph.adj(), src, nodes, order, r.0.adj(), r.0.edge_count(), r.1),
{
    let ghost adj = graph.adj();
    let n = graph.n_nodes();
    proof {
        lemma_dense_iff_full(adj.dom(), n as nat);
        assert forall|u: usize| u < n <==> #[trigger] adj.contains_key(u) by {
            if u < n {
                assert(adj.dom().contains(u));
            }
        }
    }
    let mut pq = PairingHeap::<usize, W>::new();
    let mut nodes: Vec<PrimNode<W>> = Vec::new();
    let mut ii: usize = 0;
    while ii < n
        invariant
            0 <= ii <= n,
            pq.wf(),
            nodes@.len() == ii,
            pq@.nodes.len() == ii,
            init_inv(nodes@, pq@, src),
        decreases n - ii,
    {
        let dist = if ii == src {
            W::zero()
        } else {
            W::max_value()
        };
        let ghost h1 = pq@;
        let ghost n1 = nodes@;
        let hd = pq.insert(ii, dist);
        nodes.push(PrimNode { idx: ii, parent: None, heap: hd, dist });
        proof {
            let h2 = pq@;
            let n2 = nodes@;
            let id = hd@.unwrap();
            assert forall|v: int| 0 <= v < n2.len() implies {
                let x = #[trigger] n2[v];
                &&& x.idx == v
                &&& x.parent.is_none()
                &&& x.dist.rank() == if v == src {
                    0
                } else {
                    W::ceiling()
                }
                &&& x.heap@.is_some()
                &&& h2.nodes.contains_key(x.heap@.unwrap().0)
                &&& h2.nodes[x.heap@.unwrap().0].gen == x.heap@.unwrap().1
                &&& h2.nodes[x.heap@.unwrap().0].key == v
                &&& h2.nodes[x.heap@.unwrap().0].prio == x.dist
            } by {
                if v < ii {
                    assert(n2[v] == n1[v]);
                    assert(h1.nodes.contains_key(n1[v].heap@.unwrap().0));
                }
            }
            assert forall|d: int| h2.nodes.contains_key(d) implies #[trigger] pentry_inv(
                n2,
                h2,
                d,
            ) by {
                if d != id.0 {
                    assert(h1.nodes.contains_key(d));
                    assert(pentry_inv(n1, h1, d));
                    assert(n2[h1.nodes[d].key as int] == n1[h1.nodes[d].key as int]);
                }
            }
        }
        ii = ii + 1;
    }
    proof {
        lemma_prim_start(adj, nodes@, pq@, src);
    }
    let ghost mut order: Seq<usize> = Seq::empty();
    let mut len = pq.len();
    while len != 0
        invariant
            pq.wf(),
            len == pq@.nodes.len(),
            adj == graph.adj(),
            nodes@.len() == n,
            order.len() + pq@.nodes.len() == n,
            prim_inv(adj, nodes@, pq@, src, order, -1, 0),
        decreases pq@.nodes.len(),
    {
        let ghost h_old = pq@;
        let ghost nodes_old = nodes@;
        proof {
            h_old.lemma_finite();
            if h_old.root.is_none() {
                assert(h_old.nodes.dom() =~= Set::<int>::empty());
            }
            assert(pentry_inv(nodes@, h_old, h_old.root.unwrap()));
        }
        let kp = pq.delete_min().unwrap();
        let node = kp.0;
        let mut pn = nodes[node];
        pn.heap.none();
        nodes.set(node, pn);
        proof {
            lemma_prim_popped(adj, nodes_old, nodes@, h_old, pq@, src, order, h_old.root.unwrap());
            order = order.push(node);
            assert(order[order.len() - 1] == node);
        }
        match graph.neighbours(&node) {
            Some(nb) => {
                let mut j: usize = 0;
                while j < nb.len()
                    invariant
                        pq.wf(),
                        nodes@.len() == n,
                        node < n,
                        adj.contains_key(node),
                        nb@ == adj[node],
                        order.contains(node),
                        order.len() + pq@.nodes.len() == n,
                        0 <= j <= nb@.len(),
                        prim_inv(adj, nodes@, pq@, src, order, node as int, j as int),
                    decreases nb@.len() - j,
                {
                    let e = nb[j];
                    let u = e.0;
                    let w = e.1;
                    proof {
                        assert(adj.contains_key(adj[node][j as int].0));
                        assert(pnode_inv(adj, nodes@, pq@, src, order, node as int, j as int, u as int));
                    }
                    let primnode = nodes[u];
                    if !primnode.heap.is_none() && w.below(&primnode.dist) {
                        let ghost h1 = pq@;
                        let ghost n1 = nodes@;
                        nodes.set(
                            u,
                            PrimNode {
                                idx: primnode.idx,
                                parent: Some(node),
                                heap: primnode.heap,
                                dist: w,
                            },
                        );
                        proof {
                            assert(pq.live(primnode.heap));
                        }
                        pq.update_prio(&primnode.heap, w);
                        proof {
                            lemma_prim_edge_taken(adj, n1, nodes@, h1, pq@, src, order, node, j as int);
                        }
                    } else {
                        proof {
                            lemma_prim_edge_kept(adj, nodes@, pq@, src, order, node, j as int);
                        }
                    }
                    j = j + 1;
                }
                proof {
                    lemma_prim_turn(adj, nodes@, pq@, src, order, node);
                }
            },
            None => {
                proof {
                    assert(adj.contains_key(node));
                    assert(false);
                }
            },
        }
        len = pq.len();
    }
    proof {
        pq@.lemma_finite();
        if pq@.root.is_some() {
            assert(pq@.nodes.dom().contains(pq@.root.unwrap()));
        }
        assert(pq@.nodes.dom() =~= Set::<int>::empty());
        assert(order.len() == n);
        assert(prim_tree(adj, nodes@, src, order));
        assert forall|v: int| 0 <= v < n implies (#[trigger] nodes@[v]).idx == v && (
        nodes@[v].parent matches Some(p) ==> p != v) by {
            assert(pnode_inv(adj, nodes@, pq@, src, order, -1, 0, v));
            if nodes@[v].heap@.is_some() {
                assert(pq@.nodes.dom().contains(nodes@[v].heap@.unwrap().0));
            }
            assert(order.contains(v as usize));
            if let Some(p) = nodes@[v].parent {
                let t = choose|t: int| 0 <= t < order.len() && order[t] == v as usize;
                assert(grown(adj, nodes@, src, order, t));
                let k = choose|k: int|
                    0 <= k < adj[p].len() && #[trigger] adj[p][k] == (v as usize, nodes@[v].dist);
                assert(adj[p][k].0 != p);
            }
        }
    }
    let mut rg = SimpleGraph::<W>::with_capacity(n);
    let mut dist = W::zero();
    let mut k: usize = 0;
    proof {
        W::lemma_range(dist);
    }
    while k < n
        invariant
            0 <= k <= n,
            nodes@.len() == n,
            rg.wf(),
            forall|v: int|
                0 <= v < n ==> (#[trigger] nodes@[v]).idx == v && (nodes@[v].parent matches Some(p)
                    ==> p != v),
            rg.adj() == tree_graph(nodes@, k as nat),
            rg.edge_count() == capped(2 * tree_edges(nodes@, k as nat) as int, usize::MAX as int),
            dist.rank() == capped(tree_weight(nodes@, k as nat), W::ceiling()),
            0 <= tree_weight(nodes@, k as nat),
        decreases n - k,
    {
        let node = nodes[k];
        proof {
            W::lemma_range(node.dist);
            W::lemma_range(dist);
            lemma_capped_sum(tree_weight(nodes@, k as nat), node.dist.rank(), W::ceiling());
        }
        match node.parent {
            Some(p) => {
                rg.add_weighted_edges(p, node.idx, node.dist);
                dist = dist.plus(node.dist);
            },
            None => {},
        }
        k = k + 1;
    }
    let r = (rg, dist);
    proof {
        assert(prim_tree(graph.adj(), nodes@, src, order));
        assert(prim_result(graph.adj(), src, nodes@, order, r.0.adj(), r.0.edge_count(), r.1));
    }
    r
}

} // verus!
