//! Dijkstra's algorithm on a `SimpleGraph`, driven by a pairing heap.
use vstd::prelude::*;
use crate::graph::{adjacency_ok, dense, lemma_dense_iff_full, Adjacency, SimpleGraph};
use crate::model::HeapModel;
use crate::ph::PairingHeap;
use crate::prio::Prio;
use crate::sssp::{
    answer_is_best, best, lemma_chain_front, route, solves, traverse_path, tree_ok, walk_cost,
    DijNode, LazyShortestPaths, ShortestPath,
};
use crate::weight::{capped, Weight};

verus! {

/// The nodes whose distance is final.
spec fn visited_set<W>(nodes: Seq<DijNode<W>>) -> Set<int> {
    Set::new(|v: int| 0 <= v < nodes.len() && nodes[v].visited)
}

/// The heap holds an entry for node `v` with a priority of rank `r`.
spec fn has_entry<W: Weight>(h: HeapModel<usize, W>, v: int, r: int) -> bool {
    exists|d: int| #[trigger]
        h.nodes.contains_key(d) && h.nodes[d].key == v && h.nodes[d].prio.rank() == r
}

/// The distance of `v` is the distance of its predecessor plus the weight of
/// an edge from the predecessor to `v`.
spec fn edge_from<W: Weight>(adj: Adjacency<W>, nodes: Seq<DijNode<W>>, v: int) -> bool {
    let p = nodes[v].pred;
    exists|j: int|
        0 <= j < adj[p].len() && (#[trigger] adj[p][j]).0 == v && nodes[v].dist.rank()
            == nodes[p as int].dist.rank() + adj[p][j].1.rank()
}

/// The first `upto` edges that leave `u` are relaxed: none of them offers its
/// end a shorter distance than the end has.
spec fn relaxed<W: Weight>(
    adj: Adjacency<W>,
    nodes: Seq<DijNode<W>>,
    u: int,
    upto: int,
) -> bool {
    forall|j: int|
        0 <= j < upto ==> nodes[(#[trigger] adj[u as usize][j]).0 as int].dist.rank() <= capped(
            nodes[u].dist.rank() + adj[u as usize][j].1.rank(),
            W::ceiling(),
        )
}

/// The graph is well formed and its nodes are the numbers below `nodes.len()`.
spec fn frame_ok<W: Weight>(adj: Adjacency<W>, nodes: Seq<DijNode<W>>, src: usize) -> bool {
    &&& adjacency_ok(adj)
    &&& nodes.len() == adj.len()
    &&& src < nodes.len()
    &&& forall|u: usize| u < nodes.len() <==> #[trigger] adj.contains_key(u)
}

/// What the search keeps true of node `v`. `cur` is the node whose edges are
/// being relaxed, or -1; `cnt` bounds the edges on a path to a node that is
/// not yet final.
spec fn node_inv<W: Weight>(
    adj: Adjacency<W>,
    nodes: Seq<DijNode<W>>,
    src: usize,
    cur: int,
    cnt: int,
    v: int,
) -> bool {
    let x = nodes[v];
    &&& x.pred < nodes.len()
    &&& x.visited ==> (v == src || x.feasible) && relaxed(adj, nodes, v, adj[v as usize].len() as int)
    &&& !x.feasible && v != src ==> x.dist.rank() == W::ceiling()
    &&& x.feasible && v != src ==> {
        &&& v != src
        &&& x.len < nodes.len()
        &&& x.len == nodes[x.pred as int].len + 1
        &&& x.pred == src || nodes[x.pred as int].feasible
        &&& nodes[x.pred as int].visited || x.pred == cur
        &&& x.dist.rank() < W::ceiling()
        &&& edge_from(adj, nodes, v)
        &&& !x.visited ==> x.len <= cnt
    }
}

/// What the search keeps true of the heap entry `d`.
spec fn entry_inv<W: Weight>(
    nodes: Seq<DijNode<W>>,
    h: HeapModel<usize, W>,
    src: usize,
    d: int,
) -> bool {
    let k = h.nodes[d].key;
    &&& k < nodes.len()
    &&& nodes[k as int].dist.rank() <= h.nodes[d].prio.rank()
    &&& k == src || nodes[k as int].feasible
    &&& forall|v: int|
        0 <= v < nodes.len() && (#[trigger] nodes[v]).visited ==> nodes[v].dist.rank()
            <= h.nodes[d].prio.rank()
}

/// The invariant of the search.
spec fn search_inv<W: Weight>(
    adj: Adjacency<W>,
    nodes: Seq<DijNode<W>>,
    h: HeapModel<usize, W>,
    src: usize,
    cur: int,
    cnt: int,
) -> bool {
    &&& frame_ok(adj, nodes, src)
    &&& nodes[src as int].feasible
    &&& nodes[src as int].len == 0
    &&& nodes[src as int].dist.rank() == 0
    &&& cur == src || nodes[src as int].visited || forall|v: int|
        0 <= v < nodes.len() && v != src ==> !(#[trigger] nodes[v]).feasible
    &&& forall|v: int| 0 <= v < nodes.len() ==> #[trigger] node_inv(adj, nodes, src, cur, cnt, v)
    &&& forall|d: int| h.nodes.contains_key(d) ==> #[trigger] entry_inv(nodes, h, src, d)
    &&& forall|v: int|
        0 <= v < nodes.len() && v != cur && !nodes[v].visited && (nodes[v].feasible || v == src)
            ==> #[trigger] has_entry(h, v, nodes[v].dist.rank())
}

/// What holds while the edges of `node` are relaxed: `node` is not final, its
/// distance has rank `pr`, no entry of the heap and no final node contradicts that.
spec fn relax_inv<W: Weight>(
    adj: Adjacency<W>,
    nodes: Seq<DijNode<W>>,
    h: HeapModel<usize, W>,
    src: usize,
    node: int,
    pr: int,
    upto: int,
) -> bool {
    &&& 0 <= node < nodes.len()
    &&& !nodes[node].visited
    &&& node == src || nodes[node].feasible
    &&& nodes[node].dist.rank() == pr
    &&& nodes[node].len <= visited_set(nodes).len()
    &&& relaxed(adj, nodes, node, upto)
    &&& forall|d: int| #[trigger] h.nodes.contains_key(d) ==> pr <= h.nodes[d].prio.rank()
    &&& forall|v: int| 0 <= v < nodes.len() && (#[trigger] nodes[v]).visited ==> nodes[v].dist.rank() <= pr
}

/// There are at most as many final nodes as nodes, and fewer where some node
/// is not final.
proof fn lemma_visited_bound<W>(nodes: Seq<DijNode<W>>, a: int, b: int)
    requires
        0 <= a < nodes.len(),
        0 <= b < nodes.len(),
        !nodes[a].visited,
        !nodes[b].visited,
    ensures
        visited_set(nodes).finite(),
        visited_set(nodes).len() + 1 <= nodes.len(),
        a != b ==> visited_set(nodes).len() + 2 <= nodes.len(),
{
    let r = vstd::set_lib::set_int_range(0, nodes.len() as int);
    vstd::set_lib::lemma_int_range(0, nodes.len() as int);
    let s = visited_set(nodes);
    let both = s.insert(a).insert(b);
    assert(s.subset_of(r));
    vstd::set_lib::lemma_len_subset(s, r);
    assert(both.subset_of(r));
    vstd::set_lib::lemma_len_subset(both, r);
}

/// The start of the search: no node is final, and the heap holds the source.
proof fn lemma_start<W: Weight>(
    adj: Adjacency<W>,
    nodes: Seq<DijNode<W>>,
    h: HeapModel<usize, W>,
    src: usize,
    e: int,
)
    requires
        frame_ok(adj, nodes, src),
        forall|v: int|
            0 <= v < nodes.len() ==> (#[trigger] nodes[v]).pred == 0 && nodes[v].len == 0
                && !nodes[v].visited && nodes[v].feasible == (v == src) && nodes[v].dist.rank() == if v == src {
                0
            } else {
                W::ceiling()
            },
        h.nodes.dom() == Set::<int>::empty().insert(e),
        h.nodes[e].key == src,
        h.nodes[e].prio.rank() == 0,
    ensures
        search_inv(adj, nodes, h, src, -1, 0),
{
    assert forall|v: int| 0 <= v < nodes.len() implies #[trigger] node_inv(
        adj,
        nodes,
        src,
        -1,
        0,
        v,
    ) by {
        assert(!nodes[v].visited);
    }
    assert forall|d: int| h.nodes.contains_key(d) implies #[trigger] entry_inv(nodes, h, src, d) by {
        assert(d == e);
    }
    assert forall|v: int|
        0 <= v < nodes.len() && v != -1 && !nodes[v].visited && (nodes[v].feasible || v == src)
        implies #[trigger] has_entry(h, v, nodes[v].dist.rank()) by {
        assert(v == src);
        assert(h.nodes.contains_key(e));
    }
}

/// After the root `r` left the heap: where its node is final the entry was
/// stale, and else the node is the next to become final.
proof fn lemma_popped<W: Weight>(
    adj: Adjacency<W>,
    nodes: Seq<DijNode<W>>,
    h: HeapModel<usize, W>,
    h2: HeapModel<usize, W>,
    src: usize,
    cnt: int,
    r: int,
)
    requires
        search_inv(adj, nodes, h, src, -1, cnt),
        cnt == visited_set(nodes).len(),
        h.nodes.contains_key(r),
        h2.nodes.dom() == h.nodes.dom().remove(r),
        forall|d: int| #[trigger]
            h2.nodes.contains_key(d) ==> h.nodes[r].prio.rank() <= h2.nodes[d].prio.rank()
                && h2.nodes[d].key == h.nodes[d].key && h2.nodes[d].prio == h.nodes[d].prio,
    ensures
        h.nodes[r].key < nodes.len(),
        nodes[h.nodes[r].key as int].visited ==> search_inv(adj, nodes, h2, src, -1, cnt),
        !nodes[h.nodes[r].key as int].visited ==> search_inv(
            adj,
            nodes,
            h2,
            src,
            h.nodes[r].key as int,
            cnt + 1,
        ) && relax_inv(adj, nodes, h2, src, h.nodes[r].key as int, h.nodes[r].prio.rank(), 0),
{
    let node = h.nodes[r].key as int;
    let pr = h.nodes[r].prio.rank();
    assert(entry_inv(nodes, h, src, r));
    let cur: int = if nodes[node].visited { -1 } else { node };
    let c2: int = if nodes[node].visited { cnt } else { cnt + 1 };
    assert forall|v: int| 0 <= v < nodes.len() implies #[trigger] node_inv(
        adj,
        nodes,
        src,
        cur,
        c2,
        v,
    ) by {
        assert(node_inv(adj, nodes, src, -1, cnt, v));
    }
    assert forall|d: int| h2.nodes.contains_key(d) implies #[trigger] entry_inv(nodes, h2, src, d) by {
        assert(h.nodes.contains_key(d));
        assert(entry_inv(nodes, h, src, d));
    }
    assert forall|v: int|
        0 <= v < nodes.len() && v != cur && !nodes[v].visited && (nodes[v].feasible || v == src)
        implies #[trigger] has_entry(h2, v, nodes[v].dist.rank()) by {
        assert(has_entry(h, v, nodes[v].dist.rank()));
        let d = choose|d: int| #[trigger]
            h.nodes.contains_key(d) && h.nodes[d].key == v && h.nodes[d].prio.rank()
                == nodes[v].dist.rank();
        assert(d != r);
        assert(h2.nodes.contains_key(d));
    }
    if !nodes[node].visited {
        assert(has_entry(h, node, nodes[node].dist.rank()));
        let d = choose|d: int| #[trigger]
            h.nodes.contains_key(d) && h.nodes[d].key == node && h.nodes[d].prio.rank()
                == nodes[node].dist.rank();
        if d != r {
            assert(h2.nodes.contains_key(d));
        }
        assert(nodes[node].dist.rank() == pr);
        if !nodes[src as int].visited && node != src {
            assert(!nodes[node].feasible);
        }
        assert(node_inv(adj, nodes, src, -1, cnt, node));
    }
}

/// An edge that offers its end nothing shorter leaves the search as it is.
proof fn lemma_edge_kept<W: Weight>(
    adj: Adjacency<W>,
    nodes: Seq<DijNode<W>>,
    h: HeapModel<usize, W>,
    src: usize,
    node: int,
    pr: int,
    j: int,
)
    requires
        search_inv(adj, nodes, h, src, node, (visited_set(nodes).len() + 1) as int),
        relax_inv(adj, nodes, h, src, node, pr, j),
        0 <= j < adj[node as usize].len(),
        nodes[adj[node as usize][j].0 as int].visited || !(capped(
            pr + adj[node as usize][j].1.rank(),
            W::ceiling(),
        ) < nodes[adj[node as usize][j].0 as int].dist.rank()),
    ensures
        relax_inv(adj, nodes, h, src, node, pr, j + 1),
{
    let u = adj[node as usize][j].0 as int;
    let w = adj[node as usize][j].1;
    W::lemma_range(w);
    W::lemma_range(nodes[node].dist);
    assert(adj.contains_key(node as usize));
    assert(adj.contains_key(adj[node as usize][j].0));
}

/// An edge that offers its end `u` a shorter distance: `u` takes the distance
/// and the predecessor, and the heap gets an entry for `u`.
proof fn lemma_edge_taken<W: Weight>(
    adj: Adjacency<W>,
    nodes: Seq<DijNode<W>>,
    nodes2: Seq<DijNode<W>>,
    h: HeapModel<usize, W>,
    h2: HeapModel<usize, W>,
    src: usize,
    node: int,
    pr: int,
    j: int,
    alt: W,
    e: int,
)
    requires
        search_inv(adj, nodes, h, src, node, (visited_set(nodes).len() + 1) as int),
        relax_inv(adj, nodes, h, src, node, pr, j),
        0 <= j < adj[node as usize].len(),
        alt.rank() == capped(pr + adj[node as usize][j].1.rank(), W::ceiling()),
        !nodes[adj[node as usize][j].0 as int].visited,
        alt.rank() < nodes[adj[node as usize][j].0 as int].dist.rank(),
        nodes[node].len + 1 <= usize::MAX,
        nodes2 == nodes.update(
            adj[node as usize][j].0 as int,
            DijNode {
                pred: node as usize,
                len: (nodes[node].len + 1) as usize,
                visited: false,
                feasible: true,
                dist: alt,
            },
        ),
        !h.nodes.contains_key(e),
        h2.nodes.dom() == h.nodes.dom().insert(e),
        h2.nodes[e].key == adj[node as usize][j].0,
        h2.nodes[e].prio == alt,
        forall|d: int| #[trigger]
            h.nodes.contains_key(d) ==> h2.nodes[d].key == h.nodes[d].key && h2.nodes[d].prio
                == h.nodes[d].prio,
    ensures
        visited_set(nodes2) == visited_set(nodes),
        search_inv(adj, nodes2, h2, src, node, (visited_set(nodes).len() + 1) as int),
        relax_inv(adj, nodes2, h2, src, node, pr, j + 1),
{
    let ui = adj[node as usize][j].0;
    let u = ui as int;
    let w = adj[node as usize][j].1;
    let n = nodes.len();
    let cnt = (visited_set(nodes).len() + 1) as int;
    W::lemma_range(w);
    W::lemma_range(nodes[node].dist);
    W::lemma_range(nodes[u].dist);
    assert(adj.contains_key(node as usize));
    assert(adj.contains_key(ui));
    assert(u != node);
    assert(0 <= u < n);
    assert(alt.rank() == pr + w.rank());
    assert(visited_set(nodes2) =~= visited_set(nodes));
    lemma_visited_bound(nodes, node, u);
    assert(node_inv(adj, nodes, src, node, cnt, node));
    assert(node_inv(adj, nodes, src, node, cnt, u));
    // the source is never taken
    assert(u != src) by {
        if u == src {
            assert(!nodes[src as int].visited);
            if node != src {
                assert(!nodes[node].feasible);
            }
        }
    }
    assert forall|v: int| 0 <= v < nodes2.len() implies #[trigger] node_inv(
        adj,
        nodes2,
        src,
        node,
        cnt,
        v,
    ) by {
        assert(node_inv(adj, nodes, src, node, cnt, v));
        let x = nodes2[v];
        if v == u {
            assert(x.pred == node);
            assert(nodes2[node] == nodes[node]);
            assert(adj[node as usize][j].0 == v);
            assert(edge_from(adj, nodes2, v));
            assert(x.pred < nodes2.len());
            assert(!x.visited);
            assert(x.feasible);
            assert(v != src);
            assert(x.len < nodes2.len());
            assert(x.len == nodes2[x.pred as int].len + 1);
            assert(x.pred == src || nodes2[x.pred as int].feasible);
            assert(x.dist.rank() < W::ceiling());
            assert(x.len <= cnt);
        } else {
            assert(x == nodes[v]);
            if x.visited {
                assert forall|k: int| 0 <= k < adj[v as usize].len() implies nodes2[(
                #[trigger] adj[v as usize][k]).0 as int].dist.rank() <= capped(
                    nodes2[v].dist.rank() + adj[v as usize][k].1.rank(),
                    W::ceiling(),
                ) by {
                    assert(adj.contains_key(v as usize));
                    assert(adj.contains_key(adj[v as usize][k].0));
                }
            }
            if x.feasible && v != src {
                let p = x.pred as int;
                assert(p != u);
                assert(nodes2[p] == nodes[p]);
                let k = choose|k: int|
                    0 <= k < adj[x.pred].len() && (#[trigger] adj[x.pred][k]).0 == v
                        && nodes[v].dist.rank() == nodes[p].dist.rank() + adj[x.pred][k].1.rank();
                assert(adj[x.pred][k].0 == v);
                assert(edge_from(adj, nodes2, v));
                assert(nodes2[x.pred as int].visited || x.pred == node);
                assert(x.len == nodes2[x.pred as int].len + 1);
            }
            assert(x.visited ==> relaxed(adj, nodes2, v, adj[v as usize].len() as int));
            assert(!x.feasible && v != src ==> x.dist.rank() == W::ceiling());
        }
    }
    assert forall|d: int| h2.nodes.contains_key(d) implies #[trigger] entry_inv(
        nodes2,
        h2,
        src,
        d,
    ) by {
        if d != e {
            assert(h.nodes.contains_key(d));
            assert(entry_inv(nodes, h, src, d));
        }
        assert forall|v: int| 0 <= v < nodes2.len() && (#[trigger] nodes2[v]).visited implies nodes2[v].dist.rank()
            <= h2.nodes[d].prio.rank() by {
            assert(nodes[v].visited);
        }
    }
    assert forall|v: int|
        0 <= v < nodes2.len() && v != node && !nodes2[v].visited && (nodes2[v].feasible || v == src)
        implies #[trigger] has_entry(h2, v, nodes2[v].dist.rank()) by {
        if v == u {
            assert(h2.nodes.contains_key(e));
        } else {
            assert(has_entry(h, v, nodes[v].dist.rank()));
            let d = choose|d: int| #[trigger]
                h.nodes.contains_key(d) && h.nodes[d].key == v && h.nodes[d].prio.rank()
                    == nodes[v].dist.rank();
            assert(h2.nodes.contains_key(d));
        }
    }
    assert(relaxed(adj, nodes2, node, j + 1)) by {
        assert forall|k: int| 0 <= k < j + 1 implies nodes2[(
        #[trigger] adj[node as usize][k]).0 as int].dist.rank() <= capped(
            nodes2[node].dist.rank() + adj[node as usize][k].1.rank(),
            W::ceiling(),
        ) by {
            assert(adj.contains_key(adj[node as usize][k].0));
        }
    }
    assert forall|d: int| #[trigger] h2.nodes.contains_key(d) implies pr
        <= h2.nodes[d].prio.rank() by {
        if d != e {
            assert(h.nodes.contains_key(d));
        }
    }
    assert forall|v: int| 0 <= v < nodes2.len() && (#[trigger] nodes2[v]).visited implies nodes2[v].dist.rank()
        <= pr by {
        assert(nodes[v].visited);
    }
}

/// After all edges of `node` were relaxed, `node` is final.
proof fn lemma_settled<W: Weight>(
    adj: Adjacency<W>,
    nodes: Seq<DijNode<W>>,
    nodes2: Seq<DijNode<W>>,
    h: HeapModel<usize, W>,
    src: usize,
    node: int,
    pr: int,
)
    requires
        search_inv(adj, nodes, h, src, node, (visited_set(nodes).len() + 1) as int),
        relax_inv(adj, nodes, h, src, node, pr, adj[node as usize].len() as int),
        nodes2 == nodes.update(node, DijNode { visited: true, ..nodes[node] }),
    ensures
        visited_set(nodes2).finite(),
        visited_set(nodes2).len() == visited_set(nodes).len() + 1,
        visited_set(nodes2).len() <= nodes.len(),
        search_inv(adj, nodes2, h, src, -1, visited_set(nodes2).len() as int),
{
    let cnt = (visited_set(nodes).len() + 1) as int;
    lemma_visited_bound(nodes, node, node);
    assert(visited_set(nodes2) =~= visited_set(nodes).insert(node));
    assert forall|v: int| 0 <= v < nodes2.len() implies #[trigger] node_inv(
        adj,
        nodes2,
        src,
        -1,
        cnt,
        v,
    ) by {
        assert(node_inv(adj, nodes, src, node, cnt, v));
        let x = nodes2[v];
        if x.visited {
            assert forall|k: int| 0 <= k < adj[v as usize].len() implies nodes2[(
            #[trigger] adj[v as usize][k]).0 as int].dist.rank() <= capped(
                nodes2[v].dist.rank() + adj[v as usize][k].1.rank(),
                W::ceiling(),
            ) by {
                assert(adj.contains_key(v as usize));
                assert(adj.contains_key(adj[v as usize][k].0));
            }
        }
        if x.feasible && v != src {
            let p = x.pred as int;
            let k = choose|k: int|
                0 <= k < adj[x.pred].len() && (#[trigger] adj[x.pred][k]).0 == v
                    && nodes[v].dist.rank() == nodes[p].dist.rank() + adj[x.pred][k].1.rank();
            assert(adj[x.pred][k].0 == v);
            assert(edge_from(adj, nodes2, v));
        }
    }
    assert forall|d: int| h.nodes.contains_key(d) implies #[trigger] entry_inv(nodes2, h, src, d) by {
        assert(entry_inv(nodes, h, src, d));
        assert forall|v: int| 0 <= v < nodes2.len() && (#[trigger] nodes2[v]).visited implies nodes2[v].dist.rank()
            <= h.nodes[d].prio.rank() by {
            if v != node {
                assert(nodes[v].visited);
            }
        }
    }
    assert forall|v: int|
        0 <= v < nodes2.len() && v != -1 && !nodes2[v].visited && (nodes2[v].feasible || v == src)
        implies #[trigger] has_entry(h, v, nodes2[v].dist.rank()) by {
        assert(has_entry(h, v, nodes[v].dist.rank()));
    }
}

/// No walk from the source is shorter than the distance of its end, once
/// every edge of the graph is relaxed.
proof fn lemma_no_shorter<W: Weight>(
    adj: Adjacency<W>,
    nodes: Seq<DijNode<W>>,
    src: usize,
    p: Seq<usize>,
    c: int,
)
    requires
        frame_ok(adj, nodes, src),
        nodes[src as int].dist.rank() == 0,
        forall|u: int| 0 <= u < nodes.len() ==> #[trigger] relaxed(
            adj,
            nodes,
            u,
            adj[u as usize].len() as int,
        ),
        p.len() >= 1,
        p[0] == src,
        walk_cost(adj, p, c),
    ensures
        p.last() < nodes.len(),
        nodes[p.last() as int].dist.rank() <= c,
    decreases p.len(),
{
    if p.len() > 1 {
        let u = p[p.len() - 2];
        let v = p[p.len() - 1];
        let j = choose|j: int|
            adj.contains_key(u) && 0 <= j < adj[u].len() && (#[trigger] adj[u][j]).0 == v
                && walk_cost(adj, p.drop_last(), c - adj[u][j].1.rank());
        let q = p.drop_last();
        lemma_no_shorter(adj, nodes, src, q, c - adj[u][j].1.rank());
        assert(q.last() == u);
        let ui = u as int;
        assert(ui as usize == u);
        assert(0 <= ui < nodes.len());
        assert(relaxed(adj, nodes, ui, adj[ui as usize].len() as int));
        assert(nodes[adj[ui as usize][j].0 as int].dist.rank() <= capped(
            nodes[ui].dist.rank() + adj[ui as usize][j].1.rank(),
            W::ceiling(),
        ));
        assert(adj.contains_key(adj[u][j].0));
        W::lemma_range(adj[u][j].1);
    }
}

/// The route of a node that was reached is a walk from the source of the
/// length recorded for the node.
proof fn lemma_route_walk<W: Weight>(
    adj: Adjacency<W>,
    nodes: Seq<DijNode<W>>,
    h: HeapModel<usize, W>,
    src: usize,
    cnt: int,
    v: int,
)
    requires
        search_inv(adj, nodes, h, src, -1, cnt),
        0 <= v < nodes.len(),
        nodes[v].feasible || v == src,
    ensures
        walk_cost(adj, route(nodes, v as usize), nodes[v].dist.rank()),
    decreases nodes[v].len,
{
    assert(node_inv(adj, nodes, src, -1, cnt, v));
    if v == src {
        assert(route(nodes, v as usize) =~= seq![src]);
    } else {
        let x = nodes[v];
        let p = x.pred as int;
        lemma_route_walk(adj, nodes, h, src, cnt, p);
        let k = choose|k: int|
            0 <= k < adj[x.pred].len() && (#[trigger] adj[x.pred][k]).0 == v && nodes[v].dist.rank()
                == nodes[p].dist.rank() + adj[x.pred][k].1.rank();
        let rt = route(nodes, v as usize);
        assert(rt == route(nodes, x.pred).push(v as usize));
        assert(rt.drop_last() =~= route(nodes, x.pred));
        lemma_chain_front(nodes, x.pred, nodes[p].len as nat);
        assert(rt[rt.len() - 2] == x.pred);
        assert(adj.contains_key(x.pred));
    }
}

/// When the heap is empty the search has solved the problem.
proof fn lemma_done<W: Weight>(
    adj: Adjacency<W>,
    nodes: Seq<DijNode<W>>,
    h: HeapModel<usize, W>,
    src: usize,
    cnt: int,
)
    requires
        search_inv(adj, nodes, h, src, -1, cnt),
        h.nodes.dom() == Set::<int>::empty(),
    ensures
        solves(adj, nodes, src),
{
    assert forall|v: int| 0 <= v < nodes.len() implies (#[trigger] nodes[v]).pred < nodes.len() by {
        assert(node_inv(adj, nodes, src, -1, cnt, v));
    }
    assert forall|v: int| 0 <= v < nodes.len() && (#[trigger] nodes[v]).feasible && v
        != src implies {
        let p = nodes[v].pred as int;
        &&& nodes[v].len < nodes.len()
        &&& nodes[v].len == nodes[p].len + 1
        &&& nodes[p].feasible
    } by {
        assert(node_inv(adj, nodes, src, -1, cnt, v));
    }
    assert(tree_ok(nodes, src));
    assert forall|v: int| 0 <= v < nodes.len() && (#[trigger] nodes[v]).feasible implies nodes[v].dist.rank()
        < W::ceiling() && walk_cost(adj, route(nodes, v as usize), nodes[v].dist.rank()) by {
        assert(node_inv(adj, nodes, src, -1, cnt, v));
        W::lemma_range(nodes[v].dist);
        lemma_route_walk(adj, nodes, h, src, cnt, v);
    }
    assert forall|v: int| 0 <= v < nodes.len() && !(#[trigger] nodes[v]).feasible && v
        != src implies nodes[v].dist.rank() == W::ceiling() by {
        assert(node_inv(adj, nodes, src, -1, cnt, v));
    }
    assert forall|u: int| 0 <= u < nodes.len() implies #[trigger] relaxed(
        adj,
        nodes,
        u,
        adj[u as usize].len() as int,
    ) by {
        assert(node_inv(adj, nodes, src, -1, cnt, u));
        if !nodes[u].visited {
            if nodes[u].feasible || u == src {
                assert(has_entry(h, u, nodes[u].dist.rank()));
                let d = choose|d: int| #[trigger]
                    h.nodes.contains_key(d) && h.nodes[d].key == u && h.nodes[d].prio.rank()
                        == nodes[u].dist.rank();
                assert(h.nodes.dom().contains(d));
            }
            assert(nodes[u].dist.rank() == W::ceiling());
            assert forall|k: int| 0 <= k < adj[u as usize].len() implies nodes[(
            #[trigger] adj[u as usize][k]).0 as int].dist.rank() <= capped(
                nodes[u].dist.rank() + adj[u as usize][k].1.rank(),
                W::ceiling(),
            ) by {
                assert(adj.contains_key(u as usize));
                assert(adj.contains_key(adj[u as usize][k].0));
                W::lemma_range(adj[u as usize][k].1);
                W::lemma_range(nodes[adj[u as usize][k].0 as int].dist);
            }
        }
    }
    assert forall|p: Seq<usize>, c: int|
        p.len() >= 1 && p[0] == src && #[trigger] walk_cost(adj, p, c) implies p.last() < nodes.len()
        && nodes[p.last() as int].dist.rank() <= c by {
        lemma_no_shorter(adj, nodes, src, p, c);
    }
}

impl<W: Weight> SimpleGraph<W> {
    /// Finds the shortest paths from a source node to destination nodes.
    ///
    /// If you want to keep the result for later usage and/or want to save memory, consider using
    /// the lazy version [`SimpleGraph::sssp_dijkstra_lazy`], which returns the intermediate result
    /// from Dijkstra's algorithm.
    pub fn sssp_dijkstra(&self, src: usize, dest: &[usize]) -> (r: Vec<ShortestPath<W>>)
        requires
            self.wf(),
            dense(self.adj()),
            src < self.adj().len(),
            forall|k: int| 0 <= k < dest@.len() ==> dest@[k] < self.adj().len(),
        ensures
            r@.len() == dest@.len(),
            forall|k: int| 0 <= k < r@.len() ==> best(self.adj(), src, dest@[k], (#[trigger] r@[k])@),
    {
        let nodes = self.dijkstra(src);
        let mut result: Vec<ShortestPath<W>> = Vec::new();
        let mut i: usize = 0;
        while i < dest.len()
            invariant
                solves(self.adj(), nodes@, src),
                0 <= i <= dest@.len(),
                forall|k: int| 0 <= k < dest@.len() ==> dest@[k] < self.adj().len(),
                result@.len() == i,
                forall|k: int|
                    0 <= k < i ==> best(self.adj(), src, dest@[k], (#[trigger] result@[k])@),
            decreases dest@.len() - i,
        {
            let sp = traverse_path(src, dest[i], &nodes);
            proof {
                answer_is_best(self.adj(), nodes@, src, dest@[i as int], sp@);
            }
            result.push(sp);
            i = i + 1;
        }
        result
    }

    /// Finds the shortest paths from a source node to all nodes and returns the intermediate result
    /// for later usage.
    pub fn sssp_dijkstra_lazy(&self, src: usize) -> (r: LazyShortestPaths<W>)
        requires
            self.wf(),
            dense(self.adj()),
            src < self.adj().len(),
        ensures
            r.wf(),
            r.source() == src,
            r.nodes().len() == self.adj().len(),
            r.solves(self.adj()),
    {
        LazyShortestPaths::from_search(src, self.dijkstra(src))
    }

    /// Runs the search from `src` until the heap is empty.
    fn dijkstra(&self, src: usize) -> (nodes: Vec<DijNode<W>>)
        requires
            self.wf(),
            dense(self.adj()),
            src < self.adj().len(),
        ensures
            solves(self.adj(), nodes@, src),
    {
        let ghost adj = self.adj();
        let n = self.n_nodes();
        proof {
            lemma_dense_iff_full(adj.dom(), n as nat);
            assert forall|u: usize| u < n <==> #[trigger] adj.contains_key(u) by {
                if u < n {
                    assert(adj.dom().contains(u));
                }
            }
        }
        let zero = W::zero();
        let mut pq = PairingHeap::<usize, W>::new();
        let h0 = pq.insert(src, zero);
        let mut nodes: Vec<DijNode<W>> = Vec::new();
        let mut i: usize = 0;
        while i < n
            invariant
                0 <= i <= n,
                nodes@.len() == i,
                forall|v: int|
                    0 <= v < i ==> (#[trigger] nodes@[v]).pred == 0 && nodes@[v].len == 0
                        && !nodes@[v].visited && !nodes@[v].feasible && nodes@[v].dist.rank()
                        == W::ceiling(),
            decreases n - i,
        {
            nodes.push(DijNode::new());
            i = i + 1;
        }
        nodes.set(src, DijNode { pred: 0, len: 0, visited: false, feasible: true, dist: zero });
        proof {
            assert(visited_set(nodes@) =~= Set::<int>::empty());
            lemma_start(adj, nodes@, pq@, src, h0@.unwrap().0);
        }
        let mut len = pq.len();
        while len != 0
            invariant
                pq.wf(),
                len == pq@.nodes.len(),
                adj == self.adj(),
                nodes@.len() == n,
                visited_set(nodes@).finite(),
                visited_set(nodes@).len() <= n,
                search_inv(adj, nodes@, pq@, src, -1, visited_set(nodes@).len() as int),
            decreases n - visited_set(nodes@).len(), pq@.nodes.len(),
        {
            let ghost h_old = pq@;
            proof {
                h_old.lemma_finite();
                if h_old.root.is_none() {
                    assert(h_old.nodes.dom() =~= Set::<int>::empty());
                }
            }
            let kp = pq.delete_min().unwrap();
            let node = kp.0;
            let prio = kp.1;
            proof {
                lemma_popped(
                    adj,
                    nodes@,
                    h_old,
                    pq@,
                    src,
                    visited_set(nodes@).len() as int,
                    h_old.root.unwrap(),
                );
            }
            if !nodes[node].visited {
                let ghost vs0 = visited_set(nodes@);
                proof {
                    lemma_visited_bound(nodes@, node as int, node as int);
                }
                let count = nodes[node].len + 1;
                match self.neighbours(&node) {
                    Some(nb) => {
                        let mut j: usize = 0;
                        while j < nb.len()
                            invariant
                                pq.wf(),
                                nodes@.len() == n,
                                node < n,
                                adj.contains_key(node),
                                nb@ == adj[node],
                                count == nodes@[node as int].len + 1,
                                0 <= j <= nb@.len(),
                                visited_set(nodes@) == vs0,
                                search_inv(
                                    adj,
                                    nodes@,
                                    pq@,
                                    src,
                                    node as int,
                                    (visited_set(nodes@).len() + 1) as int,
                                ),
                                relax_inv(adj, nodes@, pq@, src, node as int, prio.rank(), j as int),
                            decreases nb@.len() - j,
                        {
                            let e = nb[j];
                            let u = e.0;
                            let w = e.1;
                            let alt = prio.plus(w);
                            proof {
                                assert(adj.contains_key(adj[node][j as int].0));
                                assert(u < n);
                            }
                            if !nodes[u].visited && alt.below(&nodes[u].dist) {
                                let ghost h1 = pq@;
                                let ghost n1 = nodes@;
                                nodes.set(
                                    u,
                                    DijNode {
                                        pred: node,
                                        len: count,
                                        visited: false,
                                        feasible: true,
                                        dist: alt,
                                    },
                                );
                                let hd = pq.insert(u, alt);
                                proof {
                                    lemma_edge_taken(
                                        adj,
                                        n1,
                                        nodes@,
                                        h1,
                                        pq@,
                                        src,
                                        node as int,
                                        prio.rank(),
                                        j as int,
                                        alt,
                                        hd@.unwrap().0,
                                    );
                                }
                            } else {
                                proof {
                                    lemma_edge_kept(
                                        adj,
                                        nodes@,
                                        pq@,
                                        src,
                                        node as int,
                                        prio.rank(),
                                        j as int,
                                    );
                                }
                            }
                            j = j + 1;
                        }
                    },
                    None => {
                        proof {
                            assert(adj.contains_key(node));
                            assert(false);
                        }
                    },
                }
                let ghost n2 = nodes@;
                let old_node = nodes[node];
                nodes.set(
                    node,
                    DijNode {
                        pred: old_node.pred,
                        len: old_node.len,
                        visited: true,
                        feasible: old_node.feasible,
                        dist: old_node.dist,
                    },
                );
                proof {
                    lemma_settled(adj, n2, nodes@, pq@, src, node as int, prio.rank());
                }
            }
            len = pq.len();
        }
        proof {
            pq@.lemma_finite();
            if pq@.root.is_some() {
                assert(pq@.nodes.dom().contains(pq@.root.unwrap()));
            }
            assert(pq@.nodes.dom() =~= Set::<int>::empty());
            lemma_done(adj, nodes@, pq@, src, visited_set(nodes@).len() as int);
        }
        nodes
    }
}

} // verus!
