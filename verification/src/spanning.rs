//! Spanning trees, and why none is lighter than the tree that Prim's algorithm grows.
use vstd::prelude::*;
use crate::graph::{adjacency_ok, has_edge, symmetric, Adjacency};
use crate::laws::{connected, prim_spans};
use crate::mst::{grown, prim_result, prim_tree, tree_edges, tree_weight, PrimNode};
use crate::prio::Prio;
use crate::weight::{capped, Weight};

verus! {

/// A spanning tree with a root: for each node but the root the node it hangs
/// from and the weight of the edge between the two, and for each node a rank
/// that is below the rank of every node that hangs from it.
pub struct SpanTree<W> {
    pub par: Seq<usize>,
    pub wt: Seq<W>,
    pub rank: Seq<int>,
}

/// Node `v` hangs from a node of lower rank along an edge of the graph.
pub open spec fn hangs<W>(adj: Adjacency<W>, t: SpanTree<W>, v: int) -> bool {
    &&& t.par[v] < t.par.len()
    &&& has_edge(adj, t.par[v], v as usize, t.wt[v])
    &&& t.rank[t.par[v] as int] < t.rank[v]
}

/// `t` is a spanning tree of the graph with the root `src`.
pub open spec fn span_ok<W>(adj: Adjacency<W>, src: usize, t: SpanTree<W>) -> bool {
    &&& t.par.len() == adj.len()
    &&& t.wt.len() == adj.len()
    &&& t.rank.len() == adj.len()
    &&& forall|v: int| 0 <= v < t.rank.len() ==> 0 <= #[trigger] t.rank[v]
    &&& forall|v: int| 0 <= v < t.par.len() && v != src ==> #[trigger] hangs(adj, t, v)
}

/// The ranks of the weights of the first `k` nodes but `src`, added up.
pub open spec fn total<W: Weight>(wt: Seq<W>, src: usize, k: nat) -> int
    decreases k,
{
    if k == 0 {
        0
    } else {
        total(wt, src, (k - 1) as nat) + if k - 1 != src {
            wt[k - 1].rank()
        } else {
            0
        }
    }
}

/// A number above every member of `r`.
spec fn above(r: Seq<int>) -> int
    decreases r.len(),
{
    if r.len() == 0 {
        0
    } else if above(r.drop_last()) > r.last() {
        above(r.drop_last())
    } else {
        r.last() + 1
    }
}

/// `above` is above every member, and not below zero.
proof fn lemma_above(r: Seq<int>, i: int)
    requires
        0 <= i < r.len(),
    ensures
        r[i] < above(r),
        0 <= above(r),
    decreases r.len(),
{
    if i < r.len() - 1 {
        lemma_above(r.drop_last(), i);
    } else if r.len() > 1 {
        lemma_above(r.drop_last(), 0);
    } else {
        assert(above(r.drop_last()) == 0);
    }
}

/// `v` and the nodes above it in the tree, up to the first that hangs from a
/// node of `before`.
spec fn way_up<W>(t: SpanTree<W>, before: Seq<usize>, v: usize) -> Seq<usize>
    decreases t.rank[v as int],
    when v < t.par.len() && 0 <= t.rank[t.par[v as int] as int] < t.rank[v as int]
{
    if before.contains(t.par[v as int]) {
        seq![v]
    } else {
        seq![v] + way_up(t, before, t.par[v as int])
    }
}

/// The way up starts at `v`, stays outside `before`, climbs from each node to
/// the node it hangs from, and ends below a node of `before`.
proof fn lemma_way_up<W>(
    adj: Adjacency<W>,
    src: usize,
    t: SpanTree<W>,
    before: Seq<usize>,
    v: usize,
)
    requires
        span_ok(adj, src, t),
        before.contains(src),
        v < t.par.len(),
        !before.contains(v),
    ensures
        way_up(t, before, v).len() >= 1,
        way_up(t, before, v)[0] == v,
        before.contains(t.par[way_up(t, before, v).last() as int]),
        forall|i: int|
            0 <= i < way_up(t, before, v).len() ==> {
                let x = #[trigger] way_up(t, before, v)[i];
                &&& x < t.par.len()
                &&& !before.contains(x)
                &&& t.rank[x as int] <= t.rank[v as int] - i
                &&& i + 1 < way_up(t, before, v).len() ==> way_up(t, before, v)[i + 1]
                    == t.par[x as int]
            },
        way_up(t, before, v).no_duplicates(),
    decreases t.rank[v as int],
{
    assert(v != src);
    assert(hangs(adj, t, v as int));
    let p = t.par[v as int];
    assert(0 <= t.rank[p as int]);
    let xs = way_up(t, before, v);
    if before.contains(p) {
        assert(xs == seq![v]);
    } else {
        assert(p != src);
        assert(hangs(adj, t, p as int));
        lemma_way_up(adj, src, t, before, p);
        let ys = way_up(t, before, p);
        assert(v < t.par.len() && 0 <= t.rank[t.par[v as int] as int] < t.rank[v as int]);
        assert(xs == seq![v] + ys);
        assert(xs.last() == ys.last());
        assert forall|i: int| 0 <= i < xs.len() implies {
            let x = #[trigger] xs[i];
            &&& x < t.par.len()
            &&& !before.contains(x)
            &&& t.rank[x as int] <= t.rank[v as int] - i
            &&& i + 1 < xs.len() ==> xs[i + 1] == t.par[x as int]
        } by {
            if i > 0 {
                assert(xs[i] == ys[i - 1]);
                if i + 1 < xs.len() {
                    assert(xs[i + 1] == ys[i]);
                }
            } else {
                assert(xs[1] == ys[0]);
            }
        }
        assert forall|i: int, j: int| 0 <= i < xs.len() && 0 <= j < xs.len() && i != j implies xs[i]
            != xs[j] by {
            if i > 0 && j > 0 {
                assert(ys[i - 1] != ys[j - 1]);
            } else if i > 0 {
                assert(xs[i] == ys[i - 1]);
                assert(t.rank[ys[i - 1] as int] <= t.rank[p as int] - (i - 1));
            } else {
                assert(xs[j] == ys[j - 1]);
                assert(t.rank[ys[j - 1] as int] <= t.rank[p as int] - (j - 1));
            }
        }
    }
}

/// The tree `t` with the nodes of the way `xs` hung the other way round: the
/// first from `pp` along an edge of weight `e`, each other from the one before
/// it. Nodes of `before` keep their rank, and the others rank above them.
spec fn rehung<W>(
    t: SpanTree<W>,
    before: Seq<usize>,
    xs: Seq<usize>,
    pp: usize,
    e: W,
) -> SpanTree<W> {
    SpanTree {
        par: Seq::new(
            t.par.len(),
            |y: int|
                if xs.contains(y as usize) {
                    if xs.index_of(y as usize) == 0 {
                        pp
                    } else {
                        xs[xs.index_of(y as usize) - 1]
                    }
                } else {
                    t.par[y]
                },
        ),
        wt: shifted(t.wt, xs, e),
        rank: Seq::new(
            t.rank.len(),
            |y: int|
                if before.contains(y as usize) {
                    t.rank[y]
                } else if xs.contains(y as usize) {
                    above(t.rank) + xs.index_of(y as usize)
                } else {
                    t.rank[y] + above(t.rank) + xs.len()
                },
        ),
    }
}

/// The weights `wt` moved one place along the way `xs`: the first node of the
/// way gets `e`, each other node the weight of the one before it.
spec fn shifted<W>(wt: Seq<W>, xs: Seq<usize>, e: W) -> Seq<W> {
    Seq::new(
        wt.len(),
        |y: int|
            if xs.contains(y as usize) {
                if xs.index_of(y as usize) == 0 {
                    e
                } else {
                    wt[xs[xs.index_of(y as usize) - 1] as int]
                }
            } else {
                wt[y]
            },
    )
}

/// In a list without repeats a member is found at its place.
proof fn lemma_index_of(xs: Seq<usize>, i: int)
    requires
        xs.no_duplicates(),
        0 <= i < xs.len(),
    ensures
        xs.contains(xs[i]),
        xs.index_of(xs[i]) == i,
{
    let j = xs.index_of(xs[i]);
    assert(0 <= j < xs.len() && xs[j] == xs[i]);
}

/// Two lists of weights that differ at one node differ in their totals by
/// what they differ at the node.
proof fn lemma_total_point<W: Weight>(a: Seq<W>, b: Seq<W>, src: usize, k: nat, z: int)
    requires
        a.len() == b.len(),
        k <= a.len(),
        0 <= z < a.len(),
        z != src,
        forall|y: int| 0 <= y < a.len() && y != z ==> a[y] == b[y],
    ensures
        total(a, src, k) == total(b, src, k) + if z < k {
            a[z].rank() - b[z].rank()
        } else {
            0
        },
    decreases k,
{
    if k > 0 {
        lemma_total_point(a, b, src, (k - 1) as nat, z);
    }
}

/// Moving the weights along a way adds the new weight and drops the last one.
proof fn lemma_total_shifted<W: Weight>(wt: Seq<W>, src: usize, xs: Seq<usize>, e: W)
    requires
        wt.len() <= usize::MAX,
        xs.len() >= 1,
        xs.no_duplicates(),
        forall|i: int| 0 <= i < xs.len() ==> (#[trigger] xs[i]) < wt.len() && xs[i] != src,
    ensures
        total(shifted(wt, xs, e), src, wt.len()) == total(wt, src, wt.len()) + e.rank()
            - wt[xs.last() as int].rank(),
    decreases xs.len(),
{
    let n = wt.len();
    let a = shifted(wt, xs, e);
    let z = xs.last();
    let last = xs.len() - 1;
    lemma_index_of(xs, last);
    if xs.len() == 1 {
        assert forall|y: int| 0 <= y < n && y != z implies a[y] == wt[y] by {
            if xs.contains(y as usize) {
                let i = choose|i: int| 0 <= i < xs.len() && xs[i] == y as usize;
                assert(xs[0] == z);
            }
        }
        lemma_total_point(a, wt, src, n, z as int);
        assert(a[z as int] == e);
    } else {
        let ys = xs.drop_last();
        let b = shifted(wt, ys, e);
        assert(ys.no_duplicates()) by {
            assert forall|i: int, j: int| 0 <= i < ys.len() && 0 <= j < ys.len() && i != j implies ys[i]
                != ys[j] by {
                assert(xs[i] != xs[j]);
            }
        }
        assert forall|i: int| 0 <= i < ys.len() implies (#[trigger] ys[i]) < wt.len() && ys[i]
            != src by {
            assert(ys[i] == xs[i]);
        }
        lemma_total_shifted(wt, src, ys, e);
        assert(!ys.contains(z)) by {
            if ys.contains(z) {
                let i = choose|i: int| 0 <= i < ys.len() && ys[i] == z;
                assert(xs[i] == z);
            }
        }
        assert forall|y: int| 0 <= y < n && y != z implies a[y] == b[y] by {
            let yu = y as usize;
            assert(yu as int == y);
            if ys.contains(yu) {
                let i = choose|i: int| 0 <= i < ys.len() && ys[i] == yu;
                assert(xs[i] == yu);
                lemma_index_of(xs, i);
                lemma_index_of(ys, i);
                if i > 0 {
                    assert(ys[i - 1] == xs[i - 1]);
                }
            } else if xs.contains(yu) {
                let i = choose|i: int| 0 <= i < xs.len() && xs[i] == yu;
                if i < last {
                    assert(ys[i] == yu);
                }
            }
        }
        lemma_total_point(a, b, src, n, z as int);
        assert(ys.last() == xs[last - 1]);
        assert(b[z as int] == wt[z as int]);
        assert(a[z as int] == wt[xs[last - 1] as int]);
    }
}

/// The tree gives node `v` the tree edge that Prim's algorithm gave it.
spec fn same_link<W: Weight>(nodes: Seq<PrimNode<W>>, t: SpanTree<W>, v: int) -> bool {
    nodes[v].parent == Some(t.par[v]) && nodes[v].dist.rank() == t.wt[v].rank()
}

/// The tree gives every node before place `m` of the order, but the first,
/// the tree edge that Prim's algorithm gave it.
spec fn agree<W: Weight>(
    nodes: Seq<PrimNode<W>>,
    order: Seq<usize>,
    t: SpanTree<W>,
    m: int,
) -> bool {
    forall|s: int| 1 <= s < m ==> #[trigger] same_link(nodes, t, order[s] as int)
}

/// What the laws on Prim's tree ask of the graph and the tree.
pub open spec fn setting<W: Weight>(
    adj: Adjacency<W>,
    nodes: Seq<PrimNode<W>>,
    src: usize,
    order: Seq<usize>,
) -> bool {
    &&& prim_tree(adj, nodes, src, order)
    &&& adjacency_ok(adj)
    &&& symmetric(adj)
    &&& forall|u: usize| u < nodes.len() <==> #[trigger] adj.contains_key(u)
    &&& nodes.len() <= usize::MAX
    &&& src < nodes.len()
    &&& connected(adj, src)
}

/// A spanning tree that agrees with Prim's tree up to place `m` can be hung
/// anew so that it agrees up to the next place and weighs no more.
proof fn lemma_rehung<W: Weight>(
    adj: Adjacency<W>,
    nodes: Seq<PrimNode<W>>,
    src: usize,
    order: Seq<usize>,
    t: SpanTree<W>,
    m: int,
) -> (t2: SpanTree<W>)
    requires
        setting(adj, nodes, src, order),
        span_ok(adj, src, t),
        1 <= m < nodes.len(),
        agree(nodes, order, t, m),
    ensures
        span_ok(adj, src, t2),
        agree(nodes, order, t2, m + 1),
        total(t2.wt, src, nodes.len()) <= total(t.wt, src, nodes.len()),
{
    let n = nodes.len();
    let v = order[m];
    let vi = v as int;
    let before = order.take(m);
    assert(before[0] == src);
    assert(!before.contains(v)) by {
        if before.contains(v) {
            let a = choose|a: int| 0 <= a < before.len() && before[a] == v;
            assert(order[a] == v);
        }
    }
    prim_spans(adj, nodes, src, order, m);
    let pp = nodes[vi].parent.unwrap();
    let e = nodes[vi].dist;
    assert(grown(adj, nodes, src, order, m));
    lemma_way_up(adj, src, t, before, v);
    let xs = way_up(t, before, v);
    let k = xs.len() as int;
    let top = above(t.rank);
    let t2 = rehung(t, before, xs, pp, e);
    lemma_above(t.rank, 0);
    // the nodes of `before` hang from nodes of `before`
    assert forall|y: usize| before.contains(y) && y != src implies before.contains(
        t.par[y as int],
    ) && y < n by {
        let s = choose|s: int| 0 <= s < before.len() && before[s] == y;
        assert(order[s] == y);
        assert(same_link(nodes, t, order[s] as int));
        assert(grown(adj, nodes, src, order, s));
        let q = t.par[y as int];
        assert(order.take(s).contains(q));
        let a = choose|a: int| 0 <= a < order.take(s).len() && order.take(s)[a] == q;
        assert(before[a] == q);
    }
    assert forall|y: usize| before.contains(y) implies y < n && !xs.contains(y) by {
        let s = choose|s: int| 0 <= s < before.len() && before[s] == y;
        assert(order[s] == y);
        if xs.contains(y) {
            let i = choose|i: int| 0 <= i < xs.len() && xs[i] == y;
        }
    }
    // the edge that is dropped weighs no less than the edge that comes in
    let z = xs.last();
    assert(xs[k - 1] == z);
    assert(z != src);
    assert(hangs(adj, t, z as int));
    let up = t.par[z as int];
    let place = choose|s: int| 0 <= s < before.len() && before[s] == up;
    assert(order[place] == up);
    let slot = choose|j: int| 0 <= j < adj[up].len() && #[trigger] adj[up][j] == (z, t.wt[z as int]);
    assert(!before.contains(adj[order[place]][slot].0));
    assert(e.rank() <= t.wt[z as int].rank());
    assert forall|i: int| 0 <= i < xs.len() implies (#[trigger] xs[i]) < t.wt.len() && xs[i]
        != src by {}
    lemma_total_shifted(t.wt, src, xs, e);
    assert forall|y: int| 0 <= y < t2.rank.len() implies 0 <= #[trigger] t2.rank[y] by {
        assert(0 <= t.rank[y]);
    }
    assert forall|y: int| 0 <= y < t2.par.len() && y != src implies #[trigger] hangs(adj, t2, y) by {
        let yu = y as usize;
        assert(yu as int == y);
        assert(hangs(adj, t, y));
        let q = t.par[y];
        lemma_above(t.rank, q as int);
        lemma_above(t.rank, y);
        if xs.contains(yu) {
            let i = choose|i: int| 0 <= i < xs.len() && xs[i] == yu;
            lemma_index_of(xs, i);
            if i == 0 {
                assert(yu == v);
                let a = choose|a: int| 0 <= a < before.len() && before[a] == pp;
                assert(order[a] == pp);
                lemma_above(t.rank, pp as int);
            } else {
                let c = xs[i - 1];
                lemma_index_of(xs, i - 1);
                assert(c != src);
                assert(hangs(adj, t, c as int));
                assert(t.par[c as int] == yu);
                let j = choose|j: int| 0 <= j < adj[yu].len() && #[trigger] adj[yu][j] == (c, t.wt[c as int]);
                assert(has_edge(adj, adj[yu][j].0, yu, adj[yu][j].1));
            }
        } else if before.contains(yu) {
            assert(before.contains(q));
        } else {
            if before.contains(q) {
            } else if xs.contains(q) {
                let i = choose|i: int| 0 <= i < xs.len() && xs[i] == q;
                lemma_index_of(xs, i);
            } else {
                assert(0 <= t.rank[q as int]);
            }
        }
    }
    assert forall|s: int| 1 <= s < m + 1 implies #[trigger] same_link(nodes, t2, order[s] as int) by {
        if s < m {
            assert(same_link(nodes, t, order[s] as int));
            assert(before[s] == order[s]);
            assert(before.contains(order[s]));
        } else {
            lemma_index_of(xs, 0);
        }
    }
    t2
}

/// Where a tree gives every node the tree edge of Prim's tree, the two weigh the same.
proof fn lemma_agreed_total<W: Weight>(
    nodes: Seq<PrimNode<W>>,
    src: usize,
    t: SpanTree<W>,
    k: nat,
)
    requires
        k <= nodes.len(),
        t.wt.len() == nodes.len(),
        forall|v: int|
            0 <= v < nodes.len() ==> if v == src {
                (#[trigger] nodes[v]).parent.is_none()
            } else {
                nodes[v].parent.is_some() && nodes[v].dist.rank() == t.wt[v].rank()
            },
    ensures
        total(t.wt, src, k) == tree_weight(nodes, k),
    decreases k,
{
    if k > 0 {
        lemma_agreed_total(nodes, src, t, (k - 1) as nat);
        assert(nodes[k - 1].parent.is_some() <==> k - 1 != src);
    }
}

/// A spanning tree that agrees with Prim's tree up to some place weighs no
/// less than Prim's tree.
proof fn lemma_improve<W: Weight>(
    adj: Adjacency<W>,
    nodes: Seq<PrimNode<W>>,
    src: usize,
    order: Seq<usize>,
    t: SpanTree<W>,
    m: int,
)
    requires
        setting(adj, nodes, src, order),
        span_ok(adj, src, t),
        1 <= m <= nodes.len(),
        agree(nodes, order, t, m),
    ensures
        tree_weight(nodes, nodes.len()) <= total(t.wt, src, nodes.len()),
    decreases nodes.len() - m,
{
    let n = nodes.len();
    if m == n {
        assert forall|v: int| 0 <= v < nodes.len() implies if v == src {
            (#[trigger] nodes[v]).parent.is_none()
        } else {
            nodes[v].parent.is_some() && nodes[v].dist.rank() == t.wt[v].rank()
        } by {
            crate::laws::everyone_is_listed(order, n, v);
            let s = choose|s: int| 0 <= s < order.len() && order[s] as int == v;
            prim_spans(adj, nodes, src, order, s);
            if s > 0 {
                assert(same_link(nodes, t, order[s] as int));
            }
        }
        lemma_agreed_total(nodes, src, t, n);
    } else {
        let t2 = lemma_rehung(adj, nodes, src, order, t, m);
        lemma_improve(adj, nodes, src, order, t2, m + 1);
    }
}

/// Prim's tree is a lightest spanning tree: no spanning tree of the graph
/// weighs less than the tree that Prim's algorithm grows.
pub proof fn prim_is_lightest<W: Weight>(
    adj: Adjacency<W>,
    nodes: Seq<PrimNode<W>>,
    src: usize,
    order: Seq<usize>,
    t: SpanTree<W>,
)
    requires
        setting(adj, nodes, src, order),
        span_ok(adj, src, t),
    ensures
        tree_weight(nodes, nodes.len()) <= total(t.wt, src, nodes.len()),
{
    lemma_improve(adj, nodes, src, order, t, 1);
}

/// Prim's tree as a spanning tree: each node hangs from the node that its tree
/// edge comes from, and ranks by its place in the order.
pub open spec fn prim_as_tree<W>(nodes: Seq<PrimNode<W>>, order: Seq<usize>) -> SpanTree<W> {
    SpanTree {
        par: Seq::new(
            nodes.len(),
            |v: int|
                match nodes[v].parent {
                    Some(p) => p,
                    None => 0,
                },
        ),
        wt: Seq::new(nodes.len(), |v: int| nodes[v].dist),
        rank: Seq::new(nodes.len(), |v: int| order.index_of(v as usize)),
    }
}

/// On a connected graph Prim's tree is a spanning tree, and its weight is the
/// sum of the weights of its edges.
pub proof fn prim_tree_spans<W: Weight>(
    adj: Adjacency<W>,
    nodes: Seq<PrimNode<W>>,
    src: usize,
    order: Seq<usize>,
)
    requires
        setting(adj, nodes, src, order),
    ensures
        span_ok(adj, src, prim_as_tree(nodes, order)),
        total(prim_as_tree(nodes, order).wt, src, nodes.len()) == tree_weight(nodes, nodes.len()),
{
    let n = nodes.len();
    let t = prim_as_tree(nodes, order);
    assert forall|v: int| 0 <= v < t.rank.len() implies 0 <= #[trigger] t.rank[v] by {
        crate::laws::everyone_is_listed(order, n, v);
        let s = choose|s: int| 0 <= s < order.len() && order[s] as int == v;
        lemma_index_of(order, s);
    }
    assert forall|v: int| 0 <= v < n implies if v == src {
        (#[trigger] nodes[v]).parent.is_none()
    } else {
        nodes[v].parent.is_some() && nodes[v].dist.rank() == t.wt[v].rank() && hangs(adj, t, v)
    } by {
        crate::laws::everyone_is_listed(order, n, v);
        let s = choose|s: int| 0 <= s < order.len() && order[s] as int == v;
        lemma_index_of(order, s);
        prim_spans(adj, nodes, src, order, s);
        if s > 0 {
            assert(grown(adj, nodes, src, order, s));
            let pp = nodes[v].parent.unwrap();
            let a = choose|a: int| 0 <= a < order.take(s).len() && order.take(s)[a] == pp;
            assert(order[a] == pp);
            lemma_index_of(order, a);
        }
    }
    assert forall|v: int| 0 <= v < t.par.len() && v != src implies #[trigger] hangs(adj, t, v) by {
        assert(nodes[v].parent.is_some());
    }
    lemma_agreed_total(nodes, src, t, n);
}

/// Prim's algorithm is correct: on a connected graph what it returns is a
/// spanning tree rooted at the source, with one edge less than there are
/// nodes, and no spanning tree of the graph weighs less.
pub proof fn prim_is_correct<W: Weight>(
    adj: Adjacency<W>,
    src: usize,
    nodes: Seq<PrimNode<W>>,
    order: Seq<usize>,
    tree: Adjacency<W>,
    half_edges: usize,
    weight: W,
    t: SpanTree<W>,
)
    requires
        adjacency_ok(adj),
        symmetric(adj),
        src < adj.len(),
        connected(adj, src),
        prim_result(adj, src, nodes, order, tree, half_edges, weight),
        span_ok(adj, src, t),
    ensures
        span_ok(adj, src, prim_as_tree(nodes, order)),
        order[0] == src,
        tree_edges(nodes, nodes.len()) == nodes.len() - 1,
        half_edges == capped(2 * (nodes.len() - 1), usize::MAX as int),
        weight.rank() == capped(tree_weight(nodes, nodes.len()), W::ceiling()),
        tree_weight(nodes, nodes.len()) == total(
            prim_as_tree(nodes, order).wt,
            src,
            nodes.len(),
        ),
        tree_weight(nodes, nodes.len()) <= total(t.wt, src, nodes.len()),
{
    prim_tree_spans(adj, nodes, src, order);
    prim_is_lightest(adj, nodes, src, order, t);
    crate::laws::prim_gives_spanning_tree(adj, nodes, src, order);
}

} // verus!
