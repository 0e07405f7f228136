//! What holds of every well-formed heap, whatever was done to it.
use vstd::prelude::*;
use crate::graph::Adjacency;
use crate::model::HeapModel;
use crate::mst::{grown, prim_tree, tree_edges, PrimNode};
use crate::prio::Prio;
use crate::weight::Weight;

verus! {

/// Heap order: no node ranks below its parent.
pub proof fn heap_order<K, P: Prio>(m: HeapModel<K, P>, n: int)
    requires
        m.wf(),
        m.nodes.contains_key(n),
        m.nodes[n].parent.is_some(),
    ensures
        m.nodes.contains_key(m.nodes[n].parent.unwrap()),
        m.nodes[m.nodes[n].parent.unwrap()].prio.rank() <= m.nodes[n].prio.rank(),
{
    m.lemma_parent(n);
}

/// The root ranks lowest: no node of the heap ranks below it.
pub proof fn root_is_min<K, P: Prio>(m: HeapModel<K, P>, n: int)
    requires
        m.wf(),
        m.nodes.contains_key(n),
    ensures
        m.root.is_some(),
        m.nodes[m.root.unwrap()].prio.rank() <= m.nodes[n].prio.rank(),
{
    m.lemma_root_min();
}

/// Every rank that a drain returns is the rank of a node of the heap.
pub proof fn drained_from_heap<K, P: Prio>(m: HeapModel<K, P>, n: nat, k: int)
    requires
        m.wf(),
        0 <= k < m.drained(n).len(),
    ensures
        exists|d: int| m.nodes.contains_key(d) && m.nodes[d].prio.rank() == m.drained(n)[k],
    decreases n,
{
    let r = m.root.unwrap();
    if k == 0 {
        assert(m.nodes.contains_key(r) && m.rank(r) == m.drained(n)[0]);
    } else {
        m.lemma_pop();
        let q = m.pop();
        assert(m.drained(n)[k] == q.drained((n - 1) as nat)[k - 1]);
        drained_from_heap(q, (n - 1) as nat, k - 1);
        let d = choose|d: int|
            q.nodes.contains_key(d) && q.nodes[d].prio.rank() == q.drained((n - 1) as nat)[k - 1];
        assert(m.nodes.contains_key(d));
    }
}

/// Sorted drain: deleting the root again and again returns ranks that never
/// decrease, and returns one for every node asked for that the heap still holds.
pub proof fn sorted_drain<K, P: Prio>(m: HeapModel<K, P>, n: nat)
    requires
        m.wf(),
    ensures
        m.drained(n).len() == if n <= m.nodes.len() {
            n
        } else {
            m.nodes.len()
        },
        forall|i: int, j: int|
            0 <= i <= j < m.drained(n).len() ==> m.drained(n)[i] <= m.drained(n)[j],
    decreases n,
{
    m.lemma_finite();
    if n == 0 {
    } else if m.root.is_none() {
        assert(m.nodes.dom() =~= Set::empty());
        assert(m.nodes.len() == 0);
    } else {
        let r = m.root.unwrap();
        let q = m.pop();
        let t = q.drained((n - 1) as nat);
        m.lemma_pop();
        m.lemma_root_min();
        sorted_drain(q, (n - 1) as nat);
        assert(m.nodes.dom().contains(r));
        assert forall|i: int, j: int| 0 <= i <= j < m.drained(n).len() implies m.drained(n)[i]
            <= m.drained(n)[j] by {
            if i == 0 && j > 0 {
                drained_from_heap(q, (n - 1) as nat, j - 1);
                let d = choose|d: int| q.nodes.contains_key(d) && q.nodes[d].prio.rank() == t[j - 1];
                assert(m.nodes.contains_key(d));
            } else if i > 0 {
                assert(m.drained(n)[i] == t[i - 1] && m.drained(n)[j] == t[j - 1]);
            }
        }
    }
}

/// One operation on a heap, as the model sees it.
pub enum HeapOp<K, P> {
    /// The insertion of a key and a priority under a node id and a generation.
    Insert { id: int, key: K, prio: P, gen: u64 },
    /// The deletion of the root.
    DeleteMin,
    /// The lowering of the priority of a node.
    Lower { id: int, prio: P },
    /// The merging of another heap, its ids raised by an offset.
    Absorb { other: HeapModel<K, P>, off: int },
}

/// The operation has a heap to work on: an insertion a node id that is not
/// in use, a merge a well-formed heap whose raised ids do not meet the ids in use.
pub open spec fn applies<K, P: Prio>(m: HeapModel<K, P>, op: HeapOp<K, P>) -> bool {
    match op {
        HeapOp::Insert { id, key, prio, gen } => !m.nodes.contains_key(id),
        HeapOp::DeleteMin => m.root.is_some(),
        HeapOp::Lower { id, prio } => true,
        HeapOp::Absorb { other, off } => other.wf() && (forall|d: int| #[trigger]
            m.nodes.contains_key(d) ==> d < off) && (forall|d: int| #[trigger]
            other.nodes.contains_key(d) ==> 0 <= d),
    }
}

/// The heap after one operation; the heap itself where the operation does not apply.
pub open spec fn apply<K, P: Prio>(m: HeapModel<K, P>, op: HeapOp<K, P>) -> HeapModel<K, P> {
    if !applies(m, op) {
        m
    } else {
        match op {
            HeapOp::Insert { id, key, prio, gen } => m.push(id, key, prio, gen),
            HeapOp::DeleteMin => m.pop(),
            HeapOp::Lower { id, prio } => m.lower(id, prio),
            HeapOp::Absorb { other, off } => m.absorb(other, off),
        }
    }
}

/// The heap after a sequence of operations.
pub open spec fn run<K, P: Prio>(m: HeapModel<K, P>, ops: Seq<HeapOp<K, P>>) -> HeapModel<K, P>
    decreases ops.len(),
{
    if ops.len() == 0 {
        m
    } else {
        apply(run(m, ops.drop_last()), ops.last())
    }
}

/// How many nodes the operations of a sequence put into the heap: one for
/// each insertion, and for each merge the nodes of the other heap.
pub open spec fn put_in<K, P: Prio>(m: HeapModel<K, P>, ops: Seq<HeapOp<K, P>>) -> nat
    decreases ops.len(),
{
    if ops.len() == 0 {
        0
    } else {
        let before = run(m, ops.drop_last());
        put_in(m, ops.drop_last()) + if applies(before, ops.last()) {
            match ops.last() {
                HeapOp::Insert { id, key, prio, gen } => 1nat,
                HeapOp::Absorb { other, off } => other.nodes.len(),
                _ => 0nat,
            }
        } else {
            0nat
        }
    }
}

/// How many deletions of a sequence returned a node.
pub open spec fn taken_out<K, P: Prio>(m: HeapModel<K, P>, ops: Seq<HeapOp<K, P>>) -> nat
    decreases ops.len(),
{
    if ops.len() == 0 {
        0
    } else {
        let before = run(m, ops.drop_last());
        taken_out(m, ops.drop_last()) + if applies(before, ops.last()) && ops.last()
            == HeapOp::<K, P>::DeleteMin {
            1nat
        } else {
            0nat
        }
    }
}

/// After any sequence of operations the heap is well formed, so that no node
/// ranks below its parent, and its size is the size it had, plus the nodes
/// put in, less the deletions that returned a node.
pub proof fn after_any_operations<K, P: Prio>(m: HeapModel<K, P>, ops: Seq<HeapOp<K, P>>)
    requires
        m.wf(),
    ensures
        run(m, ops).wf(),
        run(m, ops).nodes.len() == m.nodes.len() + put_in(m, ops) - taken_out(m, ops),
    decreases ops.len(),
{
    if ops.len() > 0 {
        let before = run(m, ops.drop_last());
        after_any_operations(m, ops.drop_last());
        before.lemma_finite();
        let op = ops.last();
        if applies(before, op) {
            match op {
                HeapOp::Insert { id, key, prio, gen } => {
                    before.lemma_push(id, key, prio, gen);
                },
                HeapOp::DeleteMin => {
                    before.lemma_pop();
                    assert(before.nodes.dom().contains(before.root.unwrap()));
                },
                HeapOp::Lower { id, prio } => {
                    before.lemma_lower(id, prio);
                },
                HeapOp::Absorb { other, off } => {
                    before.lemma_absorb(other, off);
                },
            }
        }
    }
}

/// Lowering a priority: the node gets the new priority, and the root of the
/// heap then ranks no higher than it.
pub proof fn lowered_is_reached<K, P: Prio>(m: HeapModel<K, P>, i: int, p: P)
    requires
        m.wf(),
        m.nodes.contains_key(i),
        p.rank() <= m.nodes[i].prio.rank(),
    ensures
        m.lower(i, p).wf(),
        m.lower(i, p).nodes.contains_key(i),
        m.lower(i, p).nodes[i].prio == p,
        m.lower(i, p).root.is_some(),
        m.lower(i, p).nodes[m.lower(i, p).root.unwrap()].prio.rank() <= p.rank(),
{
    m.lemma_lower(i, p);
    m.lower(i, p).lemma_root_min();
    assert(m.lower(i, p).nodes.contains_key(i));
}

/// Handles are stable: a handle that names a node before an insertion, a
/// lowering of a priority or a deletion of another node names it afterwards,
/// with the same key.
pub proof fn handles_are_stable<K, P: Prio>(
    m: HeapModel<K, P>,
    h: int,
    gen: u64,
    i: int,
    key: K,
    p: P,
    g: u64,
)
    requires
        m.wf(),
        m.live_at(h, gen),
    ensures
        !m.nodes.contains_key(i) ==> m.push(i, key, p, g).live_at(h, gen) && m.push(
            i,
            key,
            p,
            g,
        ).nodes[h].key == m.nodes[h].key,
        m.lower(i, p).live_at(h, gen) && m.lower(i, p).nodes[h].key == m.nodes[h].key,
        m.root != Some(h) ==> m.pop().live_at(h, gen) && m.pop().nodes[h].key == m.nodes[h].key,
        m.root == Some(h) ==> !m.pop().live_at(h, gen),
{
    if !m.nodes.contains_key(i) {
        m.lemma_push(i, key, p, g);
        assert(m.push(i, key, p, g).nodes.contains_key(h));
    }
    m.lemma_lower(i, p);
    assert(m.lower(i, p).nodes.contains_key(h));
    m.lemma_pop();
    if m.root != Some(h) {
        assert(m.pop().nodes.contains_key(h));
    }
}

/// The graph has an edge from `a` to `b` that weighs less than the largest weight.
pub open spec fn light_step<W: Weight>(adj: Adjacency<W>, a: usize, b: usize) -> bool {
    exists|j: int|
        adj.contains_key(a) && 0 <= j < adj[a].len() && (#[trigger] adj[a][j]).0 == b
            && adj[a][j].1.rank() < W::ceiling()
}

/// `p` is a walk in the graph along edges that weigh less than the largest weight.
pub open spec fn light_walk<W: Weight>(adj: Adjacency<W>, p: Seq<usize>) -> bool {
    &&& p.len() >= 1
    &&& forall|i: int| 0 <= i < p.len() - 1 ==> #[trigger] light_step(adj, p[i], p[i + 1])
}

/// Every node can be reached from `src` along edges that weigh less than the
/// largest weight.
pub open spec fn connected<W: Weight>(adj: Adjacency<W>, src: usize) -> bool {
    forall|v: usize|
        adj.contains_key(v) ==> exists|p: Seq<usize>| #[trigger]
            light_walk(adj, p) && p[0] == src && p.last() == v
}

/// A walk that starts inside a set of nodes and ends outside it has a step
/// that leaves the set.
pub proof fn walk_leaves(p: Seq<usize>, inside: Seq<usize>) -> (i: int)
    requires
        p.len() >= 1,
        inside.contains(p[0]),
        !inside.contains(p.last()),
    ensures
        0 <= i < p.len() - 1,
        inside.contains(p[i]),
        !inside.contains(p[i + 1]),
    decreases p.len(),
{
    let n = p.len() as int;
    if inside.contains(p[n - 2]) {
        n - 2
    } else {
        let q = p.drop_last();
        assert(q.last() == p[n - 2]);
        walk_leaves(q, inside)
    }
}

/// In a connected graph Prim's algorithm reaches every node: every node but
/// the source has a tree edge, and the edge comes from a node that joined the
/// tree before it.
pub proof fn prim_spans<W: Weight>(
    adj: Adjacency<W>,
    nodes: Seq<PrimNode<W>>,
    src: usize,
    order: Seq<usize>,
    t: int,
)
    requires
        prim_tree(adj, nodes, src, order),
        forall|u: usize| u < nodes.len() <==> #[trigger] adj.contains_key(u),
        src < nodes.len(),
        connected(adj, src),
        0 <= t < order.len(),
    ensures
        t == 0 ==> order[t] == src && nodes[src as int].parent.is_none(),
        t > 0 ==> order[t] != src && nodes[order[t] as int].parent.is_some() && order.take(
            t,
        ).contains(nodes[order[t] as int].parent.unwrap()),
{
    let v = order[t];
    let before = order.take(t);
    assert(grown(adj, nodes, src, order, t));
    if t == 0 {
        if let Some(p) = nodes[v as int].parent {
            assert(before.contains(p));
        }
    } else {
        assert(order[0] == src);
        assert(before[0] == src);
        assert(!before.contains(v)) by {
            if before.contains(v) {
                let a = choose|a: int| 0 <= a < before.len() && before[a] == v;
                assert(order[a] == v);
            }
        }
        if nodes[v as int].parent.is_none() {
            assert(adj.contains_key(v));
            let p = choose|p: Seq<usize>| #[trigger] light_walk(adj, p) && p[0] == src && p.last() == v;
            let i = walk_leaves(p, before);
            assert(light_step(adj, p[i], p[i + 1]));
            let j = choose|j: int|
                adj.contains_key(p[i]) && 0 <= j < adj[p[i]].len() && (#[trigger] adj[p[i]][j]).0
                    == p[i + 1] && adj[p[i]][j].1.rank() < W::ceiling();
            let s = choose|s: int| 0 <= s < before.len() && before[s] == p[i];
            assert(order[s] == p[i]);
            assert(!before.contains(adj[order[s]][j].0));
        }
    }
}

/// The number of tree edges among the first `k` nodes, where every node but
/// `src` has one: `k`, less one if `src` is among them.
pub proof fn count_tree_edges<W: Weight>(nodes: Seq<PrimNode<W>>, src: usize, k: nat)
    requires
        k <= nodes.len(),
        forall|v: int| 0 <= v < nodes.len() ==> ((#[trigger] nodes[v]).parent.is_none() <==> v == src),
    ensures
        tree_edges(nodes, k) == if src < k {
            k - 1
        } else {
            k as int
        },
    decreases k,
{
    if k > 0 {
        count_tree_edges(nodes, src, (k - 1) as nat);
    }
}

/// A list of `n` different numbers below `n` holds every number below `n`.
pub proof fn everyone_is_listed(order: Seq<usize>, n: nat, v: int)
    requires
        order.len() == n,
        order.no_duplicates(),
        forall|t: int| 0 <= t < order.len() ==> (#[trigger] order[t]) < n,
        0 <= v < n,
    ensures
        exists|t: int| 0 <= t < order.len() && order[t] as int == v,
{
    let s = order.to_set();
    order.unique_seq_to_set();
    let f = |u: usize| u as int;
    let img = s.map(f);
    let r = vstd::set_lib::set_int_range(0, n as int);
    vstd::seq_lib::seq_to_set_is_finite(order);
    assert(vstd::relations::injective_on(f, s));
    vstd::set_lib::lemma_map_size(s, img, f);
    vstd::set_lib::lemma_int_range(0, n as int);
    assert(img.subset_of(r)) by {
        assert forall|x: int| img.contains(x) implies r.contains(x) by {
            let u = choose|u: usize| s.contains(u) && f(u) == x;
            let a = choose|a: int| 0 <= a < order.len() && order[a] == u;
            assert(order[a] < n);
        }
    }
    vstd::set_lib::lemma_subset_equality(img, r);
    assert(r.contains(v));
    assert(img.contains(v));
    let u = choose|u: usize| s.contains(u) && f(u) == v;
    let a = choose|a: int| 0 <= a < order.len() && order[a] == u;
    assert(order[a] as int == v);
}

/// Prim's algorithm on a connected graph gives a spanning tree: one edge less
/// than there are nodes, and every node but the source hanging from a node
/// that joined before it.
pub proof fn prim_gives_spanning_tree<W: Weight>(
    adj: Adjacency<W>,
    nodes: Seq<PrimNode<W>>,
    src: usize,
    order: Seq<usize>,
)
    requires
        prim_tree(adj, nodes, src, order),
        forall|u: usize| u < nodes.len() <==> #[trigger] adj.contains_key(u),
        src < nodes.len(),
        connected(adj, src),
    ensures
        tree_edges(nodes, nodes.len()) == nodes.len() - 1,
        forall|v: int| 0 <= v < nodes.len() ==> ((#[trigger] nodes[v]).parent.is_none() <==> v == src),
{
    let n = nodes.len();
    assert forall|v: int| 0 <= v < n implies ((#[trigger] nodes[v]).parent.is_none() <==> v
        == src) by {
        everyone_is_listed(order, n, v);
        let t = choose|t: int| 0 <= t < order.len() && order[t] as int == v;
        prim_spans(adj, nodes, src, order, t);
    }
    count_tree_edges(nodes, src, n);
}

/// How often `x` stands in `s`.
pub open spec fn count_of(s: Seq<int>, x: int) -> nat
    decreases s.len(),
{
    if s.len() == 0 {
        0
    } else {
        count_of(s.drop_last(), x) + if s.last() == x {
            1nat
        } else {
            0nat
        }
    }
}

/// No member of `s` is smaller than a member before it.
pub open spec fn ascending(s: Seq<int>) -> bool {
    forall|i: int, j: int| 0 <= i <= j < s.len() ==> s[i] <= s[j]
}

/// Two ascending sequences merged into one ascending sequence.
pub open spec fn sort_merge(x: Seq<int>, y: Seq<int>) -> Seq<int>
    decreases x.len() + y.len(),
{
    if x.len() == 0 {
        y
    } else if y.len() == 0 {
        x
    } else if x.last() <= y.last() {
        sort_merge(x, y.drop_last()).push(y.last())
    } else {
        sort_merge(x.drop_last(), y).push(x.last())
    }
}

/// The nodes of the heap that have the rank `x`.
pub open spec fn ranked_set<K, P: Prio>(m: HeapModel<K, P>, x: int) -> Set<int> {
    Set::new(|d: int| m.nodes.contains_key(d) && m.nodes[d].prio.rank() == x)
}

/// How many nodes of the heap have the rank `x`.
pub open spec fn ranked<K, P: Prio>(m: HeapModel<K, P>, x: int) -> nat {
    ranked_set(m, x).len()
}

/// Counting in a sequence put together from two counts in each and adds up.
pub proof fn count_of_concat(a: Seq<int>, b: Seq<int>, x: int)
    ensures
        count_of(a + b, x) == count_of(a, x) + count_of(b, x),
    decreases b.len(),
{
    if b.len() == 0 {
        assert(a + b =~= a);
    } else {
        count_of_concat(a, b.drop_last(), x);
        assert((a + b).drop_last() =~= a + b.drop_last());
    }
}

/// What is counted stands in the sequence, and what stands in it is counted.
pub proof fn count_of_member(s: Seq<int>, x: int)
    ensures
        count_of(s, x) > 0 <==> s.contains(x),
    decreases s.len(),
{
    if s.len() > 0 {
        count_of_member(s.drop_last(), x);
        if s.contains(x) {
            let i = choose|i: int| 0 <= i < s.len() && s[i] == x;
            if i < s.len() - 1 {
                assert(s.drop_last()[i] == x);
            }
        }
        if s.drop_last().contains(x) {
            let i = choose|i: int| 0 <= i < s.drop_last().len() && s.drop_last()[i] == x;
            assert(s[i] == x);
        }
        if s.last() == x {
            assert(s[s.len() - 1] == x);
        }
    }
}

/// Two ascending sequences that hold every number equally often are one sequence.
pub proof fn ascending_is_unique(x: Seq<int>, y: Seq<int>)
    requires
        ascending(x),
        ascending(y),
        forall|v: int| count_of(x, v) == count_of(y, v),
    ensures
        x == y,
    decreases x.len(),
{
    if x.len() == 0 {
        if y.len() > 0 {
            count_of_member(y, y[0]);
        }
        assert(x =~= y);
    } else {
        let a = x.last();
        count_of_member(x, a);
        assert(x[x.len() - 1] == a);
        count_of_member(y, a);
        let b = y.last();
        count_of_member(y, b);
        assert(y[y.len() - 1] == b);
        count_of_member(x, b);
        let i = choose|i: int| 0 <= i < y.len() && y[i] == a;
        let j = choose|j: int| 0 <= j < x.len() && x[j] == b;
        assert(a == b);
        let x2 = x.drop_last();
        let y2 = y.drop_last();
        assert(ascending(x2)) by {
            assert forall|i: int, j: int| 0 <= i <= j < x2.len() implies x2[i] <= x2[j] by {
                assert(x[i] <= x[j]);
            }
        }
        assert(ascending(y2)) by {
            assert forall|i: int, j: int| 0 <= i <= j < y2.len() implies y2[i] <= y2[j] by {
                assert(y[i] <= y[j]);
            }
        }
        assert forall|v: int| count_of(x2, v) == count_of(y2, v) by {
            assert(count_of(x, v) == count_of(y, v));
        }
        ascending_is_unique(x2, y2);
        assert(x =~= x2.push(a));
        assert(y =~= y2.push(b));
    }
}

/// A merge of two ascending sequences is ascending and holds every number as
/// often as the two together.
pub proof fn sort_merge_is_ascending(x: Seq<int>, y: Seq<int>)
    requires
        ascending(x),
        ascending(y),
    ensures
        ascending(sort_merge(x, y)),
        forall|v: int| count_of(sort_merge(x, y), v) == count_of(x, v) + count_of(y, v),
    decreases x.len() + y.len(),
{
    if x.len() == 0 || y.len() == 0 {
        assert forall|v: int| count_of(sort_merge(x, y), v) == count_of(x, v) + count_of(y, v) by {
            if x.len() == 0 {
                assert(count_of(x, v) == 0);
            } else {
                assert(count_of(y, v) == 0);
            }
        }
    } else {
        let take_y = x.last() <= y.last();
        let x2 = if take_y {
            x
        } else {
            x.drop_last()
        };
        let y2 = if take_y {
            y.drop_last()
        } else {
            y
        };
        let top = if take_y {
            y.last()
        } else {
            x.last()
        };
        assert(ascending(x2)) by {
            assert forall|i: int, j: int| 0 <= i <= j < x2.len() implies x2[i] <= x2[j] by {
                assert(x[i] <= x[j]);
            }
        }
        assert(ascending(y2)) by {
            assert forall|i: int, j: int| 0 <= i <= j < y2.len() implies y2[i] <= y2[j] by {
                assert(y[i] <= y[j]);
            }
        }
        sort_merge_is_ascending(x2, y2);
        let r = sort_merge(x2, y2);
        let m = sort_merge(x, y);
        assert(m == r.push(top));
        assert(m.drop_last() =~= r);
        assert forall|i: int| 0 <= i < r.len() implies r[i] <= top by {
            let v = r[i];
            count_of_member(r, v);
            count_of_member(x2, v);
            count_of_member(y2, v);
            if x2.contains(v) {
                let k = choose|k: int| 0 <= k < x2.len() && x2[k] == v;
                assert(x[k] <= x[x.len() - 1]);
            } else {
                let k = choose|k: int| 0 <= k < y2.len() && y2[k] == v;
                assert(y[k] <= y[y.len() - 1]);
            }
        }
        assert forall|i: int, j: int| 0 <= i <= j < m.len() implies m[i] <= m[j] by {
            if j < r.len() {
                assert(r[i] <= r[j]);
            }
        }
        assert forall|v: int| count_of(m, v) == count_of(x, v) + count_of(y, v) by {
            assert(count_of(r, v) == count_of(x2, v) + count_of(y2, v));
            assert(m.last() == top);
            assert(count_of(m, v) == count_of(r, v) + if top == v {
                1nat
            } else {
                0nat
            });
        }
    }
}

/// A full drain returns every rank as often as the heap holds nodes of it.
pub proof fn drain_counts<K, P: Prio>(m: HeapModel<K, P>, x: int)
    requires
        m.wf(),
    ensures
        count_of(m.drained(m.nodes.len()), x) == ranked(m, x),
    decreases m.nodes.len(),
{
    m.lemma_finite();
    let all = m.nodes.dom();
    let fm = ranked_set(m, x);
    if m.root.is_none() {
        assert(all =~= Set::empty());
        assert(fm =~= Set::empty());
        assert(m.nodes.len() == 0);
        assert(m.drained(0) =~= Seq::<int>::empty());
    } else {
        let r = m.root.unwrap();
        let q = m.pop();
        m.lemma_pop();
        q.lemma_finite();
        assert(all.contains(r));
        drain_counts(q, x);
        let fq = ranked_set(q, x);
        assert(fm.subset_of(all));
        vstd::set_lib::lemma_len_subset(fm, all);
        assert(fq =~= fm.remove(r)) by {
            assert forall|d: int| fq.contains(d) <==> fm.remove(r).contains(d) by {
                if q.nodes.contains_key(d) {
                    assert(q.nodes[d].prio == m.nodes[d].prio);
                    assert(m.nodes.contains_key(d));
                }
                if m.nodes.contains_key(d) && d != r {
                    assert(all.remove(r).contains(d));
                    assert(q.nodes.contains_key(d));
                }
            }
        }
        let head = seq![m.rank(r)];
        let rest = q.drained(q.nodes.len());
        assert(m.drained(m.nodes.len()) == head + rest);
        count_of_concat(head, rest, x);
        assert(head.drop_last() =~= Seq::<int>::empty());
        assert(count_of(Seq::<int>::empty(), x) == 0);
        assert(head.last() == m.rank(r));
        assert(count_of(head, x) == if m.rank(r) == x {
            1nat
        } else {
            0nat
        });
        if m.rank(r) == x {
            assert(fm.contains(r));
        } else {
            assert(!fm.contains(r));
            assert(fq =~= fm);
        }
    }
}

/// A merged heap holds every rank as often as the two heaps together.
pub proof fn absorb_counts<K, P: Prio>(a: HeapModel<K, P>, b: HeapModel<K, P>, off: int, x: int)
    requires
        a.wf(),
        b.wf(),
        forall|d: int| #[trigger] a.nodes.contains_key(d) ==> d < off,
        forall|d: int| #[trigger] b.nodes.contains_key(d) ==> 0 <= d,
    ensures
        ranked(a.absorb(b, off), x) == ranked(a, x) + ranked(b, x),
{
    let m = a.absorb(b, off);
    a.lemma_absorb(b, off);
    a.lemma_finite();
    b.lemma_finite();
    let fa = ranked_set(a, x);
    let fb = ranked_set(b, x);
    let fm = ranked_set(m, x);
    let sh = |d: int| d + off;
    let img = fb.map(sh);
    let bm = b.nodes.dom().map(|y: int| y + off);
    assert(fa.subset_of(a.nodes.dom()));
    vstd::set_lib::lemma_len_subset(fa, a.nodes.dom());
    assert(fb.subset_of(b.nodes.dom()));
    vstd::set_lib::lemma_len_subset(fb, b.nodes.dom());
    assert(vstd::relations::injective_on(sh, fb));
    vstd::set_lib::lemma_map_size(fb, img, sh);
    assert(fa.disjoint(img)) by {
        assert forall|d: int| !(fa.contains(d) && img.contains(d)) by {
            if img.contains(d) {
                let e = choose|e: int| fb.contains(e) && sh(e) == d;
                assert(b.nodes.contains_key(e));
            }
        }
    }
    vstd::set_lib::lemma_set_disjoint_lens(fa, img);
    assert(fm =~= fa.union(img)) by {
        assert forall|d: int| fm.contains(d) <==> fa.union(img).contains(d) by {
            if fm.contains(d) {
                assert(m.nodes.dom().contains(d));
                if a.nodes.contains_key(d) {
                    assert(m.nodes[d].prio == a.nodes[d].prio);
                } else {
                    assert(bm.contains(d));
                    let e = choose|e: int| b.nodes.dom().contains(e) && e + off == d;
                    assert(b.nodes.contains_key(e));
                    assert(m.nodes[e + off].prio == b.nodes[e].prio);
                    assert(fb.contains(e));
                    assert(sh(e) == d);
                }
            }
            if fa.contains(d) {
                assert(a.nodes.contains_key(d));
                assert(m.nodes[d].prio == a.nodes[d].prio);
                assert(a.nodes.dom().union(bm).contains(d));
            }
            if img.contains(d) {
                let e = choose|e: int| fb.contains(e) && sh(e) == d;
                assert(b.nodes.contains_key(e));
                assert(m.nodes[e + off].prio == b.nodes[e].prio);
                assert(b.nodes.dom().contains(e));
                assert(bm.contains(e + off));
                assert(a.nodes.dom().union(bm).contains(d));
            }
        }
    }
}

/// The minimum of a merged heap is the lower of the two minima, and on equal
/// ranks the root of the receiver stays the root.
pub proof fn merged_minimum<K, P: Prio>(a: HeapModel<K, P>, b: HeapModel<K, P>, off: int)
    requires
        a.wf(),
        b.wf(),
        a.root.is_some(),
        b.root.is_some(),
        forall|d: int| #[trigger] a.nodes.contains_key(d) ==> d < off,
        forall|d: int| #[trigger] b.nodes.contains_key(d) ==> 0 <= d,
    ensures
        a.absorb(b, off).wf(),
        a.absorb(b, off).root == if b.rank(b.root.unwrap()) < a.rank(a.root.unwrap()) {
            Some(b.root.unwrap() + off)
        } else {
            a.root
        },
        a.absorb(b, off).nodes[a.absorb(b, off).root.unwrap()].prio.rank() == if b.rank(
            b.root.unwrap(),
        ) < a.rank(a.root.unwrap()) {
            b.rank(b.root.unwrap())
        } else {
            a.rank(a.root.unwrap())
        },
{
    a.lemma_absorb(b, off);
    a.lemma_join(b, off);
    assert(a.nodes.contains_key(a.root.unwrap()));
    assert(b.nodes.contains_key(b.root.unwrap()));
}

/// Merge additivity: a merged heap has the sizes of the two heaps together,
/// and its full drain is the sort-merge of their full drains.
pub proof fn merged_drain<K, P: Prio>(a: HeapModel<K, P>, b: HeapModel<K, P>, off: int)
    requires
        a.wf(),
        b.wf(),
        forall|d: int| #[trigger] a.nodes.contains_key(d) ==> d < off,
        forall|d: int| #[trigger] b.nodes.contains_key(d) ==> 0 <= d,
    ensures
        a.absorb(b, off).wf(),
        a.absorb(b, off).nodes.len() == a.nodes.len() + b.nodes.len(),
        a.absorb(b, off).drained(a.absorb(b, off).nodes.len()) == sort_merge(
            a.drained(a.nodes.len()),
            b.drained(b.nodes.len()),
        ),
{
    let m = a.absorb(b, off);
    a.lemma_absorb(b, off);
    let da = a.drained(a.nodes.len());
    let db = b.drained(b.nodes.len());
    let dm = m.drained(m.nodes.len());
    sorted_drain(a, a.nodes.len());
    sorted_drain(b, b.nodes.len());
    sorted_drain(m, m.nodes.len());
    sort_merge_is_ascending(da, db);
    assert forall|v: int| count_of(dm, v) == count_of(sort_merge(da, db), v) by {
        drain_counts(a, v);
        drain_counts(b, v);
        drain_counts(m, v);
        absorb_counts(a, b, off, v);
    }
    ascending_is_unique(dm, sort_merge(da, db));
}

} // verus!
