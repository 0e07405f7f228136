//! Single-source shortest paths by Dijkstra's algorithm.
use vstd::prelude::*;
use crate::graph::Adjacency;
use crate::weight::Weight;

verus! {

/// What the search knows of one node.
#[derive(Clone, Copy, Debug)]
pub struct DijNode<W> {
    /// The node before this one on the best path found, where there is one.
    pub pred: usize,
    /// The number of edges on the best path found.
    pub len: usize,
    /// Whether the distance of the node is final.
    pub visited: bool,
    /// Whether a path from the source to the node was found.
    pub feasible: bool,
    /// The length of the best path found.
    pub dist: W,
}

impl<W: Weight> DijNode<W> {
    /// The state of a node that the search has not reached: no path, and the
    /// largest distance.
    pub fn new() -> (r: Self)
        ensures
            r.pred == 0,
            r.len == 0,
            !r.visited,
            !r.feasible,
            r.dist.rank() == W::ceiling(),
    {
        Self { pred: 0, len: 0, visited: false, feasible: false, dist: W::max_value() }
    }
}

/// The node reached from `v` by going back `k` times to the predecessor.
pub open spec fn back<W>(nodes: Seq<DijNode<W>>, v: usize, k: nat) -> usize
    decreases k,
{
    if k == 0 {
        v
    } else {
        nodes[back(nodes, v, (k - 1) as nat) as int].pred
    }
}

/// The last `k + 1` nodes of the path that the predecessors give to `v`.
pub open spec fn chain<W>(nodes: Seq<DijNode<W>>, v: usize, k: nat) -> Seq<usize>
    decreases k,
{
    if k == 0 {
        seq![v]
    } else {
        chain(nodes, nodes[v as int].pred, (k - 1) as nat).push(v)
    }
}

/// The path that the predecessors give from the source to `v`.
pub open spec fn route<W>(nodes: Seq<DijNode<W>>, v: usize) -> Seq<usize> {
    chain(nodes, v, nodes[v as int].len as nat)
}

/// The predecessors form a tree rooted at the source: the source is reached
/// with no edge, and every other node that was reached is one edge further
/// from the source than its predecessor, which was reached too.
pub open spec fn tree_ok<W>(nodes: Seq<DijNode<W>>, src: usize) -> bool {
    &&& src < nodes.len()
    &&& nodes[src as int].feasible
    &&& nodes[src as int].len == 0
    &&& forall|v: int| 0 <= v < nodes.len() ==> (#[trigger] nodes[v]).pred < nodes.len()
    &&& forall|v: int|
        0 <= v < nodes.len() && (#[trigger] nodes[v]).feasible && v != src ==> {
            let p = nodes[v].pred as int;
            &&& nodes[v].len < nodes.len()
            &&& nodes[v].len == nodes[p].len + 1
            &&& nodes[p].feasible
        }
}

/// `p` is a walk in the graph along edges whose weights add up to `c`.
pub open spec fn walk_cost<W: Weight>(adj: Adjacency<W>, p: Seq<usize>, c: int) -> bool
    decreases p.len(),
{
    if p.len() == 0 {
        false
    } else if p.len() == 1 {
        c == 0
    } else {
        let u = p[p.len() - 2];
        let v = p[p.len() - 1];
        exists|j: int|
            adj.contains_key(u) && 0 <= j < adj[u].len() && (#[trigger] adj[u][j]).0 == v
                && walk_cost(adj, p.drop_last(), c - adj[u][j].1.rank())
    }
}

/// The search state holds the shortest paths from `src`: the route of every
/// node that was reached is a walk of the length recorded for it, no walk from
/// the source to a node is shorter than the length recorded for the node, and
/// a node that was not reached has the largest length recorded.
pub open spec fn solves<W: Weight>(adj: Adjacency<W>, nodes: Seq<DijNode<W>>, src: usize) -> bool {
    &&& tree_ok(nodes, src)
    &&& nodes.len() == adj.len()
    &&& nodes[src as int].dist.rank() == 0
    &&& forall|v: int|
        0 <= v < nodes.len() && (#[trigger] nodes[v]).feasible ==> nodes[v].dist.rank()
            < W::ceiling() && walk_cost(adj, route(nodes, v as usize), nodes[v].dist.rank())
    &&& forall|v: int|
        0 <= v < nodes.len() && !(#[trigger] nodes[v]).feasible && v != src
            ==> nodes[v].dist.rank() == W::ceiling()
    &&& forall|p: Seq<usize>, c: int|
        p.len() >= 1 && p[0] == src && #[trigger] walk_cost(adj, p, c) ==> p.last() < nodes.len()
            && nodes[p.last() as int].dist.rank() <= c
}

/// Going back from a node that was reached stays among the nodes that were
/// reached and, after as many steps as the node has edges, ends at the source.
pub proof fn lemma_back<W>(nodes: Seq<DijNode<W>>, src: usize, v: usize, k: nat)
    requires
        tree_ok(nodes, src),
        v < nodes.len(),
        nodes[v as int].feasible,
        k <= nodes[v as int].len,
    ensures
        back(nodes, v, k) < nodes.len(),
        nodes[back(nodes, v, k) as int].len == nodes[v as int].len - k,
        nodes[back(nodes, v, k) as int].feasible,
        k == nodes[v as int].len ==> back(nodes, v, k) == src,
    decreases k,
{
    if k > 0 {
        lemma_back(nodes, src, v, (k - 1) as nat);
        let b = back(nodes, v, (k - 1) as nat);
        assert(nodes[b as int].feasible);
        assert(b != src);
    }
    let e = back(nodes, v, k);
    if k == nodes[v as int].len && e != src {
        assert(nodes[e as int].len == nodes[nodes[e as int].pred as int].len + 1);
    }
}

/// Going back `k` times from the predecessor is going back `k + 1` times.
pub proof fn lemma_back_shift<W>(nodes: Seq<DijNode<W>>, v: usize, k: nat)
    ensures
        back(nodes, nodes[v as int].pred, k) == back(nodes, v, k + 1),
    decreases k,
{
    if k > 0 {
        lemma_back_shift(nodes, v, (k - 1) as nat);
    } else {
        assert(back(nodes, v, 1) == nodes[back(nodes, v, 0) as int].pred);
    }
}

/// A chain grows at the front by the node one step further back.
pub proof fn lemma_chain_front<W>(nodes: Seq<DijNode<W>>, v: usize, k: nat)
    ensures
        chain(nodes, v, k + 1) == seq![back(nodes, v, k + 1)] + chain(nodes, v, k),
        chain(nodes, v, k).len() == k + 1,
        chain(nodes, v, k).last() == v,
        chain(nodes, v, k)[0] == back(nodes, v, k),
    decreases k,
{
    let p = nodes[v as int].pred;
    if k == 0 {
        assert(chain(nodes, v, 1) == chain(nodes, p, 0).push(v));
        assert(back(nodes, v, 1) == nodes[back(nodes, v, 0) as int].pred);
        assert(seq![p].push(v) =~= seq![p] + seq![v]);
    } else {
        lemma_chain_front(nodes, p, (k - 1) as nat);
        lemma_back_shift(nodes, v, k);
        lemma_back_shift(nodes, v, (k - 1) as nat);
        let c = chain(nodes, p, (k - 1) as nat);
        assert(chain(nodes, p, k) == seq![back(nodes, p, k)] + c);
        assert(chain(nodes, v, k + 1) == chain(nodes, p, k).push(v));
        assert(chain(nodes, v, k) == c.push(v));
        assert((seq![back(nodes, p, k)] + c).push(v) =~= seq![back(nodes, p, k)] + c.push(v));
    }
}

/// Going back `a` times and then `b` times is going back `a + b` times.
pub proof fn lemma_back_add<W>(nodes: Seq<DijNode<W>>, v: usize, a: nat, b: nat)
    ensures
        back(nodes, back(nodes, v, a), b) == back(nodes, v, a + b),
    decreases b,
{
    if b > 0 {
        lemma_back_add(nodes, v, a, (b - 1) as nat);
        assert(back(nodes, v, a + b) == nodes[back(nodes, v, (a + b - 1) as nat) as int].pred);
    }
}

/// A chain is the chain of the node `t` steps back, followed by the last `t` nodes.
pub proof fn lemma_chain_split<W>(nodes: Seq<DijNode<W>>, v: usize, t: nat, len: nat)
    requires
        1 <= t <= len,
    ensures
        chain(nodes, v, len) == chain(nodes, back(nodes, v, t), (len - t) as nat) + chain(
            nodes,
            v,
            (t - 1) as nat,
        ),
    decreases len - t,
{
    let b = back(nodes, v, t);
    if len == t {
        lemma_chain_front(nodes, v, (t - 1) as nat);
        assert(chain(nodes, b, 0) == seq![b]);
    } else {
        lemma_chain_split(nodes, v, t, (len - 1) as nat);
        lemma_chain_front(nodes, v, (len - 1) as nat);
        lemma_chain_front(nodes, b, (len - 1 - t) as nat);
        lemma_back_add(nodes, v, t, (len - t) as nat);
        let head = seq![back(nodes, v, len)];
        let mid = chain(nodes, b, (len - 1 - t) as nat);
        let tail = chain(nodes, v, (t - 1) as nat);
        assert(chain(nodes, v, len) == head + (mid + tail));
        assert(chain(nodes, b, (len - t) as nat) == head + mid);
        assert(head + (mid + tail) =~= (head + mid) + tail);
    }
}

/// Copies a path.
fn copy_path(v: &Vec<usize>) -> (r: Vec<usize>)
    ensures
        r@ == v@,
{
    let mut r: Vec<usize> = Vec::new();
    let mut i: usize = 0;
    while i < v.len()
        invariant
            0 <= i <= v@.len(),
            r@ == v@.take(i as int),
        decreases v@.len() - i,
    {
        r.push(v[i]);
        proof {
            assert(v@.take(i as int).push(v@[i as int]) =~= v@.take(i + 1));
        }
        i = i + 1;
    }
    proof {
        assert(v@.take(v@.len() as int) =~= v@);
    }
    r
}

/// The shortest path from a source node to a destination node, as a value.
pub struct PathView<W> {
    pub src: usize,
    pub dest: usize,
    pub feasible: bool,
    pub dist: W,
    pub path: Seq<usize>,
}

/// `sp` is the answer that the search state `nodes` gives for `dest`: where
/// `dest` was reached, its distance and its route; where it was not, no path
/// and the distance zero.
pub open spec fn answers<W: Weight>(
    sp: PathView<W>,
    nodes: Seq<DijNode<W>>,
    src: usize,
    dest: usize,
) -> bool {
    &&& sp.src == src
    &&& sp.dest == dest
    &&& sp.feasible == nodes[dest as int].feasible
    &&& sp.feasible ==> sp.dist == nodes[dest as int].dist && sp.path == route(nodes, dest)
    &&& !sp.feasible ==> sp.dist.rank() == 0 && sp.path == Seq::<usize>::empty()
}

/// `sp` is a shortest path from `src` to `dest`: where it is feasible, its
/// nodes are a walk from `src` to `dest` of the distance it gives, and no walk
/// from `src` to `dest` is shorter; where it is not, every walk from `src` to
/// `dest` is at least as long as the largest weight.
pub open spec fn best<W: Weight>(adj: Adjacency<W>, src: usize, dest: usize, sp: PathView<W>) -> bool {
    &&& sp.src == src
    &&& sp.dest == dest
    &&& sp.feasible ==> {
        &&& sp.path.len() >= 1
        &&& sp.path[0] == src
        &&& sp.path.last() == dest
        &&& walk_cost(adj, sp.path, sp.dist.rank())
        &&& forall|p: Seq<usize>, c: int|
            p.len() >= 1 && p[0] == src && p.last() == dest && #[trigger] walk_cost(adj, p, c)
                ==> sp.dist.rank() <= c
    }
    &&& !sp.feasible ==> {
        &&& sp.path.len() == 0
        &&& sp.dist.rank() == 0
        &&& forall|p: Seq<usize>, c: int|
            p.len() >= 1 && p[0] == src && p.last() == dest && #[trigger] walk_cost(adj, p, c)
                ==> W::ceiling() <= c
    }
}

/// Dijkstra's algorithm is correct: the answer that a solved search state
/// gives for a node is a shortest path to it.
pub proof fn answer_is_best<W: Weight>(
    adj: Adjacency<W>,
    nodes: Seq<DijNode<W>>,
    src: usize,
    dest: usize,
    sp: PathView<W>,
)
    requires
        solves(adj, nodes, src),
        dest < nodes.len(),
        answers(sp, nodes, src, dest),
    ensures
        best(adj, src, dest, sp),
{
    if sp.feasible {
        let x = nodes[dest as int];
        assert(x.feasible);
        lemma_chain_front(nodes, dest, x.len as nat);
        lemma_back(nodes, src, dest, x.len as nat);
        assert forall|p: Seq<usize>, c: int|
            p.len() >= 1 && p[0] == src && p.last() == dest && #[trigger] walk_cost(
                adj,
                p,
                c,
            ) implies sp.dist.rank() <= c by {}
    } else {
        assert(!nodes[dest as int].feasible);
        assert(dest != src);
        assert forall|p: Seq<usize>, c: int|
            p.len() >= 1 && p[0] == src && p.last() == dest && #[trigger] walk_cost(
                adj,
                p,
                c,
            ) implies W::ceiling() <= c by {}
    }
}

/// A search state gives one answer for a node, and no other.
pub proof fn answer_is_unique<W: Weight>(
    a: PathView<W>,
    b: PathView<W>,
    nodes: Seq<DijNode<W>>,
    src: usize,
    dest: usize,
)
    requires
        answers(a, nodes, src, dest),
        answers(b, nodes, src, dest),
    ensures
        a == b,
{
    if !a.feasible {
        W::lemma_one_per_rank(a.dist, b.dist);
    }
}

/// The shortest path from a source node to a destination node.
#[derive(Debug)]
pub struct ShortestPath<W> {
    src: usize,
    dest: usize,
    feasible: bool,
    dist: W,
    path: Vec<usize>,
}

impl<W: Copy> ShortestPath<W> {
    /// The path as a value.
    pub closed spec fn view(&self) -> PathView<W> {
        PathView {
            src: self.src,
            dest: self.dest,
            feasible: self.feasible,
            dist: self.dist,
            path: self.path@,
        }
    }

    /// Returns the index of the source node in the shortest path.
    pub fn src(&self) -> (r: usize)
        ensures
            r == self@.src,
    {
        self.src
    }

    /// Returns the index of the destination node in the shortest path.
    pub fn dest(&self) -> (r: usize)
        ensures
            r == self@.dest,
    {
        self.dest
    }

    /// Returns the shortest path's distance, which means something only where
    /// the path is feasible.
    pub fn dist(&self) -> (r: W)
        ensures
            r == self@.dist,
    {
        self.dist
    }

    /// Returns whether a path from the source node to the destination node is feasible.
    pub fn is_feasible(&self) -> (r: bool)
        ensures
            r == self@.feasible,
    {
        self.feasible
    }

    /// Returns the path from the source node to destination node.
    ///
    /// The first element of the vector is the source node, the last the destination node.
    pub fn path(&self) -> (r: &Vec<usize>)
        ensures
            r@ == self@.path,
    {
        &self.path
    }
}

/// Walks the predecessors back from `dest` and returns the path that they give.
pub fn traverse_path<W: Weight>(src: usize, dest: usize, paths: &Vec<DijNode<W>>) -> (sp:
    ShortestPath<W>)
    requires
        tree_ok(paths@, src),
        dest < paths.len(),
    ensures
        answers(sp@, paths@, src, dest),
{
    let end_node = &paths[dest];
    if end_node.feasible {
        let expected = end_node.len + 1;
        let mut path: Vec<usize> = Vec::new();
        path.push(dest);
        let mut next = end_node.pred;
        let mut len: usize = path.len();
        proof {
            assert(back(paths@, dest, 1) == paths@[back(paths@, dest, 0) as int].pred);
        }
        while len < expected
            invariant
                tree_ok(paths@, src),
                dest < paths.len(),
                paths@[dest as int].feasible,
                expected == paths@[dest as int].len + 1,
                1 <= len <= expected,
                len == path@.len(),
                path@ == chain(paths@, dest, (len - 1) as nat),
                next == back(paths@, dest, len as nat),
                next < paths.len(),
            decreases expected - len,
        {
            proof {
                lemma_chain_front(paths@, dest, (len - 1) as nat);
                lemma_back(paths@, src, dest, len as nat);
                assert(back(paths@, dest, (len + 1) as nat) == paths@[back(
                    paths@,
                    dest,
                    len as nat,
                ) as int].pred);
                assert(path@.insert(0, next) =~= seq![next] + path@);
            }
            path.insert(0, next);
            next = paths[next].pred;
            len = path.len();
        }
        ShortestPath { src, dest, dist: end_node.dist, path, feasible: true }
    } else {
        ShortestPath { src, dest, dist: W::zero(), path: Vec::new(), feasible: false }
    }
}

/// A struct representing the intermediate output of Dijkstra's algorithm.
#[derive(Debug)]
pub struct LazyShortestPaths<W> {
    src: usize,
    paths: Vec<DijNode<W>>,
}

impl<W: Weight> LazyShortestPaths<W> {
    /// The source node of the search.
    pub closed spec fn source(&self) -> usize {
        self.src
    }

    /// The state of the search, node by node.
    pub closed spec fn nodes(&self) -> Seq<DijNode<W>> {
        self.paths@
    }

    /// The predecessors form a tree rooted at the source.
    pub open spec fn wf(&self) -> bool {
        tree_ok(self.nodes(), self.source())
    }

    /// The state holds the shortest paths of the graph with the lists `adj`.
    pub open spec fn solves(&self, adj: Adjacency<W>) -> bool {
        solves(adj, self.nodes(), self.source())
    }

    /// Keeps the state of a search from `src`.
    pub(crate) fn from_search(src: usize, paths: Vec<DijNode<W>>) -> (r: Self)
        ensures
            r.source() == src,
            r.nodes() == paths@,
    {
        LazyShortestPaths { src, paths }
    }

    /// Returns the shortest path for a given node.
    pub fn get(&self, node_index: usize) -> (sp: ShortestPath<W>)
        requires
            self.wf(),
            node_index < self.nodes().len(),
        ensures
            answers(sp@, self.nodes(), self.source(), node_index),
    {
        traverse_path(self.src, node_index, &self.paths)
    }

    /// Returns the shortest paths for all nodes. The path of a node is built
    /// on the path of an ancestor of lower number where there is one.
    pub fn get_all(&self) -> (r: Vec<ShortestPath<W>>)
        requires
            self.wf(),
        ensures
            r@.len() == self.nodes().len(),
            forall|k: int|
                0 <= k < r@.len() ==> answers(
                    (#[trigger] r@[k])@,
                    self.nodes(),
                    self.source(),
                    k as usize,
                ),
    {
        let n_nodes = self.paths.len();
        let mut result: Vec<ShortestPath<W>> = Vec::new();
        let mut ii: usize = 0;
        while ii < n_nodes
            invariant
                self.wf(),
                n_nodes == self.paths@.len(),
                0 <= ii <= n_nodes,
                result@.len() == ii,
                forall|k: int|
                    0 <= k < ii ==> answers(
                        (#[trigger] result@[k])@,
                        self.nodes(),
                        self.source(),
                        k as usize,
                    ),
            decreases n_nodes - ii,
        {
            let end_node = &self.paths[ii];
            let sp = if end_node.feasible {
                let hops = end_node.len;
                let mut chain_vec: Vec<usize> = Vec::new();
                chain_vec.push(ii);
                let mut next = end_node.pred;
                let mut steps: usize = 1;
                let mut done = hops == 0;
                proof {
                    assert(back(self.paths@, ii, 1) == self.paths@[back(self.paths@, ii, 0) as int].pred);
                }
                while !done
                    invariant
                        self.wf(),
                        n_nodes == self.paths@.len(),
                        ii < n_nodes,
                        self.paths@[ii as int].feasible,
                        hops == self.paths@[ii as int].len,
                        result@.len() == ii,
                        forall|k: int|
                            0 <= k < ii ==> answers(
                                (#[trigger] result@[k])@,
                                self.nodes(),
                                self.source(),
                                k as usize,
                            ),
                        next < n_nodes,
                        !done ==> 1 <= steps <= hops && chain_vec@ == chain(
                            self.paths@,
                            ii,
                            (steps - 1) as nat,
                        ) && next == back(self.paths@, ii, steps as nat),
                        done ==> chain_vec@ == route(self.paths@, ii),
                    decreases hops - steps + if done { 0int } else { 1int },
                {
                    proof {
                        lemma_back(self.paths@, self.src, ii, steps as nat);
                        lemma_chain_front(self.paths@, ii, (steps - 1) as nat);
                    }
                    if next < ii && self.paths[next].feasible {
                        let mut pre = copy_path(&result[next].path);
                        proof {
                            assert(answers(result@[next as int]@, self.nodes(), self.source(), next));
                            lemma_chain_split(self.paths@, ii, steps as nat, hops as nat);
                        }
                        pre.append(&mut chain_vec);
                        chain_vec = pre;
                        done = true;
                    } else {
                        proof {
                            assert(chain_vec@.insert(0, next) =~= seq![next] + chain_vec@);
                        }
                        chain_vec.insert(0, next);
                        if steps == hops {
                            done = true;
                        } else {
                            proof {
                                assert(back(self.paths@, ii, (steps + 1) as nat)
                                    == self.paths@[back(self.paths@, ii, steps as nat) as int].pred);
                            }
                            next = self.paths[next].pred;
                            steps = steps + 1;
                        }
                    }
                }
                ShortestPath {
                    src: self.src,
                    dest: ii,
                    dist: end_node.dist,
                    path: chain_vec,
                    feasible: true,
                }
            } else {
                ShortestPath {
                    src: self.src,
                    dest: ii,
                    dist: W::zero(),
                    path: Vec::new(),
                    feasible: false,
                }
            };
            result.push(sp);
            ii = ii + 1;
        }
        result
    }

    /// Returns the shortest paths for a given list of node indices.
    pub fn get_list(&self, node_indices: &[usize]) -> (r: Vec<ShortestPath<W>>)
        requires
            self.wf(),
            forall|k: int| 0 <= k < node_indices@.len() ==> node_indices@[k] < self.nodes().len(),
        ensures
            r@.len() == node_indices@.len(),
            forall|k: int|
                0 <= k < r@.len() ==> answers(
                    (#[trigger] r@[k])@,
                    self.nodes(),
                    self.source(),
                    node_indices@[k],
                ),
    {
        let mut result: Vec<ShortestPath<W>> = Vec::new();
        let mut i: usize = 0;
        while i < node_indices.len()
            invariant
                self.wf(),
                0 <= i <= node_indices@.len(),
                forall|k: int|
                    0 <= k < node_indices@.len() ==> node_indices@[k] < self.nodes().len(),
                result@.len() == i,
                forall|k: int|
                    0 <= k < i ==> answers(
                        (#[trigger] result@[k])@,
                        self.nodes(),
                        self.source(),
                        node_indices@[k],
                    ),
            decreases node_indices@.len() - i,
        {
            result.push(traverse_path(self.src, node_indices[i], &self.paths));
            i = i + 1;
        }
        result
    }
}

} // verus!
