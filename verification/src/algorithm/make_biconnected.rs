//! Making a graph biconnected by adding edges.
//!
//! A biconnected graph is a connected and "nonseparable" graph: removing any
//! one vertex leaves it connected, so it has no articulation vertex.
use vstd::prelude::*;
use petgraph::graph::{NodeIndex, UnGraph};
use crate::algorithm::low_link::{graph_wf, lemma_visited_bound, ordered_pair, LowLink};
use crate::algorithm::separation::{
    is_path, lemma_articulation_separates, lemma_one_tree_joins, lemma_roots_apart, lemma_separator_is_listed,
    symmetric,
};

verus! {

/// An undirected graph on the nodes `0..node_count`, given by its edges in the
/// order they were added (parallel edges and loops allowed).
#[derive(Debug, Clone)]
pub struct EdgeListGraph {
    pub node_count: usize,
    pub edges: Vec<(usize, usize)>,
}

/// The far ends of the edges that leave `v`, the most recently added first.
pub open spec fn outgoing(edges: Seq<(usize, usize)>, v: usize) -> Seq<usize>
    decreases edges.len(),
{
    if edges.len() == 0 {
        Seq::empty()
    } else {
        let rest = outgoing(edges.drop_last(), v);
        if edges.last().0 == v {
            seq![edges.last().1] + rest
        } else {
            rest
        }
    }
}

/// The near ends of the edges that enter `v` from another node, the most
/// recently added first.
pub open spec fn incoming(edges: Seq<(usize, usize)>, v: usize) -> Seq<usize>
    decreases edges.len(),
{
    if edges.len() == 0 {
        Seq::empty()
    } else {
        let rest = incoming(edges.drop_last(), v);
        if edges.last().1 == v && edges.last().0 != v {
            seq![edges.last().0] + rest
        } else {
            rest
        }
    }
}

/// The neighbors of `v` in the order petgraph's undirected `Graph` lists
/// them: first along the edges that leave `v`, then along those that enter
/// it (a loop is listed once), each the most recently added first.
pub open spec fn neighbor_seq(edges: Seq<(usize, usize)>, v: usize) -> Seq<usize> {
    outgoing(edges, v) + incoming(edges, v)
}

/// Builds a petgraph `UnGraph` with `Graph::from_edges` and reads each node's
/// neighbors with `Graph::neighbors`. `from_edges` adds the edges in order
/// (and the nodes they need); each node keeps a list of the edges that leave
/// it and one of those that enter it, a new edge in front, and `neighbors`
/// walks the first list, then the second, where it skips loops. A node that
/// no edge touches has no neighbors.
#[verifier::external_body]
fn neighbor_lists(node_count: usize, edges: &Vec<(usize, usize)>) -> (r: Vec<Vec<usize>>)
    requires
        node_count <= u32::MAX,
        edges@.len() <= u32::MAX,
        forall|i: int| 0 <= i < edges@.len() ==> (#[trigger] edges@[i]).0 < node_count && edges@[i].1 < node_count,
    ensures
        r@.len() == node_count,
        forall|v: int| 0 <= v < node_count ==> (#[trigger] r@[v])@ == neighbor_seq(edges@, v as usize),
{
    let g = UnGraph::<(), ()>::from_edges(edges.iter().map(|&(a, b)| (a as u32, b as u32)));
    (0..node_count).map(|i| g.neighbors(NodeIndex::new(i)).map(|n| n.index()).collect()).collect()
}

/// Every neighbor listed is a node below `n`, and `w` is listed for `v`
/// exactly when an edge joins them.
proof fn lemma_neighbor_seq(edges: Seq<(usize, usize)>, n: nat, v: usize)
    requires
        forall|i: int| 0 <= i < edges.len() ==> (#[trigger] edges[i]).0 < n && edges[i].1 < n,
    ensures
        forall|i: int| 0 <= i < neighbor_seq(edges, v).len() ==> #[trigger] neighbor_seq(edges, v)[i] < n,
        forall|w: usize| #[trigger] neighbor_seq(edges, v).contains(w) <==> connected(edges, v, w),
    decreases edges.len(),
{
    if edges.len() > 0 {
        let rest = edges.drop_last();
        let e = edges.last();
        lemma_neighbor_seq(rest, n, v);
        assert forall|i: int| 0 <= i < rest.len() implies (#[trigger] rest[i]).0 < n && rest[i].1 < n by {
            assert(rest[i] == edges[i]);
        }
        assert(e == edges[edges.len() - 1]);
        let o = outgoing(edges, v);
        let ic = incoming(edges, v);
        let o0 = outgoing(rest, v);
        let i0 = incoming(rest, v);
        assert(edges =~= rest.push(e));
        assert forall|x: (usize, usize)| #[trigger] edges.contains(x) <==> rest.contains(x) || x == e by {
            if edges.contains(x) {
                let k = choose|k: int| 0 <= k < edges.len() && edges[k] == x;
                if k < rest.len() {
                    assert(rest[k] == x);
                }
            }
            if rest.contains(x) {
                let k = choose|k: int| 0 <= k < rest.len() && rest[k] == x;
                assert(edges[k] == x);
            }
        }
        assert(neighbor_seq(rest, v) == o0 + i0);
        assert forall|i: int| 0 <= i < neighbor_seq(edges, v).len() implies #[trigger] neighbor_seq(edges, v)[i] < n by {
            let ns = neighbor_seq(edges, v);
            if i < o.len() {
                if e.0 == v {
                    if i > 0 {
                        assert(o[i] == o0[i - 1]);
                        assert((o0 + i0)[i - 1] == o0[i - 1]);
                    }
                } else {
                    assert((o0 + i0)[i] == o0[i]);
                }
            } else {
                let j = i - o.len();
                assert(ns[i] == ic[j]);
                if e.1 == v && e.0 != v {
                    if j > 0 {
                        assert(ic[j] == i0[j - 1]);
                        assert((o0 + i0)[o0.len() + j - 1] == i0[j - 1]);
                    }
                } else {
                    assert((o0 + i0)[o0.len() + j] == i0[j]);
                }
            }
        }
        assert forall|w: usize| #[trigger] neighbor_seq(edges, v).contains(w) <==> connected(edges, v, w) by {
            let ns = neighbor_seq(edges, v);
            let ns0 = o0 + i0;
            assert(ns0.contains(w) <==> o0.contains(w) || i0.contains(w)) by {
                if ns0.contains(w) {
                    let k = choose|k: int| 0 <= k < ns0.len() && ns0[k] == w;
                    if k < o0.len() {
                        assert(o0[k] == w);
                    } else {
                        assert(i0[k - o0.len()] == w);
                    }
                }
                if o0.contains(w) {
                    let k = choose|k: int| 0 <= k < o0.len() && o0[k] == w;
                    assert(ns0[k] == w);
                }
                if i0.contains(w) {
                    let k = choose|k: int| 0 <= k < i0.len() && i0[k] == w;
                    assert(ns0[o0.len() + k] == w);
                }
            }
            assert(ns.contains(w) <==> o.contains(w) || ic.contains(w)) by {
                if ns.contains(w) {
                    let k = choose|k: int| 0 <= k < ns.len() && ns[k] == w;
                    if k < o.len() {
                        assert(o[k] == w);
                    } else {
                        assert(ic[k - o.len()] == w);
                    }
                }
                if o.contains(w) {
                    let k = choose|k: int| 0 <= k < o.len() && o[k] == w;
                    assert(ns[k] == w);
                }
                if ic.contains(w) {
                    let k = choose|k: int| 0 <= k < ic.len() && ic[k] == w;
                    assert(ns[o.len() + k] == w);
                }
            }
            assert(o.contains(w) <==> o0.contains(w) || (e.0 == v && e.1 == w)) by {
                if e.0 == v {
                    assert(o == seq![e.1] + o0);
                    if o.contains(w) {
                        let k = choose|k: int| 0 <= k < o.len() && o[k] == w;
                        if k > 0 {
                            assert(o0[k - 1] == w);
                        }
                    }
                    if o0.contains(w) {
                        let k = choose|k: int| 0 <= k < o0.len() && o0[k] == w;
                        assert(o[k + 1] == w);
                    }
                    assert(o[0] == e.1);
                }
            }
            assert(ic.contains(w) <==> i0.contains(w) || (e.1 == v && e.0 != v && e.0 == w)) by {
                if e.1 == v && e.0 != v {
                    assert(ic == seq![e.0] + i0);
                    if ic.contains(w) {
                        let k = choose|k: int| 0 <= k < ic.len() && ic[k] == w;
                        if k > 0 {
                            assert(i0[k - 1] == w);
                        }
                    }
                    if i0.contains(w) {
                        let k = choose|k: int| 0 <= k < i0.len() && i0[k] == w;
                        assert(ic[k + 1] == w);
                    }
                    assert(ic[0] == e.0);
                }
            }
            assert(connected(edges, v, w) <==> connected(rest, v, w) || e == (v, w) || e == (w, v));
        }
    }
}

/// An edge joins `a` and `b`, in either direction.
pub open spec fn connected(edges: Seq<(usize, usize)>, a: usize, b: usize) -> bool {
    edges.contains((a, b)) || edges.contains((b, a))
}

/// A walk through the graph: each step goes along an edge, in either
/// direction.
pub open spec fn is_walk(edges: Seq<(usize, usize)>, p: Seq<usize>) -> bool {
    &&& p.len() >= 1
    &&& forall|i: int| 0 <= i < p.len() - 1 ==> connected(edges, p[i], #[trigger] p[i + 1])
}

/// A walk leads from `a` to `b`.
pub open spec fn joined(edges: Seq<(usize, usize)>, a: usize, b: usize) -> bool {
    exists|p: Seq<usize>| #[trigger] is_walk(edges, p) && p[0] == a && p.last() == b
}

/// The graph on the nodes `0..n` is biconnected: a walk joins every two of
/// its nodes, and no node is an articulation point, for any two neighbors
/// of a node are joined by a walk that avoids it.
pub open spec fn is_biconnected(n: nat, edges: Seq<(usize, usize)>) -> bool {
    &&& forall|a: usize, b: usize| a < n && b < n ==> #[trigger] joined(edges, a, b)
    &&& forall|v: usize, a: usize, b: usize|
        #![trigger connected(edges, v, a), connected(edges, v, b)]
        v < n && a != v && b != v && connected(edges, v, a) && connected(edges, v, b) ==> exists|p: Seq<usize>|
            #[trigger] is_walk(edges, p) && p[0] == a && p.last() == b && !p.contains(v)
}

/// Both ends of an edge are nodes of the graph.
proof fn lemma_connected_nodes(edges: Seq<(usize, usize)>, n: nat, a: usize, b: usize)
    requires
        forall|i: int| 0 <= i < edges.len() ==> (#[trigger] edges[i]).0 < n && edges[i].1 < n,
        connected(edges, a, b),
    ensures
        a < n,
        b < n,
{
    if edges.contains((a, b)) {
        let i = choose|i: int| 0 <= i < edges.len() && edges[i] == (a, b);
        assert(edges[i].0 < n && edges[i].1 < n);
    } else {
        let i = choose|i: int| 0 <= i < edges.len() && edges[i] == (b, a);
        assert(edges[i].0 < n && edges[i].1 < n);
    }
}

/// A walk from a node of the graph follows the neighbor lists.
proof fn lemma_walk_is_path(graph: EdgeListGraph, adj: Seq<Vec<usize>>, p: Seq<usize>)
    requires
        graph.wf(),
        graph.is_adjacency(adj),
        is_walk(graph.edges@, p),
        p[0] < graph.node_count,
    ensures
        is_path(adj, p),
        forall|i: int| 0 <= i < p.len() ==> #[trigger] p[i] < graph.node_count,
{
    let n = graph.node_count as nat;
    let edges = graph.edges@;
    assert forall|i: int| 0 <= i < p.len() implies #[trigger] p[i] < graph.node_count by {
        if i > 0 {
            assert(connected(edges, p[i - 1], p[(i - 1) + 1]));
            lemma_connected_nodes(edges, n, p[i - 1], p[i]);
        }
    }
    assert forall|i: int| 0 <= i < p.len() - 1 implies adj[p[i] as int]@.contains(#[trigger] p[i + 1]) by {
        assert(p[i] < graph.node_count);
        lemma_neighbor_seq(edges, n, p[i]);
        assert(adj[p[i] as int]@ == neighbor_seq(edges, p[i]));
    }
}

/// The neighbor lists of a graph list each edge at both of its ends.
proof fn lemma_adjacency_symmetric(graph: EdgeListGraph, adj: Seq<Vec<usize>>)
    requires
        graph.wf(),
        graph.is_adjacency(adj),
    ensures
        symmetric(adj),
{
    let n = graph.node_count as nat;
    let edges = graph.edges@;
    assert forall|v: int, w: usize| 0 <= v < adj.len() && #[trigger] adj[v]@.contains(w) implies adj[w as int]@.contains(
        v as usize,
    ) by {
        lemma_neighbor_seq(edges, n, v as usize);
        assert(adj[v]@ == neighbor_seq(edges, v as usize));
        assert(connected(edges, v as usize, w));
        lemma_connected_nodes(edges, n, v as usize, w);
        lemma_neighbor_seq(edges, n, w);
        assert(adj[w as int]@ == neighbor_seq(edges, w));
        assert(connected(edges, w, v as usize));
    }
}

/// A walk along the neighbor lists from a node of the graph is a walk
/// along its edges.
proof fn lemma_path_is_walk(graph: EdgeListGraph, adj: Seq<Vec<usize>>, p: Seq<usize>)
    requires
        graph.wf(),
        graph.is_adjacency(adj),
        is_path(adj, p),
        p[0] < graph.node_count,
    ensures
        is_walk(graph.edges@, p),
    decreases p.len(),
{
    let n = graph.node_count as nat;
    let edges = graph.edges@;
    if p.len() > 1 {
        let q = p.drop_last();
        assert forall|i: int| 0 <= i < q.len() - 1 implies adj[q[i] as int]@.contains(#[trigger] q[i + 1]) by {
            assert(q[i] == p[i] && q[i + 1] == p[i + 1]);
        }
        lemma_path_is_walk(graph, adj, q);
        let k = p.len() - 2;
        let x = p[k];
        assert(x < graph.node_count) by {
            if k > 0 {
                assert(is_walk(edges, q));
                assert(connected(edges, q[k - 1], q[(k - 1) + 1]));
                lemma_connected_nodes(edges, n, q[k - 1], q[k]);
            }
        }
        assert(adj[p[k] as int]@.contains(p[k + 1]));
        lemma_neighbor_seq(edges, n, x);
        assert(adj[x as int]@ == neighbor_seq(edges, x));
        assert(connected(edges, x, p[k + 1]));
        assert forall|i: int| 0 <= i < p.len() - 1 implies connected(edges, p[i], #[trigger] p[i + 1]) by {
            if i < k {
                assert(q[i] == p[i] && q[i + 1] == p[i + 1]);
            }
        }
    }
}

/// A graph whose completed search over all its nodes finds no articulation
/// point and starts one tree at most is biconnected.
proof fn lemma_search_biconnected(
    graph: EdgeListGraph,
    adj: Seq<Vec<usize>>,
    ll: LowLink,
    nodes: Seq<usize>,
    upto: int,
)
    requires
        graph.wf(),
        graph.is_adjacency(adj),
        ll.complete(adj),
        ll.forest_shape(adj),
        ll.roots_order(nodes, upto),
        ll.spec_articulations().len() == 0,
        ll.spec_roots().len() <= 1,
        forall|v: usize| v < graph.node_count ==> ll.visited().contains(v),
    ensures
        is_biconnected(graph.node_count as nat, graph.edges@),
{
    let n = graph.node_count as nat;
    let edges = graph.edges@;
    lemma_adjacency_symmetric(graph, adj);
    assert forall|a: usize, b: usize| a < n && b < n implies #[trigger] joined(edges, a, b) by {
        let p = lemma_one_tree_joins(ll, adj, nodes, upto, a, b);
        lemma_path_is_walk(graph, adj, p);
    }
    assert forall|v: usize, a: usize, b: usize|
        v < n && a != v && b != v && #[trigger] connected(edges, v, a) && #[trigger] connected(edges, v, b) implies exists|p: Seq<usize>|
        #[trigger] is_walk(edges, p) && p[0] == a && p.last() == b && !p.contains(v) by {
        if !exists|p: Seq<usize>| #[trigger] is_walk(edges, p) && p[0] == a && p.last() == b && !p.contains(v) {
            lemma_neighbor_seq(edges, n, v);
            assert(adj[v as int]@ == neighbor_seq(edges, v));
            lemma_connected_nodes(edges, n, v, a);
            assert forall|p: Seq<usize>| #[trigger] is_path(adj, p) && p[0] == a && p.last() == b implies p.contains(v) by {
                lemma_path_is_walk(graph, adj, p);
            }
            lemma_separator_is_listed(ll, adj, v, a, b);
            assert(ll.spec_articulations().contains(v));
        }
    }
}

/// On a biconnected graph a completed search finds no articulation point
/// and starts one tree at most.
proof fn lemma_biconnected_search(
    graph: EdgeListGraph,
    adj: Seq<Vec<usize>>,
    ll: LowLink,
    nodes: Seq<usize>,
    upto: int,
)
    requires
        graph.wf(),
        graph.is_adjacency(adj),
        ll.complete(adj),
        ll.forest_shape(adj),
        ll.roots_order(nodes, upto),
        is_biconnected(graph.node_count as nat, graph.edges@),
    ensures
        ll.spec_articulations().len() == 0,
        ll.spec_roots().len() <= 1,
{
    let n = graph.node_count as nat;
    let edges = graph.edges@;
    lemma_adjacency_symmetric(graph, adj);
    if ll.spec_articulations().len() > 0 {
        let v = ll.spec_articulations()[0];
        assert(ll.spec_articulations().contains(v));
        assert(ll.visited().contains(v));
        assert(v < n);
        lemma_articulation_separates(ll, adj, v);
        let (a, b) = choose|a: usize, b: usize|
            a != v && b != v && adj[v as int]@.contains(a) && adj[v as int]@.contains(b) && forall|p: Seq<usize>|
                #[trigger] is_path(adj, p) && p[0] == a && p.last() == b ==> p.contains(v);
        lemma_neighbor_seq(edges, n, v);
        assert(adj[v as int]@ == neighbor_seq(edges, v));
        assert(connected(edges, v, a) && connected(edges, v, b));
        lemma_connected_nodes(edges, n, v, a);
        let p = choose|p: Seq<usize>| #[trigger] is_walk(edges, p) && p[0] == a && p.last() == b && !p.contains(v);
        lemma_walk_is_path(graph, adj, p);
        assert(p.contains(v));
    }
    if ll.spec_roots().len() >= 2 {
        reveal(LowLink::roots_order);
        let r0 = ll.spec_roots()[0];
        let r1 = ll.spec_roots()[1];
        assert(ll.visited().contains(r0) && ll.visited().contains(r1));
        assert(r0 < n && r1 < n);
        assert(joined(edges, r0, r1));
        let p = choose|p: Seq<usize>| #[trigger] is_walk(edges, p) && p[0] == r0 && p.last() == r1;
        lemma_walk_is_path(graph, adj, p);
        lemma_roots_apart(ll, adj, nodes, upto, p);
    }
}

/// The pair `(a, b)` may be joined: distinct nodes, not adjacent, neither an
/// articulation point, and not tried before.
pub open spec fn eligible(
    n: nat,
    edges: Seq<(usize, usize)>,
    articulations: Seq<usize>,
    tried: Seq<(usize, usize)>,
    a: usize,
    b: usize,
) -> bool {
    &&& a < n
    &&& b < n
    &&& a != b
    &&& !connected(edges, a, b)
    &&& !articulations.contains(a)
    &&& !articulations.contains(b)
    &&& !tried.contains((a, b))
}

/// The nodes `0..n` in index order: where a search over the whole graph
/// starts its trees.
pub open spec fn node_order(n: nat) -> Seq<usize> {
    Seq::new(n, |i: int| i as usize)
}

/// `(a, b)` comes before `(c, d)` when the pairs are listed row by row.
pub open spec fn pair_before(a: usize, b: usize, c: usize, d: usize) -> bool {
    a < c || (a == c && b < d)
}

impl EdgeListGraph {
    /// Every edge joins nodes of the graph, and the graph fits petgraph's
    /// 32-bit indices.
    pub open spec fn wf(self) -> bool {
        &&& self.node_count <= u32::MAX
        &&& self.edges@.len() <= u32::MAX
        &&& forall|i: int|
            0 <= i < self.edges@.len() ==> (#[trigger] self.edges@[i]).0 < self.node_count
                && self.edges@[i].1 < self.node_count
    }

    /// `adj` holds the neighbor lists of the graph as petgraph reports them.
    pub open spec fn is_adjacency(self, adj: Seq<Vec<usize>>) -> bool {
        &&& adj.len() == self.node_count
        &&& forall|v: int| 0 <= v < self.node_count ==> (#[trigger] adj[v])@ == neighbor_seq(self.edges@, v as usize)
    }

    /// The neighbor lists of the graph, as petgraph reports them.
    pub fn neighbors(&self) -> (r: Vec<Vec<usize>>)
        requires
            self.wf(),
        ensures
            self.is_adjacency(r@),
            r@.len() == self.node_count,
            forall|v: int| 0 <= v < self.node_count ==> (#[trigger] r@[v])@ == neighbor_seq(self.edges@, v as usize),
            graph_wf(r@, self.node_count as nat),
            forall|v: int, w: usize| 0 <= v < self.node_count ==> (#[trigger] r@[v]@.contains(w) <==> connected(self.edges@, v as usize, w)),
    {
        let r = neighbor_lists(self.node_count, &self.edges);
        proof {
            assert forall|v: int, i: int| 0 <= v < self.node_count && 0 <= i < r@[v]@.len() implies #[trigger] r@[v]@[i]
                < self.node_count by {
                lemma_neighbor_seq(self.edges@, self.node_count as nat, v as usize);
                assert(r@[v]@ == neighbor_seq(self.edges@, v as usize));
            }
            assert forall|v: int, w: usize| 0 <= v < self.node_count implies (#[trigger] r@[v]@.contains(w)
                <==> connected(self.edges@, v as usize, w)) by {
                lemma_neighbor_seq(self.edges@, self.node_count as nat, v as usize);
                assert(r@[v]@ == neighbor_seq(self.edges@, v as usize));
            }
        }
        r
    }

    /// Whether an edge joins `a` and `b` (in either direction).
    pub fn contains_edge(&self, a: usize, b: usize) -> (r: bool)
        ensures
            r == connected(self.edges@, a, b),
    {
        let mut i: usize = 0;
        while i < self.edges.len()
            invariant
                i <= self.edges@.len(),
                forall|j: int| 0 <= j < i ==> self.edges@[j] != (a, b) && self.edges@[j] != (b, a),
            decreases self.edges@.len() - i,
        {
            let (x, y) = self.edges[i];
            if (x == a && y == b) || (x == b && y == a) {
                assert(self.edges@[i as int] == (a, b) || self.edges@[i as int] == (b, a));
                return true;
            }
            i += 1;
        }
        false
    }
}

fn vec_contains(v: &Vec<usize>, x: usize) -> (r: bool)
    ensures
        r == v@.contains(x),
{
    let mut i: usize = 0;
    while i < v.len()
        invariant
            i <= v@.len(),
            forall|j: int| 0 <= j < i ==> v@[j] != x,
        decreases v@.len() - i,
    {
        if v[i] == x {
            return true;
        }
        i += 1;
    }
    false
}

fn pairs_contain(v: &Vec<(usize, usize)>, a: usize, b: usize) -> (r: bool)
    ensures
        r == v@.contains((a, b)),
{
    let mut i: usize = 0;
    while i < v.len()
        invariant
            i <= v@.len(),
            forall|j: int| 0 <= j < i ==> v@[j] != (a, b),
        decreases v@.len() - i,
    {
        let (x, y) = v[i];
        if x == a && y == b {
            return true;
        }
        i += 1;
    }
    false
}

/// The first pair, row by row, that may be joined, if any.
pub fn pick_pair(
    graph: &EdgeListGraph,
    articulations: &Vec<usize>,
    tried: &Vec<(usize, usize)>,
) -> (r: Option<(usize, usize)>)
    ensures
        r is Some ==> eligible(
            graph.node_count as nat,
            graph.edges@,
            articulations@,
            tried@,
            r.unwrap().0,
            r.unwrap().1,
        ),
        r is Some ==> forall|c: usize, d: usize|
            pair_before(c, d, r.unwrap().0, r.unwrap().1) ==> !eligible(
                graph.node_count as nat,
                graph.edges@,
                articulations@,
                tried@,
                c,
                d,
            ),
        r is None ==> forall|c: usize, d: usize|
            !eligible(graph.node_count as nat, graph.edges@, articulations@, tried@, c, d),
{
    let n = graph.node_count;
    let mut a: usize = 0;
    while a < n
        invariant
            a <= n,
            n == graph.node_count,
            forall|c: usize, d: usize|
                c < a ==> !eligible(n as nat, graph.edges@, articulations@, tried@, c, d),
        decreases n - a,
    {
        let mut b: usize = 0;
        while b < n
            invariant
                a < n,
                b <= n,
                n == graph.node_count,
                forall|c: usize, d: usize|
                    c < a ==> !eligible(n as nat, graph.edges@, articulations@, tried@, c, d),
                forall|d: usize|
                    d < b ==> !eligible(n as nat, graph.edges@, articulations@, tried@, a, d),
            decreases n - b,
        {
            if a != b && !graph.contains_edge(a, b) && !vec_contains(articulations, a)
                && !vec_contains(articulations, b) && !pairs_contain(tried, a, b) {
                return Some((a, b));
            }
            b += 1;
        }
        a += 1;
    }
    None
}


/// The pairs of nodes below `n`.
pub open spec fn pair_set(n: nat) -> Set<(usize, usize)> {
    Set::new(|p: (usize, usize)| p.0 < n && p.1 < n)
}

/// There are at most `n * n` pairs of nodes below `n`.
proof fn lemma_pair_set(n: nat)
    requires
        n <= usize::MAX,
    ensures
        pair_set(n).finite(),
        pair_set(n).len() <= n * n,
    decreases n,
{
    if n == 0 {
        assert(pair_set(0) =~= Set::<(usize, usize)>::empty());
    } else {
        let m = (n - 1) as nat;
        lemma_pair_set(m);
        let mu = m as usize;
        let below_n = Set::new(|b: usize| b < n);
        let below_m = Set::new(|a: usize| a < m);
        lemma_visited_bound(below_n, n);
        lemma_visited_bound(below_m, m);
        let row = below_n.map(|b: usize| (mu, b));
        let col = below_m.map(|a: usize| (a, mu));
        vstd::set_lib::lemma_map_size_bound(below_n, row, |b: usize| (mu, b));
        vstd::set_lib::lemma_map_size_bound(below_m, col, |a: usize| (a, mu));
        assert forall|p: (usize, usize)| #[trigger] pair_set(n).contains(p) implies pair_set(m).union(row).union(col).contains(p) by {
            if p.0 == mu {
                assert(below_n.contains(p.1));
                assert(row.contains(p));
            } else if p.1 == mu {
                assert(below_m.contains(p.0));
                assert(col.contains(p));
            }
        }
        assert(pair_set(n) =~= pair_set(m).union(row).union(col));
        vstd::set_lib::lemma_len_union(pair_set(m), row);
        vstd::set_lib::lemma_len_union(pair_set(m).union(row), col);
        assert(m * m + n + m <= n * n) by (nonlinear_arith)
            requires
                n == m + 1,
        ;
    }
}

/// The pairs of nodes below `n` with the smaller one first.
pub open spec fn upper_pairs(n: nat) -> Set<(usize, usize)> {
    Set::new(|p: (usize, usize)| p.0 < p.1 < n)
}

/// There are `n * (n - 1) / 2` pairs of distinct nodes below `n`.
#[verifier::spinoff_prover]
proof fn lemma_upper_pairs(n: nat)
    requires
        n <= usize::MAX,
    ensures
        upper_pairs(n).finite(),
        upper_pairs(n).len() == n * (n - 1) / 2,
    decreases n,
{
    if n == 0 {
        assert(upper_pairs(0) =~= Set::<(usize, usize)>::empty());
    } else {
        let m = (n - 1) as nat;
        lemma_upper_pairs(m);
        let mu = m as usize;
        let below_m = Set::new(|a: usize| a < m);
        <usize as vstd::set_lib::FiniteRange>::range_properties(0, mu);
        assert(<usize as vstd::set_lib::FiniteRange>::range_set(0, mu) =~= below_m);
        let f = |a: usize| (a, mu);
        let col = below_m.map(f);
        assert(vstd::relations::injective_on(f, below_m));
        vstd::set_lib::lemma_map_size(below_m, col, f);
        assert(upper_pairs(n) =~= upper_pairs(m).union(col)) by {
            assert forall|p: (usize, usize)| #[trigger] upper_pairs(n).contains(p) implies upper_pairs(m).union(col).contains(p) by {
                if p.1 == mu {
                    assert(below_m.contains(p.0));
                    assert(col.contains((p.0, mu)));
                }
            }
        }
        assert(upper_pairs(m).disjoint(col));
        vstd::set_lib::lemma_set_disjoint_lens(upper_pairs(m), col);
        assert(upper_pairs(m).union(col).len() == upper_pairs(m).len() + col.len());
        assert(col.len() == m);
        assert(m * (m - 1) / 2 + m == n * (n - 1) / 2) by (nonlinear_arith)
            requires
                n == m + 1,
        ;
        assert(upper_pairs(n).len() == m * (m - 1) / 2 + m);
    }
}

/// Edges added one after another, each joining two distinct nodes below `n`
/// that no earlier edge joins, number at most `n * (n - 1) / 2`.
proof fn lemma_added_edges_bound(edges: Seq<(usize, usize)>, n0: int, n: nat)
    requires
        0 <= n0 <= edges.len(),
        n <= usize::MAX,
        forall|i: int|
            n0 <= i < edges.len() ==> {
                let e = #[trigger] edges[i];
                &&& e.0 != e.1
                &&& e.0 < n
                &&& e.1 < n
                &&& !connected(edges.subrange(0, i), e.0, e.1)
            },
    ensures
        edges.len() - n0 <= n * (n - 1) / 2,
{
    let len = (edges.len() - n0) as nat;
    let s = Seq::new(len, |k: int| ordered_pair(edges[n0 + k].0, edges[n0 + k].1));
    assert(s.no_duplicates()) by {
        assert forall|k1: int, k2: int| 0 <= k1 < len && 0 <= k2 < len && k1 != k2 implies s[k1] != s[k2] by {
            let (lo, hi) = if k1 < k2 { (k1, k2) } else { (k2, k1) };
            let a = edges[n0 + lo];
            let b = edges[n0 + hi];
            if s[lo] == s[hi] {
                let pre = edges.subrange(0, n0 + hi);
                assert(pre[n0 + lo] == a);
                assert(a == (b.0, b.1) || a == (b.1, b.0));
                assert(pre.contains(a));
                assert(connected(pre, b.0, b.1));
            }
        }
    }
    lemma_upper_pairs(n);
    s.unique_seq_to_set();
    assert(s.to_set().subset_of(upper_pairs(n))) by {
        assert forall|p: (usize, usize)| #[trigger] s.to_set().contains(p) implies upper_pairs(n).contains(p) by {
            let k = choose|k: int| 0 <= k < s.len() && s[k] == p;
            let e = edges[n0 + k];
        }
    }
    vstd::set_lib::lemma_len_subset(s.to_set(), upper_pairs(n));
}

/// A graph in which every two nodes are adjacent is connected and has no
/// articulation point: the search makes one tree, each child of a node is
/// adjacent to that node's parent, and a root's second child would be
/// adjacent to its first.
proof fn lemma_full_graph_done(ll: LowLink, adj: Seq<Vec<usize>>, n: nat)
    requires
        ll.complete(adj),
        ll.forest_shape(adj),
        ll.roots_order(node_order(n), n as int),
        ll.node_bound() == n,
        forall|v: usize| v < n ==> ll.visited().contains(v),
        forall|a: usize, b: usize| a < n && b < n && a != b ==> #[trigger] adj[a as int]@.contains(b),
    ensures
        ll.spec_articulations().len() == 0,
        ll.spec_roots().len() <= 1,
{
    reveal(LowLink::forest_shape);
    reveal(LowLink::roots_order);
    let rs = ll.spec_roots();
    if rs.len() >= 2 {
        let r0 = rs[0];
        let r1 = rs[1];
        assert(ll.visited().contains(r0) && ll.visited().contains(r1));
        assert(ll.ord_of(r0) == ll.root_start(0));
        assert(ll.ord_of(r1) == ll.root_start(1));
        assert(ll.done().contains(r0));
        assert(ll.ord_of(r0) < ll.end_of(r0));
        assert(r0 != r1);
        assert(r0 < n && r1 < n);
        assert(adj[r0 as int]@.contains(r1));
        let k = choose|k: int| 0 <= k < adj[r0 as int]@.len() && adj[r0 as int]@[k] == r1;
        assert(ll.ord_of(adj[r0 as int]@[k]) < ll.end_of(r0));
    }
    let arts = ll.spec_articulations();
    if arts.len() > 0 {
        let a = arts[0];
        assert(arts.contains(a));
        assert(ll.visited().contains(a) && ll.articulation_condition(a));
        let ks = ll.kids_of(a);
        if ll.parent_of(a) is Some {
            let p = ll.parent_of(a).unwrap();
            let i = choose|i: int| 0 <= i < ks.len() && ll.ord_of(a) <= ll.low_of(#[trigger] ks[i]);
            let c = ks[i];
            assert(ll.visited().contains(c) && ll.parent_of(c) == Some(a));
            assert(ll.visited().contains(p) && ll.ord_of(p) < ll.ord_of(a));
            assert(ll.ord_of(a) < ll.ord_of(c));
            assert(c < n && p < n && c != p);
            assert(adj[c as int]@.contains(p));
            let k = choose|k: int| 0 <= k < adj[c as int]@.len() && adj[c as int]@[k] == p;
            assert(ll.low_equation(adj, c));
            assert(Some(adj[c as int]@[k]) != ll.parent_of(c));
            assert(ll.low_of(c) <= ll.ord_of(p));
        } else {
            let c1 = ks[0];
            let c2 = ks[1];
            assert(ll.done().contains(a));
            assert(ll.kids_chain(a));
            assert(ll.visited().contains(c1) && ll.visited().contains(c2));
            assert(ll.parent_of(c1) == Some(a) && ll.parent_of(c2) == Some(a));
            assert(ll.ord_of(c2) == ll.end_of(c1));
            assert(ll.done().contains(c1));
            assert(ll.ord_of(c1) < ll.end_of(c1));
            assert(c1 != c2);
            assert(c1 < n && c2 < n);
            assert(adj[c1 as int]@.contains(c2));
            let k = choose|k: int| 0 <= k < adj[c1 as int]@.len() && adj[c1 as int]@[k] == c2;
            assert(ll.ord_of(adj[c1 as int]@[k]) < ll.end_of(c1));
        }
    }
}

/// Convert a graph to a biconnected graph by adding edges between vertices:
/// afterwards the graph is connected and has no articulation point.
///
/// Each round runs a low-link search over the whole graph and counts what is
/// still missing: the articulation points, and the DFS trees (more than one
/// means the graph is not connected). When there is no articulation point
/// and at most one tree, the graph is done. Otherwise, when the previous
/// round's edge changed neither number, the edge is taken out again; then
/// the first pair of distinct, non-adjacent nodes, neither an articulation
/// point and not tried before, is joined. When no such pair is left, the
/// first pair of distinct, non-adjacent nodes is joined for good; a graph in
/// which every two nodes are adjacent is done.
pub fn make_biconnected(graph: &mut EdgeListGraph)
    requires
        old(graph).wf(),
        old(graph).edges@.len() + old(graph).node_count * (old(graph).node_count - 1) / 2 <= u32::MAX,
    ensures
        final(graph).wf(),
        final(graph).node_count == old(graph).node_count,
        final(graph).edges@.len() >= old(graph).edges@.len(),
        final(graph).edges@.subrange(0, old(graph).edges@.len() as int) == old(graph).edges@,
        forall|i: int|
            old(graph).edges@.len() <= i < final(graph).edges@.len() ==> {
                let e = #[trigger] final(graph).edges@[i];
                &&& e.0 != e.1
                &&& !connected(final(graph).edges@.subrange(0, i), e.0, e.1)
            },
        is_biconnected(final(graph).node_count as nat, final(graph).edges@),
        is_biconnected(old(graph).node_count as nat, old(graph).edges@) ==> final(graph).edges@ == old(graph).edges@,
        forall|i: int|
            old(graph).edges@.len() <= i < final(graph).edges@.len() ==> !is_biconnected(
                old(graph).node_count as nat,
                #[trigger] final(graph).edges@.take(i),
            ),
        exists|adj: Seq<Vec<usize>>, ll: LowLink|
            final(graph).is_adjacency(adj) && #[trigger] ll.complete(adj) && ll.forest_shape(adj)
                && ll.roots_order(node_order(final(graph).node_count as nat), final(graph).node_count as int)
                && ll.finish_order() && ll.node_bound() == final(graph).node_count && (forall|v: usize|
                v < final(graph).node_count ==> ll.visited().contains(v)) && ll.spec_articulations().len() == 0
                && ll.spec_roots().len() <= 1,
{
    let n = graph.node_count;
    let ghost n0 = graph.edges@.len();
    let ghost start = graph.edges@;
    let ghost pmax = n * (n - 1) / 2;
    let mut nodes: Vec<usize> = Vec::new();
    let mut v: usize = 0;
    while v < n
        invariant
            v <= n,
            nodes@.len() == v,
            forall|i: int| 0 <= i < v ==> nodes@[i] == i,
        decreases n - v,
    {
        nodes.push(v);
        v += 1;
    }
    let mut last_added = false;
    let mut prev_count: usize = 0;
    let mut prev_trees: usize = 0;
    let mut tried: Vec<(usize, usize)> = Vec::new();
    proof {
        lemma_pair_set(n as nat);
        assert(graph.edges@.subrange(0, n0 as int) =~= start);
        assert(n * (n - 1) / 2 >= 0) by (nonlinear_arith)
            requires
                n >= 0,
        ;
    }
    loop
        invariant
            graph.wf(),
            graph.node_count == n,
            n == old(graph).node_count,
            n <= u32::MAX,
            nodes@.len() == n,
            forall|i: int| 0 <= i < n ==> nodes@[i] == i,
            start == old(graph).edges@,
            n0 == start.len(),
            pmax == n * (n - 1) / 2,
            n0 + pmax <= u32::MAX,
            pair_set(n as nat).finite(),
            pair_set(n as nat).len() <= n * n,
            graph.edges@.len() >= n0,
            graph.edges@.len() - n0 <= pmax,
            graph.edges@.subrange(0, n0 as int) == start,
            last_added ==> graph.edges@.len() > n0,
            is_biconnected(n as nat, start) ==> graph.edges@ == start,
            forall|i: int| n0 <= i < graph.edges@.len() ==> !is_biconnected(n as nat, #[trigger] graph.edges@.take(i)),
            tried@.no_duplicates(),
            tried@.to_set().subset_of(pair_set(n as nat)),
            forall|i: int|
                n0 <= i < graph.edges@.len() ==> {
                    let e = #[trigger] graph.edges@[i];
                    &&& e.0 != e.1
                    &&& !connected(graph.edges@.subrange(0, i), e.0, e.1)
                },
        decreases
            pmax - (graph.edges@.len() - n0 - if last_added { 1int } else { 0int }),
            n * n - tried@.len(),
            if last_added { 1int } else { 0int },
    {
        proof {
            tried@.unique_seq_to_set();
            vstd::set_lib::lemma_len_subset(tried@.to_set(), pair_set(n as nat));
        }
        let adj = graph.neighbors();
        let mut ll = LowLink::new(n);
        ll.traverse(&adj, &nodes);
        proof {
            assert(nodes@ =~= node_order(n as nat));
            assert forall|v: usize| v < n implies ll.visited().contains(v) by {
                assert(nodes@[v as int] == v);
            }
        }
        let count = ll.articulation_points().len();
        let trees = ll.tree_count();
        proof {
            if is_biconnected(n as nat, graph.edges@) {
                lemma_biconnected_search(*graph, adj@, ll, nodes@, nodes@.len() as int);
            }
        }
        if count == 0 && trees <= 1 {
            assert(graph.is_adjacency(adj@) && ll.complete(adj@));
            proof {
                lemma_search_biconnected(*graph, adj@, ll, nodes@, nodes@.len() as int);
            }
            return;
        }
        let ghost full_before = graph.edges@;
        if last_added && count == prev_count && trees == prev_trees {
            let ghost before = graph.edges@;
            graph.edges.pop();
            proof {
                assert forall|i: int| n0 <= i < graph.edges@.len() implies {
                    let e = #[trigger] graph.edges@[i];
                    &&& e.0 != e.1
                    &&& !connected(graph.edges@.subrange(0, i), e.0, e.1)
                } by {
                    assert(graph.edges@.subrange(0, i) =~= before.subrange(0, i));
                    assert(graph.edges@[i] == before[i]);
                }
                assert(graph.edges@.subrange(0, n0 as int) =~= before.subrange(0, n0 as int));
                assert forall|i: int| n0 <= i < graph.edges@.len() implies !is_biconnected(
                    n as nat,
                    #[trigger] graph.edges@.take(i),
                ) by {
                    assert(graph.edges@.take(i) =~= before.take(i));
                }
                assert(graph.edges@ =~= before.take(before.len() - 1));
            }
            last_added = false;
        }
        proof {
            assert(!is_biconnected(n as nat, graph.edges@));
        }
        prev_count = count;
        prev_trees = trees;
        match pick_pair(graph, ll.articulation_points(), &tried) {
            Some((a, b)) => {
                let ghost before = graph.edges@;
                proof {
                    assert(!tried@.contains((a, b)));
                    assert(pair_set(n as nat).contains((a, b)));
                    assert(!tried@.to_set().contains((a, b)));
                    vstd::set_lib::lemma_len_subset(tried@.to_set().insert((a, b)), pair_set(n as nat));
                }
                tried.push((a, b));
                graph.edges.push((a, b));
                proof {
                    assert forall|p: (usize, usize)| #[trigger] tried@.to_set().contains(p) implies pair_set(n as nat).contains(p) by {
                        if p != (a, b) {
                            let i = choose|i: int| 0 <= i < tried@.len() && tried@[i] == p;
                            assert(tried@.drop_last()[i] == p);
                            assert(tried@.drop_last().to_set().contains(p));
                        }
                    }
                    lemma_push_new_edge(before, graph.edges@, n0 as int, n as nat, a, b);
                    lemma_push_after_unfinished(before, graph.edges@, n0 as int, n as nat, (a, b));
                }
                last_added = true;
            },
            None => {
                let no_points: Vec<usize> = Vec::new();
                let none_tried: Vec<(usize, usize)> = Vec::new();
                match pick_pair(graph, &no_points, &none_tried) {
                    Some((a, b)) => {
                        let ghost before = graph.edges@;
                        graph.edges.push((a, b));
                        proof {
                            lemma_push_new_edge(before, graph.edges@, n0 as int, n as nat, a, b);
                            lemma_push_after_unfinished(before, graph.edges@, n0 as int, n as nat, (a, b));
                        }
                        last_added = false;
                    },
                    None => {
                        proof {
                            assert forall|a: usize, b: usize| a < n && b < n && a != b implies #[trigger] adj@[a as int]@.contains(b) by {
                                assert(!eligible(graph.node_count as nat, graph.edges@, no_points@, none_tried@, a, b));
                                assert(connected(graph.edges@, a, b));
                                if graph.edges@ != full_before {
                                    assert(graph.edges@ =~= full_before.drop_last());
                                    if graph.edges@.contains((a, b)) {
                                        let i = choose|i: int| 0 <= i < graph.edges@.len() && graph.edges@[i] == (a, b);
                                        assert(full_before[i] == (a, b));
                                    }
                                    if graph.edges@.contains((b, a)) {
                                        let i = choose|i: int| 0 <= i < graph.edges@.len() && graph.edges@[i] == (b, a);
                                        assert(full_before[i] == (b, a));
                                    }
                                }
                                assert(connected(full_before, a, b));
                            }
                            lemma_full_graph_done(ll, adj@, n as nat);
                            assert(false);
                        }
                        return;
                    },
                }
            },
        }
    }
}

/// An edge added to a graph that is not biconnected keeps every added edge
/// one that went into a graph that was not biconnected yet.
proof fn lemma_push_after_unfinished(
    before: Seq<(usize, usize)>,
    after: Seq<(usize, usize)>,
    n0: int,
    n: nat,
    e: (usize, usize),
)
    requires
        0 <= n0 <= before.len(),
        after == before.push(e),
        !is_biconnected(n, before),
        forall|i: int| n0 <= i < before.len() ==> !is_biconnected(n, #[trigger] before.take(i)),
    ensures
        forall|i: int| n0 <= i < after.len() ==> !is_biconnected(n, #[trigger] after.take(i)),
{
    assert forall|i: int| n0 <= i < after.len() implies !is_biconnected(n, #[trigger] after.take(i)) by {
        if i < before.len() {
            assert(after.take(i) =~= before.take(i));
        } else {
            assert(after.take(i) =~= before);
        }
    }
}

/// Adding an edge that joins two distinct, non-adjacent nodes keeps the
/// added edges new and within the bound on their number.
proof fn lemma_push_new_edge(before: Seq<(usize, usize)>, after: Seq<(usize, usize)>, n0: int, n: nat, a: usize, b: usize)
    requires
        0 <= n0 <= before.len(),
        n <= usize::MAX,
        after == before.push((a, b)),
        a != b,
        a < n,
        b < n,
        !connected(before, a, b),
        forall|i: int| 0 <= i < before.len() ==> (#[trigger] before[i]).0 < n && before[i].1 < n,
        forall|i: int|
            n0 <= i < before.len() ==> {
                let e = #[trigger] before[i];
                &&& e.0 != e.1
                &&& !connected(before.subrange(0, i), e.0, e.1)
            },
    ensures
        forall|i: int|
            n0 <= i < after.len() ==> {
                let e = #[trigger] after[i];
                &&& e.0 != e.1
                &&& !connected(after.subrange(0, i), e.0, e.1)
            },
        after.subrange(0, n0) == before.subrange(0, n0),
        after.len() - n0 <= n * (n - 1) / 2,
        forall|i: int| 0 <= i < after.len() ==> (#[trigger] after[i]).0 < n && after[i].1 < n,
{
    assert forall|i: int| n0 <= i < after.len() implies {
        let e = #[trigger] after[i];
        &&& e.0 != e.1
        &&& !connected(after.subrange(0, i), e.0, e.1)
    } by {
        if i < before.len() {
            assert(after.subrange(0, i) =~= before.subrange(0, i));
            assert(after[i] == before[i]);
        } else {
            assert(after.subrange(0, i) =~= before);
        }
    }
    assert(after.subrange(0, n0) =~= before.subrange(0, n0));
    assert forall|i: int| 0 <= i < after.len() implies (#[trigger] after[i]).0 < n && after[i].1 < n by {
        if i < before.len() {
            assert(after[i] == before[i]);
        }
    }
    assert forall|i: int| n0 <= i < after.len() implies {
        let e = #[trigger] after[i];
        &&& e.0 != e.1
        &&& e.0 < n
        &&& e.1 < n
        &&& !connected(after.subrange(0, i), e.0, e.1)
    } by {
        assert(after[i].0 < n && after[i].1 < n);
    }
    lemma_added_edges_bound(after, n0, n);
}

} // verus!
