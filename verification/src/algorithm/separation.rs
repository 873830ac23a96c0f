//! What the articulation points and bridges that a completed search reports
//! mean for the graph: on an undirected graph, the articulation points are
//! exactly the visited nodes that separate two of their neighbors, and the
//! bridges exactly the edges that separate their ends. The search's
//! depth-first forest numbers each subtree as one run of numbers, so a walk
//! that leaves a subtree must use an edge to a node numbered before it;
//! `low` says how far back those edges reach.
use vstd::prelude::*;
use crate::algorithm::low_link::{graph_wf, ordered_pair, LowLink};

verus! {

/// Each edge is listed at both of its ends.
pub open spec fn symmetric(adj: Seq<Vec<usize>>) -> bool {
    forall|v: int, w: usize| 0 <= v < adj.len() && #[trigger] adj[v]@.contains(w) ==> adj[w as int]@.contains(v as usize)
}

/// A walk along the adjacency lists: each node lists the next.
pub open spec fn is_path(adj: Seq<Vec<usize>>, p: Seq<usize>) -> bool {
    &&& p.len() >= 1
    &&& forall|i: int| 0 <= i < p.len() - 1 ==> adj[p[i] as int]@.contains(#[trigger] p[i + 1])
}

/// The facts of a completed search that the laws below use.
#[verifier::opaque]
spec fn tree_facts(ll: LowLink, adj: Seq<Vec<usize>>) -> bool {
    let vis = ll.visited();
    &&& ll.done() == vis
    &&& graph_wf(adj, ll.node_bound())
    &&& forall|x: usize| #[trigger] vis.contains(x) ==> x < ll.node_bound()
    &&& forall|x: usize, i: int|
        vis.contains(x) && 0 <= i < adj[x as int]@.len() ==> vis.contains(#[trigger] adj[x as int]@[i])
    &&& forall|x: usize, i: int|
        vis.contains(x) && 0 <= i < ll.kids_of(x).len() ==> {
            let c = #[trigger] ll.kids_of(x)[i];
            &&& vis.contains(c)
            &&& ll.parent_of(c) == Some(x)
        }
    &&& forall|x: usize| #[trigger] vis.contains(x) ==> ll.low_equation(adj, x)
    &&& forall|x: usize|
        #[trigger] vis.contains(x) && ll.parent_of(x) is Some ==> vis.contains(ll.parent_of(x).unwrap())
}

/// Each tree edge of a completed search is an edge of the graph, from a node
/// numbered before its child.
#[verifier::opaque]
spec fn parent_facts(ll: LowLink, adj: Seq<Vec<usize>>) -> bool {
    forall|x: usize|
        #[trigger] ll.visited().contains(x) && ll.parent_of(x) is Some ==> ll.ord_of(ll.parent_of(x).unwrap())
            < ll.ord_of(x) && adj[ll.parent_of(x).unwrap() as int]@.contains(x)
}

/// A completed search has its tree edges in the graph.
proof fn lemma_parent_facts(ll: LowLink, adj: Seq<Vec<usize>>)
    requires
        ll.complete(adj),
    ensures
        parent_facts(ll, adj),
{
    reveal(parent_facts);
}

/// A completed search has the facts the laws use.
proof fn lemma_tree_facts(ll: LowLink, adj: Seq<Vec<usize>>)
    requires
        ll.complete(adj),
    ensures
        tree_facts(ll, adj),
{
    reveal(tree_facts);
}

/// `x` lies in the subtree of `c`: it was numbered while `c` was searched.
pub open spec fn in_subtree(ll: LowLink, x: usize, c: usize) -> bool {
    &&& ll.visited().contains(x)
    &&& ll.ord_of(c) <= ll.ord_of(x) < ll.end_of(c)
}

/// In a completed search, the child subtrees of `c` follow one another:
/// every node numbered after `c` in `c`'s subtree lies in the subtree of one
/// of its children.
#[verifier::spinoff_prover]
#[verifier::rlimit(40)]
proof fn lemma_find_kid(ll: LowLink, adj: Seq<Vec<usize>>, c: usize, x: usize, i: int)
    requires
        tree_facts(ll, adj),
        ll.forest_shape(adj),
        ll.visited().contains(c),
        ll.visited().contains(x),
        ll.ord_of(c) < ll.ord_of(x) < ll.end_of(c),
        0 <= i < ll.kids_of(c).len(),
        ll.ord_of(ll.kids_of(c)[i]) <= ll.ord_of(x),
    ensures
        exists|j: int|
            0 <= j < ll.kids_of(c).len() && #[trigger] in_subtree(ll, x, ll.kids_of(c)[j])
                && ll.end_of(ll.kids_of(c)[j]) <= ll.end_of(c),
    decreases ll.kids_of(c).len() - i,
{
    reveal(LowLink::forest_shape);
    reveal(tree_facts);
    let ks = ll.kids_of(c);
    assert(ll.done().contains(c));
    assert(ll.kids_chain(c));
    assert(ll.visited().contains(ks[i]));
    assert(ll.done().contains(ks[i]));
    lemma_kid_end(ll, adj, c, i);
    if i + 1 < ks.len() && ll.ord_of(ks[i + 1]) <= ll.ord_of(x) {
        lemma_find_kid(ll, adj, c, x, i + 1);
    } else {
        if i + 1 < ks.len() {
            assert(ll.ord_of(ks[i + 1]) == ll.end_of(ks[i]));
        } else {
            assert(ks.last() == ks[i]);
        }
        assert(in_subtree(ll, x, ks[i]));
    }
}

/// A child's subtree ends no later than its parent's, and the child is
/// numbered after its parent.
#[verifier::spinoff_prover]
#[verifier::rlimit(40)]
proof fn lemma_kid_end(ll: LowLink, adj: Seq<Vec<usize>>, c: usize, i: int)
    requires
        tree_facts(ll, adj),
        ll.forest_shape(adj),
        ll.visited().contains(c),
        0 <= i < ll.kids_of(c).len(),
    ensures
        ll.end_of(ll.kids_of(c)[i]) <= ll.end_of(c),
        ll.ord_of(c) < ll.ord_of(ll.kids_of(c)[i]),
    decreases ll.kids_of(c).len() - i,
{
    reveal(LowLink::forest_shape);
    reveal(tree_facts);
    let ks = ll.kids_of(c);
    assert(ll.done().contains(c));
    assert(ll.kids_chain(c));
    assert(ll.visited().contains(ks[i]));
    assert(ll.done().contains(ks[i]));
    if i + 1 < ks.len() {
        lemma_kid_end(ll, adj, c, i + 1);
        assert(ll.ord_of(ks[i + 1]) == ll.end_of(ks[i]));
        assert(ll.visited().contains(ks[i + 1]));
        assert(ll.done().contains(ks[i + 1]));
    } else {
        assert(ks.last() == ks[i]);
    }
    lemma_kid_after(ll, adj, c, i);
}

/// A child is numbered after its parent.
#[verifier::spinoff_prover]
#[verifier::rlimit(40)]
proof fn lemma_kid_after(ll: LowLink, adj: Seq<Vec<usize>>, c: usize, i: int)
    requires
        tree_facts(ll, adj),
        ll.forest_shape(adj),
        ll.visited().contains(c),
        0 <= i < ll.kids_of(c).len(),
    ensures
        ll.ord_of(c) < ll.ord_of(ll.kids_of(c)[i]),
    decreases i,
{
    reveal(LowLink::forest_shape);
    reveal(tree_facts);
    let ks = ll.kids_of(c);
    assert(ll.done().contains(c));
    assert(ll.kids_chain(c));
    if i > 0 {
        lemma_kid_after(ll, adj, c, i - 1);
        assert(ll.ord_of(ks[i]) == ll.end_of(ks[i - 1]));
        assert(ll.visited().contains(ks[i - 1]));
        assert(ll.done().contains(ks[i - 1]));
    } else {
        assert(ll.ord_of(ks[0]) == ll.ord_of(c) + 1);
    }
}

/// A node in the subtree of `c` ends its subtree within `c`'s, has `low`
/// at least `low[c]`, and, unless it is `c`, has its parent in the subtree
/// of `c` too.
#[verifier::spinoff_prover]
#[verifier::rlimit(40)]
proof fn lemma_subtree(ll: LowLink, adj: Seq<Vec<usize>>, c: usize, x: usize)
    requires
        tree_facts(ll, adj),
        ll.forest_shape(adj),
        ll.visited().contains(c),
        in_subtree(ll, x, c),
    ensures
        ll.end_of(x) <= ll.end_of(c),
        ll.low_of(c) <= ll.low_of(x),
        x != c ==> ll.parent_of(x) is Some && in_subtree(ll, ll.parent_of(x).unwrap(), c),
    decreases ll.end_of(c) - ll.ord_of(c),
{
    reveal(LowLink::forest_shape);
    reveal(tree_facts);
    if x != c {
        assert(ll.ord_of(x) != ll.ord_of(c));
        let ks = ll.kids_of(c);
        assert(ll.done().contains(c));
        assert(ll.kids_chain(c));
        assert(ks.len() > 0) by {
            if ks.len() == 0 {
                assert(ll.end_of(c) == ll.ord_of(c) + 1);
            }
        }
        assert(ll.visited().contains(ks[0]));
        assert(ll.ord_of(ks[0]) == ll.ord_of(c) + 1);
        lemma_find_kid(ll, adj, c, x, 0);
        let j = choose|j: int|
            0 <= j < ks.len() && #[trigger] in_subtree(ll, x, ks[j]) && ll.end_of(ks[j]) <= ll.end_of(c);
        let k = ks[j];
        lemma_kid_end(ll, adj, c, j);
        assert(ll.visited().contains(k));
        assert(ll.parent_of(k) == Some(c));
        assert(ll.low_equation(adj, c));
        assert(ll.low_of(c) <= ll.low_of(k));
        assert(ll.done().contains(k));
        assert(ll.ord_of(k) < ll.end_of(k));
        lemma_subtree(ll, adj, k, x);
        if x != k {
            let px = ll.parent_of(x).unwrap();
        } else {
            assert(ll.ord_of(c) < ll.end_of(c));
        }
    }
}

/// A walk that starts at `c` and never steps to `par`, the parent of `c`,
/// stays in the subtree of `c`, when nothing in that subtree reaches above
/// `par` (`low[c] >= ord[par]`) or `par` is a root. With `low[c] > ord[par]`
/// it is enough that the walk never steps from `c` straight to `par`.
#[verifier::spinoff_prover]
#[verifier::rlimit(60)]
proof fn lemma_confined(ll: LowLink, adj: Seq<Vec<usize>>, c: usize, par: usize, strict: bool, p: Seq<usize>, k: int)
    requires
        tree_facts(ll, adj),
        ll.forest_shape(adj),
        symmetric(adj),
        ll.visited().contains(c),
        ll.parent_of(c) == Some(par),
        strict ==> ll.ord_of(par) < ll.low_of(c),
        !strict ==> ll.ord_of(par) <= ll.low_of(c) || ll.parent_of(par) is None,
        is_path(adj, p),
        p[0] == c,
        strict ==> forall|i: int| 0 <= i < p.len() - 1 ==> !(p[i] == c && #[trigger] p[i + 1] == par),
        !strict ==> forall|i: int| 0 <= i < p.len() ==> #[trigger] p[i] != par,
        0 <= k < p.len(),
    ensures
        in_subtree(ll, p[k], c),
    decreases k,
{
    reveal(LowLink::forest_shape);
    reveal(tree_facts);
    assert(ll.done().contains(c));
    if k == 0 {
        assert(ll.ord_of(c) < ll.end_of(c));
    } else {
        lemma_confined(ll, adj, c, par, strict, p, k - 1);
        let x = p[k - 1];
        let y = p[k];
        assert(adj[p[k - 1] as int]@.contains(p[(k - 1) + 1]));
        assert(adj[x as int]@.contains(y));
        lemma_subtree(ll, adj, c, x);
        assert(ll.done().contains(x));
        let nb = adj[x as int]@;
        let i = choose|i: int| 0 <= i < nb.len() && nb[i] == y;
        assert(ll.visited().contains(nb[i]));
        assert(ll.visited().contains(par));
        if y == x {
        } else if ll.ord_of(x) < ll.ord_of(y) {
            assert(ll.ord_of(nb[i]) < ll.end_of(x));
        } else {
            assert(ll.ord_of(y) != ll.ord_of(x));
            if ll.parent_of(x) == Some(y) {
                if x == c {
                    if !strict {
                        assert(p[k] != par);
                    } else {
                        assert(!(p[k - 1] == c && p[k] == par));
                    }
                }
            } else {
                assert(ll.low_equation(adj, x));
                assert(Some(nb[i]) != ll.parent_of(x));
                assert(ll.low_of(x) <= ll.ord_of(y));
                if ll.ord_of(y) < ll.ord_of(c) {
                    assert(adj[y as int]@.contains(x));
                    let nby = adj[y as int]@;
                    let i2 = choose|i2: int| 0 <= i2 < nby.len() && nby[i2] == x;
                    assert(ll.done().contains(y));
                    assert(ll.ord_of(nby[i2]) < ll.end_of(y));
                    assert(in_subtree(ll, c, y));
                    lemma_subtree(ll, adj, y, c);
                    assert(in_subtree(ll, par, y));
                    if ll.ord_of(y) == ll.ord_of(par) {
                        assert(y == par);
                        if !strict {
                            assert(p[k] != par);
                        }
                    } else if ll.parent_of(par) is None {
                        lemma_subtree(ll, adj, y, par);
                    }
                }
            }
        }
    }
}

/// A walk that starts at the root of a tree of a completed search on an
/// undirected graph stays in that tree: an edge from the tree to a node
/// numbered before the root would have put the root in that node's subtree.
#[verifier::spinoff_prover]
#[verifier::rlimit(40)]
proof fn lemma_root_confined(ll: LowLink, adj: Seq<Vec<usize>>, r: usize, p: Seq<usize>, k: int)
    requires
        tree_facts(ll, adj),
        ll.forest_shape(adj),
        symmetric(adj),
        ll.visited().contains(r),
        ll.parent_of(r) is None,
        is_path(adj, p),
        p[0] == r,
        0 <= k < p.len(),
    ensures
        in_subtree(ll, p[k], r),
    decreases k,
{
    reveal(LowLink::forest_shape);
    reveal(tree_facts);
    assert(ll.done().contains(r));
    if k == 0 {
        assert(ll.ord_of(r) < ll.end_of(r));
    } else {
        lemma_root_confined(ll, adj, r, p, k - 1);
        let x = p[k - 1];
        let y = p[k];
        assert(adj[p[k - 1] as int]@.contains(p[(k - 1) + 1]));
        assert(adj[x as int]@.contains(y));
        lemma_subtree(ll, adj, r, x);
        assert(ll.done().contains(x));
        let nb = adj[x as int]@;
        let i = choose|i: int| 0 <= i < nb.len() && nb[i] == y;
        assert(ll.visited().contains(nb[i]));
        if y == x {
        } else if ll.ord_of(x) < ll.ord_of(y) {
            assert(ll.ord_of(nb[i]) < ll.end_of(x));
        } else if ll.ord_of(y) < ll.ord_of(r) {
            assert(x < adj.len());
            assert(adj[y as int]@.contains(x));
            let nby = adj[y as int]@;
            let i2 = choose|i2: int| 0 <= i2 < nby.len() && nby[i2] == x;
            assert(ll.done().contains(y));
            assert(ll.ord_of(y) != ll.ord_of(x));
            assert(ll.ord_of(nby[i2]) < ll.end_of(y));
            assert(in_subtree(ll, r, y));
            lemma_subtree(ll, adj, y, r);
        }
    }
}

/// A completed search on an undirected graph that starts a second tree has
/// found the graph disconnected: no walk leads from the first root to the
/// second.
pub proof fn lemma_roots_apart(ll: LowLink, adj: Seq<Vec<usize>>, nodes: Seq<usize>, upto: int, p: Seq<usize>)
    requires
        ll.complete(adj),
        ll.forest_shape(adj),
        ll.roots_order(nodes, upto),
        symmetric(adj),
        ll.spec_roots().len() >= 2,
        is_path(adj, p),
        p[0] == ll.spec_roots()[0],
    ensures
        p.last() != ll.spec_roots()[1],
{
    lemma_tree_facts(ll, adj);
    reveal(LowLink::roots_order);
    let rs = ll.spec_roots();
    assert(ll.visited().contains(rs[0]) && ll.parent_of(rs[0]) is None);
    assert(ll.ord_of(rs[1]) == ll.root_start(1));
    lemma_root_confined(ll, adj, rs[0], p, p.len() - 1);
}

/// A completed search on an undirected graph that starts one tree at most
/// has joined every two visited nodes: up the tree from one to the root,
/// then down to the other.
pub proof fn lemma_one_tree_joins(
    ll: LowLink,
    adj: Seq<Vec<usize>>,
    nodes: Seq<usize>,
    upto: int,
    a: usize,
    b: usize,
) -> (p: Seq<usize>)
    requires
        ll.complete(adj),
        ll.forest_shape(adj),
        ll.roots_order(nodes, upto),
        symmetric(adj),
        ll.spec_roots().len() <= 1,
        ll.visited().contains(a),
        ll.visited().contains(b),
    ensures
        is_path(adj, p),
        p[0] == a,
        p.last() == b,
{
    lemma_tree_facts(ll, adj);
    lemma_parent_facts(ll, adj);
    reveal(LowLink::roots_order);
    reveal(LowLink::forest_shape);
    reveal(tree_facts);
    let rs = ll.spec_roots();
    assert(ll.done().contains(a) && ll.done().contains(b));
    assert(ll.ord_of(a) < ll.end_of(a) <= ll.visited().len());
    assert(ll.ord_of(b) < ll.end_of(b) <= ll.visited().len());
    assert(rs.len() == 1);
    let r = rs[0];
    assert(ll.visited().contains(r) && ll.ord_of(r) == ll.root_start(0));
    assert(in_subtree(ll, a, r));
    assert(in_subtree(ll, b, r));
    let pa = lemma_tree_path(ll, adj, r, a);
    let pb = lemma_tree_path(ll, adj, r, b);
    assert forall|i: int| 0 <= i < pa.len() implies #[trigger] pa[i] < adj.len() by {
        assert(in_subtree(ll, pa[i], r));
    }
    lemma_path_reverse(adj, pa);
    let ra = pa.reverse();
    lemma_path_concat(adj, ra, pb);
    ra + pb.drop_first()
}

/// A bridge that a completed search reports on an undirected graph
/// separates its ends: every walk from one end to the other steps straight
/// from one to the other somewhere (with no parallel edges, removing the
/// edge disconnects them).
pub proof fn lemma_bridge_separates(ll: LowLink, adj: Seq<Vec<usize>>, b: (usize, usize), p: Seq<usize>)
    requires
        ll.complete(adj),
        ll.forest_shape(adj),
        symmetric(adj),
        ll.spec_bridges().contains(b),
        is_path(adj, p),
        (p[0] == b.0 && p.last() == b.1) || (p[0] == b.1 && p.last() == b.0),
    ensures
        exists|i: int|
            0 <= i < p.len() - 1 && ((p[i] == b.0 && #[trigger] p[i + 1] == b.1) || (p[i] == b.1 && p[i + 1] == b.0)),
{
    lemma_tree_facts(ll, adj);
    let c = choose|c: usize|
        #[trigger] ll.visited().contains(c) && ll.bridge_condition(c) && b == ordered_pair(
            ll.parent_of(c).unwrap(),
            c,
        );
    let par = ll.parent_of(c).unwrap();
    assert(ll.ord_of(par) < ll.ord_of(c));
    if !(exists|i: int|
        0 <= i < p.len() - 1 && ((p[i] == b.0 && #[trigger] p[i + 1] == b.1) || (p[i] == b.1 && p[i + 1] == b.0))) {
        let q = if p[0] == c { p } else { p.reverse() };
        assert(is_path(adj, q)) by {
            if p[0] != c {
                assert forall|i: int| 0 <= i < q.len() - 1 implies adj[q[i] as int]@.contains(#[trigger] q[i + 1]) by {
                    let j = p.len() - 2 - i;
                    assert(q[i] == p[j + 1]);
                    assert(q[i + 1] == p[j]);
                    assert(adj[p[j] as int]@.contains(p[j + 1]));
                    assert(0 <= p[j] < adj.len()) by {
                        assert(ll.visited().contains(c));
                        assert(ll.visited().contains(par));
                        lemma_path_nodes(ll, adj, p, j);
                    }
                }
            }
        }
        assert(q[0] == c && q.last() == par);
        assert forall|i: int| 0 <= i < q.len() - 1 implies !(q[i] == c && #[trigger] q[i + 1] == par) by {
            if p[0] == c {
            } else {
                let j = p.len() - 2 - i;
                assert(q[i] == p[j + 1]);
                assert(q[i + 1] == p[j]);
            }
        }
        lemma_confined(ll, adj, c, par, true, q, q.len() - 1);
    }
}

/// Every node of a walk that starts at a node of the graph is a node of the
/// graph.
proof fn lemma_path_nodes(ll: LowLink, adj: Seq<Vec<usize>>, p: Seq<usize>, j: int)
    requires
        tree_facts(ll, adj),
        is_path(adj, p),
        0 <= j < p.len(),
        p[0] < adj.len(),
    ensures
        p[j] < adj.len(),
    decreases j,
{
    reveal(tree_facts);
    if j > 0 {
        lemma_path_nodes(ll, adj, p, j - 1);
        assert(adj[p[j - 1] as int]@.contains(p[(j - 1) + 1]));
        let nb = adj[p[j - 1] as int]@;
        let i = choose|i: int| 0 <= i < nb.len() && nb[i] == p[j];
    }
}

/// An articulation point that a completed search reports on an undirected
/// graph separates two of its neighbors: every walk from one to the other
/// passes through it.
pub proof fn lemma_articulation_separates(ll: LowLink, adj: Seq<Vec<usize>>, v: usize)
    requires
        ll.complete(adj),
        ll.forest_shape(adj),
        symmetric(adj),
        ll.spec_articulations().contains(v),
    ensures
        exists|a: usize, b: usize|
            #![trigger adj[v as int]@.contains(a), adj[v as int]@.contains(b)]
            a != v && b != v && adj[v as int]@.contains(a) && adj[v as int]@.contains(b) && forall|p: Seq<usize>|
                #[trigger] is_path(adj, p) && p[0] == a && p.last() == b ==> p.contains(v),
{
    reveal(LowLink::forest_shape);
    lemma_tree_facts(ll, adj);
    assert(ll.articulation_condition(v));
    let ks = ll.kids_of(v);
    assert(ll.done().contains(v));
    if ll.parent_of(v) is Some {
        let i = choose|i: int| 0 <= i < ks.len() && ll.ord_of(v) <= ll.low_of(#[trigger] ks[i]);
        let c = ks[i];
        let b = ll.parent_of(v).unwrap();
        assert(ll.visited().contains(c));
        assert(ll.parent_of(c) == Some(v));
        assert(adj[v as int]@.contains(c));
        assert(adj[b as int]@.contains(v));
        assert(ll.ord_of(b) < ll.ord_of(v) < ll.ord_of(c));
        assert forall|p: Seq<usize>| #[trigger] is_path(adj, p) && p[0] == c && p.last() == b implies p.contains(v) by {
            if !p.contains(v) {
                assert forall|k: int| 0 <= k < p.len() implies #[trigger] p[k] != v by {
                    if p[k] == v {
                        assert(p.contains(v));
                    }
                }
                lemma_confined(ll, adj, c, v, false, p, p.len() - 1);
            }
        }
        assert(adj[v as int]@.contains(c) && adj[v as int]@.contains(b));
    } else {
        let c = ks[0];
        let d = ks[1];
        assert(ll.visited().contains(c));
        assert(ll.visited().contains(d));
        assert(ll.parent_of(c) == Some(v));
        assert(ll.parent_of(d) == Some(v));
        assert(adj[v as int]@.contains(c));
        assert(adj[v as int]@.contains(d));
        assert(ll.kids_chain(v));
        assert(ll.ord_of(d) == ll.end_of(c));
        assert(c != v && d != v) by {
            assert(ll.ord_of(v) < ll.ord_of(c));
            assert(ll.ord_of(v) < ll.ord_of(d));
        }
        assert forall|p: Seq<usize>| #[trigger] is_path(adj, p) && p[0] == c && p.last() == d implies p.contains(v) by {
            if !p.contains(v) {
                assert forall|k: int| 0 <= k < p.len() implies #[trigger] p[k] != v by {
                    if p[k] == v {
                        assert(p.contains(v));
                    }
                }
                lemma_confined(ll, adj, c, v, false, p, p.len() - 1);
            }
        }
        assert(adj[v as int]@.contains(c) && adj[v as int]@.contains(d));
    }
}

/// A walk down the tree from `c` to a node `x` of its subtree: each step
/// goes from a node to one of its children, so every node on it lies in the
/// subtree of `c` and is numbered no later than `x`.
#[verifier::spinoff_prover]
#[verifier::rlimit(40)]
proof fn lemma_tree_path(ll: LowLink, adj: Seq<Vec<usize>>, c: usize, x: usize) -> (p: Seq<usize>)
    requires
        tree_facts(ll, adj),
        parent_facts(ll, adj),
        ll.forest_shape(adj),
        ll.visited().contains(c),
        in_subtree(ll, x, c),
    ensures
        is_path(adj, p),
        p[0] == c,
        p.last() == x,
        forall|i: int| 0 <= i < p.len() ==> in_subtree(ll, #[trigger] p[i], c) && ll.ord_of(p[i]) <= ll.ord_of(x),
        forall|i: int| 0 <= i < p.len() - 1 ==> ll.parent_of(#[trigger] p[i + 1]) == Some(p[i]),
    decreases ll.ord_of(x) - ll.ord_of(c),
{
    reveal(tree_facts);
    reveal(parent_facts);
    if x == c {
        seq![c]
    } else {
        lemma_subtree(ll, adj, c, x);
        let px = ll.parent_of(x).unwrap();
        assert(ll.visited().contains(x));
        let q = lemma_tree_path(ll, adj, c, px);
        let p = q.push(x);
        assert forall|i: int| 0 <= i < p.len() - 1 implies adj[p[i] as int]@.contains(#[trigger] p[i + 1]) by {
            if i < q.len() - 1 {
                assert(p[i] == q[i] && p[i + 1] == q[i + 1]);
            } else {
                assert(p[i] == q.last());
            }
        }
        assert forall|i: int| 0 <= i < p.len() implies in_subtree(ll, #[trigger] p[i], c) && ll.ord_of(p[i]) <= ll.ord_of(x) by {
            if i < q.len() {
                assert(p[i] == q[i]);
            }
        }
        assert forall|i: int| 0 <= i < p.len() - 1 implies ll.parent_of(#[trigger] p[i + 1]) == Some(p[i]) by {
            if i < q.len() - 1 {
                assert(p[i] == q[i] && p[i + 1] == q[i + 1]);
            } else {
                assert(p[i] == q.last());
            }
        }
        p
    }
}

/// No node of the walk is `v`, and every node is below `n`.
spec fn clear_of(p: Seq<usize>, v: usize, n: int) -> bool {
    forall|i: int| 0 <= i < p.len() ==> p[i] != v && #[trigger] p[i] < n
}

/// The walk never steps straight between `a` and `b`.
pub open spec fn no_step(p: Seq<usize>, a: usize, b: usize) -> bool {
    forall|i: int|
        0 <= i < p.len() - 1 ==> !((p[i] == a && #[trigger] p[i + 1] == b) || (p[i] == b && p[i + 1] == a))
}

/// Two walks, the second starting where the first ends, make one walk.
proof fn lemma_path_concat(adj: Seq<Vec<usize>>, p: Seq<usize>, q: Seq<usize>)
    requires
        is_path(adj, p),
        is_path(adj, q),
        p.last() == q[0],
    ensures
        is_path(adj, p + q.drop_first()),
        (p + q.drop_first())[0] == p[0],
        (p + q.drop_first()).last() == q.last(),
        forall|x: usize| #[trigger] (p + q.drop_first()).contains(x) ==> p.contains(x) || q.contains(x),
        forall|v: usize, n: int| clear_of(p, v, n) && clear_of(q, v, n) ==> #[trigger] clear_of(p + q.drop_first(), v, n),
        forall|a: usize, b: usize| no_step(p, a, b) && no_step(q, a, b) ==> #[trigger] no_step(p + q.drop_first(), a, b),
{
    let r = p + q.drop_first();
    assert forall|a: usize, b: usize| no_step(p, a, b) && no_step(q, a, b) implies #[trigger] no_step(r, a, b) by {
        assert forall|i: int| 0 <= i < r.len() - 1 implies !((r[i] == a && #[trigger] r[i + 1] == b) || (r[i] == b && r[i + 1] == a)) by {
            if i < p.len() - 1 {
                assert(r[i] == p[i] && r[i + 1] == p[i + 1]);
            } else {
                let j = i - p.len() + 1;
                assert(r[i] == q[j] && r[i + 1] == q[j + 1]);
            }
        }
    }
    assert forall|v: usize, n: int| clear_of(p, v, n) && clear_of(q, v, n) implies #[trigger] clear_of(r, v, n) by {
        assert forall|i: int| 0 <= i < r.len() implies r[i] != v && #[trigger] r[i] < n by {
            if i < p.len() {
                assert(r[i] == p[i]);
            } else {
                assert(r[i] == q[i - p.len() + 1]);
            }
        }
    }
    assert forall|i: int| 0 <= i < r.len() - 1 implies adj[r[i] as int]@.contains(#[trigger] r[i + 1]) by {
        if i < p.len() - 1 {
            assert(r[i] == p[i] && r[i + 1] == p[i + 1]);
        } else if i == p.len() - 1 {
            assert(r[i] == q[0]);
            assert(r[i + 1] == q[1]);
        } else {
            let j = i - p.len() + 1;
            assert(r[i] == q[j] && r[i + 1] == q[j + 1]);
        }
    }
    if q.len() == 1 {
        assert(r.last() == p.last());
    } else {
        assert(r.last() == q.last());
    }
    assert forall|x: usize| #[trigger] r.contains(x) implies p.contains(x) || q.contains(x) by {
        let i = choose|i: int| 0 <= i < r.len() && r[i] == x;
        if i < p.len() {
            assert(p[i] == x);
        } else {
            assert(q[i - p.len() + 1] == x);
        }
    }
}

/// On an undirected graph a walk read backwards is a walk.
proof fn lemma_path_reverse(adj: Seq<Vec<usize>>, p: Seq<usize>)
    requires
        symmetric(adj),
        is_path(adj, p),
        forall|i: int| 0 <= i < p.len() ==> #[trigger] p[i] < adj.len(),
    ensures
        is_path(adj, p.reverse()),
        p.reverse()[0] == p.last(),
        p.reverse().last() == p[0],
        forall|x: usize| #[trigger] p.reverse().contains(x) ==> p.contains(x),
        forall|i: int| 0 <= i < p.reverse().len() ==> #[trigger] p.reverse()[i] < adj.len(),
        forall|v: usize, n: int| clear_of(p, v, n) ==> #[trigger] clear_of(p.reverse(), v, n),
        forall|a: usize, b: usize| no_step(p, a, b) ==> #[trigger] no_step(p.reverse(), a, b),
{
    let r = p.reverse();
    assert forall|a: usize, b: usize| no_step(p, a, b) implies #[trigger] no_step(r, a, b) by {
        assert forall|i: int| 0 <= i < r.len() - 1 implies !((r[i] == a && #[trigger] r[i + 1] == b) || (r[i] == b && r[i + 1] == a)) by {
            let j = p.len() - 2 - i;
            assert(r[i] == p[j + 1] && r[i + 1] == p[j]);
        }
    }
    assert forall|v: usize, n: int| clear_of(p, v, n) implies #[trigger] clear_of(r, v, n) by {
        assert forall|i: int| 0 <= i < r.len() implies r[i] != v && #[trigger] r[i] < n by {
            assert(r[i] == p[p.len() - 1 - i]);
        }
    }
    assert forall|i: int| 0 <= i < r.len() - 1 implies adj[r[i] as int]@.contains(#[trigger] r[i + 1]) by {
        let j = p.len() - 2 - i;
        assert(r[i] == p[j + 1] && r[i + 1] == p[j]);
        assert(adj[p[j] as int]@.contains(p[j + 1]));
        assert(p[j] < adj.len());
    }
    assert forall|x: usize| #[trigger] r.contains(x) implies p.contains(x) by {
        let i = choose|i: int| 0 <= i < r.len() && r[i] == x;
        assert(p[p.len() - 1 - i] == x);
    }
    assert forall|i: int| 0 <= i < r.len() implies #[trigger] r[i] < adj.len() by {
        assert(r[i] == p[p.len() - 1 - i]);
    }
}

/// Where `low[c]` comes from: a node `x` of the subtree of `c` with a
/// neighbor `y`, other than the parent of `x`, numbered `low[c]`.
#[verifier::spinoff_prover]
proof fn lemma_low_witness(ll: LowLink, adj: Seq<Vec<usize>>, c: usize) -> (r: (usize, usize))
    requires
        tree_facts(ll, adj),
        ll.forest_shape(adj),
        ll.visited().contains(c),
        ll.low_of(c) < ll.ord_of(c),
    ensures
        in_subtree(ll, r.0, c),
        adj[r.0 as int]@.contains(r.1),
        Some(r.1) != ll.parent_of(r.0),
        ll.ord_of(r.1) == ll.low_of(c),
    decreases ll.end_of(c) - ll.ord_of(c),
{
    reveal(tree_facts);
    reveal(LowLink::forest_shape);
    assert(ll.low_equation(adj, c));
    assert(ll.done().contains(c));
    let nb = adj[c as int]@;
    let ks = ll.kids_of(c);
    if exists|i: int| 0 <= i < nb.len() && Some(nb[i]) != ll.parent_of(c) && ll.low_of(c) == ll.ord_of(#[trigger] nb[i]) {
        let i = choose|i: int| 0 <= i < nb.len() && Some(nb[i]) != ll.parent_of(c) && ll.low_of(c) == ll.ord_of(#[trigger] nb[i]);
        assert(ll.ord_of(c) < ll.end_of(c));
        assert(nb.contains(nb[i]));
        (c, nb[i])
    } else {
        let i = choose|i: int| 0 <= i < ks.len() && ll.low_of(c) == ll.low_of(#[trigger] ks[i]);
        let k = ks[i];
        lemma_kid_end(ll, adj, c, i);
        assert(ll.visited().contains(k));
        assert(ll.done().contains(k));
        assert(ll.ord_of(k) < ll.end_of(k));
        let r = lemma_low_witness(ll, adj, k);
        assert(in_subtree(ll, r.0, c));
        r
    }
}

/// A node `y` numbered before `x` and adjacent to it is an ancestor of `x`:
/// `x` lies in its subtree.
#[verifier::spinoff_prover]
proof fn lemma_back_edge(ll: LowLink, adj: Seq<Vec<usize>>, x: usize, y: usize)
    requires
        tree_facts(ll, adj),
        ll.forest_shape(adj),
        symmetric(adj),
        ll.visited().contains(x),
        adj[x as int]@.contains(y),
        ll.ord_of(y) < ll.ord_of(x),
    ensures
        ll.visited().contains(y),
        in_subtree(ll, x, y),
{
    reveal(tree_facts);
    reveal(LowLink::forest_shape);
    let nbx = adj[x as int]@;
    let i = choose|i: int| 0 <= i < nbx.len() && nbx[i] == y;
    assert(ll.visited().contains(nbx[i]));
    assert(x < adj.len());
    assert(adj[y as int]@.contains(x));
    let nb = adj[y as int]@;
    let j = choose|j: int| 0 <= j < nb.len() && nb[j] == x;
    assert(ll.done().contains(y));
    assert(ll.ord_of(nb[j]) < ll.end_of(y));
}

/// The node every neighbor of a node that is not an articulation point can
/// reach without it: its parent, or, for a root, its first child.
spec fn anchor(ll: LowLink, v: usize) -> usize {
    if ll.parent_of(v) is Some {
        ll.parent_of(v).unwrap()
    } else {
        ll.kids_of(v)[0]
    }
}

/// A tree walk from `c` to a node of its subtree, when `v` lies outside
/// that subtree, avoids `v`.
proof fn lemma_tree_path_clear(ll: LowLink, adj: Seq<Vec<usize>>, c: usize, x: usize, v: usize) -> (p: Seq<usize>)
    requires
        tree_facts(ll, adj),
        parent_facts(ll, adj),
        ll.forest_shape(adj),
        ll.visited().contains(c),
        in_subtree(ll, x, c),
        !in_subtree(ll, v, c) || ll.ord_of(x) < ll.ord_of(v),
    ensures
        is_path(adj, p),
        p[0] == c,
        p.last() == x,
        clear_of(p, v, adj.len() as int),
{
    reveal(tree_facts);
    let p = lemma_tree_path(ll, adj, c, x);
    assert forall|i: int| 0 <= i < p.len() implies p[i] != v && #[trigger] p[i] < adj.len() by {
        assert(in_subtree(ll, p[i], c));
        assert(ll.visited().contains(p[i]));
    }
    p
}

/// A neighbor `u` of `v` numbered before it is an ancestor of `v`, and
/// reaches the parent of `v` down the tree without passing `v`.
#[verifier::spinoff_prover]
proof fn lemma_anchor_above(ll: LowLink, adj: Seq<Vec<usize>>, v: usize, u: usize) -> (p: Seq<usize>)
    requires
        tree_facts(ll, adj),
        parent_facts(ll, adj),
        ll.forest_shape(adj),
        symmetric(adj),
        ll.visited().contains(v),
        adj[v as int]@.contains(u),
        ll.ord_of(u) < ll.ord_of(v),
    ensures
        ll.parent_of(v) is Some,
        is_path(adj, p),
        p[0] == u,
        p.last() == ll.parent_of(v).unwrap(),
        clear_of(p, v, adj.len() as int),
{
    lemma_back_edge(ll, adj, v, u);
    lemma_subtree(ll, adj, u, v);
    reveal(parent_facts);
    let par = ll.parent_of(v).unwrap();
    lemma_tree_path_clear(ll, adj, u, par, v)
}

/// A node `u` of the subtree of `v`, other than `v`, lies in the subtree of
/// a child `k` of `v` and reaches `k` up the tree without passing `v`.
#[verifier::spinoff_prover]
proof fn lemma_kid_path(ll: LowLink, adj: Seq<Vec<usize>>, v: usize, u: usize) -> (r: (usize, Seq<usize>))
    requires
        tree_facts(ll, adj),
        parent_facts(ll, adj),
        ll.forest_shape(adj),
        symmetric(adj),
        ll.visited().contains(v),
        in_subtree(ll, u, v),
        u != v,
    ensures
        ll.kids_of(v).contains(r.0),
        ll.visited().contains(r.0),
        ll.parent_of(r.0) == Some(v),
        is_path(adj, r.1),
        r.1[0] == u,
        r.1.last() == r.0,
        clear_of(r.1, v, adj.len() as int),
{
    reveal(tree_facts);
    reveal(LowLink::forest_shape);
    assert(ll.ord_of(u) != ll.ord_of(v));
    let ks = ll.kids_of(v);
    assert(ll.done().contains(v));
    assert(ll.kids_chain(v));
    assert(ks.len() > 0) by {
        if ks.len() == 0 {
            assert(ll.end_of(v) == ll.ord_of(v) + 1);
        }
    }
    assert(ll.visited().contains(ks[0]));
    assert(ll.ord_of(ks[0]) == ll.ord_of(v) + 1);
    lemma_find_kid(ll, adj, v, u, 0);
    let j = choose|j: int|
        0 <= j < ks.len() && #[trigger] in_subtree(ll, u, ks[j]) && ll.end_of(ks[j]) <= ll.end_of(v);
    let k = ks[j];
    lemma_kid_end(ll, adj, v, j);
    assert(ll.visited().contains(k));
    assert(ll.parent_of(k) == Some(v));
    assert(!in_subtree(ll, v, k));
    let down = lemma_tree_path_clear(ll, adj, k, u, v);
    lemma_path_reverse(adj, down);
    assert(ks.contains(k));
    (k, down.reverse())
}

/// A child `k` of a non-root `v` whose subtree reaches above `v`
/// (`low[k] < ord[v]`) reaches the parent of `v` without passing `v`.
#[verifier::spinoff_prover]
#[verifier::rlimit(60)]
proof fn lemma_kid_to_parent(ll: LowLink, adj: Seq<Vec<usize>>, v: usize, k: usize) -> (p: Seq<usize>)
    requires
        tree_facts(ll, adj),
        parent_facts(ll, adj),
        ll.forest_shape(adj),
        symmetric(adj),
        ll.visited().contains(v),
        ll.visited().contains(k),
        ll.parent_of(k) == Some(v),
        ll.parent_of(v) is Some,
        ll.low_of(k) < ll.ord_of(v),
    ensures
        is_path(adj, p),
        p[0] == k,
        p.last() == ll.parent_of(v).unwrap(),
        clear_of(p, v, adj.len() as int),
{
    reveal(parent_facts);
    let par = ll.parent_of(v).unwrap();
    assert(ll.ord_of(v) < ll.ord_of(k));
    let (x, y) = lemma_low_witness(ll, adj, k);
    lemma_subtree(ll, adj, k, x);
    assert(ll.visited().contains(x)) by {
        reveal(tree_facts);
    }
    assert(!in_subtree(ll, v, k));
    let to_x = lemma_tree_path_clear(ll, adj, k, x, v);
    assert(ll.ord_of(y) < ll.ord_of(x));
    lemma_back_edge(ll, adj, x, y);
    assert(in_subtree(ll, k, y));
    lemma_subtree(ll, adj, y, k);
    assert(y != v);
    assert(in_subtree(ll, v, y));
    lemma_subtree(ll, adj, y, v);
    assert(ll.ord_of(par) < ll.ord_of(v));
    let to_par = lemma_tree_path_clear(ll, adj, y, par, v);
    let step = seq![x, y];
    assert(is_path(adj, step));
    assert(clear_of(step, v, adj.len() as int)) by {
        reveal(tree_facts);
        assert(step[0] == x && step[1] == y);
        assert(ll.visited().contains(y));
    }
    lemma_path_concat(adj, to_x, step);
    let a1 = to_x + step.drop_first();
    lemma_path_concat(adj, a1, to_par);
    a1 + to_par.drop_first()
}

/// Every neighbor `u` of a node `v` that does not meet the articulation
/// condition reaches the anchor of `v` by a walk that avoids `v`.
#[verifier::spinoff_prover]
proof fn lemma_to_anchor(ll: LowLink, adj: Seq<Vec<usize>>, v: usize, u: usize) -> (p: Seq<usize>)
    requires
        tree_facts(ll, adj),
        parent_facts(ll, adj),
        ll.forest_shape(adj),
        symmetric(adj),
        ll.visited().contains(v),
        !ll.articulation_condition(v),
        adj[v as int]@.contains(u),
        u != v,
    ensures
        is_path(adj, p),
        p[0] == u,
        p.last() == anchor(ll, v),
        clear_of(p, v, adj.len() as int),
{
    reveal(tree_facts);
    reveal(LowLink::forest_shape);
    let nbv = adj[v as int]@;
    let iu = choose|i: int| 0 <= i < nbv.len() && nbv[i] == u;
    assert(ll.visited().contains(nbv[iu]));
    assert(ll.done().contains(v));
    if ll.ord_of(u) < ll.ord_of(v) {
        lemma_anchor_above(ll, adj, v, u)
    } else {
        assert(ll.ord_of(u) != ll.ord_of(v));
        assert(ll.ord_of(u) < ll.end_of(v));
        assert(in_subtree(ll, u, v));
        let (k, up) = lemma_kid_path(ll, adj, v, u);
        let ks = ll.kids_of(v);
        let j = choose|j: int| 0 <= j < ks.len() && ks[j] == k;
        if ll.parent_of(v) is None {
            assert(ks.len() < 2);
            assert(ks[0] == k);
            up
        } else {
            assert(ll.low_of(k) < ll.ord_of(v)) by {
                if ll.ord_of(v) <= ll.low_of(k) {
                    assert(ll.ord_of(v) <= ll.low_of(ks[j]));
                    assert(ll.articulation_condition(v));
                }
            }
            let rest = lemma_kid_to_parent(ll, adj, v, k);
            lemma_path_concat(adj, up, rest);
            up + rest.drop_first()
        }
    }
}

/// A node that separates two of its neighbors on an undirected graph (every
/// walk from one to the other passes through it) is reported as an
/// articulation point by a completed search that visited it.
pub proof fn lemma_separator_is_listed(ll: LowLink, adj: Seq<Vec<usize>>, v: usize, a: usize, b: usize)
    requires
        ll.complete(adj),
        ll.forest_shape(adj),
        symmetric(adj),
        ll.visited().contains(v),
        a != v,
        b != v,
        adj[v as int]@.contains(a),
        adj[v as int]@.contains(b),
        forall|p: Seq<usize>| #[trigger] is_path(adj, p) && p[0] == a && p.last() == b ==> p.contains(v),
    ensures
        ll.spec_articulations().contains(v),
{
    lemma_tree_facts(ll, adj);
    lemma_parent_facts(ll, adj);
    if !ll.articulation_condition(v) {
        let pa = lemma_to_anchor(ll, adj, v, a);
        let pb = lemma_to_anchor(ll, adj, v, b);
        assert forall|i: int| 0 <= i < pb.len() implies #[trigger] pb[i] < adj.len() by {
            assert(pb[i] != v && pb[i] < adj.len());
        }
        lemma_path_reverse(adj, pb);
        let rb = pb.reverse();
        lemma_path_concat(adj, pa, rb);
        let w = pa + rb.drop_first();
        assert(is_path(adj, w) && w[0] == a && w.last() == b);
        assert(clear_of(rb, v, adj.len() as int));
        assert(clear_of(w, v, adj.len() as int));
        assert(!w.contains(v)) by {
            if w.contains(v) {
                let i = choose|i: int| 0 <= i < w.len() && w[i] == v;
                assert(w[i] != v && w[i] < adj.len());
            }
        }
    }
}

/// A walk that never meets `a` never steps from or to it.
proof fn lemma_absent_no_step(p: Seq<usize>, a: usize, b: usize)
    requires
        forall|i: int| 0 <= i < p.len() ==> #[trigger] p[i] != a,
    ensures
        no_step(p, a, b),
{
    assert forall|i: int| 0 <= i < p.len() - 1 implies !((p[i] == a && #[trigger] p[i + 1] == b) || (p[i] == b && p[i + 1] == a)) by {
        assert(p[i] != a && p[i + 1] != a);
    }
}

/// A tree edge from `par` to `c` that the search does not report as a
/// bridge (`low[c] <= ord[par]`) is bypassed: a walk from `c` to `par` never
/// steps straight between them.
#[verifier::spinoff_prover]
#[verifier::rlimit(60)]
proof fn lemma_bypass(ll: LowLink, adj: Seq<Vec<usize>>, c: usize, par: usize) -> (p: Seq<usize>)
    requires
        tree_facts(ll, adj),
        parent_facts(ll, adj),
        ll.forest_shape(adj),
        symmetric(adj),
        ll.visited().contains(c),
        ll.parent_of(c) == Some(par),
        ll.low_of(c) <= ll.ord_of(par),
    ensures
        is_path(adj, p),
        p[0] == c,
        p.last() == par,
        no_step(p, c, par),
        forall|i: int| 0 <= i < p.len() ==> #[trigger] p[i] < adj.len(),
{
    reveal(parent_facts);
    assert(ll.ord_of(par) < ll.ord_of(c));
    let (x, y) = lemma_low_witness(ll, adj, c);
    lemma_subtree(ll, adj, c, x);
    assert(ll.visited().contains(x)) by {
        reveal(tree_facts);
    }
    assert(!in_subtree(ll, par, c));
    let to_x = lemma_tree_path_clear(ll, adj, c, x, par);
    assert(ll.ord_of(y) < ll.ord_of(x));
    lemma_back_edge(ll, adj, x, y);
    assert(in_subtree(ll, c, y));
    if y == c {
        assert(false);
    }
    lemma_subtree(ll, adj, y, c);
    assert(in_subtree(ll, par, y));
    let to_par = lemma_tree_path(ll, adj, y, par);
    assert forall|i: int| 0 <= i < to_par.len() implies #[trigger] to_par[i] != c && to_par[i] < adj.len() by {
        reveal(tree_facts);
        assert(ll.ord_of(to_par[i]) <= ll.ord_of(par));
        assert(in_subtree(ll, to_par[i], y));
        assert(ll.visited().contains(to_par[i]));
        if to_par[i] == c {
            assert(ll.ord_of(c) <= ll.ord_of(par));
        }
    }
    let step = seq![x, y];
    assert(is_path(adj, step));
    assert(no_step(step, c, par)) by {
        assert(step[0] == x && step[1] == y);
        if x == c {
            assert(y != par);
        }
        if x == par {
            assert(in_subtree(ll, x, c));
        }
    }
    assert forall|i: int| 0 <= i < to_x.len() implies #[trigger] to_x[i] != par by {
        assert(to_x[i] != par && to_x[i] < adj.len());
    }
    lemma_absent_no_step(to_x, par, c);
    assert(no_step(to_x, c, par)) by {
        assert forall|i: int| 0 <= i < to_x.len() - 1 implies !((to_x[i] == c && #[trigger] to_x[i + 1] == par) || (to_x[i] == par && to_x[i + 1] == c)) by {
            assert(to_x[i] != par && to_x[i + 1] != par);
        }
    }
    assert(no_step(to_par, c, par)) by {
        assert forall|i: int| 0 <= i < to_par.len() - 1 implies !((to_par[i] == c && #[trigger] to_par[i + 1] == par) || (to_par[i] == par && to_par[i + 1] == c)) by {
            assert(to_par[i] != c && to_par[i + 1] != c);
        }
    }
    lemma_path_concat(adj, to_x, step);
    let a1 = to_x + step.drop_first();
    lemma_path_concat(adj, a1, to_par);
    let all = a1 + to_par.drop_first();
    assert forall|i: int| 0 <= i < all.len() implies #[trigger] all[i] < adj.len() by {
        assert(all.contains(all[i]));
        if a1.contains(all[i]) {
            if to_x.contains(all[i]) {
                let i2 = choose|i2: int| 0 <= i2 < to_x.len() && to_x[i2] == all[i];
                assert(to_x[i2] != par && to_x[i2] < adj.len());
            } else {
                let i2 = choose|i2: int| 0 <= i2 < step.len() && step[i2] == all[i];
                reveal(tree_facts);
                assert(ll.visited().contains(y));
            }
        } else {
            let i2 = choose|i2: int| 0 <= i2 < to_par.len() && to_par[i2] == all[i];
        }
    }
    all
}

/// An edge that separates its ends on an undirected graph (every walk from
/// one end to the other steps straight between them somewhere) is reported
/// as a bridge, smaller index first, by a completed search that visited it.
#[verifier::spinoff_prover]
#[verifier::rlimit(60)]
pub proof fn lemma_separating_edge_is_listed(ll: LowLink, adj: Seq<Vec<usize>>, a: usize, b: usize)
    requires
        ll.complete(adj),
        ll.forest_shape(adj),
        symmetric(adj),
        ll.visited().contains(a),
        a != b,
        adj[a as int]@.contains(b),
        forall|p: Seq<usize>| #[trigger] is_path(adj, p) && p[0] == a && p.last() == b ==> !no_step(p, a, b),
    ensures
        ll.spec_bridges().contains(ordered_pair(a, b)),
{
    lemma_tree_facts(ll, adj);
    lemma_parent_facts(ll, adj);
    reveal(tree_facts);
    reveal(parent_facts);
    reveal(LowLink::forest_shape);
    let nba = adj[a as int]@;
    let ib = choose|i: int| 0 <= i < nba.len() && nba[i] == b;
    assert(ll.visited().contains(nba[ib]));
    assert(a < adj.len());
    assert(adj[b as int]@.contains(a));
    assert(ll.ord_of(a) != ll.ord_of(b));
    let (u, w) = if ll.ord_of(a) < ll.ord_of(b) { (a, b) } else { (b, a) };
    assert(adj[w as int]@.contains(u));
    lemma_back_edge(ll, adj, w, u);
    // a walk from `w` to `u` that never steps straight between them
    let q: Seq<usize> = if ll.parent_of(w) == Some(u) {
        if ll.bridge_condition(w) {
            assert(ordered_pair(u, w) == ordered_pair(a, b));
            assert(ll.spec_bridges().contains(ordered_pair(ll.parent_of(w).unwrap(), w)));
            return;
        }
        lemma_bypass(ll, adj, w, u)
    } else {
        let t = lemma_tree_path(ll, adj, u, w);
        assert(no_step(t, u, w)) by {
            assert forall|i: int| 0 <= i < t.len() - 1 implies !((t[i] == u && #[trigger] t[i + 1] == w) || (t[i] == w && t[i + 1] == u)) by {
                assert(ll.parent_of(t[i + 1]) == Some(t[i]));
                if t[i] == w && t[i + 1] == u {
                    assert(ll.visited().contains(t[i + 1]));
                    assert(ll.ord_of(w) < ll.ord_of(u));
                }
            }
        }
        assert forall|i: int| 0 <= i < t.len() implies #[trigger] t[i] < adj.len() by {
            assert(ll.visited().contains(t[i]));
        }
        lemma_path_reverse(adj, t);
        t.reverse()
    };
    // orient it from `a` to `b`
    assert(is_path(adj, q) && q[0] == w && q.last() == u);
    assert(no_step(q, w, u) || no_step(q, u, w));
    assert(no_step(q, a, b)) by {
        assert forall|i: int| 0 <= i < q.len() - 1 implies !((q[i] == a && #[trigger] q[i + 1] == b) || (q[i] == b && q[i + 1] == a)) by {
            if no_step(q, w, u) {
                assert(!((q[i] == w && q[i + 1] == u) || (q[i] == u && q[i + 1] == w)));
            } else {
                assert(!((q[i] == u && q[i + 1] == w) || (q[i] == w && q[i + 1] == u)));
            }
        }
    }
    if w == a {
        assert(!no_step(q, a, b));
    } else {
        lemma_path_reverse(adj, q);
        assert(!no_step(q.reverse(), a, b));
    }
}

} // verus!
