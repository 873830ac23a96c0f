//! Shortest paths on a graph with non-negative integer edge costs
//! (Dijkstra's algorithm), as used to route the edges of a diagram.
//!
//! The graph is given by adjacency lists: `adjacency[u]` holds the pairs
//! `(v, cost)` of the edges that leave `u`. A pair whose `v` is not a node
//! of the graph is no edge.
use vstd::prelude::*;
use smallvec::SmallVec;

verus! {

/// A `SmallVec` of costs: smallvec's vector that keeps its first 128
/// items inline. Its contents are `cost_items`, and it is read and written
/// only through the functions below.
#[verifier::external_body]
pub struct CostVec {
    items: SmallVec<[u32; 128]>,
}

/// A `SmallVec` of flags, held as `CostVec` holds costs.
#[verifier::external_body]
pub struct FlagVec {
    items: SmallVec<[bool; 128]>,
}

/// A `SmallVec` of optional node indices, held as `CostVec` holds costs.
#[verifier::external_body]
pub struct LinkVec {
    items: SmallVec<[Option<usize>; 128]>,
}

/// The items of a `SmallVec` of costs, in order.
pub uninterp spec fn cost_items(v: CostVec) -> Seq<u32>;

/// The items of a `SmallVec` of flags, in order.
pub uninterp spec fn flag_items(v: FlagVec) -> Seq<bool>;

/// The items of a `SmallVec` of optional node indices, in order.
pub uninterp spec fn link_items(v: LinkVec) -> Seq<Option<usize>>;

/// `SmallVec::from_elem`: `n` copies of `elem`.
#[verifier::external_body]
fn costs_filled(elem: u32, n: usize) -> (r: CostVec)
    ensures
        cost_items(r) == Seq::new(n as nat, |i: int| elem),
{
    CostVec { items: SmallVec::from_elem(elem, n) }
}

/// `SmallVec::from_elem`: `n` copies of `elem`.
#[verifier::external_body]
fn flags_filled(elem: bool, n: usize) -> (r: FlagVec)
    ensures
        flag_items(r) == Seq::new(n as nat, |i: int| elem),
{
    FlagVec { items: SmallVec::from_elem(elem, n) }
}

/// `SmallVec::from_elem`: `n` copies of `elem`.
#[verifier::external_body]
fn links_filled(elem: Option<usize>, n: usize) -> (r: LinkVec)
    ensures
        link_items(r) == Seq::new(n as nat, |i: int| elem),
{
    LinkVec { items: SmallVec::from_elem(elem, n) }
}

/// Indexing a `SmallVec` (which panics past its end): the item at `i`.
#[verifier::external_body]
fn cost_at(v: &CostVec, i: usize) -> (r: u32)
    requires
        i < cost_items(*v).len(),
    ensures
        r == cost_items(*v)[i as int],
{
    v.items[i]
}

/// Indexing a `SmallVec` (which panics past its end): the item at `i`.
#[verifier::external_body]
fn flag_at(v: &FlagVec, i: usize) -> (r: bool)
    requires
        i < flag_items(*v).len(),
    ensures
        r == flag_items(*v)[i as int],
{
    v.items[i]
}

/// Indexing a `SmallVec` (which panics past its end): the item at `i`.
#[verifier::external_body]
fn link_at(v: &LinkVec, i: usize) -> (r: Option<usize>)
    requires
        i < link_items(*v).len(),
    ensures
        r == link_items(*v)[i as int],
{
    v.items[i]
}

/// Assigning through a mutable index of a `SmallVec`: replaces the item at
/// `i`.
#[verifier::external_body]
fn set_cost(v: &mut CostVec, i: usize, x: u32)
    requires
        i < cost_items(*old(v)).len(),
    ensures
        cost_items(*final(v)) == cost_items(*old(v)).update(i as int, x),
{
    v.items[i] = x;
}

/// Assigning through a mutable index of a `SmallVec`: replaces the item at
/// `i`.
#[verifier::external_body]
fn set_flag(v: &mut FlagVec, i: usize, x: bool)
    requires
        i < flag_items(*old(v)).len(),
    ensures
        flag_items(*final(v)) == flag_items(*old(v)).update(i as int, x),
{
    v.items[i] = x;
}

/// Assigning through a mutable index of a `SmallVec`: replaces the item at
/// `i`.
#[verifier::external_body]
fn set_link(v: &mut LinkVec, i: usize, x: Option<usize>)
    requires
        i < link_items(*old(v)).len(),
    ensures
        link_items(*final(v)) == link_items(*old(v)).update(i as int, x),
{
    v.items[i] = x;
}

/// A walk: the nodes `p` in order, and for each step the index `ks[i]` of
/// the edge of `p[i]` that leads to `p[i + 1]`.
pub open spec fn is_walk(adj: Seq<Vec<(usize, u32)>>, p: Seq<usize>, ks: Seq<int>) -> bool {
    &&& p.len() >= 1
    &&& ks.len() + 1 == p.len()
    &&& forall|i: int| 0 <= i < p.len() ==> #[trigger] p[i] < adj.len()
    &&& forall|i: int|
        0 <= i < ks.len() ==> 0 <= #[trigger] ks[i] < adj[p[i] as int]@.len() && adj[p[i] as int]@[ks[i]].0
            == p[i + 1]
}

/// The total cost of the edges of a walk.
pub open spec fn walk_cost(adj: Seq<Vec<(usize, u32)>>, p: Seq<usize>, ks: Seq<int>) -> int
    decreases ks.len(),
{
    if ks.len() == 0 {
        0
    } else {
        adj[p[0] as int]@[ks[0]].1 + walk_cost(adj, p.drop_first(), ks.drop_first())
    }
}

/// Some walk leads from `a` to `b` at a total cost below `u32::MAX`, the
/// largest cost the search can hold (it stands for "no walk").
pub open spec fn reachable(adj: Seq<Vec<(usize, u32)>>, a: usize, b: usize) -> bool {
    exists|p: Seq<usize>, ks: Seq<int>|
        #[trigger] is_walk(adj, p, ks) && p[0] == a && p.last() == b && walk_cost(adj, p, ks) < u32::MAX
}

/// Some walk of total cost `c` leads from `a` to `b`.
pub open spec fn reachable_at_cost(adj: Seq<Vec<(usize, u32)>>, a: usize, b: usize, c: int) -> bool {
    exists|p: Seq<usize>, ks: Seq<int>|
        #[trigger] is_walk(adj, p, ks) && p[0] == a && p.last() == b && walk_cost(adj, p, ks) == c
}

/// A walk costs at least nothing.
pub proof fn lemma_walk_cost_nonnegative(adj: Seq<Vec<(usize, u32)>>, p: Seq<usize>, ks: Seq<int>)
    ensures
        walk_cost(adj, p, ks) >= 0,
    decreases ks.len(),
{
    if ks.len() > 0 {
        lemma_walk_cost_nonnegative(adj, p.drop_first(), ks.drop_first());
    }
}

/// A walk without its first node is a walk.
proof fn lemma_walk_rest(adj: Seq<Vec<(usize, u32)>>, p: Seq<usize>, ks: Seq<int>)
    requires
        is_walk(adj, p, ks),
        ks.len() > 0,
    ensures
        is_walk(adj, p.drop_first(), ks.drop_first()),
        p.drop_first()[0] == p[1],
        p.drop_first().last() == p.last(),
{
    let q = p.drop_first();
    let js = ks.drop_first();
    assert forall|i: int| 0 <= i < q.len() implies #[trigger] q[i] < adj.len() by {
        assert(q[i] == p[i + 1]);
    }
    assert forall|i: int| 0 <= i < js.len() implies 0 <= #[trigger] js[i] < adj[q[i] as int]@.len()
        && adj[q[i] as int]@[js[i]].0 == q[i + 1] by {
        assert(js[i] == ks[i + 1]);
        assert(q[i] == p[i + 1]);
        assert(q[i + 1] == p[i + 2]);
    }
}

/// A walk followed by one more edge, from its last node, is a walk that
/// costs that much more.
proof fn lemma_walk_push(adj: Seq<Vec<(usize, u32)>>, p: Seq<usize>, ks: Seq<int>, k: int)
    requires
        is_walk(adj, p, ks),
        0 <= k < adj[p.last() as int]@.len(),
        adj[p.last() as int]@[k].0 < adj.len(),
    ensures
        is_walk(adj, p.push(adj[p.last() as int]@[k].0), ks.push(k)),
        walk_cost(adj, p.push(adj[p.last() as int]@[k].0), ks.push(k)) == walk_cost(adj, p, ks)
            + adj[p.last() as int]@[k].1,
    decreases ks.len(),
{
    let v = adj[p.last() as int]@[k].0;
    let q = p.push(v);
    let js = ks.push(k);
    assert forall|i: int| 0 <= i < q.len() implies #[trigger] q[i] < adj.len() by {
        if i < p.len() {
            assert(q[i] == p[i]);
        }
    }
    assert forall|i: int| 0 <= i < js.len() implies 0 <= #[trigger] js[i] < adj[q[i] as int]@.len()
        && adj[q[i] as int]@[js[i]].0 == q[i + 1] by {
        if i < ks.len() {
            assert(js[i] == ks[i]);
            assert(q[i] == p[i]);
            assert(q[i + 1] == p[i + 1]);
        } else {
            assert(q[i] == p.last());
        }
    }
    if ks.len() > 0 {
        lemma_walk_rest(adj, p, ks);
        lemma_walk_push(adj, p.drop_first(), ks.drop_first(), k);
        assert(q.drop_first() =~= p.drop_first().push(v));
        assert(js.drop_first() =~= ks.drop_first().push(k));
        assert(p.drop_first().last() == p.last());
        assert(q[0] == p[0] && js[0] == ks[0]);
        assert(walk_cost(adj, q, js) == adj[p[0] as int]@[ks[0]].1 + walk_cost(adj, q.drop_first(), js.drop_first()));
    } else {
        assert(q.drop_first() =~= seq![v]);
        assert(js.drop_first() =~= Seq::<int>::empty());
        assert(q[0] == p.last() && js[0] == k);
        assert(walk_cost(adj, q, js) == adj[p.last() as int]@[k].1 + walk_cost(adj, q.drop_first(), js.drop_first()));
    }
}

/// One edge in front of a walk that starts where the edge ends is a walk
/// that costs that much more.
proof fn lemma_walk_prepend(adj: Seq<Vec<(usize, u32)>>, u: usize, k: int, p: Seq<usize>, ks: Seq<int>)
    requires
        is_walk(adj, p, ks),
        u < adj.len(),
        0 <= k < adj[u as int]@.len(),
        adj[u as int]@[k].0 == p[0],
    ensures
        is_walk(adj, seq![u] + p, seq![k] + ks),
        walk_cost(adj, seq![u] + p, seq![k] + ks) == adj[u as int]@[k].1 + walk_cost(adj, p, ks),
        (seq![u] + p)[0] == u,
        (seq![u] + p).last() == p.last(),
{
    let q = seq![u] + p;
    let js = seq![k] + ks;
    assert forall|i: int| 0 <= i < q.len() implies #[trigger] q[i] < adj.len() by {
        if i > 0 {
            assert(q[i] == p[i - 1]);
        }
    }
    assert forall|i: int| 0 <= i < js.len() implies 0 <= #[trigger] js[i] < adj[q[i] as int]@.len()
        && adj[q[i] as int]@[js[i]].0 == q[i + 1] by {
        if i > 0 {
            assert(js[i] == ks[i - 1]);
            assert(q[i] == p[i - 1]);
            assert(q[i + 1] == p[i]);
        }
    }
    assert(q.drop_first() =~= p);
    assert(js.drop_first() =~= ks);
}

/// The number of nodes in the tree.
pub open spec fn tree_size(tree: Seq<bool>) -> nat
    decreases tree.len(),
{
    if tree.len() == 0 {
        0
    } else {
        tree_size(tree.drop_last()) + if tree.last() {
            1nat
        } else {
            0nat
        }
    }
}

proof fn lemma_tree_size_bound(tree: Seq<bool>)
    ensures
        tree_size(tree) <= tree.len(),
        tree_size(tree) == tree.len() ==> forall|v: int| 0 <= v < tree.len() ==> #[trigger] tree[v],
    decreases tree.len(),
{
    if tree.len() > 0 {
        lemma_tree_size_bound(tree.drop_last());
        if tree_size(tree) == tree.len() {
            assert forall|v: int| 0 <= v < tree.len() implies #[trigger] tree[v] by {
                if v < tree.len() - 1 {
                    assert(tree.drop_last()[v] == tree[v]);
                }
            }
        }
    }
}

proof fn lemma_tree_size_add(tree: Seq<bool>, x: int)
    requires
        0 <= x < tree.len(),
        !tree[x],
    ensures
        tree_size(tree.update(x, true)) == tree_size(tree) + 1,
    decreases tree.len(),
{
    let t2 = tree.update(x, true);
    if x == tree.len() - 1 {
        assert(t2.drop_last() =~= tree.drop_last());
    } else {
        assert(t2.drop_last() =~= tree.drop_last().update(x, true));
        lemma_tree_size_add(tree.drop_last(), x);
    }
}

/// The edges of `u` before the `e`-th are relaxed: their ends cost at most
/// the cost of `u` and the edge.
pub open spec fn relaxed_edges(adj: Seq<Vec<(usize, u32)>>, costs: Seq<u32>, u: int, e: int) -> bool {
    forall|k: int|
        0 <= k < e && (#[trigger] adj[u]@[k]).0 < adj.len() ==> costs[adj[u]@[k].0 as int] <= costs[u]
            + adj[u]@[k].1
}

/// Every edge of every node of the tree is relaxed.
pub open spec fn tree_relaxed(adj: Seq<Vec<(usize, u32)>>, costs: Seq<u32>, tree: Seq<bool>) -> bool {
    forall|u: int|
        0 <= u < adj.len() && #[trigger] tree[u] ==> relaxed_edges(adj, costs, u, adj[u]@.len() as int)
}

/// What holds of the search between its steps: `costs[v]` is the cost of
/// the cheapest walk found to `v` (`u32::MAX` for none yet), `prev[v]` the
/// node before `v` on it and `via[v]` the edge taken from there, `tree`
/// the nodes whose cost is final, `order` the step at which each entered
/// the tree, and `t` the number of tree nodes.
pub open spec fn search_state(
    adj: Seq<Vec<(usize, u32)>>,
    start: usize,
    end: usize,
    costs: Seq<u32>,
    tree: Seq<bool>,
    prev: Seq<Option<usize>>,
    order: Seq<nat>,
    via: Seq<int>,
    t: nat,
) -> bool {
    let n = adj.len();
    &&& costs.len() == n && tree.len() == n && prev.len() == n && order.len() == n && via.len() == n
    &&& start < n && end < n
    &&& costs[start as int] == 0
    &&& prev[start as int] is None
    &&& t == tree_size(tree)
    &&& forall|v: int| 0 <= v < n && #[trigger] tree[v] ==> order[v] < t && costs[v] != u32::MAX
    &&& tree[start as int] ==> order[start as int] == 0
    &&& forall|v: int| 0 <= v < n && #[trigger] tree[v] && v != start ==> order[v] >= 1
    &&& (t == 0 ==> forall|v: int| 0 <= v < n ==> !#[trigger] tree[v])
    &&& (t > 0 ==> tree[start as int])
    &&& (tree[end as int] ==> end == start)
    &&& forall|v: int|
        0 <= v < n && #[trigger] prev[v] is Some ==> {
            let u = prev[v]->0 as int;
            &&& u < n
            &&& tree[u]
            &&& 0 <= via[v] < adj[u]@.len()
            &&& adj[u]@[via[v]].0 == v
            &&& costs[v] == costs[u] + adj[u]@[via[v]].1
            &&& (tree[v] ==> order[u] < order[v])
        }
    &&& forall|v: int| 0 <= v < n && v != start && #[trigger] costs[v] != u32::MAX ==> prev[v] is Some
    &&& forall|u: int, v: int| 0 <= u < n && 0 <= v < n && #[trigger] tree[u] && !#[trigger] tree[v] ==> costs[u] <= costs[v]
    &&& forall|v: int|
        0 <= v < n && #[trigger] costs[v] != u32::MAX ==> reachable_at_cost(adj, start, v as usize, costs[v] as int)
}

/// A walk from a tree node to a node outside the tree costs, with the cost
/// of its first node, at least the least cost outside the tree.
proof fn lemma_leaving_tree(
    adj: Seq<Vec<(usize, u32)>>,
    costs: Seq<u32>,
    tree: Seq<bool>,
    p: Seq<usize>,
    ks: Seq<int>,
    m: int,
)
    requires
        costs.len() == adj.len(),
        tree.len() == adj.len(),
        is_walk(adj, p, ks),
        tree[p[0] as int],
        !tree[p.last() as int],
        tree_relaxed(adj, costs, tree),
        forall|v: int| 0 <= v < adj.len() && !#[trigger] tree[v] ==> m <= costs[v],
    ensures
        costs[p[0] as int] + walk_cost(adj, p, ks) >= m,
    decreases ks.len(),
{
    let u = p[0] as int;
    let v = p[1] as int;
    let k = ks[0];
    assert(relaxed_edges(adj, costs, u, adj[u]@.len() as int));
    assert(adj[u]@[k].0 == v);
    assert(costs[v] <= costs[u] + adj[u]@[k].1);
    lemma_walk_rest(adj, p, ks);
    lemma_walk_cost_nonnegative(adj, p.drop_first(), ks.drop_first());
    if tree[v] {
        lemma_leaving_tree(adj, costs, tree, p.drop_first(), ks.drop_first(), m);
    }
}

/// Taking the candidate `node` into the tree keeps the state of the search.
proof fn lemma_enter_tree(
    adj: Seq<Vec<(usize, u32)>>,
    start: usize,
    end: usize,
    costs: Seq<u32>,
    tree: Seq<bool>,
    prev: Seq<Option<usize>>,
    order: Seq<nat>,
    via: Seq<int>,
    t: nat,
    node: usize,
)
    requires
        search_state(adj, start, end, costs, tree, prev, order, via, t),
        node < adj.len(),
        !tree[node as int],
        costs[node as int] != u32::MAX,
        forall|v: int| 0 <= v < adj.len() && !#[trigger] tree[v] ==> costs[node as int] <= costs[v],
        t == 0 ==> node == start,
        node == end ==> node == start,
    ensures
        search_state(adj, start, end, costs, tree.update(node as int, true), prev, order.update(node as int, t), via, t + 1),
        t + 1 <= adj.len(),
        forall|u: int| 0 <= u < adj.len() && #[trigger] tree.update(node as int, true)[u] ==> costs[u] <= costs[node as int],
{
    let n = adj.len();
    let tree2 = tree.update(node as int, true);
    let order2 = order.update(node as int, t);
    lemma_tree_size_add(tree, node as int);
    lemma_tree_size_bound(tree2);
    lemma_tree_size_bound(tree);
    assert forall|v: int| 0 <= v < n && #[trigger] tree2[v] implies order2[v] < t + 1 && costs[v] != u32::MAX by {
        if v != node {
            assert(tree[v]);
        }
    }
    if t > 0 {
        assert(tree[start as int]);
    }
    assert forall|v: int|
        0 <= v < n && #[trigger] prev[v] is Some implies {
            let u = prev[v]->0 as int;
            &&& u < n
            &&& tree2[u]
            &&& 0 <= via[v] < adj[u]@.len()
            &&& adj[u]@[via[v]].0 == v
            &&& costs[v] == costs[u] + adj[u]@[via[v]].1
            &&& (tree2[v] ==> order2[u] < order2[v])
        } by {
        let u = prev[v]->0 as int;
        assert(tree[u]);
        assert(u != node);
    }
    assert forall|u: int, v: int| 0 <= u < n && 0 <= v < n && #[trigger] tree2[u] && !#[trigger] tree2[v] implies costs[u] <= costs[v] by {
        if u != node {
            assert(tree[u] && !tree[v]);
        }
    }
    assert forall|u: int| 0 <= u < n && #[trigger] tree2[u] implies costs[u] <= costs[node as int] by {
        if u != node {
            assert(tree[u] && !tree[node as int]);
        }
    }
}

/// Lowering the cost of the end of an edge of the newest tree node `node`
/// to the cost through that edge keeps the state of the search, and keeps
/// every edge that was relaxed relaxed.
proof fn lemma_relax(
    adj: Seq<Vec<(usize, u32)>>,
    start: usize,
    end: usize,
    costs: Seq<u32>,
    tree: Seq<bool>,
    prev: Seq<Option<usize>>,
    order: Seq<nat>,
    via: Seq<int>,
    t: nat,
    node: usize,
    e: int,
    w: u32,
)
    requires
        search_state(adj, start, end, costs, tree, prev, order, via, t),
        node < adj.len(),
        tree[node as int],
        0 <= e < adj[node as int]@.len(),
        adj[node as int]@[e].0 < adj.len(),
        w == costs[node as int] + adj[node as int]@[e].1,
        costs[adj[node as int]@[e].0 as int] > w,
        forall|u: int| 0 <= u < adj.len() && #[trigger] tree[u] ==> costs[u] <= costs[node as int],
    ensures
        ({
            let to = adj[node as int]@[e].0 as int;
            &&& !tree[to]
            &&& search_state(adj, start, end, costs.update(to, w), tree, prev.update(to, Some(node)), order, via.update(to, e), t)
            &&& forall|u: int, x: int|
                0 <= u < adj.len() && tree[u] && #[trigger] relaxed_edges(adj, costs, u, x) ==> relaxed_edges(
                    adj,
                    costs.update(to, w),
                    u,
                    x,
                )
        }),
{
    let n = adj.len();
    let to = adj[node as int]@[e].0 as int;
    let costs2 = costs.update(to, w);
    let prev2 = prev.update(to, Some(node));
    let via2 = via.update(to, e);
    assert(!tree[to]) by {
        if tree[to] {
            assert(costs[to] <= costs[node as int]);
        }
    }
    assert(to != start);
    assert(costs[node as int] != u32::MAX);
    let (p, ks) = choose|p: Seq<usize>, ks: Seq<int>|
        #[trigger] is_walk(adj, p, ks) && p[0] == start && p.last() == node && walk_cost(adj, p, ks) == costs[node as int];
    assert(reachable_at_cost(adj, start, node, costs[node as int] as int));
    lemma_walk_push(adj, p, ks, e);
    assert(reachable_at_cost(adj, start, to as usize, w as int)) by {
        assert(p.push(to as usize)[0] == start);
    }
    assert forall|v: int|
        0 <= v < n && #[trigger] costs2[v] != u32::MAX implies reachable_at_cost(adj, start, v as usize, costs2[v] as int) by {
        if v != to {
            assert(costs[v] != u32::MAX);
        }
    }
    assert forall|v: int|
        0 <= v < n && #[trigger] prev2[v] is Some implies {
            let u = prev2[v]->0 as int;
            &&& u < n
            &&& tree[u]
            &&& 0 <= via2[v] < adj[u]@.len()
            &&& adj[u]@[via2[v]].0 == v
            &&& costs2[v] == costs2[u] + adj[u]@[via2[v]].1
            &&& (tree[v] ==> order[u] < order[v])
        } by {
        if v != to {
            assert(prev[v] is Some);
            let u = prev[v]->0 as int;
            assert(tree[u]);
            assert(u != to);
        }
    }
    assert forall|v: int| 0 <= v < n && v != start && #[trigger] costs2[v] != u32::MAX implies prev2[v] is Some by {
        if v != to {
            assert(costs[v] != u32::MAX);
        }
    }
    assert forall|u: int, v: int| 0 <= u < n && 0 <= v < n && #[trigger] tree[u] && !#[trigger] tree[v] implies costs2[u] <= costs2[v] by {
        assert(u != to);
    }
    assert forall|v: int| 0 <= v < n && #[trigger] tree[v] implies order[v] < t && costs2[v] != u32::MAX by {
        assert(v != to);
    }
    assert forall|u: int, x: int|
        0 <= u < n && tree[u] && #[trigger] relaxed_edges(adj, costs, u, x) implies relaxed_edges(adj, costs2, u, x) by {
        assert(u != to);
    }
}

/// The cheapest walk from `start` to `end` and its cost, by Dijkstra's
/// algorithm: nodes enter a tree in order of their cost; when a node enters,
/// the edges that leave it are relaxed; the next node to enter is the
/// first, by index, of those outside the tree of least cost below
/// `u32::MAX`; the search ends when that node is `end`, and the walk is read
/// back from `end` by the node before each.
///
/// Costs are added up exactly; a sum that would not fit a `u32` is not
/// taken, and the cost `u32::MAX` stands for "not reached", so a node counts
/// as reachable when some walk reaches it at a cost below `u32::MAX`.
///
/// A walk is found when `end` can be reached from `start`, except that for
/// `start == end` the one-node walk is given only when no other node can be
/// reached from `start`. The walk found is a cheapest one.
pub fn shortest_path(adjacency: &Vec<Vec<(usize, u32)>>, start: usize, end: usize) -> (r: Option<(u32, Vec<usize>)>)
    requires
        start < adjacency@.len(),
        end < adjacency@.len(),
    ensures
        r is Some <==> (start != end && reachable(adjacency@, start, end)) || (start == end && forall|v: usize|
            v != start ==> !#[trigger] reachable(adjacency@, start, v)),
        r matches Some((c, path)) ==> path@[0] == start && path@.last() == end && exists|ks: Seq<int>|
            #[trigger] is_walk(adjacency@, path@, ks) && walk_cost(adjacency@, path@, ks) == c,
        r matches Some((c, path)) ==> forall|p: Seq<usize>, ks: Seq<int>|
            #[trigger] is_walk(adjacency@, p, ks) && p[0] == start && p.last() == end ==> c <= walk_cost(
                adjacency@,
                p,
                ks,
            ),
{
    let ghost adj = adjacency@;
    let n = adjacency.len();
    let mut prev = links_filled(None, n);
    let mut in_tree = flags_filled(false, n);
    let mut costs = costs_filled(u32::MAX, n);
    set_cost(&mut costs, start, 0);
    let mut node = start;
    let ghost mut order: Seq<nat> = Seq::new(n as nat, |i: int| 0nat);
    let ghost mut via: Seq<int> = Seq::new(n as nat, |i: int| 0int);
    let ghost mut t: nat = 0;
    proof {
        let f = flag_items(in_tree);
        assert(tree_size(f) == 0) by {
            lemma_tree_size_zero(f);
        }
        assert(is_walk(adj, seq![start], Seq::<int>::empty()));
        assert(walk_cost(adj, seq![start], Seq::<int>::empty()) == 0);
        assert(reachable_at_cost(adj, start, start, 0));
    }
    while !flag_at(&in_tree, node)
        invariant
            adj == adjacency@,
            n == adj.len(),
            search_state(adj, start, end, cost_items(costs), flag_items(in_tree), link_items(prev), order, via, t),
            tree_relaxed(adj, cost_items(costs), flag_items(in_tree)),
            node < n,
            !flag_items(in_tree)[node as int] ==> cost_items(costs)[node as int] != u32::MAX && (forall|v: int|
                0 <= v < n && !#[trigger] flag_items(in_tree)[v] ==> cost_items(costs)[node as int]
                    <= cost_items(costs)[v]) && (node == end ==> node == start),
            flag_items(in_tree)[node as int] ==> node != end && forall|v: int|
                0 <= v < n && !#[trigger] flag_items(in_tree)[v] ==> cost_items(costs)[v] == u32::MAX,
            t == 0 ==> node == start,
        decreases n - t,
    {
        proof {
            lemma_enter_tree(adj, start, end, cost_items(costs), flag_items(in_tree), link_items(prev), order, via, t, node);
        }
        let ghost t_before = t;
        set_flag(&mut in_tree, node, true);
        proof {
            order = order.update(node as int, t);
            t = t + 1;
            lemma_tree_size_bound(flag_items(in_tree));
        }
        let edges = &adjacency[node];
        let m = edges.len();
        let mut e: usize = 0;
        while e < m
            invariant
                adj == adjacency@,
                n == adj.len(),
                node < n,
                edges@ == adj[node as int]@,
                m == edges@.len(),
                e <= m,
                flag_items(in_tree)[node as int],
                1 <= t <= n,
                t == t_before + 1,
                search_state(adj, start, end, cost_items(costs), flag_items(in_tree), link_items(prev), order, via, t),
                forall|u: int|
                    0 <= u < n && #[trigger] flag_items(in_tree)[u] && u != node ==> relaxed_edges(
                        adj,
                        cost_items(costs),
                        u,
                        adj[u]@.len() as int,
                    ),
                relaxed_edges(adj, cost_items(costs), node as int, e as int),
                forall|u: int| 0 <= u < n && #[trigger] flag_items(in_tree)[u] ==> cost_items(costs)[u] <= cost_items(costs)[node as int],
            decreases m - e,
        {
            let (to, dist) = edges[e];
            if to < n {
                let base = cost_at(&costs, node);
                proof {
                    assert(adj[node as int]@[e as int] == (to, dist));
                }
                match base.checked_add(dist) {
                    Some(w) => {
                if cost_at(&costs, to) > w {
                    let ghost c0 = cost_items(costs);
                    proof {
                        lemma_relax(adj, start, end, c0, flag_items(in_tree), link_items(prev), order, via, t, node, e as int, w);
                    }
                    set_cost(&mut costs, to, w);
                    set_link(&mut prev, to, Some(node));
                    proof {
                        via = via.update(to as int, e as int);
                        assert(relaxed_edges(adj, c0, node as int, e as int));
                        assert forall|u: int|
                            0 <= u < n && #[trigger] flag_items(in_tree)[u] && u != node implies relaxed_edges(
                            adj,
                            cost_items(costs),
                            u,
                            adj[u]@.len() as int,
                        ) by {
                            assert(relaxed_edges(adj, c0, u, adj[u]@.len() as int));
                        }
                    }
                }
                    },
                    None => {},
                }
            }
            proof {
                let c = cost_items(costs);
                assert forall|k: int|
                    0 <= k < e + 1 && (#[trigger] adj[node as int]@[k]).0 < adj.len() implies c[adj[node as int]@[k].0 as int]
                    <= c[node as int] + adj[node as int]@[k].1 by {
                    if k < e {
                        assert(relaxed_edges(adj, c, node as int, e as int));
                    }
                }
            }
            e += 1;
        }
        let ghost added = node;
        let mut d: u32 = u32::MAX;
        let mut i: usize = 0;
        while i < n
            invariant
                adj == adjacency@,
                n == adj.len(),
                search_state(adj, start, end, cost_items(costs), flag_items(in_tree), link_items(prev), order, via, t),
                added < n,
                flag_items(in_tree)[added as int],
                i <= n,
                d == u32::MAX ==> node == added && forall|j: int|
                    0 <= j < i && !#[trigger] flag_items(in_tree)[j] ==> cost_items(costs)[j] == u32::MAX,
                d != u32::MAX ==> node < n && !flag_items(in_tree)[node as int] && cost_items(costs)[node as int] == d
                    && forall|j: int| 0 <= j < i && !#[trigger] flag_items(in_tree)[j] ==> d <= cost_items(costs)[j],
            decreases n - i,
        {
            if !flag_at(&in_tree, i) && d > cost_at(&costs, i) {
                d = cost_at(&costs, i);
                node = i;
            }
            i += 1;
        }
        if node == end {
            let ghost c = cost_items(costs);
            let ghost tree = flag_items(in_tree);
            let ghost links = link_items(prev);
            let (path, Ghost(gk)) = read_back_walk(&prev, start, end, Ghost(adj), Ghost(c), Ghost(tree), Ghost(order), Ghost(via), Ghost(t));
            proof {
                lemma_found(adj, start, end, c, tree, links, order, via, t);
            }
            return Some((cost_at(&costs, end), path));
        }
    }
    proof {
        lemma_exhausted(adj, start, end, cost_items(costs), flag_items(in_tree), link_items(prev), order, via, t, node);
    }
    None
}

/// The walk to `end` read back by the node before each, from `end` to
/// `start`, and the edges it takes.
fn read_back_walk(
    prev: &LinkVec,
    start: usize,
    end: usize,
    Ghost(adj): Ghost<Seq<Vec<(usize, u32)>>>,
    Ghost(c): Ghost<Seq<u32>>,
    Ghost(tree): Ghost<Seq<bool>>,
    Ghost(order): Ghost<Seq<nat>>,
    Ghost(via): Ghost<Seq<int>>,
    Ghost(t): Ghost<nat>,
) -> (r: (Vec<usize>, Ghost<Seq<int>>))
    requires
        search_state(adj, start, end, c, tree, link_items(*prev), order, via, t),
        c[end as int] != u32::MAX,
    ensures
        is_walk(adj, r.0@, r.1@),
        r.0@[0] == start,
        r.0@.last() == end,
        walk_cost(adj, r.0@, r.1@) == c[end as int],
{
    let ghost n = adj.len();
    let ghost links = link_items(*prev);
    let mut rev: Vec<usize> = Vec::new();
    rev.push(end);
    let mut at = end;
    let ghost mut gp: Seq<usize> = seq![end];
    let ghost mut gk: Seq<int> = Seq::empty();
    proof {
        assert(is_walk(adj, gp, gk));
    }
    loop
        invariant
            n == adj.len(),
            search_state(adj, start, end, c, tree, links, order, via, t),
            links == link_items(*prev),
            at < n,
            c[end as int] != u32::MAX,
            at == end || tree[at as int],
            is_walk(adj, gp, gk),
            gp[0] == at,
            gp.last() == end,
            c[at as int] + walk_cost(adj, gp, gk) == c[end as int],
            rev@.len() == gp.len(),
            forall|j: int| 0 <= j < gp.len() ==> rev@[j] == #[trigger] gp[gp.len() - 1 - j],
        ensures
            at == start,
            is_walk(adj, gp, gk),
            gp[0] == at,
            gp.last() == end,
            c[at as int] + walk_cost(adj, gp, gk) == c[end as int],
            rev@.len() == gp.len(),
            forall|j: int| 0 <= j < gp.len() ==> rev@[j] == #[trigger] gp[gp.len() - 1 - j],
        decreases (if tree[at as int] {
            order[at as int] as int
        } else {
            t as int
        }),
    {
        match link_at(prev, at) {
            Some(p) => {
                let ghost k = via[at as int];
                proof {
                    lemma_walk_prepend(adj, p, k, gp, gk);
                    let gp2 = seq![p] + gp;
                    assert forall|j: int| 0 <= j < gp2.len() implies rev@.push(p)[j] == #[trigger] gp2[gp2.len()
                        - 1 - j] by {
                        if j < gp.len() {
                            assert(gp2[gp2.len() - 1 - j] == gp[gp.len() - 1 - j]);
                        }
                    }
                    gp = gp2;
                    gk = seq![k] + gk;
                }
                rev.push(p);
                at = p;
                if p == start {
                    break;
                }
            },
            None => {
                break;
            },
        }
    }
    let mut path: Vec<usize> = Vec::new();
    let mut j = rev.len();
    while j > 0
        invariant
            j <= rev@.len(),
            rev@.len() == gp.len(),
            path@.len() == rev@.len() - j,
            forall|q: int| 0 <= q < path@.len() ==> path@[q] == #[trigger] gp[q],
            forall|q: int| 0 <= q < gp.len() ==> rev@[q] == #[trigger] gp[gp.len() - 1 - q],
        decreases j,
    {
        j -= 1;
        proof {
            assert(rev@[j as int] == gp[gp.len() - 1 - j]);
        }
        path.push(rev[j]);
    }
    proof {
        assert(path@ =~= gp);
    }
    (path, Ghost(gk))
}

proof fn lemma_tree_size_zero(tree: Seq<bool>)
    requires
        forall|v: int| 0 <= v < tree.len() ==> !#[trigger] tree[v],
    ensures
        tree_size(tree) == 0,
    decreases tree.len(),
{
    if tree.len() > 0 {
        assert forall|v: int| 0 <= v < tree.drop_last().len() implies !#[trigger] tree.drop_last()[v] by {
            assert(tree.drop_last()[v] == tree[v]);
        }
        lemma_tree_size_zero(tree.drop_last());
    }
}

/// When `end` is the next node to enter the tree, or is `start` and no
/// other node can enter, the search has found what it owes.
proof fn lemma_found(
    adj: Seq<Vec<(usize, u32)>>,
    start: usize,
    end: usize,
    c: Seq<u32>,
    tree: Seq<bool>,
    links: Seq<Option<usize>>,
    order: Seq<nat>,
    via: Seq<int>,
    t: nat,
)
    requires
        search_state(adj, start, end, c, tree, links, order, via, t),
        tree_relaxed(adj, c, tree),
        t >= 1,
        !tree[end as int] ==> c[end as int] != u32::MAX && forall|v: int|
            0 <= v < adj.len() && !#[trigger] tree[v] ==> c[end as int] <= c[v],
        tree[end as int] ==> t == 1 && forall|v: int| 0 <= v < adj.len() && !#[trigger] tree[v] ==> c[v] == u32::MAX,
    ensures
        (start != end && reachable(adj, start, end)) || (start == end && forall|v: usize|
            v != start ==> !#[trigger] reachable(adj, start, v)),
        forall|p: Seq<usize>, ks: Seq<int>|
            #[trigger] is_walk(adj, p, ks) && p[0] == start && p.last() == end ==> c[end as int] <= walk_cost(adj, p, ks),
{
    let n = adj.len();
    lemma_tree_size_bound(tree);
    if !tree[end as int] {
        assert forall|p: Seq<usize>, ks: Seq<int>|
            #[trigger] is_walk(adj, p, ks) && p[0] == start && p.last() == end implies c[end as int] <= walk_cost(
            adj,
            p,
            ks,
        ) by {
            lemma_leaving_tree(adj, c, tree, p, ks, c[end as int] as int);
        }
        assert(reachable_at_cost(adj, start, end, c[end as int] as int));
        let (p, ks) = choose|p: Seq<usize>, ks: Seq<int>|
            #[trigger] is_walk(adj, p, ks) && p[0] == start && p.last() == end && walk_cost(adj, p, ks) == c[end as int];
        assert(reachable(adj, start, end));
    } else {
        assert forall|p: Seq<usize>, ks: Seq<int>|
            #[trigger] is_walk(adj, p, ks) && p[0] == start && p.last() == end implies c[end as int] <= walk_cost(
            adj,
            p,
            ks,
        ) by {
            lemma_walk_cost_nonnegative(adj, p, ks);
        }
        assert forall|v: usize| v != start implies !#[trigger] reachable(adj, start, v) by {
            if reachable(adj, start, v) {
                let (p, ks) = choose|p: Seq<usize>, ks: Seq<int>|
                    #[trigger] is_walk(adj, p, ks) && p[0] == start && p.last() == v && walk_cost(adj, p, ks) < u32::MAX;
                assert(!tree[v as int]) by {
                    if tree[v as int] {
                        assert(order[v as int] >= 1);
                    }
                }
                lemma_leaving_tree(adj, c, tree, p, ks, u32::MAX as int);
            }
        }
    }
}

/// When no node outside the tree can enter it and `end` has not been found,
/// the search owes nothing.
proof fn lemma_exhausted(
    adj: Seq<Vec<(usize, u32)>>,
    start: usize,
    end: usize,
    c: Seq<u32>,
    tree: Seq<bool>,
    links: Seq<Option<usize>>,
    order: Seq<nat>,
    via: Seq<int>,
    t: nat,
    node: usize,
)
    requires
        search_state(adj, start, end, c, tree, links, order, via, t),
        tree_relaxed(adj, c, tree),
        node < adj.len(),
        tree[node as int],
        node != end,
        forall|v: int| 0 <= v < adj.len() && !#[trigger] tree[v] ==> c[v] == u32::MAX,
    ensures
        !((start != end && reachable(adj, start, end)) || (start == end && forall|v: usize|
            v != start ==> !#[trigger] reachable(adj, start, v))),
{
    let n = adj.len();
    assert(t > 0);
    lemma_tree_size_bound(tree);
    if start != end {
        assert forall|p: Seq<usize>, ks: Seq<int>|
            #[trigger] is_walk(adj, p, ks) && p[0] == start && p.last() == end implies walk_cost(adj, p, ks) >= u32::MAX by {
            lemma_leaving_tree(adj, c, tree, p, ks, u32::MAX as int);
        }
    } else {
        assert(reachable_at_cost(adj, start, node, c[node as int] as int));
        let (p, ks) = choose|p: Seq<usize>, ks: Seq<int>|
            #[trigger] is_walk(adj, p, ks) && p[0] == start && p.last() == node && walk_cost(adj, p, ks) == c[node as int];
        assert(reachable(adj, start, node));
    }
}

} // verus!
