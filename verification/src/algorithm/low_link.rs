//! Articulation points and bridges of an undirected graph (the low-link
//! method).
//!
//! - DFS tree: starting from a vertex `v`, a depth-first search visits each
//!   vertex at most once; the edges it follows form a rooted tree with root
//!   `v` (a forest when the search restarts from unvisited vertices).
//! - Back edge: an edge `(u, w)` of the graph that is not in the DFS tree.
//! - `ord[v]`: the order in which `v` was visited.
//! - `low[v]`: the least `ord` reachable from `v` by going down the DFS tree
//!   and then following at most one back edge.
use vstd::prelude::*;
use fixedbitset::FixedBitSet;

verus! {

/// fixedbitset's `FixedBitSet`: a fixed-size set of bit indices.
#[verifier::external_type_specification]
#[verifier::external_body]
pub struct ExFixedBitSet(FixedBitSet);

/// The indices of the bits that are set in a `FixedBitSet`.
pub uninterp spec fn bitset_bits(b: FixedBitSet) -> Set<usize>;

/// The number of bits a `FixedBitSet` was made with.
pub uninterp spec fn bitset_len(b: FixedBitSet) -> nat;

/// `FixedBitSet::with_capacity`: a set of `bits` bits, none of them set.
#[verifier::external_body]
pub(crate) fn bitset_with_capacity(bits: usize) -> (r: FixedBitSet)
    ensures
        bitset_bits(r) == Set::<usize>::empty(),
        bitset_len(r) == bits,
{
    FixedBitSet::with_capacity(bits)
}

/// `FixedBitSet::clear`: unsets every bit; the length does not change.
#[verifier::external_body]
pub(crate) fn bitset_clear(b: &mut FixedBitSet)
    ensures
        bitset_bits(*final(b)) == Set::<usize>::empty(),
        bitset_len(*final(b)) == bitset_len(*old(b)),
{
    b.clear();
}

/// `FixedBitSet::grow`: lengthens the set to `bits` bits when it is
/// shorter, the new bits unset; no bit changes.
#[verifier::external_body]
pub(crate) fn bitset_grow(b: &mut FixedBitSet, bits: usize)
    ensures
        bitset_bits(*final(b)) == bitset_bits(*old(b)),
        bitset_len(*final(b)) == if bits > bitset_len(*old(b)) {
            bits as nat
        } else {
            bitset_len(*old(b))
        },
{
    b.grow(bits);
}

/// `FixedBitSet::insert`: sets bit `bit`, which must be below the length
/// (the method panics otherwise); the length does not change.
#[verifier::external_body]
fn bitset_insert(b: &mut FixedBitSet, bit: usize)
    requires
        bit < bitset_len(*old(b)),
    ensures
        bitset_bits(*final(b)) == bitset_bits(*old(b)).insert(bit),
        bitset_len(*final(b)) == bitset_len(*old(b)),
{
    b.insert(bit);
}

/// `FixedBitSet::contains`: whether bit `bit` is set.
#[verifier::external_body]
fn bitset_contains(b: &FixedBitSet, bit: usize) -> (r: bool)
    ensures
        r == bitset_bits(*b).contains(bit),
{
    b.contains(bit)
}

/// Every neighbor listed in the adjacency lists is a node below `n`.
pub open spec fn graph_wf(adj: Seq<Vec<usize>>, n: nat) -> bool {
    &&& adj.len() == n
    &&& forall|v: int, i: int| 0 <= v < n && 0 <= i < adj[v]@.len() ==> #[trigger] adj[v]@[i] < n
}

/// A bridge is reported with the smaller node index first.
pub open spec fn ordered_pair(a: usize, b: usize) -> (usize, usize) {
    if a < b {
        (a, b)
    } else {
        (b, a)
    }
}

/// A set of nodes below `n` is finite and has at most `n` members.
pub proof fn lemma_visited_bound(vis: Set<usize>, n: nat)
    requires
        forall|x: usize| vis.contains(x) ==> x < n,
    ensures
        vis.finite(),
        vis.len() <= n,
{
    let range = Set::new(|i: usize| 0 <= i < n);
    if n <= usize::MAX {
        <usize as vstd::set_lib::FiniteRange>::range_properties(0, n as usize);
        assert(<usize as vstd::set_lib::FiniteRange>::range_set(0, n as usize) =~= range);
    } else {
        assert(range =~= Set::<usize>::full());
        <usize as vstd::set_lib::FiniteFull>::full_properties();
        <usize as vstd::set_lib::FiniteRange>::range_properties(0, usize::MAX);
        assert(Set::<usize>::full() =~= <usize as vstd::set_lib::FiniteRange>::range_set(0, usize::MAX).insert(usize::MAX));
    }
    assert(vis.subset_of(range));
    vstd::set_lib::lemma_len_subset(vis, range);
}

/// The state of a depth-first search for articulation points and bridges.
pub struct LowLink {
    used: FixedBitSet,
    ord: Vec<usize>,
    low: Vec<usize>,
    pub articulations: Vec<usize>,
    pub bridges: Vec<(usize, usize)>,
    trees: usize,
    parent: Ghost<Map<usize, Option<usize>>>,
    kids: Ghost<Map<usize, Seq<usize>>>,
    finished: Ghost<Set<usize>>,
    end: Ghost<Map<usize, usize>>,
    kpos: Ghost<Map<usize, Seq<int>>>,
    roots: Ghost<Seq<usize>>,
    rpos: Ghost<Seq<int>>,
}

impl LowLink {
    /// The number of nodes the search was made for.
    pub closed spec fn node_bound(self) -> nat {
        self.ord@.len()
    }

    /// The articulation points found, in the order their search completed.
    pub closed spec fn spec_articulations(self) -> Seq<usize> {
        self.articulations@
    }

    /// The bridges found, in the order they were judged.
    pub closed spec fn spec_bridges(self) -> Seq<(usize, usize)> {
        self.bridges@
    }

    /// The visited nodes.
    pub closed spec fn visited(self) -> Set<usize> {
        bitset_bits(self.used)
    }

    /// The nodes whose search has completed.
    pub closed spec fn done(self) -> Set<usize> {
        self.finished@
    }

    /// `ord` of each visited node.
    pub closed spec fn ord_of(self, v: usize) -> usize {
        self.ord@[v as int]
    }

    /// The number that follows the last one given out while searching below
    /// a completed node: the numbers `ord_of(v) .. end_of(v)` are those of
    /// `v` and of the nodes of its subtree.
    pub closed spec fn end_of(self, v: usize) -> usize {
        self.end@[v]
    }

    /// The positions in `x`'s neighbor list at which its children were found.
    pub closed spec fn kpos_of(self, v: usize) -> Seq<int> {
        self.kpos@[v]
    }

    /// The positions in the list of start nodes at which the roots were
    /// found.
    pub closed spec fn spec_root_pos(self) -> Seq<int> {
        self.rpos@
    }

    /// The next free number when the scan of `x`'s neighbors had found `m`
    /// children: right after `x`, or where the `m`-th child's subtree ends.
    pub open spec fn scan_start(self, x: usize, m: int) -> int {
        if m == 0 {
            self.ord_of(x) + 1
        } else {
            self.end_of(self.kids_of(x)[m - 1]) as int
        }
    }

    /// The scan of the first `upto` neighbors of `x`, in list order, found
    /// the children of `x` at increasing positions, and every other neighbor
    /// it met had already been numbered, below the next free number at that
    /// point of the scan: it was taken as a child exactly when it was new.
    pub open spec fn scan_order(self, adj: Seq<Vec<usize>>, x: usize, upto: int) -> bool {
        let ks = self.kids_of(x);
        let ps = self.kpos_of(x);
        let nb = adj[x as int]@;
        &&& ps.len() == ks.len()
        &&& forall|m: int| 0 <= m < ps.len() ==> 0 <= #[trigger] ps[m] < upto && nb[ps[m]] == ks[m]
        &&& forall|m: int, m2: int| #![trigger ps[m], ps[m2]] 0 <= m < m2 < ps.len() ==> ps[m] < ps[m2]
        &&& forall|i: int, m: int|
            #![trigger nb[i], self.scan_start(x, m)]
            0 <= i < upto && 0 <= m <= ps.len() && (m == 0 || ps[m - 1] < i) && (m == ps.len()
                || i < ps[m]) ==> self.ord_of(nb[i]) < self.scan_start(x, m)
    }

    /// `a`'s search completed before `b`'s: its subtree ends first, or they
    /// end together and `a` lies below `b`.
    pub open spec fn finishes_before(self, a: usize, b: usize) -> bool {
        ||| self.end_of(a) < self.end_of(b)
        ||| (self.end_of(a) == self.end_of(b) && self.ord_of(b) < self.ord_of(a))
    }

    /// The child end of a tree edge: the end numbered later.
    pub open spec fn bridge_child(self, b: (usize, usize)) -> usize {
        if self.ord_of(b.0) < self.ord_of(b.1) {
            b.1
        } else {
            b.0
        }
    }

    /// The articulation points are listed in the order their searches
    /// completed, and the bridges in the order the searches of their child
    /// ends completed.
    #[verifier::opaque]
    pub open spec fn finish_order(self) -> bool {
        let arts = self.spec_articulations();
        let brs = self.spec_bridges();
        &&& forall|i: int, j: int|
            #![trigger arts[i], arts[j]]
            0 <= i < j < arts.len() ==> self.finishes_before(arts[i], arts[j])
        &&& forall|i: int, j: int|
            #![trigger brs[i], brs[j]]
            0 <= i < j < brs.len() ==> self.finishes_before(
                self.bridge_child(brs[i]),
                self.bridge_child(brs[j]),
            )
    }

    /// The roots of the DFS trees, in the order their searches started.
    pub closed spec fn spec_roots(self) -> Seq<usize> {
        self.roots@
    }

    /// The children of `x` number their subtrees one after another, right
    /// after `x` itself, and `x`'s subtree ends where its last child's ends.
    pub open spec fn kids_chain(self, x: usize) -> bool {
        let ks = self.kids_of(x);
        &&& ks.len() == 0 ==> self.end_of(x) == self.ord_of(x) + 1
        &&& ks.len() > 0 ==> self.ord_of(ks[0]) == self.ord_of(x) + 1 && self.end_of(x)
            == self.end_of(ks.last())
        &&& forall|i: int, j: int|
            #![trigger ks[i], ks[j]]
            0 <= i && j == i + 1 && j < ks.len() ==> self.ord_of(ks[j]) == self.end_of(ks[i])
    }

    /// The completed part of the search is a depth-first forest: distinct
    /// nodes have distinct numbers, each completed node's subtree takes the
    /// numbers `ord_of(x) .. end_of(x)` as laid out by `kids_chain`, and every
    /// neighbor of a completed node numbered after it lies in its subtree, so
    /// that every edge joins a node to one of its descendants.
    #[verifier::opaque]
    pub open spec fn forest_shape(self, adj: Seq<Vec<usize>>) -> bool {
        let vis = self.visited();
        &&& forall|x: usize, y: usize|
            #![trigger vis.contains(x), vis.contains(y)]
            vis.contains(x) && vis.contains(y) && x != y ==> self.ord_of(x) != self.ord_of(y)
        &&& forall|x: usize|
            #[trigger] self.done().contains(x) ==> self.ord_of(x) < self.end_of(x) <= vis.len()
        &&& forall|x: usize| #[trigger] self.done().contains(x) ==> self.kids_chain(x)
        &&& forall|x: usize|
            #[trigger] self.done().contains(x) ==> self.scan_order(adj, x, adj[x as int]@.len() as int)
        &&& forall|x: usize, i: int|
            self.done().contains(x) && 0 <= i < adj[x as int]@.len() && self.ord_of(x)
                < self.ord_of(#[trigger] adj[x as int]@[i]) ==> self.ord_of(adj[x as int]@[i])
                < self.end_of(x)
    }

    /// While `node` is searched and the next free number is `k`: its
    /// children so far are completed and number their subtrees one after
    /// another from right after `node` up to `k`.
    #[verifier::opaque]
    spec fn chain_to(self, adj: Seq<Vec<usize>>, node: usize, k: usize, j: int) -> bool {
        let ks = self.kids_of(node);
        &&& forall|i: int| 0 <= i < ks.len() ==> self.done().contains(#[trigger] ks[i])
        &&& ks.len() == 0 ==> k == self.ord_of(node) + 1
        &&& ks.len() > 0 ==> self.ord_of(ks[0]) == self.ord_of(node) + 1 && k == self.end_of(ks.last())
        &&& forall|i: int, i2: int|
            #![trigger ks[i], ks[i2]]
            0 <= i && i2 == i + 1 && i2 < ks.len() ==> self.ord_of(ks[i2]) == self.end_of(ks[i])
        &&& self.scan_order(adj, node, j)
    }

    /// `low` of each visited node.
    pub closed spec fn low_of(self, v: usize) -> usize {
        self.low@[v as int]
    }

    /// The DFS parent of each visited node (`None` for a root).
    pub closed spec fn parent_of(self, v: usize) -> Option<usize> {
        self.parent@[v]
    }

    /// The DFS children of each visited node, in the order visited.
    pub closed spec fn kids_of(self, v: usize) -> Seq<usize> {
        self.kids@[v]
    }

    /// `low[v]` is the least of `ord[v]`, the `ord` of each neighbor other
    /// than the parent, and the `low` of each child.
    pub open spec fn low_equation(self, adj: Seq<Vec<usize>>, v: usize) -> bool {
        let nb = adj[v as int]@;
        let kids = self.kids_of(v);
        let l = self.low_of(v);
        &&& l <= self.ord_of(v)
        &&& forall|i: int|
            0 <= i < nb.len() && Some(nb[i]) != self.parent_of(v) ==> l <= self.ord_of(
                #[trigger] nb[i],
            )
        &&& forall|i: int| 0 <= i < kids.len() ==> l <= self.low_of(#[trigger] kids[i])
        &&& (l == self.ord_of(v) || (exists|i: int|
            0 <= i < nb.len() && Some(nb[i]) != self.parent_of(v) && l == self.ord_of(
                #[trigger] nb[i],
            )) || (exists|i: int| 0 <= i < kids.len() && l == self.low_of(#[trigger] kids[i])))
    }

    /// `v` is an articulation point of its DFS tree: a non-root with a child
    /// whose `low` does not go above `v`, or a root with two or more children.
    pub open spec fn articulation_condition(self, v: usize) -> bool {
        let kids = self.kids_of(v);
        ||| (self.parent_of(v) is Some && exists|i: int|
            0 <= i < kids.len() && self.ord_of(v) <= self.low_of(#[trigger] kids[i]))
        ||| (self.parent_of(v) is None && kids.len() >= 2)
    }

    /// The tree edge from the parent of `c` to `c` is a bridge: `low[c]` stays
    /// below `c`'s parent.
    pub open spec fn bridge_condition(self, c: usize) -> bool {
        &&& self.parent_of(c) is Some
        &&& self.ord_of(self.parent_of(c).unwrap()) < self.low_of(c)
    }

    /// The invariant of the search. `pending` is a node whose search has just
    /// completed and whose tree edge has not been judged yet.
    pub closed spec fn inv(self, adj: Seq<Vec<usize>>, pending: Option<usize>) -> bool {
        let n = self.node_bound();
        let vis = self.visited();
        &&& self.low@.len() == n
        &&& bitset_len(self.used) == n
        &&& graph_wf(adj, n)
        &&& vis.finite()
        &&& forall|x: usize| vis.contains(x) ==> x < n
        &&& self.parent@.dom() == vis
        &&& self.kids@.dom() == vis
        &&& self.done().subset_of(vis)
        &&& forall|x: usize| vis.contains(x) ==> self.ord_of(x) < vis.len()
        &&& forall|x: usize| #[trigger] vis.contains(x) ==> self.low_of(x) <= self.ord_of(x)
        &&& forall|x: usize|
            #[trigger] vis.contains(x) && self.parent_of(x) is Some ==> {
                let p = self.parent_of(x).unwrap();
                &&& vis.contains(p)
                &&& self.ord_of(p) < self.ord_of(x)
                &&& adj[p as int]@.contains(x)
                &&& self.kids_of(p).contains(x)
            }
        &&& forall|x: usize, i: int|
            vis.contains(x) && 0 <= i < self.kids_of(x).len() ==> {
                let c = #[trigger] self.kids_of(x)[i];
                &&& vis.contains(c)
                &&& self.parent_of(c) == Some(x)
            }
        &&& forall|x: usize, i: int|
            self.done().contains(x) && 0 <= i < self.kids_of(x).len() ==> self.done().contains(
                #[trigger] self.kids_of(x)[i],
            )
        &&& forall|x: usize| vis.contains(x) ==> (#[trigger] self.kids_of(x)).no_duplicates()
        &&& forall|x: usize, i: int|
            self.done().contains(x) && 0 <= i < adj[x as int]@.len() ==> vis.contains(
                #[trigger] adj[x as int]@[i],
            )
        &&& forall|x: usize| #[trigger] self.done().contains(x) ==> self.low_equation(adj, x)
        &&& forall|a: usize|
            #[trigger] self.articulations@.contains(a) <==> self.done().contains(a)
                && self.articulation_condition(a)
        &&& self.articulations@.no_duplicates()
        &&& forall|b: (usize, usize)|
            #[trigger] self.bridges@.contains(b) <==> exists|c: usize|
                #[trigger] self.done().contains(c) && Some(c) != pending
                    && self.bridge_condition(c) && b == ordered_pair(
                    self.parent_of(c).unwrap(),
                    c,
                )
    }

    /// The number of DFS trees the search has started.
    pub closed spec fn spec_trees(self) -> nat {
        self.trees as nat
    }

    /// The number of DFS trees the search has started: one for each
    /// connected part of the graph that it reached.
    pub fn tree_count(&self) -> (r: usize)
        ensures
            r == self.spec_trees(),
    {
        self.trees
    }

    /// The articulation points found.
    pub fn articulation_points(&self) -> (r: &Vec<usize>)
        ensures
            r@ == self.spec_articulations(),
    {
        &self.articulations
    }

    /// The bridges found.
    pub fn bridge_edges(&self) -> (r: &Vec<(usize, usize)>)
        ensures
            r@ == self.spec_bridges(),
    {
        &self.bridges
    }

    /// A search over `node_bound` nodes, none visited yet.
    pub fn new(node_bound: usize) -> (r: Self)
        ensures
            r.node_bound() == node_bound,
            r.visited() == Set::<usize>::empty(),
            r.done() == Set::<usize>::empty(),
            r.spec_articulations() == Seq::<usize>::empty(),
            r.spec_bridges() == Seq::<(usize, usize)>::empty(),
            r.spec_roots() == Seq::<usize>::empty(),
            r.spec_trees() == 0,
            r.spec_root_pos() == Seq::<int>::empty(),
            r.finish_order(),
            forall|adj: Seq<Vec<usize>>| graph_wf(adj, node_bound as nat) ==> r.inv(adj, None),
            forall|adj: Seq<Vec<usize>>| r.forest_shape(adj),
    {
        let mut ord: Vec<usize> = Vec::new();
        let mut low: Vec<usize> = Vec::new();
        let mut i: usize = 0;
        while i < node_bound
            invariant
                i <= node_bound,
                ord@.len() == i,
                low@.len() == i,
            decreases node_bound - i,
        {
            ord.push(usize::MAX);
            low.push(usize::MAX);
            i += 1;
        }
        let r = Self {
            used: bitset_with_capacity(node_bound),
            ord,
            low,
            articulations: Vec::new(),
            bridges: Vec::new(),
            trees: 0,
            parent: Ghost(Map::empty()),
            kids: Ghost(Map::empty()),
            finished: Ghost(Set::empty()),
            end: Ghost(Map::empty()),
            kpos: Ghost(Map::empty()),
            roots: Ghost(Seq::empty()),
            rpos: Ghost(Seq::empty()),
        };
        proof {
            reveal(LowLink::forest_shape);
            reveal(LowLink::finish_order);
        }
        assert forall|adj: Seq<Vec<usize>>| graph_wf(adj, node_bound as nat) implies r.inv(
            adj,
            None,
        ) by {
            assert(r.parent@.dom() =~= r.visited());
            assert(r.kids@.dom() =~= r.visited());
        }
        r
    }

    /// What a completed search establishes: every visited node has been
    /// searched; the visited nodes are closed under adjacency; the DFS forest
    /// links each node to a visited neighbor numbered before it; `low` obeys
    /// its equation; the articulation points are exactly the visited nodes
    /// meeting the articulation condition, each listed once; the bridges are
    /// exactly the tree edges meeting the bridge condition.
    pub open spec fn complete(self, adj: Seq<Vec<usize>>) -> bool {
        let vis = self.visited();
        &&& self.done() == vis
        &&& graph_wf(adj, self.node_bound())
        &&& forall|x: usize| #[trigger] vis.contains(x) ==> x < self.node_bound()
        &&& forall|x: usize, i: int|
            vis.contains(x) && 0 <= i < adj[x as int]@.len() ==> vis.contains(
                #[trigger] adj[x as int]@[i],
            )
        &&& forall|x: usize|
            #[trigger] vis.contains(x) && self.parent_of(x) is Some ==> {
                let p = self.parent_of(x).unwrap();
                &&& vis.contains(p)
                &&& self.ord_of(p) < self.ord_of(x)
                &&& adj[p as int]@.contains(x)
                &&& self.kids_of(p).contains(x)
            }
        &&& forall|x: usize, i: int|
            vis.contains(x) && 0 <= i < self.kids_of(x).len() ==> {
                let c = #[trigger] self.kids_of(x)[i];
                &&& vis.contains(c)
                &&& self.parent_of(c) == Some(x)
            }
        &&& forall|x: usize| vis.contains(x) ==> (#[trigger] self.kids_of(x)).no_duplicates()
        &&& forall|x: usize| #[trigger] vis.contains(x) ==> self.low_equation(adj, x)
        &&& forall|a: usize|
            #[trigger] self.spec_articulations().contains(a) <==> vis.contains(a)
                && self.articulation_condition(a)
        &&& self.spec_articulations().no_duplicates()
        &&& forall|b: (usize, usize)|
            #[trigger] self.spec_bridges().contains(b) <==> exists|c: usize|
                #[trigger] vis.contains(c) && self.bridge_condition(c) && b == ordered_pair(
                    self.parent_of(c).unwrap(),
                    c,
                )
    }

    /// A search that has not visited any node and can be run on `adj`.
    pub open spec fn ready(self, adj: Seq<Vec<usize>>) -> bool {
        &&& self.visited() == Set::<usize>::empty()
        &&& self.inv(adj, None)
        &&& self.spec_roots().len() == 0
        &&& self.spec_trees() == 0
        &&& self.spec_root_pos().len() == 0
        &&& self.finish_order()
    }

    /// The next free number when the search had started `m` trees: zero, or
    /// where the `m`-th tree's numbers end.
    pub open spec fn root_start(self, m: int) -> int {
        if m == 0 {
            0
        } else {
            self.end_of(self.spec_roots()[m - 1]) as int
        }
    }

    /// Going through the first `upto` start nodes in order, the search
    /// started its trees at increasing positions, the `m`-th tree numbering
    /// its nodes from `root_start(m)` up to `root_start(m + 1)`, and every
    /// other start node it met had already been numbered: a start node
    /// became a root exactly when it was still unvisited.
    #[verifier::opaque]
    pub open spec fn roots_order(self, nodes: Seq<usize>, upto: int) -> bool {
        let rs = self.spec_roots();
        let ps = self.spec_root_pos();
        &&& ps.len() == rs.len()
        &&& forall|m: int| 0 <= m < ps.len() ==> 0 <= #[trigger] ps[m] < upto && nodes[ps[m]] == rs[m]
        &&& forall|m: int, m2: int| #![trigger ps[m], ps[m2]] 0 <= m < m2 < ps.len() ==> ps[m] < ps[m2]
        &&& forall|m: int|
            0 <= m < rs.len() ==> self.visited().contains(#[trigger] rs[m]) && self.parent_of(rs[m])
                is None && self.ord_of(rs[m]) == self.root_start(m)
        &&& forall|x: usize|
            #[trigger] self.visited().contains(x) && self.parent_of(x) is None ==> rs.contains(x)
        &&& self.visited().len() == self.root_start(rs.len() as int)
        &&& forall|i: int, m: int|
            #![trigger nodes[i], self.root_start(m)]
            0 <= i < upto && 0 <= m <= ps.len() && (m == 0 || ps[m - 1] < i) && (m == ps.len()
                || i < ps[m]) ==> self.ord_of(nodes[i]) < self.root_start(m)
    }

    /// What a search over `adj` from the start nodes `nodes` leaves behind.
    pub open spec fn searched(self, adj: Seq<Vec<usize>>, nodes: Seq<usize>) -> bool {
        &&& self.complete(adj)
        &&& self.forest_shape(adj)
        &&& self.roots_order(nodes, nodes.len() as int)
        &&& self.finish_order()
        &&& self.spec_trees() == self.spec_roots().len()
        &&& forall|i: int| 0 <= i < nodes.len() ==> self.visited().contains(#[trigger] nodes[i])
    }
    /// Search the graph given by its adjacency lists `adj`, starting a new
    /// tree at each node of `nodes` (in order) that is still unvisited.
    ///
    /// What it leaves is the depth-first search itself: `roots_order` fixes
    /// the roots, the scan order of each node (in `forest_shape`) fixes its
    /// children, the numbering follows from them, `low` and the two lists
    /// follow from the numbering (`complete`), and `finish_order` fixes the
    /// order of the lists.
    /// A search that is already done over the same graph and start nodes is
    /// left as it is.
    pub fn traverse(&mut self, adj: &Vec<Vec<usize>>, nodes: &Vec<usize>)
        requires
            old(self).ready(adj@) || old(self).searched(adj@, nodes@),
            forall|i: int| 0 <= i < nodes@.len() ==> #[trigger] nodes@[i] < old(self).node_bound(),
        ensures
            final(self).searched(adj@, nodes@),
            final(self).complete(adj@),
            final(self).forest_shape(adj@),
            final(self).roots_order(nodes@, nodes@.len() as int),
            final(self).finish_order(),
            final(self).spec_trees() == final(self).spec_roots().len(),
            final(self).node_bound() == old(self).node_bound(),
            forall|i: int| 0 <= i < nodes@.len() ==> final(self).visited().contains(#[trigger] nodes@[i]),
            old(self).searched(adj@, nodes@) ==> *final(self) == *old(self),
    {
        if nodes.len() == 0 {
            proof {
                if !old(self).searched(adj@, nodes@) {
                    assert(self.done() =~= self.visited());
                    self.lemma_complete(adj@);
                    reveal(LowLink::forest_shape);
                    reveal(LowLink::roots_order);
                    assert(self.roots_order(nodes@, 0));
                }
            }
            return;
        }
        if bitset_contains(&self.used, nodes[0]) {
            return;
        }
        self.search(adj, nodes);
    }

    /// The search itself, on a search that has not started.
    fn search(&mut self, adj: &Vec<Vec<usize>>, nodes: &Vec<usize>)
        requires
            old(self).ready(adj@),
            forall|i: int| 0 <= i < nodes@.len() ==> #[trigger] nodes@[i] < old(self).node_bound(),
        ensures
            final(self).complete(adj@),
            final(self).forest_shape(adj@),
            final(self).roots_order(nodes@, nodes@.len() as int),
            final(self).finish_order(),
            final(self).spec_trees() == final(self).spec_roots().len(),
            final(self).node_bound() == old(self).node_bound(),
            forall|i: int| 0 <= i < nodes@.len() ==> final(self).visited().contains(#[trigger] nodes@[i]),
    {
        let mut k: usize = 0;
        let mut i: usize = 0;
        proof {
            assert(self.done() =~= self.visited());
            reveal(LowLink::forest_shape);
            assert(self.forest_shape(adj@));
            lemma_visited_bound(self.visited(), self.node_bound());
            reveal(LowLink::roots_order);
            assert(self.visited().len() == 0);
            assert(self.roots_order(nodes@, 0));
        }
        while i < nodes.len()
            invariant
                self.inv(adj@, None),
                self.node_bound() == old(self).node_bound(),
                self.done() == self.visited(),
                k == self.visited().len(),
                0 <= i <= nodes@.len(),
                forall|j: int| 0 <= j < nodes@.len() ==> #[trigger] nodes@[j] < self.node_bound(),
                forall|j: int| 0 <= j < i ==> self.visited().contains(#[trigger] nodes@[j]),
                self.forest_shape(adj@),
                self.roots_order(nodes@, i as int),
                self.finish_order(),
                self.trees == self.roots@.len(),
                self.roots@.len() <= i,
            decreases nodes@.len() - i,
        {
            let v = nodes[i];
            if !bitset_contains(&self.used, v) {
                let ghost before = *self;
                k = self.dfs(adj, v, k, None);
                let ghost raw = *self;
                self.trees = self.trees + 1;
                proof {
                    self.roots@ = self.roots@.push(v);
                    self.rpos@ = self.rpos@.push(i as int);
                    assert(self.inv(adj@, None)) by {
                        self.lemma_inv_same(raw, adj@);
                    }
                    assert(self.forest_shape(adj@)) by {
                        self.lemma_shape_same(raw, adj@);
                    }
                    assert(self.finish_order()) by {
                        self.lemma_order_same(raw);
                    }
                    assert(self.done() =~= self.visited());
                    assert(self.roots_order(nodes@, i + 1)) by {
                        self.lemma_roots_step(before, nodes@, v, i as int, k);
                    }
                }
            } else {
                proof {
                    assert(self.ord_of(nodes@[i as int]) < self.visited().len());
                    self.lemma_roots_skip(nodes@, i as int, k);
                }
            }
            i += 1;
        }
        proof {
            self.lemma_complete(adj@);
        }
    }

    /// Starting a tree at the unvisited start node `v` at position `i` keeps
    /// the order of the roots.
    #[verifier::spinoff_prover]
    #[verifier::rlimit(60)]
    proof fn lemma_roots_step(self, before: Self, nodes: Seq<usize>, v: usize, i: int, k: usize)
        requires
            before.roots_order(nodes, i),
            before.done() == before.visited(),
            before.done().subset_of(before.visited()),
            forall|x: usize| #[trigger] before.visited().contains(x) ==> before.ord_of(x) < before.visited().len(),
            0 <= i < nodes.len(),
            nodes[i] == v,
            !before.visited().contains(v),
            forall|j: int| 0 <= j < i ==> before.visited().contains(#[trigger] nodes[j]),
            before.visited().subset_of(self.visited()),
            self.visited().contains(v),
            self.ord_of(v) == before.visited().len(),
            self.end_of(v) == k,
            k == self.visited().len(),
            self.parent_of(v) is None,
            forall|x: usize|
                #[trigger] before.visited().contains(x) ==> self.ord_of(x) == before.ord_of(x)
                    && self.parent_of(x) == before.parent_of(x),
            forall|x: usize| #[trigger] before.done().contains(x) ==> self.end_of(x) == before.end_of(x),
            forall|x: usize|
                #[trigger] self.visited().contains(x) && !before.visited().contains(x) && x != v
                    ==> self.parent_of(x) is Some,
            self.spec_roots() == before.spec_roots().push(v),
            self.spec_root_pos() == before.spec_root_pos().push(i),
        ensures
            self.roots_order(nodes, i + 1),
    {
        reveal(LowLink::roots_order);
        let rs0 = before.spec_roots();
        let rs = self.spec_roots();
        let ps0 = before.spec_root_pos();
        let ps = self.spec_root_pos();
        assert forall|m: int| 0 <= m <= rs0.len() implies #[trigger] self.root_start(m) == before.root_start(m) by {
            if m > 0 {
                assert(rs[m - 1] == rs0[m - 1]);
                assert(before.visited().contains(rs0[m - 1]));
            }
        }
        assert(self.root_start(rs.len() as int) == k) by {
            assert(rs[rs.len() - 1] == v);
        }
        assert forall|m: int| 0 <= m < ps.len() implies 0 <= #[trigger] ps[m] < i + 1 && nodes[ps[m]] == rs[m] by {
            if m < ps0.len() {
                assert(ps[m] == ps0[m]);
                assert(rs[m] == rs0[m]);
            }
        }
        assert forall|m: int, m2: int| #![trigger ps[m], ps[m2]] 0 <= m < m2 < ps.len() implies ps[m] < ps[m2] by {
            assert(ps[m] == ps0[m]);
            if m2 < ps0.len() {
                assert(ps[m2] == ps0[m2]);
            }
        }
        assert forall|m: int| 0 <= m < rs.len() implies self.visited().contains(#[trigger] rs[m]) && self.parent_of(rs[m])
            is None && self.ord_of(rs[m]) == self.root_start(m) by {
            if m < rs0.len() {
                assert(rs[m] == rs0[m]);
                assert(before.visited().contains(rs0[m]));
                assert(self.root_start(m) == before.root_start(m));
            } else {
                assert(before.root_start(m) == before.visited().len());
            }
        }
        assert forall|x: usize|
            #[trigger] self.visited().contains(x) && self.parent_of(x) is None implies rs.contains(x) by {
            if before.visited().contains(x) {
                assert(rs0.contains(x));
                let m = choose|m: int| 0 <= m < rs0.len() && rs0[m] == x;
                assert(rs[m] == x);
            } else {
                assert(x == v);
                assert(rs[rs.len() - 1] == v);
            }
        }
        assert forall|i2: int, m: int|
            #![trigger nodes[i2], self.root_start(m)]
            0 <= i2 < i + 1 && 0 <= m <= ps.len() && (m == 0 || ps[m - 1] < i2) && (m == ps.len()
                || i2 < ps[m]) implies self.ord_of(nodes[i2]) < self.root_start(m) by {
            if m == ps.len() {
                assert(ps[m - 1] == i);
            } else {
                if m < ps0.len() {
                    assert(ps[m] == ps0[m]);
                    assert(ps0[m] < i);
                } else {
                    assert(ps[m] == i);
                }
                if m > 0 {
                    assert(ps[m - 1] == ps0[m - 1]);
                }
                assert(i2 < i);
                assert(before.visited().contains(nodes[i2]));
                assert(self.root_start(m) == before.root_start(m));
                assert(before.ord_of(nodes[i2]) < before.root_start(m));
            }
        }
    }

    /// A start node already numbered is no new root.
    #[verifier::spinoff_prover]
    #[verifier::rlimit(40)]
    proof fn lemma_roots_skip(self, nodes: Seq<usize>, i: int, k: usize)
        requires
            self.roots_order(nodes, i),
            0 <= i < nodes.len(),
            self.ord_of(nodes[i]) < self.visited().len(),
        ensures
            self.roots_order(nodes, i + 1),
    {
        reveal(LowLink::roots_order);
        let rs = self.spec_roots();
        let ps = self.spec_root_pos();
        assert forall|i2: int, m: int|
            #![trigger nodes[i2], self.root_start(m)]
            0 <= i2 < i + 1 && 0 <= m <= ps.len() && (m == 0 || ps[m - 1] < i2) && (m == ps.len()
                || i2 < ps[m]) implies self.ord_of(nodes[i2]) < self.root_start(m) by {
            if i2 == i {
                if m < ps.len() {
                    assert(ps[m] < i);
                }
                assert(m == ps.len());
                assert(self.ord_of(nodes[i]) < self.visited().len());
            }
        }
    }

    /// Visit `node` (unvisited) from `parent`, numbering it `k`, and search
    /// every node reachable from it that is still unvisited. Returns the next
    /// free number, which is the number of visited nodes.
    #[verifier::spinoff_prover]
    #[verifier::rlimit(100)]
    fn dfs(&mut self, adj: &Vec<Vec<usize>>, node: usize, k: usize, parent: Option<usize>) -> (r:
        usize)
        requires
            old(self).inv(adj@, None),
            node < old(self).node_bound(),
            !old(self).visited().contains(node),
            k == old(self).visited().len(),
            parent is Some ==> old(self).visited().contains(parent.unwrap())
                && !old(self).done().contains(parent.unwrap()) && adj@[parent.unwrap() as int]@.contains(
                node,
            ),
            old(self).forest_shape(adj@),
            old(self).finish_order(),
        ensures
            final(self).forest_shape(adj@),
            final(self).finish_order(),
            forall|x: usize|
                #[trigger] final(self).visited().contains(x) && !old(self).visited().contains(x)
                    ==> final(self).ord_of(x) >= k,
            forall|a: usize|
                #[trigger] final(self).done().contains(a) && a != node ==> final(self).finishes_before(a, node),
            final(self).ord_of(node) == k,
            final(self).end_of(node) == r,
            forall|x: usize|
                #[trigger] old(self).done().contains(x) ==> final(self).end_of(x) == old(self).end_of(x),
            final(self).spec_roots() == old(self).spec_roots(),
            final(self).spec_root_pos() == old(self).spec_root_pos(),
            final(self).trees == old(self).trees,
            forall|x: usize|
                #[trigger] old(self).visited().contains(x) ==> final(self).kpos_of(x) == old(self).kpos_of(x),
            final(self).inv(adj@, if parent is Some { Some(node) } else { None }),
            final(self).node_bound() == old(self).node_bound(),
            old(self).visited().subset_of(final(self).visited()),
            final(self).visited().contains(node),
            final(self).done() == old(self).done().union(
                final(self).visited().difference(old(self).visited()),
            ),
            r == final(self).visited().len(),
            final(self).parent_of(node) == parent,
            forall|x: usize|
                #[trigger] final(self).visited().contains(x) && !old(self).visited().contains(x)
                    && x != node ==> final(self).parent_of(x) is Some,
            forall|x: usize|
                #[trigger] old(self).visited().contains(x) ==> final(self).ord_of(x) == old(self).ord_of(x) && final(self).low_of(x) == old(self).low_of(x) && final(self).parent_of(x) == old(self).parent_of(x),
            forall|x: usize|
                #[trigger] old(self).visited().contains(x) && Some(x) != parent ==> final(self).kids_of(x) == old(self).kids_of(x),
            parent is Some ==> final(self).kids_of(parent.unwrap()) == old(self).kids_of(
                parent.unwrap(),
            ).push(node),
        decreases old(self).node_bound() - old(self).visited().len(),
    {
        let ghost pre = *old(self);
        let ghost n = pre.node_bound();
        proof {
            lemma_visited_bound(pre.visited(), n);
        }
        let mut is_articulation = false;
        let mut cnt: usize = 0;
        bitset_insert(&mut self.used, node);
        self.ord.set(node, k);
        self.low.set(node, k);
        proof {
            self.parent@ = self.parent@.insert(node, parent);
            self.kids@ = self.kids@.insert(node, Seq::empty());
            self.kpos@ = self.kpos@.insert(node, Seq::empty());
            if parent is Some {
                let p = parent.unwrap();
                self.kids@ = self.kids@.insert(p, self.kids@[p].push(node));
            }
        }
        let ord_len = self.ord.len();
        proof {
            lemma_visited_bound(self.visited(), n);
            assert(self.visited() =~= pre.visited().insert(node));
            self.lemma_enter(pre, adj@, node, parent, k);
            self.lemma_shape_enter(pre, adj@, node, parent, k);
            self.lemma_order_enter(pre, adj@, node, k);
            reveal(LowLink::chain_to);
        }
        let mut k = k + 1;
        let ghost k0 = k - 1;
        let nbrs = &adj[node];
        let mut j: usize = 0;
        while j < nbrs.len()
            invariant
                self.inv(adj@, None),
                self.node_bound() == n,
                n == pre.node_bound(),
                pre.inv(adj@, None),
                pre == *old(self),
                node < n,
                !pre.visited().contains(node),
                nbrs@ == adj@[node as int]@,
                0 <= j <= nbrs@.len(),
                pre.visited().subset_of(self.visited()),
                self.visited().contains(node),
                !self.done().contains(node),
                self.done() == pre.done().union(
                    self.visited().difference(pre.visited()).remove(node),
                ),
                k == self.visited().len(),
                k0 == pre.visited().len(),
                self.parent_of(node) == parent,
                forall|x: usize|
                    #[trigger] self.visited().contains(x) && !pre.visited().contains(x) && x
                        != node ==> self.parent_of(x) is Some,
                self.ord_of(node) == k0,
                forall|x: usize|
                    #[trigger] pre.visited().contains(x) ==> self.ord_of(x) == pre.ord_of(x)
                        && self.low_of(x) == pre.low_of(x) && self.parent_of(x) == pre.parent_of(
                        x,
                    ),
                forall|x: usize|
                    #[trigger] pre.visited().contains(x) && Some(x) != parent ==> self.kids_of(x)
                        == pre.kids_of(x),
                parent is Some ==> self.kids_of(parent.unwrap()) == pre.kids_of(
                    parent.unwrap(),
                ).push(node),
                forall|i: int| 0 <= i < j ==> self.visited().contains(#[trigger] nbrs@[i]),
                self.low_of(node) <= self.ord_of(node),
                forall|i: int|
                    0 <= i < j && Some(nbrs@[i]) != parent ==> self.low_of(node) <= self.ord_of(
                        #[trigger] nbrs@[i],
                    ),
                forall|i: int|
                    0 <= i < self.kids_of(node).len() ==> self.low_of(node) <= self.low_of(
                        #[trigger] self.kids_of(node)[i],
                    ),
                self.low_of(node) == self.ord_of(node) || (exists|i: int|
                    0 <= i < j && Some(nbrs@[i]) != parent && self.low_of(node) == self.ord_of(
                        #[trigger] nbrs@[i],
                    )) || (exists|i: int|
                    0 <= i < self.kids_of(node).len() && self.low_of(node) == self.low_of(
                        #[trigger] self.kids_of(node)[i],
                    )),
                cnt == if self.kids_of(node).len() < 2 {
                    self.kids_of(node).len()
                } else {
                    2
                },
                is_articulation == (parent is Some && exists|i: int|
                    0 <= i < self.kids_of(node).len() && self.ord_of(node) <= self.low_of(
                        #[trigger] self.kids_of(node)[i],
                    )),
                self.forest_shape(adj@),
                forall|x: usize|
                    #[trigger] pre.done().contains(x) ==> self.end_of(x) == pre.end_of(x),
                self.spec_roots() == pre.spec_roots(),
                self.spec_root_pos() == pre.spec_root_pos(),
                self.trees == pre.trees,
                self.finish_order(),
                forall|x: usize|
                    #[trigger] self.visited().contains(x) && !pre.visited().contains(x)
                        ==> self.ord_of(x) >= k0,
                self.chain_to(adj@, node, k, j as int),
                forall|x: usize| #[trigger] pre.visited().contains(x) ==> self.kpos_of(x) == pre.kpos_of(x),
            decreases nbrs@.len() - j,
        {
            let to = nbrs[j];
            let is_parent = match parent {
                Some(p) => p == to,
                None => false,
            };
            proof {
                assert(adj@[node as int]@[j as int] == to);
                assert(to < n);
            }
            if !bitset_contains(&self.used, to) {
                let ghost mid = *self;
                proof {
                    lemma_visited_bound(self.visited(), n);
                    assert(adj@[node as int]@.contains(to));
                }
                if cnt < 2 {
                    cnt = cnt + 1;
                }
                proof {
                    vstd::set_lib::lemma_len_subset(pre.visited().insert(node), self.visited());
                    assert(pre.visited().insert(node).len() == pre.visited().len() + 1);
                    assert(0 <= self.node_bound() - self.visited().len());
                    assert(self.node_bound() - self.visited().len() < pre.node_bound() - pre.visited().len());
                }
                let ghost mid = *self;
                let ghost kmid = k;
                k = self.dfs(adj, to, k, Some(node));
                let ghost s1 = *self;
                let lt = self.low[to];
                let lv = self.low[node];
                if lt < lv {
                    self.low.set(node, lt);
                }
                proof {
                    if lt < lv {
                        self.lemma_lower_active(s1, adj@, node, Some(to));
                    } else {
                        assert(*self == s1);
                    }
                    self.lemma_order_same(s1);
                }
                let ghost s2 = *self;
                if parent.is_some() && self.ord[node] <= lt {
                    is_articulation = true;
                }
                if self.ord[node] < lt {
                    if node < to {
                        self.bridges.push((node, to));
                    } else {
                        self.bridges.push((to, node));
                    }
                }
                proof {
                    self.lemma_judge_child(s2, adj@, node, to);
                    self.lemma_order_bridge_push(s2, adj@, node, to);
                    let ghost s3 = *self;
                    self.kpos@ = self.kpos@.insert(node, self.kpos@[node].push(j as int));
                    self.lemma_inv_same(s3, adj@);
                    self.lemma_order_same(s3);
                    assert forall|x: usize|
                        #[trigger] self.visited().contains(x) && !pre.visited().contains(x) implies self.ord_of(x) >= k0 by {
                        if mid.visited().contains(x) {
                            assert(mid.ord_of(x) >= k0);
                        } else {
                            assert(s1.ord_of(x) >= kmid);
                        }
                    }
                    self.lemma_shape_same(s1, adj@);
                    self.lemma_chain_step(mid, adj@, node, to, kmid, k, j as int);
                    assert forall|x: usize| #[trigger] pre.done().contains(x) implies self.end_of(x) == pre.end_of(x) by {
                        assert(mid.done().contains(x));
                        assert(s1.end_of(x) == mid.end_of(x));
                    }
                }
            } else if !is_parent {
                let ghost s1 = *self;
                let o = self.ord[to];
                if o < self.low[node] {
                    self.low.set(node, o);
                    proof {
                        self.lemma_lower_active(s1, adj@, node, None);
                    }
                }
                proof {
                    self.lemma_shape_same(s1, adj@);
                    self.lemma_order_same(s1);
                    self.lemma_chain_skip(adj@, node, k, j as int);
                }
            } else {
                proof {
                    self.lemma_chain_skip(adj@, node, k, j as int);
                }
            }
            j += 1;
        }
        if parent.is_none() && cnt >= 2 {
            is_articulation = true;
        }
        let ghost before_finish = *self;
        if is_articulation {
            self.articulations.push(node);
        }
        proof {
            self.finished@ = self.finished@.insert(node);
            self.end@ = self.end@.insert(node, k);
            self.lemma_finish(before_finish, pre, adj@, node, parent);
            self.lemma_shape_finish(before_finish, adj@, node, k);
            self.lemma_order_finish(before_finish, pre, adj@, node, k);
        }
        k
    }

    /// Entering `node` from `parent` keeps the invariant.
    proof fn lemma_enter(self, pre: Self, adj: Seq<Vec<usize>>, node: usize, parent: Option<usize>, k: usize)
        requires
            pre.inv(adj, None),
            node < pre.node_bound(),
            !pre.visited().contains(node),
            parent is Some ==> pre.visited().contains(parent.unwrap()) && !pre.done().contains(
                parent.unwrap(),
            ) && adj[parent.unwrap() as int]@.contains(node),
            self.visited() == pre.visited().insert(node),
            bitset_len(self.used) == bitset_len(pre.used),
            k == pre.visited().len(),
            self.ord@ == pre.ord@.update(node as int, k),
            self.low@ == pre.low@.update(node as int, k),
            self.parent@ == pre.parent@.insert(node, parent),
            parent is None ==> self.kids@ == pre.kids@.insert(node, Seq::empty()),
            parent is Some ==> self.kids@ == pre.kids@.insert(node, Seq::empty()).insert(
                parent.unwrap(),
                pre.kids@[parent.unwrap()].push(node),
            ),
            self.finished@ == pre.finished@,
            self.articulations@ == pre.articulations@,
            self.bridges@ == pre.bridges@,
        ensures
            self.inv(adj, None),
    {
        let vis = self.visited();
        let n = self.node_bound();
        lemma_visited_bound(pre.visited(), n);
        assert(vis.len() == pre.visited().len() + 1);
        assert(self.parent@.dom() =~= vis);
        assert(self.kids@.dom() =~= vis);
        assert forall|x: usize| #[trigger] pre.visited().contains(x) implies self.ord_of(x)
            == pre.ord_of(x) && self.low_of(x) == pre.low_of(x) && self.parent_of(x)
            == pre.parent_of(x) by {
            assert(x != node);
        }
        assert forall|x: usize|
            #[trigger] pre.visited().contains(x) && Some(x) != parent implies self.kids_of(x)
            == pre.kids_of(x) by {
            assert(x != node);
        }
        assert forall|x: usize|
            #[trigger] vis.contains(x) && self.parent_of(x) is Some implies {
                let p = self.parent_of(x).unwrap();
                &&& vis.contains(p)
                &&& self.ord_of(p) < self.ord_of(x)
                &&& adj[p as int]@.contains(x)
                &&& self.kids_of(p).contains(x)
            } by {
            let p = self.parent_of(x).unwrap();
            if x == node {
                assert(parent == Some(p));
                assert(pre.visited().contains(p));
                assert(p != node);
                let ks = self.kids_of(p);
                assert(ks[ks.len() - 1] == node);
                assert(ks.contains(x));
                assert(pre.ord_of(p) < pre.visited().len());
                assert(self.ord_of(p) == pre.ord_of(p));
                assert(self.ord_of(x) == pre.visited().len());
            } else {
                assert(pre.visited().contains(x));
                assert(pre.parent_of(x) == Some(p));
                assert(pre.visited().contains(p));
                assert(p != node);
                assert(self.ord_of(p) == pre.ord_of(p));
                assert(self.ord_of(x) == pre.ord_of(x));
                assert(pre.kids_of(p).contains(x));
                let i = choose|i: int| 0 <= i < pre.kids_of(p).len() && pre.kids_of(p)[i] == x;
                assert(self.kids_of(p)[i] == x);
                assert(self.kids_of(p).contains(x));
            }
        }
        assert forall|x: usize, i: int| vis.contains(x) && 0 <= i < self.kids_of(x).len() implies {
            let c = #[trigger] self.kids_of(x)[i];
            &&& vis.contains(c)
            &&& self.parent_of(c) == Some(x)
        } by {
            if x != node {
                if parent == Some(x) && i == pre.kids_of(x).len() {
                } else {
                    assert(self.kids_of(x)[i] == pre.kids_of(x)[i]);
                    assert(pre.kids_of(x)[i] != node);
                }
            }
        }
        assert forall|x: usize| vis.contains(x) implies (#[trigger] self.kids_of(x)).no_duplicates() by {
            if parent == Some(x) {
                assert forall|i: int| 0 <= i < pre.kids_of(x).len() implies pre.kids_of(x)[i] != node by {
                    assert(pre.visited().contains(pre.kids_of(x)[i]));
                }
            }
        }
        assert forall|x: usize, i: int|
            self.done().contains(x) && 0 <= i < self.kids_of(x).len() implies self.done().contains(
            #[trigger] self.kids_of(x)[i],
        ) by {
            assert(x != node);
            assert(Some(x) != parent);
        }
        assert forall|x: usize| #[trigger] self.done().contains(x) implies self.low_equation(adj, x) by {
            assert(x != node);
            assert(Some(x) != parent);
            assert(pre.low_equation(adj, x));
            let nb = adj[x as int]@;
            assert forall|i: int| 0 <= i < nb.len() implies self.ord_of(#[trigger] nb[i]) == pre.ord_of(nb[i]) by {
                assert(pre.visited().contains(nb[i]));
            }
            let kids = self.kids_of(x);
            assert forall|i: int| 0 <= i < kids.len() implies self.low_of(#[trigger] kids[i]) == pre.low_of(kids[i]) by {
                assert(pre.visited().contains(kids[i]));
            }
        }
        assert forall|a: usize|
            #[trigger] self.articulations@.contains(a) <==> self.done().contains(a)
                && self.articulation_condition(a) by {
            if self.done().contains(a) {
                assert(a != node);
                assert(Some(a) != parent);
                let kids = self.kids_of(a);
                assert forall|i: int| 0 <= i < kids.len() implies self.low_of(#[trigger] kids[i]) == pre.low_of(kids[i]) by {
                    assert(pre.visited().contains(kids[i]));
                }
                assert(self.articulation_condition(a) == pre.articulation_condition(a));
            }
        }
        assert forall|b: (usize, usize)|
            #[trigger] self.bridges@.contains(b) <==> exists|c: usize|
                #[trigger] self.done().contains(c) && Some(c) != None::<usize>
                    && self.bridge_condition(c) && b == ordered_pair(
                    self.parent_of(c).unwrap(),
                    c,
                ) by {
            if self.bridges@.contains(b) {
                let c = choose|c: usize|
                    #[trigger] pre.done().contains(c) && Some(c) != None::<usize>
                        && pre.bridge_condition(c) && b == ordered_pair(
                        pre.parent_of(c).unwrap(),
                        c,
                    );
                assert(c != node);
                assert(self.bridge_condition(c));
            }
            if exists|c: usize|
                #[trigger] self.done().contains(c) && Some(c) != None::<usize>
                    && self.bridge_condition(c) && b == ordered_pair(
                    self.parent_of(c).unwrap(),
                    c,
                ) {
                let c = choose|c: usize|
                    #[trigger] self.done().contains(c) && Some(c) != None::<usize>
                        && self.bridge_condition(c) && b == ordered_pair(
                        self.parent_of(c).unwrap(),
                        c,
                    );
                assert(c != node);
                assert(pre.bridge_condition(c));
            }
        }
    }

    /// Lowering `low` of a node whose search is still running keeps the
    /// invariant.
    proof fn lemma_lower_active(self, before: Self, adj: Seq<Vec<usize>>, node: usize, pending: Option<usize>)
        requires
            before.inv(adj, pending),
            before.visited().contains(node),
            !before.done().contains(node),
            self.used == before.used,
            self.ord@ == before.ord@,
            self.low@.len() == before.low@.len(),
            forall|x: int| 0 <= x < self.low@.len() && x != node ==> self.low@[x] == before.low@[x],
            self.low@[node as int] <= before.ord@[node as int],
            self.parent@ == before.parent@,
            self.kids@ == before.kids@,
            self.finished@ == before.finished@,
            self.articulations@ == before.articulations@,
            self.bridges@ == before.bridges@,
        ensures
            self.inv(adj, pending),
    {
        let vis = self.visited();
        self.lemma_same_tree(before);
        assert forall|x: usize| #[trigger] self.done().contains(x) implies self.low_equation(adj, x) by {
            assert(before.done().contains(x));
            assert(before.low_equation(adj, x));
            let kids = before.kids_of(x);
            assert(self.kids_of(x) == kids);
            assert forall|i: int| 0 <= i < kids.len() implies self.low_of(#[trigger] kids[i]) == before.low_of(kids[i]) by {
                assert(before.done().contains(before.kids_of(x)[i]));
            }
            assert(x != node);
            assert(self.low_of(x) == before.low_of(x));
            assert forall|i: int| 0 <= i < kids.len() implies #[trigger] self.low_of(kids[i]) == before.low_of(kids[i]) by {
                assert(before.done().contains(before.kids_of(x)[i]));
            }
            if !(before.low_of(x) == before.ord_of(x)) {
                let nb = adj[x as int]@;
                if exists|i: int| 0 <= i < nb.len() && Some(nb[i]) != before.parent_of(x) && before.low_of(x) == before.ord_of(#[trigger] nb[i]) {
                    let i = choose|i: int| 0 <= i < nb.len() && Some(nb[i]) != before.parent_of(x) && before.low_of(x) == before.ord_of(#[trigger] nb[i]);
                    assert(self.low_of(x) == self.ord_of(nb[i]));
                } else {
                    let i = choose|i: int| 0 <= i < kids.len() && before.low_of(x) == before.low_of(#[trigger] kids[i]);
                    assert(self.low_of(x) == self.low_of(kids[i]));
                }
            }
        }
        assert forall|a: usize|
            #[trigger] self.articulations@.contains(a) <==> self.done().contains(a)
                && self.articulation_condition(a) by {
            if self.done().contains(a) {
                let kids = before.kids_of(a);
                assert(self.kids_of(a) == kids);
                assert forall|i: int| 0 <= i < kids.len() implies self.low_of(#[trigger] kids[i]) == before.low_of(kids[i]) by {
                    assert(before.done().contains(before.kids_of(a)[i]));
                }
                assert(self.articulation_condition(a) == before.articulation_condition(a));
            }
        }
        assert forall|c: usize| #[trigger] self.done().contains(c) implies self.bridge_condition(c) == before.bridge_condition(c) by {
            assert(c != node);
        }
        assert forall|b: (usize, usize)|
            #[trigger] self.bridges@.contains(b) <==> exists|c: usize|
                #[trigger] self.done().contains(c) && Some(c) != pending
                    && self.bridge_condition(c) && b == ordered_pair(
                    self.parent_of(c).unwrap(),
                    c,
                ) by {
            if self.bridges@.contains(b) {
                let c = choose|c: usize|
                    #[trigger] before.done().contains(c) && Some(c) != pending
                        && before.bridge_condition(c) && b == ordered_pair(
                        before.parent_of(c).unwrap(),
                        c,
                    );
                assert(self.bridge_condition(c));
            }
            if exists|c: usize|
                #[trigger] self.done().contains(c) && Some(c) != pending
                    && self.bridge_condition(c) && b == ordered_pair(
                    self.parent_of(c).unwrap(),
                    c,
                ) {
                let c = choose|c: usize|
                    #[trigger] self.done().contains(c) && Some(c) != pending
                        && self.bridge_condition(c) && b == ordered_pair(
                        self.parent_of(c).unwrap(),
                        c,
                    );
                assert(before.done().contains(c));
                assert(before.bridge_condition(c));
            }
        }
        assert forall|x: usize| #[trigger] vis.contains(x) implies self.low_of(x) <= self.ord_of(x) by {
            if x != node {
                assert(before.low_of(x) <= before.ord_of(x));
            }
        }
    }

    /// Judging the tree edge into `to`, whose search has just completed,
    /// settles the pending node.
    proof fn lemma_judge_child(self, before: Self, adj: Seq<Vec<usize>>, node: usize, to: usize)
        requires
            before.inv(adj, Some(to)),
            before.done().contains(to),
            before.parent_of(to) == Some(node),
            self.used == before.used,
            self.ord@ == before.ord@,
            self.low@ == before.low@,
            self.parent@ == before.parent@,
            self.kids@ == before.kids@,
            self.finished@ == before.finished@,
            self.articulations@ == before.articulations@,
            before.bridge_condition(to) ==> self.bridges@ == before.bridges@.push(
                ordered_pair(node, to),
            ),
            !before.bridge_condition(to) ==> self.bridges@ == before.bridges@,
        ensures
            self.inv(adj, None),
    {
        self.lemma_same_tree(before);
        assert forall|b: (usize, usize)|
            #[trigger] self.bridges@.contains(b) <==> exists|c: usize|
                #[trigger] self.done().contains(c) && Some(c) != None::<usize>
                    && self.bridge_condition(c) && b == ordered_pair(
                    self.parent_of(c).unwrap(),
                    c,
                ) by {
            if self.bridges@.contains(b) {
                if before.bridges@.contains(b) {
                    let c = choose|c: usize|
                        #[trigger] before.done().contains(c) && Some(c) != Some(to)
                            && before.bridge_condition(c) && b == ordered_pair(
                            before.parent_of(c).unwrap(),
                            c,
                        );
                    assert(self.done().contains(c));
                } else {
                    assert(b == ordered_pair(node, to));
                    assert(self.done().contains(to));
                }
            }
            if exists|c: usize|
                #[trigger] self.done().contains(c) && Some(c) != None::<usize>
                    && self.bridge_condition(c) && b == ordered_pair(
                    self.parent_of(c).unwrap(),
                    c,
                ) {
                let c = choose|c: usize|
                    #[trigger] self.done().contains(c) && Some(c) != None::<usize>
                        && self.bridge_condition(c) && b == ordered_pair(
                        self.parent_of(c).unwrap(),
                        c,
                    );
                if c == to {
                    assert(self.bridges@.last() == b);
                } else {
                    assert(before.bridges@.contains(b));
                    let i = choose|i: int| 0 <= i < before.bridges@.len() && before.bridges@[i] == b;
                    assert(self.bridges@[i] == b);
                }
            }
        }
    }

    /// Completing the search of `node` keeps the invariant, with `node`
    /// pending when it has a parent.
    proof fn lemma_finish(self, before: Self, pre: Self, adj: Seq<Vec<usize>>, node: usize, parent: Option<usize>)
        requires
            before.inv(adj, None),
            before.visited().contains(node),
            !before.done().contains(node),
            before.parent_of(node) == parent,
            before.low_equation(adj, node),
            forall|i: int| 0 <= i < adj[node as int]@.len() ==> before.visited().contains(#[trigger] adj[node as int]@[i]),
            forall|i: int| 0 <= i < before.kids_of(node).len() ==> before.done().contains(#[trigger] before.kids_of(node)[i]),
            self.used == before.used,
            self.ord@ == before.ord@,
            self.low@ == before.low@,
            self.parent@ == before.parent@,
            self.kids@ == before.kids@,
            self.finished@ == before.finished@.insert(node),
            before.articulation_condition(node) ==> self.articulations@ == before.articulations@.push(node),
            !before.articulation_condition(node) ==> self.articulations@ == before.articulations@,
            self.bridges@ == before.bridges@,
        ensures
            self.inv(adj, if parent is Some { Some(node) } else { None }),
    {
        let pending = if parent is Some { Some(node) } else { None::<usize> };
        self.lemma_same_tree(before);
        assert forall|a: usize|
            #[trigger] self.articulations@.contains(a) <==> self.done().contains(a)
                && self.articulation_condition(a) by {
            if self.articulations@.contains(a) && a != node {
                let i = choose|i: int| 0 <= i < self.articulations@.len() && self.articulations@[i] == a;
                assert(i < before.articulations@.len());
                assert(before.articulations@[i] == a);
                assert(before.articulations@.contains(a));
                assert(before.done().contains(a));
                assert(before.articulation_condition(a));
            }
            if self.articulations@.contains(a) && a == node {
                assert(!before.articulations@.contains(node));
                assert(before.articulation_condition(node));
                assert(self.articulation_condition(node));
            }
            if self.done().contains(a) && self.articulation_condition(a) {
                if a == node {
                    assert(before.articulation_condition(node));
                    assert(self.articulations@.last() == a);
                } else {
                    assert(before.articulations@.contains(a));
                    let i = choose|i: int| 0 <= i < before.articulations@.len() && before.articulations@[i] == a;
                    assert(self.articulations@[i] == a);
                }
            }
        }
        assert(self.articulations@.no_duplicates()) by {
            if before.articulation_condition(node) {
                assert(!before.articulations@.contains(node));
            }
        }
        assert forall|b: (usize, usize)|
            #[trigger] self.bridges@.contains(b) <==> exists|c: usize|
                #[trigger] self.done().contains(c) && Some(c) != pending
                    && self.bridge_condition(c) && b == ordered_pair(
                    self.parent_of(c).unwrap(),
                    c,
                ) by {
            if self.bridges@.contains(b) {
                let c = choose|c: usize|
                    #[trigger] before.done().contains(c) && Some(c) != None::<usize>
                        && before.bridge_condition(c) && b == ordered_pair(
                        before.parent_of(c).unwrap(),
                        c,
                    );
                assert(self.done().contains(c));
                assert(c != node);
            }
            if exists|c: usize|
                #[trigger] self.done().contains(c) && Some(c) != pending
                    && self.bridge_condition(c) && b == ordered_pair(
                    self.parent_of(c).unwrap(),
                    c,
                ) {
                let c = choose|c: usize|
                    #[trigger] self.done().contains(c) && Some(c) != pending
                        && self.bridge_condition(c) && b == ordered_pair(
                        self.parent_of(c).unwrap(),
                        c,
                    );
                assert(c != node);
                assert(before.done().contains(c));
            }
        }
        assert forall|x: usize| #[trigger] self.done().contains(x) implies self.low_equation(adj, x) by {
            if x != node {
                assert(before.done().contains(x));
                assert(before.low_equation(adj, x));
            } else {
                assert(before.low_equation(adj, node));
                let nb = adj[node as int]@;
                let kids = before.kids_of(node);
                if !(before.low_of(node) == before.ord_of(node)) {
                    if exists|i: int| 0 <= i < nb.len() && Some(nb[i]) != before.parent_of(node) && before.low_of(node) == before.ord_of(#[trigger] nb[i]) {
                        let i = choose|i: int| 0 <= i < nb.len() && Some(nb[i]) != before.parent_of(node) && before.low_of(node) == before.ord_of(#[trigger] nb[i]);
                        assert(self.low_of(node) == self.ord_of(nb[i]));
                    } else {
                        let i = choose|i: int| 0 <= i < kids.len() && before.low_of(node) == before.low_of(#[trigger] kids[i]);
                        assert(self.low_of(node) == self.low_of(kids[i]));
                    }
                }
            }
        }
    }

    /// Numbering a new node after all the visited ones keeps the forest shape.
    proof fn lemma_shape_enter(self, pre: Self, adj: Seq<Vec<usize>>, node: usize, parent: Option<usize>, k: usize)
        requires
            pre.inv(adj, None),
            pre.forest_shape(adj),
            node < pre.node_bound(),
            !pre.visited().contains(node),
            self.visited() == pre.visited().insert(node),
            k == pre.visited().len(),
            self.ord@ == pre.ord@.update(node as int, k),
            self.end@ == pre.end@,
            self.finished@ == pre.finished@,
            self.kpos@ == pre.kpos@.insert(node, Seq::empty()),
            parent is Some ==> !pre.done().contains(parent.unwrap()),
            parent is None ==> self.kids@ == pre.kids@.insert(node, Seq::empty()),
            parent is Some ==> self.kids@ == pre.kids@.insert(node, Seq::empty()).insert(
                parent.unwrap(),
                pre.kids@[parent.unwrap()].push(node),
            ),
        ensures
            self.forest_shape(adj),
    {
        reveal(LowLink::forest_shape);
        let vis = self.visited();
        lemma_visited_bound(pre.visited(), pre.node_bound());
        assert(vis.len() == pre.visited().len() + 1);
        assert(self.ord_of(node) == pre.visited().len());
        assert forall|x: usize| #[trigger] pre.visited().contains(x) implies self.ord_of(x) == pre.ord_of(x)
            && self.ord_of(x) < pre.visited().len() by {
            assert(x != node);
        }
        assert forall|x: usize| #[trigger] pre.done().contains(x) implies self.kids_of(x) == pre.kids_of(x) by {
            assert(x != node);
            assert(Some(x) != parent);
        }
        assert forall|x: usize, y: usize|
            #![trigger vis.contains(x), vis.contains(y)]
            vis.contains(x) && vis.contains(y) && x != y implies self.ord_of(x) != self.ord_of(y) by {
            if x == node {
                assert(pre.visited().contains(y));
            } else if y == node {
                assert(pre.visited().contains(x));
            } else {
                assert(pre.visited().contains(x) && pre.visited().contains(y));
            }
        }
        assert forall|x: usize| #[trigger] self.done().contains(x) implies self.kids_chain(x) by {
            assert(pre.done().contains(x));
            assert(pre.kids_chain(x));
            let ks = pre.kids_of(x);
            assert forall|i: int| 0 <= i < ks.len() implies self.ord_of(#[trigger] ks[i]) == pre.ord_of(ks[i]) by {
                assert(pre.done().contains(ks[i]));
            }
            if ks.len() > 0 {
                assert(self.ord_of(ks[0]) == pre.ord_of(ks[0]));
            }
        }
        assert forall|x: usize, i: int|
            self.done().contains(x) && 0 <= i < adj[x as int]@.len() && self.ord_of(x)
                < self.ord_of(#[trigger] adj[x as int]@[i]) implies self.ord_of(adj[x as int]@[i])
                < self.end_of(x) by {
            assert(pre.done().contains(x));
            assert(pre.visited().contains(adj[x as int]@[i]));
        }
        assert forall|x: usize| #[trigger] self.done().contains(x) implies self.scan_order(adj, x, adj[x as int]@.len() as int) by {
            assert(pre.done().contains(x));
            assert(x != node);
            assert forall|i: int| 0 <= i < adj[x as int]@.len() implies self.ord_of(#[trigger] adj[x as int]@[i]) == pre.ord_of(adj[x as int]@[i]) by {
                assert(pre.visited().contains(adj[x as int]@[i]));
            }
            self.lemma_scan_frame(pre, adj, x, adj[x as int]@.len() as int);
        }
    }

    /// The scan order of `x` depends only on `x`'s number, children and
    /// their positions, the subtree ends of its children and the numbers of
    /// the neighbors scanned.
    proof fn lemma_scan_frame(self, other: Self, adj: Seq<Vec<usize>>, x: usize, upto: int)
        requires
            other.scan_order(adj, x, upto),
            self.kids_of(x) == other.kids_of(x),
            self.kpos_of(x) == other.kpos_of(x),
            self.ord_of(x) == other.ord_of(x),
            forall|i: int| 0 <= i < upto ==> self.ord_of(#[trigger] adj[x as int]@[i]) == other.ord_of(adj[x as int]@[i]),
            forall|m: int| 0 <= m < other.kids_of(x).len() ==> self.end_of(#[trigger] other.kids_of(x)[m]) == other.end_of(other.kids_of(x)[m]),
        ensures
            self.scan_order(adj, x, upto),
    {
        let ps = self.kpos_of(x);
        let nb = adj[x as int]@;
        assert forall|m: int| 0 <= m <= ps.len() implies #[trigger] self.scan_start(x, m) == other.scan_start(x, m) by {
            if m > 0 {
                assert(self.end_of(other.kids_of(x)[m - 1]) == other.end_of(other.kids_of(x)[m - 1]));
            }
        }
        assert forall|i: int, m: int|
            #![trigger nb[i], self.scan_start(x, m)]
            0 <= i < upto && 0 <= m <= ps.len() && (m == 0 || ps[m - 1] < i) && (m == ps.len()
                || i < ps[m]) implies self.ord_of(nb[i]) < self.scan_start(x, m) by {
            assert(self.scan_start(x, m) == other.scan_start(x, m));
            assert(self.ord_of(nb[i]) == other.ord_of(nb[i]));
            assert(other.ord_of(nb[i]) < other.scan_start(x, m));
        }
    }

    /// A neighbor numbered before the next free number is no new child: the
    /// scan moves past it.
    proof fn lemma_chain_skip(self, adj: Seq<Vec<usize>>, node: usize, k: usize, j: int)
        requires
            self.chain_to(adj, node, k, j),
            0 <= j < adj[node as int]@.len(),
            self.ord_of(adj[node as int]@[j]) < k,
        ensures
            self.chain_to(adj, node, k, j + 1),
    {
        reveal(LowLink::chain_to);
        let ks = self.kids_of(node);
        let ps = self.kpos_of(node);
        let nb = adj[node as int]@;
        assert(self.scan_start(node, ps.len() as int) == k) by {
            if ks.len() > 0 {
                assert(ks[ks.len() - 1] == ks.last());
            }
        }
        assert forall|i: int, m: int|
            #![trigger nb[i], self.scan_start(node, m)]
            0 <= i < j + 1 && 0 <= m <= ps.len() && (m == 0 || ps[m - 1] < i) && (m == ps.len()
                || i < ps[m]) implies self.ord_of(nb[i]) < self.scan_start(node, m) by {
            if i == j {
                if m < ps.len() {
                    assert(ps[m] < j);
                }
            }
        }
    }

    /// States with the same numbering, subtree ends, tree and visited nodes
    /// have the same forest shape.
    proof fn lemma_shape_same(self, other: Self, adj: Seq<Vec<usize>>)
        requires
            other.forest_shape(adj),
            self.used == other.used,
            self.ord@ == other.ord@,
            self.parent@ == other.parent@,
            self.end@ == other.end@,
            self.kids@ == other.kids@,
            self.finished@ == other.finished@,
            forall|x: usize| #[trigger] other.done().contains(x) ==> self.kpos_of(x) == other.kpos_of(x),
        ensures
            self.forest_shape(adj),
            forall|node: usize, k: usize, j: int|
                #[trigger] other.chain_to(adj, node, k, j) && self.kpos_of(node) == other.kpos_of(node)
                    ==> self.chain_to(adj, node, k, j),
    {
        reveal(LowLink::forest_shape);
        reveal(LowLink::chain_to);
        self.lemma_same_tree(other);
        assert forall|x: usize| #[trigger] self.done().contains(x) implies self.kids_chain(x) by {
            assert(other.done().contains(x));
            assert(other.kids_chain(x));
        }
        assert forall|x: usize| #[trigger] self.done().contains(x) implies self.scan_order(adj, x, adj[x as int]@.len() as int) by {
            assert(other.done().contains(x));
            self.lemma_scan_frame(other, adj, x, adj[x as int]@.len() as int);
        }
        assert forall|node: usize, k: usize, j: int|
            #[trigger] other.chain_to(adj, node, k, j) && self.kpos_of(node) == other.kpos_of(node)
                implies self.chain_to(adj, node, k, j) by {
            self.lemma_scan_frame(other, adj, node, j);
        }
        assert forall|x: usize, y: usize|
            #![trigger self.visited().contains(x), self.visited().contains(y)]
            self.visited().contains(x) && self.visited().contains(y) && x != y implies self.ord_of(x) != self.ord_of(y) by {
            assert(other.visited().contains(x) && other.visited().contains(y));
        }
        assert forall|x: usize| #[trigger] self.done().contains(x) implies self.ord_of(x) < self.end_of(x) <= self.visited().len() by {
            assert(other.done().contains(x));
        }
        assert forall|x: usize, i: int|
            self.done().contains(x) && 0 <= i < adj[x as int]@.len() && self.ord_of(x)
                < self.ord_of(#[trigger] adj[x as int]@[i]) implies self.ord_of(adj[x as int]@[i])
                < self.end_of(x) by {
            assert(other.done().contains(x));
            assert(other.ord_of(adj[x as int]@[i]) == self.ord_of(adj[x as int]@[i]));
        }
    }

    /// After the search below `to`, a child of `node`, the children of
    /// `node` still number their subtrees one after another.
    proof fn lemma_chain_step(self, mid: Self, adj: Seq<Vec<usize>>, node: usize, to: usize, kmid: usize, knew: usize, j: int)
        requires
            mid.inv(adj, None),
            mid.visited().contains(node),
            !mid.done().contains(node),
            mid.chain_to(adj, node, kmid, j),
            0 <= j < adj[node as int]@.len(),
            adj[node as int]@[j] == to,
            self.kpos_of(node) == mid.kpos_of(node).push(j),
            forall|i: int| 0 <= i < j ==> mid.visited().contains(#[trigger] adj[node as int]@[i]),
            self.kids_of(node) == mid.kids_of(node).push(to),
            self.ord_of(to) == kmid,
            self.end_of(to) == knew,
            self.done().contains(to),
            mid.done().subset_of(self.done()),
            forall|x: usize| #[trigger] mid.visited().contains(x) ==> self.ord_of(x) == mid.ord_of(x),
            forall|x: usize| #[trigger] mid.done().contains(x) ==> self.end_of(x) == mid.end_of(x),
        ensures
            self.chain_to(adj, node, knew, j + 1),
    {
        reveal(LowLink::chain_to);
        let ks0 = mid.kids_of(node);
        let ks = self.kids_of(node);
        assert(self.ord_of(node) == mid.ord_of(node));
        assert forall|i: int| 0 <= i < ks0.len() implies #[trigger] self.ord_of(ks0[i]) == mid.ord_of(ks0[i])
            && self.end_of(ks0[i]) == mid.end_of(ks0[i]) && self.done().contains(ks0[i]) by {
            assert(mid.done().contains(ks0[i]));
            assert(mid.visited().contains(ks0[i]));
        }
        assert forall|i: int| 0 <= i < ks.len() implies self.done().contains(#[trigger] ks[i]) by {
            if i < ks0.len() {
                assert(ks[i] == ks0[i]);
                assert(self.ord_of(ks0[i]) == mid.ord_of(ks0[i]));
            }
        }
        if ks0.len() > 0 {
            assert(ks[0] == ks0[0]);
            assert(self.ord_of(ks0[0]) == mid.ord_of(ks0[0]));
        }
        assert forall|i: int, i2: int|
            #![trigger ks[i], ks[i2]]
            0 <= i && i2 == i + 1 && i2 < ks.len() implies self.ord_of(ks[i2]) == self.end_of(ks[i]) by {
            assert(ks[i] == ks0[i]);
            assert(self.ord_of(ks0[i]) == mid.ord_of(ks0[i]));
            if i2 < ks0.len() {
                assert(ks[i2] == ks0[i2]);
                assert(self.ord_of(ks0[i2]) == mid.ord_of(ks0[i2]));
            } else {
                assert(ks0.last() == ks0[i]);
            }
        }
        let ps0 = mid.kpos_of(node);
        let ps = self.kpos_of(node);
        let nb = adj[node as int]@;
        assert forall|m: int| 0 <= m < ps.len() implies 0 <= #[trigger] ps[m] < j + 1 && nb[ps[m]] == ks[m] by {
            if m < ps0.len() {
                assert(ps[m] == ps0[m]);
                assert(ks[m] == ks0[m]);
            }
        }
        assert forall|m: int, m2: int| #![trigger ps[m], ps[m2]] 0 <= m < m2 < ps.len() implies ps[m] < ps[m2] by {
            assert(ps[m] == ps0[m]);
            if m2 < ps0.len() {
                assert(ps[m2] == ps0[m2]);
            }
        }
        assert forall|m: int| 0 <= m <= ps0.len() implies #[trigger] self.scan_start(node, m) == mid.scan_start(node, m) by {
            if m > 0 {
                assert(ks[m - 1] == ks0[m - 1]);
            }
        }
        assert forall|i: int, m: int|
            #![trigger nb[i], self.scan_start(node, m)]
            0 <= i < j + 1 && 0 <= m <= ps.len() && (m == 0 || ps[m - 1] < i) && (m == ps.len()
                || i < ps[m]) implies self.ord_of(nb[i]) < self.scan_start(node, m) by {
            if m == ps.len() {
                assert(ps[m - 1] == j);
            } else {
                if m < ps0.len() {
                    assert(ps[m] == ps0[m]);
                    assert(ps0[m] < j);
                } else {
                    assert(ps[m] == j);
                }
                if m > 0 {
                    assert(ps[m - 1] == ps0[m - 1]);
                }
                assert(i < j);
                assert(mid.visited().contains(nb[i]));
                assert(self.scan_start(node, m) == mid.scan_start(node, m));
                assert(mid.ord_of(nb[i]) < mid.scan_start(node, m));
            }
        }
    }

    /// Completing `node` at number `k` keeps the forest shape.
    proof fn lemma_shape_finish(self, before: Self, adj: Seq<Vec<usize>>, node: usize, k: usize)
        requires
            before.inv(adj, None),
            before.forest_shape(adj),
            before.visited().contains(node),
            !before.done().contains(node),
            k == before.visited().len(),
            forall|i: int| 0 <= i < adj[node as int]@.len() ==> before.visited().contains(#[trigger] adj[node as int]@[i]),
            before.chain_to(adj, node, k, adj[node as int]@.len() as int),
            before.ord_of(node) < k,
            self.used == before.used,
            self.ord@ == before.ord@,
            self.parent@ == before.parent@,
            self.kids@ == before.kids@,
            self.kpos@ == before.kpos@,
            self.end@ == before.end@.insert(node, k),
            self.finished@ == before.finished@.insert(node),
        ensures
            self.forest_shape(adj),
    {
        reveal(LowLink::forest_shape);
        reveal(LowLink::chain_to);
        self.lemma_same_tree(before);
        let ks = before.kids_of(node);
        assert forall|x: usize| #[trigger] before.done().contains(x) implies self.end_of(x) == before.end_of(x) by {
        }
        assert forall|i: int| 0 <= i < ks.len() implies #[trigger] self.end_of(ks[i]) == before.end_of(ks[i]) by {
            assert(before.done().contains(ks[i]));
        }
        assert forall|x: usize| #[trigger] self.done().contains(x) implies self.ord_of(x) < self.end_of(x) <= self.visited().len() by {
            if x != node {
                assert(before.done().contains(x));
            }
        }
        assert forall|x: usize| #[trigger] self.done().contains(x) implies self.kids_chain(x) by {
            if x != node {
                assert(before.done().contains(x));
                assert(before.kids_chain(x));
                let kx = before.kids_of(x);
                assert forall|i: int| 0 <= i < kx.len() implies #[trigger] self.end_of(kx[i]) == before.end_of(kx[i]) by {
                    assert(before.done().contains(kx[i]));
                }
                if kx.len() > 0 {
                    assert(self.end_of(kx.last()) == before.end_of(kx.last()));
                }
            } else {
                if ks.len() > 0 {
                    assert(self.end_of(ks.last()) == before.end_of(ks.last()));
                }
                assert forall|i: int, i2: int|
                    #![trigger ks[i], ks[i2]]
                    0 <= i && i2 == i + 1 && i2 < ks.len() implies self.ord_of(ks[i2]) == self.end_of(ks[i]) by {
                    assert(self.end_of(ks[i]) == before.end_of(ks[i]));
                }
            }
        }
        assert forall|x: usize, i: int|
            self.done().contains(x) && 0 <= i < adj[x as int]@.len() && self.ord_of(x)
                < self.ord_of(#[trigger] adj[x as int]@[i]) implies self.ord_of(adj[x as int]@[i])
                < self.end_of(x) by {
            if x != node {
                assert(before.done().contains(x));
            } else {
                assert(before.visited().contains(adj[x as int]@[i]));
            }
        }
        assert forall|x: usize| #[trigger] self.done().contains(x) implies self.scan_order(adj, x, adj[x as int]@.len() as int) by {
            let kx = before.kids_of(x);
            assert forall|m: int| 0 <= m < kx.len() implies self.end_of(#[trigger] kx[m]) == before.end_of(kx[m]) by {
                if x != node {
                    assert(before.done().contains(x));
                }
                assert(before.done().contains(kx[m]));
            }
            if x != node {
                assert(before.done().contains(x));
            }
            self.lemma_scan_frame(before, adj, x, adj[x as int]@.len() as int);
        }
    }

    /// The invariant does not depend on where children were found.
    proof fn lemma_inv_same(self, other: Self, adj: Seq<Vec<usize>>)
        requires
            other.inv(adj, None),
            self.used == other.used,
            self.ord@ == other.ord@,
            self.low@ == other.low@,
            self.parent@ == other.parent@,
            self.kids@ == other.kids@,
            self.finished@ == other.finished@,
            self.articulations@ == other.articulations@,
            self.bridges@ == other.bridges@,
        ensures
            self.inv(adj, None),
    {
        self.lemma_same_tree(other);
        assert forall|x: usize| #[trigger] self.done().contains(x) implies self.low_equation(adj, x) by {
            assert(other.low_equation(adj, x));
        }
        assert forall|a: usize|
            #[trigger] self.articulations@.contains(a) <==> self.done().contains(a)
                && self.articulation_condition(a) by {
            assert(other.articulation_condition(a) == self.articulation_condition(a));
        }
        assert forall|b: (usize, usize)|
            #[trigger] self.bridges@.contains(b) <==> exists|c: usize|
                #[trigger] self.done().contains(c) && Some(c) != None::<usize>
                    && self.bridge_condition(c) && b == ordered_pair(
                    self.parent_of(c).unwrap(),
                    c,
                ) by {
            if self.bridges@.contains(b) {
                let c = choose|c: usize|
                    #[trigger] other.done().contains(c) && Some(c) != None::<usize>
                        && other.bridge_condition(c) && b == ordered_pair(
                        other.parent_of(c).unwrap(),
                        c,
                    );
                assert(self.done().contains(c));
            }
        }
    }

    /// The order of the lists depends only on the numbering, the subtree
    /// ends and the lists.
    proof fn lemma_order_same(self, other: Self)
        requires
            other.finish_order(),
            self.ord@ == other.ord@,
            self.end@ == other.end@,
            self.articulations@ == other.articulations@,
            self.bridges@ == other.bridges@,
        ensures
            self.finish_order(),
    {
        reveal(LowLink::finish_order);
        let arts = self.spec_articulations();
        let brs = self.spec_bridges();
        assert forall|i: int, j: int|
            #![trigger arts[i], arts[j]]
            0 <= i < j < arts.len() implies self.finishes_before(arts[i], arts[j]) by {
            assert(other.spec_articulations()[i] == arts[i]);
            assert(other.spec_articulations()[j] == arts[j]);
            assert(other.finishes_before(arts[i], arts[j]));
        }
        assert forall|i: int, j: int|
            #![trigger brs[i], brs[j]]
            0 <= i < j < brs.len() implies self.finishes_before(
                self.bridge_child(brs[i]),
                self.bridge_child(brs[j]),
            ) by {
            assert(other.spec_bridges()[i] == brs[i]);
            assert(other.spec_bridges()[j] == brs[j]);
            assert(other.finishes_before(other.bridge_child(brs[i]), other.bridge_child(brs[j])));
        }
    }

    /// Numbering a new node keeps the lists in order: none of them mentions
    /// it.
    proof fn lemma_order_enter(self, pre: Self, adj: Seq<Vec<usize>>, node: usize, k: usize)
        requires
            pre.inv(adj, None),
            pre.finish_order(),
            !pre.visited().contains(node),
            node < pre.node_bound(),
            self.ord@ == pre.ord@.update(node as int, k),
            self.end@ == pre.end@,
            self.articulations@ == pre.articulations@,
            self.bridges@ == pre.bridges@,
        ensures
            self.finish_order(),
    {
        reveal(LowLink::finish_order);
        let arts = self.spec_articulations();
        let brs = self.spec_bridges();
        assert forall|i: int| 0 <= i < arts.len() implies #[trigger] self.ord_of(arts[i]) == pre.ord_of(arts[i]) by {
            assert(pre.articulations@.contains(arts[i]));
            assert(pre.done().contains(arts[i]));
        }
        assert forall|i: int| 0 <= i < brs.len() implies #[trigger] self.bridge_child(brs[i]) == pre.bridge_child(brs[i])
            && self.ord_of(pre.bridge_child(brs[i])) == pre.ord_of(pre.bridge_child(brs[i])) by {
            let b = brs[i];
            assert(pre.bridges@.contains(b));
            let c = choose|c: usize|
                #[trigger] pre.done().contains(c) && Some(c) != None::<usize>
                    && pre.bridge_condition(c) && b == ordered_pair(
                    pre.parent_of(c).unwrap(),
                    c,
                );
            let p = pre.parent_of(c).unwrap();
            assert(pre.visited().contains(c));
            assert(pre.visited().contains(p));
            assert(self.ord_of(c) == pre.ord_of(c));
            assert(self.ord_of(p) == pre.ord_of(p));
        }
        assert forall|i: int, j: int|
            #![trigger arts[i], arts[j]]
            0 <= i < j < arts.len() implies self.finishes_before(arts[i], arts[j]) by {
            assert(pre.spec_articulations()[i] == arts[i]);
            assert(pre.spec_articulations()[j] == arts[j]);
            assert(pre.finishes_before(arts[i], arts[j]));
        }
        assert forall|i: int, j: int|
            #![trigger brs[i], brs[j]]
            0 <= i < j < brs.len() implies self.finishes_before(
                self.bridge_child(brs[i]),
                self.bridge_child(brs[j]),
            ) by {
            assert(pre.spec_bridges()[i] == brs[i]);
            assert(pre.spec_bridges()[j] == brs[j]);
            assert(self.bridge_child(brs[i]) == pre.bridge_child(brs[i]));
            assert(self.bridge_child(brs[j]) == pre.bridge_child(brs[j]));
            assert(pre.finishes_before(pre.bridge_child(brs[i]), pre.bridge_child(brs[j])));
        }
    }

    /// Judging the tree edge to `to`, whose search has just completed after
    /// every other completed one, keeps the bridges in order.
    proof fn lemma_order_bridge_push(self, before: Self, adj: Seq<Vec<usize>>, node: usize, to: usize)
        requires
            before.inv(adj, Some(to)),
            before.finish_order(),
            before.visited().contains(node),
            before.ord_of(node) < before.ord_of(to),
            forall|a: usize| #[trigger] before.done().contains(a) && a != to ==> before.finishes_before(a, to),
            self.ord@ == before.ord@,
            self.end@ == before.end@,
            self.articulations@ == before.articulations@,
            self.bridges@ == before.bridges@ || self.bridges@ == before.bridges@.push(ordered_pair(node, to)),
        ensures
            self.finish_order(),
    {
        reveal(LowLink::finish_order);
        let brs = self.bridges@;
        let b0 = before.bridges@;
        assert forall|i: int| 0 <= i < b0.len() implies #[trigger] before.finishes_before(before.bridge_child(b0[i]), to) by {
            let b = b0[i];
            assert(b0.contains(b));
            let c = choose|c: usize|
                #[trigger] before.done().contains(c) && Some(c) != Some(to)
                    && before.bridge_condition(c) && b == ordered_pair(
                    before.parent_of(c).unwrap(),
                    c,
                );
            let p = before.parent_of(c).unwrap();
            assert(before.ord_of(p) < before.ord_of(c));
            assert(before.bridge_child(b) == c);
        }
        assert(self.bridge_child(ordered_pair(node, to)) == to);
        assert forall|i: int, j: int|
            #![trigger brs[i], brs[j]]
            0 <= i < j < brs.len() implies self.finishes_before(
                self.bridge_child(brs[i]),
                self.bridge_child(brs[j]),
            ) by {
            assert(brs[i] == b0[i]);
            assert(before.spec_bridges()[i] == b0[i]);
            if j < b0.len() {
                assert(brs[j] == b0[j]);
                assert(before.spec_bridges()[j] == b0[j]);
                assert(before.finishes_before(before.bridge_child(b0[i]), before.bridge_child(b0[j])));
            } else {
                assert(brs[j] == ordered_pair(node, to));
                assert(before.finishes_before(before.bridge_child(b0[i]), to));
            }
        }
        let arts = self.spec_articulations();
        assert forall|i: int, j: int|
            #![trigger arts[i], arts[j]]
            0 <= i < j < arts.len() implies self.finishes_before(arts[i], arts[j]) by {
            assert(before.spec_articulations()[i] == arts[i]);
            assert(before.spec_articulations()[j] == arts[j]);
            assert(before.finishes_before(arts[i], arts[j]));
        }
    }

    /// Completing `node`, after every other completed node, keeps both lists
    /// in order, and every other completed node finished before it.
    proof fn lemma_order_finish(self, before: Self, pre: Self, adj: Seq<Vec<usize>>, node: usize, k: usize)
        requires
            before.inv(adj, None),
            before.finish_order(),
            before.forest_shape(adj),
            pre.forest_shape(adj),
            pre.inv(adj, None),
            before.visited().contains(node),
            !before.done().contains(node),
            !pre.visited().contains(node),
            pre.visited().subset_of(before.visited()),
            pre.done().subset_of(before.done()),
            before.ord_of(node) == pre.visited().len(),
            k == before.visited().len(),
            forall|x: usize| #[trigger] pre.done().contains(x) ==> before.end_of(x) == pre.end_of(x),
            forall|x: usize|
                #[trigger] before.visited().contains(x) && !pre.visited().contains(x)
                    ==> before.ord_of(x) >= pre.visited().len(),
            forall|x: usize| #[trigger] before.done().contains(x) && !pre.done().contains(x) ==> !pre.visited().contains(x),
            self.ord@ == before.ord@,
            self.end@ == before.end@.insert(node, k),
            self.finished@ == before.finished@.insert(node),
            self.used == before.used,
            self.bridges@ == before.bridges@,
            self.articulations@ == before.articulations@ || self.articulations@ == before.articulations@.push(node),
        ensures
            self.finish_order(),
            forall|a: usize| #[trigger] self.done().contains(a) && a != node ==> self.finishes_before(a, node),
    {
        reveal(LowLink::finish_order);
        reveal(LowLink::forest_shape);
        lemma_visited_bound(pre.visited(), pre.node_bound());
        assert forall|a: usize| #[trigger] before.done().contains(a) implies self.end_of(a) == before.end_of(a)
            && self.ord_of(a) == before.ord_of(a) by {
            assert(a != node);
        }
        assert forall|a: usize| #[trigger] self.done().contains(a) && a != node implies self.finishes_before(a, node) by {
            assert(before.done().contains(a));
            if pre.done().contains(a) {
                assert(pre.end_of(a) <= pre.visited().len());
            } else {
                assert(before.visited().contains(a));
                assert(before.ord_of(a) != before.ord_of(node));
                assert(before.end_of(a) <= before.visited().len());
            }
        }
        let arts = self.articulations@;
        let a0 = before.articulations@;
        assert forall|i: int| 0 <= i < a0.len() implies #[trigger] before.done().contains(a0[i]) && a0[i] != node by {
            assert(a0.contains(a0[i]));
        }
        assert forall|i: int, j: int|
            #![trigger arts[i], arts[j]]
            0 <= i < j < arts.len() implies self.finishes_before(arts[i], arts[j]) by {
            assert(arts[i] == a0[i]);
            assert(before.done().contains(a0[i]));
            if j < a0.len() {
                assert(arts[j] == a0[j]);
                assert(before.done().contains(a0[j]));
                assert(before.spec_articulations()[i] == a0[i]);
                assert(before.spec_articulations()[j] == a0[j]);
                assert(before.finishes_before(a0[i], a0[j]));
            } else {
                assert(arts[j] == node);
            }
        }
        let brs = self.bridges@;
        assert forall|i: int| 0 <= i < brs.len() implies #[trigger] self.bridge_child(brs[i]) == before.bridge_child(brs[i])
            && self.end_of(before.bridge_child(brs[i])) == before.end_of(before.bridge_child(brs[i])) by {
            let b = brs[i];
            assert(before.bridges@.contains(b));
            let c = choose|c: usize|
                #[trigger] before.done().contains(c) && Some(c) != None::<usize>
                    && before.bridge_condition(c) && b == ordered_pair(
                    before.parent_of(c).unwrap(),
                    c,
                );
            let p = before.parent_of(c).unwrap();
            assert(before.ord_of(p) < before.ord_of(c));
            assert(before.bridge_child(b) == c);
        }
        assert forall|i: int, j: int|
            #![trigger brs[i], brs[j]]
            0 <= i < j < brs.len() implies self.finishes_before(
                self.bridge_child(brs[i]),
                self.bridge_child(brs[j]),
            ) by {
            assert(before.spec_bridges()[i] == brs[i]);
            assert(before.spec_bridges()[j] == brs[j]);
            assert(before.finishes_before(before.bridge_child(brs[i]), before.bridge_child(brs[j])));
        }
    }

    /// Two states with the same numbering, tree and `low` values agree on
    /// every accessor.
    proof fn lemma_same_tree(self, other: Self)
        requires
            self.ord@ == other.ord@,
            self.parent@ == other.parent@,
            self.kids@ == other.kids@,
        ensures
            forall|v: usize|
                #![trigger self.ord_of(v)]
                #![trigger other.ord_of(v)]
                self.ord_of(v) == other.ord_of(v),
            self.low@ == other.low@ ==> forall|v: usize|
                #![trigger self.low_of(v)]
                #![trigger other.low_of(v)]
                self.low_of(v) == other.low_of(v),
            forall|v: usize|
                #![trigger self.parent_of(v)]
                #![trigger other.parent_of(v)]
                self.parent_of(v) == other.parent_of(v),
            forall|v: usize|
                #![trigger self.kids_of(v)]
                #![trigger other.kids_of(v)]
                self.kids_of(v) == other.kids_of(v),
    {
    }

    /// A search with no running node is complete.
    proof fn lemma_complete(self, adj: Seq<Vec<usize>>)
        requires
            self.inv(adj, None),
            self.done() == self.visited(),
        ensures
            self.complete(adj),
    {
    }
}


/// Every bridge a completed search reports joins two adjacent nodes, the
/// smaller index first.
pub proof fn lemma_bridges_are_edges(ll: LowLink, adj: Seq<Vec<usize>>, b: (usize, usize))
    requires
        ll.complete(adj),
        ll.spec_bridges().contains(b),
    ensures
        b.0 < b.1,
        adj[b.0 as int]@.contains(b.1) || adj[b.1 as int]@.contains(b.0),
{
    let c = choose|c: usize|
        #[trigger] ll.visited().contains(c) && ll.bridge_condition(c) && b == ordered_pair(
            ll.parent_of(c).unwrap(),
            c,
        );
    let p = ll.parent_of(c).unwrap();
    assert(ll.ord_of(p) < ll.ord_of(c));
    assert(adj[p as int]@.contains(c));
}

/// A search whose lists are in finishing order reports each bridge once:
/// two bridges in the list have different child ends.
pub proof fn lemma_bridges_listed_once(ll: LowLink)
    requires
        ll.finish_order(),
    ensures
        ll.spec_bridges().no_duplicates(),
{
    reveal(LowLink::finish_order);
    let brs = ll.spec_bridges();
    assert forall|i: int, j: int| 0 <= i < brs.len() && 0 <= j < brs.len() && i != j implies brs[i] != brs[j] by {
        if i < j {
            assert(ll.finishes_before(ll.bridge_child(brs[i]), ll.bridge_child(brs[j])));
        } else {
            assert(ll.finishes_before(ll.bridge_child(brs[j]), ll.bridge_child(brs[i])));
        }
    }
}

/// In an undirected graph (each edge listed at both ends), a completed search
/// never reports a node with at most one neighbor as an articulation point.
pub proof fn lemma_leaf_not_articulation(ll: LowLink, adj: Seq<Vec<usize>>, v: usize)
    requires
        ll.complete(adj),
        ll.visited().contains(v),
        adj[v as int]@.len() <= 1,
        forall|x: int, w: usize| 0 <= x < adj.len() && #[trigger] adj[x]@.contains(w) ==> adj[w as int]@.contains(x as usize),
    ensures
        !ll.spec_articulations().contains(v),
{
    let kids = ll.kids_of(v);
    if ll.spec_articulations().contains(v) {
        assert(ll.articulation_condition(v));
        assert(kids.len() >= 1);
        let c = kids[0];
        assert(ll.parent_of(c) == Some(v));
        assert(ll.visited().contains(c));
        assert(adj[v as int]@.contains(c));
        if ll.parent_of(v) is Some {
            let p = ll.parent_of(v).unwrap();
            assert(adj[p as int]@.contains(v));
            assert(ll.ord_of(p) < ll.ord_of(v));
            assert(ll.ord_of(v) < ll.ord_of(c));
            assert(adj[v as int]@.contains(p));
            assert(adj[v as int]@[0] == p);
            assert(adj[v as int]@[0] == c);
        } else {
            assert(kids.len() >= 2);
            let d = kids[1];
            assert(kids.no_duplicates());
            assert(c != d);
            assert(adj[v as int]@.contains(d));
            assert(adj[v as int]@[0] == c);
            assert(adj[v as int]@[0] == d);
        }
    }
}

} // verus!
