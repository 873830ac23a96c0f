//! Graph embedded on a grid.
//!
//! - **Grid point** - a point with integer coordinates.
//! - **(m, n) grid** - the grid points `(x, y)` with `0 <= x < m` and `0 <= y < n`.
//! - Each vertex of the graph is placed at a grid point; the node at `(x, y)`
//!   has index `y * m + x`.
//! - Only neighboring vertices on the grid (horizontally or vertically adjacent)
//!   can be connected, so a vertex has at most four edges.
//! - The edges of row `y` come first (`2 * y * m + x` between `(x, y)` and
//!   `(x + 1, y)`), then the edges to row `y + 1` (`(2 * y + 1) * m + x`
//!   between `(x, y)` and `(x, y + 1)`).
use vstd::prelude::*;
use vstd::arithmetic::div_mod::{lemma_fundamental_div_mod, lemma_fundamental_div_mod_converse};
use std::marker::PhantomData;
use petgraph::{Directed, Undirected};
use fixedbitset::FixedBitSet;
use crate::algorithm::low_link::{bitset_bits, bitset_clear, bitset_grow, bitset_len, bitset_with_capacity};

verus! {

/// A point with integer coordinates.
#[derive(Debug, Clone, Copy, Hash, PartialEq, Eq, PartialOrd, Ord, Structural)]
pub struct GridPoint {
    pub x: u16,
    pub y: u16,
}

impl GridPoint {
    pub fn new(x: u16, y: u16) -> (r: Self)
        ensures
            r.x == x,
            r.y == y,
    {
        Self { x, y }
    }

    pub fn x(&self) -> (r: usize)
        ensures
            r == self.x,
    {
        self.x as usize
    }

    pub fn y(&self) -> (r: usize)
        ensures
            r == self.y,
    {
        self.y as usize
    }
}

/// The number of columns and rows of a `(m, n)` grid.
#[derive(Debug, Clone, Copy, Hash, PartialEq, Eq, Structural)]
pub struct GridShape {
    pub columns: u16,
    pub rows: u16,
}

impl GridShape {
    /// The number of node cells: `m * n`.
    pub open spec fn spec_node_bound(self) -> int {
        self.columns * self.rows
    }

    /// The number of edge cells: `m * (2 * n - 1)`, or zero for an empty grid.
    pub open spec fn spec_edge_bound(self) -> int {
        if self.columns == 0 || self.rows == 0 {
            0
        } else {
            self.columns * (self.rows * 2 - 1)
        }
    }

    /// The number of edge cells fits a `usize` (always so where `usize` has
    /// 64 bits).
    pub open spec fn edge_bound_fits(self) -> bool {
        self.spec_edge_bound() <= usize::MAX
    }

    /// The column of the node at `index`.
    pub open spec fn spec_x(self, index: int) -> int {
        index % (self.columns as int)
    }

    /// The row of the node at `index`.
    pub open spec fn spec_y(self, index: int) -> int {
        index / (self.columns as int)
    }

    /// Nodes `a` and `b` are horizontally or vertically adjacent grid points.
    pub open spec fn spec_adjacent(self, a: int, b: int) -> bool {
        let lo = if a < b { a } else { b };
        let hi = if a < b { b } else { a };
        (self.spec_y(lo) == self.spec_y(hi) && self.spec_x(hi) - self.spec_x(lo) == 1) || (
        self.spec_x(lo) == self.spec_x(hi) && self.spec_y(hi) - self.spec_y(lo) == 1)
    }

    /// The index of the edge cell between adjacent nodes `a` and `b`.
    pub open spec fn spec_edge_index(self, a: int, b: int) -> int {
        let lo = if a < b { a } else { b };
        let hi = if a < b { b } else { a };
        if self.spec_y(lo) == self.spec_y(hi) {
            self.spec_y(lo) * 2 * self.columns + self.spec_x(lo)
        } else {
            (self.spec_y(lo) * 2 + 1) * self.columns + self.spec_x(lo)
        }
    }

    pub fn new(columns: u16, rows: u16) -> (r: Self)
        ensures
            r.columns == columns,
            r.rows == rows,
    {
        Self { columns, rows }
    }

    pub fn columns(&self) -> (r: usize)
        ensures
            r == self.columns,
    {
        self.columns as usize
    }

    pub fn rows(&self) -> (r: usize)
        ensures
            r == self.rows,
    {
        self.rows as usize
    }

    /// Return the upper bound of the node indices in a grid.
    pub fn node_bound(&self) -> (r: usize)
        ensures
            r == self.spec_node_bound(),
    {
        let c = self.columns as usize;
        let r = self.rows as usize;
        assert(c * r <= 0xffff * 0xffff) by (nonlinear_arith)
            requires
                c <= 0xffff,
                r <= 0xffff,
        ;
        c * r
    }

    /// Return the upper bound of the edge indices in a grid.
    pub fn edge_bound(&self) -> (r: usize)
        requires
            self.edge_bound_fits(),
        ensures
            r == self.spec_edge_bound(),
    {
        if self.columns == 0 || self.rows == 0 {
            0
        } else {
            (self.columns as usize) * ((self.rows as usize) * 2 - 1)
        }
    }

    /// Computes the grid point of a node at `index`.
    pub fn node_point(&self, index: usize) -> (r: GridPoint)
        requires
            index < self.spec_node_bound(),
        ensures
            r.x == self.spec_x(index as int),
            r.y == self.spec_y(index as int),
    {
        let c = self.columns as usize;
        proof {
            lemma_point_in_grid(self.columns as int, self.rows as int, index as int);
        }
        let x = index % c;
        let y = index / c;
        GridPoint::new(x as u16, y as u16)
    }

    /// Computes edge index between node `a` and `b`.
    ///
    /// Both nodes must be in the grid, distinct and neighbors; the result is
    /// the same for `(a, b)` and `(b, a)`.
    pub fn edge_index_between(&self, a: usize, b: usize) -> (r: usize)
        requires
            self.edge_bound_fits(),
            a != b,
            a < self.spec_node_bound(),
            b < self.spec_node_bound(),
            self.spec_adjacent(a as int, b as int),
        ensures
            r == self.spec_edge_index(a as int, b as int),
            r < self.spec_edge_bound(),
    {
        let lo = if a < b { a } else { b };
        let hi = if a < b { b } else { a };
        let u = self.node_point(lo);
        let v = self.node_point(hi);
        proof {
            lemma_edge_index_in_bound(*self, a as int, b as int);
        }
        if u.y == v.y {
            u.y() * 2 * self.columns() + u.x()
        } else {
            (u.y() * 2 + 1) * self.columns() + u.x()
        }
    }
}

/// A node index below `m * n` has its column below `m` and its row below `n`.
proof fn lemma_point_in_grid(c: int, r: int, i: int)
    requires
        0 <= i < c * r,
        c >= 0,
        r >= 0,
    ensures
        c > 0,
        r > 0,
        0 <= i % c < c,
        0 <= i / c < r,
        i == (i / c) * c + i % c,
{
    if c == 0 {
        assert(c * r == 0);
    }
    if r <= 0 {
        assert(c * r <= 0) by (nonlinear_arith)
            requires
                c >= 0,
                r <= 0,
        ;
    }
    lemma_fundamental_div_mod(i, c);
    assert(i / c < r) by (nonlinear_arith)
        requires
            0 <= i < c * r,
            c > 0,
            i == c * (i / c) + i % c,
            0 <= i % c,
    ;
    assert(i / c >= 0) by (nonlinear_arith)
        requires
            0 <= i,
            c > 0,
            i == c * (i / c) + i % c,
            i % c < c,
    ;
    assert(c * (i / c) == (i / c) * c) by (nonlinear_arith);
}

/// The edge cell of two adjacent nodes lies below the edge bound.
proof fn lemma_edge_index_in_bound(s: GridShape, a: int, b: int)
    requires
        s.edge_bound_fits(),
        0 <= a < s.spec_node_bound(),
        0 <= b < s.spec_node_bound(),
        s.spec_adjacent(a, b),
    ensures
        0 <= s.spec_edge_index(a, b) < s.spec_edge_bound(),
{
    let c = s.columns as int;
    let r = s.rows as int;
    let lo = if a < b { a } else { b };
    let hi = if a < b { b } else { a };
    lemma_point_in_grid(c, r, lo);
    lemma_point_in_grid(c, r, hi);
    let ux = s.spec_x(lo);
    let uy = s.spec_y(lo);
    let vx = s.spec_x(hi);
    let vy = s.spec_y(hi);
    if uy == vy {
        assert(uy * 2 * c + ux < c * (r * 2 - 1)) by (nonlinear_arith)
            requires
                0 <= uy < r,
                0 <= ux,
                ux + 1 < c,
        ;
        assert(uy * 2 * c + ux >= 0) by (nonlinear_arith)
            requires
                0 <= uy,
                0 <= ux,
                c > 0,
        ;
    } else {
        assert((uy * 2 + 1) * c + ux < c * (r * 2 - 1)) by (nonlinear_arith)
            requires
                0 <= uy,
                uy + 1 < r,
                0 <= ux < c,
        ;
        assert((uy * 2 + 1) * c + ux >= 0) by (nonlinear_arith)
            requires
                0 <= uy,
                0 <= ux,
                c > 0,
        ;
    }
}

/// The edge cell of two adjacent nodes does not depend on the order in which
/// they are given, lies below the edge bound, and is shared by no other pair
/// of adjacent nodes.
pub proof fn lemma_edge_index_unique(s: GridShape, a: int, b: int, p: int, q: int)
    requires
        s.edge_bound_fits(),
        0 <= a < s.spec_node_bound(),
        0 <= b < s.spec_node_bound(),
        0 <= p < s.spec_node_bound(),
        0 <= q < s.spec_node_bound(),
        s.spec_adjacent(a, b),
        s.spec_adjacent(p, q),
        s.spec_edge_index(a, b) == s.spec_edge_index(p, q),
    ensures
        s.spec_edge_index(a, b) == s.spec_edge_index(b, a),
        0 <= s.spec_edge_index(a, b) < s.spec_edge_bound(),
        (a == p && b == q) || (a == q && b == p),
{
    lemma_edge_index_in_bound(s, a, b);
    let c = s.columns as int;
    let r = s.rows as int;
    let lo1 = if a < b { a } else { b };
    let hi1 = if a < b { b } else { a };
    let lo2 = if p < q { p } else { q };
    let hi2 = if p < q { q } else { p };
    lemma_point_in_grid(c, r, lo1);
    lemma_point_in_grid(c, r, hi1);
    lemma_point_in_grid(c, r, lo2);
    lemma_point_in_grid(c, r, hi2);
    let e = s.spec_edge_index(a, b);
    let (x1, y1) = (s.spec_x(lo1), s.spec_y(lo1));
    let (x2, y2) = (s.spec_x(lo2), s.spec_y(lo2));
    let h1 = s.spec_y(lo1) == s.spec_y(hi1);
    let h2 = s.spec_y(lo2) == s.spec_y(hi2);
    // Write each index as a quotient and a remainder by `2 * m`.
    let q1 = y1;
    let r1 = if h1 { x1 } else { c + x1 };
    let q2 = y2;
    let r2 = if h2 { x2 } else { c + x2 };
    assert(e == q1 * (2 * c) + r1) by (nonlinear_arith)
        requires
            e == (if h1 { y1 * 2 * c + x1 } else { (y1 * 2 + 1) * c + x1 }),
            q1 == y1,
            r1 == (if h1 { x1 } else { c + x1 }),
    ;
    assert(e == q2 * (2 * c) + r2) by (nonlinear_arith)
        requires
            e == (if h2 { y2 * 2 * c + x2 } else { (y2 * 2 + 1) * c + x2 }),
            q2 == y2,
            r2 == (if h2 { x2 } else { c + x2 }),
    ;
    lemma_fundamental_div_mod_converse(e, 2 * c, q1, r1);
    lemma_fundamental_div_mod_converse(e, 2 * c, q2, r2);
    assert(h1 == h2);
    assert(x1 == x2 && y1 == y2);
    assert(lo1 == lo2);
    if h1 {
        assert(s.spec_x(hi1) == x1 + 1);
        assert(hi1 == y1 * c + x1 + 1);
        assert(hi2 == y1 * c + x1 + 1);
    } else {
        assert(s.spec_x(hi1) == x1);
        assert(hi1 == (y1 + 1) * c + x1) by (nonlinear_arith)
            requires
                hi1 == s.spec_y(hi1) * c + s.spec_x(hi1),
                s.spec_y(hi1) == y1 + 1,
                s.spec_x(hi1) == x1,
        ;
        assert(hi2 == (y1 + 1) * c + x1) by (nonlinear_arith)
            requires
                hi2 == s.spec_y(hi2) * c + s.spec_x(hi2),
                s.spec_y(hi2) == y1 + 1,
                s.spec_x(hi2) == x1,
        ;
    }
}

/// petgraph's marker type for directed graphs.
#[verifier::external_type_specification]
#[verifier::external_body]
pub struct ExDirected(Directed);

/// petgraph's marker type for undirected graphs.
#[verifier::external_type_specification]
#[verifier::external_body]
pub struct ExUndirected(Undirected);

/// Whether the edges of a graph have a direction.
pub trait GraphDirection {
    spec fn spec_is_directed() -> bool;

    fn is_directed() -> (r: bool)
        ensures
            r == Self::spec_is_directed(),
    ;
}

impl GraphDirection for Directed {
    open spec fn spec_is_directed() -> bool {
        true
    }

    fn is_directed() -> (r: bool) {
        true
    }
}

impl GraphDirection for Undirected {
    open spec fn spec_is_directed() -> bool {
        false
    }

    fn is_directed() -> (r: bool) {
        false
    }
}

/// A node of a grid has at most four neighbors: the nodes just before and
/// after it in its row, and just above and below it in its column.
pub proof fn lemma_at_most_four_neighbors(shape: GridShape, a: int, b: int)
    requires
        shape.columns > 0,
        0 <= a,
        0 <= b,
        shape.spec_adjacent(a, b),
    ensures
        b == a - 1 || b == a + 1 || b == a - shape.columns || b == a + shape.columns,
{
    let c = shape.columns as int;
    lemma_fundamental_div_mod(a, c);
    lemma_fundamental_div_mod(b, c);
    let lo = if a < b { a } else { b };
    let hi = if a < b { b } else { a };
    if shape.spec_y(lo) == shape.spec_y(hi) {
        assert(hi - lo == shape.spec_x(hi) - shape.spec_x(lo)) by (nonlinear_arith)
            requires
                lo == c * (lo / c) + lo % c,
                hi == c * (hi / c) + hi % c,
                lo / c == hi / c,
                shape.spec_x(hi) == hi % c,
                shape.spec_x(lo) == lo % c,
        ;
    }
    if shape.spec_x(lo) == shape.spec_x(hi) && shape.spec_y(hi) - shape.spec_y(lo) == 1 {
        assert(hi - lo == c) by (nonlinear_arith)
            requires
                lo == c * (lo / c) + lo % c,
                hi == c * (hi / c) + hi % c,
                hi / c == lo / c + 1,
                lo % c == hi % c,
        ;
    }
}

/// The index of a node cell in a `GridGraph`.
#[derive(Debug, Clone, Copy, Hash, PartialEq, Eq, PartialOrd, Ord, Structural)]
pub struct NodeIndex {
    pub index: usize,
}

impl NodeIndex {
    pub fn new(index: usize) -> (r: Self)
        ensures
            r.index == index,
    {
        Self { index }
    }

    pub fn index(&self) -> (r: usize)
        ensures
            r == self.index,
    {
        self.index
    }
}

/// The index of an edge cell in a `GridGraph`.
#[derive(Debug, Clone, Copy, Hash, PartialEq, Eq, PartialOrd, Ord, Structural)]
pub struct EdgeIndex {
    pub index: usize,
}

impl EdgeIndex {
    pub fn new(index: usize) -> (r: Self)
        ensures
            r.index == index,
    {
        Self { index }
    }

    pub fn index(&self) -> (r: usize)
        ensures
            r == self.index,
    {
        self.index
    }
}

#[derive(Debug, Clone)]
pub struct Edge<E> {
    pub weight: E,
    pub source: NodeIndex,
    pub target: NodeIndex,
}

impl<E> Edge<E> {
    /// Return the source node index.
    pub fn source(&self) -> (r: NodeIndex)
        ensures
            r == self.source,
    {
        self.source
    }

    /// Return the target node index.
    pub fn target(&self) -> (r: NodeIndex)
        ensures
            r == self.target,
    {
        self.target
    }
}

/// The number of occupied cells.
pub open spec fn count_some<T>(s: Seq<Option<T>>) -> nat
    decreases s.len(),
{
    if s.len() == 0 {
        0
    } else {
        count_some(s.drop_last()) + if s.last() is Some {
            1nat
        } else {
            0nat
        }
    }
}

/// The indices of the occupied cells, in increasing order.
pub open spec fn occupied<T>(s: Seq<Option<T>>) -> Seq<usize>
    decreases s.len(),
{
    if s.len() == 0 {
        Seq::empty()
    } else {
        occupied(s.drop_last()) + if s.last() is Some {
            seq![(s.len() - 1) as usize]
        } else {
            Seq::empty()
        }
    }
}

/// `i` is the first free cell.
pub open spec fn first_free<T>(s: Seq<Option<T>>, i: int) -> bool {
    &&& 0 <= i < s.len()
    &&& s[i] is None
    &&& forall|j: int| 0 <= j < i ==> s[j] is Some
}

/// A graph whose nodes are placed on the cells of a `(m, n)` grid, with one
/// edge cell for each pair of neighboring node cells.
pub struct GridGraph<N, E, Ty = Directed> {
    shape: GridShape,
    nodes: Vec<Option<N>>,
    edges: Vec<Option<Edge<E>>>,
    ty: PhantomData<Ty>,
}

/// A `GridGraph` with directed edges.
pub type DiGridGraph<N, E> = GridGraph<N, E, Directed>;

/// A `GridGraph` with undirected edges.
pub type UnGridGraph<N, E> = GridGraph<N, E, Undirected>;

impl<N, E, Ty: GraphDirection> GridGraph<N, E, Ty> {
    pub closed spec fn spec_shape(self) -> GridShape {
        self.shape
    }

    /// The node cells, `None` where no node is placed.
    pub closed spec fn spec_nodes(self) -> Seq<Option<N>> {
        self.nodes@
    }

    /// The edge cells, `None` where no edge is placed.
    pub closed spec fn spec_edges(self) -> Seq<Option<Edge<E>>> {
        self.edges@
    }

    /// The grid fits its index arithmetic and the cells match the grid.
    pub open spec fn wf(self) -> bool {
        &&& self.spec_shape().edge_bound_fits()
        &&& self.spec_nodes().len() == self.spec_shape().spec_node_bound()
        &&& self.spec_edges().len() == self.spec_shape().spec_edge_bound()
    }

    /// Create a new `GridGraph` with `m x n` grid, every cell empty.
    pub fn with_grid(columns: u16, rows: u16) -> (g: Self)
        requires
            (GridShape { columns, rows }).edge_bound_fits(),
        ensures
            g.wf(),
            g.spec_shape() == (GridShape { columns, rows }),
            forall|i: int| 0 <= i < g.spec_nodes().len() ==> (g.spec_nodes()[i] is None),
            forall|i: int| 0 <= i < g.spec_edges().len() ==> (g.spec_edges()[i] is None),
    {
        let shape = GridShape::new(columns, rows);
        let node_bound = shape.node_bound();
        let edge_bound = shape.edge_bound();
        let mut nodes: Vec<Option<N>> = Vec::new();
        let mut edges: Vec<Option<Edge<E>>> = Vec::new();
        let mut i: usize = 0;
        while i < node_bound
            invariant
                i <= node_bound,
                nodes@.len() == i,
                forall|j: int| 0 <= j < i ==> (nodes@[j] is None),
            decreases node_bound - i,
        {
            nodes.push(None);
            i += 1;
        }
        let mut k: usize = 0;
        while k < edge_bound
            invariant
                k <= edge_bound,
                edges@.len() == k,
                forall|j: int| 0 <= j < k ==> (edges@[j] is None),
            decreases edge_bound - k,
        {
            edges.push(None);
            k += 1;
        }
        Self { shape, nodes, edges, ty: PhantomData }
    }

    /// Return the upper bound of the node indices in a grid.
    pub fn node_bound(&self) -> (r: usize)
        requires
            self.wf(),
        ensures
            r == self.spec_shape().spec_node_bound(),
    {
        self.shape.node_bound()
    }

    /// Return the upper bound of the edge indices in a grid.
    pub fn edge_bound(&self) -> (r: usize)
        requires
            self.wf(),
        ensures
            r == self.spec_shape().spec_edge_bound(),
    {
        self.shape.edge_bound()
    }

    /// Return the number of nodes (vertices) in the graph.
    pub fn node_count(&self) -> (r: usize)
        ensures
            r == count_some(self.spec_nodes()),
    {
        let mut count: usize = 0;
        let mut i: usize = 0;
        while i < self.nodes.len()
            invariant
                i <= self.nodes@.len(),
                count == count_some(self.nodes@.take(i as int)),
                count <= i,
            decreases self.nodes@.len() - i,
        {
            assert(self.nodes@.take(i + 1).drop_last() =~= self.nodes@.take(i as int));
            if self.nodes[i].is_some() {
                count += 1;
            }
            i += 1;
        }
        assert(self.nodes@.take(i as int) =~= self.nodes@);
        count
    }

    /// Return the number of edges in the graph.
    pub fn edge_count(&self) -> (r: usize)
        ensures
            r == count_some(self.spec_edges()),
    {
        let mut count: usize = 0;
        let mut i: usize = 0;
        while i < self.edges.len()
            invariant
                i <= self.edges@.len(),
                count == count_some(self.edges@.take(i as int)),
                count <= i,
            decreases self.edges@.len() - i,
        {
            assert(self.edges@.take(i + 1).drop_last() =~= self.edges@.take(i as int));
            if self.edges[i].is_some() {
                count += 1;
            }
            i += 1;
        }
        assert(self.edges@.take(i as int) =~= self.edges@);
        count
    }

    /// Whether the graph has directed edges or not.
    pub fn is_directed(&self) -> (r: bool)
        ensures
            r == Ty::spec_is_directed(),
    {
        Ty::is_directed()
    }

    /// Add a node with associated data `weight` at the first free cell of
    /// the grid, and return its index. The grid must not be full.
    pub fn add_node(&mut self, weight: N) -> (r: NodeIndex)
        requires
            exists|i: int| 0 <= i < old(self).spec_nodes().len() && (old(self).spec_nodes()[i] is None),
        ensures
            first_free(old(self).spec_nodes(), r.index as int),
            final(self).spec_nodes() == old(self).spec_nodes().update(r.index as int, Some(weight)),
            final(self).spec_edges() == old(self).spec_edges(),
            final(self).spec_shape() == old(self).spec_shape(),
    {
        let mut i: usize = 0;
        while i < self.nodes.len()
            invariant
                i <= self.nodes@.len(),
                self.nodes@ == old(self).spec_nodes(),
                forall|j: int| 0 <= j < i ==> (self.nodes@[j] is Some),
            ensures
                i <= self.nodes@.len(),
                self.nodes@ == old(self).spec_nodes(),
                forall|j: int| 0 <= j < i ==> (self.nodes@[j] is Some),
                i < self.nodes@.len() ==> (self.nodes@[i as int] is None),
            decreases self.nodes@.len() - i,
        {
            if self.nodes[i].is_none() {
                break;
            }
            i += 1;
        }
        if i == self.nodes.len() {
            proof {
                let w = choose|j: int| 0 <= j < old(self).spec_nodes().len() && old(self).spec_nodes()[j] is None;
                assert(self.nodes@[w] is Some);
            }
        }
        self.nodes.set(i, Some(weight));
        NodeIndex::new(i)
    }

    /// Access the weight for node `a`; `None` where no node is placed.
    pub fn node_weight(&self, a: NodeIndex) -> (r: Option<&N>)
        ensures
            r.is_some() <==> (a.index < self.spec_nodes().len() && self.spec_nodes()[a.index as int] is Some),
            r.is_some() ==> Some(*r.unwrap()) == self.spec_nodes()[a.index as int],
    {
        if a.index < self.nodes.len() {
            self.nodes[a.index].as_ref()
        } else {
            None
        }
    }

    /// The weight of node `a`, if a node is placed there, to change in place.
    pub fn node_weight_mut(&mut self, a: NodeIndex) -> (r: Option<&mut N>)
        ensures
            r is Some <==> (a.index < old(self).spec_nodes().len() && old(self).spec_nodes()[a.index as int] is Some),
            r matches Some(w) ==> Some(*w) == old(self).spec_nodes()[a.index as int] && final(self).spec_nodes()
                == old(self).spec_nodes().update(a.index as int, Some(*final(w))),
            r is None ==> final(self).spec_nodes() == old(self).spec_nodes(),
            final(self).spec_edges() == old(self).spec_edges(),
            final(self).spec_shape() == old(self).spec_shape(),
    {
        if a.index < self.nodes.len() {
            self.nodes[a.index].as_mut()
        } else {
            None
        }
    }

    /// Add an edge from `a` to `b` with its associated data `weight`, and
    /// return the index of its edge cell.
    ///
    /// Both nodes must exist, be distinct and be neighbors in the grid, and
    /// their edge cell must be free (one cell serves both directions).
    pub fn add_edge(&mut self, a: NodeIndex, b: NodeIndex, weight: E) -> (r: EdgeIndex)
        requires
            old(self).wf(),
            a.index != b.index,
            a.index < old(self).spec_shape().spec_node_bound(),
            b.index < old(self).spec_shape().spec_node_bound(),
            old(self).spec_nodes()[a.index as int] is Some,
            old(self).spec_nodes()[b.index as int] is Some,
            old(self).spec_shape().spec_adjacent(a.index as int, b.index as int),
            old(self).spec_edges()[old(self).spec_shape().spec_edge_index(
                a.index as int,
                b.index as int,
            )] is None,
        ensures
            final(self).wf(),
            r.index == old(self).spec_shape().spec_edge_index(a.index as int, b.index as int),
            final(self).spec_edges() == old(self).spec_edges().update(
                r.index as int,
                Some(Edge { weight, source: a, target: b }),
            ),
            final(self).spec_nodes() == old(self).spec_nodes(),
            final(self).spec_shape() == old(self).spec_shape(),
    {
        let edge_idx = self.shape.edge_index_between(a.index(), b.index());
        let edge = Edge { weight, source: a, target: b };
        self.edges.set(edge_idx, Some(edge));
        EdgeIndex::new(edge_idx)
    }

    /// A map of visited nodes for a traversal: one unset bit per placed node.
    pub fn visit_map(&self) -> (r: FixedBitSet)
        ensures
            bitset_bits(r) == Set::<usize>::empty(),
            bitset_len(r) == count_some(self.spec_nodes()),
    {
        let n = self.node_count();
        bitset_with_capacity(n)
    }

    /// Clears a map of visited nodes and makes it hold at least one bit per
    /// placed node.
    pub fn reset_map(&self, map: &mut FixedBitSet)
        ensures
            bitset_bits(*final(map)) == Set::<usize>::empty(),
            bitset_len(*final(map)) == if count_some(self.spec_nodes()) > bitset_len(*old(map)) {
                count_some(self.spec_nodes())
            } else {
                bitset_len(*old(map))
            },
    {
        bitset_clear(map);
        let n = self.node_count();
        bitset_grow(map, n);
    }

    /// The indices of the placed nodes, in index order.
    pub fn node_identifiers(&self) -> (r: NodeIdentifiers)
        ensures
            r.spec_remaining() == occupied(self.spec_nodes()),
    {
        self.node_indices()
    }

    /// The index of node `a`.
    pub fn to_index(&self, a: NodeIndex) -> (r: usize)
        ensures
            r == a.index,
    {
        a.index()
    }

    /// The node of index `i`.
    pub fn from_index(&self, i: usize) -> (r: NodeIndex)
        ensures
            r.index == i,
    {
        NodeIndex::new(i)
    }

    /// The weight of node `a`, which must be placed.
    pub fn index(&self, a: NodeIndex) -> (r: &N)
        requires
            a.index < self.spec_nodes().len(),
            self.spec_nodes()[a.index as int] is Some,
        ensures
            Some(*r) == self.spec_nodes()[a.index as int],
    {
        self.nodes[a.index].as_ref().unwrap()
    }

    /// The weight of node `a`, which must be placed, to change in place.
    pub fn index_mut(&mut self, a: NodeIndex) -> (r: &mut N)
        requires
            a.index < old(self).spec_nodes().len(),
            old(self).spec_nodes()[a.index as int] is Some,
        ensures
            Some(*r) == old(self).spec_nodes()[a.index as int],
            final(self).spec_nodes() == old(self).spec_nodes().update(a.index as int, Some(*final(r))),
            final(self).spec_edges() == old(self).spec_edges(),
            final(self).spec_shape() == old(self).spec_shape(),
    {
        self.nodes[a.index].as_mut().unwrap()
    }

    /// The weight of edge `e`, which must be placed.
    pub fn edge_weight(&self, e: EdgeIndex) -> (r: &E)
        requires
            e.index < self.spec_edges().len(),
            self.spec_edges()[e.index as int] is Some,
        ensures
            *r == self.spec_edges()[e.index as int]->0.weight,
    {
        &self.edges[e.index].as_ref().unwrap().weight
    }

    /// Return the indices of the nodes of the graph, in increasing order.
    pub fn node_indices(&self) -> (r: NodeIdentifiers)
        ensures
            r.spec_remaining() == occupied(self.spec_nodes()),
    {
        let mut indices: Vec<usize> = Vec::new();
        let mut i: usize = 0;
        while i < self.nodes.len()
            invariant
                i <= self.nodes@.len(),
                indices@ == occupied(self.nodes@.take(i as int)),
            decreases self.nodes@.len() - i,
        {
            assert(self.nodes@.take(i + 1).drop_last() =~= self.nodes@.take(i as int));
            if self.nodes[i].is_some() {
                indices.push(i);
            }
            assert(indices@ =~= occupied(self.nodes@.take(i + 1)));
            i += 1;
        }
        assert(self.nodes@.take(i as int) =~= self.nodes@);
        NodeIdentifiers::new(IndexIterator::new(indices))
    }
}

/// Walks through a list of indices.
#[derive(Debug, Clone)]
pub struct IndexIterator {
    indices: Vec<usize>,
    current: usize,
}

impl IndexIterator {
    /// The indices not handed out yet.
    pub closed spec fn spec_remaining(self) -> Seq<usize> {
        self.indices@.skip(self.current as int)
    }

    pub closed spec fn wf(self) -> bool {
        self.current <= self.indices@.len()
    }

    pub fn new(indices: Vec<usize>) -> (r: Self)
        ensures
            r.wf(),
            r.spec_remaining() == indices@,
    {
        let r = Self { indices, current: 0 };
        assert(r.indices@.skip(0) =~= r.indices@);
        r
    }

    /// Hand out the next index, or `None` once all are handed out.
    pub fn next(&mut self) -> (r: Option<usize>)
        requires
            old(self).wf(),
        ensures
            final(self).wf(),
            old(self).spec_remaining().len() == 0 ==> r is None && final(self).spec_remaining()
                == old(self).spec_remaining(),
            old(self).spec_remaining().len() > 0 ==> r == Some(old(self).spec_remaining()[0])
                && final(self).spec_remaining() == old(self).spec_remaining().drop_first(),
    {
        let i = self.current;
        if i < self.indices.len() {
            self.current = i + 1;
            assert(self.indices@.skip(i + 1) =~= self.indices@.skip(i as int).drop_first());
            Some(self.indices[i])
        } else {
            None
        }
    }
}

/// Walks through the node indices of a `GridGraph`.
#[derive(Debug, Clone)]
pub struct NodeIdentifiers {
    iter: IndexIterator,
}

impl NodeIdentifiers {
    /// The node indices not handed out yet.
    pub closed spec fn spec_remaining(self) -> Seq<usize> {
        self.iter.spec_remaining()
    }

    pub closed spec fn wf(self) -> bool {
        self.iter.wf()
    }

    pub fn new(iter: IndexIterator) -> (r: Self)
        requires
            iter.wf(),
        ensures
            r.wf(),
            r.spec_remaining() == iter.spec_remaining(),
    {
        Self { iter }
    }

    /// Hand out the next node index, or `None` once all are handed out.
    pub fn next(&mut self) -> (r: Option<NodeIndex>)
        requires
            old(self).wf(),
        ensures
            final(self).wf(),
            old(self).spec_remaining().len() == 0 ==> r is None && final(self).spec_remaining()
                == old(self).spec_remaining(),
            old(self).spec_remaining().len() > 0 ==> r == Some(
                NodeIndex { index: old(self).spec_remaining()[0] },
            ) && final(self).spec_remaining() == old(self).spec_remaining().drop_first(),
    {
        match self.iter.next() {
            Some(i) => Some(NodeIndex::new(i)),
            None => None,
        }
    }
}

} // verus!
