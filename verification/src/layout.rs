//! The route graph of the layout engine: node ids, edges, and when a route
//! node may be joined in a direction. (Node positions are floating-point
//! and live with the layout engine.)
use vstd::prelude::*;
use crate::geometry::Orientation;
use crate::text::{decimal, decimal_string};

verus! {

/// The id of a node of a route graph: its index.
#[derive(Debug, Clone, Copy, PartialEq, Eq, Hash, Structural)]
pub struct RouteNodeId(pub usize);

impl RouteNodeId {
    /// The decimal index of the node.
    pub fn to_string(&self) -> (r: String)
        ensures
            r@ == decimal(self.0 as nat),
    {
        decimal_string(self.0)
    }
}

/// An edge of a route graph, kept in the list of the node it leaves.
#[derive(Debug, Clone, Copy, PartialEq, Eq, Structural)]
pub struct RouteEdge {
    dest: RouteNodeId,
}

impl RouteEdge {
    pub closed spec fn spec_dest(self) -> RouteNodeId {
        self.dest
    }

    pub fn new(dest: RouteNodeId) -> (r: Self)
        ensures
            r.spec_dest() == dest,
    {
        Self { dest }
    }

    /// The node the edge leads to.
    pub fn dest(&self) -> (r: RouteNodeId)
        ensures
            r == self.spec_dest(),
    {
        self.dest
    }
}

/// Adds an edge to `dest` to the edges of a node, unless one is there
/// already: a node is joined to another at most once.
pub fn link_once(edges: &mut Vec<RouteEdge>, dest: RouteNodeId)
    ensures
        (exists|i: int| 0 <= i < old(edges)@.len() && (#[trigger] old(edges)@[i]).spec_dest() == dest)
            ==> final(edges)@ == old(edges)@,
        !(exists|i: int| 0 <= i < old(edges)@.len() && (#[trigger] old(edges)@[i]).spec_dest() == dest)
            ==> final(edges)@.len() == old(edges)@.len() + 1 && final(edges)@.drop_last() == old(edges)@
            && final(edges)@.last().spec_dest() == dest,
{
    let mut i: usize = 0;
    while i < edges.len()
        invariant
            i <= edges@.len(),
            edges@ == old(edges)@,
            forall|j: int| 0 <= j < i ==> (#[trigger] edges@[j]).spec_dest() != dest,
        decreases edges@.len() - i,
    {
        if edges[i].dest == dest {
            return;
        }
        i += 1;
    }
    edges.push(RouteEdge::new(dest));
    assert(edges@.drop_last() =~= old(edges)@);
}

/// Whether a route node may be joined toward `toward`: always, unless it is
/// a terminal port, which is joined only in its own direction.
pub fn connectable(own: Option<Orientation>, toward: Orientation) -> (r: bool)
    ensures
        r == (match own {
            None => true,
            Some(d) => d == toward,
        }),
{
    match own {
        None => true,
        Some(d) => d == toward,
    }
}

} // verus!
