//! Mid-level IR: the document of shapes and connections that a diagram is
//! compiled into before layout and rendering.
//!
//! Node `0` is the body, the container of the top-level shapes. Records
//! contain fields. Edges connect shapes. Positions and sizes are assigned by
//! the layout engine and kept beside the document.
use vstd::prelude::*;
use petgraph::graph::{EdgeIndex, Graph, NodeIndex};
use petgraph::Undirected;
use crate::color::WebColor;
use crate::text::{decimal, decimal_string, push_char, push_decimal, string_of};

verus! {

/// petgraph's `Graph`, the storage of a document's nodes and edges.
#[verifier::external_type_specification]
#[verifier::external_body]
#[verifier::reject_recursive_types(N)]
#[verifier::reject_recursive_types(E)]
#[verifier::reject_recursive_types(Ty)]
#[verifier::reject_recursive_types(Ix)]
pub struct ExGraph<N, E, Ty, Ix>(Graph<N, E, Ty, Ix>);

/// The graph type that stores a document.
pub type DocumentGraph = Graph<NodeData, EdgeData, Undirected, u32>;

/// The node weights of a document graph, in index order.
pub uninterp spec fn graph_nodes(g: Graph<NodeData, EdgeData, Undirected, u32>) -> Seq<NodeData>;

/// The edge weights of a document graph, in index order.
pub uninterp spec fn graph_edges(g: Graph<NodeData, EdgeData, Undirected, u32>) -> Seq<EdgeData>;

/// The end points (source, target) of the edges of a document graph, in
/// index order.
pub uninterp spec fn graph_edge_ends(g: Graph<NodeData, EdgeData, Undirected, u32>) -> Seq<(usize, usize)>;

/// `Graph::new_undirected`: a graph without nodes or edges.
#[verifier::external_body]
fn graph_new() -> (g: DocumentGraph)
    ensures
        graph_nodes(g) == Seq::<NodeData>::empty(),
        graph_edges(g) == Seq::<EdgeData>::empty(),
        graph_edge_ends(g) == Seq::<(usize, usize)>::empty(),
{
    Graph::new_undirected()
}

/// `Graph::add_node`: appends a node and returns its index. petgraph panics
/// when the new index would be `u32::MAX`.
#[verifier::external_body]
fn graph_add_node(g: &mut DocumentGraph, weight: NodeData) -> (r: usize)
    requires
        graph_nodes(*old(g)).len() < u32::MAX,
    ensures
        r == graph_nodes(*old(g)).len(),
        graph_nodes(*final(g)) == graph_nodes(*old(g)).push(weight),
        graph_edges(*final(g)) == graph_edges(*old(g)),
        graph_edge_ends(*final(g)) == graph_edge_ends(*old(g)),
{
    g.add_node(weight).index()
}

/// `Graph::node_weight`: the weight of node `i`, if it exists.
#[verifier::external_body]
fn graph_node_weight(g: &DocumentGraph, i: usize) -> (r: Option<&NodeData>)
    requires
        i <= u32::MAX,
    ensures
        r is Some <==> i < graph_nodes(*g).len(),
        r matches Some(w) ==> *w == graph_nodes(*g)[i as int],
{
    g.node_weight(NodeIndex::new(i))
}

/// `Graph::node_weight_mut`: the weight of node `i`, if it exists, to change
/// in place; nothing else in the graph changes.
#[verifier::external_body]
fn graph_node_weight_mut(g: &mut DocumentGraph, i: usize) -> (r: Option<&mut NodeData>)
    requires
        i <= u32::MAX,
    ensures
        r is Some <==> i < graph_nodes(*old(g)).len(),
        r matches Some(w) ==> *w == graph_nodes(*old(g))[i as int] && graph_nodes(*final(g))
            == graph_nodes(*old(g)).update(i as int, *final(w)),
        r is None ==> graph_nodes(*final(g)) == graph_nodes(*old(g)),
        graph_edges(*final(g)) == graph_edges(*old(g)),
        graph_edge_ends(*final(g)) == graph_edge_ends(*old(g)),
{
    g.node_weight_mut(NodeIndex::new(i))
}

/// `Graph::add_edge`: appends an edge from `a` to `b` and returns its index.
/// petgraph panics when a node does not exist or when the new index would be
/// `u32::MAX`.
#[verifier::external_body]
fn graph_add_edge(g: &mut DocumentGraph, a: usize, b: usize, weight: EdgeData) -> (r: usize)
    requires
        a < graph_nodes(*old(g)).len(),
        b < graph_nodes(*old(g)).len(),
        graph_edges(*old(g)).len() < u32::MAX,
    ensures
        r == graph_edges(*old(g)).len(),
        graph_nodes(*final(g)) == graph_nodes(*old(g)),
        graph_edges(*final(g)) == graph_edges(*old(g)).push(weight),
        graph_edge_ends(*final(g)) == graph_edge_ends(*old(g)).push((a, b)),
{
    g.add_edge(NodeIndex::new(a), NodeIndex::new(b), weight).index()
}

/// `Graph::edge_weight`: the weight of edge `e`, if it exists.
#[verifier::external_body]
fn graph_edge_weight(g: &DocumentGraph, e: usize) -> (r: Option<&EdgeData>)
    requires
        e <= u32::MAX,
    ensures
        r is Some <==> e < graph_edges(*g).len(),
        r matches Some(w) ==> *w == graph_edges(*g)[e as int],
{
    g.edge_weight(EdgeIndex::new(e))
}

/// `Graph::edge_endpoints`: the (source, target) of edge `e`, if it exists.
#[verifier::external_body]
fn graph_edge_endpoints(g: &DocumentGraph, e: usize) -> (r: Option<(usize, usize)>)
    requires
        e <= u32::MAX,
    ensures
        r is Some <==> e < graph_edge_ends(*g).len(),
        r matches Some(p) ==> p == graph_edge_ends(*g)[e as int],
{
    g.edge_endpoints(EdgeIndex::new(e)).map(|(a, b)| (a.index(), b.index()))
}

/// `Graph::edge_count`: the number of edges.
#[verifier::external_body]
fn graph_edge_count(g: &DocumentGraph) -> (r: usize)
    ensures
        r == graph_edges(*g).len(),
        r == graph_edge_ends(*g).len(),
{
    g.edge_count()
}

/// The id of a node of a document: its index.
#[derive(Debug, Clone, Copy, PartialEq, Eq, Hash, Structural)]
pub struct NodeId(pub usize);

impl NodeId {
    /// The decimal index of the node.
    pub fn to_string(&self) -> (r: String)
        ensures
            r@ == decimal(self.0 as nat),
    {
        decimal_string(self.0)
    }
}

/// The id of an edge of a document: its index.
#[derive(Debug, Clone, Copy, PartialEq, Eq, Hash, Structural)]
pub struct EdgeId(pub usize);

impl EdgeId {
    /// The decimal index of the edge.
    pub fn to_string(&self) -> (r: String)
        ensures
            r@ == decimal(self.0 as nat),
    {
        decimal_string(self.0)
    }
}

/// The id of a terminal port: its node and its position among the node's
/// ports.
#[derive(Debug, Clone, Copy, PartialEq, Eq, Hash, Structural)]
pub struct TerminalPortId(pub NodeId, pub usize);

impl TerminalPortId {
    /// `node:position`.
    pub fn to_string(&self) -> (r: String)
        ensures
            r@ == decimal(self.0.0 as nat) + seq![':'] + decimal(self.1 as nat),
    {
        let mut s = decimal_string(self.0.0);
        push_char(&mut s, ':');
        push_decimal(&mut s, self.1);
        s
    }
}

/// A node of a document: its shape and, for container shapes, its children.
#[derive(Debug)]
pub struct NodeData {
    pub kind: ShapeKind,
    pub children: Vec<NodeId>,
}

impl NodeData {
    pub fn new(kind: ShapeKind) -> (r: Self)
        ensures
            r.kind == kind,
            r.children@ == Seq::<NodeId>::empty(),
    {
        Self { kind, children: Vec::new() }
    }

    pub fn kind(&self) -> (r: &ShapeKind)
        ensures
            *r == self.kind,
    {
        &self.kind
    }

    pub fn children(&self) -> (r: &Vec<NodeId>)
        ensures
            r@ == self.children@,
    {
        &self.children
    }

    pub fn append_child(&mut self, node_id: NodeId)
        ensures
            final(self).children@ == old(self).children@.push(node_id),
            final(self).kind == old(self).kind,
    {
        self.children.push(node_id);
    }
}

/// An edge of a document: the nodes it connects.
#[derive(Debug, Clone, Copy, PartialEq, Eq, Structural)]
pub struct EdgeData {
    pub source_id: NodeId,
    pub target_id: NodeId,
}

impl EdgeData {
    pub fn new(source_id: NodeId, target_id: NodeId) -> (r: Self)
        ensures
            r.source_id == source_id,
            r.target_id == target_id,
    {
        Self { source_id, target_id }
    }

    pub fn source_id(&self) -> (r: NodeId)
        ensures
            r == self.source_id,
    {
        self.source_id
    }

    pub fn target_id(&self) -> (r: NodeId)
        ensures
            r == self.target_id,
    {
        self.target_id
    }
}

#[derive(Debug)]
pub enum ShapeKind {
    Body(BodyShape),
    Record(RecordShape),
    Field(FieldShape),
}

#[derive(Debug, Clone, Copy, PartialEq, Eq, Structural)]
pub struct BodyShape {}

impl Default for BodyShape {
    fn default() -> (r: Self)
        ensures
            r == (BodyShape {}),
    {
        BodyShape {}
    }
}

#[derive(Debug, Clone, Copy, PartialEq, Eq, Structural)]
pub struct RecordShape {
    pub rounded: bool,
    pub bg_color: Option<WebColor>,
    pub border_color: Option<WebColor>,
}

impl Default for RecordShape {
    fn default() -> (r: Self)
        ensures
            r == (RecordShape { rounded: false, bg_color: None, border_color: None }),
    {
        RecordShape { rounded: false, bg_color: None, border_color: None }
    }
}

#[derive(Debug)]
pub struct FieldShape {
    pub title: TextSpan,
    pub subtitle: Option<TextSpan>,
    pub badge: Option<Badge>,
    pub bg_color: Option<WebColor>,
    pub border_color: Option<WebColor>,
}

#[derive(Debug)]
pub struct TextSpan {
    pub text: String,
    pub color: Option<WebColor>,
    pub font_family: Option<FontFamily>,
    pub font_weight: Option<FontWeight>,
    pub font_size: Option<FontSize>,
}

#[derive(Debug)]
pub struct Badge {
    pub text: String,
    pub color: Option<WebColor>,
    pub bg_color: Option<WebColor>,
}

impl Badge {
    /// The text span that draws the badge: its text and color in a very small
    /// sans-serif font.
    pub fn into_text_span(&self) -> (r: TextSpan)
        ensures
            r.text@ == self.text@,
            r.color == self.color,
            r.font_family == Some(FontFamily::SansSerif3),
            r.font_weight == None::<FontWeight>,
            r.font_size == Some(FontSize::XXSmall),
    {
        TextSpan {
            text: self.text.clone(),
            color: self.color,
            font_family: Some(FontFamily::SansSerif3),
            font_weight: None,
            font_size: Some(FontSize::XXSmall),
        }
    }
}

#[derive(Debug, Clone, Copy, Hash, PartialEq, Eq, Structural)]
pub enum FontFamily {
    SansSerif1,
    SansSerif2,
    SansSerif3,
    Monospace1,
    Monospace2,
}

#[derive(Debug, Clone, Copy, Hash, PartialEq, Eq, Structural)]
pub enum FontWeight {
    Normal,
    Bold,
    Lighter,
    Bolder,
}

impl Default for FontWeight {
    fn default() -> (r: Self)
        ensures
            r == FontWeight::Normal,
    {
        FontWeight::Normal
    }
}

#[derive(Debug, Clone, Copy, Hash, PartialEq, Eq, Structural)]
pub enum FontSize {
    XXSmall,
    XSmall,
    Small,
    Medium,
    Large,
    XLarge,
    XXLarge,
    XXXLarge,
}

impl Default for FontSize {
    fn default() -> (r: Self)
        ensures
            r == FontSize::Medium,
    {
        FontSize::Medium
    }
}


impl FontFamily {
    /// The CSS value of the font family.
    pub open spec fn spec_text(self) -> Seq<char> {
        match self {
            FontFamily::SansSerif1 => seq!['A', 'r', 'i', 'a', 'l', ',', 's', 'a', 'n', 's', '-', 's', 'e', 'r', 'i', 'f'],
            FontFamily::SansSerif2 => seq!['V', 'e', 'r', 'd', 'a', 'n', 'a', ',', 's', 'a', 'n', 's', '-', 's', 'e', 'r', 'i', 'f'],
            FontFamily::SansSerif3 => seq!['T', 'r', 'e', 'b', 'u', 'c', 'h', 'e', 't', ' ', 'M', 'S', ',', 's', 'a', 'n', 's', '-', 's', 'e', 'r', 'i', 'f'],
            FontFamily::Monospace1 => seq!['M', 'o', 'n', 'a', 'c', 'o', ',', 'L', 'u', 'c', 'i', 'd', 'a', ' ', 'C', 'o', 'n', 's', 'o', 'l', 'e', ',', 'm', 'o', 'n', 'o', 's', 'p', 'a', 'c', 'e'],
            FontFamily::Monospace2 => seq!['C', 'o', 'u', 'r', 'i', 'e', 'r', ' ', 'N', 'e', 'w', ',', 'm', 'o', 'n', 'o', 's', 'p', 'a', 'c', 'e'],
        }
    }

    /// The CSS value of the font family, as SVG attributes take it.
    pub fn to_string(&self) -> (r: String)
        ensures
            r@ == self.spec_text(),
    {
        let r = match self {
            FontFamily::SansSerif1 => string_of("Arial,sans-serif"),
            FontFamily::SansSerif2 => string_of("Verdana,sans-serif"),
            FontFamily::SansSerif3 => string_of("Trebuchet MS,sans-serif"),
            FontFamily::Monospace1 => string_of("Monaco,Lucida Console,monospace"),
            FontFamily::Monospace2 => string_of("Courier New,monospace"),
        };
        proof {
            reveal_strlit("Arial,sans-serif");
            reveal_strlit("Verdana,sans-serif");
            reveal_strlit("Trebuchet MS,sans-serif");
            reveal_strlit("Monaco,Lucida Console,monospace");
            reveal_strlit("Courier New,monospace");
        }
        r
    }
}

impl FontWeight {
    /// The CSS value of the font weight.
    pub open spec fn spec_text(self) -> Seq<char> {
        match self {
            FontWeight::Normal => seq!['n', 'o', 'r', 'm', 'a', 'l'],
            FontWeight::Bold => seq!['b', 'o', 'l', 'd'],
            FontWeight::Lighter => seq!['l', 'i', 'g', 'h', 't', 'e', 'r'],
            FontWeight::Bolder => seq!['b', 'o', 'l', 'd', 'e', 'r'],
        }
    }

    /// The CSS value of the font weight, as SVG attributes take it.
    pub fn to_string(&self) -> (r: String)
        ensures
            r@ == self.spec_text(),
    {
        let r = match self {
            FontWeight::Normal => string_of("normal"),
            FontWeight::Bold => string_of("bold"),
            FontWeight::Lighter => string_of("lighter"),
            FontWeight::Bolder => string_of("bolder"),
        };
        proof {
            reveal_strlit("normal");
            reveal_strlit("bold");
            reveal_strlit("lighter");
            reveal_strlit("bolder");
        }
        r
    }
}

impl FontSize {
    /// The CSS value of the font size.
    pub open spec fn spec_text(self) -> Seq<char> {
        match self {
            FontSize::XXSmall => seq!['x', 'x', '-', 's', 'm', 'a', 'l', 'l'],
            FontSize::XSmall => seq!['x', '-', 's', 'm', 'a', 'l', 'l'],
            FontSize::Small => seq!['s', 'm', 'a', 'l', 'l'],
            FontSize::Medium => seq!['m', 'e', 'd', 'i', 'u', 'm'],
            FontSize::Large => seq!['l', 'a', 'r', 'g', 'e'],
            FontSize::XLarge => seq!['x', '-', 'l', 'a', 'r', 'g', 'e'],
            FontSize::XXLarge => seq!['x', 'x', '-', 'l', 'a', 'r', 'g', 'e'],
            FontSize::XXXLarge => seq!['x', 'x', 'x', '-', 'l', 'a', 'r', 'g', 'e'],
        }
    }

    /// The CSS value of the font size, as SVG attributes take it.
    pub fn to_string(&self) -> (r: String)
        ensures
            r@ == self.spec_text(),
    {
        let r = match self {
            FontSize::XXSmall => string_of("xx-small"),
            FontSize::XSmall => string_of("x-small"),
            FontSize::Small => string_of("small"),
            FontSize::Medium => string_of("medium"),
            FontSize::Large => string_of("large"),
            FontSize::XLarge => string_of("x-large"),
            FontSize::XXLarge => string_of("xx-large"),
            FontSize::XXXLarge => string_of("xxx-large"),
        };
        proof {
            reveal_strlit("xx-small");
            reveal_strlit("x-small");
            reveal_strlit("small");
            reveal_strlit("medium");
            reveal_strlit("large");
            reveal_strlit("x-large");
            reveal_strlit("xx-large");
            reveal_strlit("xxx-large");
        }
        r
    }
}

/// What a text span shows: its characters and style.
pub struct TextSpanView {
    pub text: Seq<char>,
    pub color: Option<WebColor>,
    pub font_family: Option<FontFamily>,
    pub font_weight: Option<FontWeight>,
    pub font_size: Option<FontSize>,
}

impl View for TextSpan {
    type V = TextSpanView;

    open spec fn view(&self) -> TextSpanView {
        TextSpanView {
            text: self.text@,
            color: self.color,
            font_family: self.font_family,
            font_weight: self.font_weight,
            font_size: self.font_size,
        }
    }
}

/// What a badge shows.
pub struct BadgeView {
    pub text: Seq<char>,
    pub color: Option<WebColor>,
    pub bg_color: Option<WebColor>,
}

impl View for Badge {
    type V = BadgeView;

    open spec fn view(&self) -> BadgeView {
        BadgeView { text: self.text@, color: self.color, bg_color: self.bg_color }
    }
}

/// What a field shape shows.
pub struct FieldShapeView {
    pub title: TextSpanView,
    pub subtitle: Option<TextSpanView>,
    pub badge: Option<BadgeView>,
    pub bg_color: Option<WebColor>,
    pub border_color: Option<WebColor>,
}

impl View for FieldShape {
    type V = FieldShapeView;

    open spec fn view(&self) -> FieldShapeView {
        FieldShapeView {
            title: self.title@,
            subtitle: match self.subtitle {
                Some(t) => Some(t@),
                None => None,
            },
            badge: match self.badge {
                Some(b) => Some(b@),
                None => None,
            },
            bg_color: self.bg_color,
            border_color: self.border_color,
        }
    }
}

/// What a shape shows.
pub enum ShapeView {
    Body,
    Record(RecordShape),
    Field(FieldShapeView),
}

impl View for ShapeKind {
    type V = ShapeView;

    open spec fn view(&self) -> ShapeView {
        match self {
            ShapeKind::Body(_) => ShapeView::Body,
            ShapeKind::Record(r) => ShapeView::Record(*r),
            ShapeKind::Field(f) => ShapeView::Field(f@),
        }
    }
}

/// What a node shows: its shape and its children.
pub struct NodeView {
    pub kind: ShapeView,
    pub children: Seq<NodeId>,
}

impl View for NodeData {
    type V = NodeView;

    open spec fn view(&self) -> NodeView {
        NodeView { kind: self.kind@, children: self.children@ }
    }
}

/// A document, as it is read: the view of each node, and the edges.
/// A document: its graph of nodes and edges, with the body at node `0`.
#[derive(Debug)]
pub struct Document {
    graph: DocumentGraph,
    body_id: NodeId,
}

impl Document {
    /// The nodes, in index order.
    pub closed spec fn spec_nodes(self) -> Seq<NodeData> {
        graph_nodes(self.graph)
    }

    /// The edges, in index order.
    pub closed spec fn spec_edges(self) -> Seq<EdgeData> {
        graph_edges(self.graph)
    }

    /// The end points of the edges in the graph, in index order.
    pub closed spec fn spec_edge_ends(self) -> Seq<(usize, usize)> {
        graph_edge_ends(self.graph)
    }

    /// What each node shows, in index order.
    pub open spec fn spec_node_views(self) -> Seq<NodeView> {
        self.spec_nodes().map_values(|n: NodeData| n@)
    }

    pub closed spec fn spec_body_id(self) -> NodeId {
        self.body_id
    }

    /// The body is node `0`, every edge joins existing nodes and records its
    /// end points, and the graph is within petgraph's 32-bit indices.
    pub open spec fn wf(self) -> bool {
        &&& self.spec_body_id() == NodeId(0)
        &&& self.spec_nodes().len() >= 1
        &&& self.spec_nodes()[0].kind is Body
        &&& self.spec_nodes().len() <= u32::MAX
        &&& self.spec_edges().len() <= u32::MAX
        &&& self.spec_edge_ends().len() == self.spec_edges().len()
        &&& forall|e: int|
            0 <= e < self.spec_edges().len() ==> {
                let ends = #[trigger] self.spec_edge_ends()[e];
                &&& ends.0 < self.spec_nodes().len()
                &&& ends.1 < self.spec_nodes().len()
                &&& ends.0 == self.spec_edges()[e].source_id.0
                &&& ends.1 == self.spec_edges()[e].target_id.0
            }
    }

    /// A document with only the (empty) body.
    pub fn new() -> (r: Self)
        ensures
            r.wf(),
            r.spec_nodes().len() == 1,
            r.spec_nodes()[0].kind == ShapeKind::Body(BodyShape {}),
            r.spec_nodes()[0].children@ == Seq::<NodeId>::empty(),
            r.spec_edges() == Seq::<EdgeData>::empty(),
    {
        let node = NodeData::new(ShapeKind::Body(BodyShape {}));
        let mut graph = graph_new();
        let body_index = graph_add_node(&mut graph, node);
        Self { graph, body_id: NodeId(body_index) }
    }

    /// The body node.
    pub fn body(&self) -> (r: &NodeData)
        requires
            self.wf(),
        ensures
            *r == self.spec_nodes()[0],
    {
        graph_node_weight(&self.graph, self.body_id.0).unwrap()
    }

    /// The body node, to change in place.
    pub fn body_mut(&mut self) -> (r: &mut NodeData)
        requires
            old(self).wf(),
        ensures
            *r == old(self).spec_nodes()[0],
            final(self).spec_nodes() == old(self).spec_nodes().update(0, *final(r)),
            final(self).spec_edges() == old(self).spec_edges(),
            final(self).spec_edge_ends() == old(self).spec_edge_ends(),
            final(self).spec_body_id() == old(self).spec_body_id(),
    {
        graph_node_weight_mut(&mut self.graph, self.body_id.0).unwrap()
    }

    /// The node `node_id`, if it exists.
    pub fn get_node(&self, node_id: NodeId) -> (r: Option<&NodeData>)
        requires
            self.wf(),
        ensures
            r is Some <==> node_id.0 < self.spec_nodes().len(),
            r matches Some(w) ==> *w == self.spec_nodes()[node_id.0 as int],
    {
        if node_id.0 <= u32::MAX as usize {
            graph_node_weight(&self.graph, node_id.0)
        } else {
            None
        }
    }

    /// The node `node_id`, if it exists, to change in place.
    pub fn get_node_mut(&mut self, node_id: NodeId) -> (r: Option<&mut NodeData>)
        requires
            old(self).wf(),
        ensures
            r is Some <==> node_id.0 < old(self).spec_nodes().len(),
            r matches Some(w) ==> *w == old(self).spec_nodes()[node_id.0 as int] && final(self).spec_nodes() == old(self).spec_nodes().update(node_id.0 as int, *final(w)),
            r is None ==> final(self).spec_nodes() == old(self).spec_nodes(),
            final(self).spec_edges() == old(self).spec_edges(),
            final(self).spec_edge_ends() == old(self).spec_edge_ends(),
            final(self).spec_body_id() == old(self).spec_body_id(),
    {
        if node_id.0 <= u32::MAX as usize {
            graph_node_weight_mut(&mut self.graph, node_id.0)
        } else {
            None
        }
    }

    /// Adds a record node and returns its id.
    pub fn create_record(&mut self, record: RecordShape) -> (r: NodeId)
        requires
            old(self).wf(),
            old(self).spec_nodes().len() < u32::MAX,
        ensures
            final(self).wf(),
            r.0 == old(self).spec_nodes().len(),
            final(self).spec_nodes().len() == old(self).spec_nodes().len() + 1,
            final(self).spec_nodes().drop_last() == old(self).spec_nodes(),
            final(self).spec_nodes().last().kind == ShapeKind::Record(record),
            final(self).spec_nodes().last().children@ == Seq::<NodeId>::empty(),
            final(self).spec_edges() == old(self).spec_edges(),
            final(self).spec_edge_ends() == old(self).spec_edge_ends(),
    {
        let node = NodeData::new(ShapeKind::Record(record));
        let index = graph_add_node(&mut self.graph, node);
        assert(self.spec_nodes().drop_last() =~= old(self).spec_nodes());
        NodeId(index)
    }

    /// Adds a field node and returns its id.
    pub fn create_field(&mut self, field: FieldShape) -> (r: NodeId)
        requires
            old(self).wf(),
            old(self).spec_nodes().len() < u32::MAX,
        ensures
            final(self).wf(),
            r.0 == old(self).spec_nodes().len(),
            final(self).spec_nodes().len() == old(self).spec_nodes().len() + 1,
            final(self).spec_nodes().drop_last() == old(self).spec_nodes(),
            final(self).spec_nodes().last().kind == ShapeKind::Field(field),
            final(self).spec_nodes().last().children@ == Seq::<NodeId>::empty(),
            final(self).spec_edges() == old(self).spec_edges(),
            final(self).spec_edge_ends() == old(self).spec_edge_ends(),
    {
        let node = NodeData::new(ShapeKind::Field(field));
        let index = graph_add_node(&mut self.graph, node);
        assert(self.spec_nodes().drop_last() =~= old(self).spec_nodes());
        NodeId(index)
    }

    /// The nodes that edge `edge_id` connects, if it exists.
    pub fn edge_endpoints(&self, edge_id: EdgeId) -> (r: Option<(NodeId, NodeId)>)
        requires
            self.wf(),
        ensures
            r is Some <==> edge_id.0 < self.spec_edges().len(),
            r matches Some(p) ==> p.0 == self.spec_edges()[edge_id.0 as int].source_id && p.1
                == self.spec_edges()[edge_id.0 as int].target_id,
    {
        if edge_id.0 <= u32::MAX as usize {
            match graph_edge_endpoints(&self.graph, edge_id.0) {
                Some((a, b)) => Some((NodeId(a), NodeId(b))),
                None => None,
            }
        } else {
            None
        }
    }

    /// The edge `edge_id`, if it exists.
    pub fn edge(&self, edge_id: EdgeId) -> (r: Option<&EdgeData>)
        requires
            self.wf(),
        ensures
            r is Some <==> edge_id.0 < self.spec_edges().len(),
            r matches Some(w) ==> *w == self.spec_edges()[edge_id.0 as int],
    {
        if edge_id.0 <= u32::MAX as usize {
            graph_edge_weight(&self.graph, edge_id.0)
        } else {
            None
        }
    }

    /// The ids of all edges, in index order.
    pub fn edge_ids(&self) -> (r: Vec<EdgeId>)
        ensures
            r@.len() == self.spec_edges().len(),
            forall|i: int| 0 <= i < r@.len() ==> (#[trigger] r@[i]).0 == i,
    {
        let n = graph_edge_count(&self.graph);
        let mut ids: Vec<EdgeId> = Vec::new();
        let mut i: usize = 0;
        while i < n
            invariant
                i <= n,
                ids@.len() == i,
                forall|j: int| 0 <= j < i ==> (#[trigger] ids@[j]).0 == j,
            decreases n - i,
        {
            ids.push(EdgeId(i));
            i += 1;
        }
        ids
    }

    /// The edges, in index order.
    pub fn edges(&self) -> (r: Vec<EdgeData>)
        requires
            self.wf(),
        ensures
            r@ == self.spec_edges(),
    {
        let n = graph_edge_count(&self.graph);
        let mut edges: Vec<EdgeData> = Vec::new();
        let mut i: usize = 0;
        while i < n
            invariant
                self.wf(),
                n == self.spec_edges().len(),
                i <= n,
                edges@ == self.spec_edges().take(i as int),
            decreases n - i,
        {
            match graph_edge_weight(&self.graph, i) {
                Some(e) => {
                    edges.push(*e);
                },
                None => {},
            }
            proof {
                assert(self.spec_edges().take(i + 1) =~= self.spec_edges().take(i as int).push(self.spec_edges()[i as int]));
            }
            i += 1;
        }
        proof {
            assert(self.spec_edges().take(n as int) =~= self.spec_edges());
        }
        edges
    }

    /// Adds `edge`, connecting its source and target nodes, and returns its id.
    pub fn add_edge(&mut self, edge: EdgeData) -> (r: EdgeId)
        requires
            old(self).wf(),
            edge.source_id.0 < old(self).spec_nodes().len(),
            edge.target_id.0 < old(self).spec_nodes().len(),
            old(self).spec_edges().len() < u32::MAX,
        ensures
            final(self).wf(),
            r.0 == old(self).spec_edges().len(),
            final(self).spec_nodes() == old(self).spec_nodes(),
            final(self).spec_edges() == old(self).spec_edges().push(edge),
    {
        let index = graph_add_edge(&mut self.graph, edge.source_id.0, edge.target_id.0, edge);
        proof {
            assert forall|e: int| 0 <= e < self.spec_edges().len() implies {
                let ends = #[trigger] self.spec_edge_ends()[e];
                &&& ends.0 < self.spec_nodes().len()
                &&& ends.1 < self.spec_nodes().len()
                &&& ends.0 == self.spec_edges()[e].source_id.0
                &&& ends.1 == self.spec_edges()[e].target_id.0
            } by {
                if e < old(self).spec_edges().len() {
                    assert(self.spec_edge_ends()[e] == old(self).spec_edge_ends()[e]);
                }
            }
        }
        EdgeId(index)
    }
}

/// The end points that the graph keeps for an edge are the nodes its data
/// names: `edge_endpoints` and `edge` agree on every edge of a document.
pub proof fn lemma_edge_ends_agree(doc: Document, e: int)
    requires
        doc.wf(),
        0 <= e < doc.spec_edges().len(),
    ensures
        doc.spec_edge_ends()[e] == (doc.spec_edges()[e].source_id.0, doc.spec_edges()[e].target_id.0),
        doc.spec_edges()[e].source_id.0 < doc.spec_nodes().len(),
        doc.spec_edges()[e].target_id.0 < doc.spec_nodes().len(),
{
    let ends = doc.spec_edge_ends()[e];
    assert(ends.0 == doc.spec_edges()[e].source_id.0);
}

} // verus!
