//! The connectivity-graph model: nodes identified by part type and position,
//! edges keyed by net name with ordered endpoint sets, and the specification
//! of which endpoints each net's edge must carry.

use vstd::prelude::*;

use crate::chip::{ChipView, ConnView, resolve_spec};
use crate::text::{lex_lt, lemma_lex_asymmetric, lemma_lex_connex, lemma_lex_transitive};

verus! {

/// A node of the graph: one part instance, identified by the instantiated
/// chip's type name and the instance's position in the parent's part list.
/// The two synthetic boundary nodes use the highest index.
#[derive(Debug, Clone, PartialEq, Eq)]
pub struct Node {
    /// Name of the instantiated chip type, or a synthetic terminal name.
    pub name: String,
    /// Position of the instance in the parent's part list.
    pub index: u32,
}

/// Mathematical model of a `Node`.
#[verifier::ext_equal]
pub ghost struct NodeView {
    /// Name of the instantiated chip type, or a synthetic terminal name.
    pub name: Seq<char>,
    /// Position of the instance in the parent's part list.
    pub index: u32,
}

impl View for Node {
    type V = NodeView;

    open spec fn view(&self) -> NodeView {
        NodeView { name: self.name@, index: self.index }
    }
}

impl DeepView for Node {
    type V = NodeView;

    open spec fn deep_view(&self) -> NodeView {
        self.view()
    }
}

/// One edge of the graph: a net name together with the set of nodes driving
/// the net and the set of nodes consuming it, both kept sorted.
#[derive(Debug, Clone, PartialEq, Eq)]
pub struct Edge {
    /// Nodes that drive the net, sorted and without duplicates.
    pub source: Vec<Node>,
    /// Nodes that consume the net, sorted and without duplicates.
    pub dest: Vec<Node>,
    /// The net's name.
    pub pin_name: String,
}

/// Mathematical model of an `Edge`.
#[verifier::ext_equal]
pub ghost struct EdgeView {
    /// Nodes that drive the net.
    pub source: Seq<NodeView>,
    /// Nodes that consume the net.
    pub dest: Seq<NodeView>,
    /// The net's name.
    pub pin_name: Seq<char>,
}

impl View for Edge {
    type V = EdgeView;

    open spec fn view(&self) -> EdgeView {
        EdgeView {
            source: self.source.deep_view(),
            dest: self.dest.deep_view(),
            pin_name: self.pin_name@,
        }
    }
}

impl DeepView for Edge {
    type V = EdgeView;

    open spec fn deep_view(&self) -> EdgeView {
        self.view()
    }
}

/// The connectivity graph of one root chip: a node per part instance and an
/// edge per net, edges sorted by net name.
#[derive(Debug, Clone, PartialEq, Eq)]
pub struct Graph {
    /// Name of the root chip.
    pub name: String,
    /// One node per part instance, in part-list order.
    pub nodes: Vec<Node>,
    /// One edge per net, sorted by net name.
    pub edges: Vec<Edge>,
}

/// Mathematical model of a `Graph`.
#[verifier::ext_equal]
pub ghost struct GraphView {
    /// Name of the root chip.
    pub name: Seq<char>,
    /// One node per part instance, in part-list order.
    pub nodes: Seq<NodeView>,
    /// One edge per net, sorted by net name.
    pub edges: Seq<EdgeView>,
}

impl View for Graph {
    type V = GraphView;

    open spec fn view(&self) -> GraphView {
        GraphView {
            name: self.name@,
            nodes: self.nodes.deep_view(),
            edges: self.edges.deep_view(),
        }
    }
}

/// The synthetic node standing for the root chip's own input pins.
pub open spec fn input_node() -> NodeView {
    NodeView { name: "Input"@, index: u32::MAX }
}

/// The synthetic node standing for the root chip's own output pins.
pub open spec fn output_node() -> NodeView {
    NodeView { name: "Output"@, index: u32::MAX }
}

/// Strict order on nodes: by name, then by index.
pub open spec fn node_lt(a: NodeView, b: NodeView) -> bool {
    lex_lt(a.name, b.name) || (a.name == b.name && a.index < b.index)
}

/// The node order is asymmetric.
pub proof fn lemma_node_asymmetric(a: NodeView, b: NodeView)
    ensures
        node_lt(a, b) ==> !node_lt(b, a),
{
    lemma_lex_asymmetric(a.name, b.name);
}

/// Two nodes neither of which precedes the other are equal.
pub proof fn lemma_node_connex(a: NodeView, b: NodeView)
    ensures
        !node_lt(a, b) && !node_lt(b, a) ==> a == b,
{
    lemma_lex_connex(a.name, b.name);
}

/// The node order is transitive.
pub proof fn lemma_node_transitive(a: NodeView, b: NodeView, c: NodeView)
    ensures
        node_lt(a, b) && node_lt(b, c) ==> node_lt(a, c),
{
    lemma_lex_transitive(a.name, b.name, c.name);
}

/// A strictly sorted sequence of nodes.
pub open spec fn sorted_nodes(s: Seq<NodeView>) -> bool {
    forall|k1: int, k2: int| 0 <= k1 < k2 < s.len() ==> node_lt(#[trigger] s[k1], #[trigger] s[k2])
}

/// A sequence of edges strictly sorted by net name.
pub open spec fn sorted_edge_names(es: Seq<EdgeView>) -> bool {
    forall|k1: int, k2: int|
        0 <= k1 < k2 < es.len() ==> lex_lt(
            (#[trigger] es[k1]).pin_name,
            (#[trigger] es[k2]).pin_name,
        )
}

/// Whether some edge of the sequence carries the given net name.
pub open spec fn edge_name_present(es: Seq<EdgeView>, n: Seq<char>) -> bool {
    exists|k: int| 0 <= k < es.len() && (#[trigger] es[k]).pin_name == n
}

/// The connection at position `(p, q)`: connection `q` of part instance `p`.
pub open spec fn conn_at(root: ChipView, p: int, q: int) -> ConnView {
    root.parts[p].connections[q]
}

/// Whether `(p, q)` is a connection position lying before the processing
/// prefix `(i, j)`: parts before `i` entirely, or part `i`'s connections
/// before `j`.
pub open spec fn conn_before(root: ChipView, p: int, q: int, i: int, j: int) -> bool {
    &&& 0 <= p < root.parts.len()
    &&& 0 <= q < root.parts[p].connections.len()
    &&& (p < i || (p == i && q < j))
}

/// The chip description that part instance `p`'s name resolves to.
pub open spec fn part_chip(files: Seq<(Seq<char>, Seq<char>)>, root: ChipView, p: int) -> ChipView {
    resolve_spec(files, root.parts[p].name)->Some_0
}

/// The graph node standing for part instance `p`.
pub open spec fn part_node(root: ChipView, p: int) -> NodeView {
    NodeView { name: root.parts[p].name, index: p as u32 }
}

/// Whether the connection at `(p, q)` drives net `n`: it is wired to `n` and
/// its internal pin is an output of the instantiated chip.
pub open spec fn drives_net(
    files: Seq<(Seq<char>, Seq<char>)>,
    root: ChipView,
    p: int,
    q: int,
    n: Seq<char>,
) -> bool {
    &&& conn_at(root, p, q).external == n
    &&& part_chip(files, root, p).outputs.contains(conn_at(root, p, q).internal)
}

/// Whether the connection at `(p, q)` consumes net `n`: it is wired to `n`
/// and its internal pin is an input of the instantiated chip.
pub open spec fn consumes_net(
    files: Seq<(Seq<char>, Seq<char>)>,
    root: ChipView,
    p: int,
    q: int,
    n: Seq<char>,
) -> bool {
    &&& conn_at(root, p, q).external == n
    &&& part_chip(files, root, p).inputs.contains(conn_at(root, p, q).internal)
}

/// Whether net `n` is named by some connection before prefix `(i, j)`.
pub open spec fn net_mentioned_before(root: ChipView, n: Seq<char>, i: int, j: int) -> bool {
    exists|p: int, q: int|
        #![trigger conn_at(root, p, q)]
        conn_before(root, p, q, i, j) && conn_at(root, p, q).external == n
}

/// Whether `x` belongs to the source set of net `n`'s edge after processing
/// the connections before prefix `(i, j)`: either some processed connection
/// of instance `x` drives `n`, or `n` is a root input named by a processed
/// connection and `x` is the synthetic input node.
pub open spec fn is_source_before(
    files: Seq<(Seq<char>, Seq<char>)>,
    root: ChipView,
    n: Seq<char>,
    x: NodeView,
    i: int,
    j: int,
) -> bool {
    ||| exists|p: int, q: int|
        #![trigger conn_at(root, p, q)]
        conn_before(root, p, q, i, j) && drives_net(files, root, p, q, n) && x == part_node(
            root,
            p,
        )
    ||| (root.inputs.contains(n) && net_mentioned_before(root, n, i, j) && x == input_node())
}

/// Whether `x` belongs to the destination set of net `n`'s edge after
/// processing the connections before prefix `(i, j)`: either some processed
/// connection of instance `x` consumes `n`, or `n` is a root output (and not
/// a root input) named by a processed connection and `x` is the synthetic
/// output node.
pub open spec fn is_dest_before(
    files: Seq<(Seq<char>, Seq<char>)>,
    root: ChipView,
    n: Seq<char>,
    x: NodeView,
    i: int,
    j: int,
) -> bool {
    ||| exists|p: int, q: int|
        #![trigger conn_at(root, p, q)]
        conn_before(root, p, q, i, j) && consumes_net(files, root, p, q, n) && x == part_node(
            root,
            p,
        )
    ||| (root.outputs.contains(n) && !root.inputs.contains(n) && net_mentioned_before(
        root,
        n,
        i,
        j,
    ) && x == output_node())
}

/// One edge is fully accounted for at prefix `(i, j)`: its net is mentioned,
/// its endpoint sets are sorted, and they hold exactly the endpoints the
/// model assigns to the net.
pub open spec fn edge_matches_before(
    files: Seq<(Seq<char>, Seq<char>)>,
    root: ChipView,
    e: EdgeView,
    i: int,
    j: int,
) -> bool {
    &&& net_mentioned_before(root, e.pin_name, i, j)
    &&& sorted_nodes(e.source)
    &&& sorted_nodes(e.dest)
    &&& forall|x: NodeView|
        e.source.contains(x) <==> is_source_before(files, root, e.pin_name, x, i, j)
    &&& forall|x: NodeView| e.dest.contains(x) <==> is_dest_before(files, root, e.pin_name, x, i, j)
}

/// The whole edge list is accounted for at prefix `(i, j)`: every edge
/// matches the model, the list is sorted by net name, and every mentioned
/// net has its edge.
pub open spec fn edges_match_before(
    files: Seq<(Seq<char>, Seq<char>)>,
    root: ChipView,
    es: Seq<EdgeView>,
    i: int,
    j: int,
) -> bool {
    &&& forall|k: int|
        0 <= k < es.len() ==> edge_matches_before(files, root, #[trigger] es[k], i, j)
    &&& sorted_edge_names(es)
    &&& forall|n: Seq<char>|
        net_mentioned_before(root, n, i, j) ==> #[trigger] edge_name_present(es, n)
}

/// Whether the connection at `(p, q)` has an ambiguous direction: its
/// internal pin is an input and an output of the instantiated chip at once,
/// or neither.
pub open spec fn conn_ambiguous(
    files: Seq<(Seq<char>, Seq<char>)>,
    root: ChipView,
    p: int,
    q: int,
) -> bool {
    part_chip(files, root, p).inputs.contains(conn_at(root, p, q).internal) == part_chip(
        files,
        root,
        p,
    ).outputs.contains(conn_at(root, p, q).internal)
}

/// No connection before prefix `(i, j)` is ambiguous.
pub open spec fn no_ambiguity_before(
    files: Seq<(Seq<char>, Seq<char>)>,
    root: ChipView,
    i: int,
    j: int,
) -> bool {
    forall|p: int, q: int|
        #![trigger conn_at(root, p, q)]
        conn_before(root, p, q, i, j) ==> !conn_ambiguous(files, root, p, q)
}

/// Every part instance of the root resolves to a chip description.
pub open spec fn parts_resolve(files: Seq<(Seq<char>, Seq<char>)>, root: ChipView) -> bool {
    forall|p: int|
        0 <= p < root.parts.len() ==> resolve_spec(files, (#[trigger] root.parts[p]).name) is Some
}

/// Graph construction succeeds for a root name and file table: the root
/// resolves, every part of it resolves, and no connection is ambiguous.
pub open spec fn build_ok(files: Seq<(Seq<char>, Seq<char>)>, root_name: Seq<char>) -> bool {
    &&& resolve_spec(files, root_name) is Some
    &&& parts_resolve(files, resolve_spec(files, root_name)->Some_0)
    &&& no_ambiguity_before(
        files,
        resolve_spec(files, root_name)->Some_0,
        resolve_spec(files, root_name)->Some_0.parts.len() as int,
        0,
    )
}

/// The graph a successful build must return for a resolved root chip: the
/// root's name, one node per part instance in order, and the fully
/// accounted-for edge list.
pub open spec fn graph_matches(
    files: Seq<(Seq<char>, Seq<char>)>,
    root: ChipView,
    g: GraphView,
) -> bool {
    &&& g.name == root.name
    &&& g.nodes.len() == root.parts.len()
    &&& forall|p: int| 0 <= p < root.parts.len() ==> g.nodes[p] == part_node(root, p)
    &&& edges_match_before(files, root, g.edges, root.parts.len() as int, 0)
}

} // verus!
