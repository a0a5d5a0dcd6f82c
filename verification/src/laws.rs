//! Proved properties of graph construction: determinism, boundary coverage,
//! strict direction classification, and instance identity.

use vstd::prelude::*;

use crate::chip::{ChipView, resolve_spec};
use crate::graph::{
    EdgeView, GraphView, NodeView, build_ok, conn_ambiguous, conn_at, conn_before, consumes_net,
    drives_net, edge_matches_before, edge_name_present, edges_match_before, graph_matches,
    input_node, is_dest_before, is_source_before, net_mentioned_before, node_lt, output_node,
    part_chip, part_node, sorted_edge_names, sorted_nodes, lemma_node_asymmetric,
};
use crate::render::graph_text;
use crate::text::{lex_lt, lemma_lex_asymmetric};

verus! {

proof fn lemma_sorted_nodes_same_elements(a: Seq<NodeView>, b: Seq<NodeView>)
    requires
        sorted_nodes(a),
        sorted_nodes(b),
        forall|y: NodeView| a.contains(y) == b.contains(y),
    ensures
        a == b,
    decreases a.len(),
{
    if a.len() == 0 {
        if b.len() > 0 {
            assert(b.contains(b[0]));
            assert(a.contains(b[0]));
        }
        assert(a =~= b);
    } else if b.len() == 0 {
        assert(a.contains(a[0]));
        assert(b.contains(a[0]));
    } else {
        assert(a.contains(a[0]));
        assert(b.contains(b[0]));
        let kb = choose|k: int| 0 <= k < b.len() && b[k] == a[0];
        let ka = choose|k: int| 0 <= k < a.len() && a[k] == b[0];
        if a[0] != b[0] {
            assert(kb > 0);
            assert(ka > 0);
            assert(node_lt(b[0], b[kb]));
            assert(node_lt(a[0], a[ka]));
            lemma_node_asymmetric(a[0], b[0]);
        }
        assert(a[0] == b[0]);
        let at = a.skip(1);
        let bt = b.skip(1);
        assert forall|k1: int, k2: int| 0 <= k1 < k2 < at.len() implies node_lt(
            #[trigger] at[k1],
            #[trigger] at[k2],
        ) by {
            assert(at[k1] == a[k1 + 1]);
            assert(at[k2] == a[k2 + 1]);
        }
        assert forall|k1: int, k2: int| 0 <= k1 < k2 < bt.len() implies node_lt(
            #[trigger] bt[k1],
            #[trigger] bt[k2],
        ) by {
            assert(bt[k1] == b[k1 + 1]);
            assert(bt[k2] == b[k2 + 1]);
        }
        assert forall|y: NodeView| at.contains(y) == bt.contains(y) by {
            if at.contains(y) {
                let k = choose|k: int| 0 <= k < at.len() && at[k] == y;
                assert(a[k + 1] == y);
                assert(a.contains(y));
                assert(b.contains(y));
                let k2 = choose|k2: int| 0 <= k2 < b.len() && b[k2] == y;
                assert(node_lt(a[0], a[k + 1]));
                if k2 == 0 {
                    lemma_node_asymmetric(a[0], y);
                }
                assert(bt[k2 - 1] == y);
                assert(bt.contains(y));
            }
            if bt.contains(y) {
                let k = choose|k: int| 0 <= k < bt.len() && bt[k] == y;
                assert(b[k + 1] == y);
                assert(b.contains(y));
                assert(a.contains(y));
                let k2 = choose|k2: int| 0 <= k2 < a.len() && a[k2] == y;
                assert(node_lt(b[0], b[k + 1]));
                if k2 == 0 {
                    lemma_node_asymmetric(b[0], y);
                }
                assert(at[k2 - 1] == y);
                assert(at.contains(y));
            }
        }
        lemma_sorted_nodes_same_elements(at, bt);
        assert forall|k: int| 0 <= k < a.len() implies a[k] == b[k] by {
            if k > 0 {
                assert(at[k - 1] == a[k]);
                assert(bt[k - 1] == b[k]);
            }
        }
        assert(a =~= b);
    }
}

proof fn lemma_edge_determined(
    files: Seq<(Seq<char>, Seq<char>)>,
    root: ChipView,
    ea: EdgeView,
    eb: EdgeView,
    i: int,
    j: int,
)
    requires
        edge_matches_before(files, root, ea, i, j),
        edge_matches_before(files, root, eb, i, j),
        ea.pin_name == eb.pin_name,
    ensures
        ea == eb,
{
    assert forall|y: NodeView| ea.source.contains(y) == eb.source.contains(y) by {
        assert(ea.source.contains(y) == is_source_before(files, root, ea.pin_name, y, i, j));
        assert(eb.source.contains(y) == is_source_before(files, root, eb.pin_name, y, i, j));
    }
    assert forall|y: NodeView| ea.dest.contains(y) == eb.dest.contains(y) by {
        assert(ea.dest.contains(y) == is_dest_before(files, root, ea.pin_name, y, i, j));
        assert(eb.dest.contains(y) == is_dest_before(files, root, eb.pin_name, y, i, j));
    }
    lemma_sorted_nodes_same_elements(ea.source, eb.source);
    lemma_sorted_nodes_same_elements(ea.dest, eb.dest);
    assert(ea =~= eb);
}

proof fn lemma_sorted_names_same_presence(a: Seq<EdgeView>, b: Seq<EdgeView>)
    requires
        sorted_edge_names(a),
        sorted_edge_names(b),
        forall|n: Seq<char>| edge_name_present(a, n) == edge_name_present(b, n),
    ensures
        a.len() == b.len(),
        forall|k: int| 0 <= k < a.len() ==> (#[trigger] a[k]).pin_name == b[k].pin_name,
    decreases a.len(),
{
    if a.len() == 0 {
        if b.len() > 0 {
            assert(edge_name_present(b, b[0].pin_name));
            assert(edge_name_present(a, b[0].pin_name));
        }
    } else if b.len() == 0 {
        assert(edge_name_present(a, a[0].pin_name));
        assert(edge_name_present(b, a[0].pin_name));
    } else {
        assert(edge_name_present(a, a[0].pin_name));
        assert(edge_name_present(b, b[0].pin_name));
        assert(edge_name_present(b, a[0].pin_name));
        assert(edge_name_present(a, b[0].pin_name));
        let kb = choose|k: int| 0 <= k < b.len() && (#[trigger] b[k]).pin_name == a[0].pin_name;
        let ka = choose|k: int| 0 <= k < a.len() && (#[trigger] a[k]).pin_name == b[0].pin_name;
        if a[0].pin_name != b[0].pin_name {
            assert(kb > 0);
            assert(ka > 0);
            assert(lex_lt(b[0].pin_name, b[kb].pin_name));
            assert(lex_lt(a[0].pin_name, a[ka].pin_name));
            lemma_lex_asymmetric(a[0].pin_name, b[0].pin_name);
        }
        assert(a[0].pin_name == b[0].pin_name);
        let at = a.skip(1);
        let bt = b.skip(1);
        assert forall|k1: int, k2: int| 0 <= k1 < k2 < at.len() implies lex_lt(
            (#[trigger] at[k1]).pin_name,
            (#[trigger] at[k2]).pin_name,
        ) by {
            assert(at[k1] == a[k1 + 1]);
            assert(at[k2] == a[k2 + 1]);
        }
        assert forall|k1: int, k2: int| 0 <= k1 < k2 < bt.len() implies lex_lt(
            (#[trigger] bt[k1]).pin_name,
            (#[trigger] bt[k2]).pin_name,
        ) by {
            assert(bt[k1] == b[k1 + 1]);
            assert(bt[k2] == b[k2 + 1]);
        }
        assert forall|n: Seq<char>| edge_name_present(at, n) == edge_name_present(bt, n) by {
            if edge_name_present(at, n) {
                let k = choose|k: int| 0 <= k < at.len() && (#[trigger] at[k]).pin_name == n;
                assert(a[k + 1].pin_name == n);
                assert(edge_name_present(a, n));
                assert(edge_name_present(b, n));
                let k2 = choose|k2: int| 0 <= k2 < b.len() && (#[trigger] b[k2]).pin_name == n;
                assert(lex_lt(a[0].pin_name, a[k + 1].pin_name));
                if k2 == 0 {
                    lemma_lex_asymmetric(a[0].pin_name, n);
                }
                assert((bt[k2 - 1]).pin_name == n);
                assert(edge_name_present(bt, n));
            }
            if edge_name_present(bt, n) {
                let k = choose|k: int| 0 <= k < bt.len() && (#[trigger] bt[k]).pin_name == n;
                assert(b[k + 1].pin_name == n);
                assert(edge_name_present(b, n));
                assert(edge_name_present(a, n));
                let k2 = choose|k2: int| 0 <= k2 < a.len() && (#[trigger] a[k2]).pin_name == n;
                assert(lex_lt(b[0].pin_name, b[k + 1].pin_name));
                if k2 == 0 {
                    lemma_lex_asymmetric(b[0].pin_name, n);
                }
                assert((at[k2 - 1]).pin_name == n);
                assert(edge_name_present(at, n));
            }
        }
        lemma_sorted_names_same_presence(at, bt);
        assert forall|k: int| 0 <= k < a.len() implies (#[trigger] a[k]).pin_name
            == b[k].pin_name by {
            if k > 0 {
                assert(at[k - 1] == a[k]);
                assert(bt[k - 1] == b[k]);
                assert(at[k - 1].pin_name == bt[k - 1].pin_name);
            }
        }
    }
}

/// Determinism: the construction contract pins the graph down completely,
/// so any two graphs built for the same root chip and file table are equal
/// and render to identical text.
pub proof fn lemma_build_deterministic(
    files: Seq<(Seq<char>, Seq<char>)>,
    root: ChipView,
    g1: GraphView,
    g2: GraphView,
)
    requires
        graph_matches(files, root, g1),
        graph_matches(files, root, g2),
    ensures
        g1 == g2,
        graph_text(g1) == graph_text(g2),
{
    let n = root.parts.len() as int;
    assert forall|p: int| 0 <= p < g1.nodes.len() implies #[trigger] g1.nodes[p]
        == g2.nodes[p] by {
        assert(g1.nodes[p] == part_node(root, p));
        assert(g2.nodes[p] == part_node(root, p));
    }
    assert(g1.nodes =~= g2.nodes);
    assert forall|m: Seq<char>| edge_name_present(g1.edges, m) == edge_name_present(
        g2.edges,
        m,
    ) by {
        if edge_name_present(g1.edges, m) {
            let k = choose|k: int|
                0 <= k < g1.edges.len() && (#[trigger] g1.edges[k]).pin_name == m;
            assert(net_mentioned_before(root, m, n, 0));
            assert(edge_name_present(g2.edges, m));
        }
        if edge_name_present(g2.edges, m) {
            let k = choose|k: int|
                0 <= k < g2.edges.len() && (#[trigger] g2.edges[k]).pin_name == m;
            assert(net_mentioned_before(root, m, n, 0));
            assert(edge_name_present(g1.edges, m));
        }
    }
    lemma_sorted_names_same_presence(g1.edges, g2.edges);
    assert forall|k: int| 0 <= k < g1.edges.len() implies #[trigger] g1.edges[k]
        == g2.edges[k] by {
        lemma_edge_determined(files, root, g1.edges[k], g2.edges[k], n, 0);
    }
    assert(g1.edges =~= g2.edges);
    assert(g1 =~= g2);
}

/// Boundary coverage: a net that some connection names and that is a root
/// input pin has an edge whose source set holds the synthetic input node;
/// a named net that is a root output pin (and not also a root input) has an
/// edge whose destination set holds the synthetic output node.
pub proof fn lemma_boundary_coverage(
    files: Seq<(Seq<char>, Seq<char>)>,
    root: ChipView,
    g: GraphView,
    n: Seq<char>,
)
    requires
        graph_matches(files, root, g),
        net_mentioned_before(root, n, root.parts.len() as int, 0),
    ensures
        root.inputs.contains(n) ==> exists|k: int|
            0 <= k < g.edges.len() && (#[trigger] g.edges[k]).pin_name == n
                && g.edges[k].source.contains(input_node()),
        root.outputs.contains(n) && !root.inputs.contains(n) ==> exists|k: int|
            0 <= k < g.edges.len() && (#[trigger] g.edges[k]).pin_name == n
                && g.edges[k].dest.contains(output_node()),
{
    let np = root.parts.len() as int;
    assert(edge_name_present(g.edges, n));
    let k = choose|k: int| 0 <= k < g.edges.len() && (#[trigger] g.edges[k]).pin_name == n;
    assert(edge_matches_before(files, root, g.edges[k], np, 0));
    if root.inputs.contains(n) {
        assert(is_source_before(files, root, n, input_node(), np, 0));
        assert(g.edges[k].source.contains(input_node()));
    }
    if root.outputs.contains(n) && !root.inputs.contains(n) {
        assert(is_dest_before(files, root, n, output_node(), np, 0));
        assert(g.edges[k].dest.contains(output_node()));
    }
}

/// Strict classification: in a successful build, every connection's
/// internal pin is exactly one of an input or an output of its own part's
/// chip description, never both and never neither.
pub proof fn lemma_classification_exclusive(
    files: Seq<(Seq<char>, Seq<char>)>,
    root_name: Seq<char>,
    p: int,
    q: int,
)
    requires
        build_ok(files, root_name),
        ({
            let root = resolve_spec(files, root_name)->Some_0;
            0 <= p < root.parts.len() && 0 <= q < root.parts[p].connections.len()
        }),
    ensures
        ({
            let root = resolve_spec(files, root_name)->Some_0;
            part_chip(files, root, p).inputs.contains(conn_at(root, p, q).internal) != part_chip(
                files,
                root,
                p,
            ).outputs.contains(conn_at(root, p, q).internal)
        }),
{
    let root = resolve_spec(files, root_name)->Some_0;
    assert(conn_before(root, p, q, root.parts.len() as int, 0));
    assert(!conn_ambiguous(files, root, p, q));
}

/// An ambiguous pin direction makes the whole build fail: when some
/// connection's internal pin is declared by its part's chip description as
/// both an input and an output, or as neither, no graph is produced.
pub proof fn lemma_ambiguity_fails(
    files: Seq<(Seq<char>, Seq<char>)>,
    root_name: Seq<char>,
    p: int,
    q: int,
)
    requires
        resolve_spec(files, root_name) is Some,
        ({
            let root = resolve_spec(files, root_name)->Some_0;
            0 <= p < root.parts.len() && 0 <= q < root.parts[p].connections.len()
                && conn_ambiguous(files, root, p, q)
        }),
    ensures
        !build_ok(files, root_name),
{
    let root = resolve_spec(files, root_name)->Some_0;
    assert(conn_before(root, p, q, root.parts.len() as int, 0));
}

/// Instance identity: two part instances at different positions are
/// distinct nodes of the graph, whatever their type names.
pub proof fn lemma_instance_identity(
    files: Seq<(Seq<char>, Seq<char>)>,
    root: ChipView,
    g: GraphView,
    p1: int,
    p2: int,
)
    requires
        graph_matches(files, root, g),
        root.parts.len() <= u32::MAX,
        0 <= p1 < p2 < root.parts.len(),
    ensures
        g.nodes[p1] != g.nodes[p2],
{
    assert(g.nodes[p1] == part_node(root, p1));
    assert(g.nodes[p2] == part_node(root, p2));
    assert(part_node(root, p1).index == p1 as u32);
    assert(part_node(root, p2).index == p2 as u32);
}

/// Incidence separation: an instance's node stands in an edge's source set
/// exactly when one of that instance's own connections drives the edge's
/// net, and in its destination set exactly when one of its own connections
/// consumes it.
pub proof fn lemma_instance_edges(
    files: Seq<(Seq<char>, Seq<char>)>,
    root: ChipView,
    g: GraphView,
    k: int,
    p: int,
)
    requires
        graph_matches(files, root, g),
        root.parts.len() <= u32::MAX,
        0 <= k < g.edges.len(),
        0 <= p < root.parts.len(),
    ensures
        g.edges[k].source.contains(part_node(root, p)) <==> exists|q: int|
            0 <= q < root.parts[p].connections.len() && drives_net(
                files,
                root,
                p,
                q,
                g.edges[k].pin_name,
            ),
        g.edges[k].dest.contains(part_node(root, p)) <==> exists|q: int|
            0 <= q < root.parts[p].connections.len() && consumes_net(
                files,
                root,
                p,
                q,
                g.edges[k].pin_name,
            ),
{
    let np = root.parts.len() as int;
    let n = g.edges[k].pin_name;
    let x = part_node(root, p);
    assert(edge_matches_before(files, root, g.edges[k], np, 0));
    assert(x.index == p as u32);
    assert(x != input_node());
    assert(x != output_node());
    if g.edges[k].source.contains(x) {
        assert(is_source_before(files, root, n, x, np, 0));
        let (p2, q) = choose|p2: int, q: int|
            #![trigger conn_at(root, p2, q)]
            conn_before(root, p2, q, np, 0) && drives_net(files, root, p2, q, n) && x == part_node(
                root,
                p2,
            );
        assert(part_node(root, p2).index == p2 as u32);
        assert(p2 == p);
        assert(drives_net(files, root, p, q, n));
    }
    if exists|q: int|
        0 <= q < root.parts[p].connections.len() && drives_net(files, root, p, q, n) {
        let q = choose|q: int|
            0 <= q < root.parts[p].connections.len() && drives_net(files, root, p, q, n);
        assert(conn_before(root, p, q, np, 0));
        assert(conn_at(root, p, q).external == n);
        assert(is_source_before(files, root, n, x, np, 0));
        assert(g.edges[k].source.contains(x));
    }
    if g.edges[k].dest.contains(x) {
        assert(is_dest_before(files, root, n, x, np, 0));
        let (p2, q) = choose|p2: int, q: int|
            #![trigger conn_at(root, p2, q)]
            conn_before(root, p2, q, np, 0) && consumes_net(files, root, p2, q, n) && x
                == part_node(root, p2);
        assert(part_node(root, p2).index == p2 as u32);
        assert(p2 == p);
        assert(consumes_net(files, root, p, q, n));
    }
    if exists|q: int|
        0 <= q < root.parts[p].connections.len() && consumes_net(files, root, p, q, n) {
        let q = choose|q: int|
            0 <= q < root.parts[p].connections.len() && consumes_net(files, root, p, q, n);
        assert(conn_before(root, p, q, np, 0));
        assert(conn_at(root, p, q).external == n);
        assert(is_dest_before(files, root, n, x, np, 0));
        assert(g.edges[k].dest.contains(x));
    }
}


} // verus!
