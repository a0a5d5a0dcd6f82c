//! Rendering of a connectivity graph into the dot graph-description
//! language: a pure transform from the graph to its textual form.

use vstd::prelude::*;

use crate::graph::{Edge, EdgeView, Graph, GraphView, Node, NodeView, input_node, output_node};
use crate::text::{dec_str, u32_to_string};

verus! {

/// The text naming one endpoint: its name and index joined by an
/// underscore.
pub open spec fn endpoint_text(x: NodeView) -> Seq<char> {
    x.name + "_"@ + dec_str(x.index as int)
}

/// The dot line declaring one part-instance node.
pub open spec fn node_line(n: NodeView) -> Seq<char> {
    endpoint_text(n) + " [ label=\" "@ + n.name + "\" ];\n"@
}

/// The dot line declaring one synthetic boundary node.
pub open spec fn boundary_line(x: NodeView) -> Seq<char> {
    "\t"@ + endpoint_text(x) + " [label=\""@ + x.name + "\"];\n"@
}

/// The dot statement drawing one arrow of a net, from one driver to one
/// consumer, labelled with the net's name.
pub open spec fn arrow_line(s: NodeView, d: NodeView, pin: Seq<char>) -> Seq<char> {
    endpoint_text(s) + " -> "@ + endpoint_text(d) + " [ label=\" "@ + pin + "\" ];\n"@
}

/// The arrows from one driver to every consumer of the net, in order.
pub open spec fn arrows_from(s: NodeView, dests: Seq<NodeView>, pin: Seq<char>) -> Seq<char>
    decreases dests.len(),
{
    if dests.len() == 0 {
        Seq::empty()
    } else {
        arrows_from(s, dests.drop_last(), pin) + arrow_line(s, dests.last(), pin)
    }
}

/// The arrows of a net from every driver to every consumer: the cross
/// product of the edge's endpoint sets, drivers outermost.
pub open spec fn arrows_all(sources: Seq<NodeView>, dests: Seq<NodeView>, pin: Seq<char>) -> Seq<
    char,
>
    decreases sources.len(),
{
    if sources.len() == 0 {
        Seq::empty()
    } else {
        arrows_all(sources.drop_last(), dests, pin) + arrows_from(sources.last(), dests, pin)
    }
}

/// The full text of one edge: one arrow per (driver, consumer) pair.
pub open spec fn edge_text(e: EdgeView) -> Seq<char> {
    arrows_all(e.source, e.dest, e.pin_name)
}

/// The node-declaration section: one indented line per node.
pub open spec fn nodes_text(ns: Seq<NodeView>) -> Seq<char>
    decreases ns.len(),
{
    if ns.len() == 0 {
        Seq::empty()
    } else {
        nodes_text(ns.drop_last()) + "\t"@ + node_line(ns.last())
    }
}

/// The edge section: each edge's text, indented once.
pub open spec fn edges_text(es: Seq<EdgeView>) -> Seq<char>
    decreases es.len(),
{
    if es.len() == 0 {
        Seq::empty()
    } else {
        edges_text(es.drop_last()) + "\t"@ + edge_text(es.last())
    }
}

/// The whole dot document for a graph: header with the root chip's name as
/// title, the two synthetic boundary nodes, the node declarations, the
/// arrows, and the closing brace.
pub open spec fn graph_text(g: GraphView) -> Seq<char> {
    "digraph {\n"@ + "\tlabel=\""@ + g.name + "\";\n"@ + "\tlabelloc=top;\n\tlabeljust=left;\n"@
        + boundary_line(input_node()) + boundary_line(output_node()) + nodes_text(g.nodes)
        + edges_text(g.edges) + "}\n"@
}

/// Renders one endpoint's name-and-index text.
fn render_endpoint(x: &Node) -> (r: String)
    ensures
        r@ == endpoint_text(x@),
{
    let idx = u32_to_string(x.index);
    let r = x.name.clone().concat("_").concat(idx.as_str());
    assert(r@ =~= endpoint_text(x@));
    r
}

/// Renders the declaration line of one node, without the indentation.
fn render_node_line(n: &Node) -> (r: String)
    ensures
        r@ == node_line(n@),
{
    let r = render_endpoint(n).concat(" [ label=\" ").concat(n.name.as_str()).concat("\" ];\n");
    assert(r@ =~= node_line(n@));
    r
}

/// Renders the declaration line of one synthetic boundary node.
fn render_boundary_line(n: &Node) -> (r: String)
    ensures
        r@ == boundary_line(n@),
{
    let r = String::from_str("\t").concat(render_endpoint(n).as_str()).concat(" [label=\"")
        .concat(n.name.as_str()).concat("\"];\n");
    assert(r@ =~= boundary_line(n@));
    r
}

/// Renders every arrow of one edge.
fn render_edge(e: &Edge) -> (r: String)
    ensures
        r@ == edge_text(e@),
{
    let ghost sv = e.source.deep_view();
    let ghost dv = e.dest.deep_view();
    let ghost pin = e.pin_name@;
    let mut out = String::new();
    let mut si: usize = 0;
    while si < e.source.len()
        invariant
            si <= e.source.len(),
            sv == e.source.deep_view(),
            dv == e.dest.deep_view(),
            pin == e.pin_name@,
            sv.len() == e.source.len(),
            dv.len() == e.dest.len(),
            out@ == arrows_all(sv.take(si as int), dv, pin),
        decreases e.source.len() - si,
    {
        let ghost sii = si as int;
        let s_node = &e.source[si];
        proof {
            assert(s_node@ == sv[sii]);
        }
        let s_text = render_endpoint(s_node);
        let mut di: usize = 0;
        while di < e.dest.len()
            invariant
                di <= e.dest.len(),
                sii == si as int,
                0 <= sii < sv.len(),
                sv == e.source.deep_view(),
                dv == e.dest.deep_view(),
                pin == e.pin_name@,
                dv.len() == e.dest.len(),
                s_node@ == sv[sii],
                s_text@ == endpoint_text(sv[sii]),
                out@ == arrows_all(sv.take(sii), dv, pin) + arrows_from(sv[sii], dv.take(di as int), pin),
            decreases e.dest.len() - di,
        {
            let ghost dii = di as int;
            let d_node = &e.dest[di];
            proof {
                assert(d_node@ == dv[dii]);
            }
            let line = s_text.clone().concat(" -> ").concat(render_endpoint(d_node).as_str())
                .concat(" [ label=\" ").concat(e.pin_name.as_str()).concat("\" ];\n");
            assert(line@ =~= arrow_line(sv[sii], dv[dii], pin));
            out.append(line.as_str());
            proof {
                assert(dv.take(dii + 1).drop_last() =~= dv.take(dii));
                assert(dv.take(dii + 1).last() == dv[dii]);
                assert(out@ =~= arrows_all(sv.take(sii), dv, pin) + arrows_from(
                    sv[sii],
                    dv.take(dii + 1),
                    pin,
                ));
            }
            di = di + 1;
        }
        proof {
            assert(dv.take(dv.len() as int) =~= dv);
            assert(sv.take(sii + 1).drop_last() =~= sv.take(sii));
            assert(sv.take(sii + 1).last() == sv[sii]);
            assert(out@ =~= arrows_all(sv.take(sii + 1), dv, pin));
        }
        si = si + 1;
    }
    proof {
        assert(sv.take(sv.len() as int) =~= sv);
    }
    out
}

impl Graph {
    /// Renders the graph as a dot document: a header titled with the root
    /// chip's name, the two synthetic boundary nodes, one declaration per
    /// node, and one arrow per (driver, consumer) pair of each edge,
    /// labelled with the net's name.
    pub fn render(&self) -> (r: String)
        ensures
            r@ == graph_text(self@),
    {
        let ghost nv = self.nodes.deep_view();
        let ghost ev = self.edges.deep_view();
        let mut out = String::from_str("digraph {\n");
        out.append("\tlabel=\"");
        out.append(self.name.as_str());
        out.append("\";\n");
        out.append("\tlabelloc=top;\n\tlabeljust=left;\n");
        let input_terminal = Node { name: String::from_str("Input"), index: u32::MAX };
        let output_terminal = Node { name: String::from_str("Output"), index: u32::MAX };
        proof {
            assert(input_terminal@ == input_node());
            assert(output_terminal@ == output_node());
        }
        let header = out;
        let ghost header_text = "digraph {\n"@ + "\tlabel=\""@ + self.name@ + "\";\n"@
            + "\tlabelloc=top;\n\tlabeljust=left;\n"@;
        assert(header@ =~= header_text);
        let mut out = header;
        out.append(render_boundary_line(&input_terminal).as_str());
        out.append(render_boundary_line(&output_terminal).as_str());
        let ghost preamble = header_text + boundary_line(input_node()) + boundary_line(
            output_node(),
        );
        assert(out@ =~= preamble);
        let mut i: usize = 0;
        while i < self.nodes.len()
            invariant
                i <= self.nodes.len(),
                nv == self.nodes.deep_view(),
                nv.len() == self.nodes.len(),
                preamble == header_text + boundary_line(input_node()) + boundary_line(
                    output_node(),
                ),
                header_text == "digraph {\n"@ + "\tlabel=\""@ + self.name@ + "\";\n"@
                    + "\tlabelloc=top;\n\tlabeljust=left;\n"@,
                out@ == preamble + nodes_text(nv.take(i as int)),
            decreases self.nodes.len() - i,
        {
            let ghost iin = i as int;
            let node = &self.nodes[i];
            proof {
                assert(node@ == nv[iin]);
            }
            out.append("\t");
            out.append(render_node_line(node).as_str());
            proof {
                assert(nv.take(iin + 1).drop_last() =~= nv.take(iin));
                assert(nv.take(iin + 1).last() == nv[iin]);
                assert(out@ =~= preamble + nodes_text(nv.take(iin + 1)));
            }
            i = i + 1;
        }
        proof {
            assert(nv.take(nv.len() as int) =~= nv);
        }
        let ghost with_nodes = preamble + nodes_text(nv);
        assert(out@ =~= with_nodes);
        let mut i: usize = 0;
        while i < self.edges.len()
            invariant
                i <= self.edges.len(),
                ev == self.edges.deep_view(),
                ev.len() == self.edges.len(),
                with_nodes == preamble + nodes_text(nv),
                out@ == with_nodes + edges_text(ev.take(i as int)),
            decreases self.edges.len() - i,
        {
            let ghost iin = i as int;
            let edge = &self.edges[i];
            proof {
                assert(edge@ == ev[iin]);
            }
            out.append("\t");
            out.append(render_edge(edge).as_str());
            proof {
                assert(ev.take(iin + 1).drop_last() =~= ev.take(iin));
                assert(ev.take(iin + 1).last() == ev[iin]);
                assert(out@ =~= with_nodes + edges_text(ev.take(iin + 1)));
            }
            i = i + 1;
        }
        proof {
            assert(ev.take(ev.len() as int) =~= ev);
        }
        out.append("}\n");
        proof {
            assert(out@ =~= graph_text(self@));
        }
        out
    }
}

} // verus!
