//! Graph construction: walks the root chip's part instances in order,
//! classifies every pin connection against the instantiated chip's own
//! description, and accumulates per-net driver and consumer sets.

use vstd::prelude::*;

use crate::chip::{ChipView, filename_of, lookup, missing_file_message, resolve, resolve_spec};
use crate::error::GenericError;
use crate::graph::{
    Edge, EdgeView, Graph, Node, NodeView, build_ok, conn_ambiguous, conn_at, conn_before,
    consumes_net, drives_net, edge_matches_before, edge_name_present, edges_match_before,
    graph_matches, input_node, is_dest_before, is_source_before, net_mentioned_before,
    no_ambiguity_before, node_lt, output_node, part_chip, part_node, parts_resolve,
    sorted_edge_names, sorted_nodes, lemma_node_connex, lemma_node_transitive,
};
use crate::text::{lex_lt, lemma_lex_asymmetric, lemma_lex_connex, lemma_lex_transitive, str_lt};

verus! {

/// Whether a name list holds the given name.
fn vec_contains_str(v: &Vec<String>, x: &String) -> (r: bool)
    ensures
        r == v.deep_view().contains(x@),
{
    let ghost dv = v.deep_view();
    let mut i: usize = 0;
    while i < v.len()
        invariant
            i <= v.len(),
            dv == v.deep_view(),
            dv.len() == v.len(),
            forall|k: int| 0 <= k < i ==> dv[k] != x@,
        decreases v.len() - i,
    {
        if v[i] == *x {
            assert(dv[i as int] == x@);
            return true;
        }
        assert(dv[i as int] != x@);
        i = i + 1;
    }
    assert(!dv.contains(x@));
    false
}

/// Decides the node order: by name, then by index.
fn node_before(a: &Node, b: &Node) -> (r: bool)
    ensures
        r == node_lt(a@, b@),
{
    if a.name == b.name {
        proof {
            lemma_lex_asymmetric(a.name@, b.name@);
        }
        a.index < b.index
    } else {
        str_lt(a.name.as_str(), b.name.as_str())
    }
}

/// Inserts a node into a sorted endpoint list, keeping it sorted and
/// without duplicates; inserting a node already present changes nothing.
fn insert_node_sorted(v: &mut Vec<Node>, x: Node)
    requires
        sorted_nodes(old(v).deep_view()),
    ensures
        sorted_nodes(final(v).deep_view()),
        forall|y: NodeView|
            final(v).deep_view().contains(y) <==> (old(v).deep_view().contains(y) || y == x@),
{
    let ghost old_dv = v.deep_view();
    let ghost xv = x@;
    let mut i: usize = 0;
    loop
        invariant
            i <= v.len(),
            old_dv == v.deep_view(),
            old_dv.len() == v.len(),
            sorted_nodes(old_dv),
            xv == x@,
            forall|k: int| 0 <= k < i ==> node_lt(#[trigger] old_dv[k], xv),
        ensures
            i <= v.len(),
            forall|k: int| 0 <= k < i ==> node_lt(#[trigger] old_dv[k], xv),
            i < v.len() ==> !node_lt(old_dv[i as int], xv),
        decreases v.len() - i,
    {
        if i == v.len() {
            break;
        }
        let nb = node_before(&v[i], &x);
        assert(old_dv[i as int] == v@[i as int]@);
        if !nb {
            break;
        }
        i = i + 1;
    }
    if i < v.len() && v[i].name == x.name && v[i].index == x.index {
        // the node is already recorded for this net
        proof {
            assert(old_dv[i as int] == v@[i as int]@);
            assert(old_dv[i as int] == xv);
            assert(old_dv.contains(xv));
        }
        return;
    }
    proof {
        if i < v.len() {
            assert(old_dv[i as int] == v[i as int]@);
            assert(old_dv[i as int] != xv);
            lemma_node_connex(old_dv[i as int], xv);
            assert(node_lt(xv, old_dv[i as int]));
        }
    }
    let ghost xn = x;
    let ghost ii = i as int;
    v.insert(i, x);
    proof {
        let new_dv = v.deep_view();
        old(v)@.insert_ensures(ii, xn);
        assert(v@ == old(v)@.insert(ii, xn));
        assert(new_dv.len() == old_dv.len() + 1);
        assert forall|k: int| 0 <= k < ii implies #[trigger] new_dv[k] == old_dv[k] by {
            assert(v@[k] == old(v)@[k]);
        }
        assert(new_dv[ii] == xv) by {
            assert(v@[ii] == xn);
        }
        assert forall|k: int| ii < k < new_dv.len() implies #[trigger] new_dv[k] == old_dv[k
            - 1] by {
            assert(v@[(k - 1) + 1] == old(v)@[k - 1]);
        }
        assert forall|k1: int, k2: int| 0 <= k1 < k2 < new_dv.len() implies node_lt(
            #[trigger] new_dv[k1],
            #[trigger] new_dv[k2],
        ) by {
            if k1 < ii && k2 < ii {
            } else if k1 < ii && k2 == ii {
            } else if k1 < ii && k2 > ii {
                assert(node_lt(old_dv[k1], old_dv[k2 - 1]));
            } else if k1 == ii && k2 > ii {
                assert(node_lt(xv, old_dv[ii]));
                if k2 - 1 == ii {
                } else {
                    lemma_node_transitive(xv, old_dv[ii], old_dv[k2 - 1]);
                }
            } else {
            }
        }
        assert forall|y: NodeView| new_dv.contains(y) implies (old_dv.contains(y) || y == xv) by {
            let k = choose|k: int| 0 <= k < new_dv.len() && new_dv[k] == y;
            if k < ii {
                assert(old_dv[k] == y);
            } else if k == ii {
            } else {
                assert(old_dv[k - 1] == y);
            }
        }
        assert forall|y: NodeView| (old_dv.contains(y) || y == xv) implies new_dv.contains(y) by {
            if y == xv {
                assert(new_dv[ii] == y);
            } else {
                let k = choose|k: int| 0 <= k < old_dv.len() && old_dv[k] == y;
                if k < ii {
                    assert(new_dv[k] == y);
                } else {
                    assert(new_dv[k + 1] == y);
                }
            }
        }
    }
}

/// The model of a freshly allocated edge: a net name and empty endpoint
/// sets.
pub open spec fn empty_edge(n: Seq<char>) -> EdgeView {
    EdgeView { source: Seq::empty(), dest: Seq::empty(), pin_name: n }
}

/// Returns the position of the edge for the given net, allocating an empty
/// edge at the sorted position when the net has none yet.
fn ensure_edge(edges: &mut Vec<Edge>, name: &String) -> (k: usize)
    requires
        sorted_edge_names(old(edges).deep_view()),
    ensures
        sorted_edge_names(final(edges).deep_view()),
        k < final(edges).len(),
        final(edges).deep_view()[k as int].pin_name == name@,
        edge_name_present(old(edges).deep_view(), name@) ==> final(edges).deep_view() == old(
            edges,
        ).deep_view(),
        !edge_name_present(old(edges).deep_view(), name@) ==> k <= old(edges).len()
            && final(edges).deep_view() == old(edges).deep_view().insert(
            k as int,
            empty_edge(name@),
        ),
{
    let ghost old_dv = edges.deep_view();
    let mut i: usize = 0;
    loop
        invariant
            i <= edges.len(),
            old_dv == edges.deep_view(),
            old_dv.len() == edges.len(),
            sorted_edge_names(old_dv),
            forall|k: int| 0 <= k < i ==> lex_lt((#[trigger] old_dv[k]).pin_name, name@),
        ensures
            i <= edges.len(),
            forall|k: int| 0 <= k < i ==> lex_lt((#[trigger] old_dv[k]).pin_name, name@),
            i < edges.len() ==> !lex_lt(old_dv[i as int].pin_name, name@),
        decreases edges.len() - i,
    {
        if i == edges.len() {
            break;
        }
        assert(old_dv[i as int] == edges[i as int]@);
        if !str_lt(edges[i].pin_name.as_str(), name.as_str()) {
            break;
        }
        i = i + 1;
    }
    if i < edges.len() && edges[i].pin_name == *name {
        assert(old_dv[i as int] == edges[i as int]@);
        assert(edge_name_present(old_dv, name@)) by {
            assert(old_dv[i as int].pin_name == name@);
        }
        return i;
    }
    proof {
        // no edge carries this name yet
        assert forall|k: int| 0 <= k < old_dv.len() implies (#[trigger] old_dv[k]).pin_name
            != name@ by {
            if k < i {
                lemma_lex_asymmetric(old_dv[k].pin_name, name@);
                if old_dv[k].pin_name == name@ {
                    assert(lex_lt(name@, name@));
                }
            } else if k == i {
            } else {
                lemma_lex_connex(old_dv[i as int].pin_name, name@);
                assert(lex_lt(name@, old_dv[i as int].pin_name));
                lemma_lex_transitive(name@, old_dv[i as int].pin_name, old_dv[k].pin_name);
                lemma_lex_asymmetric(name@, old_dv[k].pin_name);
                if old_dv[k].pin_name == name@ {
                    assert(lex_lt(name@, name@));
                }
            }
        }
        assert(!edge_name_present(old_dv, name@));
    }
    let new_edge = Edge { source: Vec::new(), dest: Vec::new(), pin_name: name.clone() };
    assert(new_edge@ =~= empty_edge(name@));
    let ghost ne = new_edge;
    let ghost ii = i as int;
    edges.insert(i, new_edge);
    proof {
        let new_dv = edges.deep_view();
        old(edges)@.insert_ensures(ii, ne);
        assert(edges@ == old(edges)@.insert(ii, ne));
        old_dv.insert_ensures(ii, empty_edge(name@));
        assert(new_dv =~= old_dv.insert(ii, empty_edge(name@))) by {
            assert forall|k: int| 0 <= k < new_dv.len() implies new_dv[k] == old_dv.insert(
                ii,
                empty_edge(name@),
            )[k] by {
                if k < ii {
                    assert(edges@[k] == old(edges)@[k]);
                } else if k == ii {
                    assert(edges@[k] == ne);
                } else {
                    assert(edges@[(k - 1) + 1] == old(edges)@[k - 1]);
                }
            }
        }
        if i < old_dv.len() {
            lemma_lex_connex(old_dv[i as int].pin_name, name@);
        }
        assert forall|k1: int, k2: int| 0 <= k1 < k2 < new_dv.len() implies lex_lt(
            (#[trigger] new_dv[k1]).pin_name,
            (#[trigger] new_dv[k2]).pin_name,
        ) by {
            if k1 < ii && k2 < ii {
            } else if k1 < ii && k2 == ii {
            } else if k1 < ii && k2 > ii {
            } else if k1 == ii && k2 > ii {
                assert(new_dv[k2] == old_dv[k2 - 1]);
                if k2 - 1 == ii {
                    assert(lex_lt(name@, old_dv[ii].pin_name));
                } else {
                    lemma_lex_transitive(
                        name@,
                        old_dv[ii].pin_name,
                        old_dv[k2 - 1].pin_name,
                    );
                }
            } else {
            }
        }
    }
    i
}

proof fn lemma_mentioned_step(root: ChipView, n: Seq<char>, i: int, j: int)
    requires
        0 <= i < root.parts.len(),
        0 <= j < root.parts[i].connections.len(),
    ensures
        net_mentioned_before(root, n, i, j + 1) <==> (net_mentioned_before(root, n, i, j)
            || conn_at(root, i, j).external == n),
{
    if net_mentioned_before(root, n, i, j + 1) {
        let (p, q) = choose|p: int, q: int|
            #![trigger conn_at(root, p, q)]
            conn_before(root, p, q, i, j + 1) && conn_at(root, p, q).external == n;
        if !(p == i && q == j) {
            assert(conn_before(root, p, q, i, j));
            assert(net_mentioned_before(root, n, i, j));
        }
    }
    if net_mentioned_before(root, n, i, j) {
        let (p, q) = choose|p: int, q: int|
            #![trigger conn_at(root, p, q)]
            conn_before(root, p, q, i, j) && conn_at(root, p, q).external == n;
        assert(conn_before(root, p, q, i, j + 1));
        assert(net_mentioned_before(root, n, i, j + 1));
    }
    if conn_at(root, i, j).external == n {
        assert(conn_before(root, i, j, i, j + 1));
        assert(net_mentioned_before(root, n, i, j + 1));
    }
}

proof fn lemma_source_step(
    files: Seq<(Seq<char>, Seq<char>)>,
    root: ChipView,
    n: Seq<char>,
    x: NodeView,
    i: int,
    j: int,
)
    requires
        0 <= i < root.parts.len(),
        0 <= j < root.parts[i].connections.len(),
    ensures
        is_source_before(files, root, n, x, i, j + 1) <==> {
            ||| is_source_before(files, root, n, x, i, j)
            ||| (drives_net(files, root, i, j, n) && x == part_node(root, i))
            ||| (conn_at(root, i, j).external == n && root.inputs.contains(n) && x
                == input_node())
        },
{
    lemma_mentioned_step(root, n, i, j);
    if is_source_before(files, root, n, x, i, j + 1) {
        if exists|p: int, q: int|
            #![trigger conn_at(root, p, q)]
            conn_before(root, p, q, i, j + 1) && drives_net(files, root, p, q, n) && x
                == part_node(root, p) {
            let (p, q) = choose|p: int, q: int|
                #![trigger conn_at(root, p, q)]
                conn_before(root, p, q, i, j + 1) && drives_net(files, root, p, q, n) && x
                    == part_node(root, p);
            if !(p == i && q == j) {
                assert(conn_before(root, p, q, i, j));
                assert(is_source_before(files, root, n, x, i, j));
            }
        }
    }
    if is_source_before(files, root, n, x, i, j) {
        if exists|p: int, q: int|
            #![trigger conn_at(root, p, q)]
            conn_before(root, p, q, i, j) && drives_net(files, root, p, q, n) && x == part_node(
                root,
                p,
            ) {
            let (p, q) = choose|p: int, q: int|
                #![trigger conn_at(root, p, q)]
                conn_before(root, p, q, i, j) && drives_net(files, root, p, q, n) && x
                    == part_node(root, p);
            assert(conn_before(root, p, q, i, j + 1));
            assert(is_source_before(files, root, n, x, i, j + 1));
        }
    }
    if drives_net(files, root, i, j, n) && x == part_node(root, i) {
        assert(conn_before(root, i, j, i, j + 1));
        assert(is_source_before(files, root, n, x, i, j + 1));
    }
}

proof fn lemma_dest_step(
    files: Seq<(Seq<char>, Seq<char>)>,
    root: ChipView,
    n: Seq<char>,
    x: NodeView,
    i: int,
    j: int,
)
    requires
        0 <= i < root.parts.len(),
        0 <= j < root.parts[i].connections.len(),
    ensures
        is_dest_before(files, root, n, x, i, j + 1) <==> {
            ||| is_dest_before(files, root, n, x, i, j)
            ||| (consumes_net(files, root, i, j, n) && x == part_node(root, i))
            ||| (conn_at(root, i, j).external == n && root.outputs.contains(n)
                && !root.inputs.contains(n) && x == output_node())
        },
{
    lemma_mentioned_step(root, n, i, j);
    if is_dest_before(files, root, n, x, i, j + 1) {
        if exists|p: int, q: int|
            #![trigger conn_at(root, p, q)]
            conn_before(root, p, q, i, j + 1) && consumes_net(files, root, p, q, n) && x
                == part_node(root, p) {
            let (p, q) = choose|p: int, q: int|
                #![trigger conn_at(root, p, q)]
                conn_before(root, p, q, i, j + 1) && consumes_net(files, root, p, q, n) && x
                    == part_node(root, p);
            if !(p == i && q == j) {
                assert(conn_before(root, p, q, i, j));
                assert(is_dest_before(files, root, n, x, i, j));
            }
        }
    }
    if is_dest_before(files, root, n, x, i, j) {
        if exists|p: int, q: int|
            #![trigger conn_at(root, p, q)]
            conn_before(root, p, q, i, j) && consumes_net(files, root, p, q, n) && x == part_node(
                root,
                p,
            ) {
            let (p, q) = choose|p: int, q: int|
                #![trigger conn_at(root, p, q)]
                conn_before(root, p, q, i, j) && consumes_net(files, root, p, q, n) && x
                    == part_node(root, p);
            assert(conn_before(root, p, q, i, j + 1));
            assert(is_dest_before(files, root, n, x, i, j + 1));
        }
    }
    if consumes_net(files, root, i, j, n) && x == part_node(root, i) {
        assert(conn_before(root, i, j, i, j + 1));
        assert(is_dest_before(files, root, n, x, i, j + 1));
    }
}

proof fn lemma_prefix_rollover(
    files: Seq<(Seq<char>, Seq<char>)>,
    root: ChipView,
    n: Seq<char>,
    x: NodeView,
    i: int,
)
    requires
        0 <= i < root.parts.len(),
    ensures
        net_mentioned_before(root, n, i + 1, 0) == net_mentioned_before(
            root,
            n,
            i,
            root.parts[i].connections.len() as int,
        ),
        is_source_before(files, root, n, x, i + 1, 0) == is_source_before(
            files,
            root,
            n,
            x,
            i,
            root.parts[i].connections.len() as int,
        ),
        is_dest_before(files, root, n, x, i + 1, 0) == is_dest_before(
            files,
            root,
            n,
            x,
            i,
            root.parts[i].connections.len() as int,
        ),
{
    let je = root.parts[i].connections.len() as int;
    assert forall|p: int, q: int|
        #![trigger conn_at(root, p, q)]
        conn_before(root, p, q, i + 1, 0) == conn_before(root, p, q, i, je) by {
    }
}


/// Builds the connectivity graph of the named root chip against a table of
/// `(file name, file text)` definition files.
///
/// The root is resolved first; then every part instance is resolved and each
/// of its pin connections is classified against the instance's own chip
/// description. The build fails when a definition file is absent or
/// malformed, or when an internal pin is not exactly one of an input or an
/// output of its part; on success the graph holds one node per part
/// instance and one edge per mentioned net, with exactly the driver and
/// consumer endpoints the model assigns, edges sorted by net name and
/// endpoint sets sorted.
pub fn generate_graph(root_name: &str, files: &Vec<(String, String)>) -> (r: Result<
    Graph,
    GenericError,
>)
    ensures
        r is Ok <==> build_ok(files.deep_view(), root_name@),
        r is Ok ==> graph_matches(
            files.deep_view(),
            resolve_spec(files.deep_view(), root_name@)->Some_0,
            r->Ok_0@,
        ),
        r is Err && lookup(files.deep_view(), filename_of(root_name@)) is None ==> r->Err_0.details@
            == missing_file_message(root_name@),
{
    let ghost fv = files.deep_view();
    let root = match resolve(root_name, files) {
        Ok(c) => c,
        Err(e) => {
            return Err(e);
        },
    };
    let ghost rv = root@;
    proof {
        assert(rv == resolve_spec(fv, root_name@)->Some_0);
    }
    let mut nodes: Vec<Node> = Vec::new();
    let mut edges: Vec<Edge> = Vec::new();
    proof {
        assert(edges.deep_view() =~= Seq::<EdgeView>::empty());
        assert(nodes.deep_view() =~= Seq::<NodeView>::empty());
        assert forall|n: Seq<char>| !net_mentioned_before(rv, n, 0, 0) by {
            if net_mentioned_before(rv, n, 0, 0) {
                let (p, q) = choose|p: int, q: int|
                    #![trigger conn_at(rv, p, q)]
                    conn_before(rv, p, q, 0, 0) && conn_at(rv, p, q).external == n;
            }
        }
        assert(edges_match_before(fv, rv, edges.deep_view(), 0, 0));
    }
    let mut i: usize = 0;
    while i < root.parts.len()
        invariant
            fv == files.deep_view(),
            rv == root@,
            resolve_spec(fv, root_name@) is Some,
            rv == resolve_spec(fv, root_name@)->Some_0,
            i <= root.parts.len(),
            root.parts@.len() == rv.parts.len(),
            nodes.deep_view().len() == i,
            forall|p: int| 0 <= p < i ==> nodes.deep_view()[p] == part_node(rv, p),
            edges_match_before(fv, rv, edges.deep_view(), i as int, 0),
            forall|p: int| 0 <= p < i ==> resolve_spec(fv, (#[trigger] rv.parts[p]).name) is Some,
            no_ambiguity_before(fv, rv, i as int, 0),
        decreases root.parts@.len() - i,
    {
        let ghost ii = i as int;
        let part = &root.parts[i];
        proof {
            assert(part@ == rv.parts[ii]);
        }
        let part_chip_desc = match resolve(part.name.as_str(), files) {
            Ok(c) => c,
            Err(e) => {
                proof {
                    assert(resolve_spec(fv, rv.parts[ii].name) is None);
                    assert(!parts_resolve(fv, rv));
                }
                return Err(e);
            },
        };
        let index_u32: u32 = #[verifier::truncate] (i as u32);
        proof {
            assert(part_chip_desc@ == part_chip(fv, rv, ii));
            assert(part_node(rv, ii).index == index_u32);
            assert(part_node(rv, ii).name == part.name@);
        }
        let mut j: usize = 0;
        while j < part.connections.len()
            invariant
                fv == files.deep_view(),
                rv == root@,
                resolve_spec(fv, root_name@) is Some,
                rv == resolve_spec(fv, root_name@)->Some_0,
                ii == i as int,
                0 <= ii < rv.parts.len(),
                part@ == rv.parts[ii],
                part_chip_desc@ == part_chip(fv, rv, ii),
                index_u32 == part_node(rv, ii).index,
                j <= part.connections.len(),
                part.connections@.len() == rv.parts[ii].connections.len(),
                edges_match_before(fv, rv, edges.deep_view(), ii, j as int),
                no_ambiguity_before(fv, rv, ii, j as int),
            decreases part.connections@.len() - j,
        {
            let ghost jj = j as int;
            let ghost e_before = edges.deep_view();
            let conn = &part.connections[j];
            proof {
                assert(conn@ == rv.parts[ii].connections[jj]);
                assert(conn_at(rv, ii, jj) == conn@);
            }
            let ghost nn = conn.external@;
            let is_in = vec_contains_str(&part_chip_desc.inputs, &conn.internal);
            let is_out = vec_contains_str(&part_chip_desc.outputs, &conn.internal);
            proof {
                assert(is_in == part_chip(fv, rv, ii).inputs.contains(
                    conn_at(rv, ii, jj).internal,
                ));
                assert(is_out == part_chip(fv, rv, ii).outputs.contains(
                    conn_at(rv, ii, jj).internal,
                ));
            }
            if is_in == is_out {
                proof {
                    assert(conn_ambiguous(fv, rv, ii, jj));
                    assert(conn_before(rv, ii, jj, rv.parts.len() as int, 0));
                    assert(!build_ok(fv, root_name@));
                }
                return Err(
                    GenericError {
                        details: String::from_str("The pin ").concat(conn.internal.as_str())
                            .concat(" must be exactly one of an input or an output of ").concat(
                            part.name.as_str(),
                        ),
                    },
                );
            }
            let k = ensure_edge(&mut edges, &conn.external);
            let ghost e_open = edges.deep_view();
            let ghost s1: Seq<Edge> = edges@;
            let ghost had_edge = edge_name_present(e_before, nn);
            let ghost kk = k as int;
            let mut e = edges.remove(k);
            let ghost e0 = e@;
            proof {
                assert(e == s1[kk]);
                assert(e0 == e_open[kk]);
                assert(e0.pin_name == nn);
                // what the edge held before this connection was processed
                if !had_edge {
                    assert(!net_mentioned_before(rv, nn, ii, jj)) by {
                        if net_mentioned_before(rv, nn, ii, jj) {
                            assert(edge_name_present(e_before, nn));
                        }
                    }
                    assert(0 <= kk <= e_before.len());
                    e_before.insert_ensures(kk, empty_edge(nn));
                    assert(e_open == e_before.insert(kk, empty_edge(nn)));
                    assert(e0 == empty_edge(nn));
                    assert forall|y: NodeView| !is_source_before(fv, rv, nn, y, ii, jj) by {
                        if exists|p: int, q: int|
                            #![trigger conn_at(rv, p, q)]
                            conn_before(rv, p, q, ii, jj) && drives_net(fv, rv, p, q, nn) && y
                                == part_node(rv, p) {
                            let (p, q) = choose|p: int, q: int|
                                #![trigger conn_at(rv, p, q)]
                                conn_before(rv, p, q, ii, jj) && drives_net(fv, rv, p, q, nn) && y
                                    == part_node(rv, p);
                            assert(net_mentioned_before(rv, nn, ii, jj));
                        }
                    }
                    assert forall|y: NodeView| !is_dest_before(fv, rv, nn, y, ii, jj) by {
                        if exists|p: int, q: int|
                            #![trigger conn_at(rv, p, q)]
                            conn_before(rv, p, q, ii, jj) && consumes_net(fv, rv, p, q, nn) && y
                                == part_node(rv, p) {
                            let (p, q) = choose|p: int, q: int|
                                #![trigger conn_at(rv, p, q)]
                                conn_before(rv, p, q, ii, jj) && consumes_net(fv, rv, p, q, nn)
                                    && y == part_node(rv, p);
                            assert(net_mentioned_before(rv, nn, ii, jj));
                        }
                    }
                    assert(forall|y: NodeView| !e0.source.contains(y));
                    assert(forall|y: NodeView| !e0.dest.contains(y));
                } else {
                    assert(e_open == e_before);
                    assert(edge_matches_before(fv, rv, e_before[kk], ii, jj));
                }
                assert(sorted_nodes(e0.source));
                assert(sorted_nodes(e0.dest));
                assert forall|y: NodeView| e0.source.contains(y) == is_source_before(
                    fv,
                    rv,
                    nn,
                    y,
                    ii,
                    jj,
                ) by {}
                assert forall|y: NodeView| e0.dest.contains(y) == is_dest_before(
                    fv,
                    rv,
                    nn,
                    y,
                    ii,
                    jj,
                ) by {}
            }
            if is_in {
                insert_node_sorted(&mut e.dest, Node { name: part.name.clone(), index: index_u32 });
            } else {
                insert_node_sorted(
                    &mut e.source,
                    Node { name: part.name.clone(), index: index_u32 },
                );
            }
            let root_in = vec_contains_str(&root.inputs, &conn.external);
            let root_out = vec_contains_str(&root.outputs, &conn.external);
            proof {
                assert(root_in == rv.inputs.contains(nn));
                assert(root_out == rv.outputs.contains(nn));
            }
            if root_in {
                insert_node_sorted(
                    &mut e.source,
                    Node { name: String::from_str("Input"), index: u32::MAX },
                );
            } else if root_out {
                insert_node_sorted(
                    &mut e.dest,
                    Node { name: String::from_str("Output"), index: u32::MAX },
                );
            }
            let ghost ev = e@;
            let ghost en = e;
            let ghost s_mid: Seq<Edge> = edges@;
            edges.insert(k, e);
            proof {
                let pn = part_node(rv, ii);
                let e_done = edges.deep_view();
                let s2 = edges@;
                s1.remove_ensures(kk);
                s_mid.insert_ensures(kk, en);
                assert(s_mid == s1.remove(kk));
                assert(s2 == s_mid.insert(kk, en));
                assert(e_done.len() == e_open.len());
                assert(e_done[kk] == ev) by {
                    assert(s2[kk] == en);
                }
                assert forall|x: int| 0 <= x < e_done.len() && x != kk implies #[trigger] e_done[x]
                    == e_open[x] by {
                    if x < kk {
                        assert(s_mid[x] == s1[x]);
                        assert(s2[x] == s_mid[x]);
                    } else {
                        assert(s_mid[x - 1] == s1[(x - 1) + 1]);
                        assert(s2[(x - 1) + 1] == s_mid[x - 1]);
                    }
                }
                // endpoint membership of the updated edge
                assert(ev.pin_name == nn);
                assert forall|y: NodeView| ev.source.contains(y) == (e0.source.contains(y) || (
                is_out && y == pn) || (root_in && y == input_node())) by {
                }
                assert forall|y: NodeView| ev.dest.contains(y) == (e0.dest.contains(y) || (is_in
                    && y == pn) || (!root_in && root_out && y == output_node())) by {
                }
                // the updated edge matches the model at the extended prefix
                lemma_mentioned_step(rv, nn, ii, jj);
                assert(net_mentioned_before(rv, nn, ii, jj + 1));
                assert(drives_net(fv, rv, ii, jj, nn) == is_out);
                assert(consumes_net(fv, rv, ii, jj, nn) == is_in);
                assert forall|y: NodeView| ev.source.contains(y) == is_source_before(
                    fv,
                    rv,
                    nn,
                    y,
                    ii,
                    jj + 1,
                ) by {
                    lemma_source_step(fv, rv, nn, y, ii, jj);
                }
                assert forall|y: NodeView| ev.dest.contains(y) == is_dest_before(
                    fv,
                    rv,
                    nn,
                    y,
                    ii,
                    jj + 1,
                ) by {
                    lemma_dest_step(fv, rv, nn, y, ii, jj);
                }
                assert(edge_matches_before(fv, rv, e_done[kk], ii, jj + 1));
                // edges other than the updated one are untouched, and their
                // nets gain nothing from this connection
                assert forall|x: int| 0 <= x < e_done.len() && x != kk implies edge_matches_before(
                    fv,
                    rv,
                    #[trigger] e_done[x],
                    ii,
                    jj + 1,
                ) by {
                    assert(e_done[x] == e_open[x]);
                    if had_edge {
                        assert(edge_matches_before(fv, rv, e_before[x], ii, jj));
                    } else {
                        if x < kk {
                            assert(e_open[x] == e_before[x]);
                            assert(edge_matches_before(fv, rv, e_before[x], ii, jj));
                        } else {
                            assert(e_open[(x - 1) + 1] == e_before[x - 1]);
                            assert(edge_matches_before(fv, rv, e_before[x - 1], ii, jj));
                        }
                    }
                    let m = e_open[x].pin_name;
                    assert(m != nn) by {
                        if m == nn {
                            if x < kk {
                                assert(lex_lt(e_open[x].pin_name, e_open[kk].pin_name));
                            } else {
                                assert(lex_lt(e_open[kk].pin_name, e_open[x].pin_name));
                            }
                            lemma_lex_asymmetric(nn, nn);
                        }
                    }
                    lemma_mentioned_step(rv, m, ii, jj);
                    assert forall|y: NodeView| e_done[x].source.contains(y) == is_source_before(
                        fv,
                        rv,
                        m,
                        y,
                        ii,
                        jj + 1,
                    ) by {
                        lemma_source_step(fv, rv, m, y, ii, jj);
                    }
                    assert forall|y: NodeView| e_done[x].dest.contains(y) == is_dest_before(
                        fv,
                        rv,
                        m,
                        y,
                        ii,
                        jj + 1,
                    ) by {
                        lemma_dest_step(fv, rv, m, y, ii, jj);
                    }
                }
                // names are unchanged position by position, so order is kept
                assert(sorted_edge_names(e_done)) by {
                    assert forall|x: int| 0 <= x < e_done.len() implies (#[trigger] e_done[x]).pin_name
                        == e_open[x].pin_name by {
                        if x == kk {
                        }
                    }
                }
                // every mentioned net still has its edge
                assert forall|n2: Seq<char>| net_mentioned_before(rv, n2, ii, jj + 1) implies
                    #[trigger] edge_name_present(e_done, n2) by {
                    lemma_mentioned_step(rv, n2, ii, jj);
                    if n2 == nn {
                        assert(e_done[kk].pin_name == nn);
                    } else {
                        assert(net_mentioned_before(rv, n2, ii, jj));
                        assert(edge_name_present(e_before, n2));
                        let k0 = choose|k0: int|
                            0 <= k0 < e_before.len() && (#[trigger] e_before[k0]).pin_name == n2;
                        if had_edge {
                            assert(e_done[k0].pin_name == e_open[k0].pin_name);
                        } else {
                            if k0 < kk {
                                assert(e_open[k0] == e_before[k0]);
                                assert(e_done[k0].pin_name == n2);
                            } else {
                                assert(e_open[k0 + 1] == e_before[k0]);
                                assert(e_done[k0 + 1].pin_name == n2);
                            }
                        }
                    }
                }
                assert(edges_match_before(fv, rv, e_done, ii, jj + 1));
                // this connection was just shown unambiguous
                assert(no_ambiguity_before(fv, rv, ii, jj + 1)) by {
                    assert(!conn_ambiguous(fv, rv, ii, jj));
                    assert forall|p: int, q: int|
                        #![trigger conn_at(rv, p, q)]
                        conn_before(rv, p, q, ii, jj + 1) implies !conn_ambiguous(
                        fv,
                        rv,
                        p,
                        q,
                    ) by {
                        if !(p == ii && q == jj) {
                            assert(conn_before(rv, p, q, ii, jj));
                        }
                    }
                }
            }
            j = j + 1;
        }
        let ghost nodes_before = nodes.deep_view();
        nodes.push(Node { name: part.name.clone(), index: index_u32 });
        proof {
            let je = rv.parts[ii].connections.len() as int;
            assert(nodes.deep_view().len() == ii + 1);
            assert forall|p: int| 0 <= p < ii + 1 implies #[trigger] nodes.deep_view()[p]
                == part_node(rv, p) by {
                if p < ii {
                    assert(nodes.deep_view()[p] == nodes_before[p]);
                } else {
                    assert(nodes.deep_view()[p] == part_node(rv, ii));
                }
            }
            // the prefix after this part equals the prefix at the start of
            // the next
            let dv = edges.deep_view();
            assert forall|p: int, q: int|
                #![trigger conn_at(rv, p, q)]
                conn_before(rv, p, q, ii + 1, 0) == conn_before(rv, p, q, ii, je) by {
            }
            assert forall|x: int| 0 <= x < dv.len() implies edge_matches_before(
                fv,
                rv,
                #[trigger] dv[x],
                ii + 1,
                0,
            ) by {
                assert(edge_matches_before(fv, rv, dv[x], ii, je));
                lemma_prefix_rollover(fv, rv, dv[x].pin_name, input_node(), ii);
                assert forall|y: NodeView| dv[x].source.contains(y) == is_source_before(
                    fv,
                    rv,
                    dv[x].pin_name,
                    y,
                    ii + 1,
                    0,
                ) by {
                    lemma_prefix_rollover(fv, rv, dv[x].pin_name, y, ii);
                }
                assert forall|y: NodeView| dv[x].dest.contains(y) == is_dest_before(
                    fv,
                    rv,
                    dv[x].pin_name,
                    y,
                    ii + 1,
                    0,
                ) by {
                    lemma_prefix_rollover(fv, rv, dv[x].pin_name, y, ii);
                }
            }
            assert forall|n2: Seq<char>| net_mentioned_before(rv, n2, ii + 1, 0) implies
                #[trigger] edge_name_present(dv, n2) by {
                lemma_prefix_rollover(fv, rv, n2, input_node(), ii);
                assert(net_mentioned_before(rv, n2, ii, je));
            }
            assert(edges_match_before(fv, rv, dv, ii + 1, 0));
            assert(no_ambiguity_before(fv, rv, ii + 1, 0)) by {
                assert forall|p: int, q: int|
                    #![trigger conn_at(rv, p, q)]
                    conn_before(rv, p, q, ii + 1, 0) implies !conn_ambiguous(fv, rv, p, q) by {
                    assert(conn_before(rv, p, q, ii, je));
                }
            }
        }
        i = i + 1;
    }
    proof {
        assert(parts_resolve(fv, rv));
        assert(no_ambiguity_before(fv, rv, rv.parts.len() as int, 0));
        assert(build_ok(fv, root_name@));
    }
    let g = Graph { name: root.name, nodes, edges };
    proof {
        assert(graph_matches(fv, rv, g@));
    }
    Ok(g)
}

} // verus!
