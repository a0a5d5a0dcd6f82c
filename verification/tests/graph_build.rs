use hdl_graph::{generate_graph, resolve, Edge, Graph, Node};

fn and_files() -> Vec<(String, String)> {
    vec![
        (
            "And.hdl".to_string(),
            "CHIP And {\n    IN a, b;\n    OUT out;\n    PARTS:\n    Not(in=a, out=nota);\n    Not(in=b, out=notb);\n    Nor(a=nota, b=notb, out=out);\n}\n".to_string(),
        ),
        (
            "Not.hdl".to_string(),
            "CHIP Not {\n    IN in;\n    OUT out;\n    PARTS:\n    Nand(a=in, b=in, out=out);\n}\n".to_string(),
        ),
        (
            "Nor.hdl".to_string(),
            "CHIP Nor {\n    IN a, b;\n    OUT out;\n    PARTS:\n    Or(a=a, b=b, out=orout);\n    Not(in=orout, out=out);\n}\n".to_string(),
        ),
    ]
}

fn node(name: &str, index: u32) -> Node {
    Node { name: name.to_string(), index }
}

fn edge(source: Vec<Node>, dest: Vec<Node>, pin_name: &str) -> Edge {
    Edge { source, dest, pin_name: pin_name.to_string() }
}

#[test]
fn and_graph() {
    let files = and_files();
    let and = Graph {
        name: "And".to_string(),
        nodes: vec![node("Not", 0), node("Not", 1), node("Nor", 2)],
        edges: vec![
            edge(vec![node("Input", 4294967295)], vec![node("Not", 0)], "a"),
            edge(vec![node("Input", 4294967295)], vec![node("Not", 1)], "b"),
            edge(vec![node("Not", 0)], vec![node("Nor", 2)], "nota"),
            edge(vec![node("Not", 1)], vec![node("Nor", 2)], "notb"),
            edge(vec![node("Nor", 2)], vec![node("Output", 4294967295)], "out"),
        ],
    };
    assert_eq!(generate_graph("And", &files).unwrap(), and);
}

#[test]
fn and_graph_rendered() {
    let files = and_files();
    let g = generate_graph("And", &files).unwrap();
    let expected = "digraph {\n\
        \tlabel=\"And\";\n\
        \tlabelloc=top;\n\
        \tlabeljust=left;\n\
        \tInput_4294967295 [label=\"Input\"];\n\
        \tOutput_4294967295 [label=\"Output\"];\n\
        \tNot_0 [ label=\" Not\" ];\n\
        \tNot_1 [ label=\" Not\" ];\n\
        \tNor_2 [ label=\" Nor\" ];\n\
        \tInput_4294967295 -> Not_0 [ label=\" a\" ];\n\
        \tInput_4294967295 -> Not_1 [ label=\" b\" ];\n\
        \tNot_0 -> Nor_2 [ label=\" nota\" ];\n\
        \tNot_1 -> Nor_2 [ label=\" notb\" ];\n\
        \tNor_2 -> Output_4294967295 [ label=\" out\" ];\n\
        }\n";
    assert_eq!(g.render(), expected);
}

#[test]
fn build_is_deterministic() {
    let files = and_files();
    let g1 = generate_graph("And", &files).unwrap();
    let g2 = generate_graph("And", &files).unwrap();
    assert_eq!(g1, g2);
    assert_eq!(g1.render(), g2.render());
}

#[test]
fn net_fan_out_makes_one_edge_two_arrows() {
    let files = vec![
        (
            "Fan.hdl".to_string(),
            "CHIP Fan {\n    IN a;\n    OUT x, y;\n    PARTS:\n    Not(in=a, out=n1);\n    Buf(in=n1, out=x);\n    Buf(in=n1, out=y);\n}\n".to_string(),
        ),
        (
            "Not.hdl".to_string(),
            "CHIP Not {\n    IN in;\n    OUT out;\n    PARTS:\n}\n".to_string(),
        ),
        (
            "Buf.hdl".to_string(),
            "CHIP Buf {\n    IN in;\n    OUT out;\n    PARTS:\n}\n".to_string(),
        ),
    ];
    let g = generate_graph("Fan", &files).unwrap();
    let n1: Vec<&Edge> = g.edges.iter().filter(|e| e.pin_name == "n1").collect();
    assert_eq!(n1.len(), 1);
    assert_eq!(n1[0].source, vec![node("Not", 0)]);
    assert_eq!(n1[0].dest, vec![node("Buf", 1), node("Buf", 2)]);
    let text = g.render();
    assert!(text.contains("Not_0 -> Buf_1 [ label=\" n1\" ];\n"));
    assert!(text.contains("Not_0 -> Buf_2 [ label=\" n1\" ];\n"));
}

#[test]
fn pin_declared_as_both_directions_fails() {
    let files = vec![
        (
            "Amb.hdl".to_string(),
            "CHIP Amb {\n    IN a;\n    OUT b;\n    PARTS:\n    Bad(x=a);\n}\n".to_string(),
        ),
        (
            "Bad.hdl".to_string(),
            "CHIP Bad {\n    IN x;\n    OUT x;\n    PARTS:\n}\n".to_string(),
        ),
    ];
    let r = generate_graph("Amb", &files);
    assert!(r.is_err());
    assert!(r.unwrap_err().details.contains("input or an output"));
}

#[test]
fn pin_declared_in_neither_direction_fails() {
    let files = vec![
        (
            "Root.hdl".to_string(),
            "CHIP Root {\n    IN a;\n    OUT b;\n    PARTS:\n    Good(z=a);\n}\n".to_string(),
        ),
        (
            "Good.hdl".to_string(),
            "CHIP Good {\n    IN x;\n    OUT y;\n    PARTS:\n}\n".to_string(),
        ),
    ];
    let r = generate_graph("Root", &files);
    assert!(r.is_err());
    assert!(r.unwrap_err().details.contains("input or an output"));
}

#[test]
fn missing_definition_file_fails() {
    let mut files = and_files();
    files.retain(|(name, _)| name != "Nor.hdl");
    let r = generate_graph("And", &files);
    assert!(r.is_err());
    let message = r.unwrap_err().details;
    assert!(message.contains("Nor.hdl"));
    assert!(message.contains("is missing"));
}

#[test]
fn malformed_hdl_fails_with_parser_message() {
    let files = vec![("Broken.hdl".to_string(), "aaaa ".to_string())];
    let r = generate_graph("Broken", &files);
    assert!(r.is_err());
    assert!(!r.unwrap_err().details.is_empty());
}

#[test]
fn instance_name_is_stemmed_to_pick_the_file() {
    let files = vec![
        (
            "Stem.hdl".to_string(),
            "CHIP Stem {\n    IN a;\n    OUT out;\n    PARTS:\n    Not_left(in=a, out=out);\n}\n".to_string(),
        ),
        (
            "Not.hdl".to_string(),
            "CHIP Not {\n    IN in;\n    OUT out;\n    PARTS:\n}\n".to_string(),
        ),
    ];
    let g = generate_graph("Stem", &files).unwrap();
    assert_eq!(g.nodes, vec![node("Not_left", 0)]);
    let a: Vec<&Edge> = g.edges.iter().filter(|e| e.pin_name == "a").collect();
    assert_eq!(a[0].dest, vec![node("Not_left", 0)]);
}

#[test]
fn two_instances_of_one_type_are_distinct_nodes() {
    let files = and_files();
    let g = generate_graph("And", &files).unwrap();
    assert_eq!(g.nodes[0], node("Not", 0));
    assert_eq!(g.nodes[1], node("Not", 1));
    assert_ne!(g.nodes[0], g.nodes[1]);
    let nota: Vec<&Edge> = g.edges.iter().filter(|e| e.pin_name == "nota").collect();
    let notb: Vec<&Edge> = g.edges.iter().filter(|e| e.pin_name == "notb").collect();
    assert_eq!(nota[0].source, vec![node("Not", 0)]);
    assert_eq!(notb[0].source, vec![node("Not", 1)]);
}

#[test]
fn boundary_pins_reach_the_synthetic_terminals() {
    let files = and_files();
    let g = generate_graph("And", &files).unwrap();
    for pin in ["a", "b"] {
        let e: Vec<&Edge> = g.edges.iter().filter(|e| e.pin_name == pin).collect();
        assert_eq!(e.len(), 1);
        assert!(e[0].source.contains(&node("Input", u32::MAX)));
    }
    let out: Vec<&Edge> = g.edges.iter().filter(|e| e.pin_name == "out").collect();
    assert!(out[0].dest.contains(&node("Output", u32::MAX)));
}

#[test]
fn resolve_parses_the_backing_file() {
    let files = and_files();
    let chip = resolve("Nor", &files).unwrap();
    assert_eq!(chip.name, "Nor");
    assert_eq!(chip.inputs, vec!["a".to_string(), "b".to_string()]);
    assert_eq!(chip.outputs, vec!["out".to_string()]);
    assert_eq!(chip.parts.len(), 2);
    assert_eq!(chip.parts[0].name, "Or");
    assert_eq!(chip.parts[0].connections.len(), 3);
    assert_eq!(chip.parts[0].connections[0].internal, "a");
    assert_eq!(chip.parts[0].connections[0].external, "a");
    assert_eq!(chip.parts[1].name, "Not");
    assert_eq!(chip.parts[1].connections[0].internal, "in");
    assert_eq!(chip.parts[1].connections[0].external, "orout");
}

#[test]
fn render_writes_multi_digit_indices() {
    let g = Graph {
        name: "Wide".to_string(),
        nodes: vec![node("Part", 10)],
        edges: vec![edge(vec![node("Part", 10)], vec![node("Output", u32::MAX)], "w")],
    };
    let text = g.render();
    assert!(text.contains("\tPart_10 [ label=\" Part\" ];\n"));
    assert!(text.contains("Part_10 -> Output_4294967295 [ label=\" w\" ];\n"));
}

#[test]
fn edges_are_sorted_by_net_name() {
    let files = vec![
        (
            "Sort.hdl".to_string(),
            "CHIP Sort {\n    IN a;\n    OUT z;\n    PARTS:\n    Buf(in=a, out=z);\n    Buf(in=a, out=m);\n}\n".to_string(),
        ),
        (
            "Buf.hdl".to_string(),
            "CHIP Buf {\n    IN in;\n    OUT out;\n    PARTS:\n}\n".to_string(),
        ),
    ];
    let g = generate_graph("Sort", &files).unwrap();
    let names: Vec<&str> = g.edges.iter().map(|e| e.pin_name.as_str()).collect();
    assert_eq!(names, vec!["a", "m", "z"]);
}
