use inkstory::{
    char_count_less_than, instory_to_ink, temp_knot_name, Asset, BuildError, Diagram, Edge,
    EdgeId, Knot, KnotName, Node, NodeContext, NodeId, NodeKind, Port, PortId, PortType, Story,
    StoryId,
};

fn asset() -> Asset {
    Asset { id: 0, url: String::new() }
}

fn port(id: u128, name: &str, port_type: PortType, node: u128) -> Port {
    Port { id: PortId(id), name: name.to_string(), port_type, position: 0, node_id: NodeId(node) }
}

fn node(id: u128, kind: NodeKind, ports: Vec<Port>) -> Node {
    Node {
        id: NodeId(id),
        kind,
        title: String::new(),
        x: 0,
        y: 0,
        story_id: StoryId(1),
        background: asset(),
        audio: asset(),
        ports,
    }
}

fn text(t: &str) -> NodeKind {
    NodeKind::TextChoice {
        context: Some(NodeContext {
            text: t.to_string(),
            timeout: 0,
            timeout_unit: String::new(),
            timeout_port_id: String::new(),
        }),
    }
}

fn edge(id: u128, from: &Port, to: &Port) -> Edge {
    Edge {
        id: EdgeId(id),
        source: from.clone(),
        source_id: from.id,
        target: to.clone(),
        target_id: to.id,
    }
}

fn diagram(nodes: Vec<Node>, edges: Vec<Edge>) -> Diagram {
    Diagram { variables: vec![], attachments: vec![], nodes, edges, groups: vec![] }
}

fn name(id: u128) -> String {
    format!("knot_{:032x}", id)
}

/// Start -> A ("Hello", choice "Go") -> B ("Bye").
fn two_knots() -> Diagram {
    let s_out = port(101, "Begin", PortType::Out, 1);
    let a_in = port(201, "", PortType::In, 0xa);
    let a_out = port(202, "Go", PortType::Out, 0xa);
    let b_in = port(301, "", PortType::In, 0xb);
    let e1 = edge(1, &s_out, &a_in);
    let e2 = edge(2, &a_out, &b_in);
    diagram(
        vec![
            node(1, NodeKind::Start, vec![s_out]),
            node(0xa, text("Hello"), vec![a_in, a_out]),
            node(0xb, text("Bye"), vec![b_in]),
        ],
        vec![e1, e2],
    )
}

#[test]
fn renders_start_to_two_knots() {
    let story = instory_to_ink(&two_knots()).unwrap();
    let a = name(0xa);
    let b = name(0xb);
    assert_eq!(story.start.to_string(), a);
    let expected = format!(
        "-> {a}\n=== {a} ===\nHello\n+ [Go] -> {b}\n\n=== {b} ===\nBye\n-> END\n\n"
    );
    assert_eq!(story.render(), expected);
    assert!(!story.render().contains("unreachable"));
}

#[test]
fn missing_start_node_fails() {
    let d = diagram(vec![node(0xa, text("Hello"), vec![])], vec![]);
    assert!(matches!(instory_to_ink(&d), Err(BuildError::MissingStartNode)));
    let empty = diagram(vec![], vec![]);
    assert!(matches!(instory_to_ink(&empty), Err(BuildError::MissingStartNode)));
}

#[test]
fn start_without_children_fails() {
    let s_out = port(101, "Begin", PortType::Out, 1);
    let d = diagram(
        vec![node(1, NodeKind::Start, vec![s_out]), node(0xa, text("Hello"), vec![])],
        vec![],
    );
    assert!(matches!(instory_to_ink(&d), Err(BuildError::StartNodeHasNoChildren)));
}

#[test]
fn text_node_without_context_fails() {
    let mut d = two_knots();
    d.nodes[2].kind = NodeKind::TextChoice { context: None };
    assert!(matches!(instory_to_ink(&d), Err(BuildError::MissingTextContext)));
}

#[test]
fn build_twice_renders_identically() {
    let d = two_knots();
    let first = instory_to_ink(&d).unwrap().render();
    let second = instory_to_ink(&d).unwrap().render();
    assert_eq!(first, second);
}

#[test]
fn cycle_renders_each_knot_once() {
    let s_out = port(101, "Begin", PortType::Out, 1);
    let a_in = port(201, "", PortType::In, 0xa);
    let a_out = port(202, "Next", PortType::Out, 0xa);
    let b_in = port(301, "", PortType::In, 0xb);
    let b_out = port(302, "Back", PortType::Out, 0xb);
    let edges = vec![edge(1, &s_out, &a_in), edge(2, &a_out, &b_in), edge(3, &b_out, &a_in)];
    let d = diagram(
        vec![
            node(1, NodeKind::Start, vec![s_out]),
            node(0xa, text("A"), vec![a_in, a_out]),
            node(0xb, text("B"), vec![b_in, b_out]),
        ],
        edges,
    );
    let out = instory_to_ink(&d).unwrap().render();
    let a = name(0xa);
    let b = name(0xb);
    assert_eq!(out.matches(&format!("=== {a} ===")).count(), 1);
    assert_eq!(out.matches(&format!("=== {b} ===")).count(), 1);
    let expected =
        format!("-> {a}\n=== {a} ===\nA\n+ [Next] -> {b}\n\n=== {b} ===\nB\n+ [Back] -> {a}\n\n");
    assert_eq!(out, expected);
}

#[test]
fn unreachable_knots_come_last() {
    let mut d = two_knots();
    d.nodes.push(node(0xc, text("Lost"), vec![]));
    d.nodes.push(node(0xd, text("Gone"), vec![]));
    let out = instory_to_ink(&d).unwrap().render();
    let a = name(0xa);
    let b = name(0xb);
    let c = name(0xc);
    let e = name(0xd);
    let expected = format!(
        "-> {a}\n=== {a} ===\nHello\n+ [Go] -> {b}\n\n=== {b} ===\nBye\n-> END\n\n\
         // Some knots are unreachable:\n=== {c} ===\nLost\n-> END\n\n=== {e} ===\nGone\n-> END\n\n"
    );
    assert_eq!(out, expected);
}

#[test]
fn knot_without_choices_ends() {
    let k = Knot { text: "Bye".to_string(), choices: vec![] };
    assert_eq!(k.render(), "Bye\n-> END\n");
    let empty = Knot { text: String::new(), choices: vec![] };
    assert_eq!(empty.render(), "-> END\n");
}

#[test]
fn knot_lists_choices_in_order() {
    let k = Knot {
        text: String::new(),
        choices: vec![
            ("Left".to_string(), KnotName::from("l".to_string())),
            ("Right".to_string(), KnotName::from("r".to_string())),
        ],
    };
    assert_eq!(k.render(), "+ [Left] -> l\n+ [Right] -> r\n");
}

#[test]
fn dangling_choice_reported_once() {
    let mut story = Story::new(KnotName::from("a".to_string()));
    story.insert(
        KnotName::from("a".to_string()),
        Knot {
            text: "A".to_string(),
            choices: vec![
                ("x".to_string(), KnotName::from("nowhere".to_string())),
                ("y".to_string(), KnotName::from("nowhere".to_string())),
            ],
        },
    );
    let expected = "-> a\n=== a ===\nA\n+ [x] -> nowhere\n+ [y] -> nowhere\n\n\
                    === nowhere ===\n// knot not found\n";
    assert_eq!(story.render(), expected);
}

#[test]
fn missing_start_knot_renders_placeholder() {
    let mut story = Story::new(KnotName::from("gone".to_string()));
    story.insert(KnotName::from("a".to_string()), Knot { text: "A".to_string(), choices: vec![] });
    let expected = "-> gone\n=== gone ===\n// knot not found\n\
                    // Some knots are unreachable:\n=== a ===\nA\n-> END\n\n";
    assert_eq!(story.render(), expected);
}

#[test]
fn insert_replaces_knot_of_same_name() {
    let mut story = Story::new(KnotName::from("a".to_string()));
    story.insert(KnotName::from("a".to_string()), Knot { text: "old".to_string(), choices: vec![] });
    story.insert(KnotName::from("b".to_string()), Knot { text: "B".to_string(), choices: vec![] });
    story.insert(KnotName::from("a".to_string()), Knot { text: "new".to_string(), choices: vec![] });
    assert_eq!(story.knots.len(), 2);
    assert_eq!(story.knots[0].1.text, "new");
    assert_eq!(story.get(&"b".to_string()).unwrap().text, "B");
    assert!(story.get(&"c".to_string()).is_none());
}

#[test]
fn choices_follow_ports_and_edges() {
    let s_out = port(101, "Begin", PortType::Out, 1);
    let s_in = port(102, "ignored", PortType::In, 1);
    let a_in = port(201, "", PortType::In, 0xa);
    let b_in = port(301, "", PortType::In, 0xb);
    let other = port(401, "Other", PortType::Out, 0xc);
    // Edges listed B first: results still come in node order.
    let edges = vec![edge(1, &s_out, &b_in), edge(2, &s_out, &a_in), edge(3, &other, &a_in)];
    let start = node(1, NodeKind::Start, vec![s_out, s_in]);
    let d = diagram(
        vec![
            start.clone(),
            node(0xa, text("A"), vec![a_in]),
            node(0xb, text("B"), vec![b_in]),
            node(0xc, text("C"), vec![other]),
        ],
        edges,
    );
    let got = d.choices(&start);
    assert_eq!(got, vec![("Begin".to_string(), 1), ("Begin".to_string(), 2)]);
    let none = d.choices(&d.nodes[2]);
    assert!(none.is_empty());
}

#[test]
fn choices_last_edge_wins_on_shared_target() {
    let one = port(101, "One", PortType::Out, 1);
    let two = port(102, "Two", PortType::Out, 1);
    let a_in = port(201, "", PortType::In, 0xa);
    let edges = vec![edge(1, &one, &a_in), edge(2, &two, &a_in)];
    let start = node(1, NodeKind::Start, vec![one, two]);
    let d = diagram(vec![start.clone(), node(0xa, text("A"), vec![a_in])], edges);
    assert_eq!(d.choices(&start), vec![("Two".to_string(), 1)]);
}

#[test]
fn knot_names_come_from_identifiers() {
    let n = node(0x0123456789abcdef_0011223344556677, text("Hi"), vec![]);
    assert_eq!(temp_knot_name(&n).to_string(), "knot_0123456789abcdef0011223344556677");
    let s = node(5, NodeKind::Start, vec![]);
    assert_eq!(temp_knot_name(&s).to_string(), "start");
}

#[test]
fn char_count_stops_at_limit() {
    let mut count: usize = 0;
    assert!(char_count_less_than(5, &mut count, &"ab".to_string()));
    assert_eq!(count, 2);
    assert!(char_count_less_than(5, &mut count, &"éz".to_string()));
    assert_eq!(count, 4);
    assert!(!char_count_less_than(5, &mut count, &"x".to_string()));
    assert_eq!(count, 5);
}

#[test]
fn knot_name_round_trip() {
    let k = KnotName::from("intro".to_string());
    assert_eq!(k.to_string(), "intro");
    assert_eq!(k, KnotName("intro".to_string()));
}
