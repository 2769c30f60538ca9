use morph::error::MorphError;
use morph::error::MorphResult;
use morph::graph::DependencyGraph;
use morph::graph::DependentGraphBuilder;
use morph::lexer::SimpleLexer;
use morph::parser::AstParser;
use morph::parser::Field;
use morph::parser::Packet;
use morph::parser::SimpleParser;
use morph::semantics::AnalyzerKind;
use morph::semantics::CompositeSemanticAnalyzer;
use morph::semantics::DependencySemanticAnalyzer;
use morph::semantics::DependentField;
use morph::semantics::FieldSemanticAnalyzer;
use morph::semantics::IdSemanticAnalyzer;
use morph::semantics::NameSemanticAnalyzer;
use morph::semantics::SemanticAnalyzer;
use morph::token::FieldType;

fn parse(text: &str) -> Vec<Packet> {
    let lines: Vec<Result<String, String>> = text.lines().map(|l| Ok(l.to_string())).collect();
    let tokens = match SimpleLexer.tokenize(&lines) {
        MorphResult::Success(tokens) => tokens,
        MorphResult::Errors(_) => panic!("lexing failed"),
    };
    match SimpleParser.parse(&tokens) {
        MorphResult::Success(packets) => packets,
        MorphResult::Errors(_) => panic!("parsing failed"),
    }
}

fn messages(r: MorphResult<()>) -> Vec<String> {
    match r {
        MorphResult::Success(_) => Vec::new(),
        MorphResult::Errors(errors) => errors.iter().map(|e| e.message()).collect(),
    }
}

fn packet(name: &str, id: i32, is_auto: bool, fields: Vec<Field>) -> Packet {
    Packet {
        id,
        is_auto,
        name: name.to_string(),
        fields,
    }
}

fn field(typ: FieldType, name: &str) -> Field {
    Field {
        typ,
        name: name.to_string(),
    }
}

#[test]
fn flags_duplicate_packet_names() {
    let packets = parse("packet Foo { id = 1 }\npacket Foo { id = 2 }\npacket Foo { id = 3 }");
    let msgs = messages(NameSemanticAnalyzer.analyze(&packets));
    // the first occurrence is not flagged; every repeat is
    assert_eq!(msgs.len(), 2);
    assert!(msgs[0].contains("Duplicate packet name: Foo"));
    assert!(msgs[1].contains("Duplicate packet name: Foo"));
}

#[test]
fn accepts_unique_packet_names() {
    let packets = parse("packet A { id = 1 }\npacket B { id = 2 }");
    assert!(messages(NameSemanticAnalyzer.analyze(&packets)).is_empty());
}

#[test]
fn flags_duplicate_ids() {
    let packets = parse("packet A { id = 5 }\npacket B { id = 5 }");
    let msgs = messages(IdSemanticAnalyzer.analyze(&packets));
    assert_eq!(msgs.len(), 1);
    assert!(msgs[0].contains("Duplicate packet id: 5"));
}

#[test]
fn never_flags_automatic_ids() {
    let packets = parse("packet A { id = auto }\npacket B { id = auto }");
    assert!(messages(IdSemanticAnalyzer.analyze(&packets)).is_empty());
}

#[test]
fn flags_negative_and_duplicate_ids_independently() {
    let packets = vec![
        packet("A", -7, false, Vec::new()),
        packet("B", -7, false, Vec::new()),
    ];
    let msgs = messages(IdSemanticAnalyzer.analyze(&packets));
    // B's id is both negative and a duplicate: both are reported
    assert_eq!(msgs.len(), 3);
    assert!(msgs[0].contains("can not be less than 0, actual value is -7"));
    assert!(msgs[0].contains("'A'"));
    assert!(msgs[1].contains("can not be less than 0"));
    assert!(msgs[2].contains("Duplicate packet id: -7"));
}

#[test]
fn flags_duplicate_field_names_across_packets() {
    let packets = parse(
        "packet A { id = 1 fields { int x } }\npacket B { id = 2 fields { string x } }",
    );
    let msgs = messages(FieldSemanticAnalyzer.analyze(&packets));
    assert_eq!(msgs.len(), 1);
    assert!(msgs[0].contains("Duplicate field name in packet 'B': x"));
}

#[test]
fn detects_a_reference_cycle() {
    let packets = parse(
        "packet A { id = 1 fields { B b } }\npacket B { id = 2 fields { A a } }",
    );
    let msgs = messages(DependencySemanticAnalyzer.analyze(&packets));
    assert_eq!(msgs.len(), 1);
    assert!(msgs[0].contains("Cycle detected"));
    assert!(msgs[0].contains("\"A\""));
    assert!(msgs[0].contains("\"B\""));
}

#[test]
fn accepts_an_acyclic_reference_graph() {
    let packets = parse(
        "packet A { id = 1 fields { B b array C cs } }\npacket B { id = 2 }\npacket C { id = 3 }",
    );
    assert!(messages(DependencySemanticAnalyzer.analyze(&packets)).is_empty());
}

#[test]
fn reports_a_missing_type_reference() {
    let packets = parse("packet A { id = 1 fields { Ghostly g } }");
    let msgs = messages(DependencySemanticAnalyzer.analyze(&packets));
    assert_eq!(msgs.len(), 1);
    assert!(msgs[0].contains("Dependency 'Ghostly' does not exist"));
}

#[test]
fn missing_references_fail_before_cycle_detection() {
    // A and B form a cycle, but A also references a name that does not
    // exist: graph construction fails first
    let packets = parse(
        "packet A { id = 1 fields { B b Missing m } }\npacket B { id = 2 fields { A a } }",
    );
    let msgs = messages(DependencySemanticAnalyzer.analyze(&packets));
    assert_eq!(msgs.len(), 1);
    assert!(msgs[0].contains("does not exist"));
    assert!(!msgs[0].contains("Cycle"));
}

#[test]
fn self_reference_is_a_cycle() {
    let packets = parse("packet A { id = 1 fields { A again } }");
    let msgs = messages(DependencySemanticAnalyzer.analyze(&packets));
    assert_eq!(msgs.len(), 1);
    assert!(msgs[0].contains("Cycle detected"));
}

#[test]
fn composite_short_circuits_on_the_first_failing_analyzer() {
    // duplicate names and duplicate ids at once: only the name analyzer's
    // errors may appear, the id analyzer must not run
    let packets = parse("packet Foo { id = 5 }\npacket Foo { id = 5 }");
    let mut composite = CompositeSemanticAnalyzer::new();
    composite.add_analyzer(AnalyzerKind::Name);
    composite.add_analyzer(AnalyzerKind::Id);
    composite.add_analyzer(AnalyzerKind::Dependency);
    composite.add_analyzer(AnalyzerKind::Field);
    let msgs = messages(composite.analyze(&packets));
    assert_eq!(msgs.len(), 1);
    assert!(msgs[0].contains("Duplicate packet name"));
    assert!(msgs.iter().all(|m| !m.contains("Duplicate packet id")));
}

#[test]
fn composite_accepts_a_valid_unit() {
    let packets = parse(
        "packet Header { id = auto fields { u16 size } }\npacket Body { id = 2 fields { Header h array i64 values } }",
    );
    let mut composite = CompositeSemanticAnalyzer::new();
    composite.add_analyzer(AnalyzerKind::Name);
    composite.add_analyzer(AnalyzerKind::Id);
    composite.add_analyzer(AnalyzerKind::Dependency);
    composite.add_analyzer(AnalyzerKind::Field);
    assert!(matches!(
        composite.analyze(&packets),
        MorphResult::Success(())
    ));
}

#[test]
fn empty_composite_accepts_everything() {
    let packets = parse("packet Foo { id = -3 }\npacket Foo { id = -3 }");
    let composite = CompositeSemanticAnalyzer::new();
    assert!(matches!(
        composite.analyze(&packets),
        MorphResult::Success(())
    ));
}

#[test]
fn semantic_error_messages_are_uniformly_rendered() {
    let packets = parse("packet A { id = 1 }\npacket A { id = 2 }");
    match NameSemanticAnalyzer.analyze(&packets) {
        MorphResult::Errors(errors) => {
            assert!(matches!(errors[0], MorphError::Semantic(_)));
            assert!(errors[0].message().starts_with("SemanticError: "));
        }
        _ => panic!("expected errors"),
    }
}

fn node(name: &str) -> DependentField {
    DependentField::new(name.to_string())
}

fn sample_graph() -> DependencyGraph<DependentField> {
    let mut builder = DependentGraphBuilder::new();
    builder.node(node("a"));
    builder.node(node("b"));
    builder.node(node("c"));
    builder.edge("a".to_string(), "b".to_string());
    builder.edge("a".to_string(), "c".to_string());
    builder.build()
}

#[test]
fn builder_keeps_the_first_node_per_key() {
    let mut builder = DependentGraphBuilder::new();
    builder.node(node("a"));
    builder.node(node("a"));
    let graph = builder.build();
    assert_eq!(graph.nodes.len(), 1);
    assert!(graph.has_node("a"));
    assert!(!graph.has_node("z"));
}

#[test]
fn graph_lookups_find_nodes_and_successors() {
    let graph = sample_graph();
    assert!(graph.node_by_id("b").is_some());
    assert!(graph.node_by_id("missing").is_none());
    let ids = graph.successor_ids("a");
    assert_eq!(ids.len(), 2);
    assert_eq!(ids[0].as_str(), "b");
    assert_eq!(ids[1].as_str(), "c");
    assert!(graph.successor_ids("b").is_empty());
    let succs = graph.successors("a");
    assert_eq!(succs.len(), 2);
    assert_eq!(succs[0].name.as_str(), "b");
}

#[test]
fn finds_no_cycle_in_an_acyclic_graph() {
    let graph = sample_graph();
    assert!(graph.find_cycle().is_none());
    assert!(graph.find_cycle_from_node("a").is_none());
}

#[test]
fn finds_a_two_node_cycle() {
    let mut builder = DependentGraphBuilder::new();
    builder.node(node("A"));
    builder.node(node("B"));
    builder.edge("A".to_string(), "B".to_string());
    builder.edge("B".to_string(), "A".to_string());
    let graph = builder.build();
    let cycle = graph.find_cycle().expect("a cycle must be found");
    let keys: Vec<&str> = cycle.nodes.iter().map(|s| s.as_str()).collect();
    assert_eq!(keys, vec!["A", "B", "A"]);
    assert_eq!(
        cycle.render().as_str(),
        "Dependency cycle: [\"A\", \"B\", \"A\"]"
    );
}

fn topo_keys(graph: &DependencyGraph<DependentField>) -> Vec<String> {
    match graph.topological_sort() {
        MorphResult::Success(order) => order.iter().map(|n| n.name.clone()).collect(),
        MorphResult::Errors(_) => panic!("sort failed"),
    }
}

#[test]
fn sorts_ready_nodes_lexicographically() {
    let mut builder = DependentGraphBuilder::new();
    builder.node(node("c"));
    builder.node(node("a"));
    builder.node(node("b"));
    let graph = builder.build();
    assert_eq!(topo_keys(&graph), vec!["a", "b", "c"]);
}

#[test]
fn sorts_dependers_before_their_dependencies() {
    let graph = sample_graph();
    // a depends on b and c, so a is emitted first, then b and c by key
    assert_eq!(topo_keys(&graph), vec!["a", "b", "c"]);

    let mut builder = DependentGraphBuilder::new();
    builder.node(node("a"));
    builder.node(node("b"));
    builder.node(node("c"));
    builder.edge("a".to_string(), "b".to_string());
    let graph2 = builder.build();
    assert_eq!(topo_keys(&graph2), vec!["a", "b", "c"]);
}

#[test]
fn repeated_sorts_are_identical() {
    let graph = sample_graph();
    assert_eq!(topo_keys(&graph), topo_keys(&graph));
}

#[test]
fn sorting_a_cyclic_graph_reports_the_stuck_nodes() {
    let mut builder = DependentGraphBuilder::new();
    builder.node(node("A"));
    builder.node(node("B"));
    builder.edge("A".to_string(), "B".to_string());
    builder.edge("B".to_string(), "A".to_string());
    let graph = builder.build();
    match graph.topological_sort() {
        MorphResult::Success(_) => panic!("expected errors"),
        MorphResult::Errors(errors) => {
            assert_eq!(errors.len(), 2);
            let msgs: Vec<String> = errors.iter().map(|e| e.message()).collect();
            assert!(msgs[0].contains("node 'A' does not have all necessary dependencies"));
            assert!(msgs[1].contains("node 'B' does not have all necessary dependencies"));
        }
    }
}

#[test]
fn duplicate_edges_are_harmless() {
    let mut builder = DependentGraphBuilder::new();
    builder.node(node("a"));
    builder.node(node("b"));
    builder.edge("a".to_string(), "b".to_string());
    builder.edge("a".to_string(), "b".to_string());
    let graph = builder.build();
    assert!(graph.find_cycle().is_none());
    assert_eq!(topo_keys(&graph), vec!["a", "b"]);
}

#[test]
fn traversal_emits_enter_and_exit_events() {
    let graph = sample_graph();
    let events = graph.dfs("a");
    // successors are taken from the back of the pending list, so c before b
    let rendered: Vec<(String, usize, bool)> = events
        .iter()
        .map(|e| (e.id.clone(), e.depth, e.enter))
        .collect();
    assert_eq!(
        rendered,
        vec![
            ("a".to_string(), 0, true),
            ("c".to_string(), 1, true),
            ("c".to_string(), 2, false),
            ("b".to_string(), 1, true),
            ("b".to_string(), 2, false),
            ("a".to_string(), 1, false),
        ]
    );
    assert!(graph.dfs("missing").is_empty());
}

#[test]
fn traversal_enters_a_shared_node_once_per_path() {
    // d is reachable along two distinct paths and is entered once for each
    let mut builder = DependentGraphBuilder::new();
    builder.node(node("a"));
    builder.node(node("b"));
    builder.node(node("c"));
    builder.node(node("d"));
    builder.edge("a".to_string(), "b".to_string());
    builder.edge("a".to_string(), "c".to_string());
    builder.edge("b".to_string(), "d".to_string());
    builder.edge("c".to_string(), "d".to_string());
    let graph = builder.build();
    let events = graph.dfs("a");
    let rendered: Vec<(String, usize, bool)> = events
        .iter()
        .map(|e| (e.id.clone(), e.depth, e.enter))
        .collect();
    assert_eq!(
        rendered,
        vec![
            ("a".to_string(), 0, true),
            ("c".to_string(), 1, true),
            ("d".to_string(), 2, true),
            ("d".to_string(), 3, false),
            ("c".to_string(), 2, false),
            ("b".to_string(), 1, true),
            ("d".to_string(), 2, true),
            ("d".to_string(), 3, false),
            ("b".to_string(), 2, false),
            ("a".to_string(), 1, false),
        ]
    );
    let enters_of_d = rendered
        .iter()
        .filter(|(id, _, enter)| id == "d" && *enter)
        .count();
    assert_eq!(enters_of_d, 2);
}

#[test]
fn traversal_skips_a_node_on_the_active_path() {
    // on a cycle the traversal does not re-enter a node it is inside of,
    // so it terminates and pairs every enter with one exit
    let mut builder = DependentGraphBuilder::new();
    builder.node(node("A"));
    builder.node(node("B"));
    builder.edge("A".to_string(), "B".to_string());
    builder.edge("B".to_string(), "A".to_string());
    let graph = builder.build();
    let events = graph.dfs("A");
    let rendered: Vec<(String, usize, bool)> = events
        .iter()
        .map(|e| (e.id.clone(), e.depth, e.enter))
        .collect();
    assert_eq!(
        rendered,
        vec![
            ("A".to_string(), 0, true),
            ("B".to_string(), 1, true),
            ("B".to_string(), 2, false),
            ("A".to_string(), 1, false),
        ]
    );
}
