use mir_public::builder::{build_edges, build_graph_ir, build_nodes, millis_text, now_unix_millis_string, push_edge};
use mir_public::collect::MirLineRecord;
use mir_public::ir::{GraphEdge, GraphNode};

fn strings(xs: &[&str]) -> Vec<String> {
    xs.iter().map(|x| x.to_string()).collect()
}

fn rec(function: &str, file: &str, line: u32, snippet: &str, item: &str, defs: &[&str], uses: &[&str]) -> MirLineRecord {
    MirLineRecord {
        function: function.to_string(),
        file: file.to_string(),
        line,
        snippet: snippet.to_string(),
        mir_items: strings(&[item]),
        defs: strings(defs),
        uses: strings(uses),
        succ_blocks: vec![],
    }
}

fn node(id: u32, defs: &[&str], uses: &[&str]) -> GraphNode {
    GraphNode {
        id,
        step_id: id,
        span: String::new(),
        snippet: String::new(),
        function: "f".to_string(),
        depth: 0,
        mir_items: vec![],
        defs: strings(defs),
        uses: strings(uses),
    }
}

#[test]
fn nodes_group_by_function_file_line_in_key_order() {
    let records = vec![
        rec("main", "src/main.rs", 10, "", "_2 = f(_1)", &["_2"], &["_1"]),
        rec("main", "src/main.rs", 3, "let a = 1;", "_1 = const 1", &["_1"], &[]),
        rec("main", "src/main.rs", 10, "  g(a)", "_3 = g(_2)", &["_3"], &["_2"]),
        rec("helper", "src/main.rs", 20, "x", "_1 = x", &["_1"], &[]),
        rec("main", "src/main.rs", 10, "other", "_4 = h(_1)", &["_4"], &["_1"]),
    ];
    let nodes = build_nodes(records);
    assert_eq!(nodes.len(), 3);
    assert_eq!(nodes[0].function, "helper");
    assert_eq!(nodes[0].span, "src/main.rs:20");
    assert_eq!(nodes[1].span, "src/main.rs:3");
    assert_eq!(nodes[2].span, "src/main.rs:10");
    for (i, n) in nodes.iter().enumerate() {
        assert_eq!(n.id as usize, i + 1);
        assert_eq!(n.step_id, n.id);
        assert_eq!(n.depth, 0);
    }
    assert_eq!(nodes[2].snippet, "  g(a)");
    assert_eq!(nodes[2].mir_items, strings(&["_2 = f(_1)", "_3 = g(_2)", "_4 = h(_1)"]));
    assert_eq!(nodes[2].defs, strings(&["_2", "_3", "_4"]));
    assert_eq!(nodes[2].uses, strings(&["_1", "_2"]));
}

#[test]
fn no_records_no_nodes() {
    assert!(build_nodes(vec![]).is_empty());
}

#[test]
fn data_and_order_edges() {
    let nodes = vec![node(1, &["_1"], &[]), node(2, &["_2"], &["_1"]), node(3, &["_1"], &["_1", "_2"]), node(4, &[], &["_1"])];
    let edges = build_edges(&nodes);
    let got: Vec<(u32, u32, String, String)> =
        edges.iter().map(|e| (e.from, e.to, e.edge_type.clone(), e.evidence.clone())).collect();
    let expected = vec![
        (1, 2, "DataDep".to_string(), "def(_1)@1 -> use(_1)@2".to_string()),
        (1, 3, "DataDep".to_string(), "def(_1)@1 -> use(_1)@3".to_string()),
        (2, 3, "DataDep".to_string(), "def(_2)@2 -> use(_2)@3".to_string()),
        (3, 4, "DataDep".to_string(), "def(_1)@3 -> use(_1)@4".to_string()),
        (1, 2, "TemporalDep".to_string(), "node-order: 1 -> 2".to_string()),
        (2, 3, "TemporalDep".to_string(), "node-order: 2 -> 3".to_string()),
        (3, 4, "TemporalDep".to_string(), "node-order: 3 -> 4".to_string()),
    ];
    assert_eq!(got, expected);
}

#[test]
fn repeated_edges_are_kept_once() {
    let nodes = vec![node(1, &["_1"], &[]), node(2, &[], &["_1", "_1"])];
    let edges = build_edges(&nodes);
    assert_eq!(edges.len(), 2);
    assert_eq!(edges[0].edge_type, "DataDep");
    assert_eq!(edges[1].edge_type, "TemporalDep");
}

#[test]
fn self_dependence_is_skipped() {
    let nodes = vec![node(7, &["_1"], &[]), node(7, &[], &["_1"])];
    let edges = build_edges(&nodes);
    assert_eq!(edges.len(), 1);
    assert_eq!(edges[0].edge_type, "TemporalDep");
}

#[test]
fn push_edge_dedups_by_key() {
    let mut edges = vec![];
    let mut seen = vec![];
    let e = GraphEdge { from: 1, to: 2, edge_type: "T".to_string(), evidence: "e".to_string() };
    push_edge(&mut edges, &mut seen, e.clone());
    push_edge(&mut edges, &mut seen, e.clone());
    assert_eq!(edges.len(), 1);
    let other = GraphEdge { from: 1, to: 2, edge_type: "T".to_string(), evidence: "f".to_string() };
    push_edge(&mut edges, &mut seen, other);
    assert_eq!(edges.len(), 2);
}

#[test]
fn millis_text_writes_the_reading_or_zero() {
    assert_eq!(millis_text(Some(1_700_000_000_123)), "1700000000123");
    assert_eq!(millis_text(Some(0)), "0");
    assert_eq!(millis_text(Some(u128::MAX)), u128::MAX.to_string());
    assert_eq!(millis_text(None), "0");
}

#[test]
fn clock_stamp_is_a_plausible_millisecond_count() {
    let s = now_unix_millis_string();
    assert!(!s.is_empty() && s.chars().all(|c| c.is_ascii_digit()));
    let v: u128 = s.parse().unwrap();
    assert!(v > 1_600_000_000_000);
}

#[test]
fn whole_graph() {
    let records = vec![
        rec("main", "src/main.rs", 2, "let v = Vec::new();", "_1 = Vec::<u8>::new()", &["_1"], &[]),
        rec("main", "src/main.rs", 3, "drop(v);", "_2 = drop::<Vec<u8>>(move _1)", &["_2"], &["_1"]),
    ];
    let g = build_graph_ir(records, "src/main.rs".to_string(), "crate_entry".to_string(), 0, "rustc 1.80".to_string());
    assert_eq!(g.schema_version, "graphir.v0.1");
    assert_eq!(g.target.entry_file, "src/main.rs");
    assert_eq!(g.target.entry_function, "crate_entry");
    assert_eq!(g.target.depth_k, 0);
    assert_eq!(g.trace.rustc_version, "rustc 1.80");
    assert_eq!(g.trace.generator, "mir_public::graph_builder");
    assert_eq!(g.nodes.len(), 2);
    assert_eq!(g.edges.len(), 2);
    assert_eq!(g.ops.len(), 2);
    assert_eq!(g.ops[0].operation, "Allocate");
    assert_eq!(g.ops[1].operation, "Drop");
    assert_eq!(g.ops[1].operands, strings(&["_1"]));
    assert!(g.holes.is_empty());
}
