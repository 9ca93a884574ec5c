use mir_public::builder::{build_graph_ir, build_nodes};
use mir_public::classify::{classify_ops, numbered};
use mir_public::collect::{build_line_record, split_defs_uses, MirLineRecord};
use mir_public::ir::GraphNode;
use mir_public::settings::parse_u32;

fn strings(xs: &[&str]) -> Vec<String> {
    xs.iter().map(|x| x.to_string()).collect()
}

fn rec(function: &str, line: u32, item: &str, defs: &[&str], uses: &[&str]) -> MirLineRecord {
    MirLineRecord {
        function: function.to_string(),
        file: "src/lib.rs".to_string(),
        line,
        snippet: format!("line {line}"),
        mir_items: strings(&[item]),
        defs: strings(defs),
        uses: strings(uses),
        succ_blocks: vec![],
    }
}

fn node(items: &[&str], snippet: &str, defs: &[&str], uses: &[&str]) -> GraphNode {
    GraphNode {
        id: 1,
        step_id: 1,
        span: "a.rs:1".to_string(),
        snippet: snippet.to_string(),
        function: "f".to_string(),
        depth: 0,
        mir_items: strings(items),
        defs: strings(defs),
        uses: strings(uses),
    }
}

fn same_nodes(a: &[GraphNode], b: &[GraphNode]) -> bool {
    a.len() == b.len()
        && a.iter().zip(b).all(|(x, y)| {
            x.id == y.id
                && x.step_id == y.step_id
                && x.span == y.span
                && x.snippet == y.snippet
                && x.function == y.function
                && x.mir_items == y.mir_items
                && x.defs == y.defs
                && x.uses == y.uses
        })
}

#[test]
fn from_raw_wins_over_every_other_rule() {
    let n = node(
        &["_1 = Box::<T>::from_raw(move _2)", "drop(_3)", "_4 = Vec::<u8>::new()", "Assert(_5)"],
        "unsafe { *p }",
        &["_1"],
        &["_2"],
    );
    let (ops, holes) = classify_ops(&[n]);
    assert!(holes.is_empty());
    assert_eq!(ops.len(), 1);
    assert_eq!(ops[0].operation, "FromRaw");
}

#[test]
fn many_rules_give_no_ambiguous_hole() {
    let n = node(&["_1 = alloc::alloc::alloc(_2)", "dealloc(_1)", "set_len(_1)"], "", &["_1"], &["_2"]);
    let (ops, holes) = classify_ops(&[n]);
    assert!(holes.iter().all(|h| h.reason != "ambiguous_rule_match"));
    assert_eq!(ops.len(), 1);
    assert_eq!(ops[0].operation, "SetLen");
}

#[test]
fn at_most_one_result_per_node() {
    let nodes: Vec<GraphNode> = (0..6)
        .map(|i| match i % 3 {
            0 => node(&["_1 = Vec::<u8>::new()", "drop(_1)"], "", &["_1"], &[]),
            1 => node(&["nop"], "unsafe {}", &[], &[]),
            _ => node(&["nop"], "", &[], &[]),
        })
        .collect();
    let (ops, holes) = classify_ops(&nodes);
    assert!(ops.len() + holes.len() <= nodes.len());
    for (i, op) in ops.iter().enumerate() {
        assert_eq!(op.id, format!("op_{}", i + 1));
    }
    for (i, h) in holes.iter().enumerate() {
        assert_eq!(h.id, format!("hole_op_{}", i + 1));
    }
}

#[test]
fn edges_point_forward_and_are_distinct() {
    let records = vec![
        rec("f", 1, "_1 = const 1", &["_1"], &[]),
        rec("f", 2, "_2 = g(_1)", &["_2"], &["_1"]),
        rec("f", 2, "_3 = g(_1)", &["_3"], &["_1"]),
        rec("f", 3, "_1 = h(_2, _3)", &["_1"], &["_2", "_3"]),
        rec("f", 4, "_5 = k(_1)", &["_5"], &["_1"]),
    ];
    let g = build_graph_ir(records, "src/lib.rs".to_string(), "crate_entry".to_string(), 0, "r".to_string());
    assert!(g.edges.iter().all(|e| e.from < e.to));
    for (i, a) in g.edges.iter().enumerate() {
        for b in &g.edges[i + 1..] {
            assert!(!(a.from == b.from && a.to == b.to && a.edge_type == b.edge_type && a.evidence == b.evidence));
        }
    }
    assert!(g.edges.iter().any(|e| e.edge_type == "DataDep" && e.from == 3 && e.to == 4));
}

#[test]
fn nodes_do_not_depend_on_record_order_across_keys() {
    let a = vec![rec("f", 2, "x", &[], &[]), rec("f", 1, "y", &["_1"], &[]), rec("g", 1, "z", &[], &["_1"])];
    let b = vec![rec("g", 1, "z", &[], &["_1"]), rec("f", 1, "y", &["_1"], &[]), rec("f", 2, "x", &[], &[])];
    assert!(same_nodes(&build_nodes(a), &build_nodes(b)));
}

#[test]
fn defined_and_used_places_are_locals() {
    let local = regex::Regex::new(r"^_\d+$").unwrap();
    for text in ["_12 = Add(copy _3, const 4_usize)", "(_1.0: u8) = _02", "call(_a, __9, x_1)", "_٣ = g(_², _١)"] {
        let (defs, uses) = split_defs_uses(text);
        for p in defs.iter().chain(uses.iter()) {
            assert!(local.is_match(p), "{p}");
        }
    }
}

#[test]
fn records_are_determined_by_their_parts() {
    let make = || {
        build_line_record("f", "a.rs".to_string(), 1, Some("x\n".to_string()), "", "_1 = _2".to_string(), &strings(&["bb1"]))
            .unwrap()
    };
    let (a, b) = (make(), make());
    assert_eq!((a.defs, a.uses, a.succ_blocks, a.snippet), (b.defs, b.uses, b.succ_blocks, b.snippet));
}

#[test]
fn decimal_numbers_parse_back() {
    for n in [0u32, 1, 9, 10, 99, 12345, u32::MAX] {
        assert_eq!(parse_u32(&numbered("", n as u128)), Some(n));
    }
}

#[test]
fn every_record_lands_in_its_node() {
    let records = vec![
        rec("f", 3, "_2 = a(_1)", &["_2"], &["_1"]),
        rec("g", 1, "_1 = b()", &["_1"], &[]),
        rec("f", 3, "_3 = c(_2)", &["_3"], &["_2"]),
    ];
    let nodes = build_nodes(records.clone());
    for r in &records {
        let span = format!("{}:{}", r.file, r.line);
        let n = nodes.iter().find(|n| n.function == r.function && n.span == span).unwrap();
        assert!(r.defs.iter().all(|d| n.defs.contains(d)));
        assert!(r.uses.iter().all(|u| n.uses.contains(u)));
        assert!(r.mir_items.iter().all(|m| n.mir_items.contains(m)));
    }
}

#[test]
fn every_dependence_is_an_edge() {
    let records = vec![
        rec("f", 1, "_1 = const 1", &["_1"], &[]),
        rec("f", 2, "_2 = g(_1)", &["_2"], &["_1"]),
        rec("f", 3, "_3 = g(_1, _2)", &["_3"], &["_1", "_2"]),
    ];
    let g = build_graph_ir(records, "src/lib.rs".to_string(), "crate_entry".to_string(), 0, "r".to_string());
    let has = |from: u32, to: u32, kind: &str| g.edges.iter().any(|e| e.from == from && e.to == to && e.edge_type == kind);
    assert!(has(1, 2, "DataDep"));
    assert!(has(1, 3, "DataDep"));
    assert!(has(2, 3, "DataDep"));
    assert!(has(1, 2, "TemporalDep"));
    assert!(has(2, 3, "TemporalDep"));
    assert_eq!(g.edges.len(), 5);
}

#[test]
fn classifying_in_two_parts_numbers_on() {
    let first = vec![
        node(&["_1 = Vec::<u8>::new()"], "", &["_1"], &[]),
        node(&["nop"], "unsafe {}", &[], &[]),
    ];
    let second = vec![
        node(&["drop(_1)"], "", &[], &["_1"]),
        node(&["nop"], "unsafe { x }", &[], &[]),
        node(&["_2 = std::ptr::read(_1)"], "", &["_2"], &["_1"]),
    ];
    let (oa, ha) = classify_ops(&first);
    let (ob, hb) = classify_ops(&second);
    let all: Vec<GraphNode> = first.iter().chain(second.iter()).cloned().collect();
    let (o, h) = classify_ops(&all);
    assert_eq!(o.len(), oa.len() + ob.len());
    assert_eq!(h.len(), ha.len() + hb.len());
    for (x, y) in o.iter().zip(oa.iter()) {
        assert_eq!((&x.id, &x.operation, &x.operands), (&y.id, &y.operation, &y.operands));
    }
    for (j, y) in ob.iter().enumerate() {
        let x = &o[oa.len() + j];
        assert_eq!(x.id, format!("op_{}", oa.len() + j + 1));
        assert_eq!((&x.operation, &x.operands, &x.evidence), (&y.operation, &y.operands, &y.evidence));
    }
    for (j, y) in hb.iter().enumerate() {
        let x = &h[ha.len() + j];
        assert_eq!(x.id, format!("hole_op_{}", ha.len() + j + 1));
        assert_eq!((&x.reason, &x.evidence), (&y.reason, &y.evidence));
    }
}

#[test]
fn reordering_records_keeps_the_nodes() {
    let a = vec![
        rec("f", 2, "_2 = a(_1)", &["_2"], &["_1"]),
        rec("f", 1, "_1 = b()", &["_1"], &[]),
        rec("f", 2, "_3 = c(_2)", &["_3"], &["_2"]),
    ];
    let b = vec![a[2].clone(), a[1].clone(), a[0].clone()];
    let (na, nb) = (build_nodes(a), build_nodes(b));
    assert_eq!(na.len(), nb.len());
    for (x, y) in na.iter().zip(nb.iter()) {
        assert_eq!((x.id, x.step_id, &x.span, &x.function, x.depth), (y.id, y.step_id, &y.span, &y.function, y.depth));
        assert_eq!((&x.defs, &x.uses), (&y.defs, &y.uses));
        let (mut mx, mut my) = (x.mir_items.clone(), y.mir_items.clone());
        mx.sort();
        my.sort();
        assert_eq!(mx, my);
    }
    assert_eq!(na[1].mir_items, strings(&["_2 = a(_1)", "_3 = c(_2)"]));
    assert_eq!(nb[1].mir_items, strings(&["_3 = c(_2)", "_2 = a(_1)"]));
}
