use mir_public::classify::{
    classify_ops, detection_text, has_any, infer_op_candidates, looks_memory_sensitive, one_operand,
    resolve_candidates, OpCandidate,
};
use mir_public::ir::GraphNode;

fn strings(xs: &[&str]) -> Vec<String> {
    xs.iter().map(|x| x.to_string()).collect()
}

fn node(id: u32, snippet: &str, items: &[&str], defs: &[&str], uses: &[&str]) -> GraphNode {
    GraphNode {
        id,
        step_id: id,
        span: format!("src/main.rs:{id}"),
        snippet: snippet.to_string(),
        function: "main".to_string(),
        depth: 0,
        mir_items: strings(items),
        defs: strings(defs),
        uses: strings(uses),
    }
}

fn cand(op: &str) -> OpCandidate {
    OpCandidate {
        category: "X".to_string(),
        operation: op.to_string(),
        operands: vec![],
        required_operands: 0,
        evidence: String::new(),
    }
}

#[test]
fn detection_text_strips_comments_and_joins() {
    let items = strings(&["  _1 = f(_2) // scope 1 ", "drop(_3)", "  // only a comment"]);
    assert_eq!(detection_text(&items), "_1 = f(_2) | drop(_3) | ");
    assert_eq!(detection_text(&[]), "");
}

#[test]
fn has_any_finds_one_of_the_keys() {
    assert!(has_any("call alloc::alloc::alloc(x)", &["exchange_malloc", "alloc::alloc::alloc"]));
    assert!(!has_any("nothing here", &["a_", "b_"]));
    assert!(!has_any("anything", &[]));
}

#[test]
fn allocation_is_recognised() {
    let n = node(1, "let v = Vec::new();", &["_1 = Vec::<u8>::new() -> [return: bb1, unwind continue]"], &["_1"], &[]);
    let cands = infer_op_candidates(&n);
    assert_eq!(cands.len(), 1);
    assert_eq!(cands[0].operation, "Allocate");
    assert_eq!(cands[0].category, "Mem");
    assert_eq!(cands[0].operands, strings(&["_1", "UnknownType"]));
    assert_eq!(cands[0].required_operands, 1);
    assert_eq!(cands[0].evidence, "_1 = Vec::<u8>::new() -> [return: bb1, unwind continue]");
}

#[test]
fn allocate_operand_falls_back_to_use_then_placeholder() {
    let n = node(1, "", &["Box::<u8>::new(move _4)"], &[], &["_4"]);
    assert_eq!(infer_op_candidates(&n)[0].operands, strings(&["_4", "UnknownType"]));
    let n = node(1, "", &["Box::<u8>::new(x)"], &[], &[]);
    assert_eq!(infer_op_candidates(&n)[0].operands, strings(&["_v", "UnknownType"]));
}

#[test]
fn rules_fire_in_rule_order() {
    let n = node(
        3,
        "let v = unsafe { Vec::from_raw_parts(p, n, n) };",
        &["_5 = Vec::<u8>::from_raw_parts(copy _2, copy _3, copy _3) -> [return: bb2, unwind continue]"],
        &["_5"],
        &["_2", "_3"],
    );
    let ops: Vec<String> = infer_op_candidates(&n).into_iter().map(|c| c.operation).collect();
    assert_eq!(ops, strings(&["FromRaw"]));
    let n = node(4, "", &["_1 = Vec::<u8>::new()", "_2 = ptr::copy_nonoverlapping(_3, _4, _5)"], &["_1", "_2"], &["_3", "_4"]);
    let ops: Vec<String> = infer_op_candidates(&n).into_iter().map(|c| c.operation).collect();
    assert_eq!(ops, strings(&["Allocate", "MemCopy"]));
}

#[test]
fn mem_copy_takes_two_uses() {
    let n = node(1, "", &["copy_nonoverlapping::<u8>(copy _7, copy _8, const 4_usize)"], &[], &["_7", "_8"]);
    let c = &infer_op_candidates(&n)[0];
    assert_eq!(c.operation, "MemCopy");
    assert_eq!(c.operands, strings(&["_7", "_8", "_n"]));
}

#[test]
fn bounds_check_on_assert() {
    let n = node(1, "v[i]", &["Assert(move _4, \"index out of bounds\") -> [success: bb2, unwind continue]"], &[], &["_4"]);
    let c = infer_op_candidates(&n);
    assert_eq!(c.len(), 1);
    assert_eq!(c[0].operation, "BoundsCheck");
    assert_eq!(c[0].operands, strings(&["_4", "_idx"]));
}

#[test]
fn deref_on_unsafe_star() {
    let n = node(1, "let x = unsafe { *p };", &["_2 = copy _1"], &["_2"], &["_1"]);
    let c = infer_op_candidates(&n);
    assert_eq!(c.len(), 1);
    assert_eq!(c[0].operation, "Deref");
    assert_eq!(c[0].operands, strings(&["_1"]));
}

#[test]
fn one_operand_prefers_uses() {
    assert_eq!(one_operand(&node(1, "", &[], &["_1"], &["_2"])), strings(&["_2"]));
    assert_eq!(one_operand(&node(1, "", &[], &["_1"], &[])), strings(&["_1"]));
    assert_eq!(one_operand(&node(1, "", &[], &[], &[])), Vec::<String>::new());
}

#[test]
fn resolution_follows_priority() {
    let r = resolve_candidates(vec![cand("Allocate"), cand("Drop"), cand("IntoRaw")]);
    assert_eq!(r.len(), 1);
    assert_eq!(r[0].operation, "IntoRaw");
    let r = resolve_candidates(vec![cand("Drop"), cand("Deallocate")]);
    assert_eq!(r[0].operation, "Deallocate");
    let r = resolve_candidates(vec![cand("Unknown"), cand("Other")]);
    assert_eq!(r.len(), 2);
    let r = resolve_candidates(vec![cand("Unknown")]);
    assert_eq!(r[0].operation, "Unknown");
    assert!(resolve_candidates(vec![]).is_empty());
}

#[test]
fn memory_sensitivity() {
    assert!(looks_memory_sensitive(&node(1, "unsafe { f() }", &["_1 = f()"], &[], &[])));
    assert!(looks_memory_sensitive(&node(1, "", &["_1 = ptr::read(_2)"], &[], &[])));
    assert!(!looks_memory_sensitive(&node(1, "", &["_1 = g(_2) // ptr::read"], &[], &[])));
    assert!(!looks_memory_sensitive(&node(1, "let x = 1;", &["_1 = const 1_i32"], &[], &[])));
}

#[test]
fn classification_produces_ops_and_holes() {
    let nodes = vec![
        node(1, "let v = Vec::new();", &["_1 = Vec::<u8>::new()"], &["_1"], &[]),
        node(2, "let x = 1;", &["_2 = const 1_i32"], &["_2"], &[]),
        node(3, "unsafe { f() }", &["_3 = f()"], &["_3"], &[]),
        node(4, "drop(b);", &["drop(b)"], &[], &[]),
        node(5, "let y = unsafe { *p };", &["_6 = copy (*_5)"], &["_6"], &["_5"]),
    ];
    let (ops, holes) = classify_ops(&nodes);
    assert_eq!(ops.len(), 2);
    assert_eq!(ops[0].id, "op_1");
    assert_eq!(ops[0].operation, "Allocate");
    assert_eq!(ops[0].context, "Normal");
    assert_eq!(ops[0].span, "src/main.rs:1");
    assert_eq!(ops[1].id, "op_2");
    assert_eq!(ops[1].operation, "Deref");
    assert_eq!(ops[1].context, "Unsafe");
    assert_eq!(ops[1].step_id, 5);
    assert_eq!(holes.len(), 2);
    assert_eq!(holes[0].id, "hole_op_1");
    assert_eq!(holes[0].kind, "OpHole");
    assert_eq!(holes[0].reason, "memory_sensitive_but_no_high_confidence_rule");
    assert_eq!(holes[0].evidence, "_3 = f()");
    assert_eq!(holes[0].step_id, 3);
    assert_eq!(holes[1].id, "hole_op_2");
    assert_eq!(holes[1].reason, "insufficient_operands");
    assert_eq!(holes[1].evidence, "drop(b)");
}

#[test]
fn hole_evidence_falls_back_to_snippet() {
    let (ops, holes) = classify_ops(&[node(1, "unsafe { g() }", &[], &[], &[])]);
    assert!(ops.is_empty());
    assert_eq!(holes[0].evidence, "unsafe { g() }");
}
