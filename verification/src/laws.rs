//! Properties of the library as a whole, proved from the specifications
//! that the functions' contracts use.
use vstd::prelude::*;
use crate::builder::{
    LineKey, data_candidates, data_edge, dedup_edges, defs_of, edge_key, edges_spec, group,
    items_of, key_order, keys_of, keys_set, last_def, lemma_key_order_strict, node_matches,
    nodes_built_from, rec_key, span_of, temporal_candidates, temporal_edge, use_edges, uses_of,
};
use crate::classify::{
    CandidateView, allocate_rule, bounds_check_rule, classify_spec, classify_step,
    deallocate_rule, deref_rule, detection_spec, drop_rule, first_with_op, from_raw_rule, has_op,
    infer_spec, into_raw_rule, mem_copy_rule, offset_rule, priority, proposed_if, resolve_from,
    resolve_spec, set_len_rule,
};
use crate::collect::{
    RecordView, block_names, defs_spec, digit_run, is_decimal_digit, places, record_matches, succ_names, token_len,
    tokens_from, uses_spec,
};
use crate::ir::{EdgeView, HoleView, NodeView, OpView};
use crate::settings::{all_digits, digits_value, parse_u32_spec};
use crate::order::{lemma_sorted_set_unique, lemma_sorted_unique, sorted_by};
use crate::text::{after_first, before_first, decimal, digit_char, has_substring, is_ascii_digit};

verus! {

// ---------------------------------------------------------------------------
// Operations and holes
// ---------------------------------------------------------------------------

/// Every candidate's operation has a rank in the priority list.
pub open spec fn ranked(cs: Seq<CandidateView>) -> bool {
    forall|j: int| 0 <= j < cs.len() ==> priority().contains(#[trigger] cs[j].operation)
}

proof fn lemma_ranked_when(b: bool, c: CandidateView, k: int)
    requires
        0 <= k < 10,
        c.operation == priority()[k],
    ensures
        ranked(proposed_if(b, c)),
{
    if b {
        assert(proposed_if(b, c)[0] == c);
        assert(priority().contains(c.operation));
    }
}

proof fn lemma_ranked_concat(a: Seq<CandidateView>, b: Seq<CandidateView>)
    requires
        ranked(a),
        ranked(b),
    ensures
        ranked(a + b),
{
    assert forall|j: int| 0 <= j < (a + b).len() implies priority().contains(
        #[trigger] (a + b)[j].operation,
    ) by {
        if j < a.len() {
            assert((a + b)[j] == a[j]);
        } else {
            assert((a + b)[j] == b[j - a.len()]);
        }
    }
}

/// Every operation that the rules propose has a rank.
pub proof fn lemma_infer_ranked(n: NodeView)
    ensures
        ranked(infer_spec(n)),
{
    let t = detection_spec(n.mir_items);
    let pieces = seq![
        allocate_rule(n, t),
        deallocate_rule(n, t),
        drop_rule(n, t),
        into_raw_rule(n, t),
        from_raw_rule(n, t),
        offset_rule(n, t),
        mem_copy_rule(n, t),
        set_len_rule(n, t),
        bounds_check_rule(n, t),
        deref_rule(n, t),
    ];
    lemma_ranked_when(false, crate::classify::cand(n, seq![], "Allocate"@, seq![], 0), 8);
    assert(ranked(allocate_rule(n, t))) by {
        lemma_ranked_when(
            crate::classify::has_any_spec(t, crate::classify::allocate_keys()),
            crate::classify::cand(
                n,
                "Mem"@,
                "Allocate"@,
                seq![
                    crate::classify::first_or(n.defs, crate::classify::first_or(n.uses, "_v"@)),
                    "UnknownType"@,
                ],
                1,
            ),
            8,
        );
    }
    assert(ranked(deallocate_rule(n, t))) by {
        lemma_ranked_when(
            crate::classify::has_any_spec(t, crate::classify::deallocate_keys()),
            crate::classify::cand(n, "Mem"@, "Deallocate"@, crate::classify::one_operand_spec(n), 1),
            7,
        );
    }
    assert(ranked(drop_rule(n, t))) by {
        lemma_ranked_when(
            crate::text::has_substring(t, "drop("@) || crate::text::has_substring(n.snippet, "drop("@),
            crate::classify::cand(n, "Own"@, "Drop"@, crate::classify::one_operand_spec(n), 1),
            9,
        );
    }
    assert(ranked(into_raw_rule(n, t))) by {
        lemma_ranked_when(
            crate::text::has_substring(t, "into_raw"@),
            crate::classify::cand(
                n,
                "Own"@,
                "IntoRaw"@,
                seq![crate::classify::first_or(n.uses, "_v"@), crate::classify::first_or(n.defs, "_p"@)],
                2,
            ),
            1,
        );
    }
    assert(ranked(from_raw_rule(n, t))) by {
        lemma_ranked_when(
            crate::classify::has_any_spec(t, crate::classify::from_raw_keys()),
            crate::classify::cand(
                n,
                "Own"@,
                "FromRaw"@,
                seq![crate::classify::first_or(n.uses, "_p"@), crate::classify::first_or(n.defs, "_v"@)],
                2,
            ),
            0,
        );
    }
    assert(ranked(offset_rule(n, t))) by {
        lemma_ranked_when(
            crate::classify::has_any_spec(t, crate::classify::offset_keys()),
            crate::classify::cand(
                n,
                "Ptr"@,
                "Offset"@,
                seq![
                    crate::classify::first_or(n.uses, "_p"@),
                    "_n"@,
                    crate::classify::first_or(n.defs, "_q"@),
                ],
                2,
            ),
            5,
        );
    }
    assert(ranked(mem_copy_rule(n, t))) by {
        lemma_ranked_when(
            crate::classify::has_any_spec(t, crate::classify::mem_copy_keys()),
            crate::classify::cand(
                n,
                "Mem"@,
                "MemCopy"@,
                seq![
                    crate::classify::first_or(n.uses, "_dst"@),
                    crate::classify::second_or(n.uses, "_src"@),
                    "_n"@,
                ],
                2,
            ),
            2,
        );
    }
    assert(ranked(set_len_rule(n, t))) by {
        lemma_ranked_when(
            crate::text::has_substring(t, "set_len"@),
            crate::classify::cand(
                n,
                "Mem"@,
                "SetLen"@,
                seq![crate::classify::first_or(n.uses, "_v"@), "_n"@],
                1,
            ),
            3,
        );
    }
    assert(ranked(bounds_check_rule(n, t))) by {
        lemma_ranked_when(
            crate::text::has_substring(t, "BoundsCheck"@) || crate::text::starts_with(t, "Assert"@),
            crate::classify::cand(
                n,
                "Check"@,
                "BoundsCheck"@,
                seq![crate::classify::first_or(n.uses, "_v"@), "_idx"@],
                1,
            ),
            4,
        );
    }
    assert(ranked(deref_rule(n, t))) by {
        lemma_ranked_when(
            crate::text::has_substring(t, "ptr::read"@) || crate::text::has_substring(t, "(*_"@) || (
            crate::text::has_substring(n.snippet, "*"@) && crate::text::has_substring(
                n.snippet,
                "unsafe"@,
            )),
            crate::classify::cand(n, "Ptr"@, "Deref"@, crate::classify::one_operand_spec(n), 1),
            6,
        );
    }
    let a1 = allocate_rule(n, t) + deallocate_rule(n, t);
    lemma_ranked_concat(allocate_rule(n, t), deallocate_rule(n, t));
    let a2 = a1 + drop_rule(n, t);
    lemma_ranked_concat(a1, drop_rule(n, t));
    let a3 = a2 + into_raw_rule(n, t);
    lemma_ranked_concat(a2, into_raw_rule(n, t));
    let a4 = a3 + from_raw_rule(n, t);
    lemma_ranked_concat(a3, from_raw_rule(n, t));
    let a5 = a4 + offset_rule(n, t);
    lemma_ranked_concat(a4, offset_rule(n, t));
    let a6 = a5 + mem_copy_rule(n, t);
    lemma_ranked_concat(a5, mem_copy_rule(n, t));
    let a7 = a6 + set_len_rule(n, t);
    lemma_ranked_concat(a6, set_len_rule(n, t));
    let a8 = a7 + bounds_check_rule(n, t);
    lemma_ranked_concat(a7, bounds_check_rule(n, t));
    lemma_ranked_concat(a8, deref_rule(n, t));
}

proof fn lemma_first_with_op_at(cs: Seq<CandidateView>, op: Seq<char>, j: int)
    requires
        0 <= j < cs.len(),
        cs[j].operation == op,
    ensures
        exists|i: int| 0 <= i < cs.len() && first_with_op(cs, op) == cs[i],
        first_with_op(cs, op).operation == op,
    decreases j,
{
    if exists|i: int| 0 <= i < j && cs[i].operation == op {
        let i = choose|i: int| 0 <= i < j && cs[i].operation == op;
        lemma_first_with_op_at(cs, op, i);
    } else {
        let i = choose|i: int|
            0 <= i < cs.len() && (#[trigger] cs[i]).operation == op && forall|k: int|
                0 <= k < i ==> cs[k].operation != op;
        assert(0 <= j < cs.len() && cs[j].operation == op && forall|k: int|
            0 <= k < j ==> cs[k].operation != op);
    }
}

/// The candidate of `op` that resolution keeps is one of `cs`, of that
/// operation.
pub proof fn lemma_first_with_op(cs: Seq<CandidateView>, op: Seq<char>)
    requires
        has_op(cs, op),
    ensures
        exists|i: int| 0 <= i < cs.len() && first_with_op(cs, op) == cs[i],
        first_with_op(cs, op).operation == op,
{
    let j = choose|j: int| 0 <= j < cs.len() && (#[trigger] cs[j]).operation == op;
    lemma_first_with_op_at(cs, op, j);
}

proof fn lemma_resolve_from_single(cs: Seq<CandidateView>, k: int, k0: int)
    requires
        0 <= k <= k0 < 10,
        has_op(cs, priority()[k0]),
    ensures
        resolve_from(cs, k as nat).len() == 1,
        exists|j: int| 0 <= j < cs.len() && resolve_from(cs, k as nat)[0] == cs[j],
    decreases k0 - k,
{
    let op = priority()[k];
    if has_op(cs, op) {
        lemma_first_with_op(cs, op);
        assert(resolve_from(cs, k as nat) == seq![first_with_op(cs, op)]);
    } else {
        assert(resolve_from(cs, k as nat) == resolve_from(cs, (k + 1) as nat));
        lemma_resolve_from_single(cs, k + 1, k0);
    }
}

/// Conflict resolution never leaves several of the candidates that the rules
/// propose: at most one survives, and it is one of them.
pub proof fn lemma_resolution_leaves_one(n: NodeView)
    ensures
        resolve_spec(infer_spec(n)).len() <= 1,
        resolve_spec(infer_spec(n)).len() == 1 ==> exists|j: int|
            0 <= j < infer_spec(n).len() && resolve_spec(infer_spec(n))[0] == infer_spec(n)[j],
{
    let cs = infer_spec(n);
    lemma_infer_ranked(n);
    if cs.len() > 1 {
        assert(priority().contains(cs[0].operation));
        let k0 = choose|k: int| 0 <= k < priority().len() && priority()[k] == cs[0].operation;
        assert(has_op(cs, priority()[k0]));
        lemma_resolve_from_single(cs, 0, k0);
    } else if cs.len() == 1 {
        assert(resolve_spec(cs)[0] == cs[0]);
    }
}

pub proof fn lemma_resolve_from_highest(cs: Seq<CandidateView>, k: int, k0: int)
    requires
        0 <= k <= k0 < 10,
        has_op(cs, priority()[k0]),
        forall|i: int| 0 <= i < k0 ==> !has_op(cs, #[trigger] priority()[i]),
    ensures
        resolve_from(cs, k as nat) == seq![first_with_op(cs, priority()[k0])],
    decreases k0 - k,
{
    if k < k0 {
        lemma_resolve_from_highest(cs, k + 1, k0);
    }
}

/// Of conflicting candidates, the one of the highest-ranked operation that
/// occurs is kept: `FromRaw` before `IntoRaw` before `MemCopy`, and so on
/// down to `Drop`.
pub proof fn lemma_highest_rank_wins(cs: Seq<CandidateView>, k0: int)
    requires
        0 <= k0 < 10,
        has_op(cs, priority()[k0]),
        forall|i: int| 0 <= i < k0 ==> !has_op(cs, #[trigger] priority()[i]),
    ensures
        resolve_spec(cs).len() == 1,
        resolve_spec(cs)[0].operation == priority()[k0],
{
    let op = priority()[k0];
    lemma_first_with_op(cs, op);
    if cs.len() <= 1 {
        let j = choose|j: int| 0 <= j < cs.len() && (#[trigger] cs[j]).operation == op;
        assert(j == 0);
    } else {
        lemma_resolve_from_highest(cs, 0, k0);
    }
}

/// A node whose MIR calls for `FromRaw` gets `FromRaw`, whatever else the
/// rules propose.
pub proof fn lemma_from_raw_first(n: NodeView)
    requires
        has_op(infer_spec(n), "FromRaw"@),
    ensures
        resolve_spec(infer_spec(n)).len() == 1,
        resolve_spec(infer_spec(n))[0].operation == "FromRaw"@,
{
    assert(priority()[0] == "FromRaw"@);
    lemma_highest_rank_wins(infer_spec(n), 0);
}

/// Each node adds at most one operation or one hole.
pub proof fn lemma_one_result_per_node(nodes: Seq<NodeView>)
    ensures
        classify_spec(nodes).0.len() + classify_spec(nodes).1.len() <= nodes.len(),
    decreases nodes.len(),
{
    if nodes.len() > 0 {
        lemma_one_result_per_node(nodes.drop_last());
        lemma_step_shape(nodes.last(), classify_spec(nodes.drop_last()));
    }
}

/// Operations are numbered `op_1`, `op_2`, ... and holes `hole_op_1`,
/// `hole_op_2`, ... in the order of the nodes.
pub proof fn lemma_sequential_ids(nodes: Seq<NodeView>)
    ensures
        forall|i: int|
            0 <= i < classify_spec(nodes).0.len() ==> (#[trigger] classify_spec(nodes).0[i]).id
                == "op_"@ + decimal((i + 1) as nat),
        forall|i: int|
            0 <= i < classify_spec(nodes).1.len() ==> (#[trigger] classify_spec(nodes).1[i]).id
                == "hole_op_"@ + decimal((i + 1) as nat),
    decreases nodes.len(),
{
    if nodes.len() > 0 {
        lemma_sequential_ids(nodes.drop_last());
        let prev = classify_spec(nodes.drop_last());
        lemma_step_shape(nodes.last(), prev);
    }
}

/// One step adds at most one operation, numbered after the earlier ones, or
/// at most one hole, numbered likewise.
proof fn lemma_step_shape(n: NodeView, acc: (Seq<OpView>, Seq<HoleView>))
    ensures
        ({
            let r = classify_step(n, acc);
            &&& r.0 == acc.0 || (r.0.len() == acc.0.len() + 1 && r.0.drop_last() == acc.0
                && r.0.last().id == "op_"@ + decimal((acc.0.len() + 1) as nat))
            &&& r.1 == acc.1 || (r.1.len() == acc.1.len() + 1 && r.1.drop_last() == acc.1
                && r.1.last().id == "hole_op_"@ + decimal((acc.1.len() + 1) as nat))
            &&& r.0 == acc.0 || r.1 == acc.1
        }),
{
    let r = classify_step(n, acc);
    if r.0 != acc.0 {
        assert(r.0.drop_last() =~= acc.0);
    }
    if r.1 != acc.1 {
        assert(r.1.drop_last() =~= acc.1);
    }
}

/// Every hole is a memory-sensitive node that no rule matched, or a single
/// candidate without enough operands: the priority settles every conflict,
/// so no hole is an ambiguous rule match.
pub proof fn lemma_no_ambiguous_holes(nodes: Seq<NodeView>)
    ensures
        forall|i: int|
            0 <= i < classify_spec(nodes).1.len() ==> {
                ||| (#[trigger] classify_spec(nodes).1[i]).reason
                    == "memory_sensitive_but_no_high_confidence_rule"@
                ||| classify_spec(nodes).1[i].reason == "insufficient_operands"@
            },
    decreases nodes.len(),
{
    if nodes.len() > 0 {
        lemma_no_ambiguous_holes(nodes.drop_last());
        lemma_resolution_leaves_one(nodes.last());
        let prev = classify_spec(nodes.drop_last());
        let cur = classify_spec(nodes);
        assert forall|i: int| 0 <= i < cur.1.len() implies {
            ||| (#[trigger] cur.1[i]).reason == "memory_sensitive_but_no_high_confidence_rule"@
            ||| cur.1[i].reason == "insufficient_operands"@
        } by {
            if i < prev.1.len() {
                assert(cur.1[i] == prev.1[i]);
            }
        }
    }
}

/// `os` numbered as if `k` operations came before them: the `i`-th is
/// `op_{k + i + 1}`.
pub open spec fn renumber_ops(os: Seq<OpView>, k: nat) -> Seq<OpView> {
    Seq::new(os.len(), |i: int| OpView { id: "op_"@ + decimal((k + i + 1) as nat), ..os[i] })
}

/// `hs` numbered as if `k` holes came before them: the `i`-th is
/// `hole_op_{k + i + 1}`.
pub open spec fn renumber_holes(hs: Seq<HoleView>, k: nat) -> Seq<HoleView> {
    Seq::new(hs.len(), |i: int| HoleView { id: "hole_op_"@ + decimal((k + i + 1) as nat), ..hs[i] })
}

/// What one node adds does not depend on what came before, but for the
/// numbers of its operation or hole.
proof fn lemma_step_offset(n: NodeView, acc: (Seq<OpView>, Seq<HoleView>))
    ensures
        classify_step(n, acc).0 == acc.0 + renumber_ops(
            classify_step(n, (Seq::empty(), Seq::empty())).0,
            acc.0.len(),
        ),
        classify_step(n, acc).1 == acc.1 + renumber_holes(
            classify_step(n, (Seq::empty(), Seq::empty())).1,
            acc.1.len(),
        ),
{
    let e = (Seq::<OpView>::empty(), Seq::<HoleView>::empty());
    let r = classify_step(n, acc);
    let d = classify_step(n, e);
    assert(r.0 =~= acc.0 + renumber_ops(d.0, acc.0.len()));
    assert(r.1 =~= acc.1 + renumber_holes(d.1, acc.1.len()));
}

/// Classifying two node lists one after the other gives the operations and
/// holes of the first, followed by those of the second numbered on from
/// them.
pub proof fn lemma_classify_concat(a: Seq<NodeView>, b: Seq<NodeView>)
    ensures
        classify_spec(a + b).0 == classify_spec(a).0 + renumber_ops(
            classify_spec(b).0,
            classify_spec(a).0.len(),
        ),
        classify_spec(a + b).1 == classify_spec(a).1 + renumber_holes(
            classify_spec(b).1,
            classify_spec(a).1.len(),
        ),
    decreases b.len(),
{
    let ca = classify_spec(a);
    if b.len() == 0 {
        assert(a + b =~= a);
        assert(renumber_ops(classify_spec(b).0, ca.0.len()) =~= Seq::<OpView>::empty());
        assert(renumber_holes(classify_spec(b).1, ca.1.len()) =~= Seq::<HoleView>::empty());
        assert(ca.0 + Seq::<OpView>::empty() =~= ca.0);
        assert(ca.1 + Seq::<HoleView>::empty() =~= ca.1);
    } else {
        let pb = b.drop_last();
        let n = b.last();
        assert((a + b).drop_last() =~= a + pb);
        assert((a + b).last() == n);
        lemma_classify_concat(a, pb);
        let cp = classify_spec(pb);
        let d = classify_step(n, (Seq::empty(), Seq::empty()));
        let acc = (ca.0 + renumber_ops(cp.0, ca.0.len()), ca.1 + renumber_holes(cp.1, ca.1.len()));
        lemma_step_offset(n, acc);
        lemma_step_offset(n, cp);
        assert(renumber_ops(cp.0 + renumber_ops(d.0, cp.0.len()), ca.0.len()) =~= renumber_ops(
            cp.0,
            ca.0.len(),
        ) + renumber_ops(d.0, ca.0.len() + cp.0.len()));
        assert(renumber_holes(cp.1 + renumber_holes(d.1, cp.1.len()), ca.1.len()) =~= renumber_holes(
            cp.1,
            ca.1.len(),
        ) + renumber_holes(d.1, ca.1.len() + cp.1.len()));
        assert(classify_spec(a + b).0 =~= ca.0 + renumber_ops(classify_spec(b).0, ca.0.len()));
        assert(classify_spec(a + b).1 =~= ca.1 + renumber_holes(classify_spec(b).1, ca.1.len()));
    }
}

// ---------------------------------------------------------------------------
// Edges
// ---------------------------------------------------------------------------

/// No two edges share a key, so no edge is repeated.
pub proof fn lemma_edges_distinct(s: Seq<EdgeView>)
    ensures
        forall|i: int, j: int|
            0 <= i < j < dedup_edges(s).len() ==> edge_key(#[trigger] dedup_edges(s)[i]) != edge_key(
                #[trigger] dedup_edges(s)[j],
            ),
    decreases s.len(),
{
    if s.len() > 0 {
        lemma_edges_distinct(s.drop_last());
        let d = dedup_edges(s.drop_last());
        if !keys_set(d).contains(edge_key(s.last())) {
            let r = d.push(s.last());
            assert forall|i: int, j: int| 0 <= i < j < r.len() implies edge_key(#[trigger] r[i])
                != edge_key(#[trigger] r[j]) by {
                if j == d.len() {
                    assert(d.map_values(|e: EdgeView| edge_key(e))[i] == edge_key(d[i]));
                } else {
                    assert(r[i] == d[i] && r[j] == d[j]);
                }
            }
        }
    }
}

/// Every edge kept is one of the candidates, and every candidate's key is
/// kept: removing repeats loses no dependence.
pub proof fn lemma_dedup_keeps(s: Seq<EdgeView>)
    ensures
        forall|i: int| 0 <= i < dedup_edges(s).len() ==> s.contains(#[trigger] dedup_edges(s)[i]),
        forall|i: int| 0 <= i < s.len() ==> keys_set(dedup_edges(s)).contains(edge_key(#[trigger] s[i])),
    decreases s.len(),
{
    if s.len() > 0 {
        let p = s.drop_last();
        lemma_dedup_keeps(p);
        let d = dedup_edges(p);
        let r = dedup_edges(s);
        assert forall|i: int| 0 <= i < r.len() implies s.contains(#[trigger] r[i]) by {
            if i < d.len() {
                assert(r[i] == d[i]);
                let k = choose|k: int| 0 <= k < p.len() && p[k] == d[i];
                assert(s[k] == p[k]);
            } else {
                assert(r[i] == s.last());
                assert(s[s.len() - 1] == s.last());
            }
        }
        assert forall|i: int| 0 <= i < s.len() implies keys_set(r).contains(edge_key(#[trigger] s[i])) by {
            if i < p.len() {
                assert(s[i] == p[i]);
                assert(keys_set(d).contains(edge_key(p[i])));
                let dk = d.map_values(|e: EdgeView| edge_key(e));
                let k = choose|k: int| 0 <= k < dk.len() && #[trigger] dk[k] == edge_key(p[i]);
                if r != d {
                    assert(r.map_values(|e: EdgeView| edge_key(e))[k] == edge_key(p[i]));
                }
            } else {
                if r != d {
                    assert(r.map_values(|e: EdgeView| edge_key(e))[d.len() as int] == edge_key(s[i]));
                }
            }
        }
    }
}

/// `e` is the dependence of a use at node `j` on the last earlier definition
/// of the same place.
pub open spec fn is_data_dependence(nodes: Seq<NodeView>, e: EdgeView) -> bool {
    exists|j: int, u: Seq<char>|
        #![trigger nodes[j].uses.contains(u), last_def(nodes, j, u)]
        0 <= j < nodes.len() && nodes[j].uses.contains(u) && last_def(nodes, j, u) == Some(e.from)
            && e.from != nodes[j].id && e == data_edge(e.from, nodes[j].id, u)
}

/// `e` is the order dependence between two neighbouring nodes.
pub open spec fn is_order_dependence(nodes: Seq<NodeView>, e: EdgeView) -> bool {
    exists|i: int|
        0 <= i && i + 1 < nodes.len() && e == temporal_edge(
            #[trigger] nodes[i].id,
            nodes[i + 1].id,
        )
}

proof fn lemma_use_edges(nodes: Seq<NodeView>, k: int, j: int)
    requires
        0 <= k < nodes.len(),
        0 <= j <= nodes[k].uses.len(),
    ensures
        forall|i: int|
            0 <= i < use_edges(nodes, k, j).len() ==> is_data_dependence(
                nodes,
                #[trigger] use_edges(nodes, k, j)[i],
            ),
    decreases j,
{
    if j > 0 {
        lemma_use_edges(nodes, k, j - 1);
        let u = nodes[k].uses[j - 1];
        let prev = use_edges(nodes, k, j - 1);
        let cur = use_edges(nodes, k, j);
        assert forall|i: int| 0 <= i < cur.len() implies is_data_dependence(nodes, #[trigger] cur[i]) by {
            if i < prev.len() {
                assert(cur[i] == prev[i]);
            } else {
                assert(nodes[k].uses[j - 1] == u);
                assert(nodes[k].uses.contains(u));
                let f = last_def(nodes, k, u)->0;
                assert(cur[i] == data_edge(f, nodes[k].id, u));
            }
        }
    }
}

proof fn lemma_data_candidates(nodes: Seq<NodeView>, k: int)
    requires
        0 <= k <= nodes.len(),
    ensures
        forall|i: int|
            0 <= i < data_candidates(nodes, k).len() ==> is_data_dependence(
                nodes,
                #[trigger] data_candidates(nodes, k)[i],
            ),
    decreases k,
{
    if k > 0 {
        lemma_data_candidates(nodes, k - 1);
        lemma_use_edges(nodes, k - 1, nodes[k - 1].uses.len() as int);
        let a = data_candidates(nodes, k - 1);
        let b = use_edges(nodes, k - 1, nodes[k - 1].uses.len() as int);
        assert forall|i: int| 0 <= i < (a + b).len() implies is_data_dependence(
            nodes,
            #[trigger] (a + b)[i],
        ) by {
            if i < a.len() {
                assert((a + b)[i] == a[i]);
            } else {
                assert((a + b)[i] == b[i - a.len()]);
            }
        }
    }
}

proof fn lemma_temporal_candidates(nodes: Seq<NodeView>, k: int)
    requires
        0 <= k <= nodes.len(),
    ensures
        forall|i: int|
            0 <= i < temporal_candidates(nodes, k).len() ==> is_order_dependence(
                nodes,
                #[trigger] temporal_candidates(nodes, k)[i],
            ),
    decreases k,
{
    if k > 1 {
        lemma_temporal_candidates(nodes, k - 1);
        let prev = temporal_candidates(nodes, k - 1);
        let cur = temporal_candidates(nodes, k);
        assert forall|i: int| 0 <= i < cur.len() implies is_order_dependence(nodes, #[trigger] cur[i]) by {
            if i < prev.len() {
                assert(cur[i] == prev[i]);
            } else {
                assert(cur[i] == temporal_edge(nodes[k - 2].id, nodes[k - 1].id));
            }
        }
    }
}

/// Every edge is a use's dependence on the last earlier definition of the
/// same place, or the order between two neighbouring nodes; no two edges
/// share a key; and no dependence is lost but for one with a key already
/// kept.
pub proof fn lemma_edges_are_dependences(nodes: Seq<NodeView>)
    ensures
        forall|i: int|
            0 <= i < edges_spec(nodes).len() ==> is_data_dependence(nodes, #[trigger] edges_spec(nodes)[i])
                || is_order_dependence(nodes, edges_spec(nodes)[i]),
        forall|i: int, j: int|
            0 <= i < j < edges_spec(nodes).len() ==> edge_key(#[trigger] edges_spec(nodes)[i])
                != edge_key(#[trigger] edges_spec(nodes)[j]),
        forall|i: int|
            0 <= i < data_candidates(nodes, nodes.len() as int).len() ==> keys_set(
                edges_spec(nodes),
            ).contains(edge_key(#[trigger] data_candidates(nodes, nodes.len() as int)[i])),
        forall|i: int|
            0 <= i < temporal_candidates(nodes, nodes.len() as int).len() ==> keys_set(
                edges_spec(nodes),
            ).contains(edge_key(#[trigger] temporal_candidates(nodes, nodes.len() as int)[i])),
{
    let n = nodes.len() as int;
    let a = data_candidates(nodes, n);
    let b = temporal_candidates(nodes, n);
    lemma_data_candidates(nodes, n);
    lemma_temporal_candidates(nodes, n);
    lemma_edges_distinct(a + b);
    lemma_dedup_keeps(a + b);
    let r = edges_spec(nodes);
    assert forall|i: int| 0 <= i < r.len() implies is_data_dependence(nodes, #[trigger] r[i])
        || is_order_dependence(nodes, r[i]) by {
        let k = choose|k: int| 0 <= k < (a + b).len() && (a + b)[k] == r[i];
        if k < a.len() {
            assert((a + b)[k] == a[k]);
        } else {
            assert((a + b)[k] == b[k - a.len()]);
        }
    }
    assert forall|i: int| 0 <= i < a.len() implies keys_set(r).contains(edge_key(#[trigger] a[i])) by {
        assert((a + b)[i] == a[i]);
    }
    assert forall|i: int| 0 <= i < b.len() implies keys_set(r).contains(edge_key(#[trigger] b[i])) by {
        assert((a + b)[i + a.len()] == b[i]);
    }
}

/// The last earlier definition comes from an earlier node.
proof fn lemma_last_def_earlier(nodes: Seq<NodeView>, k: int, u: Seq<char>)
    requires
        0 <= k <= nodes.len(),
        last_def(nodes, k, u) is Some,
    ensures
        exists|m: int|
            0 <= m < k && last_def(nodes, k, u) == Some(nodes[m].id) && nodes[m].defs.contains(u),
    decreases k,
{
    if !nodes[k - 1].defs.contains(u) {
        lemma_last_def_earlier(nodes, k - 1, u);
        let m = choose|m: int|
            0 <= m < k - 1 && last_def(nodes, k - 1, u) == Some(nodes[m].id) && nodes[m].defs.contains(u);
        assert(0 <= m < k);
    } else {
        assert(last_def(nodes, k, u) == Some(nodes[k - 1].id));
    }
}

/// In the graph of any records, every edge points forward: from an earlier
/// node to a later one.
pub proof fn lemma_edges_point_forward(recs: Seq<RecordView>, nodes: Seq<NodeView>)
    requires
        nodes_built_from(recs, nodes),
    ensures
        forall|i: int|
            0 <= i < edges_spec(nodes).len() ==> (#[trigger] edges_spec(nodes)[i]).from < edges_spec(
                nodes,
            )[i].to,
{
    let ks = choose|ks: Seq<LineKey>|
        #![trigger sorted_by(ks, key_order())]
        {
            &&& ks.len() == nodes.len()
            &&& sorted_by(ks, key_order())
            &&& ks.to_set() == keys_of(recs)
            &&& forall|i: int| 0 <= i < nodes.len() ==> node_matches(nodes[i], recs, ks[i], i)
        };
    assert forall|i: int| 0 <= i < nodes.len() implies (#[trigger] nodes[i]).id == i + 1 by {
        assert(node_matches(nodes[i], recs, ks[i], i));
    }
    lemma_edges_are_dependences(nodes);
    let r = edges_spec(nodes);
    assert forall|i: int| 0 <= i < r.len() implies (#[trigger] r[i]).from < r[i].to by {
        if is_data_dependence(nodes, r[i]) {
            let (j, u) = choose|j: int, u: Seq<char>|
                #![trigger nodes[j].uses.contains(u), last_def(nodes, j, u)]
                0 <= j < nodes.len() && nodes[j].uses.contains(u) && last_def(nodes, j, u) == Some(
                    r[i].from,
                ) && r[i].from != nodes[j].id && r[i] == data_edge(r[i].from, nodes[j].id, u);
            lemma_last_def_earlier(nodes, j, u);
            let m = choose|m: int|
                0 <= m < j && last_def(nodes, j, u) == Some(nodes[m].id) && nodes[m].defs.contains(u);
            assert(nodes[m].id == m + 1);
            assert(nodes[j].id == j + 1);
        } else {
            let k = choose|k: int|
                0 <= k && k + 1 < nodes.len() && r[i] == temporal_edge(
                    #[trigger] nodes[k].id,
                    nodes[k + 1].id,
                );
            assert(nodes[k + 1].id == k + 2);
        }
    }
}

/// `s` holds no `:`.
pub open spec fn colon_free(s: Seq<char>) -> bool {
    forall|i: int| 0 <= i < s.len() ==> #[trigger] s[i] != ':'
}

proof fn lemma_split_at_colon(a: Seq<char>, r1: Seq<char>, b: Seq<char>, r2: Seq<char>)
    requires
        colon_free(a),
        colon_free(b),
        a + seq![':'] + r1 == b + seq![':'] + r2,
    ensures
        a == b,
        r1 == r2,
{
    let l = a + seq![':'] + r1;
    let m = b + seq![':'] + r2;
    if a.len() < b.len() {
        assert(l[a.len() as int] == ':');
        assert(m[a.len() as int] == b[a.len() as int]);
    } else if b.len() < a.len() {
        assert(m[b.len() as int] == ':');
        assert(l[b.len() as int] == a[b.len() as int]);
    }
    assert(a =~= l.subrange(0, a.len() as int));
    assert(b =~= m.subrange(0, b.len() as int));
    assert(r1 =~= l.subrange(a.len() + 1int, l.len() as int));
    assert(r2 =~= m.subrange(b.len() + 1int, m.len() as int));
}

proof fn lemma_decimal_colon_free(n: nat)
    ensures
        colon_free(decimal(n)),
{
    lemma_decimal_digits(n);
    assert forall|i: int| 0 <= i < decimal(n).len() implies #[trigger] decimal(n)[i] != ':' by {
        assert(is_ascii_digit(decimal(n)[i]));
    }
}

/// The two kinds of edge.
pub open spec fn known_kind(e: EdgeView) -> bool {
    e.edge_type == "DataDep"@ || e.edge_type == "TemporalDep"@
}

/// Among edges of the two kinds, the key identifies the edge: removing
/// edges with a key already seen removes only exact repeats.
pub proof fn lemma_edge_key_identifies(e1: EdgeView, e2: EdgeView)
    requires
        known_kind(e1),
        known_kind(e2),
        edge_key(e1) == edge_key(e2),
    ensures
        e1 == e2,
{
    reveal_strlit("DataDep");
    reveal_strlit("TemporalDep");
    assert(colon_free("DataDep"@));
    assert(colon_free("TemporalDep"@));
    lemma_decimal_colon_free(e1.from as nat);
    lemma_decimal_colon_free(e2.from as nat);
    lemma_decimal_colon_free(e1.to as nat);
    lemma_decimal_colon_free(e2.to as nat);
    let t1 = decimal(e1.to as nat) + seq![':'] + e1.edge_type + seq![':'] + e1.evidence;
    let t2 = decimal(e2.to as nat) + seq![':'] + e2.edge_type + seq![':'] + e2.evidence;
    assert(edge_key(e1) =~= decimal(e1.from as nat) + seq![':'] + t1);
    assert(edge_key(e2) =~= decimal(e2.from as nat) + seq![':'] + t2);
    lemma_split_at_colon(decimal(e1.from as nat), t1, decimal(e2.from as nat), t2);
    let u1 = e1.edge_type + seq![':'] + e1.evidence;
    let u2 = e2.edge_type + seq![':'] + e2.evidence;
    assert(t1 =~= decimal(e1.to as nat) + seq![':'] + u1);
    assert(t2 =~= decimal(e2.to as nat) + seq![':'] + u2);
    lemma_split_at_colon(decimal(e1.to as nat), u1, decimal(e2.to as nat), u2);
    lemma_split_at_colon(e1.edge_type, e1.evidence, e2.edge_type, e2.evidence);
    lemma_decimal_digits(e1.from as nat);
    lemma_decimal_digits(e2.from as nat);
    lemma_decimal_digits(e1.to as nat);
    lemma_decimal_digits(e2.to as nat);
}

/// Every data dependence and every order dependence between neighbours is
/// among the edges, and nothing else is: the edges are the dependences,
/// each once.
pub proof fn lemma_edges_complete(nodes: Seq<NodeView>)
    ensures
        forall|i: int|
            0 <= i < data_candidates(nodes, nodes.len() as int).len() ==> edges_spec(nodes).contains(
                #[trigger] data_candidates(nodes, nodes.len() as int)[i],
            ),
        forall|i: int|
            0 <= i < temporal_candidates(nodes, nodes.len() as int).len() ==> edges_spec(
                nodes,
            ).contains(#[trigger] temporal_candidates(nodes, nodes.len() as int)[i]),
{
    let n = nodes.len() as int;
    let a = data_candidates(nodes, n);
    let b = temporal_candidates(nodes, n);
    let r = edges_spec(nodes);
    lemma_edges_are_dependences(nodes);
    lemma_data_candidates(nodes, n);
    lemma_temporal_candidates(nodes, n);
    assert forall|i: int| 0 <= i < r.len() implies known_kind(#[trigger] r[i]) by {
        if is_data_dependence(nodes, r[i]) {
            let (j, u) = choose|j: int, u: Seq<char>|
                #![trigger nodes[j].uses.contains(u), last_def(nodes, j, u)]
                0 <= j < nodes.len() && nodes[j].uses.contains(u) && last_def(nodes, j, u) == Some(
                    r[i].from,
                ) && r[i].from != nodes[j].id && r[i] == data_edge(r[i].from, nodes[j].id, u);
        } else {
            let k = choose|k: int|
                0 <= k && k + 1 < nodes.len() && r[i] == temporal_edge(
                    #[trigger] nodes[k].id,
                    nodes[k + 1].id,
                );
        }
    }
    assert forall|i: int| 0 <= i < a.len() implies r.contains(#[trigger] a[i]) by {
        assert(keys_set(r).contains(edge_key(a[i])));
        let rk = r.map_values(|e: EdgeView| edge_key(e));
        let k = choose|k: int| 0 <= k < rk.len() && rk[k] == edge_key(a[i]);
        assert(rk[k] == edge_key(r[k]));
        assert(is_data_dependence(nodes, a[i]));
        let (j, u) = choose|j: int, u: Seq<char>|
            #![trigger nodes[j].uses.contains(u), last_def(nodes, j, u)]
            0 <= j < nodes.len() && nodes[j].uses.contains(u) && last_def(nodes, j, u) == Some(
                a[i].from,
            ) && a[i].from != nodes[j].id && a[i] == data_edge(a[i].from, nodes[j].id, u);
        assert(known_kind(r[k]));
        lemma_edge_key_identifies(r[k], a[i]);
    }
    assert forall|i: int| 0 <= i < b.len() implies r.contains(#[trigger] b[i]) by {
        assert(keys_set(r).contains(edge_key(b[i])));
        let rk = r.map_values(|e: EdgeView| edge_key(e));
        let k = choose|k: int| 0 <= k < rk.len() && rk[k] == edge_key(b[i]);
        assert(rk[k] == edge_key(r[k]));
        assert(is_order_dependence(nodes, b[i]));
        let q = choose|q: int|
            0 <= q && q + 1 < nodes.len() && b[i] == temporal_edge(
                #[trigger] nodes[q].id,
                nodes[q + 1].id,
            );
        assert(known_kind(r[k]));
        lemma_edge_key_identifies(r[k], b[i]);
    }
}

// ---------------------------------------------------------------------------
// Nodes
// ---------------------------------------------------------------------------

/// The nodes of a set of records are determined: two node sequences built
/// from the same records are equal. Grouping does not depend on the order
/// in which the distinct keys were met.
pub proof fn lemma_nodes_determined(recs: Seq<RecordView>, a: Seq<NodeView>, b: Seq<NodeView>)
    requires
        nodes_built_from(recs, a),
        nodes_built_from(recs, b),
    ensures
        a == b,
{
    let ka = choose|ks: Seq<LineKey>|
        #![trigger sorted_by(ks, key_order())]
        {
            &&& ks.len() == a.len()
            &&& sorted_by(ks, key_order())
            &&& ks.to_set() == keys_of(recs)
            &&& forall|i: int| 0 <= i < a.len() ==> node_matches(a[i], recs, ks[i], i)
        };
    let kb = choose|ks: Seq<LineKey>|
        #![trigger sorted_by(ks, key_order())]
        {
            &&& ks.len() == b.len()
            &&& sorted_by(ks, key_order())
            &&& ks.to_set() == keys_of(recs)
            &&& forall|i: int| 0 <= i < b.len() ==> node_matches(b[i], recs, ks[i], i)
        };
    lemma_key_order_strict();
    lemma_sorted_unique(ka, kb, key_order());
    assert forall|i: int| 0 <= i < a.len() implies a[i] == b[i] by {
        assert(node_matches(a[i], recs, ka[i], i));
        assert(node_matches(b[i], recs, kb[i], i));
        let g = group(recs, ka[i]);
        lemma_sorted_set_unique(a[i].defs, b[i].defs, defs_of(g));
        lemma_sorted_set_unique(a[i].uses, b[i].uses, uses_of(g));
    }
    assert(a =~= b);
}

/// Records with key `k` in `recs`: as many copies of each record as `recs`
/// holds when its key is `k`, else none.
proof fn lemma_group_counts(recs: Seq<RecordView>, k: LineKey)
    ensures
        forall|r: RecordView|
            #[trigger] group(recs, k).to_multiset().count(r) == if rec_key(r) == k {
                recs.to_multiset().count(r)
            } else {
                0
            },
    decreases recs.len(),
{
    broadcast use vstd::seq_lib::group_to_multiset_ensures;
    broadcast use vstd::multiset::group_multiset_axioms;

    if recs.len() == 0 {
        assert(group(recs, k) =~= Seq::<RecordView>::empty());
    } else {
        let pre = recs.drop_last();
        let x = recs.last();
        lemma_group_counts(pre, k);
        assert(recs =~= pre.push(x));
        assert(recs.to_multiset() =~= pre.to_multiset().insert(x));
        if rec_key(x) == k {
            assert(group(recs, k) == group(pre, k).push(x));
            assert(group(recs, k).to_multiset() =~= group(pre, k).to_multiset().insert(x));
        } else {
            assert(group(recs, k) == group(pre, k));
        }
    }
}

/// Taking record `j` out of `g` takes out exactly its MIR items, and no
/// definition or use that another record of `g` still has.
proof fn lemma_group_remove(g: Seq<RecordView>, j: int)
    requires
        0 <= j < g.len(),
    ensures
        items_of(g).to_multiset() =~= items_of(g.remove(j)).to_multiset().add(
            g[j].mir_items.to_multiset(),
        ),
        defs_of(g) =~= defs_of(g.remove(j)).union(g[j].defs.to_set()),
        uses_of(g) =~= uses_of(g.remove(j)).union(g[j].uses.to_set()),
    decreases g.len(),
{
    broadcast use vstd::seq_lib::lemma_multiset_commutative;
    broadcast use vstd::multiset::group_multiset_axioms;

    let pre = g.drop_last();
    if j == g.len() - 1 {
        assert(g.remove(j) =~= pre);
    } else {
        lemma_group_remove(pre, j);
        let r = g.remove(j);
        assert(r.drop_last() =~= pre.remove(j));
        assert(r.last() == g.last());
        assert(pre[j] == g[j]);
    }
}

/// The MIR items, definitions and uses gathered from records do not depend
/// on the order of the records.
proof fn lemma_group_order_free(g1: Seq<RecordView>, g2: Seq<RecordView>)
    requires
        g1.to_multiset() == g2.to_multiset(),
    ensures
        items_of(g1).to_multiset() =~= items_of(g2).to_multiset(),
        defs_of(g1) == defs_of(g2),
        uses_of(g1) == uses_of(g2),
    decreases g1.len(),
{
    broadcast use vstd::seq_lib::group_to_multiset_ensures;
    broadcast use vstd::seq_lib::lemma_multiset_commutative;
    broadcast use vstd::multiset::group_multiset_axioms;

    if g1.len() == 0 {
        assert(g2.to_multiset().len() == 0);
        assert(g2 =~= Seq::<RecordView>::empty());
    } else {
        let r = g1.last();
        let p1 = g1.drop_last();
        assert(g1 =~= p1.push(r));
        assert(g1.to_multiset().count(r) > 0);
        assert(g2.contains(r));
        let j = choose|j: int| 0 <= j < g2.len() && g2[j] == r;
        let p2 = g2.remove(j);
        assert(p1.to_multiset() =~= p2.to_multiset());
        lemma_group_order_free(p1, p2);
        lemma_group_remove(g2, j);
    }
}

/// Two record sequences with the same records have the same keys.
proof fn lemma_keys_order_free(recs1: Seq<RecordView>, recs2: Seq<RecordView>)
    requires
        recs1.to_multiset() == recs2.to_multiset(),
    ensures
        keys_of(recs1) == keys_of(recs2),
{
    broadcast use vstd::seq_lib::group_to_multiset_ensures;

    assert forall|x: LineKey| keys_of(recs1).contains(x) implies keys_of(recs2).contains(x) by {
        let m = recs1.map_values(|r: RecordView| rec_key(r));
        let i = choose|i: int| 0 <= i < m.len() && m[i] == x;
        assert(recs1.to_multiset().count(recs1[i]) > 0);
        let j = choose|j: int| 0 <= j < recs2.len() && recs2[j] == recs1[i];
        assert(recs2.map_values(|r: RecordView| rec_key(r))[j] == x);
    }
    assert forall|x: LineKey| keys_of(recs2).contains(x) implies keys_of(recs1).contains(x) by {
        let m = recs2.map_values(|r: RecordView| rec_key(r));
        let i = choose|i: int| 0 <= i < m.len() && m[i] == x;
        assert(recs2.to_multiset().count(recs2[i]) > 0);
        let j = choose|j: int| 0 <= j < recs1.len() && recs1[j] == recs2[i];
        assert(recs1.map_values(|r: RecordView| rec_key(r))[j] == x);
    }
    assert(keys_of(recs1) =~= keys_of(recs2));
}

/// Reordering the records changes no node but for the order of its MIR
/// items (and which source line shows first): the same nodes, with the same
/// ids, spans, functions, definitions and uses, and the same MIR items.
pub proof fn lemma_nodes_ignore_record_order(
    recs1: Seq<RecordView>,
    recs2: Seq<RecordView>,
    a: Seq<NodeView>,
    b: Seq<NodeView>,
)
    requires
        recs1.to_multiset() == recs2.to_multiset(),
        nodes_built_from(recs1, a),
        nodes_built_from(recs2, b),
    ensures
        a.len() == b.len(),
        forall|i: int|
            0 <= i < a.len() ==> {
                &&& (#[trigger] a[i]).id == b[i].id
                &&& a[i].step_id == b[i].step_id
                &&& a[i].span == b[i].span
                &&& a[i].function == b[i].function
                &&& a[i].depth == b[i].depth
                &&& a[i].defs == b[i].defs
                &&& a[i].uses == b[i].uses
                &&& a[i].mir_items.to_multiset() == b[i].mir_items.to_multiset()
            },
{
    let ka = choose|ks: Seq<LineKey>|
        #![trigger sorted_by(ks, key_order())]
        {
            &&& ks.len() == a.len()
            &&& sorted_by(ks, key_order())
            &&& ks.to_set() == keys_of(recs1)
            &&& forall|i: int| 0 <= i < a.len() ==> node_matches(a[i], recs1, ks[i], i)
        };
    let kb = choose|ks: Seq<LineKey>|
        #![trigger sorted_by(ks, key_order())]
        {
            &&& ks.len() == b.len()
            &&& sorted_by(ks, key_order())
            &&& ks.to_set() == keys_of(recs2)
            &&& forall|i: int| 0 <= i < b.len() ==> node_matches(b[i], recs2, ks[i], i)
        };
    lemma_keys_order_free(recs1, recs2);
    lemma_key_order_strict();
    lemma_sorted_unique(ka, kb, key_order());
    assert forall|i: int| 0 <= i < a.len() implies {
        &&& (#[trigger] a[i]).id == b[i].id
        &&& a[i].step_id == b[i].step_id
        &&& a[i].span == b[i].span
        &&& a[i].function == b[i].function
        &&& a[i].depth == b[i].depth
        &&& a[i].defs == b[i].defs
        &&& a[i].uses == b[i].uses
        &&& a[i].mir_items.to_multiset() == b[i].mir_items.to_multiset()
    } by {
        assert(node_matches(a[i], recs1, ka[i], i));
        assert(node_matches(b[i], recs2, kb[i], i));
        let k = ka[i];
        let g1 = group(recs1, k);
        let g2 = group(recs2, k);
        lemma_group_counts(recs1, k);
        lemma_group_counts(recs2, k);
        assert(g1.to_multiset() =~= g2.to_multiset()) by {
            assert forall|r: RecordView| g1.to_multiset().count(r) == g2.to_multiset().count(r) by {
            }
        }
        lemma_group_order_free(g1, g2);
        lemma_sorted_set_unique(a[i].defs, b[i].defs, defs_of(g1));
        lemma_sorted_set_unique(a[i].uses, b[i].uses, uses_of(g1));
    }
}

// ---------------------------------------------------------------------------
// Places
// ---------------------------------------------------------------------------

/// `t` is `p` followed by one or more decimal digits.
pub open spec fn is_token(t: Seq<char>, p: Seq<char>) -> bool {
    &&& t.len() > p.len()
    &&& t.subrange(0, p.len() as int) == p
    &&& forall|k: int| p.len() <= k < t.len() ==> is_decimal_digit(#[trigger] t[k])
}

proof fn lemma_digit_run_digits(s: Seq<char>, j: int)
    requires
        0 <= j,
    ensures
        forall|k: int| j <= k < j + digit_run(s, j) ==> is_decimal_digit(#[trigger] s[k]),
        j + digit_run(s, j) <= s.len() || digit_run(s, j) == 0,
    decreases s.len() - j,
{
    if 0 <= j < s.len() && is_decimal_digit(s[j]) {
        lemma_digit_run_digits(s, j + 1);
    }
}

proof fn lemma_tokens_shape(s: Seq<char>, p: Seq<char>, i: nat)
    ensures
        forall|k: int| 0 <= k < tokens_from(s, p, i).len() ==> is_token(#[trigger] tokens_from(s, p, i)[k], p),
    decreases s.len() - i,
{
    if i < s.len() {
        if token_len(s, p, i as int) > 0 {
            let j = i + p.len();
            lemma_digit_run_digits(s, j as int);
            let e = i + token_len(s, p, i as int);
            lemma_tokens_shape(s, p, e);
            let t = s.subrange(i as int, e as int);
            assert(t.subrange(0, p.len() as int) =~= s.subrange(i as int, (i + p.len()) as int));
            assert forall|k: int| p.len() <= k < t.len() implies is_decimal_digit(#[trigger] t[k]) by {
                assert(t[k] == s[i + k]);
            }
            let r = tokens_from(s, p, i);
            assert(is_token(t, p));
            assert(r == seq![t] + tokens_from(s, p, e));
            assert forall|k: int| 0 <= k < r.len() implies is_token(#[trigger] r[k], p) by {
                if k > 0 {
                    assert(r[k] == tokens_from(s, p, e)[k - 1]);
                }
            }
        } else {
            lemma_tokens_shape(s, p, i + 1);
            assert(tokens_from(s, p, i) == tokens_from(s, p, i + 1));
        }
    }
}

/// Every place that a statement defines or uses is a MIR local: `_`
/// followed by one or more decimal digits.
pub proof fn lemma_places_are_locals(text: Seq<char>)
    ensures
        forall|x: Seq<char>| defs_spec(text).contains(x) ==> is_token(x, "_"@),
        forall|x: Seq<char>| uses_spec(text).contains(x) ==> is_token(x, "_"@),
{
    lemma_tokens_shape(before_first(text, "="@), "_"@, 0);
    lemma_tokens_shape(after_first(text, "="@), "_"@, 0);
    lemma_tokens_shape(text, "_"@, 0);
    assert forall|x: Seq<char>| defs_spec(text).contains(x) implies is_token(x, "_"@) by {
        let ts = places(before_first(text, "="@));
        let k = choose|k: int| 0 <= k < ts.len() && ts[k] == x;
    }
    assert forall|x: Seq<char>| uses_spec(text).contains(x) implies is_token(x, "_"@) by {
        if has_substring(text, "="@) {
            let ts = places(after_first(text, "="@));
            let k = choose|k: int| 0 <= k < ts.len() && ts[k] == x;
        } else {
            let ts = places(text);
            let k = choose|k: int| 0 <= k < ts.len() && ts[k] == x;
        }
    }
}

/// Every successor block named in a record is `bb` followed by one or more
/// decimal digits.
pub proof fn lemma_blocks_are_named(successors: Seq<Seq<char>>)
    ensures
        forall|x: Seq<char>| succ_names(successors).contains(x) ==> is_token(x, "bb"@),
{
    assert forall|x: Seq<char>| succ_names(successors).contains(x) implies is_token(x, "bb"@) by {
        let i = choose|i: int| 0 <= i < successors.len() && block_names(successors[i]).contains(x);
        lemma_tokens_shape(successors[i], "bb"@, 0);
        let ts = block_names(successors[i]);
        let k = choose|k: int| 0 <= k < ts.len() && ts[k] == x;
    }
}

proof fn lemma_group_member(recs: Seq<RecordView>, j: int)
    requires
        0 <= j < recs.len(),
    ensures
        group(recs, rec_key(recs[j])).contains(recs[j]),
    decreases recs.len(),
{
    let k = rec_key(recs[j]);
    if j == recs.len() - 1 {
        let g = group(recs.drop_last(), k).push(recs.last());
        assert(group(recs, k) == g);
        assert(g[g.len() - 1] == recs[j]);
    } else {
        lemma_group_member(recs.drop_last(), j);
        assert(recs.drop_last()[j] == recs[j]);
        let g0 = group(recs.drop_last(), k);
        let i = choose|i: int| 0 <= i < g0.len() && g0[i] == recs[j];
        if rec_key(recs.last()) == k {
            assert(group(recs, k)[i] == recs[j]);
        }
    }
}

proof fn lemma_group_covers(g: Seq<RecordView>, m: int)
    requires
        0 <= m < g.len(),
    ensures
        g[m].defs.to_set().subset_of(defs_of(g)),
        g[m].uses.to_set().subset_of(uses_of(g)),
        forall|t: Seq<char>| g[m].mir_items.contains(t) ==> items_of(g).contains(t),
    decreases g.len(),
{
    if m < g.len() - 1 {
        lemma_group_covers(g.drop_last(), m);
        assert(g.drop_last()[m] == g[m]);
        assert forall|t: Seq<char>| g[m].mir_items.contains(t) implies items_of(g).contains(t) by {
            let a = items_of(g.drop_last());
            assert(g.drop_last()[m].mir_items.contains(t));
            assert(a.contains(t));
            let i = choose|i: int| 0 <= i < a.len() && a[i] == t;
            assert(items_of(g) == a + g.last().mir_items);
            assert(items_of(g)[i] == t);
        }
    } else {
        assert forall|t: Seq<char>| g[m].mir_items.contains(t) implies items_of(g).contains(t) by {
            let a = items_of(g.drop_last());
            let i = choose|i: int| 0 <= i < g[m].mir_items.len() && g[m].mir_items[i] == t;
            assert(items_of(g) == a + g.last().mir_items);
            assert(items_of(g)[a.len() + i] == t);
        }
    }
}

/// Record `r` is in node `n`: same function and span, and its definitions,
/// uses and MIR items are among the node's.
pub open spec fn placed_in(r: RecordView, n: NodeView) -> bool {
    &&& n.function == r.function
    &&& n.span == span_of(rec_key(r))
    &&& r.defs.to_set().subset_of(n.defs.to_set())
    &&& r.uses.to_set().subset_of(n.uses.to_set())
    &&& forall|t: Seq<char>| r.mir_items.contains(t) ==> n.mir_items.contains(t)
}

/// Some node holds record `r`.
pub open spec fn has_node_for(r: RecordView, nodes: Seq<NodeView>) -> bool {
    exists|i: int| 0 <= i < nodes.len() && placed_in(r, #[trigger] nodes[i])
}

/// No record is lost: every record's MIR items, definitions and uses are
/// in the node of its function, file and line.
pub proof fn lemma_records_placed(recs: Seq<RecordView>, nodes: Seq<NodeView>)
    requires
        nodes_built_from(recs, nodes),
    ensures
        forall|j: int| 0 <= j < recs.len() ==> has_node_for(#[trigger] recs[j], nodes),
{
    let ks = choose|ks: Seq<LineKey>|
        #![trigger sorted_by(ks, key_order())]
        {
            &&& ks.len() == nodes.len()
            &&& sorted_by(ks, key_order())
            &&& ks.to_set() == keys_of(recs)
            &&& forall|i: int| 0 <= i < nodes.len() ==> node_matches(nodes[i], recs, ks[i], i)
        };
    assert forall|j: int| 0 <= j < recs.len() implies has_node_for(#[trigger] recs[j], nodes) by {
        let k = rec_key(recs[j]);
        assert(recs.map_values(|r: RecordView| rec_key(r))[j] == k);
        assert(keys_of(recs).contains(k));
        let i = choose|i: int| 0 <= i < ks.len() && ks[i] == k;
        assert(node_matches(nodes[i], recs, ks[i], i));
        let g = group(recs, k);
        lemma_group_member(recs, j);
        let m = choose|m: int| 0 <= m < g.len() && g[m] == recs[j];
        lemma_group_covers(g, m);
        assert(placed_in(recs[j], nodes[i]));
    }
}

// ---------------------------------------------------------------------------
// Records and numbers
// ---------------------------------------------------------------------------

/// A line record is determined by what it is made of.
pub proof fn lemma_record_determined(
    a: RecordView,
    b: RecordView,
    function: Seq<char>,
    file: Seq<char>,
    line: u32,
    source: Option<Seq<char>>,
    text: Seq<char>,
    successors: Seq<Seq<char>>,
)
    requires
        record_matches(a, function, file, line, source, text, successors),
        record_matches(b, function, file, line, source, text, successors),
    ensures
        a == b,
{
    lemma_sorted_set_unique(a.defs, b.defs, defs_spec(text));
    lemma_sorted_set_unique(a.uses, b.uses, uses_spec(text));
    lemma_sorted_set_unique(a.succ_blocks, b.succ_blocks, succ_names(successors));
}

proof fn lemma_digit_char_value(d: nat)
    requires
        d < 10,
    ensures
        crate::settings::digit_value(digit_char(d)) == d,
        is_ascii_digit(digit_char(d)),
{
    if d == 0 {
    } else if d == 1 {
    } else if d == 2 {
    } else if d == 3 {
    } else if d == 4 {
    } else if d == 5 {
    } else if d == 6 {
    } else if d == 7 {
    } else if d == 8 {
    } else {
        assert(d == 9);
    }
}

proof fn lemma_decimal_digits(n: nat)
    ensures
        all_digits(decimal(n)),
        digits_value(decimal(n)) == n,
        decimal(n).len() > 0,
        decimal(n)[0] != '+',
    decreases n,
{
    if n < 10 {
        lemma_digit_char_value(n);
        assert(decimal(n) == seq![digit_char(n)]);
        assert(decimal(n).drop_last() =~= Seq::<char>::empty());
        assert(decimal(n).last() == digit_char(n));
        assert(digits_value(decimal(n)) == digits_value(decimal(n).drop_last()) * 10
            + crate::settings::digit_value(decimal(n).last()));
    } else {
        lemma_decimal_digits(n / 10);
        lemma_digit_char_value(n % 10);
        let d = decimal(n);
        assert(d == decimal(n / 10).push(digit_char(n % 10)));
        assert(d.drop_last() =~= decimal(n / 10));
        assert(d.last() == digit_char(n % 10));
        assert(digits_value(d) == digits_value(d.drop_last()) * 10 + crate::settings::digit_value(
            d.last(),
        ));
        assert(n == (n / 10) * 10 + n % 10);
        assert forall|i: int| 0 <= i < d.len() implies is_ascii_digit(#[trigger] d[i]) by {
            if i < d.len() - 1 {
                assert(d[i] == decimal(n / 10)[i]);
            }
        }
        assert(d[0] == decimal(n / 10)[0]);
    }
}

/// A number written in decimal, as the graph writes ids and lines, reads
/// back as the same number.
pub proof fn lemma_decimal_parses_back(n: u32)
    ensures
        parse_u32_spec(decimal(n as nat)) == Some(n),
{
    lemma_decimal_digits(n as nat);
}

} // verus!
