//! What the rules, the conflict resolution, the classification, the edges
//! and the cargo subcommand do, stated with their literal keys, names and
//! texts, and proved from the specifications that the functions' contracts
//! use.
use vstd::prelude::*;
use crate::classify::{
    CandidateView, detection_spec, first_with_op, has_any_spec, has_op, infer_spec, priority,
    resolve_spec,
};
use crate::ir::{EdgeView, HoleView, NodeView, OpView};
use crate::driver::{CargoAction, before_dashes, cargo_action_spec, has_arg_flag_spec};
use crate::builder::{data_candidates, data_edge, edges_spec, last_def, temporal_candidates, temporal_edge, use_edges};
use crate::classify::{classify_spec, classify_step};
use crate::text::{before_first, decimal, has_substring, join, starts_with, trimmed};

verus! {

// ---------------------------------------------------------------------------
// Conflict resolution
// ---------------------------------------------------------------------------

/// The operations from the most to the least preferred when several rules
/// match one node.
pub open spec fn preference() -> Seq<Seq<char>> {
    seq![
        "FromRaw"@,
        "IntoRaw"@,
        "MemCopy"@,
        "SetLen"@,
        "BoundsCheck"@,
        "Offset"@,
        "Deref"@,
        "Deallocate"@,
        "Allocate"@,
        "Drop"@,
    ]
}

/// The ten operation names are different from each other.
pub proof fn lemma_operation_names_distinct()
    ensures
        forall|a: int, b: int|
            0 <= a < 10 && 0 <= b < 10 && #[trigger] preference()[a] == #[trigger] preference()[b]
                ==> a == b,
{
    reveal_strlit("FromRaw");
    reveal_strlit("IntoRaw");
    reveal_strlit("MemCopy");
    reveal_strlit("SetLen");
    reveal_strlit("BoundsCheck");
    reveal_strlit("Offset");
    reveal_strlit("Deref");
    reveal_strlit("Deallocate");
    reveal_strlit("Allocate");
    reveal_strlit("Drop");
    let p = preference();
    assert forall|a: int, b: int|
        0 <= a < 10 && 0 <= b < 10 && #[trigger] p[a] == #[trigger] p[b] implies a == b by {
        if a != b {
            assert(p[a] != p[b]) by {
                if p[a].len() == p[b].len() {
                    if p[a].len() == 7 {
                        assert(p[a][0] != p[b][0] || p[a][1] != p[b][1]);
                    } else if p[a].len() == 6 {
                        assert(p[a][0] != p[b][0]);
                    } else if p[a].len() == 8 {
                        assert(p[a][0] != p[b][0]);
                    } else {
                        assert(p[a][0] != p[b][0]);
                    }
                }
            }
        }
    }
}

/// Two positions of the list that hold the same name are the same position.
pub proof fn lemma_operation_name_at(a: int, b: int)
    requires
        0 <= a < 10,
        0 <= b < 10,
        preference()[a] == preference()[b],
    ensures
        a == b,
{
    lemma_operation_names_distinct();
}

/// Resolution works through exactly this list of operations.
pub proof fn lemma_priority_is_the_preference()
    ensures
        priority() == preference(),
{
    assert(priority() =~= preference());
}

proof fn lemma_first_present(cs: Seq<CandidateView>, k: int) -> (k0: int)
    requires
        0 <= k < 10,
        exists|i: int| k <= i < 10 && has_op(cs, #[trigger] preference()[i]),
        forall|i: int| 0 <= i < k ==> !has_op(cs, #[trigger] preference()[i]),
    ensures
        k <= k0 < 10,
        has_op(cs, preference()[k0]),
        forall|i: int| 0 <= i < k0 ==> !has_op(cs, #[trigger] preference()[i]),
    decreases 10 - k,
{
    if has_op(cs, preference()[k]) {
        k
    } else {
        lemma_first_present(cs, k + 1)
    }
}

/// Of two or more candidates whose operations are all known, resolution
/// keeps exactly one: the first candidate of the most preferred operation
/// present. No candidate has a more preferred operation than the one kept.
/// Fewer than two candidates are kept as they are.
pub proof fn lemma_resolution_prefers(cs: Seq<CandidateView>)
    requires
        forall|j: int| 0 <= j < cs.len() ==> preference().contains(#[trigger] cs[j].operation),
    ensures
        cs.len() <= 1 ==> resolve_spec(cs) == cs,
        cs.len() > 1 ==> resolve_spec(cs).len() == 1,
        cs.len() > 1 ==> exists|j: int|
            0 <= j < cs.len() && resolve_spec(cs)[0] == cs[j] && forall|i: int|
                0 <= i < j ==> cs[i].operation != cs[j].operation,
        cs.len() > 1 ==> forall|i: int, a: int, b: int|
            #![trigger cs[i], preference()[a], preference()[b]]
            0 <= i < cs.len() && 0 <= a < 10 && 0 <= b < 10 && preference()[a] == cs[i].operation
                && preference()[b] == resolve_spec(cs)[0].operation ==> b <= a,
{
    if cs.len() > 1 {
        lemma_priority_is_the_preference();
        let c0 = cs[0].operation;
        assert(preference().contains(c0));
        let i0 = choose|i: int| 0 <= i < preference().len() && preference()[i] == c0;
        assert(has_op(cs, preference()[i0]));
        let k0 = lemma_first_present(cs, 0);
        crate::laws::lemma_highest_rank_wins(cs, k0);
        lemma_kept_is_first(cs, k0);
        let r = resolve_spec(cs)[0];
        assert forall|i: int, a: int, b: int|
            #![trigger cs[i], preference()[a], preference()[b]]
            0 <= i < cs.len() && 0 <= a < 10 && 0 <= b < 10 && preference()[a] == cs[i].operation
                && preference()[b] == r.operation implies b <= a by {
            lemma_operation_name_at(b, k0);
            if a < k0 {
                assert(has_op(cs, preference()[a]));
            }
        }
    }
}

proof fn lemma_first_index(cs: Seq<CandidateView>, op: Seq<char>, w: int)
    requires
        0 <= w < cs.len(),
        cs[w].operation == op,
    ensures
        exists|j: int|
            0 <= j < cs.len() && (#[trigger] cs[j]).operation == op && forall|k: int|
                0 <= k < j ==> cs[k].operation != op,
    decreases w,
{
    if exists|k: int| 0 <= k < w && cs[k].operation == op {
        let k = choose|k: int| 0 <= k < w && cs[k].operation == op;
        lemma_first_index(cs, op, k);
    } else {
        assert(0 <= w < cs.len() && cs[w].operation == op && forall|k: int|
            0 <= k < w ==> cs[k].operation != op);
    }
}

proof fn lemma_kept_is_first(cs: Seq<CandidateView>, k0: int)
    requires
        cs.len() > 1,
        0 <= k0 < 10,
        has_op(cs, priority()[k0]),
        forall|i: int| 0 <= i < k0 ==> !has_op(cs, #[trigger] priority()[i]),
    ensures
        exists|j: int|
            0 <= j < cs.len() && resolve_spec(cs)[0] == cs[j] && forall|i: int|
                0 <= i < j ==> cs[i].operation != cs[j].operation,
{
    let op = priority()[k0];
    crate::laws::lemma_resolve_from_highest(cs, 0, k0);
    assert(resolve_spec(cs) == crate::classify::resolve_from(cs, 0));
    let f = first_with_op(cs, op);
    assert(resolve_spec(cs)[0] == f);
    let w = choose|w: int| 0 <= w < cs.len() && (#[trigger] cs[w]).operation == op;
    lemma_first_index(cs, op, w);
    let j = choose|j: int|
        0 <= j < cs.len() && (#[trigger] cs[j]).operation == op && forall|k: int|
            0 <= k < j ==> cs[k].operation != op;
    assert(f == cs[j]);
    assert(0 <= j < cs.len() && resolve_spec(cs)[0] == cs[j] && forall|i: int|
        0 <= i < j ==> cs[i].operation != cs[j].operation);
}

// ---------------------------------------------------------------------------
// The rules
// ---------------------------------------------------------------------------

/// The text that the rules search: each MIR item up to its first `//`,
/// trimmed, the pieces joined by `" | "`.
pub proof fn lemma_detection_text(items: Seq<Seq<char>>)
    ensures
        detection_spec(items) == join(
            items.map_values(|it: Seq<char>| trimmed(before_first(it, "//"@))),
            " | "@,
        ),
{
    assert(items.map_values(|it: Seq<char>| crate::classify::detection_piece(it)) =~= items.map_values(
        |it: Seq<char>| trimmed(before_first(it, "//"@)),
    ));
}

/// The operations of the rules, in the order in which the rules are tried.
pub open spec fn rule_names() -> Seq<Seq<char>> {
    seq![
        "Allocate"@,
        "Deallocate"@,
        "Drop"@,
        "IntoRaw"@,
        "FromRaw"@,
        "Offset"@,
        "MemCopy"@,
        "SetLen"@,
        "BoundsCheck"@,
        "Deref"@,
    ]
}

/// The first use of `n`, else `d`.
pub open spec fn use0(n: NodeView, d: Seq<char>) -> Seq<char> {
    if n.uses.len() > 0 {
        n.uses[0]
    } else {
        d
    }
}

/// The first definition of `n`, else `d`.
pub open spec fn def0(n: NodeView, d: Seq<char>) -> Seq<char> {
    if n.defs.len() > 0 {
        n.defs[0]
    } else {
        d
    }
}

/// The single operand of a one-operand operation: the first use, else the
/// first definition, else none.
pub open spec fn sole_operand(n: NodeView) -> Seq<Seq<char>> {
    if n.uses.len() > 0 {
        seq![n.uses[0]]
    } else if n.defs.len() > 0 {
        seq![n.defs[0]]
    } else {
        seq![]
    }
}

/// Some key of `keys` occurs in `t`.
pub open spec fn any_key(t: Seq<char>, keys: Seq<Seq<char>>) -> bool
    decreases keys.len(),
{
    keys.len() > 0 && (has_substring(t, keys[0]) || any_key(t, keys.drop_first()))
}

proof fn lemma_any_key(t: Seq<char>, keys: Seq<Seq<char>>)
    ensures
        has_any_spec(t, keys) == any_key(t, keys),
    decreases keys.len(),
{
    if keys.len() > 0 {
        let rest = keys.drop_first();
        lemma_any_key(t, rest);
        if has_any_spec(t, keys) && !has_substring(t, keys[0]) {
            let i = choose|i: int| 0 <= i < keys.len() && has_substring(t, #[trigger] keys[i]);
            assert(rest[i - 1] == keys[i]);
        }
        if has_any_spec(t, rest) {
            let i = choose|i: int| 0 <= i < rest.len() && has_substring(t, #[trigger] rest[i]);
            assert(keys[i + 1] == rest[i]);
        }
        if has_substring(t, keys[0]) {
            assert(has_substring(t, keys[0]));
        }
    }
}

/// Rule `k` (in the order of [`rule_names`]) fires on node `n`.
#[verifier::opaque]
pub open spec fn rule_fires(n: NodeView, k: int) -> bool {
    let t = detection_spec(n.mir_items);
    if k == 0 {
        any_key(
            t,
            seq!["::new("@, "::with_capacity("@, "exchange_malloc"@, "alloc::alloc::alloc"@, "slice::<impl ["@],
        )
    } else if k == 1 {
        any_key(t, seq!["drop_in_place"@, "dealloc"@])
    } else if k == 2 {
        has_substring(t, "drop("@) || has_substring(n.snippet, "drop("@)
    } else if k == 3 {
        has_substring(t, "into_raw"@)
    } else if k == 4 {
        any_key(t, seq!["from_raw_parts"@, "from_raw"@])
    } else if k == 5 {
        any_key(
            t,
            seq!["ptr::add"@, "ptr::sub"@, "ptr::offset"@, "wrapping_add"@, "::add("@, "::offset("@],
        )
    } else if k == 6 {
        any_key(t, seq!["copy_nonoverlapping"@, "ptr::copy"@, "ptr::write_bytes"@])
    } else if k == 7 {
        has_substring(t, "set_len"@)
    } else if k == 8 {
        has_substring(t, "BoundsCheck"@) || starts_with(t, "Assert"@)
    } else {
        has_substring(t, "ptr::read"@) || has_substring(t, "(*_"@) || (has_substring(n.snippet, "*"@)
            && has_substring(n.snippet, "unsafe"@))
    }
}

/// The candidate that rule `k` proposes for node `n`.
#[verifier::opaque]
pub open spec fn rule_candidate(n: NodeView, k: int) -> CandidateView {
    let (category, operands, required): (Seq<char>, Seq<Seq<char>>, nat) = if k == 0 {
        ("Mem"@, seq![def0(n, use0(n, "_v"@)), "UnknownType"@], 1)
    } else if k == 1 {
        ("Mem"@, sole_operand(n), 1)
    } else if k == 2 {
        ("Own"@, sole_operand(n), 1)
    } else if k == 3 {
        ("Own"@, seq![use0(n, "_v"@), def0(n, "_p"@)], 2)
    } else if k == 4 {
        ("Own"@, seq![use0(n, "_p"@), def0(n, "_v"@)], 2)
    } else if k == 5 {
        ("Ptr"@, seq![use0(n, "_p"@), "_n"@, def0(n, "_q"@)], 2)
    } else if k == 6 {
        (
            "Mem"@,
            seq![use0(n, "_dst"@), if n.uses.len() > 1 { n.uses[1] } else { "_src"@ }, "_n"@],
            2,
        )
    } else if k == 7 {
        ("Mem"@, seq![use0(n, "_v"@), "_n"@], 1)
    } else if k == 8 {
        ("Check"@, seq![use0(n, "_v"@), "_idx"@], 1)
    } else {
        ("Ptr"@, sole_operand(n), 1)
    };
    CandidateView {
        category,
        operation: rule_names()[k],
        operands,
        required_operands: required,
        evidence: join(n.mir_items, " | "@),
    }
}

/// The candidates of the first `m` rules that fire, in rule order.
pub open spec fn fired(n: NodeView, m: int) -> Seq<CandidateView>
    decreases m,
{
    if m <= 0 {
        seq![]
    } else if rule_fires(n, m - 1) {
        fired(n, m - 1).push(rule_candidate(n, m - 1))
    } else {
        fired(n, m - 1)
    }
}

/// The rule names are different from each other.
proof fn lemma_rule_name_at(a: int, b: int)
    requires
        0 <= a < 10,
        0 <= b < 10,
        rule_names()[a] == rule_names()[b],
    ensures
        a == b,
{
    let perm = seq![8int, 7, 9, 1, 0, 5, 2, 3, 4, 6];
    assert forall|k: int| 0 <= k < 10 implies rule_names()[k] == preference()[#[trigger] perm[k]] by {}
    lemma_operation_name_at(perm[a], perm[b]);
}

/// The candidate of rule `k` has the operation of rule `k`.
proof fn lemma_candidate_name(n: NodeView, k: int)
    ensures
        rule_candidate(n, k).operation == rule_names()[k],
{
    reveal(rule_candidate);
}

/// What rule `k` adds.
pub open spec fn piece(n: NodeView, k: int) -> Seq<CandidateView> {
    if rule_fires(n, k) {
        seq![rule_candidate(n, k)]
    } else {
        seq![]
    }
}

proof fn lemma_keys(t: Seq<char>)
    ensures
        has_any_spec(t, crate::classify::allocate_keys()) == any_key(
            t,
            seq!["::new("@, "::with_capacity("@, "exchange_malloc"@, "alloc::alloc::alloc"@, "slice::<impl ["@],
        ),
        has_any_spec(t, crate::classify::deallocate_keys()) == any_key(
            t,
            seq!["drop_in_place"@, "dealloc"@],
        ),
        has_any_spec(t, crate::classify::from_raw_keys()) == any_key(
            t,
            seq!["from_raw_parts"@, "from_raw"@],
        ),
        has_any_spec(t, crate::classify::offset_keys()) == any_key(
            t,
            seq!["ptr::add"@, "ptr::sub"@, "ptr::offset"@, "wrapping_add"@, "::add("@, "::offset("@],
        ),
        has_any_spec(t, crate::classify::mem_copy_keys()) == any_key(
            t,
            seq!["copy_nonoverlapping"@, "ptr::copy"@, "ptr::write_bytes"@],
        ),
{
    lemma_any_key(t, crate::classify::allocate_keys());
    lemma_any_key(t, crate::classify::deallocate_keys());
    lemma_any_key(t, crate::classify::from_raw_keys());
    lemma_any_key(t, crate::classify::offset_keys());
    lemma_any_key(t, crate::classify::mem_copy_keys());
}

proof fn lemma_pieces_a(n: NodeView)
    ensures
        crate::classify::allocate_rule(n, detection_spec(n.mir_items)) == piece(n, 0),
        crate::classify::deallocate_rule(n, detection_spec(n.mir_items)) == piece(n, 1),
        crate::classify::drop_rule(n, detection_spec(n.mir_items)) == piece(n, 2),
        crate::classify::into_raw_rule(n, detection_spec(n.mir_items)) == piece(n, 3),
        crate::classify::from_raw_rule(n, detection_spec(n.mir_items)) == piece(n, 4),
{
    reveal(rule_fires);
    reveal(rule_candidate);
    assert(crate::classify::one_operand_spec(n) =~= sole_operand(n));
    let t = detection_spec(n.mir_items);
    lemma_keys(t);
    assert(crate::classify::allocate_rule(n, t) =~= piece(n, 0));
    assert(crate::classify::deallocate_rule(n, t) =~= piece(n, 1));
    assert(crate::classify::drop_rule(n, t) =~= piece(n, 2));
    assert(crate::classify::into_raw_rule(n, t) =~= piece(n, 3));
    assert(crate::classify::from_raw_rule(n, t) =~= piece(n, 4));
}

proof fn lemma_pieces_b(n: NodeView)
    ensures
        crate::classify::offset_rule(n, detection_spec(n.mir_items)) == piece(n, 5),
        crate::classify::mem_copy_rule(n, detection_spec(n.mir_items)) == piece(n, 6),
        crate::classify::set_len_rule(n, detection_spec(n.mir_items)) == piece(n, 7),
        crate::classify::bounds_check_rule(n, detection_spec(n.mir_items)) == piece(n, 8),
        crate::classify::deref_rule(n, detection_spec(n.mir_items)) == piece(n, 9),
{
    reveal(rule_fires);
    reveal(rule_candidate);
    assert(crate::classify::one_operand_spec(n) =~= sole_operand(n));
    let t = detection_spec(n.mir_items);
    lemma_keys(t);
    assert(crate::classify::offset_rule(n, t) =~= piece(n, 5));
    assert(crate::classify::mem_copy_rule(n, t) =~= piece(n, 6));
    assert(crate::classify::set_len_rule(n, t) =~= piece(n, 7));
    assert(crate::classify::bounds_check_rule(n, t) =~= piece(n, 8));
    assert(crate::classify::deref_rule(n, t) =~= piece(n, 9));
}

proof fn lemma_fired_step(n: NodeView, m: int)
    requires
        0 < m,
    ensures
        fired(n, m) == fired(n, m - 1) + piece(n, m - 1),
{
    assert(fired(n, m) =~= fired(n, m - 1) + piece(n, m - 1));
}

proof fn lemma_infer_is_fired(n: NodeView)
    ensures
        infer_spec(n) == fired(n, 10),
{
    lemma_pieces_a(n);
    lemma_pieces_b(n);
    assert(fired(n, 0) =~= Seq::<CandidateView>::empty());
    lemma_fired_step(n, 1);
    lemma_fired_step(n, 2);
    lemma_fired_step(n, 3);
    lemma_fired_step(n, 4);
    lemma_fired_step(n, 5);
    lemma_fired_step(n, 6);
    lemma_fired_step(n, 7);
    lemma_fired_step(n, 8);
    lemma_fired_step(n, 9);
    lemma_fired_step(n, 10);
    assert(fired(n, 1) =~= piece(n, 0));
}

proof fn lemma_fired(n: NodeView, m: int) -> (ks: Seq<int>)
    requires
        0 <= m <= 10,
    ensures
        ks.len() == fired(n, m).len(),
        forall|j: int| 0 <= j < ks.len() ==> 0 <= #[trigger] ks[j] < m,
        forall|j: int| 0 <= j < ks.len() ==> rule_fires(n, #[trigger] ks[j]),
        forall|j: int| 0 <= j < ks.len() ==> #[trigger] fired(n, m)[j] == rule_candidate(n, ks[j]),
        forall|i: int, j: int| 0 <= i < j < ks.len() ==> #[trigger] ks[i] < #[trigger] ks[j],
        forall|k: int| 0 <= k < m && #[trigger] rule_fires(n, k) ==> ks.contains(k),
    decreases m,
{
    if m == 0 {
        seq![]
    } else {
        let p = lemma_fired(n, m - 1);
        if rule_fires(n, m - 1) {
            let ks = p.push(m - 1);
            assert(fired(n, m) == fired(n, m - 1).push(rule_candidate(n, m - 1)));
            assert forall|j: int| 0 <= j < ks.len() implies #[trigger] fired(n, m)[j] == rule_candidate(n, ks[j]) by {
                if j < p.len() {
                    assert(fired(n, m)[j] == fired(n, m - 1)[j]);
                }
            }
            assert forall|k: int| 0 <= k < m && #[trigger] rule_fires(n, k) implies ks.contains(k) by {
                if k < m - 1 {
                    let j = choose|j: int| 0 <= j < p.len() && p[j] == k;
                    assert(ks[j] == k);
                } else {
                    assert(ks[p.len() as int] == k);
                }
            }
            ks
        } else {
            assert(fired(n, m) == fired(n, m - 1));
            p
        }
    }
}

/// The candidates of the rules that fire, in rule order.
/// The rules, stated with their literal keys: the candidates of a node are
/// those of the rules that fire on it, one per rule, in rule order. The
/// returned `ks` names, for each candidate, the rule (its position in
/// [`rule_names`]) that proposed it.
pub proof fn lemma_rules(n: NodeView) -> (ks: Seq<int>)
    ensures
        ks.len() == infer_spec(n).len(),
        forall|j: int| 0 <= j < ks.len() ==> 0 <= #[trigger] ks[j] < 10,
        forall|j: int| 0 <= j < ks.len() ==> rule_fires(n, #[trigger] ks[j]),
        forall|j: int| 0 <= j < ks.len() ==> #[trigger] infer_spec(n)[j] == rule_candidate(n, ks[j]),
        forall|i: int, j: int| 0 <= i < j < ks.len() ==> #[trigger] ks[i] < #[trigger] ks[j],
        forall|k: int| 0 <= k < 10 && #[trigger] rule_fires(n, k) ==> ks.contains(k),
{
    lemma_infer_is_fired(n);
    lemma_fired(n, 10)
}

/// A node whose MIR text calls `::add(` (a pointer's `add`) gets the
/// `Offset` candidate: base pointer, `_n`, result.
pub proof fn lemma_add_call_is_offset(n: NodeView)
    requires
        has_substring(detection_spec(n.mir_items), "::add("@),
    ensures
        exists|j: int|
            0 <= j < infer_spec(n).len() && infer_spec(n)[j] == (CandidateView {
                category: "Ptr"@,
                operation: "Offset"@,
                operands: seq![use0(n, "_p"@), "_n"@, def0(n, "_q"@)],
                required_operands: 2,
                evidence: join(n.mir_items, " | "@),
            }),
{
    let keys = seq!["ptr::add"@, "ptr::sub"@, "ptr::offset"@, "wrapping_add"@, "::add("@, "::offset("@];
    let t = detection_spec(n.mir_items);
    assert(has_substring(t, keys[4]));
    lemma_any_key(t, keys);
    assert(has_any_spec(t, keys));
    assert(rule_fires(n, 5)) by {
        reveal(rule_fires);
    }
    let ks = lemma_rules(n);
    assert(ks.contains(5));
    let j = choose|j: int| 0 <= j < ks.len() && ks[j] == 5;
    assert(infer_spec(n)[j] == rule_candidate(n, 5));
    assert(rule_candidate(n, 5) == (CandidateView {
        category: "Ptr"@,
        operation: "Offset"@,
        operands: seq![use0(n, "_p"@), "_n"@, def0(n, "_q"@)],
        required_operands: 2,
        evidence: join(n.mir_items, " | "@),
    })) by {
        reveal(rule_candidate);
    }
}

// ---------------------------------------------------------------------------
// Classification of a node
// ---------------------------------------------------------------------------

/// The context of an operation at `n`: `Unsafe` exactly when its source line
/// says `unsafe`.
pub open spec fn context_at(n: NodeView) -> Seq<char> {
    if has_substring(n.snippet, "unsafe"@) {
        "Unsafe"@
    } else {
        "Normal"@
    }
}

/// The node touches memory: its source line says `unsafe`, or its MIR text
/// drops, deallocates, copies raw memory, converts to or from a raw pointer,
/// or reads through one.
pub open spec fn touches_memory(n: NodeView) -> bool {
    let t = detection_spec(n.mir_items);
    ||| has_substring(n.snippet, "unsafe"@)
    ||| has_substring(t, "drop("@)
    ||| has_substring(t, "dealloc"@)
    ||| has_substring(t, "copy_nonoverlapping"@)
    ||| has_substring(t, "into_raw"@)
    ||| has_substring(t, "from_raw"@)
    ||| has_substring(t, "ptr::read"@)
}

/// What one node adds, after `acc`: the operation of its single resolved
/// candidate when that has enough operands, numbered after the earlier
/// operations, with the node's step, span and function, and the context
/// `Unsafe` exactly when the node's source line says `unsafe`; a hole
/// `insufficient_operands` when the candidate lacks operands; a hole
/// `memory_sensitive_but_no_high_confidence_rule` when no rule matched a node
/// that touches memory; otherwise nothing.
pub proof fn lemma_node_outcome(n: NodeView, acc: (Seq<OpView>, Seq<HoleView>))
    ensures
        ({
            let cs = resolve_spec(infer_spec(n));
            let r = classify_step(n, acc);
            &&& cs.len() == 1 && cs[0].required_operands <= cs[0].operands.len() ==> {
                &&& r.1 == acc.1
                &&& r.0 == acc.0.push(
                    OpView {
                        id: "op_"@ + decimal((acc.0.len() + 1) as nat),
                        step_id: n.step_id,
                        category: cs[0].category,
                        operation: cs[0].operation,
                        operands: cs[0].operands,
                        context: context_at(n),
                        span: n.span,
                        function: n.function,
                        evidence: cs[0].evidence,
                    },
                )
            }
            &&& cs.len() == 1 && cs[0].required_operands > cs[0].operands.len() ==> {
                &&& r.0 == acc.0
                &&& r.1 == acc.1.push(
                    HoleView {
                        id: "hole_op_"@ + decimal((acc.1.len() + 1) as nat),
                        step_id: n.step_id,
                        kind: "OpHole"@,
                        reason: "insufficient_operands"@,
                        span: n.span,
                        function: n.function,
                        evidence: cs[0].evidence,
                    },
                )
            }
            &&& cs.len() == 0 && touches_memory(n) ==> {
                &&& r.0 == acc.0
                &&& r.1 == acc.1.push(
                    HoleView {
                        id: "hole_op_"@ + decimal((acc.1.len() + 1) as nat),
                        step_id: n.step_id,
                        kind: "OpHole"@,
                        reason: "memory_sensitive_but_no_high_confidence_rule"@,
                        span: n.span,
                        function: n.function,
                        evidence: if n.mir_items.len() > 0 {
                            n.mir_items[0]
                        } else {
                            n.snippet
                        },
                    },
                )
            }
            &&& cs.len() == 0 && !touches_memory(n) ==> r == acc
            &&& cs.len() > 1 ==> {
                &&& r.0 == acc.0
                &&& r.1 == acc.1.push(
                    HoleView {
                        id: "hole_op_"@ + decimal((acc.1.len() + 1) as nat),
                        step_id: n.step_id,
                        kind: "OpHole"@,
                        reason: "ambiguous_rule_match"@,
                        span: n.span,
                        function: n.function,
                        evidence: "candidates="@ + decimal(cs.len()),
                    },
                )
            }
        }),
{
}

/// The nodes are classified one after the other, from the first: nothing
/// for no nodes, and one more step for one more node.
pub proof fn lemma_classify_in_order(nodes: Seq<NodeView>, n: NodeView)
    ensures
        classify_spec(Seq::empty()) == (Seq::<OpView>::empty(), Seq::<HoleView>::empty()),
        classify_spec(nodes.push(n)) == classify_step(n, classify_spec(nodes)),
{
    assert(nodes.push(n).drop_last() =~= nodes);
}

/// Every operation comes from one of the nodes: it has that node's step,
/// span and function, and the context `Unsafe` exactly when the node's
/// source line says `unsafe`.
pub proof fn lemma_ops_from_nodes(nodes: Seq<NodeView>)
    ensures
        forall|i: int|
            #![trigger classify_spec(nodes).0[i]]
            0 <= i < classify_spec(nodes).0.len() ==> exists|k: int|
                #![trigger nodes[k]]
                0 <= k < nodes.len() && classify_spec(nodes).0[i].step_id == nodes[k].step_id
                    && classify_spec(nodes).0[i].span == nodes[k].span
                    && classify_spec(nodes).0[i].function == nodes[k].function
                    && classify_spec(nodes).0[i].context == context_at(nodes[k]),
    decreases nodes.len(),
{
    if nodes.len() > 0 {
        let p = nodes.drop_last();
        let n = nodes.last();
        lemma_ops_from_nodes(p);
        lemma_classify_in_order(p, n);
        assert(p.push(n) =~= nodes);
        let acc = classify_spec(p);
        lemma_node_outcome(n, acc);
        let r = classify_spec(nodes);
        assert forall|i: int|
            #![trigger r.0[i]]
            0 <= i < r.0.len() implies exists|k: int|
                #![trigger nodes[k]]
                0 <= k < nodes.len() && r.0[i].step_id == nodes[k].step_id && r.0[i].span
                    == nodes[k].span && r.0[i].function == nodes[k].function && r.0[i].context
                    == context_at(nodes[k]) by {
            if i < acc.0.len() {
                assert(r.0[i] == acc.0[i]);
                let k = choose|k: int|
                    #![trigger p[k]]
                    0 <= k < p.len() && acc.0[i].step_id == p[k].step_id && acc.0[i].span
                        == p[k].span && acc.0[i].function == p[k].function && acc.0[i].context
                        == context_at(p[k]);
                assert(nodes[k] == p[k]);
            } else {
                assert(nodes[nodes.len() - 1] == n);
            }
        }
    }
}

// ---------------------------------------------------------------------------
// Edges
// ---------------------------------------------------------------------------

/// The order edge between neighbouring nodes `a` and `b`.
pub open spec fn order_edge(a: u32, b: u32) -> EdgeView {
    EdgeView {
        from: a,
        to: b,
        edge_type: "TemporalDep"@,
        evidence: "node-order: "@ + decimal(a as nat) + " -> "@ + decimal(b as nat),
    }
}

/// The data edge of a use of `u` at node `to` on its definition at `from`.
pub open spec fn use_def_edge(from: u32, to: u32, u: Seq<char>) -> EdgeView {
    EdgeView {
        from,
        to,
        edge_type: "DataDep"@,
        evidence: "def("@ + u + ")@"@ + decimal(from as nat) + " -> use("@ + u + ")@"@ + decimal(
            to as nat,
        ),
    }
}

/// The two kinds of edge carry these texts.
pub proof fn lemma_edge_texts(a: u32, b: u32, u: Seq<char>)
    ensures
        temporal_edge(a, b) == order_edge(a, b),
        data_edge(a, b, u) == use_def_edge(a, b, u),
{
}

/// The definition that a use at node `k` depends on: node `j` before `k`
/// defines `u` and no node between them does; there is none when no node
/// before `k` defines `u`.
pub proof fn lemma_last_definition(nodes: Seq<NodeView>, k: int, u: Seq<char>)
    requires
        0 <= k <= nodes.len(),
    ensures
        forall|j: int|
            #![trigger nodes[j].defs.contains(u)]
            0 <= j < k && nodes[j].defs.contains(u) && (forall|m: int|
                j < m < k ==> !(#[trigger] nodes[m].defs.contains(u))) ==> last_def(nodes, k, u)
                == Some(nodes[j].id),
        (forall|j: int| 0 <= j < k ==> !(#[trigger] nodes[j].defs.contains(u))) ==> last_def(
            nodes,
            k,
            u,
        ) is None,
    decreases k,
{
    if k > 0 {
        lemma_last_definition(nodes, k - 1, u);
    }
}

proof fn lemma_temporal_at(nodes: Seq<NodeView>, k: int)
    requires
        1 <= k <= nodes.len(),
    ensures
        temporal_candidates(nodes, k).len() == k - 1,
        forall|i: int|
            0 <= i < k - 1 ==> #[trigger] temporal_candidates(nodes, k)[i] == temporal_edge(
                nodes[i].id,
                nodes[i + 1].id,
            ),
    decreases k,
{
    if k > 1 {
        lemma_temporal_at(nodes, k - 1);
    }
}

/// Every two neighbouring nodes are joined by an order edge from the first
/// to the second.
pub proof fn lemma_neighbours_joined(nodes: Seq<NodeView>)
    ensures
        forall|i: int|
            0 <= i && i + 1 < nodes.len() ==> edges_spec(nodes).contains(
                order_edge(#[trigger] nodes[i].id, nodes[i + 1].id),
            ),
{
    crate::laws::lemma_edges_complete(nodes);
    if nodes.len() > 0 {
        lemma_temporal_at(nodes, nodes.len() as int);
    }
    assert forall|i: int| 0 <= i && i + 1 < nodes.len() implies edges_spec(nodes).contains(
        order_edge(#[trigger] nodes[i].id, nodes[i + 1].id),
    ) by {
        let t = temporal_candidates(nodes, nodes.len() as int);
        assert(t[i] == temporal_edge(nodes[i].id, nodes[i + 1].id));
        lemma_edge_texts(nodes[i].id, nodes[i + 1].id, seq![]);
    }
}

proof fn lemma_use_edges_grow(nodes: Seq<NodeView>, k: int, j1: int, j2: int)
    requires
        0 <= k < nodes.len(),
        0 <= j1 <= j2 <= nodes[k].uses.len(),
    ensures
        forall|e: EdgeView| use_edges(nodes, k, j1).contains(e) ==> use_edges(nodes, k, j2).contains(e),
    decreases j2 - j1,
{
    if j1 < j2 {
        lemma_use_edges_grow(nodes, k, j1, j2 - 1);
        let a = use_edges(nodes, k, j2 - 1);
        let b = use_edges(nodes, k, j2);
        assert forall|e: EdgeView| a.contains(e) implies b.contains(e) by {
            let i = choose|i: int| 0 <= i < a.len() && a[i] == e;
            assert(b[i] == (a + (b.subrange(a.len() as int, b.len() as int)))[i]);
            assert(b =~= a + b.subrange(a.len() as int, b.len() as int));
        }
    }
}

proof fn lemma_data_candidates_grow(nodes: Seq<NodeView>, k1: int, k2: int)
    requires
        0 <= k1 <= k2 <= nodes.len(),
    ensures
        forall|e: EdgeView| data_candidates(nodes, k1).contains(e) ==> data_candidates(nodes, k2).contains(e),
    decreases k2 - k1,
{
    if k1 < k2 {
        lemma_data_candidates_grow(nodes, k1, k2 - 1);
        let a = data_candidates(nodes, k2 - 1);
        let b = data_candidates(nodes, k2);
        assert forall|e: EdgeView| a.contains(e) implies b.contains(e) by {
            let i = choose|i: int| 0 <= i < a.len() && a[i] == e;
            assert(b[i] == a[i]);
        }
    }
}

/// A use of `u` at node `k` whose definition is at an earlier node `j` (no
/// node between them defining `u`), of another id, gives a data edge from
/// `j` to `k`.
pub proof fn lemma_uses_joined(nodes: Seq<NodeView>, k: int, q: int, j: int)
    requires
        0 <= j < k < nodes.len(),
        0 <= q < nodes[k].uses.len(),
        nodes[j].defs.contains(nodes[k].uses[q]),
        forall|m: int| j < m < k ==> !(#[trigger] nodes[m].defs.contains(nodes[k].uses[q])),
        nodes[j].id != nodes[k].id,
    ensures
        edges_spec(nodes).contains(use_def_edge(nodes[j].id, nodes[k].id, nodes[k].uses[q])),
{
    let u = nodes[k].uses[q];
    lemma_last_definition(nodes, k, u);
    assert(last_def(nodes, k, u) == Some(nodes[j].id));
    let e = data_edge(nodes[j].id, nodes[k].id, u);
    let pre = use_edges(nodes, k, q);
    assert(use_edges(nodes, k, q + 1) == pre + seq![e]);
    assert(use_edges(nodes, k, q + 1)[pre.len() as int] == e);
    lemma_use_edges_grow(nodes, k, q + 1, nodes[k].uses.len() as int);
    let full = use_edges(nodes, k, nodes[k].uses.len() as int);
    assert(full.contains(e));
    let d1 = data_candidates(nodes, k + 1);
    assert(d1 == data_candidates(nodes, k) + full);
    let i = choose|i: int| 0 <= i < full.len() && full[i] == e;
    assert(d1[data_candidates(nodes, k).len() + i] == e);
    lemma_data_candidates_grow(nodes, k + 1, nodes.len() as int);
    let d = data_candidates(nodes, nodes.len() as int);
    assert(d.contains(e));
    crate::laws::lemma_edges_complete(nodes);
    let x = choose|x: int| 0 <= x < d.len() && d[x] == e;
    assert(edges_spec(nodes).contains(d[x]));
    lemma_edge_texts(nodes[j].id, nodes[k].id, u);
}

// ---------------------------------------------------------------------------
// The cargo subcommand
// ---------------------------------------------------------------------------

/// `name` is one of the arguments, and no `--` comes before it.
pub open spec fn flag_given(args: Seq<Seq<char>>, name: Seq<char>) -> bool {
    exists|i: int|
        0 <= i < args.len() && #[trigger] args[i] == name && forall|j: int|
            0 <= j < i ==> args[j] != "--"@
}

/// A flag counts when it comes before the first `--`.
pub proof fn lemma_flag_given(args: Seq<Seq<char>>, name: Seq<char>)
    requires
        name != "--"@,
    ensures
        has_arg_flag_spec(args, name) == flag_given(args, name),
    decreases args.len(),
{
    if args.len() > 0 {
        let rest = args.drop_first();
        lemma_flag_given(rest, name);
        if args[0] == "--"@ {
            assert(before_dashes(args) =~= Seq::<Seq<char>>::empty());
            if flag_given(args, name) {
                let i = choose|i: int|
                    0 <= i < args.len() && #[trigger] args[i] == name && forall|j: int|
                        0 <= j < i ==> args[j] != "--"@;
                assert(i != 0);
                assert(args[0] != "--"@);
            }
        } else {
            assert(before_dashes(args) == seq![args[0]] + before_dashes(rest));
            if flag_given(args, name) {
                let i = choose|i: int|
                    0 <= i < args.len() && #[trigger] args[i] == name && forall|j: int|
                        0 <= j < i ==> args[j] != "--"@;
                if i == 0 {
                    assert(before_dashes(args)[0] == name);
                } else {
                    assert(rest[i - 1] == name);
                    assert forall|j: int| 0 <= j < i - 1 implies rest[j] != "--"@ by {
                        assert(rest[j] == args[j + 1]);
                    }
                    assert(flag_given(rest, name));
                    assert(before_dashes(rest).contains(name));
                    let k = choose|k: int| 0 <= k < before_dashes(rest).len() && before_dashes(rest)[k] == name;
                    assert(before_dashes(args)[k + 1] == name);
                }
            }
            if has_arg_flag_spec(args, name) {
                let k = choose|k: int| 0 <= k < before_dashes(args).len() && before_dashes(args)[k] == name;
                if args[0] == name {
                    assert(flag_given(args, name)) by {
                        assert(args[0] == name);
                    }
                } else {
                    assert(k != 0);
                    assert(before_dashes(rest)[k - 1] == name);
                    assert(has_arg_flag_spec(rest, name));
                    let i = choose|i: int|
                        0 <= i < rest.len() && #[trigger] rest[i] == name && forall|j: int|
                            0 <= j < i ==> rest[j] != "--"@;
                    assert(args[i + 1] == name);
                    assert forall|j: int| 0 <= j < i + 1 implies args[j] != "--"@ by {
                        if j > 0 {
                            assert(args[j] == rest[j - 1]);
                        }
                    }
                }
            }
        }
    }
}

/// What `cargo mir-public` does: print the usage when `--help` or `-h` comes
/// before any `--`; else print the version when `--version` or `-V` does;
/// else run the analysis when the second argument is `mir-public`; else
/// nothing.
pub proof fn lemma_cargo_decision(args: Seq<Seq<char>>)
    ensures
        flag_given(args, "--help"@) || flag_given(args, "-h"@) ==> cargo_action_spec(args)
            == CargoAction::Help,
        !(flag_given(args, "--help"@) || flag_given(args, "-h"@)) && (flag_given(args, "--version"@)
            || flag_given(args, "-V"@)) ==> cargo_action_spec(args) == CargoAction::Version,
        !(flag_given(args, "--help"@) || flag_given(args, "-h"@)) && !(flag_given(args, "--version"@)
            || flag_given(args, "-V"@)) && args.len() > 1 && args[1] == "mir-public"@
            ==> cargo_action_spec(args) == CargoAction::Analyze,
        !(flag_given(args, "--help"@) || flag_given(args, "-h"@)) && !(flag_given(args, "--version"@)
            || flag_given(args, "-V"@)) && !(args.len() > 1 && args[1] == "mir-public"@)
            ==> cargo_action_spec(args) == CargoAction::Idle,
{
    reveal_strlit("--");
    reveal_strlit("--help");
    reveal_strlit("-h");
    reveal_strlit("--version");
    reveal_strlit("-V");
    assert("--"@.len() == 2 && "--"@[1] == '-');
    assert("--help"@.len() == 6);
    assert("--version"@.len() == 9);
    assert("-h"@[1] == 'h');
    assert("-V"@[1] == 'V');
    assert("--help"@ != "--"@);
    assert("--version"@ != "--"@);
    assert("-h"@ != "--"@);
    assert("-V"@ != "--"@);
    lemma_flag_given(args, "--help"@);
    lemma_flag_given(args, "-h"@);
    lemma_flag_given(args, "--version"@);
    lemma_flag_given(args, "-V"@);
}

} // verus!
