//! Rule-driven recognition of memory-relevant operations at graph nodes.
//!
//! Each node yields at most one operation or one hole: rules propose
//! candidates from the node's MIR text, a fixed priority picks one of them,
//! and whatever cannot be decided with confidence becomes a hole.
use vstd::prelude::*;
use crate::ir::{GraphHole, GraphNode, GraphOp, HoleView, NodeView, OpView, hole_views, node_views, op_views};
use crate::text::{
    before_first, before_first_chars, char_vecs, chars_of, contains_chars, decimal, has_substring,
    decimal_chars, join, join_chars, push_all, starts_with, starts_with_chars, str_contains,
    string_from_chars, strs,
    trim_chars, trimmed,
};

verus! {

broadcast use vstd::string::group_string_axioms;

/// An operation that one rule proposes for a node.
#[derive(Debug, Clone)]
pub struct OpCandidate {
    pub category: String,
    pub operation: String,
    pub operands: Vec<String>,
    pub required_operands: usize,
    pub evidence: String,
}

/// The view of an [`OpCandidate`].
pub struct CandidateView {
    pub category: Seq<char>,
    pub operation: Seq<char>,
    pub operands: Seq<Seq<char>>,
    pub required_operands: nat,
    pub evidence: Seq<char>,
}

impl View for OpCandidate {
    type V = CandidateView;

    open spec fn view(&self) -> CandidateView {
        CandidateView {
            category: self.category@,
            operation: self.operation@,
            operands: strs(self.operands@),
            required_operands: self.required_operands as nat,
            evidence: self.evidence@,
        }
    }
}

/// The views of a sequence of candidates.
pub open spec fn candidate_views(s: Seq<OpCandidate>) -> Seq<CandidateView> {
    s.map_values(|c: OpCandidate| c@)
}

// ---------------------------------------------------------------------------
// Specification
// ---------------------------------------------------------------------------

/// One MIR item as the rules read it: the text before any `//` comment,
/// trimmed.
pub open spec fn detection_piece(item: Seq<char>) -> Seq<char> {
    trimmed(before_first(item, "//"@))
}

/// The text that the rules search: the pieces of all items, joined by `" | "`.
pub open spec fn detection_spec(items: Seq<Seq<char>>) -> Seq<char> {
    join(items.map_values(|it: Seq<char>| detection_piece(it)), " | "@)
}

/// Some key occurs in `text`.
pub open spec fn has_any_spec(text: Seq<char>, keys: Seq<Seq<char>>) -> bool {
    exists|i: int| 0 <= i < keys.len() && has_substring(text, #[trigger] keys[i])
}

/// The first element of `s`, or `d` when `s` is empty.
pub open spec fn first_or(s: Seq<Seq<char>>, d: Seq<char>) -> Seq<char> {
    if s.len() > 0 {
        s[0]
    } else {
        d
    }
}

/// The second element of `s`, or `d` when there is none.
pub open spec fn second_or(s: Seq<Seq<char>>, d: Seq<char>) -> Seq<char> {
    if s.len() > 1 {
        s[1]
    } else {
        d
    }
}

/// The operand of a one-operand operation: the first use, else the first
/// definition, else none.
pub open spec fn one_operand_spec(n: NodeView) -> Seq<Seq<char>> {
    if n.uses.len() > 0 {
        seq![n.uses[0]]
    } else if n.defs.len() > 0 {
        seq![n.defs[0]]
    } else {
        Seq::empty()
    }
}

/// The node's MIR items joined by `" | "`: the evidence of every candidate.
pub open spec fn evidence_spec(n: NodeView) -> Seq<char> {
    join(n.mir_items, " | "@)
}

/// The candidate of `operation` with `operands` at node `n`.
pub open spec fn cand(
    n: NodeView,
    category: Seq<char>,
    operation: Seq<char>,
    operands: Seq<Seq<char>>,
    required: nat,
) -> CandidateView {
    CandidateView {
        category,
        operation,
        operands,
        required_operands: required,
        evidence: evidence_spec(n),
    }
}

/// `c` when `b` holds, else nothing.
pub open spec fn proposed_if(b: bool, c: CandidateView) -> Seq<CandidateView> {
    if b {
        seq![c]
    } else {
        Seq::empty()
    }
}

pub open spec fn allocate_keys() -> Seq<Seq<char>> {
    seq!["::new("@, "::with_capacity("@, "exchange_malloc"@, "alloc::alloc::alloc"@, "slice::<impl ["@]
}

pub open spec fn deallocate_keys() -> Seq<Seq<char>> {
    seq!["drop_in_place"@, "dealloc"@]
}

pub open spec fn from_raw_keys() -> Seq<Seq<char>> {
    seq!["from_raw_parts"@, "from_raw"@]
}

pub open spec fn offset_keys() -> Seq<Seq<char>> {
    seq!["ptr::add"@, "ptr::sub"@, "ptr::offset"@, "wrapping_add"@, "::add("@, "::offset("@]
}

pub open spec fn mem_copy_keys() -> Seq<Seq<char>> {
    seq!["copy_nonoverlapping"@, "ptr::copy"@, "ptr::write_bytes"@]
}

/// Allocation: a constructor, `with_capacity`, or an allocator call.
pub open spec fn allocate_rule(n: NodeView, t: Seq<char>) -> Seq<CandidateView> {
    proposed_if(
        has_any_spec(t, allocate_keys()),
        cand(
            n,
            "Mem"@,
            "Allocate"@,
            seq![first_or(n.defs, first_or(n.uses, "_v"@)), "UnknownType"@],
            1,
        ),
    )
}

/// Deallocation: `drop_in_place` or `dealloc`.
pub open spec fn deallocate_rule(n: NodeView, t: Seq<char>) -> Seq<CandidateView> {
    proposed_if(
        has_any_spec(t, deallocate_keys()),
        cand(n, "Mem"@, "Deallocate"@, one_operand_spec(n), 1),
    )
}

/// An explicit `drop(` in the MIR or in the source line.
pub open spec fn drop_rule(n: NodeView, t: Seq<char>) -> Seq<CandidateView> {
    proposed_if(
        has_substring(t, "drop("@) || has_substring(n.snippet, "drop("@),
        cand(n, "Own"@, "Drop"@, one_operand_spec(n), 1),
    )
}

/// Giving up ownership to a raw pointer.
pub open spec fn into_raw_rule(n: NodeView, t: Seq<char>) -> Seq<CandidateView> {
    proposed_if(
        has_substring(t, "into_raw"@),
        cand(
            n,
            "Own"@,
            "IntoRaw"@,
            seq![first_or(n.uses, "_v"@), first_or(n.defs, "_p"@)],
            2,
        ),
    )
}

/// Taking ownership back from a raw pointer.
pub open spec fn from_raw_rule(n: NodeView, t: Seq<char>) -> Seq<CandidateView> {
    proposed_if(
        has_any_spec(t, from_raw_keys()),
        cand(
            n,
            "Own"@,
            "FromRaw"@,
            seq![first_or(n.uses, "_p"@), first_or(n.defs, "_v"@)],
            2,
        ),
    )
}

/// Pointer arithmetic.
pub open spec fn offset_rule(n: NodeView, t: Seq<char>) -> Seq<CandidateView> {
    proposed_if(
        has_any_spec(t, offset_keys()),
        cand(
            n,
            "Ptr"@,
            "Offset"@,
            seq![first_or(n.uses, "_p"@), "_n"@, first_or(n.defs, "_q"@)],
            2,
        ),
    )
}

/// Raw memory copies and fills.
pub open spec fn mem_copy_rule(n: NodeView, t: Seq<char>) -> Seq<CandidateView> {
    proposed_if(
        has_any_spec(t, mem_copy_keys()),
        cand(
            n,
            "Mem"@,
            "MemCopy"@,
            seq![first_or(n.uses, "_dst"@), second_or(n.uses, "_src"@), "_n"@],
            2,
        ),
    )
}

/// Setting a vector's length by hand.
pub open spec fn set_len_rule(n: NodeView, t: Seq<char>) -> Seq<CandidateView> {
    proposed_if(
        has_substring(t, "set_len"@),
        cand(n, "Mem"@, "SetLen"@, seq![first_or(n.uses, "_v"@), "_n"@], 1),
    )
}

/// A bounds check, or an assertion that opens the text.
pub open spec fn bounds_check_rule(n: NodeView, t: Seq<char>) -> Seq<CandidateView> {
    proposed_if(
        has_substring(t, "BoundsCheck"@) || starts_with(t, "Assert"@),
        cand(n, "Check"@, "BoundsCheck"@, seq![first_or(n.uses, "_v"@), "_idx"@], 1),
    )
}

/// A read through a pointer, or a `*` on an `unsafe` source line.
pub open spec fn deref_rule(n: NodeView, t: Seq<char>) -> Seq<CandidateView> {
    proposed_if(
        has_substring(t, "ptr::read"@) || has_substring(t, "(*_"@) || (has_substring(
            n.snippet,
            "*"@,
        ) && has_substring(n.snippet, "unsafe"@)),
        cand(n, "Ptr"@, "Deref"@, one_operand_spec(n), 1),
    )
}

/// Every candidate the rules propose for `n`, in rule order.
pub open spec fn infer_spec(n: NodeView) -> Seq<CandidateView> {
    let t = detection_spec(n.mir_items);
    allocate_rule(n, t) + deallocate_rule(n, t) + drop_rule(n, t) + into_raw_rule(n, t)
        + from_raw_rule(n, t) + offset_rule(n, t) + mem_copy_rule(n, t) + set_len_rule(n, t)
        + bounds_check_rule(n, t) + deref_rule(n, t)
}

/// The operations in the order in which a conflict is settled.
pub open spec fn priority() -> Seq<Seq<char>> {
    seq![
        "FromRaw"@,
        "IntoRaw"@,
        "MemCopy"@,
        "SetLen"@,
        "BoundsCheck"@,
        "Offset"@,
        "Deref"@,
        "Deallocate"@,
        "Allocate"@,
        "Drop"@,
    ]
}

/// Some candidate of `cs` has operation `op`.
pub open spec fn has_op(cs: Seq<CandidateView>, op: Seq<char>) -> bool {
    exists|j: int| 0 <= j < cs.len() && (#[trigger] cs[j]).operation == op
}

/// The first candidate of `cs` with operation `op`.
pub open spec fn first_with_op(cs: Seq<CandidateView>, op: Seq<char>) -> CandidateView {
    let j = choose|j: int|
        0 <= j < cs.len() && (#[trigger] cs[j]).operation == op && forall|k: int|
            0 <= k < j ==> cs[k].operation != op;
    cs[j]
}

/// Conflict resolution from priority rank `k` on.
pub open spec fn resolve_from(cs: Seq<CandidateView>, k: nat) -> Seq<CandidateView>
    decreases 10 - k,
{
    if k >= 10 {
        cs
    } else if has_op(cs, priority()[k as int]) {
        seq![first_with_op(cs, priority()[k as int])]
    } else {
        resolve_from(cs, k + 1)
    }
}

/// One candidate or none stays as it is; of several, the first one of the
/// highest-ranked operation that occurs is kept.
pub open spec fn resolve_spec(cs: Seq<CandidateView>) -> Seq<CandidateView> {
    if cs.len() <= 1 {
        cs
    } else {
        resolve_from(cs, 0)
    }
}

/// The node touches memory in a way that deserves a hole when no rule fires.
pub open spec fn memory_sensitive_spec(n: NodeView) -> bool {
    let t = detection_spec(n.mir_items);
    ||| has_substring(n.snippet, "unsafe"@)
    ||| has_substring(t, "drop("@)
    ||| has_substring(t, "dealloc"@)
    ||| has_substring(t, "copy_nonoverlapping"@)
    ||| has_substring(t, "into_raw"@)
    ||| has_substring(t, "from_raw"@)
    ||| has_substring(t, "ptr::read"@)
}

/// A hole at node `n`, numbered `seq`.
pub open spec fn hole_at(n: NodeView, seq: nat, reason: Seq<char>, evidence: Seq<char>) -> HoleView {
    HoleView {
        id: "hole_op_"@ + decimal(seq),
        step_id: n.step_id,
        kind: "OpHole"@,
        reason,
        span: n.span,
        function: n.function,
        evidence,
    }
}

/// The context of an operation: `Unsafe` on a source line that says `unsafe`.
pub open spec fn context_spec(n: NodeView) -> Seq<char> {
    if has_substring(n.snippet, "unsafe"@) {
        "Unsafe"@
    } else {
        "Normal"@
    }
}

/// What node `n` adds to the operations and holes found so far.
pub open spec fn classify_step(n: NodeView, acc: (Seq<OpView>, Seq<HoleView>)) -> (
    Seq<OpView>,
    Seq<HoleView>,
) {
    let cs = resolve_spec(infer_spec(n));
    let next_hole = (acc.1.len() + 1) as nat;
    if cs.len() == 0 {
        if memory_sensitive_spec(n) {
            let evidence = if n.mir_items.len() > 0 {
                n.mir_items[0]
            } else {
                n.snippet
            };
            (
                acc.0,
                acc.1.push(
                    hole_at(n, next_hole, "memory_sensitive_but_no_high_confidence_rule"@, evidence),
                ),
            )
        } else {
            acc
        }
    } else if cs.len() == 1 {
        let c = cs[0];
        if c.required_operands > c.operands.len() {
            (acc.0, acc.1.push(hole_at(n, next_hole, "insufficient_operands"@, c.evidence)))
        } else {
            (
                acc.0.push(
                    OpView {
                        id: "op_"@ + decimal((acc.0.len() + 1) as nat),
                        step_id: n.step_id,
                        category: c.category,
                        operation: c.operation,
                        operands: c.operands,
                        context: context_spec(n),
                        span: n.span,
                        function: n.function,
                        evidence: c.evidence,
                    },
                ),
                acc.1,
            )
        }
    } else {
        (
            acc.0,
            acc.1.push(
                hole_at(n, next_hole, "ambiguous_rule_match"@, "candidates="@ + decimal(cs.len())),
            ),
        )
    }
}

/// The operations and holes of a sequence of nodes, visited in order.
pub open spec fn classify_spec(nodes: Seq<NodeView>) -> (Seq<OpView>, Seq<HoleView>)
    decreases nodes.len(),
{
    if nodes.len() == 0 {
        (Seq::empty(), Seq::empty())
    } else {
        classify_step(nodes.last(), classify_spec(nodes.drop_last()))
    }
}

// ---------------------------------------------------------------------------
// Executable rules
// ---------------------------------------------------------------------------

/// A copy of `v`.
pub fn clone_strings(v: &Vec<String>) -> (r: Vec<String>)
    ensures
        r@ == v@,
{
    let mut r: Vec<String> = Vec::new();
    let n = v.len();
    for i in 0..n
        invariant
            n == v@.len(),
            r@ == v@.subrange(0, i as int),
    {
        r.push(v[i].clone());
        assert(r@ =~= v@.subrange(0, i + 1));
    }
    assert(v@.subrange(0, n as int) =~= v@);
    r
}

/// The strings of `items` joined by `sep`.
pub fn join_strings(items: &Vec<String>, sep: &str) -> (r: String)
    ensures
        r@ == join(strs(items@), sep@),
{
    let mut parts: Vec<Vec<char>> = Vec::new();
    let n = items.len();
    for i in 0..n
        invariant
            n == items@.len(),
            parts@.len() == i,
            char_vecs(parts@) == strs(items@).subrange(0, i as int),
    {
        let c = chars_of(items[i].as_str());
        let ghost before = parts@;
        parts.push(c);
        assert(parts@ == before.push(c));
        assert(char_vecs(parts@)[i as int] == strs(items@)[i as int]);
        assert(char_vecs(parts@) =~= strs(items@).subrange(0, i + 1));
    }
    assert(strs(items@).subrange(0, n as int) =~= strs(items@));
    let sc = chars_of(sep);
    let j = join_chars(&parts, &sc);
    string_from_chars(&j)
}

/// The detection text, as characters.
fn detection_chars(items: &[String]) -> (r: Vec<char>)
    ensures
        r@ == detection_spec(strs(items@)),
{
    let comment = chars_of("//");
    let mut pieces: Vec<Vec<char>> = Vec::new();
    let n = items.len();
    let ghost all = strs(items@).map_values(|it: Seq<char>| detection_piece(it));
    for i in 0..n
        invariant
            n == items@.len(),
            comment@ == "//"@,
            all == strs(items@).map_values(|it: Seq<char>| detection_piece(it)),
            pieces@.len() == i,
            char_vecs(pieces@) == all.subrange(0, i as int),
    {
        let ic = chars_of(items[i].as_str());
        let b = before_first_chars(&ic, &comment);
        let p = trim_chars(&b);
        let ghost before = pieces@;
        pieces.push(p);
        assert(pieces@ == before.push(p));
        assert(all[i as int] == detection_piece(items@[i as int]@));
        assert(char_vecs(pieces@)[i as int] == all[i as int]);
        assert(char_vecs(pieces@) =~= all.subrange(0, i + 1));
    }
    assert(all.subrange(0, n as int) =~= all);
    let sep = chars_of(" | ");
    join_chars(&pieces, &sep)
}

/// The text that the rules search: each MIR item up to any `//` comment,
/// trimmed, the pieces joined by `" | "`.
pub fn detection_text(items: &[String]) -> (r: String)
    ensures
        r@ == detection_spec(strs(items@)),
{
    let c = detection_chars(items);
    string_from_chars(&c)
}

/// Some key occurs in `text`.
fn has_any_chars(text: &Vec<char>, keys: &[&str]) -> (r: bool)
    ensures
        r == has_any_spec(text@, keys@.map_values(|k: &str| k@)),
{
    let n = keys.len();
    for i in 0..n
        invariant
            n == keys@.len(),
            forall|j: int| 0 <= j < i ==> !has_substring(text@, #[trigger] keys@[j]@),
    {
        let kc = chars_of(keys[i]);
        if contains_chars(text, &kc) {
            assert(keys@.map_values(|k: &str| k@)[i as int] == keys@[i as int]@);
            return true;
        }
    }
    proof {
        let ks = keys@.map_values(|k: &str| k@);
        assert forall|i: int| 0 <= i < ks.len() implies !has_substring(text@, #[trigger] ks[i]) by {
            assert(ks[i] == keys@[i]@);
        }
    }
    false
}

/// `p` occurs in `text`.
fn has_chars(text: &Vec<char>, p: &str) -> (r: bool)
    ensures
        r == has_substring(text@, p@),
{
    let pc = chars_of(p);
    contains_chars(text, &pc)
}

/// Some key occurs in `text`.
pub fn has_any(text: &str, keys: &[&str]) -> (r: bool)
    ensures
        r == has_any_spec(text@, keys@.map_values(|k: &str| k@)),
{
    let tc = chars_of(text);
    has_any_chars(&tc, keys)
}

/// The first element of `v`, or `d`.
fn first_or_default(v: &Vec<String>, d: &str) -> (r: String)
    ensures
        r@ == first_or(strs(v@), d@),
{
    if v.len() > 0 {
        v[0].clone()
    } else {
        d.to_string()
    }
}

/// The second element of `v`, or `d`.
fn second_or_default(v: &Vec<String>, d: &str) -> (r: String)
    ensures
        r@ == second_or(strs(v@), d@),
{
    if v.len() > 1 {
        v[1].clone()
    } else {
        d.to_string()
    }
}

/// The operand of a one-operand operation: the first use, else the first
/// definition, else none.
pub fn one_operand(node: &GraphNode) -> (r: Vec<String>)
    ensures
        strs(r@) == one_operand_spec(node@),
{
    let mut r: Vec<String> = Vec::new();
    if node.uses.len() > 0 {
        r.push(node.uses[0].clone());
    } else if node.defs.len() > 0 {
        r.push(node.defs[0].clone());
    }
    assert(strs(r@) =~= one_operand_spec(node@));
    r
}

/// Two operands.
fn pair(a: String, b: String) -> (r: Vec<String>)
    ensures
        strs(r@) == seq![a@, b@],
{
    let mut r: Vec<String> = Vec::new();
    r.push(a);
    r.push(b);
    assert(strs(r@) =~= seq![a@, b@]);
    r
}

/// Three operands.
fn triple(a: String, b: String, c: String) -> (r: Vec<String>)
    ensures
        strs(r@) == seq![a@, b@, c@],
{
    let mut r: Vec<String> = Vec::new();
    r.push(a);
    r.push(b);
    r.push(c);
    assert(strs(r@) =~= seq![a@, b@, c@]);
    r
}

/// Appends candidate `c` to `out` when `b` holds.
fn add_when(out: &mut Vec<OpCandidate>, b: bool, c: OpCandidate)
    ensures
        candidate_views(final(out)@) == candidate_views(old(out)@) + proposed_if(b, c@),
{
    let ghost before = out@;
    if b {
        out.push(c);
        assert(out@ == before.push(c));
        assert(candidate_views(out@) =~= candidate_views(before) + proposed_if(b, c@));
    } else {
        assert(candidate_views(out@) =~= candidate_views(before) + proposed_if(b, c@));
    }
}

/// A candidate with the given parts.
fn make_candidate(
    category: &str,
    operation: &str,
    operands: Vec<String>,
    required_operands: usize,
    evidence: &String,
) -> (r: OpCandidate)
    ensures
        r@ == (CandidateView {
            category: category@,
            operation: operation@,
            operands: strs(operands@),
            required_operands: required_operands as nat,
            evidence: evidence@,
        }),
{
    OpCandidate {
        category: category.to_string(),
        operation: operation.to_string(),
        operands,
        required_operands,
        evidence: evidence.clone(),
    }
}

/// Every candidate the rules propose for `node`, in rule order.
pub fn infer_op_candidates(node: &GraphNode) -> (r: Vec<OpCandidate>)
    ensures
        candidate_views(r@) == infer_spec(node@),
{
    let ghost n = node@;
    let t = detection_chars(node.mir_items.as_slice());
    let ghost ts = detection_spec(n.mir_items);
    let ev = join_strings(&node.mir_items, " | ");
    let mut out: Vec<OpCandidate> = Vec::new();
    assert(candidate_views(out@) =~= Seq::<CandidateView>::empty());

    let alloc_keys = ["::new(", "::with_capacity(", "exchange_malloc", "alloc::alloc::alloc", "slice::<impl ["];
    assert(alloc_keys@.map_values(|k: &str| k@) =~= allocate_keys());
    let b = has_any_chars(&t, alloc_keys.as_slice());
    let d0 = first_or_default(&node.uses, "_v");
    let d = if node.defs.len() > 0 { node.defs[0].clone() } else { d0 };
    let c = make_candidate("Mem", "Allocate", pair(d, "UnknownType".to_string()), 1, &ev);
    add_when(&mut out, b, c);
    assert(candidate_views(out@) =~= allocate_rule(n, ts));

    let dealloc_keys = ["drop_in_place", "dealloc"];
    assert(dealloc_keys@.map_values(|k: &str| k@) =~= deallocate_keys());
    let b = has_any_chars(&t, dealloc_keys.as_slice());
    let c = make_candidate("Mem", "Deallocate", one_operand(node), 1, &ev);
    add_when(&mut out, b, c);

    let b = has_chars(&t, "drop(") || str_contains(node.snippet.as_str(), "drop(");
    let c = make_candidate("Own", "Drop", one_operand(node), 1, &ev);
    add_when(&mut out, b, c);
    assert(candidate_views(out@) =~= allocate_rule(n, ts) + deallocate_rule(n, ts) + drop_rule(n, ts));

    let b = has_chars(&t, "into_raw");
    let ops = pair(first_or_default(&node.uses, "_v"), first_or_default(&node.defs, "_p"));
    let c = make_candidate("Own", "IntoRaw", ops, 2, &ev);
    add_when(&mut out, b, c);

    let from_keys = ["from_raw_parts", "from_raw"];
    assert(from_keys@.map_values(|k: &str| k@) =~= from_raw_keys());
    let b = has_any_chars(&t, from_keys.as_slice());
    let ops = pair(first_or_default(&node.uses, "_p"), first_or_default(&node.defs, "_v"));
    let c = make_candidate("Own", "FromRaw", ops, 2, &ev);
    add_when(&mut out, b, c);
    assert(candidate_views(out@) =~= allocate_rule(n, ts) + deallocate_rule(n, ts) + drop_rule(n, ts)
        + into_raw_rule(n, ts) + from_raw_rule(n, ts));

    let off_keys = ["ptr::add", "ptr::sub", "ptr::offset", "wrapping_add", "::add(", "::offset("];
    assert(off_keys@.map_values(|k: &str| k@) =~= offset_keys());
    let b = has_any_chars(&t, off_keys.as_slice());
    let ops = triple(first_or_default(&node.uses, "_p"), "_n".to_string(), first_or_default(&node.defs, "_q"));
    let c = make_candidate("Ptr", "Offset", ops, 2, &ev);
    add_when(&mut out, b, c);

    let copy_keys = ["copy_nonoverlapping", "ptr::copy", "ptr::write_bytes"];
    assert(copy_keys@.map_values(|k: &str| k@) =~= mem_copy_keys());
    let b = has_any_chars(&t, copy_keys.as_slice());
    let ops = triple(first_or_default(&node.uses, "_dst"), second_or_default(&node.uses, "_src"), "_n".to_string());
    let c = make_candidate("Mem", "MemCopy", ops, 2, &ev);
    add_when(&mut out, b, c);
    assert(candidate_views(out@) =~= allocate_rule(n, ts) + deallocate_rule(n, ts) + drop_rule(n, ts)
        + into_raw_rule(n, ts) + from_raw_rule(n, ts) + offset_rule(n, ts) + mem_copy_rule(n, ts));

    let b = has_chars(&t, "set_len");
    let ops = pair(first_or_default(&node.uses, "_v"), "_n".to_string());
    let c = make_candidate("Mem", "SetLen", ops, 1, &ev);
    add_when(&mut out, b, c);

    let assert_word = chars_of("Assert");
    let b = has_chars(&t, "BoundsCheck") || starts_with_chars(&t, &assert_word);
    let ops = pair(first_or_default(&node.uses, "_v"), "_idx".to_string());
    let c = make_candidate("Check", "BoundsCheck", ops, 1, &ev);
    add_when(&mut out, b, c);

    let b = has_chars(&t, "ptr::read") || has_chars(&t, "(*_") || (str_contains(node.snippet.as_str(), "*")
        && str_contains(node.snippet.as_str(), "unsafe"));
    let c = make_candidate("Ptr", "Deref", one_operand(node), 1, &ev);
    add_when(&mut out, b, c);
    assert(candidate_views(out@) =~= infer_spec(n));
    out
}

/// The first candidate with operation `op` is the one at `j`.
proof fn lemma_first_with_op(cs: Seq<CandidateView>, op: Seq<char>, j: int)
    requires
        0 <= j < cs.len(),
        cs[j].operation == op,
        forall|k: int| 0 <= k < j ==> cs[k].operation != op,
    ensures
        has_op(cs, op),
        first_with_op(cs, op) == cs[j],
{
    assert(has_op(cs, op));
    let i = choose|i: int|
        0 <= i < cs.len() && (#[trigger] cs[i]).operation == op && forall|k: int|
            0 <= k < i ==> cs[k].operation != op;
    if i < j {
        assert(cs[i].operation != op);
    }
    if j < i {
        assert(cs[j].operation != op);
    }
}

/// One candidate or none stays as it is; of several, the first one of the
/// highest-ranked operation that occurs is kept.
pub fn resolve_candidates(candidates: Vec<OpCandidate>) -> (r: Vec<OpCandidate>)
    ensures
        candidate_views(r@) == resolve_spec(candidate_views(candidates@)),
{
    if candidates.len() <= 1 {
        return candidates;
    }
    let ghost cv = candidate_views(candidates@);
    let ranking = [
        "FromRaw",
        "IntoRaw",
        "MemCopy",
        "SetLen",
        "BoundsCheck",
        "Offset",
        "Deref",
        "Deallocate",
        "Allocate",
        "Drop",
    ];
    assert(ranking@.map_values(|k: &str| k@) =~= priority());
    let n = candidates.len();
    for k in 0..10
        invariant
            n == candidates@.len(),
            n > 1,
            cv == candidate_views(candidates@),
            ranking@.map_values(|k: &str| k@) == priority(),
            ranking@.len() == 10,
            resolve_spec(cv) == resolve_from(cv, k as nat),
    {
        let op = ranking[k].to_string();
        assert(op@ == priority()[k as int]);
        let mut j: usize = 0;
        while j < n
            invariant
                n == candidates@.len(),
                cv == candidate_views(candidates@),
                j <= n,
                k < 10,
                op@ == priority()[k as int],
                resolve_spec(cv) == resolve_from(cv, k as nat),
                forall|i: int| 0 <= i < j ==> cv[i].operation != op@,
            decreases n - j,
        {
            if candidates[j].operation == op {
                proof {
                    assert(cv[j as int].operation == op@);
                    lemma_first_with_op(cv, op@, j as int);
                }
                let mut cs = candidates;
                let c = cs.remove(j);
                let mut r: Vec<OpCandidate> = Vec::new();
                r.push(c);
                assert(candidate_views(r@) =~= seq![cv[j as int]]);
                return r;
            }
            j = j + 1;
        }
        assert(!has_op(cv, op@));
    }
    candidates
}

/// The node touches memory in a way that deserves a hole when no rule fires.
pub fn looks_memory_sensitive(node: &GraphNode) -> (r: bool)
    ensures
        r == memory_sensitive_spec(node@),
{
    let text = detection_chars(node.mir_items.as_slice());
    str_contains(node.snippet.as_str(), "unsafe") || has_chars(&text, "drop(") || has_chars(
        &text,
        "dealloc",
    ) || has_chars(&text, "copy_nonoverlapping") || has_chars(&text, "into_raw") || has_chars(
        &text,
        "from_raw",
    ) || has_chars(&text, "ptr::read")
}

/// `prefix` followed by the decimal notation of `n`.
pub fn numbered(prefix: &str, n: u128) -> (r: String)
    ensures
        r@ == prefix@ + decimal(n as nat),
{
    let mut v = chars_of(prefix);
    let d = decimal_chars(n);
    push_all(&mut v, &d);
    string_from_chars(&v)
}

/// A hole at `node`.
fn make_hole(node: &GraphNode, seq: u32, reason: &str, evidence: String) -> (h: GraphHole)
    ensures
        h@ == hole_at(node@, seq as nat, reason@, evidence@),
{
    GraphHole {
        id: numbered("hole_op_", seq as u128),
        step_id: node.step_id,
        kind: "OpHole".to_string(),
        reason: reason.to_string(),
        span: node.span.clone(),
        function: node.function.clone(),
        evidence,
    }
}

/// Classifies one node, appending its operation or hole.
fn classify_node(
    node: &GraphNode,
    op_seq: u32,
    hole_seq: u32,
    ops: &mut Vec<GraphOp>,
    holes: &mut Vec<GraphHole>,
)
    requires
        op_seq == old(ops)@.len() + 1,
        hole_seq == old(holes)@.len() + 1,
    ensures
        (op_views(final(ops)@), hole_views(final(holes)@)) == classify_step(
            node@,
            (op_views(old(ops)@), hole_views(old(holes)@)),
        ),
        final(ops)@.len() + final(holes)@.len() <= old(ops)@.len() + old(holes)@.len() + 1,
        final(ops)@.len() >= old(ops)@.len(),
        final(holes)@.len() >= old(holes)@.len(),
{
    let ghost ops0 = ops@;
    let ghost holes0 = holes@;
    let candidates = resolve_candidates(infer_op_candidates(node));
    let ghost cs = resolve_spec(infer_spec(node@));
    assert(candidate_views(candidates@) == cs);
    if candidates.len() == 0 {
        if looks_memory_sensitive(node) {
            let evidence = if node.mir_items.len() > 0 {
                node.mir_items[0].clone()
            } else {
                node.snippet.clone()
            };
            let h = make_hole(node, hole_seq, "memory_sensitive_but_no_high_confidence_rule", evidence);
            holes.push(h);
            assert(hole_views(holes@) =~= hole_views(holes0).push(h@));
        }
    } else if candidates.len() == 1 {
        let cand = &candidates[0];
        assert(cand@ == cs[0]);
        if cand.required_operands > cand.operands.len() {
            let h = make_hole(node, hole_seq, "insufficient_operands", cand.evidence.clone());
            holes.push(h);
            assert(hole_views(holes@) =~= hole_views(holes0).push(h@));
        } else {
            let context = if str_contains(node.snippet.as_str(), "unsafe") {
                "Unsafe".to_string()
            } else {
                "Normal".to_string()
            };
            let op = GraphOp {
                id: numbered("op_", op_seq as u128),
                step_id: node.step_id,
                category: cand.category.clone(),
                operation: cand.operation.clone(),
                operands: clone_strings(&cand.operands),
                context,
                span: node.span.clone(),
                function: node.function.clone(),
                evidence: cand.evidence.clone(),
            };
            ops.push(op);
            assert(op_views(ops@) =~= op_views(ops0).push(op@));
        }
    } else {
        let h = make_hole(
            node,
            hole_seq,
            "ambiguous_rule_match",
            numbered("candidates=", candidates.len() as u128),
        );
        holes.push(h);
        assert(hole_views(holes@) =~= hole_views(holes0).push(h@));
    }
}

/// Classifies every node in order: each yields at most one operation or one
/// hole, numbered in the order found.
pub fn classify_ops(nodes: &[GraphNode]) -> (r: (Vec<GraphOp>, Vec<GraphHole>))
    requires
        nodes@.len() < u32::MAX,
    ensures
        (op_views(r.0@), hole_views(r.1@)) == classify_spec(node_views(nodes@)),
{
    let mut ops: Vec<GraphOp> = Vec::new();
    let mut holes: Vec<GraphHole> = Vec::new();
    let mut op_seq: u32 = 1;
    let mut hole_seq: u32 = 1;
    let n = nodes.len();
    let ghost all = node_views(nodes@);
    assert(op_views(ops@) =~= Seq::<OpView>::empty());
    assert(hole_views(holes@) =~= Seq::<HoleView>::empty());
    assert(all.subrange(0, 0) =~= Seq::<NodeView>::empty());
    for i in 0..n
        invariant
            n == nodes@.len(),
            n < u32::MAX,
            all == node_views(nodes@),
            op_seq == ops@.len() + 1,
            hole_seq == holes@.len() + 1,
            ops@.len() + holes@.len() <= i,
            (op_views(ops@), hole_views(holes@)) == classify_spec(all.subrange(0, i as int)),
    {
        let pre_ops = ops.len();
        let pre_holes = holes.len();
        classify_node(&nodes[i], op_seq, hole_seq, &mut ops, &mut holes);
        if ops.len() > pre_ops {
            op_seq = op_seq + 1;
        }
        if holes.len() > pre_holes {
            hole_seq = hole_seq + 1;
        }
        assert(all.subrange(0, i + 1).drop_last() =~= all.subrange(0, i as int));
        assert(all.subrange(0, i + 1).last() == nodes@[i as int]@);
    }
    assert(all.subrange(0, n as int) =~= all);
    (ops, holes)
}

} // verus!
