//! From MIR line records to GraphIR: nodes per source line, dependence
//! edges, and the classified operations.
use vstd::prelude::*;
use crate::collect::{MirLineRecord, RecordView, record_views};
use crate::classify::{classify_ops, classify_spec};
use crate::ir::{
    EdgeView, GraphEdge, GraphIr, GraphNode, GraphTarget, GraphTrace, NodeView, edge_views,
    hole_views, node_views, op_views,
};
use crate::order::{
    insert_sorted, is_sorted_set, lemma_insert_sorted, lemma_seq_less_irreflexive,
    lemma_seq_less_total, lemma_seq_less_transitive, less_chars, seq_less, sorted_by,
    strict_order, strictly_sorted, to_strings,
};
use crate::text::{
    char_vecs, chars_of, decimal, decimal_chars, push_all, push_str, same_chars,
    string_from_chars, strs,
};

verus! {

broadcast use vstd::string::group_string_axioms;

// ---------------------------------------------------------------------------
// Nodes: one per (function, file, line)
// ---------------------------------------------------------------------------

/// The key by which records are grouped: function, file and line.
pub type LineKey = (Seq<char>, Seq<char>, u32);

/// The key of a record.
pub open spec fn rec_key(r: RecordView) -> LineKey {
    (r.function, r.file, r.line)
}

/// The order of `(String, String, u32)` keys: by function, then file, then
/// line.
pub open spec fn key_less(a: LineKey, b: LineKey) -> bool {
    ||| seq_less(a.0, b.0)
    ||| a.0 == b.0 && seq_less(a.1, b.1)
    ||| a.0 == b.0 && a.1 == b.1 && a.2 < b.2
}

/// `key_less` as a value.
pub open spec fn key_order() -> spec_fn(LineKey, LineKey) -> bool {
    |a: LineKey, b: LineKey| key_less(a, b)
}

/// The keys of all records.
pub open spec fn keys_of(recs: Seq<RecordView>) -> Set<LineKey> {
    recs.map_values(|r: RecordView| rec_key(r)).to_set()
}

/// The records with key `k`, in their order.
pub open spec fn group(recs: Seq<RecordView>, k: LineKey) -> Seq<RecordView>
    decreases recs.len(),
{
    if recs.len() == 0 {
        Seq::empty()
    } else if rec_key(recs.last()) == k {
        group(recs.drop_last(), k).push(recs.last())
    } else {
        group(recs.drop_last(), k)
    }
}

/// The first non-empty source line among the records, or nothing.
pub open spec fn snippet_of(g: Seq<RecordView>) -> Seq<char>
    decreases g.len(),
{
    if g.len() == 0 {
        Seq::empty()
    } else if snippet_of(g.drop_last()).len() == 0 {
        g.last().snippet
    } else {
        snippet_of(g.drop_last())
    }
}

/// The MIR items of all the records, in order.
pub open spec fn items_of(g: Seq<RecordView>) -> Seq<Seq<char>>
    decreases g.len(),
{
    if g.len() == 0 {
        Seq::empty()
    } else {
        items_of(g.drop_last()) + g.last().mir_items
    }
}

/// Every place that some record defines.
pub open spec fn defs_of(g: Seq<RecordView>) -> Set<Seq<char>>
    decreases g.len(),
{
    if g.len() == 0 {
        Set::empty()
    } else {
        defs_of(g.drop_last()).union(g.last().defs.to_set())
    }
}

/// Every place that some record uses.
pub open spec fn uses_of(g: Seq<RecordView>) -> Set<Seq<char>>
    decreases g.len(),
{
    if g.len() == 0 {
        Set::empty()
    } else {
        uses_of(g.drop_last()).union(g.last().uses.to_set())
    }
}

/// The span of a node: `file:line`.
pub open spec fn span_of(k: LineKey) -> Seq<char> {
    k.1 + seq![':'] + decimal(k.2 as nat)
}

/// `n` is node number `i` (from 0), made of the records with key `k`.
pub open spec fn node_matches(n: NodeView, recs: Seq<RecordView>, k: LineKey, i: int) -> bool {
    let g = group(recs, k);
    &&& n.id == i + 1
    &&& n.step_id == i + 1
    &&& n.span == span_of(k)
    &&& n.snippet == snippet_of(g)
    &&& n.function == k.0
    &&& n.depth == 0
    &&& n.mir_items == items_of(g)
    &&& is_sorted_set(n.defs, defs_of(g))
    &&& is_sorted_set(n.uses, uses_of(g))
}

/// `nodes` are what `build_nodes` makes of `recs`: one node per distinct key,
/// in increasing key order, numbered from 1.
pub open spec fn nodes_built_from(recs: Seq<RecordView>, nodes: Seq<NodeView>) -> bool {
    exists|ks: Seq<LineKey>|
        #![trigger sorted_by(ks, key_order())]
        {
            &&& ks.len() == nodes.len()
            &&& sorted_by(ks, key_order())
            &&& ks.to_set() == keys_of(recs)
            &&& forall|i: int| 0 <= i < nodes.len() ==> node_matches(nodes[i], recs, ks[i], i)
        }
}

pub proof fn lemma_key_less_total(a: LineKey, b: LineKey)
    ensures
        key_less(a, b) || a == b || key_less(b, a),
{
    lemma_seq_less_total(a.0, b.0);
    lemma_seq_less_total(a.1, b.1);
}

pub proof fn lemma_key_order_strict()
    ensures
        strict_order(key_order()),
{
    assert forall|x: LineKey| !#[trigger] key_order()(x, x) by {
        lemma_seq_less_irreflexive(x.0);
        lemma_seq_less_irreflexive(x.1);
    }
    assert forall|x: LineKey, y: LineKey, z: LineKey|
        #[trigger] key_order()(x, y) && #[trigger] key_order()(y, z) implies key_order()(x, z) by {
        if seq_less(x.0, y.0) && seq_less(y.0, z.0) {
            lemma_seq_less_transitive(x.0, y.0, z.0);
        }
        if seq_less(x.1, y.1) && seq_less(y.1, z.1) {
            lemma_seq_less_transitive(x.1, y.1, z.1);
        }
    }
}

/// The keys of the records at the given positions.
pub open spec fn key_seq(recs: Seq<RecordView>, reps: Seq<usize>) -> Seq<LineKey> {
    reps.map_values(|j: usize| rec_key(recs[j as int]))
}

/// Record `a` sorts before record `b` by key.
fn key_less_at(
    records: &Vec<MirLineRecord>,
    fns: &Vec<Vec<char>>,
    files: &Vec<Vec<char>>,
    a: usize,
    b: usize,
) -> (r: bool)
    requires
        a < records@.len(),
        b < records@.len(),
        fns@.len() == records@.len(),
        files@.len() == records@.len(),
        forall|i: int| 0 <= i < records@.len() ==> #[trigger] fns@[i]@ == records@[i].function@,
        forall|i: int| 0 <= i < records@.len() ==> #[trigger] files@[i]@ == records@[i].file@,
    ensures
        r == key_less(rec_key(records@[a as int]@), rec_key(records@[b as int]@)),
{
    if less_chars(&fns[a], &fns[b]) {
        return true;
    }
    if !same_chars(&fns[a], &fns[b]) {
        return false;
    }
    if less_chars(&files[a], &files[b]) {
        return true;
    }
    same_chars(&files[a], &files[b]) && records[a].line < records[b].line
}

/// Record `a` and record `b` have the same key.
fn same_key_at(
    records: &Vec<MirLineRecord>,
    fns: &Vec<Vec<char>>,
    files: &Vec<Vec<char>>,
    a: usize,
    b: usize,
) -> (r: bool)
    requires
        a < records@.len(),
        b < records@.len(),
        fns@.len() == records@.len(),
        files@.len() == records@.len(),
        forall|i: int| 0 <= i < records@.len() ==> #[trigger] fns@[i]@ == records@[i].function@,
        forall|i: int| 0 <= i < records@.len() ==> #[trigger] files@[i]@ == records@[i].file@,
    ensures
        r == (rec_key(records@[a as int]@) == rec_key(records@[b as int]@)),
{
    same_chars(&fns[a], &fns[b]) && same_chars(&files[a], &files[b]) && records[a].line
        == records[b].line
}

/// Positions of one record per distinct key, sorted by key.
fn distinct_keys(records: &Vec<MirLineRecord>, fns: &Vec<Vec<char>>, files: &Vec<Vec<char>>) -> (reps:
    Vec<usize>)
    requires
        fns@.len() == records@.len(),
        files@.len() == records@.len(),
        forall|i: int| 0 <= i < records@.len() ==> #[trigger] fns@[i]@ == records@[i].function@,
        forall|i: int| 0 <= i < records@.len() ==> #[trigger] files@[i]@ == records@[i].file@,
    ensures
        forall|q: int| 0 <= q < reps@.len() ==> #[trigger] reps@[q] < records@.len(),
        sorted_by(key_seq(record_views(records@), reps@), key_order()),
        key_seq(record_views(records@), reps@).to_set() == keys_of(record_views(records@)),
        reps@.len() <= records@.len(),
{
    let ghost rv = record_views(records@);
    let n = records.len();
    let mut reps: Vec<usize> = Vec::new();
    proof {
        lemma_key_order_strict();
    }
    assert(key_seq(rv, reps@).to_set() =~= rv.subrange(0, 0).map_values(
        |r: RecordView| rec_key(r),
    ).to_set());
    for i in 0..n
        invariant
            n == records@.len(),
            rv == record_views(records@),
            fns@.len() == records@.len(),
            files@.len() == records@.len(),
            forall|i: int| 0 <= i < records@.len() ==> #[trigger] fns@[i]@ == records@[i].function@,
            forall|i: int| 0 <= i < records@.len() ==> #[trigger] files@[i]@ == records@[i].file@,
            strict_order(key_order()),
            forall|q: int| 0 <= q < reps@.len() ==> #[trigger] reps@[q] < n,
            reps@.len() <= i,
            sorted_by(key_seq(rv, reps@), key_order()),
            key_seq(rv, reps@).to_set() == rv.subrange(0, i as int).map_values(
                |r: RecordView| rec_key(r),
            ).to_set(),
    {
        let ghost ks = key_seq(rv, reps@);
        let ghost x = rec_key(rv[i as int]);
        let m = reps.len();
        let mut p: usize = 0;
        while p < m && key_less_at(records, fns, files, reps[p], i)
            invariant
                m == reps@.len(),
                p <= m,
                n == records@.len(),
                i < n,
                ks == key_seq(rv, reps@),
                rv == record_views(records@),
                x == rec_key(rv[i as int]),
                fns@.len() == records@.len(),
                files@.len() == records@.len(),
                forall|i: int| 0 <= i < records@.len() ==> #[trigger] fns@[i]@ == records@[i].function@,
                forall|i: int| 0 <= i < records@.len() ==> #[trigger] files@[i]@ == records@[i].file@,
                forall|q: int| 0 <= q < reps@.len() ==> #[trigger] reps@[q] < n,
                forall|k: int| 0 <= k < p ==> #[trigger] key_order()(ks[k], x),
            decreases m - p,
        {
            assert(ks[p as int] == rec_key(rv[reps@[p as int] as int]));
            p = p + 1;
        }
        let ghost prefix = rv.subrange(0, i as int).map_values(|r: RecordView| rec_key(r));
        let ghost next = rv.subrange(0, i + 1).map_values(|r: RecordView| rec_key(r));
        assert(next =~= prefix.push(x));
        proof {
            prefix.lemma_push_to_set_commute(x);
        }
        if p < m && !key_less_at(records, fns, files, i, reps[p]) {
            proof {
                assert(ks[p as int] == rec_key(rv[reps@[p as int] as int]));
                lemma_key_less_total(x, ks[p as int]);
                assert(ks.to_set().contains(x));
                assert(ks.to_set().insert(x) =~= ks.to_set());
            }
        } else {
            proof {
                if p < m {
                    assert(ks[p as int] == rec_key(rv[reps@[p as int] as int]));
                    lemma_key_less_total(x, ks[p as int]);
                }
                lemma_insert_sorted(ks, p as int, x, key_order());
            }
            reps.insert(p, i);
            assert(key_seq(rv, reps@) =~= ks.insert(p as int, x));
        }
    }
    assert(rv.subrange(0, n as int) =~= rv);
    reps
}

/// Adds every string of `items` to the sorted set `set`.
fn insert_all(set: &mut Vec<Vec<char>>, items: &Vec<String>)
    requires
        strictly_sorted(char_vecs(old(set)@)),
    ensures
        strictly_sorted(char_vecs(final(set)@)),
        char_vecs(final(set)@).to_set() == char_vecs(old(set)@).to_set().union(strs(items@).to_set()),
{
    let ghost base = char_vecs(set@).to_set();
    let n = items.len();
    assert(strs(items@).subrange(0, 0).to_set() =~= Set::<Seq<char>>::empty());
    assert(base.union(Set::<Seq<char>>::empty()) =~= base);
    for i in 0..n
        invariant
            n == items@.len(),
            strictly_sorted(char_vecs(set@)),
            char_vecs(set@).to_set() == base.union(strs(items@).subrange(0, i as int).to_set()),
    {
        let c = chars_of(items[i].as_str());
        let _ = insert_sorted(set, c);
        proof {
            let pre = strs(items@).subrange(0, i as int);
            assert(strs(items@).subrange(0, i + 1) =~= pre.push(items@[i as int]@));
            pre.lemma_push_to_set_commute(items@[i as int]@);
            assert(base.union(pre.push(items@[i as int]@).to_set()) =~= base.union(pre.to_set()).insert(
                items@[i as int]@,
            ));
        }
    }
    assert(strs(items@).subrange(0, n as int) =~= strs(items@));
}

/// Appends copies of the strings of `items` to `v`.
fn append_strings(v: &mut Vec<String>, items: &Vec<String>)
    ensures
        final(v)@ == old(v)@ + items@,
{
    let n = items.len();
    for i in 0..n
        invariant
            n == items@.len(),
            v@ == old(v)@ + items@.subrange(0, i as int),
    {
        v.push(items[i].clone());
        assert(items@.subrange(0, i + 1) =~= items@.subrange(0, i as int).push(items@[i as int]));
    }
    assert(items@.subrange(0, n as int) =~= items@);
}

/// Node number `q` (from 0), made of every record whose key is that of
/// record `rep`.
fn build_node(
    records: &Vec<MirLineRecord>,
    fns: &Vec<Vec<char>>,
    files: &Vec<Vec<char>>,
    rep: usize,
    q: usize,
) -> (node: GraphNode)
    requires
        rep < records@.len(),
        q < u32::MAX,
        fns@.len() == records@.len(),
        files@.len() == records@.len(),
        forall|i: int| 0 <= i < records@.len() ==> #[trigger] fns@[i]@ == records@[i].function@,
        forall|i: int| 0 <= i < records@.len() ==> #[trigger] files@[i]@ == records@[i].file@,
    ensures
        node_matches(node@, record_views(records@), rec_key(records@[rep as int]@), q as int),
{
    let ghost rv = record_views(records@);
    let ghost k = rec_key(rv[rep as int]);
    let n = records.len();
    let mut snippet = String::new();
    let mut mir_items: Vec<String> = Vec::new();
    let mut defs: Vec<Vec<char>> = Vec::new();
    let mut uses: Vec<Vec<char>> = Vec::new();
    assert(rv.subrange(0, 0) =~= Seq::<RecordView>::empty());
    assert(char_vecs(defs@).to_set() =~= Set::<Seq<char>>::empty());
    assert(char_vecs(uses@).to_set() =~= Set::<Seq<char>>::empty());
    assert(strs(mir_items@) =~= Seq::<Seq<char>>::empty());
    for j in 0..n
        invariant
            n == records@.len(),
            rep < n,
            rv == record_views(records@),
            k == rec_key(rv[rep as int]),
            fns@.len() == records@.len(),
            files@.len() == records@.len(),
            forall|i: int| 0 <= i < records@.len() ==> #[trigger] fns@[i]@ == records@[i].function@,
            forall|i: int| 0 <= i < records@.len() ==> #[trigger] files@[i]@ == records@[i].file@,
            snippet@ == snippet_of(group(rv.subrange(0, j as int), k)),
            strs(mir_items@) == items_of(group(rv.subrange(0, j as int), k)),
            strictly_sorted(char_vecs(defs@)),
            char_vecs(defs@).to_set() == defs_of(group(rv.subrange(0, j as int), k)),
            strictly_sorted(char_vecs(uses@)),
            char_vecs(uses@).to_set() == uses_of(group(rv.subrange(0, j as int), k)),
    {
        let ghost pre = rv.subrange(0, j as int);
        let ghost post = rv.subrange(0, j + 1);
        assert(post.drop_last() =~= pre);
        assert(post.last() == records@[j as int]@);
        if same_key_at(records, fns, files, j, rep) {
            let ghost g = group(pre, k);
            assert(group(post, k) == g.push(records@[j as int]@));
            assert(g.push(records@[j as int]@).drop_last() =~= g);
            if snippet.as_str().is_empty() {
                snippet = records[j].snippet.clone();
            }
            insert_all(&mut defs, &records[j].defs);
            insert_all(&mut uses, &records[j].uses);
            let ghost before = mir_items@;
            append_strings(&mut mir_items, &records[j].mir_items);
            assert(strs(mir_items@) =~= strs(before) + strs(records@[j as int].mir_items@));
        } else {
            assert(group(post, k) == group(pre, k));
        }
    }
    assert(rv.subrange(0, n as int) =~= rv);
    let mut span_chars = crate::order::slice_all(&files[rep]);
    span_chars.push(':');
    let line_digits = decimal_chars(records[rep].line as u128);
    push_all(&mut span_chars, &line_digits);
    assert(span_chars@ =~= span_of(k));
    let id = (q + 1) as u32;
    GraphNode {
        id,
        step_id: id,
        span: string_from_chars(&span_chars),
        snippet,
        function: records[rep].function.clone(),
        depth: 0,
        mir_items,
        defs: to_strings(&defs),
        uses: to_strings(&uses),
    }
}

/// One node per distinct (function, file, line) of the records, in
/// increasing order of that key, numbered from 1: its MIR items in record
/// order, its first non-empty source line, and the sorted union of its
/// definitions and of its uses.
pub fn build_nodes(records: Vec<MirLineRecord>) -> (nodes: Vec<GraphNode>)
    requires
        records@.len() < u32::MAX,
    ensures
        nodes_built_from(record_views(records@), node_views(nodes@)),
        nodes@.len() <= records@.len(),
{
    let n = records.len();
    let mut fns: Vec<Vec<char>> = Vec::new();
    let mut files: Vec<Vec<char>> = Vec::new();
    for i in 0..n
        invariant
            n == records@.len(),
            fns@.len() == i,
            files@.len() == i,
            forall|k: int| 0 <= k < i ==> #[trigger] fns@[k]@ == records@[k].function@,
            forall|k: int| 0 <= k < i ==> #[trigger] files@[k]@ == records@[k].file@,
    {
        fns.push(chars_of(records[i].function.as_str()));
        files.push(chars_of(records[i].file.as_str()));
    }
    let reps = distinct_keys(&records, &fns, &files);
    let ghost rv = record_views(records@);
    let ghost ks = key_seq(rv, reps@);
    let m = reps.len();
    let mut nodes: Vec<GraphNode> = Vec::new();
    for q in 0..m
        invariant
            m == reps@.len(),
            m <= n,
            n == records@.len(),
            n < u32::MAX,
            rv == record_views(records@),
            ks == key_seq(rv, reps@),
            fns@.len() == records@.len(),
            files@.len() == records@.len(),
            forall|i: int| 0 <= i < records@.len() ==> #[trigger] fns@[i]@ == records@[i].function@,
            forall|i: int| 0 <= i < records@.len() ==> #[trigger] files@[i]@ == records@[i].file@,
            forall|p: int| 0 <= p < reps@.len() ==> #[trigger] reps@[p] < records@.len(),
            nodes@.len() == q,
            forall|i: int| 0 <= i < q ==> node_matches(#[trigger] nodes@[i]@, rv, ks[i], i),
    {
        let node = build_node(&records, &fns, &files, reps[q], q);
        assert(ks[q as int] == rec_key(rv[reps@[q as int] as int]));
        nodes.push(node);
    }
    proof {
        let nv = node_views(nodes@);
        assert forall|i: int| 0 <= i < nv.len() implies node_matches(nv[i], rv, ks[i], i) by {
            assert(nv[i] == nodes@[i]@);
        }
        assert(nodes_built_from(rv, nv));
    }
    nodes
}

// ---------------------------------------------------------------------------
// Edges: data dependences and node order, without repeats
// ---------------------------------------------------------------------------

/// The id of the last node before node `k` that defines `u`.
pub open spec fn last_def(nodes: Seq<NodeView>, k: int, u: Seq<char>) -> Option<u32>
    decreases k,
{
    if k <= 0 {
        None
    } else if nodes[k - 1].defs.contains(u) {
        Some(nodes[k - 1].id)
    } else {
        last_def(nodes, k - 1, u)
    }
}

/// The data dependence of a use of `u` at node `to` on its definition at
/// node `from`.
pub open spec fn data_edge(from: u32, to: u32, u: Seq<char>) -> EdgeView {
    EdgeView {
        from,
        to,
        edge_type: "DataDep"@,
        evidence: "def("@ + u + ")@"@ + decimal(from as nat) + " -> use("@ + u + ")@"@ + decimal(
            to as nat,
        ),
    }
}

/// The data dependences of the first `j` uses of node `k`.
pub open spec fn use_edges(nodes: Seq<NodeView>, k: int, j: int) -> Seq<EdgeView>
    decreases j,
{
    if j <= 0 {
        Seq::empty()
    } else {
        let u = nodes[k].uses[j - 1];
        use_edges(nodes, k, j - 1) + match last_def(nodes, k, u) {
            Some(f) => if f != nodes[k].id {
                seq![data_edge(f, nodes[k].id, u)]
            } else {
                Seq::empty()
            },
            None => Seq::empty(),
        }
    }
}

/// The data dependences of the first `k` nodes, in order.
pub open spec fn data_candidates(nodes: Seq<NodeView>, k: int) -> Seq<EdgeView>
    decreases k,
{
    if k <= 0 {
        Seq::empty()
    } else {
        data_candidates(nodes, k - 1) + use_edges(nodes, k - 1, nodes[k - 1].uses.len() as int)
    }
}

/// The order dependence of node `b` on node `a`.
pub open spec fn temporal_edge(a: u32, b: u32) -> EdgeView {
    EdgeView {
        from: a,
        to: b,
        edge_type: "TemporalDep"@,
        evidence: "node-order: "@ + decimal(a as nat) + " -> "@ + decimal(b as nat),
    }
}

/// The order dependences between neighbours among the first `k` nodes.
pub open spec fn temporal_candidates(nodes: Seq<NodeView>, k: int) -> Seq<EdgeView>
    decreases k,
{
    if k <= 1 {
        Seq::empty()
    } else {
        temporal_candidates(nodes, k - 1).push(temporal_edge(nodes[k - 2].id, nodes[k - 1].id))
    }
}

/// The text by which repeated edges are recognised: `from:to:type:evidence`.
pub open spec fn edge_key(e: EdgeView) -> Seq<char> {
    decimal(e.from as nat) + seq![':'] + decimal(e.to as nat) + seq![':'] + e.edge_type + seq![':']
        + e.evidence
}

/// The keys of some edges.
pub open spec fn keys_set(es: Seq<EdgeView>) -> Set<Seq<char>> {
    es.map_values(|e: EdgeView| edge_key(e)).to_set()
}

/// `s` without the edges whose key an earlier edge has.
pub open spec fn dedup_edges(s: Seq<EdgeView>) -> Seq<EdgeView>
    decreases s.len(),
{
    if s.len() == 0 {
        Seq::empty()
    } else if keys_set(dedup_edges(s.drop_last())).contains(edge_key(s.last())) {
        dedup_edges(s.drop_last())
    } else {
        dedup_edges(s.drop_last()).push(s.last())
    }
}

/// The edges of a node sequence: every data dependence, then the order of
/// neighbouring nodes, each key once.
pub open spec fn edges_spec(nodes: Seq<NodeView>) -> Seq<EdgeView> {
    dedup_edges(
        data_candidates(nodes, nodes.len() as int) + temporal_candidates(nodes, nodes.len() as int),
    )
}

/// The key of `e`.
fn edge_key_chars(e: &GraphEdge) -> (r: Vec<char>)
    ensures
        r@ == edge_key(e@),
{
    let mut r = decimal_chars(e.from as u128);
    r.push(':');
    let to = decimal_chars(e.to as u128);
    push_all(&mut r, &to);
    r.push(':');
    push_str(&mut r, e.edge_type.as_str());
    r.push(':');
    push_str(&mut r, e.evidence.as_str());
    assert(r@ =~= edge_key(e@));
    r
}

/// Adds `edge` unless an edge with its key is there already; `dedup` holds
/// the keys seen, sorted.
pub fn push_edge(edges: &mut Vec<GraphEdge>, dedup: &mut Vec<Vec<char>>, edge: GraphEdge)
    requires
        strictly_sorted(char_vecs(old(dedup)@)),
        char_vecs(old(dedup)@).to_set() == keys_set(edge_views(old(edges)@)),
    ensures
        strictly_sorted(char_vecs(final(dedup)@)),
        char_vecs(final(dedup)@).to_set() == keys_set(edge_views(final(edges)@)),
        edge_views(final(edges)@) == if keys_set(edge_views(old(edges)@)).contains(edge_key(edge@)) {
            edge_views(old(edges)@)
        } else {
            edge_views(old(edges)@).push(edge@)
        },
{
    let key = edge_key_chars(&edge);
    let ghost before = edges@;
    if insert_sorted(dedup, key) {
        edges.push(edge);
        assert(edges@ == before.push(edge));
        assert(edge_views(edges@) =~= edge_views(before).push(edge@));
        assert(edge_views(edges@).map_values(|e: EdgeView| edge_key(e)) =~= edge_views(before).map_values(
            |e: EdgeView| edge_key(e),
        ).push(edge_key(edge@)));
        proof {
            edge_views(before).map_values(|e: EdgeView| edge_key(e)).lemma_push_to_set_commute(
                edge_key(edge@),
            );
        }
    }
}

/// `strs(v)` holds `u`.
fn contains_string(v: &Vec<String>, u: &String) -> (r: bool)
    ensures
        r == strs(v@).contains(u@),
{
    let n = v.len();
    for i in 0..n
        invariant
            n == v@.len(),
            forall|j: int| 0 <= j < i ==> v@[j]@ != u@,
    {
        if v[i] == *u {
            assert(strs(v@)[i as int] == u@);
            return true;
        }
    }
    assert forall|j: int| 0 <= j < strs(v@).len() implies strs(v@)[j] != u@ by {
        assert(strs(v@)[j] == v@[j]@);
    }
    false
}

/// The id of the last node before node `k` that defines `u`.
fn last_def_at(nodes: &[GraphNode], k: usize, u: &String) -> (r: Option<u32>)
    requires
        k <= nodes@.len(),
    ensures
        r == last_def(node_views(nodes@), k as int, u@),
{
    let ghost nv = node_views(nodes@);
    let mut m = k;
    while m > 0
        invariant
            m <= k <= nodes@.len(),
            nv == node_views(nodes@),
            last_def(nv, k as int, u@) == last_def(nv, m as int, u@),
        decreases m,
    {
        assert(nv[m - 1] == nodes@[m - 1]@);
        if contains_string(&nodes[m - 1].defs, u) {
            return Some(nodes[m - 1].id);
        }
        m = m - 1;
    }
    None
}

/// The data dependence of a use of `u` at node `to` on node `from`.
fn make_data_edge(from: u32, to: u32, u: &String) -> (e: GraphEdge)
    ensures
        e@ == data_edge(from, to, u@),
{
    let mut ev = chars_of("def(");
    push_str(&mut ev, u.as_str());
    push_str(&mut ev, ")@");
    let f = decimal_chars(from as u128);
    push_all(&mut ev, &f);
    push_str(&mut ev, " -> use(");
    push_str(&mut ev, u.as_str());
    push_str(&mut ev, ")@");
    let t = decimal_chars(to as u128);
    push_all(&mut ev, &t);
    assert(ev@ =~= data_edge(from, to, u@).evidence);
    GraphEdge { from, to, edge_type: "DataDep".to_string(), evidence: string_from_chars(&ev) }
}

/// The order dependence of node `b` on node `a`.
fn make_temporal_edge(a: u32, b: u32) -> (e: GraphEdge)
    ensures
        e@ == temporal_edge(a, b),
{
    let mut ev = chars_of("node-order: ");
    let x = decimal_chars(a as u128);
    push_all(&mut ev, &x);
    push_str(&mut ev, " -> ");
    let y = decimal_chars(b as u128);
    push_all(&mut ev, &y);
    assert(ev@ =~= temporal_edge(a, b).evidence);
    GraphEdge { from: a, to: b, edge_type: "TemporalDep".to_string(), evidence: string_from_chars(&ev) }
}

/// Every data dependence (a use on the last earlier definition of the same
/// place), then the order of neighbouring nodes; an edge whose key was seen
/// before is left out.
pub fn build_edges(nodes: &[GraphNode]) -> (edges: Vec<GraphEdge>)
    ensures
        edge_views(edges@) == edges_spec(node_views(nodes@)),
{
    let ghost nv = node_views(nodes@);
    let n = nodes.len();
    let mut edges: Vec<GraphEdge> = Vec::new();
    let mut dedup: Vec<Vec<char>> = Vec::new();
    assert(edge_views(edges@) =~= Seq::<EdgeView>::empty());
    assert(char_vecs(dedup@).to_set() =~= keys_set(edge_views(edges@)));
    for k in 0..n
        invariant
            n == nodes@.len(),
            nv == node_views(nodes@),
            strictly_sorted(char_vecs(dedup@)),
            char_vecs(dedup@).to_set() == keys_set(edge_views(edges@)),
            edge_views(edges@) == dedup_edges(data_candidates(nv, k as int)),
    {
        let node = &nodes[k];
        assert(nv[k as int] == node@);
        let m = node.uses.len();
        assert(data_candidates(nv, k as int) + use_edges(nv, k as int, 0) =~= data_candidates(
            nv,
            k as int,
        ));
        for j in 0..m
            invariant
                n == nodes@.len(),
                k < n,
                nv == node_views(nodes@),
                nv[k as int] == node@,
                m == node.uses@.len(),
                strictly_sorted(char_vecs(dedup@)),
                char_vecs(dedup@).to_set() == keys_set(edge_views(edges@)),
                edge_views(edges@) == dedup_edges(
                    data_candidates(nv, k as int) + use_edges(nv, k as int, j as int),
                ),
        {
            let ghost cands = data_candidates(nv, k as int) + use_edges(nv, k as int, j as int);
            let used = &node.uses[j];
            assert(nv[k as int].uses[j as int] == used@);
            match last_def_at(nodes, k, used) {
                Some(from) => {
                    if from != node.id {
                        let e = make_data_edge(from, node.id, used);
                        push_edge(&mut edges, &mut dedup, e);
                        assert(cands.push(e@).drop_last() =~= cands);
                        assert(data_candidates(nv, k as int) + use_edges(nv, k as int, j + 1)
                            =~= cands.push(e@));
                    } else {
                        assert(data_candidates(nv, k as int) + use_edges(nv, k as int, j + 1)
                            =~= cands);
                    }
                },
                None => {
                    assert(data_candidates(nv, k as int) + use_edges(nv, k as int, j + 1) =~= cands);
                },
            }
        }
        assert(data_candidates(nv, k + 1) == data_candidates(nv, k as int) + use_edges(
            nv,
            k as int,
            m as int,
        ));
    }
    let ghost data = data_candidates(nv, n as int);
    assert(data + temporal_candidates(nv, 0) =~= data);
    assert(data + temporal_candidates(nv, 1) =~= data);
    let mut i: usize = 1;
    while i < n
        invariant
            n == nodes@.len(),
            nv == node_views(nodes@),
            1 <= i,
            i <= n || (n == 0 && i == 1),
            data == data_candidates(nv, n as int),
            strictly_sorted(char_vecs(dedup@)),
            char_vecs(dedup@).to_set() == keys_set(edge_views(edges@)),
            edge_views(edges@) == dedup_edges(data + temporal_candidates(nv, i as int)),
        decreases n - i,
    {
        let ghost cands = data + temporal_candidates(nv, i as int);
        assert(nv[i - 1] == nodes@[i - 1]@);
        assert(nv[i as int] == nodes@[i as int]@);
        let e = make_temporal_edge(nodes[i - 1].id, nodes[i].id);
        push_edge(&mut edges, &mut dedup, e);
        assert(cands.push(e@).drop_last() =~= cands);
        assert(data + temporal_candidates(nv, i + 1) =~= cands.push(e@));
        i = i + 1;
    }
    assert(temporal_candidates(nv, i as int) == temporal_candidates(nv, n as int));
    edges
}

// ---------------------------------------------------------------------------
// The whole graph
// ---------------------------------------------------------------------------

#[verifier::external_type_specification]
#[verifier::external_body]
pub struct ExSystemTime(std::time::SystemTime);

#[verifier::external_type_specification]
#[verifier::external_body]
pub struct ExSystemTimeError(std::time::SystemTimeError);

/// `SystemTime::now`: the system clock's current reading. Nothing is stated
/// of it: it depends on the moment of the call.
#[verifier::external_body]
fn system_time_now() -> std::time::SystemTime {
    std::time::SystemTime::now()
}

/// `SystemTime::duration_since(UNIX_EPOCH)`: how long after the Unix epoch
/// `t` lies, or an error when it lies before. Nothing is stated of the
/// outcome, which comes from an opaque clock reading.
#[verifier::external_body]
fn duration_since_unix_epoch(t: &std::time::SystemTime) -> Result<
    std::time::Duration,
    std::time::SystemTimeError,
> {
    t.duration_since(std::time::UNIX_EPOCH)
}

/// `Duration::as_millis`: the whole milliseconds of `d`. Nothing is stated
/// of the value: `Duration` is opaque here.
#[verifier::external_body]
fn duration_as_millis(d: &std::time::Duration) -> u128 {
    d.as_millis()
}

/// The time stamp for a clock reading: its whole milliseconds since the Unix
/// epoch in decimal, or `0` when the reading lies before the epoch (`None`).
pub open spec fn millis_stamp(since_epoch_ms: Option<u128>) -> Seq<char> {
    match since_epoch_ms {
        Some(m) => decimal(m as nat),
        None => "0"@,
    }
}

/// The time stamp for a clock reading: its milliseconds since the Unix epoch
/// in decimal, or `0` when the reading lies before the epoch.
pub fn millis_text(since_epoch_ms: Option<u128>) -> (r: String)
    ensures
        r@ == millis_stamp(since_epoch_ms),
{
    let millis: u128 = match since_epoch_ms {
        Some(m) => m,
        None => 0,
    };
    let c = decimal_chars(millis);
    proof {
        reveal_strlit("0");
        assert(decimal(0) =~= "0"@);
    }
    string_from_chars(&c)
}

/// The system clock's milliseconds since the Unix epoch, in decimal; `0`
/// when the clock reads earlier than the epoch. Which reading is taken
/// depends on the moment of the call.
pub fn now_unix_millis_string() -> (r: String)
    ensures
        exists|since_epoch_ms: Option<u128>| r@ == millis_stamp(since_epoch_ms),
{
    let now = system_time_now();
    let since_epoch_ms = match duration_since_unix_epoch(&now) {
        Ok(d) => Some(duration_as_millis(&d)),
        Err(_) => None,
    };
    let r = millis_text(since_epoch_ms);
    assert(r@ == millis_stamp(since_epoch_ms));
    r
}

/// `g` is the graph of `recs` for the given target and trace, stamped with
/// `generated_at`.
pub open spec fn graph_matches(
    g: GraphIr,
    recs: Seq<RecordView>,
    entry_file: Seq<char>,
    entry_function: Seq<char>,
    depth_k: u32,
    rustc_version: Seq<char>,
) -> bool {
    &&& g.schema_version@ == "graphir.v0.1"@
    &&& g.target.entry_file@ == entry_file
    &&& g.target.entry_function@ == entry_function
    &&& g.target.depth_k == depth_k
    &&& g.trace.rustc_version@ == rustc_version
    &&& g.trace.generator@ == "mir_public::graph_builder"@
    &&& nodes_built_from(recs, node_views(g.nodes@))
    &&& g.nodes@.len() <= recs.len()
    &&& edge_views(g.edges@) == edges_spec(node_views(g.nodes@))
    &&& (op_views(g.ops@), hole_views(g.holes@)) == classify_spec(node_views(g.nodes@))
}

/// The graph of `records`, stamped with `generated_at`: nodes, their edges,
/// and the operations and holes found at them.
pub fn assemble_graph_ir(
    records: Vec<MirLineRecord>,
    entry_file: String,
    entry_function: String,
    depth_k: u32,
    rustc_version: String,
    generated_at: String,
) -> (g: GraphIr)
    requires
        records@.len() < u32::MAX,
    ensures
        graph_matches(
            g,
            record_views(records@),
            entry_file@,
            entry_function@,
            depth_k,
            rustc_version@,
        ),
        g.trace.generated_at@ == generated_at@,
{
    let ghost recs = record_views(records@);
    let nodes = build_nodes(records);
    let edges = build_edges(nodes.as_slice());
    let (ops, holes) = classify_ops(nodes.as_slice());
    GraphIr {
        schema_version: "graphir.v0.1".to_string(),
        target: GraphTarget { entry_file, entry_function, depth_k },
        trace: GraphTrace {
            rustc_version,
            generator: "mir_public::graph_builder".to_string(),
            generated_at,
        },
        nodes,
        edges,
        ops,
        holes,
    }
}

/// The graph of `records`, stamped with the current time in milliseconds
/// since the Unix epoch (`0` when the clock reads earlier than the epoch).
pub fn build_graph_ir(
    records: Vec<MirLineRecord>,
    entry_file: String,
    entry_function: String,
    depth_k: u32,
    rustc_version: String,
) -> (g: GraphIr)
    requires
        records@.len() < u32::MAX,
    ensures
        graph_matches(
            g,
            record_views(records@),
            entry_file@,
            entry_function@,
            depth_k,
            rustc_version@,
        ),
        exists|since_epoch_ms: Option<u128>| g.trace.generated_at@ == millis_stamp(since_epoch_ms),
{
    let stamp = now_unix_millis_string();
    assemble_graph_ir(records, entry_file, entry_function, depth_k, rustc_version, stamp)
}

} // verus!
