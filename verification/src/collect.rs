//! Line records of MIR text: the grammar of places and block names, the
//! def/use split of a statement, and the assembly of one record.
//!
//! Walking the compiler's MIR and reading source files happens outside the
//! library; what they hand over are plain strings, handled here.
use vstd::prelude::*;
use crate::order::{is_sorted_set, sorted_set, to_strings};
use crate::text::{
    after_first, after_first_chars, before_first, before_first_chars, char_vecs, chars_of,
    contains_chars, ends_with, ends_with_chars, has_substring,
    occurs_at, occurs_at_chars, slice_chars, string_from_chars, strs,
};

verus! {

broadcast use vstd::string::group_string_axioms;

/// The MIR of one statement or terminator, placed at a source line.
#[derive(Debug, Clone)]
pub struct MirLineRecord {
    pub function: String,
    pub file: String,
    pub line: u32,
    pub snippet: String,
    pub mir_items: Vec<String>,
    pub defs: Vec<String>,
    pub uses: Vec<String>,
    pub succ_blocks: Vec<String>,
}

/// The view of a [`MirLineRecord`].
pub struct RecordView {
    pub function: Seq<char>,
    pub file: Seq<char>,
    pub line: u32,
    pub snippet: Seq<char>,
    pub mir_items: Seq<Seq<char>>,
    pub defs: Seq<Seq<char>>,
    pub uses: Seq<Seq<char>>,
    pub succ_blocks: Seq<Seq<char>>,
}

impl View for MirLineRecord {
    type V = RecordView;

    open spec fn view(&self) -> RecordView {
        RecordView {
            function: self.function@,
            file: self.file@,
            line: self.line,
            snippet: self.snippet@,
            mir_items: strs(self.mir_items@),
            defs: strs(self.defs@),
            uses: strs(self.uses@),
            succ_blocks: strs(self.succ_blocks@),
        }
    }
}

/// The views of a sequence of records.
pub open spec fn record_views(s: Seq<MirLineRecord>) -> Seq<RecordView> {
    s.map_values(|r: MirLineRecord| r@)
}

// ---------------------------------------------------------------------------
// The token grammar: a fixed prefix followed by one or more decimal digits
// (`_12` names a MIR local, `bb3` a basic block)
// ---------------------------------------------------------------------------

/// The code-point ranges of the Unicode `Decimal_Number` category (Unicode
/// 16.0), the characters that `\\d` stands for in a pattern.
pub open spec fn decimal_number_ranges() -> Seq<(u32, u32)> {
    seq![
        (0x30, 0x39),
        (0x660, 0x669),
        (0x6f0, 0x6f9),
        (0x7c0, 0x7c9),
        (0x966, 0x96f),
        (0x9e6, 0x9ef),
        (0xa66, 0xa6f),
        (0xae6, 0xaef),
        (0xb66, 0xb6f),
        (0xbe6, 0xbef),
        (0xc66, 0xc6f),
        (0xce6, 0xcef),
        (0xd66, 0xd6f),
        (0xde6, 0xdef),
        (0xe50, 0xe59),
        (0xed0, 0xed9),
        (0xf20, 0xf29),
        (0x1040, 0x1049),
        (0x1090, 0x1099),
        (0x17e0, 0x17e9),
        (0x1810, 0x1819),
        (0x1946, 0x194f),
        (0x19d0, 0x19d9),
        (0x1a80, 0x1a89),
        (0x1a90, 0x1a99),
        (0x1b50, 0x1b59),
        (0x1bb0, 0x1bb9),
        (0x1c40, 0x1c49),
        (0x1c50, 0x1c59),
        (0xa620, 0xa629),
        (0xa8d0, 0xa8d9),
        (0xa900, 0xa909),
        (0xa9d0, 0xa9d9),
        (0xa9f0, 0xa9f9),
        (0xaa50, 0xaa59),
        (0xabf0, 0xabf9),
        (0xff10, 0xff19),
        (0x104a0, 0x104a9),
        (0x10d30, 0x10d39),
        (0x10d40, 0x10d49),
        (0x11066, 0x1106f),
        (0x110f0, 0x110f9),
        (0x11136, 0x1113f),
        (0x111d0, 0x111d9),
        (0x112f0, 0x112f9),
        (0x11450, 0x11459),
        (0x114d0, 0x114d9),
        (0x11650, 0x11659),
        (0x116c0, 0x116c9),
        (0x116d0, 0x116e3),
        (0x11730, 0x11739),
        (0x118e0, 0x118e9),
        (0x11950, 0x11959),
        (0x11bf0, 0x11bf9),
        (0x11c50, 0x11c59),
        (0x11d50, 0x11d59),
        (0x11da0, 0x11da9),
        (0x11f50, 0x11f59),
        (0x16130, 0x16139),
        (0x16a60, 0x16a69),
        (0x16ac0, 0x16ac9),
        (0x16b50, 0x16b59),
        (0x16d70, 0x16d79),
        (0x1ccf0, 0x1ccf9),
        (0x1d7ce, 0x1d7ff),
        (0x1e140, 0x1e149),
        (0x1e2f0, 0x1e2f9),
        (0x1e4f0, 0x1e4f9),
        (0x1e5f1, 0x1e5fa),
        (0x1e950, 0x1e959),
        (0x1fbf0, 0x1fbf9),
    ]
}

/// `c` is a Unicode decimal digit.
pub open spec fn is_decimal_digit(c: char) -> bool {
    exists|i: int|
        0 <= i < decimal_number_ranges().len() && (#[trigger] decimal_number_ranges()[i]).0 <= (
        c as u32) <= decimal_number_ranges()[i].1
}

/// The number of decimal digits in `s` from position `i` on, before the
/// first other character.
pub open spec fn digit_run(s: Seq<char>, i: int) -> nat
    decreases s.len() - i,
{
    if 0 <= i < s.len() && is_decimal_digit(s[i]) {
        1 + digit_run(s, i + 1)
    } else {
        0
    }
}

/// The length of the token that starts at `i`, or 0 when none does.
pub open spec fn token_len(s: Seq<char>, prefix: Seq<char>, i: int) -> nat {
    if occurs_at(s, prefix, i) && digit_run(s, i + prefix.len()) > 0 {
        prefix.len() + digit_run(s, i + prefix.len())
    } else {
        0
    }
}

pub proof fn lemma_digit_run_bound(s: Seq<char>, i: int)
    requires
        0 <= i,
    ensures
        i + digit_run(s, i) <= s.len() || digit_run(s, i) == 0,
        digit_run(s, i) > 0 ==> i + digit_run(s, i) <= s.len(),
    decreases s.len() - i,
{
    if 0 <= i < s.len() && is_decimal_digit(s[i]) {
        lemma_digit_run_bound(s, i + 1);
    }
}

/// The tokens of `s` from position `i` on, scanning left to right: at each
/// position the longest token that starts there, else the next position.
pub open spec fn tokens_from(s: Seq<char>, prefix: Seq<char>, i: nat) -> Seq<Seq<char>>
    decreases s.len() - i,
{
    if i >= s.len() {
        Seq::empty()
    } else if token_len(s, prefix, i as int) > 0 {
        proof {
            lemma_digit_run_bound(s, (i + prefix.len()) as int);
        }
        let e = i + token_len(s, prefix, i as int);
        seq![s.subrange(i as int, e as int)] + tokens_from(s, prefix, e)
    } else {
        tokens_from(s, prefix, i + 1)
    }
}

/// The MIR places (`_` and decimal digits) that occur in `s`, in order.
pub open spec fn places(s: Seq<char>) -> Seq<Seq<char>> {
    tokens_from(s, "_"@, 0)
}

/// The basic-block names (`bb` and decimal digits) that occur in `s`, in
/// order.
pub open spec fn block_names(s: Seq<char>) -> Seq<Seq<char>> {
    tokens_from(s, "bb"@, 0)
}

/// The places a statement defines: those left of its first `=`, or none.
pub open spec fn defs_spec(text: Seq<char>) -> Set<Seq<char>> {
    if has_substring(text, "="@) {
        places(before_first(text, "="@)).to_set()
    } else {
        Set::empty()
    }
}

/// The places a statement uses: those right of its first `=`, or all of them
/// when it has none.
pub open spec fn uses_spec(text: Seq<char>) -> Set<Seq<char>> {
    if has_substring(text, "="@) {
        places(after_first(text, "="@)).to_set()
    } else {
        places(text).to_set()
    }
}

// ---------------------------------------------------------------------------
// Lines of a source file
// ---------------------------------------------------------------------------

/// The lines of `s` as `str::lines` yields them: split at each `\n`, a `\r`
/// just before it dropped, and no empty line after a final `\n`.
pub open spec fn lines_of(s: Seq<char>) -> Seq<Seq<char>>
    decreases s.len(),
{
    if s.len() == 0 {
        Seq::empty()
    } else if has_substring(s, seq!['\n']) {
        let i = crate::text::first_occurrence(s, seq!['\n']);
        let l = s.subrange(0, i);
        let line = if l.len() > 0 && l.last() == '\r' {
            l.drop_last()
        } else {
            l
        };
        proof {
            crate::text::lemma_first_occurrence_found(s, seq!['\n']);
        }
        seq![line] + lines_of(s.subrange(i + 1, s.len() as int))
    } else {
        seq![s]
    }
}

/// The source line that a record shows: line `line` (counted from 1) of the
/// file's text, or nothing when the text or the line is missing.
pub open spec fn snippet_spec(source: Option<Seq<char>>, line: u32) -> Seq<char> {
    match source {
        Some(src) => {
            let k = if line == 0 {
                0
            } else {
                line - 1
            };
            if k < lines_of(src).len() {
                lines_of(src)[k]
            } else {
                Seq::empty()
            }
        },
        None => Seq::empty(),
    }
}

/// A MIR item at `file` is kept: no hint is given, or the file ends with the
/// hint, or it is a Rust source file.
pub open spec fn keeps_file_spec(file: Seq<char>, hint: Seq<char>) -> bool {
    hint.len() == 0 || ends_with(file, hint) || has_substring(file, ".rs"@)
}

/// The block names in `successors`, all of them.
pub open spec fn succ_names(successors: Seq<Seq<char>>) -> Set<Seq<char>> {
    Set::new(|b: Seq<char>| exists|i: int| 0 <= i < successors.len() && block_names(successors[i]).contains(b))
}

/// `r` is the record that `build_line_record` makes of these parts.
pub open spec fn record_matches(
    r: RecordView,
    function: Seq<char>,
    file: Seq<char>,
    line: u32,
    source: Option<Seq<char>>,
    text: Seq<char>,
    successors: Seq<Seq<char>>,
) -> bool {
    &&& r.function == function
    &&& r.file == file
    &&& r.line == line
    &&& r.snippet == snippet_spec(source, line)
    &&& r.mir_items == seq![text]
    &&& is_sorted_set(r.defs, defs_spec(text))
    &&& is_sorted_set(r.uses, uses_spec(text))
    &&& is_sorted_set(r.succ_blocks, succ_names(successors))
}

// ---------------------------------------------------------------------------
// Executable functions
// ---------------------------------------------------------------------------

/// `c` is a Unicode decimal digit.
pub fn is_decimal_digit_char(c: char) -> (b: bool)
    ensures
        b == is_decimal_digit(c),
{
    let ranges: [(u32, u32); 71] = [
        (0x30, 0x39),
        (0x660, 0x669),
        (0x6f0, 0x6f9),
        (0x7c0, 0x7c9),
        (0x966, 0x96f),
        (0x9e6, 0x9ef),
        (0xa66, 0xa6f),
        (0xae6, 0xaef),
        (0xb66, 0xb6f),
        (0xbe6, 0xbef),
        (0xc66, 0xc6f),
        (0xce6, 0xcef),
        (0xd66, 0xd6f),
        (0xde6, 0xdef),
        (0xe50, 0xe59),
        (0xed0, 0xed9),
        (0xf20, 0xf29),
        (0x1040, 0x1049),
        (0x1090, 0x1099),
        (0x17e0, 0x17e9),
        (0x1810, 0x1819),
        (0x1946, 0x194f),
        (0x19d0, 0x19d9),
        (0x1a80, 0x1a89),
        (0x1a90, 0x1a99),
        (0x1b50, 0x1b59),
        (0x1bb0, 0x1bb9),
        (0x1c40, 0x1c49),
        (0x1c50, 0x1c59),
        (0xa620, 0xa629),
        (0xa8d0, 0xa8d9),
        (0xa900, 0xa909),
        (0xa9d0, 0xa9d9),
        (0xa9f0, 0xa9f9),
        (0xaa50, 0xaa59),
        (0xabf0, 0xabf9),
        (0xff10, 0xff19),
        (0x104a0, 0x104a9),
        (0x10d30, 0x10d39),
        (0x10d40, 0x10d49),
        (0x11066, 0x1106f),
        (0x110f0, 0x110f9),
        (0x11136, 0x1113f),
        (0x111d0, 0x111d9),
        (0x112f0, 0x112f9),
        (0x11450, 0x11459),
        (0x114d0, 0x114d9),
        (0x11650, 0x11659),
        (0x116c0, 0x116c9),
        (0x116d0, 0x116e3),
        (0x11730, 0x11739),
        (0x118e0, 0x118e9),
        (0x11950, 0x11959),
        (0x11bf0, 0x11bf9),
        (0x11c50, 0x11c59),
        (0x11d50, 0x11d59),
        (0x11da0, 0x11da9),
        (0x11f50, 0x11f59),
        (0x16130, 0x16139),
        (0x16a60, 0x16a69),
        (0x16ac0, 0x16ac9),
        (0x16b50, 0x16b59),
        (0x16d70, 0x16d79),
        (0x1ccf0, 0x1ccf9),
        (0x1d7ce, 0x1d7ff),
        (0x1e140, 0x1e149),
        (0x1e2f0, 0x1e2f9),
        (0x1e4f0, 0x1e4f9),
        (0x1e5f1, 0x1e5fa),
        (0x1e950, 0x1e959),
        (0x1fbf0, 0x1fbf9),
    ];
    assert(ranges@ =~= decimal_number_ranges());
    let u = c as u32;
    let n: usize = 71;
    for i in 0..n
        invariant
            n == ranges@.len(),
            ranges@ == decimal_number_ranges(),
            u == c as u32,
            forall|k: int| 0 <= k < i ==> !((#[trigger] ranges@[k]).0 <= u <= ranges@[k].1),
    {
        let (lo, hi) = ranges[i];
        if lo <= u && u <= hi {
            assert(decimal_number_ranges()[i as int] == (lo, hi));
            return true;
        }
    }
    false
}

proof fn lemma_digit_run_is(s: Seq<char>, i: int, j: int)
    requires
        0 <= i <= j <= s.len(),
        forall|k: int| i <= k < j ==> is_decimal_digit(#[trigger] s[k]),
        j == s.len() || !is_decimal_digit(s[j]),
    ensures
        digit_run(s, i) == j - i,
    decreases j - i,
{
    if i < j {
        lemma_digit_run_is(s, i + 1, j);
    }
}

/// The number of decimal digits in `s` from position `i` on, before the
/// first other character.
fn digit_run_at(s: &Vec<char>, i: usize) -> (r: usize)
    requires
        i <= s@.len(),
    ensures
        r == digit_run(s@, i as int),
        i + r <= s@.len(),
{
    let n = s.len();
    let mut j = i;
    while j < n && is_decimal_digit_char(s[j])
        invariant
            i <= j <= n == s@.len(),
            forall|k: int| i <= k < j ==> is_decimal_digit(#[trigger] s@[k]),
        decreases n - j,
    {
        j = j + 1;
    }
    proof {
        lemma_digit_run_is(s@, i as int, j as int);
    }
    j - i
}

/// The tokens of `s`: `prefix` followed by the longest run of decimal
/// digits, scanning left to right.
pub fn tokens(s: &Vec<char>, prefix: &Vec<char>) -> (r: Vec<Vec<char>>)
    ensures
        char_vecs(r@) == tokens_from(s@, prefix@, 0),
{
    let n = s.len();
    let m = prefix.len();
    let mut r: Vec<Vec<char>> = Vec::new();
    let mut i: usize = 0;
    assert(char_vecs(r@) =~= Seq::<Seq<char>>::empty());
    while i < n
        invariant
            n == s@.len(),
            m == prefix@.len(),
            i <= n,
            char_vecs(r@) + tokens_from(s@, prefix@, i as nat) == tokens_from(s@, prefix@, 0),
        decreases n - i,
    {
        let ghost rest = tokens_from(s@, prefix@, i as nat);
        if occurs_at_chars(s, prefix, i) {
            let d = digit_run_at(s, i + m);
            if d > 0 {
                let e = i + m + d;
                let tok = slice_chars(s, i, e);
                assert(token_len(s@, prefix@, i as int) == m + d);
                let ghost before = r@;
                r.push(tok);
                assert(r@ == before.push(tok));
                assert(char_vecs(r@) =~= char_vecs(before).push(tok@));
                assert(rest == seq![tok@] + tokens_from(s@, prefix@, e as nat));
                assert(char_vecs(r@) + tokens_from(s@, prefix@, e as nat) =~= char_vecs(before)
                    + rest);
                i = e;
                continue;
            }
        }
        assert(token_len(s@, prefix@, i as int) == 0);
        i = i + 1;
    }
    assert(tokens_from(s@, prefix@, i as nat) =~= Seq::<Seq<char>>::empty());
    assert(char_vecs(r@) + Seq::<Seq<char>>::empty() =~= char_vecs(r@));
    r
}

/// The places that a statement defines (left of its first `=`) and uses
/// (right of it, or everywhere when there is no `=`), each set in sorted
/// order.
pub fn split_defs_uses(text: &str) -> (r: (Vec<String>, Vec<String>))
    ensures
        is_sorted_set(strs(r.0@), defs_spec(text@)),
        is_sorted_set(strs(r.1@), uses_spec(text@)),
{
    let t = chars_of(text);
    let mut eq: Vec<char> = Vec::new();
    eq.push('=');
    let mut underscore: Vec<char> = Vec::new();
    underscore.push('_');
    proof {
        reveal_strlit("=");
        reveal_strlit("_");
        assert(eq@ =~= "="@);
        assert(underscore@ =~= "_"@);
    }
    if contains_chars(&t, &eq) {
        let lhs = before_first_chars(&t, &eq);
        let rhs = after_first_chars(&t, &eq);
        let defs = sorted_set(&tokens(&lhs, &underscore));
        let uses = sorted_set(&tokens(&rhs, &underscore));
        (to_strings(&defs), to_strings(&uses))
    } else {
        let empty: Vec<Vec<char>> = Vec::new();
        let defs = sorted_set(&empty);
        assert(char_vecs(empty@).to_set() =~= Set::empty());
        let uses = sorted_set(&tokens(&t, &underscore));
        (to_strings(&defs), to_strings(&uses))
    }
}

/// Line `k` (counted from 0) of `s`, as `str::lines` yields them.
pub fn nth_line(s: &Vec<char>, k: usize) -> (r: Option<Vec<char>>)
    ensures
        match r {
            Some(l) => k < lines_of(s@).len() && l@ == lines_of(s@)[k as int],
            None => k >= lines_of(s@).len(),
        },
{
    let n = s.len();
    let mut start: usize = 0;
    let mut idx: usize = 0;
    let ghost all = lines_of(s@);
    assert(s@.subrange(0, n as int) =~= s@);
    while start < n
        invariant
            n == s@.len(),
            all == lines_of(s@),
            start <= n,
            idx <= k,
            idx <= all.len(),
            lines_of(s@.subrange(start as int, n as int)) == all.subrange(idx as int, all.len() as int),
        decreases n - start,
    {
        let ghost sub = s@.subrange(start as int, n as int);
        let mut e = start;
        while e < n && s[e] != '\n'
            invariant
                start <= e <= n == s@.len(),
                forall|q: int| start <= q < e ==> s@[q] != '\n',
            decreases n - e,
        {
            e = e + 1;
        }
        let ghost nl = seq!['\n'];
        if e < n {
            proof {
                assert(sub.subrange(e - start, e - start + 1) =~= nl);
                assert forall|q: int| 0 <= q < e - start implies !occurs_at(sub, nl, q) by {
                    assert(sub.subrange(q, q + 1)[0] == s@[start + q]);
                }
                crate::text::lemma_first_occurrence(sub, nl, e - start);
            }
        } else {
            proof {
                assert forall|q: int| !occurs_at(sub, nl, q) by {
                    if occurs_at(sub, nl, q) {
                        assert(sub.subrange(q, q + 1)[0] == s@[start + q]);
                    }
                }
            }
        }
        let piece = slice_chars(s, start, e);
        assert(piece@ =~= sub.subrange(0, e - start));
        let line = if e < n && piece.len() > 0 && piece[piece.len() - 1] == '\r' {
            slice_chars(&piece, 0, piece.len() - 1)
        } else {
            piece
        };
        proof {
            if e < n {
                assert(sub.subrange(e - start + 1, sub.len() as int) =~= s@.subrange(e + 1, n as int));
                if piece@.len() > 0 && piece@.last() == '\r' {
                    assert(line@ =~= piece@.drop_last());
                }
            } else {
                assert(piece@ =~= sub);
            }
            assert(lines_of(sub)[0] == line@);
            assert(lines_of(sub).len() >= 1);
            assert(all.subrange(idx as int, all.len() as int)[0] == all[idx as int]);
            assert(all[idx as int] == line@);
        }
        if idx == k {
            return Some(line);
        }
        if e == n {
            assert(lines_of(sub).len() == 1);
            assert(k >= all.len());
            return None;
        }
        proof {
            assert(lines_of(sub) == seq![line@] + lines_of(s@.subrange(e + 1, n as int)));
            assert(lines_of(s@.subrange(e + 1, n as int)) =~= lines_of(sub).drop_first());
            assert(all.subrange(idx + 1, all.len() as int) =~= all.subrange(idx as int, all.len() as int).drop_first());
        }
        start = e + 1;
        idx = idx + 1;
    }
    assert(s@.subrange(start as int, n as int) =~= Seq::<char>::empty());
    None
}

/// The view of an optional string.
pub open spec fn opt_view(o: Option<String>) -> Option<Seq<char>> {
    match o {
        Some(s) => Some(s@),
        None => None,
    }
}

/// A MIR item at `file` is kept: no hint is given, or the file ends with the
/// hint, or it is a Rust source file.
pub fn keeps_file(file: &str, entry_file_hint: &str) -> (b: bool)
    ensures
        b == keeps_file_spec(file@, entry_file_hint@),
{
    let f = chars_of(file);
    let h = chars_of(entry_file_hint);
    let rs = chars_of(".rs");
    h.len() == 0 || ends_with_chars(&f, &h) || contains_chars(&f, &rs)
}

/// The block names that occur in the first `j` successors.
pub open spec fn succ_names_upto(successors: Seq<Seq<char>>, j: int) -> Set<Seq<char>> {
    Set::new(|b: Seq<char>| exists|i: int| 0 <= i < j && block_names(successors[i]).contains(b))
}

/// Assembles the record of one MIR item of `function`, at line `line` of
/// `file`, whose text is `text` and whose successor blocks are named in
/// `successors`; `source` is the file's text when it could be read. Items in
/// files that `keeps_file` turns away give no record.
pub fn build_line_record(
    function: &str,
    file: String,
    line: u32,
    source: Option<String>,
    entry_file_hint: &str,
    text: String,
    successors: &Vec<String>,
) -> (r: Option<MirLineRecord>)
    ensures
        r is None <==> !keeps_file_spec(file@, entry_file_hint@),
        r matches Some(rec) ==> record_matches(
            rec@,
            function@,
            file@,
            line,
            opt_view(source),
            text@,
            strs(successors@),
        ),
{
    if !keeps_file(file.as_str(), entry_file_hint) {
        return None;
    }
    let k: usize = if line == 0 {
        0
    } else {
        (line - 1) as usize
    };
    let snippet = match &source {
        Some(src) => {
            let sc = chars_of(src.as_str());
            match nth_line(&sc, k) {
                Some(l) => string_from_chars(&l),
                None => String::new(),
            }
        },
        None => String::new(),
    };
    let (defs, uses) = split_defs_uses(text.as_str());
    let bb = chars_of("bb");
    proof {
        reveal_strlit("bb");
    }
    let mut blocks: Vec<Vec<char>> = Vec::new();
    let m = successors.len();
    let ghost succ = strs(successors@);
    assert(char_vecs(blocks@).to_set() =~= succ_names_upto(succ, 0));
    for j in 0..m
        invariant
            m == successors@.len(),
            succ == strs(successors@),
            bb@ == "bb"@,
            crate::order::strictly_sorted(char_vecs(blocks@)),
            char_vecs(blocks@).to_set() == succ_names_upto(succ, j as int),
    {
        let sc = chars_of(successors[j].as_str());
        let found = tokens(&sc, &bb);
        let q = found.len();
        let ghost base = char_vecs(blocks@).to_set();
        for t in 0..q
            invariant
                q == found@.len(),
                crate::order::strictly_sorted(char_vecs(blocks@)),
                char_vecs(blocks@).to_set() == base + char_vecs(found@).subrange(0, t as int).to_set(),
        {
            let tok = crate::order::slice_all(&found[t]);
            let _ = crate::order::insert_sorted(&mut blocks, tok);
            proof {
                char_vecs(found@).subrange(0, t as int).lemma_push_to_set_commute(found@[t as int]@);
                assert(char_vecs(found@).subrange(0, t + 1) =~= char_vecs(found@).subrange(
                    0,
                    t as int,
                ).push(found@[t as int]@));
            }
        }
        proof {
            assert(char_vecs(found@).subrange(0, q as int) =~= char_vecs(found@));
            assert(char_vecs(found@) == block_names(succ[j as int]));
            assert(char_vecs(blocks@).to_set() =~= succ_names_upto(succ, j + 1)) by {
                assert forall|b: Seq<char>|
                    succ_names_upto(succ, j + 1).contains(b) implies char_vecs(
                    blocks@,
                ).to_set().contains(b) by {
                    let i = choose|i: int| 0 <= i < j + 1 && block_names(succ[i]).contains(b);
                    if i < j {
                        assert(succ_names_upto(succ, j as int).contains(b));
                    }
                }
                assert forall|b: Seq<char>|
                    char_vecs(blocks@).to_set().contains(b) implies succ_names_upto(
                    succ,
                    j + 1,
                ).contains(b) by {
                    if !base.contains(b) {
                        assert(block_names(succ[j as int]).contains(b));
                    } else {
                        let i = choose|i: int| 0 <= i < j && block_names(succ[i]).contains(b);
                        assert(0 <= i < j + 1);
                    }
                }
            }
        }
    }
    proof {
        assert(succ_names_upto(succ, m as int) =~= succ_names(succ));
    }
    let succ_blocks = to_strings(&blocks);
    let mut mir_items: Vec<String> = Vec::new();
    mir_items.push(text);
    assert(strs(mir_items@) =~= seq![mir_items@[0]@]);
    Some(MirLineRecord {
        function: function.to_string(),
        file,
        line,
        snippet,
        mir_items,
        defs,
        uses,
        succ_blocks,
    })
}

} // verus!
