//! The order in which `String` keys sort (byte-wise on UTF-8, which is the
//! order of code points), and sorted sets of strings built on it.
use vstd::prelude::*;
use crate::text::{char_vecs, strs, string_from_chars};

verus! {

// ---------------------------------------------------------------------------
// Specification
// ---------------------------------------------------------------------------

/// Lexicographic order on character sequences by code point: the order of
/// `String`'s `Ord` (UTF-8 keeps the order of code points byte by byte).
pub open spec fn seq_less(a: Seq<char>, b: Seq<char>) -> bool
    decreases a.len(),
{
    if a.len() == 0 {
        b.len() > 0
    } else if b.len() == 0 {
        false
    } else if a[0] != b[0] {
        a[0] < b[0]
    } else {
        seq_less(a.drop_first(), b.drop_first())
    }
}

/// Each element of `s` is below every later one.
pub open spec fn sorted_by<T>(s: Seq<T>, lt: spec_fn(T, T) -> bool) -> bool {
    forall|i: int, j: int| 0 <= i < j < s.len() ==> #[trigger] lt(s[i], s[j])
}

/// `lt` is irreflexive and transitive.
pub open spec fn strict_order<T>(lt: spec_fn(T, T) -> bool) -> bool {
    &&& forall|x: T| !#[trigger] lt(x, x)
    &&& forall|x: T, y: T, z: T| #[trigger] lt(x, y) && #[trigger] lt(y, z) ==> lt(x, z)
}

/// `seq_less` as a value.
pub open spec fn string_less() -> spec_fn(Seq<char>, Seq<char>) -> bool {
    |a: Seq<char>, b: Seq<char>| seq_less(a, b)
}

/// The strings of `s` are strictly increasing.
pub open spec fn strictly_sorted(s: Seq<Seq<char>>) -> bool {
    forall|i: int, j: int| 0 <= i < j < s.len() ==> seq_less(#[trigger] s[i], #[trigger] s[j])
}

/// `out` lists the strings of `items` once each, in increasing order: what
/// collecting a `BTreeSet<String>` gives.
pub open spec fn is_sorted_set(out: Seq<Seq<char>>, items: Set<Seq<char>>) -> bool {
    strictly_sorted(out) && out.to_set() == items
}

// ---------------------------------------------------------------------------
// Lemmas
// ---------------------------------------------------------------------------

pub proof fn lemma_seq_less_irreflexive(a: Seq<char>)
    ensures
        !seq_less(a, a),
    decreases a.len(),
{
    if a.len() > 0 {
        lemma_seq_less_irreflexive(a.drop_first());
    }
}

pub proof fn lemma_seq_less_transitive(a: Seq<char>, b: Seq<char>, c: Seq<char>)
    requires
        seq_less(a, b),
        seq_less(b, c),
    ensures
        seq_less(a, c),
    decreases a.len(),
{
    if a.len() > 0 && b.len() > 0 && c.len() > 0 {
        if a[0] == b[0] && b[0] == c[0] {
            lemma_seq_less_transitive(a.drop_first(), b.drop_first(), c.drop_first());
        }
    }
}

pub proof fn lemma_seq_less_total(a: Seq<char>, b: Seq<char>)
    ensures
        seq_less(a, b) || a == b || seq_less(b, a),
    decreases a.len(),
{
    if a.len() > 0 && b.len() > 0 && a[0] == b[0] {
        lemma_seq_less_total(a.drop_first(), b.drop_first());
        if a.drop_first() == b.drop_first() {
            assert(a =~= seq![a[0]] + a.drop_first());
            assert(b =~= seq![b[0]] + b.drop_first());
        }
    } else if a.len() == 0 && b.len() == 0 {
        assert(a =~= b);
    } else if a.len() > 0 && b.len() > 0 {
    }
}

pub proof fn lemma_string_less_strict()
    ensures
        strict_order(string_less()),
{
    assert forall|x: Seq<char>| !#[trigger] string_less()(x, x) by {
        lemma_seq_less_irreflexive(x);
    }
    assert forall|x: Seq<char>, y: Seq<char>, z: Seq<char>|
        #[trigger] string_less()(x, y) && #[trigger] string_less()(y, z) implies string_less()(
        x,
        z,
    ) by {
        lemma_seq_less_transitive(x, y, z);
    }
}

/// Two strictly sorted sequences with the same elements are equal: a sorted
/// enumeration of a set is unique.
pub proof fn lemma_sorted_unique<T>(a: Seq<T>, b: Seq<T>, lt: spec_fn(T, T) -> bool)
    requires
        strict_order(lt),
        sorted_by(a, lt),
        sorted_by(b, lt),
        a.to_set() == b.to_set(),
    ensures
        a == b,
    decreases a.len(),
{
    if a.len() == 0 {
        if b.len() > 0 {
            assert(b.to_set().contains(b[0]));
        }
        assert(a =~= b);
    } else {
        assert(a.to_set().contains(a[0]));
        assert(b.to_set().contains(a[0]));
        assert(b.len() > 0);
        assert(a.to_set().contains(b[0]));
        let i = choose|i: int| 0 <= i < a.len() && a[i] == b[0];
        let j = choose|j: int| 0 <= j < b.len() && b[j] == a[0];
        if a[0] != b[0] {
            assert(lt(a[0], a[i]));
            assert(lt(b[0], b[j]));
            assert(lt(a[0], a[0]));
        }
        let a1 = a.drop_first();
        let b1 = b.drop_first();
        assert(sorted_by(a1, lt)) by {
            assert forall|p: int, q: int| 0 <= p < q < a1.len() implies #[trigger] lt(a1[p], a1[q]) by {
                assert(lt(a[p + 1], a[q + 1]));
            }
        }
        assert(sorted_by(b1, lt)) by {
            assert forall|p: int, q: int| 0 <= p < q < b1.len() implies #[trigger] lt(b1[p], b1[q]) by {
                assert(lt(b[p + 1], b[q + 1]));
            }
        }
        assert(a1.to_set() =~= b1.to_set()) by {
            assert forall|x: T| a1.to_set().contains(x) implies b1.to_set().contains(x) by {
                let p = choose|p: int| 0 <= p < a1.len() && a1[p] == x;
                assert(lt(a[0], a[p + 1]));
                assert(b.to_set().contains(x));
                let q = choose|q: int| 0 <= q < b.len() && b[q] == x;
                if q == 0 {
                    assert(lt(x, x));
                }
                assert(b1[q - 1] == x);
            }
            assert forall|x: T| b1.to_set().contains(x) implies a1.to_set().contains(x) by {
                let p = choose|p: int| 0 <= p < b1.len() && b1[p] == x;
                assert(lt(b[0], b[p + 1]));
                assert(a.to_set().contains(x));
                let q = choose|q: int| 0 <= q < a.len() && a[q] == x;
                if q == 0 {
                    assert(lt(x, x));
                }
                assert(a1[q - 1] == x);
            }
        }
        lemma_sorted_unique(a1, b1, lt);
        assert(a =~= seq![a[0]] + a1);
        assert(b =~= seq![b[0]] + b1);
    }
}

/// A sorted enumeration of a set of strings is unique.
pub proof fn lemma_sorted_set_unique(a: Seq<Seq<char>>, b: Seq<Seq<char>>, items: Set<Seq<char>>)
    requires
        is_sorted_set(a, items),
        is_sorted_set(b, items),
    ensures
        a == b,
{
    lemma_string_less_strict();
    assert(sorted_by(a, string_less()));
    assert(sorted_by(b, string_less()));
    lemma_sorted_unique(a, b, string_less());
}

/// Putting `x` at position `i` of a sorted sequence, between the elements
/// below it and those above it, keeps the sequence sorted and adds `x` to its
/// elements.
pub proof fn lemma_insert_sorted<T>(s: Seq<T>, i: int, x: T, lt: spec_fn(T, T) -> bool)
    requires
        strict_order(lt),
        sorted_by(s, lt),
        0 <= i <= s.len(),
        forall|k: int| 0 <= k < i ==> #[trigger] lt(s[k], x),
        i < s.len() ==> lt(x, s[i]),
    ensures
        sorted_by(s.insert(i, x), lt),
        s.insert(i, x).to_set() == s.to_set().insert(x),
        !s.to_set().contains(x),
{
    let t = s.insert(i, x);
    assert forall|p: int, q: int| 0 <= p < q < t.len() implies #[trigger] lt(t[p], t[q]) by {
        if q < i {
            assert(t[p] == s[p] && t[q] == s[q]);
        } else if q == i {
            assert(t[p] == s[p]);
        } else if p == i {
            assert(t[q] == s[q - 1]);
            if q - 1 > i {
                assert(lt(s[i], s[q - 1]));
            }
        } else if p < i {
            assert(t[p] == s[p] && t[q] == s[q - 1]);
        } else {
            assert(t[p] == s[p - 1] && t[q] == s[q - 1]);
        }
    }
    assert(t.to_set() =~= s.to_set().insert(x)) by {
        assert forall|y: T| t.to_set().contains(y) implies s.to_set().insert(x).contains(y) by {
            let k = choose|k: int| 0 <= k < t.len() && t[k] == y;
            if k < i {
                assert(s[k] == y);
            } else if k > i {
                assert(s[k - 1] == y);
            }
        }
        assert forall|y: T| s.to_set().insert(x).contains(y) implies t.to_set().contains(y) by {
            if y == x {
                assert(t[i] == y);
            } else {
                let k = choose|k: int| 0 <= k < s.len() && s[k] == y;
                if k < i {
                    assert(t[k] == y);
                } else {
                    assert(t[k + 1] == y);
                }
            }
        }
    }
    if s.to_set().contains(x) {
        let k = choose|k: int| 0 <= k < s.len() && s[k] == x;
        if k < i {
            assert(lt(x, x));
        } else if k == i {
            assert(lt(x, x));
        } else {
            assert(lt(s[i], s[k]));
            assert(lt(x, x));
        }
    }
}

// ---------------------------------------------------------------------------
// Executable helpers
// ---------------------------------------------------------------------------

/// `a` sorts before `b`.
pub fn less_chars(a: &Vec<char>, b: &Vec<char>) -> (r: bool)
    ensures
        r == seq_less(a@, b@),
{
    let n = a.len();
    let m = b.len();
    let mut i: usize = 0;
    assert(a@.skip(0) =~= a@);
    assert(b@.skip(0) =~= b@);
    while i < n && i < m
        invariant
            n == a@.len(),
            m == b@.len(),
            i <= n,
            i <= m,
            seq_less(a@, b@) == seq_less(a@.skip(i as int), b@.skip(i as int)),
        decreases n - i,
    {
        let x = a[i];
        let y = b[i];
        if x != y {
            assert(a@.skip(i as int)[0] == x);
            assert(b@.skip(i as int)[0] == y);
            return x < y;
        }
        assert(a@.skip(i as int).drop_first() =~= a@.skip(i + 1));
        assert(b@.skip(i as int).drop_first() =~= b@.skip(i + 1));
        i = i + 1;
    }
    i == n && i < m
}

/// Adds `x` to the sorted set `set` unless it is there already.
pub fn insert_sorted(set: &mut Vec<Vec<char>>, x: Vec<char>) -> (inserted: bool)
    requires
        strictly_sorted(char_vecs(old(set)@)),
    ensures
        inserted == !char_vecs(old(set)@).to_set().contains(x@),
        strictly_sorted(char_vecs(final(set)@)),
        char_vecs(final(set)@).to_set() == char_vecs(old(set)@).to_set().insert(x@),
{
    let ghost old_s = char_vecs(set@);
    let n = set.len();
    let mut i: usize = 0;
    while i < n && less_chars(&set[i], &x)
        invariant
            n == set@.len(),
            i <= n,
            old_s == char_vecs(set@),
            forall|k: int| 0 <= k < i ==> seq_less(#[trigger] old_s[k], x@),
        decreases n - i,
    {
        i = i + 1;
    }
    if i < n && !less_chars(&x, &set[i]) {
        proof {
            lemma_seq_less_total(x@, old_s[i as int]);
            assert(old_s[i as int] == x@);
            assert(old_s.to_set().insert(x@) =~= old_s.to_set());
            assert(old_s.to_set().contains(x@));
        }
        return false;
    }
    proof {
        if i < n {
            lemma_seq_less_total(x@, old_s[i as int]);
        }
    }
    proof {
        if old_s.to_set().contains(x@) {
            let k = choose|k: int| 0 <= k < old_s.len() && old_s[k] == x@;
            lemma_seq_less_irreflexive(x@);
            if k > i {
                assert(seq_less(old_s[i as int], old_s[k]));
                lemma_seq_less_transitive(x@, old_s[i as int], x@);
            }
        }
    }
    set.insert(i, x);
    let ghost new_s = char_vecs(set@);
    assert(new_s =~= old_s.insert(i as int, x@));
    assert forall|p: int, q: int| 0 <= p < q < new_s.len() implies seq_less(
        #[trigger] new_s[p],
        #[trigger] new_s[q],
    ) by {
        if q < i {
            assert(new_s[p] == old_s[p] && new_s[q] == old_s[q]);
        } else if q == i {
            assert(new_s[p] == old_s[p]);
        } else if p == i {
            assert(new_s[q] == old_s[q - 1]);
            if q - 1 > i {
                assert(seq_less(old_s[i as int], old_s[q - 1]));
                lemma_seq_less_transitive(x@, old_s[i as int], old_s[q - 1]);
            }
        } else if p < i {
            assert(new_s[p] == old_s[p] && new_s[q] == old_s[q - 1]);
        } else {
            assert(new_s[p] == old_s[p - 1] && new_s[q] == old_s[q - 1]);
        }
    }
    assert(new_s.to_set() =~= old_s.to_set().insert(x@)) by {
        assert forall|y: Seq<char>| new_s.to_set().contains(y) implies old_s.to_set().insert(
            x@,
        ).contains(y) by {
            let k = choose|k: int| 0 <= k < new_s.len() && new_s[k] == y;
            if k < i {
                assert(old_s[k] == y);
            } else if k > i {
                assert(old_s[k - 1] == y);
            }
        }
        assert forall|y: Seq<char>| old_s.to_set().insert(x@).contains(y) implies new_s.to_set().contains(
            y,
        ) by {
            if y == x@ {
                assert(new_s[i as int] == y);
            } else {
                let k = choose|k: int| 0 <= k < old_s.len() && old_s[k] == y;
                if k < i {
                    assert(new_s[k] == y);
                } else {
                    assert(new_s[k + 1] == y);
                }
            }
        }
    }
    true
}

/// The strings of `items` once each, in increasing order.
pub fn sorted_set(items: &Vec<Vec<char>>) -> (r: Vec<Vec<char>>)
    ensures
        is_sorted_set(char_vecs(r@), char_vecs(items@).to_set()),
{
    let mut r: Vec<Vec<char>> = Vec::new();
    let n = items.len();
    assert(char_vecs(r@).to_set() =~= Set::empty());
    for i in 0..n
        invariant
            n == items@.len(),
            strictly_sorted(char_vecs(r@)),
            char_vecs(r@).to_set() == char_vecs(items@).subrange(0, i as int).to_set(),
    {
        let x = slice_all(&items[i]);
        let _ = insert_sorted(&mut r, x);
        assert(char_vecs(items@).subrange(0, i + 1) =~= char_vecs(items@).subrange(0, i as int).push(
            items@[i as int]@,
        ));
        proof {
            char_vecs(items@).subrange(0, i as int).lemma_push_to_set_commute(items@[i as int]@);
        }
    }
    assert(char_vecs(items@).subrange(0, n as int) =~= char_vecs(items@));
    r
}

/// A copy of `v`.
pub fn slice_all(v: &Vec<char>) -> (r: Vec<char>)
    ensures
        r@ == v@,
{
    crate::text::slice_chars(v, 0, v.len())
}

/// The strings of `v`, as `String`s.
pub fn to_strings(v: &Vec<Vec<char>>) -> (r: Vec<String>)
    ensures
        strs(r@) == char_vecs(v@),
{
    let mut r: Vec<String> = Vec::new();
    let n = v.len();
    for i in 0..n
        invariant
            n == v@.len(),
            r@.len() == i,
            strs(r@) == char_vecs(v@).subrange(0, i as int),
    {
        let ghost before = r@;
        let s = string_from_chars(&v[i]);
        r.push(s);
        assert(r@ == before.push(s));
        assert(s@ == char_vecs(v@)[i as int]);
        assert(strs(r@)[i as int] == s@);
        assert(strs(r@) =~= char_vecs(v@).subrange(0, i + 1));
    }
    assert(char_vecs(v@).subrange(0, n as int) =~= char_vecs(v@));
    r
}

} // verus!
