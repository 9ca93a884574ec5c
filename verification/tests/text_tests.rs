use mir_public::classify::numbered;
use mir_public::order::{less_chars, sorted_set, to_strings};
use mir_public::text::{
    after_first_chars, before_first_chars, chars_of, contains_chars, decimal_chars, ends_with_chars,
    join_chars, starts_with_chars, str_contains, trim_chars,
};

fn s(v: &Vec<char>) -> String {
    v.iter().collect()
}

#[test]
fn decimal_notation() {
    assert_eq!(s(&decimal_chars(0)), "0");
    assert_eq!(s(&decimal_chars(7)), "7");
    assert_eq!(s(&decimal_chars(10)), "10");
    assert_eq!(s(&decimal_chars(4294967295)), "4294967295");
    assert_eq!(s(&decimal_chars(u128::MAX)), u128::MAX.to_string());
}

#[test]
fn numbered_ids() {
    assert_eq!(numbered("op_", 1), "op_1");
    assert_eq!(numbered("hole_op_", 42), "hole_op_42");
}

#[test]
fn trimming_follows_str_trim() {
    for text in ["  a b  ", "\t\n x\r\n", "", "   ", "\u{3000}y\u{2028}", "\u{85}z\u{a0}", "no-space"] {
        assert_eq!(s(&trim_chars(&chars_of(text))), text.trim());
    }
}

#[test]
fn substring_search() {
    assert!(str_contains("alloc::alloc::alloc(", "alloc::alloc"));
    assert!(!str_contains("dealloc", "Dealloc"));
    assert!(str_contains("abc", ""));
    assert!(contains_chars(&chars_of("x drop(_1)"), &chars_of("drop(")));
    assert!(starts_with_chars(&chars_of("Assert(x)"), &chars_of("Assert")));
    assert!(!starts_with_chars(&chars_of("As"), &chars_of("Assert")));
    assert!(ends_with_chars(&chars_of("src/main.rs"), &chars_of("main.rs")));
    assert!(!ends_with_chars(&chars_of("rs"), &chars_of("main.rs")));
}

#[test]
fn split_at_first_occurrence() {
    let t = chars_of("_1 = f(_2) // a // b");
    let sep = chars_of("//");
    assert_eq!(s(&before_first_chars(&t, &sep)), "_1 = f(_2) ");
    assert_eq!(s(&after_first_chars(&t, &sep)), " a // b");
    let none = chars_of("plain");
    assert_eq!(s(&before_first_chars(&none, &sep)), "plain");
    assert_eq!(s(&after_first_chars(&none, &sep)), "");
}

#[test]
fn joining() {
    let parts = vec![chars_of("a"), chars_of("b"), chars_of("c")];
    assert_eq!(s(&join_chars(&parts, &chars_of(" | "))), "a | b | c");
    assert_eq!(s(&join_chars(&vec![], &chars_of(" | "))), "");
    assert_eq!(s(&join_chars(&vec![chars_of("only")], &chars_of(" | "))), "only");
}

#[test]
fn string_order_matches_std() {
    let words = ["_10", "_2", "_1", "a", "", "é", "z", "_1"];
    for a in words {
        for b in words {
            assert_eq!(less_chars(&chars_of(a), &chars_of(b)), a < b, "{a} < {b}");
        }
    }
}

#[test]
fn sorted_sets_match_btreeset() {
    let items: Vec<Vec<char>> = ["_3", "_10", "_3", "_1", "_2"].iter().map(|x| chars_of(x)).collect();
    let set = to_strings(&sorted_set(&items));
    let expected: std::collections::BTreeSet<String> =
        ["_3", "_10", "_3", "_1", "_2"].iter().map(|x| x.to_string()).collect();
    assert_eq!(set, expected.into_iter().collect::<Vec<_>>());
}
