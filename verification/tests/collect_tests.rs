use mir_public::collect::{build_line_record, keeps_file, nth_line, split_defs_uses, tokens};
use mir_public::text::chars_of;

fn string_from_chars(v: &Vec<char>) -> String {
    v.iter().collect()
}

fn strings(xs: &[&str]) -> Vec<String> {
    xs.iter().map(|x| x.to_string()).collect()
}

fn toks(text: &str, prefix: &str) -> Vec<String> {
    tokens(&chars_of(text), &chars_of(prefix)).iter().map(|t| string_from_chars(t)).collect()
}

#[test]
fn place_tokens_scan_left_to_right() {
    assert_eq!(toks("_1 = Add(copy _22, copy _3)", "_"), strings(&["_1", "_22", "_3"]));
    assert_eq!(toks("__7 _x _ 1_2", "_"), strings(&["_7", "_2"]));
    assert_eq!(toks("const 4_usize", "_"), Vec::<String>::new());
    assert_eq!(toks("", "_"), Vec::<String>::new());
}

#[test]
fn block_tokens() {
    assert_eq!(toks("[return: bb1, unwind: bb12]", "bb"), strings(&["bb1", "bb12"]));
    assert_eq!(toks("bbb3 bb", "bb"), strings(&["bb3"]));
}

#[test]
fn defs_left_of_equals_uses_right() {
    let (defs, uses) = split_defs_uses("_3 = Add(copy _10, copy _2)");
    assert_eq!(defs, strings(&["_3"]));
    assert_eq!(uses, strings(&["_10", "_2"]));
}

#[test]
fn without_equals_everything_is_a_use() {
    let (defs, uses) = split_defs_uses("drop(_5) -> [return: bb2, unwind: bb3]");
    assert!(defs.is_empty());
    assert_eq!(uses, strings(&["_5"]));
}

#[test]
fn only_the_first_equals_splits() {
    let (defs, uses) = split_defs_uses("(_1.0: i32) = Eq(copy _2, copy _2) == _4");
    assert_eq!(defs, strings(&["_1"]));
    assert_eq!(uses, strings(&["_2", "_4"]));
}

#[test]
fn lines_follow_str_lines() {
    let texts = ["a\nb\r\nc", "a\n\nb\n", "\n", "", "x\r", "one"];
    for text in texts {
        let expected: Vec<&str> = text.lines().collect();
        let c = chars_of(text);
        for k in 0..expected.len() + 2 {
            let got = nth_line(&c, k).map(|l| string_from_chars(&l));
            assert_eq!(got.as_deref(), expected.get(k).copied(), "{text:?} line {k}");
        }
    }
}

#[test]
fn file_filter() {
    assert!(keeps_file("src/main.rs", "main.rs"));
    assert!(keeps_file("anything", ""));
    assert!(keeps_file("lib.rs.txt", "main.rs"));
    assert!(!keeps_file("<std macros>", "main.rs"));
}

#[test]
fn record_assembly() {
    let source = "fn main() {\r\n    let x = 1;\n}\n".to_string();
    let r = build_line_record(
        "main",
        "src/main.rs".to_string(),
        2,
        Some(source),
        "src/main.rs",
        "_1 = const 1_i32".to_string(),
        &strings(&["bb3", "bb1", "bb3"]),
    )
    .unwrap();
    assert_eq!(r.function, "main");
    assert_eq!(r.file, "src/main.rs");
    assert_eq!(r.line, 2);
    assert_eq!(r.snippet, "    let x = 1;");
    assert_eq!(r.mir_items, strings(&["_1 = const 1_i32"]));
    assert_eq!(r.defs, strings(&["_1"]));
    assert!(r.uses.is_empty());
    assert_eq!(r.succ_blocks, strings(&["bb1", "bb3"]));
}

#[test]
fn record_without_source_or_line() {
    let r = build_line_record("f", "a.rs".to_string(), 0, None, "", "x".to_string(), &vec![]).unwrap();
    assert_eq!(r.snippet, "");
    let r = build_line_record("f", "a.rs".to_string(), 9, Some("one\n".to_string()), "", "x".to_string(), &vec![])
        .unwrap();
    assert_eq!(r.snippet, "");
    let r = build_line_record("f", "a.rs".to_string(), 0, Some("first\nsecond".to_string()), "", "x".to_string(), &vec![])
        .unwrap();
    assert_eq!(r.snippet, "first");
}

#[test]
fn record_in_other_file_is_dropped() {
    let r = build_line_record("f", "<macros>".to_string(), 1, None, "main.rs", "x".to_string(), &vec![]);
    assert!(r.is_none());
}

#[test]
fn tokens_agree_with_the_regex() {
    let place = regex::Regex::new(r"_\d+").unwrap();
    let block = regex::Regex::new(r"bb\d+").unwrap();
    for text in [
        "_1 = Add(copy _22, copy _3)",
        "__7 _x _ 1_2 _09",
        "switchInt(move _5) -> [0: bb2, otherwise: bb13]",
        "bbb3 bb bb0bb1",
        "(*_4) = const 4_usize",
        "_٣ = f(_١٢) -> bb٩٠",
        "_７x bb৪৫ _² _Ⅷ",
    ] {
        let want: Vec<String> = place.find_iter(text).map(|m| m.as_str().to_string()).collect();
        assert_eq!(toks(text, "_"), want, "{text}");
        let want: Vec<String> = block.find_iter(text).map(|m| m.as_str().to_string()).collect();
        assert_eq!(toks(text, "bb"), want, "{text}");
    }
}
