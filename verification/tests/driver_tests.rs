use mir_public::driver::{
    add_compiler_defaults, append_flags, cargo_action, cargo_build_args, find_sysroot, has_arg_flag,
    log_level, needs_sysroot, rustc_version_from_output, split_words, strip_rustc_arg, wrapper_search_order,
    CargoAction, SearchBase,
};

fn strings(xs: &[&str]) -> Vec<String> {
    xs.iter().map(|x| x.to_string()).collect()
}

#[test]
fn words_follow_split_whitespace() {
    for s in ["  -Zfoo   --bar\tbaz\n", "", "   ", "one", "a\u{3000}b\u{85}c"] {
        let expected: Vec<String> = s.split_whitespace().map(|w| w.to_string()).collect();
        assert_eq!(split_words(s), expected, "{s:?}");
    }
}

#[test]
fn rustc_argument_is_dropped() {
    let mut a = strings(&["mir_public", "/usr/bin/rustc", "--crate-name", "x"]);
    strip_rustc_arg(&mut a);
    assert_eq!(a, strings(&["mir_public", "--crate-name", "x"]));
    let mut a = strings(&["mir_public", "rustc.exe", "a.rs"]);
    strip_rustc_arg(&mut a);
    assert_eq!(a, strings(&["mir_public", "a.rs"]));
    let mut a = strings(&["mir_public", "rustcx", "a.rs"]);
    strip_rustc_arg(&mut a);
    assert_eq!(a, strings(&["mir_public", "rustcx", "a.rs"]));
    let mut a = strings(&["mir_public"]);
    strip_rustc_arg(&mut a);
    assert_eq!(a, strings(&["mir_public"]));
}

#[test]
fn extra_flags_are_appended() {
    let mut a = strings(&["mir_public", "a.rs"]);
    append_flags(&mut a, Some(" -Zx  --y ".to_string()));
    assert_eq!(a, strings(&["mir_public", "a.rs", "-Zx", "--y"]));
    append_flags(&mut a, None);
    assert_eq!(a.len(), 4);
}

#[test]
fn sysroot_lookup() {
    assert_eq!(
        find_sysroot(Some("/home/u/.rustup".to_string()), Some("nightly".to_string()), None),
        "/home/u/.rustup/toolchains/nightly"
    );
    assert_eq!(find_sysroot(Some("/h".to_string()), None, Some("/sys".to_string())), "/sys");
}

#[test]
fn compiler_defaults_are_added() {
    let mut a = strings(&["mir_public", "a.rs"]);
    assert!(needs_sysroot(&a));
    add_compiler_defaults(&mut a, None, None, Some("/sys".to_string()));
    assert_eq!(a, strings(&["mir_public", "a.rs", "--sysroot=/sys", "-Zalways-encode-mir"]));
}

#[test]
fn given_sysroot_and_encoding_are_kept() {
    let mut a = strings(&["mir_public", "--sysroot", "/x", "-Z", "always-encode-mir"]);
    assert!(!needs_sysroot(&a));
    add_compiler_defaults(&mut a, None, None, None);
    assert_eq!(a, strings(&["mir_public", "--sysroot", "/x", "-Z", "always-encode-mir"]));
}

#[test]
fn printing_adds_nothing() {
    let mut a = strings(&["mir_public", "--print=cfg"]);
    assert!(!needs_sysroot(&a));
    add_compiler_defaults(&mut a, None, None, None);
    assert_eq!(a, strings(&["mir_public", "--print=cfg"]));
}

#[test]
fn version_from_rustc_output() {
    assert_eq!(rustc_version_from_output(Some((true, b"rustc 1.80.0 (abc)\n".to_vec()))), "rustc 1.80.0 (abc)");
    assert_eq!(rustc_version_from_output(Some((false, b"rustc 1.80.0\n".to_vec()))), "unknown-rustc");
    assert_eq!(rustc_version_from_output(None), "unknown-rustc");
    assert_eq!(rustc_version_from_output(Some((true, vec![0x72, 0xff, 0x0a]))), "r\u{fffd}");
}

#[test]
fn flags_before_double_dash() {
    let a = strings(&["cargo-mir-public", "mir-public", "--help", "--", "--version"]);
    assert!(has_arg_flag(&a, "--help"));
    assert!(!has_arg_flag(&a, "--version"));
    assert!(!has_arg_flag(&a, "--"));
}

#[test]
fn cargo_actions() {
    assert_eq!(cargo_action(&strings(&["c", "mir-public", "-h"])), CargoAction::Help);
    assert_eq!(cargo_action(&strings(&["c", "mir-public", "-V"])), CargoAction::Version);
    assert_eq!(cargo_action(&strings(&["c", "mir-public", "--", "-h"])), CargoAction::Analyze);
    assert_eq!(cargo_action(&strings(&["c", "build"])), CargoAction::Idle);
    assert_eq!(cargo_action(&strings(&["c"])), CargoAction::Idle);
}

#[test]
fn cargo_arguments_split_at_double_dash() {
    let (flags, rest) = cargo_build_args(&strings(&["c", "mir-public", "-Za", "-Zb", "--", "--bin", "x", "--", "y"]));
    assert_eq!(flags, "-Za -Zb");
    assert_eq!(rest, strings(&["--bin", "x", "--", "y"]));
    let (flags, rest) = cargo_build_args(&strings(&["c", "mir-public", "-Za"]));
    assert_eq!(flags, "-Za");
    assert!(rest.is_empty());
    let (flags, rest) = cargo_build_args(&strings(&["c"]));
    assert_eq!(flags, "");
    assert!(rest.is_empty());
}

#[test]
fn log_level_defaults_to_info() {
    assert_eq!(log_level(None), "info");
    assert_eq!(log_level(Some("debug".to_string())), "debug");
}

#[test]
fn wrapper_search_order_tries_exe_dir_then_checkouts_then_target() {
    let order = wrapper_search_order(true, 2, true, false);
    let want: Vec<(SearchBase, Vec<&str>)> = vec![
        (SearchBase::ExeDir, vec!["mir_public"]),
        (SearchBase::Ancestor(0), vec!["experiment", "fn-signature-extractor", "taintAna", "target", "debug", "mir_public"]),
        (SearchBase::Ancestor(0), vec!["experiment", "fn-signature-extractor", "taintAna", "target", "release", "mir_public"]),
        (SearchBase::Ancestor(1), vec!["experiment", "fn-signature-extractor", "taintAna", "target", "debug", "mir_public"]),
        (SearchBase::Ancestor(1), vec!["experiment", "fn-signature-extractor", "taintAna", "target", "release", "mir_public"]),
        (SearchBase::Cwd, vec!["target", "debug", "mir_public"]),
        (SearchBase::Cwd, vec!["target", "release", "mir_public"]),
    ];
    assert_eq!(order.len(), want.len());
    for ((b, p), (wb, wp)) in order.iter().zip(want.iter()) {
        assert_eq!(b, wb);
        assert_eq!(p, &wp.iter().map(|s| s.to_string()).collect::<Vec<_>>());
    }
    let bare = wrapper_search_order(false, 0, false, true);
    assert!(bare.is_empty());
    let win = wrapper_search_order(true, 0, false, true);
    assert_eq!(win.len(), 1);
    assert_eq!(win[0].1, vec!["mir_public.exe".to_string()]);
}
