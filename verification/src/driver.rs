//! The decisions of the two command-line entry points: the rustc wrapper's
//! argument list, and the `cargo mir-public` subcommand.
use vstd::prelude::*;
use crate::collect::opt_view;
use crate::text::{
    chars_of, ends_with, ends_with_chars, is_white_space, is_white_space_char, push_str,
    slice_chars, starts_with, starts_with_chars, string_from_chars, strs, trimmed, trim_chars,
};
use vstd::utf8::{decode_utf8, valid_utf8};

verus! {

broadcast use vstd::string::group_string_axioms;

// ---------------------------------------------------------------------------
// Words: `str::split_whitespace`
// ---------------------------------------------------------------------------

/// The number of characters from `i` on before the next white space.
pub open spec fn word_len(s: Seq<char>, i: int) -> nat
    decreases s.len() - i,
{
    if 0 <= i < s.len() && !is_white_space(s[i]) {
        1 + word_len(s, i + 1)
    } else {
        0
    }
}

pub proof fn lemma_word_len_bound(s: Seq<char>, i: int)
    requires
        0 <= i,
    ensures
        word_len(s, i) > 0 ==> i + word_len(s, i) <= s.len(),
    decreases s.len() - i,
{
    if 0 <= i < s.len() && !is_white_space(s[i]) {
        lemma_word_len_bound(s, i + 1);
    }
}

/// The words of `s` from `i` on: maximal runs without white space.
pub open spec fn words_from(s: Seq<char>, i: nat) -> Seq<Seq<char>>
    decreases s.len() - i,
{
    if i >= s.len() {
        Seq::empty()
    } else if is_white_space(s[i as int]) {
        words_from(s, i + 1)
    } else {
        proof {
            lemma_word_len_bound(s, i as int);
        }
        let e = i + word_len(s, i as int);
        seq![s.subrange(i as int, e as int)] + words_from(s, e)
    }
}

/// The words of `s`, as `str::split_whitespace` yields them.
pub open spec fn words(s: Seq<char>) -> Seq<Seq<char>> {
    words_from(s, 0)
}

proof fn lemma_word_len_is(s: Seq<char>, i: int, j: int)
    requires
        0 <= i <= j <= s.len(),
        forall|k: int| i <= k < j ==> !is_white_space(#[trigger] s[k]),
        j == s.len() || is_white_space(s[j]),
    ensures
        word_len(s, i) == j - i,
    decreases j - i,
{
    if i < j {
        lemma_word_len_is(s, i + 1, j);
    }
}

/// The words of `s`, each a maximal run of characters without white space.
pub fn split_words(s: &str) -> (r: Vec<String>)
    ensures
        strs(r@) == words(s@),
{
    let c = chars_of(s);
    let n = c.len();
    let mut r: Vec<String> = Vec::new();
    let mut i: usize = 0;
    assert(strs(r@) =~= Seq::<Seq<char>>::empty());
    while i < n
        invariant
            n == c@.len(),
            c@ == s@,
            i <= n,
            strs(r@) + words_from(c@, i as nat) == words(s@),
        decreases n - i,
    {
        if is_white_space_char(c[i]) {
            i = i + 1;
        } else {
            let mut e = i;
            while e < n && !is_white_space_char(c[e])
                invariant
                    i <= e <= n == c@.len(),
                    forall|k: int| i <= k < e ==> !is_white_space(#[trigger] c@[k]),
                decreases n - e,
            {
                e = e + 1;
            }
            proof {
                lemma_word_len_is(c@, i as int, e as int);
            }
            let w = slice_chars(&c, i, e);
            let ws = string_from_chars(&w);
            let ghost before = r@;
            r.push(ws);
            assert(r@ == before.push(ws));
            assert(strs(r@) =~= strs(before).push(w@));
            assert(words_from(c@, i as nat) == seq![w@] + words_from(c@, e as nat));
            assert(strs(r@) + words_from(c@, e as nat) =~= strs(before) + words_from(c@, i as nat));
            i = e;
        }
    }
    assert(strs(r@) + Seq::<Seq<char>>::empty() =~= strs(r@));
    r
}

// ---------------------------------------------------------------------------
// The rustc wrapper's arguments
// ---------------------------------------------------------------------------

/// What `Path::file_stem` gives for the path `p`: the last component's name
/// without its extension.
pub uninterp spec fn path_file_stem(p: Seq<char>) -> Option<Seq<char>>;

/// `Path::file_stem` of the path `p`, as a string. The contract names the
/// result and states nothing more: it follows the path grammar of `std`.
#[verifier::external_body]
fn file_stem_of(p: &str) -> (r: Option<String>)
    ensures
        opt_view(r) == path_file_stem(p@),
{
    match std::path::Path::new(p).file_stem() {
        Some(stem) => Some(stem.to_string_lossy().into_owned()),
        None => None,
    }
}

/// The arguments without the `rustc` that cargo puts first when it runs a
/// wrapper: argument 1 is dropped when its file stem is `rustc`.
pub open spec fn without_rustc_spec(args: Seq<Seq<char>>) -> Seq<Seq<char>> {
    if args.len() > 1 && path_file_stem(args[1]) == Some("rustc"@) {
        args.remove(1)
    } else {
        args
    }
}

/// Drops argument 1 when its file stem is `rustc`.
pub fn strip_rustc_arg(args: &mut Vec<String>)
    ensures
        strs(final(args)@) == without_rustc_spec(strs(old(args)@)),
{
    if args.len() > 1 {
        let is_rustc = match file_stem_of(args[1].as_str()) {
            Some(stem) => stem == "rustc".to_string(),
            None => false,
        };
        if is_rustc {
            let ghost before = args@;
            let _ = args.remove(1);
            assert(strs(args@) =~= strs(before).remove(1));
            return;
        }
    }
}

/// Appends the words of the extra flags, when there are any.
pub fn append_flags(args: &mut Vec<String>, flags: Option<String>)
    ensures
        strs(final(args)@) == match flags {
            Some(f) => strs(old(args)@) + words(f@),
            None => strs(old(args)@),
        },
{
    match flags {
        Some(f) => {
            let ws = split_words(f.as_str());
            let ghost before = args@;
            let n = ws.len();
            for i in 0..n
                invariant
                    n == ws@.len(),
                    args@.len() == before.len() + i,
                    strs(args@) == strs(before) + strs(ws@).subrange(0, i as int),
            {
                let ghost pre = args@;
                args.push(ws[i].clone());
                assert(args@ == pre.push(ws@[i as int]));
                assert(strs(args@) =~= strs(pre).push(strs(ws@)[i as int]));
                assert(strs(ws@).subrange(0, i + 1) =~= strs(ws@).subrange(0, i as int).push(
                    strs(ws@)[i as int],
                ));
                assert(strs(args@) =~= strs(before) + strs(ws@).subrange(0, i + 1));
            }
            assert(strs(ws@).subrange(0, n as int) =~= strs(ws@));
        },
        None => {},
    }
}

/// Some argument begins with `p`.
pub open spec fn any_starts_with(args: Seq<Seq<char>>, p: Seq<char>) -> bool {
    exists|i: int| 0 <= i < args.len() && starts_with(#[trigger] args[i], p)
}

/// Some argument ends with `p`.
pub open spec fn any_ends_with(args: Seq<Seq<char>>, p: Seq<char>) -> bool {
    exists|i: int| 0 <= i < args.len() && ends_with(#[trigger] args[i], p)
}

/// The compiler must be told the sysroot: nothing is printed and no sysroot
/// is given.
pub open spec fn needs_sysroot_spec(args: Seq<Seq<char>>) -> bool {
    !any_starts_with(args, "--print="@) && !any_starts_with(args, "--sysroot"@)
}

/// The sysroot can be found: rustup's home and toolchain, or `RUST_SYSROOT`.
pub open spec fn sysroot_known(
    home: Option<Seq<char>>,
    toolchain: Option<Seq<char>>,
    rust_sysroot: Option<Seq<char>>,
) -> bool {
    (home is Some && toolchain is Some) || rust_sysroot is Some
}

/// The sysroot: `<home>/toolchains/<toolchain>` under rustup, else
/// `RUST_SYSROOT`.
pub open spec fn sysroot_spec(
    home: Option<Seq<char>>,
    toolchain: Option<Seq<char>>,
    rust_sysroot: Option<Seq<char>>,
) -> Seq<char> {
    match (home, toolchain) {
        (Some(h), Some(t)) => h + "/toolchains/"@ + t,
        _ => rust_sysroot.unwrap(),
    }
}

/// The arguments with the compiler's defaults added: unless something is
/// printed, a `--sysroot=` when none is given, and `-Zalways-encode-mir`
/// when no argument ends with `always-encode-mir`.
pub open spec fn with_defaults_spec(args: Seq<Seq<char>>, sysroot: Seq<char>) -> Seq<Seq<char>> {
    if any_starts_with(args, "--print="@) {
        args
    } else {
        let a = if !any_starts_with(args, "--sysroot"@) {
            args.push("--sysroot="@ + sysroot)
        } else {
            args
        };
        if !any_ends_with(a, "always-encode-mir"@) {
            a.push("-Zalways-encode-mir"@)
        } else {
            a
        }
    }
}

/// The sysroot: `<home>/toolchains/<toolchain>` when rustup's home and
/// toolchain are known, else `RUST_SYSROOT`.
pub fn find_sysroot(home: Option<String>, toolchain: Option<String>, rust_sysroot: Option<String>) -> (r:
    String)
    requires
        sysroot_known(opt_view(home), opt_view(toolchain), opt_view(rust_sysroot)),
    ensures
        r@ == sysroot_spec(opt_view(home), opt_view(toolchain), opt_view(rust_sysroot)),
{
    match (home, toolchain) {
        (Some(h), Some(t)) => {
            let mut c = chars_of(h.as_str());
            push_str(&mut c, "/toolchains/");
            push_str(&mut c, t.as_str());
            string_from_chars(&c)
        },
        _ => rust_sysroot.unwrap(),
    }
}

/// Some argument begins with `p`.
fn any_arg_starts_with(args: &Vec<String>, p: &str) -> (r: bool)
    ensures
        r == any_starts_with(strs(args@), p@),
{
    let pc = chars_of(p);
    let n = args.len();
    for i in 0..n
        invariant
            n == args@.len(),
            pc@ == p@,
            forall|j: int| 0 <= j < i ==> !starts_with(#[trigger] strs(args@)[j], p@),
    {
        let ac = chars_of(args[i].as_str());
        if starts_with_chars(&ac, &pc) {
            assert(strs(args@)[i as int] == ac@);
            return true;
        }
        assert(strs(args@)[i as int] == ac@);
    }
    false
}

/// Some argument ends with `p`.
fn any_arg_ends_with(args: &Vec<String>, p: &str) -> (r: bool)
    ensures
        r == any_ends_with(strs(args@), p@),
{
    let pc = chars_of(p);
    let n = args.len();
    for i in 0..n
        invariant
            n == args@.len(),
            pc@ == p@,
            forall|j: int| 0 <= j < i ==> !ends_with(#[trigger] strs(args@)[j], p@),
    {
        let ac = chars_of(args[i].as_str());
        if ends_with_chars(&ac, &pc) {
            assert(strs(args@)[i as int] == ac@);
            return true;
        }
        assert(strs(args@)[i as int] == ac@);
    }
    false
}

/// The compiler must be told the sysroot.
pub fn needs_sysroot(args: &Vec<String>) -> (r: bool)
    ensures
        r == needs_sysroot_spec(strs(args@)),
{
    !any_arg_starts_with(args, "--print=") && !any_arg_starts_with(args, "--sysroot")
}

/// Adds the compiler's defaults: unless something is printed, the sysroot
/// when none is given, and `-Zalways-encode-mir` so that every function's
/// MIR is kept. The sysroot is looked up only when it is needed.
pub fn add_compiler_defaults(
    args: &mut Vec<String>,
    home: Option<String>,
    toolchain: Option<String>,
    rust_sysroot: Option<String>,
)
    requires
        needs_sysroot_spec(strs(old(args)@)) ==> sysroot_known(
            opt_view(home),
            opt_view(toolchain),
            opt_view(rust_sysroot),
        ),
    ensures
        strs(final(args)@) == with_defaults_spec(
            strs(old(args)@),
            sysroot_spec(opt_view(home), opt_view(toolchain), opt_view(rust_sysroot)),
        ),
{
    if any_arg_starts_with(args, "--print=") {
        return;
    }
    let ghost a0 = strs(args@);
    if !any_arg_starts_with(args, "--sysroot") {
        let root = find_sysroot(home, toolchain, rust_sysroot);
        let mut c = chars_of("--sysroot=");
        push_str(&mut c, root.as_str());
        let flag = string_from_chars(&c);
        let ghost pre = args@;
        args.push(flag);
        assert(args@ == pre.push(flag));
        assert(strs(args@) =~= strs(pre).push(flag@));
    }
    if !any_arg_ends_with(args, "always-encode-mir") {
        let ghost pre = args@;
        let flag = "-Zalways-encode-mir".to_string();
        args.push(flag);
        assert(args@ == pre.push(flag));
        assert(strs(args@) =~= strs(pre).push(flag@));
    }
}

// ---------------------------------------------------------------------------
// The version of the compiler
// ---------------------------------------------------------------------------

/// What `String::from_utf8_lossy` gives for `bytes`: their UTF-8 decoding,
/// with each invalid sequence replaced by U+FFFD.
pub uninterp spec fn utf8_lossy(bytes: Seq<u8>) -> Seq<char>;

/// `String::from_utf8_lossy`: the text of `bytes`; valid UTF-8 is decoded as
/// it is. What replaces invalid sequences is only named here.
#[verifier::external_body]
fn text_of_bytes(bytes: &Vec<u8>) -> (s: String)
    ensures
        s@ == utf8_lossy(bytes@),
        valid_utf8(bytes@) ==> s@ == decode_utf8(bytes@),
{
    String::from_utf8_lossy(bytes.as_slice()).into_owned()
}

/// The version that `rustc --version` reported: its output, trimmed, when
/// it ran and succeeded, else `unknown-rustc`.
pub open spec fn rustc_version_spec(output: Option<(bool, Seq<u8>)>) -> Seq<char> {
    match output {
        Some((true, stdout)) => trimmed(utf8_lossy(stdout)),
        _ => "unknown-rustc"@,
    }
}

/// The compiler version from the outcome of running `rustc --version`: its
/// success and its standard output, or nothing when it could not run.
pub fn rustc_version_from_output(output: Option<(bool, Vec<u8>)>) -> (r: String)
    ensures
        r@ == rustc_version_spec(
            match output {
                Some((ok, out)) => Some((ok, out@)),
                None => None,
            },
        ),
{
    match output {
        Some((true, stdout)) => {
            let text = text_of_bytes(&stdout);
            let c = chars_of(text.as_str());
            let t = trim_chars(&c);
            string_from_chars(&t)
        },
        _ => "unknown-rustc".to_string(),
    }
}

// ---------------------------------------------------------------------------
// The `cargo mir-public` subcommand
// ---------------------------------------------------------------------------

/// The arguments before the first `--`.
pub open spec fn before_dashes(args: Seq<Seq<char>>) -> Seq<Seq<char>>
    decreases args.len(),
{
    if args.len() == 0 {
        Seq::empty()
    } else if args[0] == "--"@ {
        Seq::empty()
    } else {
        seq![args[0]] + before_dashes(args.drop_first())
    }
}

/// The arguments after the first `--`, or none when there is none.
pub open spec fn after_dashes(args: Seq<Seq<char>>) -> Seq<Seq<char>>
    decreases args.len(),
{
    if args.len() == 0 {
        Seq::empty()
    } else if args[0] == "--"@ {
        args.drop_first()
    } else {
        after_dashes(args.drop_first())
    }
}

/// `name` is among the arguments before the first `--`.
pub open spec fn has_arg_flag_spec(args: Seq<Seq<char>>, name: Seq<char>) -> bool {
    before_dashes(args).contains(name)
}

/// The position of the first `--` in `args`, or their number.
fn dashes_at(args: &Vec<String>, from: usize) -> (r: usize)
    requires
        from <= args@.len(),
    ensures
        from <= r <= args@.len(),
        forall|i: int| from <= i < r ==> strs(args@)[i] != "--"@,
        r < args@.len() ==> strs(args@)[r as int] == "--"@,
        before_dashes(strs(args@).skip(from as int)) == strs(args@).subrange(from as int, r as int),
        after_dashes(strs(args@).skip(from as int)) == if r < args@.len() {
            strs(args@).skip(r + 1)
        } else {
            Seq::empty()
        },
{
    let n = args.len();
    let dd = "--".to_string();
    let mut i = from;
    let ghost all = strs(args@);
    while i < n && args[i] != dd
        invariant
            from <= i <= n == args@.len(),
            all == strs(args@),
            dd@ == "--"@,
            forall|k: int| from <= k < i ==> all[k] != "--"@,
        decreases n - i,
    {
        assert(all[i as int] == args@[i as int]@);
        i = i + 1;
    }
    proof {
        if i < n {
            assert(all[i as int] == args@[i as int]@);
        }
        lemma_dashes(all, from as int, i as int);
    }
    i
}

proof fn lemma_dashes(all: Seq<Seq<char>>, from: int, r: int)
    requires
        0 <= from <= r <= all.len(),
        forall|k: int| from <= k < r ==> all[k] != "--"@,
        r < all.len() ==> all[r] == "--"@,
    ensures
        before_dashes(all.skip(from)) == all.subrange(from, r),
        after_dashes(all.skip(from)) == if r < all.len() {
            all.skip(r + 1)
        } else {
            Seq::empty()
        },
    decreases r - from,
{
    let s = all.skip(from);
    if from == r {
        if r < all.len() {
            assert(s.drop_first() =~= all.skip(r + 1));
        } else {
            assert(s.len() == 0);
        }
        assert(all.subrange(from, r) =~= Seq::<Seq<char>>::empty());
    } else {
        lemma_dashes(all, from + 1, r);
        assert(s.drop_first() =~= all.skip(from + 1));
        assert(s[0] == all[from]);
        assert(all.subrange(from, r) =~= seq![all[from]] + all.subrange(from + 1, r));
    }
}

/// `name` is among the arguments before the first `--`.
pub fn has_arg_flag(args: &Vec<String>, name: &str) -> (r: bool)
    ensures
        r == has_arg_flag_spec(strs(args@), name@),
{
    let end = dashes_at(args, 0);
    let ghost all = strs(args@);
    assert(all.skip(0) =~= all);
    let target = name.to_string();
    for i in 0..end
        invariant
            end <= args@.len(),
            all == strs(args@),
            target@ == name@,
            before_dashes(all) == all.subrange(0, end as int),
            forall|k: int| 0 <= k < i ==> all[k] != name@,
    {
        assert(all[i as int] == args@[i as int]@);
        if args[i] == target {
            assert(all.subrange(0, end as int)[i as int] == name@);
            return true;
        }
    }
    assert forall|k: int| 0 <= k < all.subrange(0, end as int).len() implies all.subrange(
        0,
        end as int,
    )[k] != name@ by {
        assert(all.subrange(0, end as int)[k] == all[k]);
    }
    false
}

/// What `cargo mir-public` is asked to do.
#[derive(Debug, Clone, Copy, PartialEq, Eq)]
pub enum CargoAction {
    /// Print the usage.
    Help,
    /// Print the version.
    Version,
    /// Run `cargo build` with the wrapper.
    Analyze,
    /// Nothing: the subcommand name is missing.
    Idle,
}

/// The action for the arguments of `cargo-mir-public`: help first, then the
/// version, then the analysis when the subcommand is `mir-public`.
pub open spec fn cargo_action_spec(args: Seq<Seq<char>>) -> CargoAction {
    if has_arg_flag_spec(args, "--help"@) || has_arg_flag_spec(args, "-h"@) {
        CargoAction::Help
    } else if has_arg_flag_spec(args, "--version"@) || has_arg_flag_spec(args, "-V"@) {
        CargoAction::Version
    } else if args.len() > 1 && args[1] == "mir-public"@ {
        CargoAction::Analyze
    } else {
        CargoAction::Idle
    }
}

/// The action for the arguments of `cargo-mir-public`.
pub fn cargo_action(args: &Vec<String>) -> (r: CargoAction)
    ensures
        r == cargo_action_spec(strs(args@)),
{
    if has_arg_flag(args, "--help") || has_arg_flag(args, "-h") {
        CargoAction::Help
    } else if has_arg_flag(args, "--version") || has_arg_flag(args, "-V") {
        CargoAction::Version
    } else if args.len() > 1 && args[1] == "mir-public".to_string() {
        assert(strs(args@)[1] == args@[1]@);
        CargoAction::Analyze
    } else {
        proof {
            if args@.len() > 1 {
                assert(strs(args@)[1] == args@[1]@);
            }
        }
        CargoAction::Idle
    }
}

/// `s` from position `k` on; nothing when `k` is past its end.
pub open spec fn drop_n(s: Seq<Seq<char>>, k: int) -> Seq<Seq<char>> {
    if k < s.len() {
        s.subrange(k, s.len() as int)
    } else {
        Seq::empty()
    }
}

/// The words joined by single spaces.
pub open spec fn joined_flags(args: Seq<Seq<char>>) -> Seq<char> {
    crate::text::join(args, " "@)
}

/// How `cargo mir-public` splits its arguments: those after the subcommand
/// name and before the first `--` are the wrapper's flags, joined by
/// spaces; those after that `--` go to `cargo build`.
pub fn cargo_build_args(args: &Vec<String>) -> (r: (String, Vec<String>))
    ensures
        r.0@ == joined_flags(before_dashes(drop_n(strs(args@), 2))),
        strs(r.1@) == after_dashes(drop_n(strs(args@), 2)),
{
    let n = args.len();
    let from: usize = if n < 2 {
        n
    } else {
        2
    };
    let ghost all = strs(args@);
    assert(all.skip(from as int) =~= drop_n(all, 2));
    let end = dashes_at(args, from);
    let mut flags: Vec<Vec<char>> = Vec::new();
    for i in from..end
        invariant
            from <= end <= n == args@.len(),
            all == strs(args@),
            flags@.len() == i - from,
            crate::text::char_vecs(flags@) == all.subrange(from as int, i as int),
    {
        let ghost pre = flags@;
        let c = chars_of(args[i].as_str());
        flags.push(c);
        assert(flags@ == pre.push(c));
        assert(all[i as int] == c@);
        assert(crate::text::char_vecs(flags@) =~= all.subrange(from as int, i + 1));
    }
    let sep = chars_of(" ");
    let joined = crate::text::join_chars(&flags, &sep);
    let mut rest: Vec<String> = Vec::new();
    if end < n {
        for i in end + 1..n
            invariant
                end < n == args@.len(),
                all == strs(args@),
                rest@.len() == i - end - 1,
                strs(rest@) == all.subrange(end + 1, i as int),
        {
            let ghost pre = rest@;
            rest.push(args[i].clone());
            assert(rest@ == pre.push(args@[i as int]));
            assert(strs(rest@) =~= all.subrange(end + 1, i + 1));
        }
        assert(all.subrange(end + 1, n as int) =~= all.skip(end + 1));
    } else {
        assert(strs(rest@) =~= Seq::<Seq<char>>::empty());
    }
    (string_from_chars(&joined), rest)
}

/// Where a candidate location of the wrapper binary starts.
#[derive(Debug, Clone, Copy, PartialEq, Eq)]
pub enum SearchBase {
    /// The directory of the running `cargo-mir-public`.
    ExeDir,
    /// The `i`-th of the current directory and its parents (0 is the
    /// current directory itself).
    Ancestor(usize),
    /// The current directory.
    Cwd,
}

/// The file name of the wrapper binary.
pub open spec fn wrapper_name_spec(windows: bool) -> Seq<char> {
    if windows {
        "mir_public.exe"@
    } else {
        "mir_public"@
    }
}

/// The places where the wrapper binary is looked for, in the order tried:
/// next to this program; then, from the current directory up to the root,
/// the debug and the release build of the known checkout; then the debug
/// and the release build under the current directory. A base that is not
/// known (no directory of this program, no current directory) is skipped.
pub open spec fn wrapper_search_spec(has_exe_dir: bool, ancestors: nat, has_cwd: bool, windows: bool) -> Seq<
    (SearchBase, Seq<Seq<char>>),
> {
    let name = wrapper_name_spec(windows);
    (if has_exe_dir {
        seq![(SearchBase::ExeDir, seq![name])]
    } else {
        Seq::empty()
    }) + Seq::new(
        2 * ancestors,
        |i: int|
            (
                SearchBase::Ancestor((i / 2) as usize),
                seq![
                    "experiment"@,
                    "fn-signature-extractor"@,
                    "taintAna"@,
                    "target"@,
                    if i % 2 == 0 {
                        "debug"@
                    } else {
                        "release"@
                    },
                    name,
                ],
            ),
    ) + (if has_cwd {
        seq![
            (SearchBase::Cwd, seq!["target"@, "debug"@, name]),
            (SearchBase::Cwd, seq!["target"@, "release"@, name]),
        ]
    } else {
        Seq::empty()
    })
}

/// The views of search candidates.
pub open spec fn candidate_paths(c: Seq<(SearchBase, Vec<String>)>) -> Seq<(SearchBase, Seq<Seq<char>>)> {
    c.map_values(|x: (SearchBase, Vec<String>)| (x.0, strs(x.1@)))
}

/// A list of path components.
fn path_parts(parts: &[&str]) -> (r: Vec<String>)
    ensures
        strs(r@) == parts@.map_values(|p: &str| p@),
{
    let mut r: Vec<String> = Vec::new();
    let n = parts.len();
    for i in 0..n
        invariant
            n == parts@.len(),
            r@.len() == i,
            strs(r@) == parts@.map_values(|p: &str| p@).subrange(0, i as int),
    {
        let ghost before = r@;
        r.push(parts[i].to_string());
        assert(r@ == before.push(r@[i as int]));
        assert(strs(r@) =~= parts@.map_values(|p: &str| p@).subrange(0, i + 1));
    }
    assert(parts@.map_values(|p: &str| p@).subrange(0, n as int) =~= parts@.map_values(|p: &str| p@));
    r
}

/// The places where the wrapper binary is looked for, in the order tried;
/// `ancestors` is the number of directories from the current one up to the
/// root.
pub fn wrapper_search_order(has_exe_dir: bool, ancestors: usize, has_cwd: bool, windows: bool) -> (r: Vec<
    (SearchBase, Vec<String>),
>)
    requires
        ancestors < usize::MAX / 2,
    ensures
        candidate_paths(r@) == wrapper_search_spec(has_exe_dir, ancestors as nat, has_cwd, windows),
{
    let name: &str = if windows {
        "mir_public.exe"
    } else {
        "mir_public"
    };
    let ghost nm = wrapper_name_spec(windows);
    assert(name@ == nm);
    let ghost head: Seq<(SearchBase, Seq<Seq<char>>)> = if has_exe_dir {
        seq![(SearchBase::ExeDir, seq![nm])]
    } else {
        Seq::empty()
    };
    let ghost middle = Seq::new(
        2 * (ancestors as nat),
        |i: int|
            (
                SearchBase::Ancestor((i / 2) as usize),
                seq![
                    "experiment"@,
                    "fn-signature-extractor"@,
                    "taintAna"@,
                    "target"@,
                    if i % 2 == 0 {
                        "debug"@
                    } else {
                        "release"@
                    },
                    nm,
                ],
            ),
    );
    let mut r: Vec<(SearchBase, Vec<String>)> = Vec::new();
    if has_exe_dir {
        let one = [name];
        let p = path_parts(&one);
        assert(one@.map_values(|q: &str| q@) =~= seq![nm]);
        r.push((SearchBase::ExeDir, p));
        assert(candidate_paths(r@) =~= head);
    } else {
        assert(candidate_paths(r@) =~= head);
    }
    for a in 0..ancestors
        invariant
            ancestors < usize::MAX / 2,
            name@ == nm,
            nm == wrapper_name_spec(windows),
            middle == Seq::new(
                2 * (ancestors as nat),
                |i: int|
                    (
                        SearchBase::Ancestor((i / 2) as usize),
                        seq![
                            "experiment"@,
                            "fn-signature-extractor"@,
                            "taintAna"@,
                            "target"@,
                            if i % 2 == 0 {
                                "debug"@
                            } else {
                                "release"@
                            },
                            nm,
                        ],
                    ),
            ),
            r@.len() == head.len() + 2 * a,
            candidate_paths(r@) == head + middle.subrange(0, 2 * a),
    {
        let ghost before = r@;
        let dp = ["experiment", "fn-signature-extractor", "taintAna", "target", "debug", name];
        let d = path_parts(&dp);
        assert(dp@.map_values(|q: &str| q@) =~= seq![
            "experiment"@,
            "fn-signature-extractor"@,
            "taintAna"@,
            "target"@,
            "debug"@,
            nm,
        ]);
        r.push((SearchBase::Ancestor(a), d));
        let rp = ["experiment", "fn-signature-extractor", "taintAna", "target", "release", name];
        let rel = path_parts(&rp);
        assert(rp@.map_values(|q: &str| q@) =~= seq![
            "experiment"@,
            "fn-signature-extractor"@,
            "taintAna"@,
            "target"@,
            "release"@,
            nm,
        ]);
        r.push((SearchBase::Ancestor(a), rel));
        proof {
            assert(r@ == before.push((SearchBase::Ancestor(a), d)).push((SearchBase::Ancestor(a), rel)));
            assert((2 * a) / 2 == a);
            assert((2 * a + 1) / 2 == a);
            assert(middle[2 * a] == candidate_paths(r@)[before.len() as int]);
            assert(middle[2 * a + 1] == candidate_paths(r@)[before.len() + 1int]);
            let cr = candidate_paths(r@);
            let want = head + middle.subrange(0, 2 * (a + 1));
            assert(cr.len() == want.len());
            assert forall|k: int| 0 <= k < cr.len() implies cr[k] == want[k] by {
                if k < before.len() {
                    assert(cr[k] == candidate_paths(before)[k]);
                    assert(candidate_paths(before)[k] == (head + middle.subrange(0, 2 * a))[k]);
                    if k >= head.len() {
                        assert(middle.subrange(0, 2 * a)[k - head.len()] == middle[k - head.len()]);
                    }
                } else if k == before.len() {
                    assert(want[k] == middle[2 * a]);
                } else {
                    assert(want[k] == middle[2 * a + 1]);
                }
            }
            assert(cr =~= want);
        }
    }
    assert(middle.subrange(0, 2 * (ancestors as int)) =~= middle);
    if has_cwd {
        let ghost before = r@;
        let dp = ["target", "debug", name];
        let d = path_parts(&dp);
        assert(dp@.map_values(|q: &str| q@) =~= seq!["target"@, "debug"@, nm]);
        r.push((SearchBase::Cwd, d));
        let rp = ["target", "release", name];
        let rel = path_parts(&rp);
        assert(rp@.map_values(|q: &str| q@) =~= seq!["target"@, "release"@, nm]);
        r.push((SearchBase::Cwd, rel));
        assert(r@ == before.push((SearchBase::Cwd, d)).push((SearchBase::Cwd, rel)));
        assert(candidate_paths(r@) =~= wrapper_search_spec(has_exe_dir, ancestors as nat, has_cwd, windows));
    } else {
        assert(candidate_paths(r@) =~= wrapper_search_spec(has_exe_dir, ancestors as nat, has_cwd, windows));
    }
    r
}

/// The log level for the analysis: the one given, else `info`.
pub fn log_level(given: Option<String>) -> (r: String)
    ensures
        r@ == match given {
            Some(g) => g@,
            None => "info"@,
        },
{
    match given {
        Some(g) => g,
        None => "info".to_string(),
    }
}

} // verus!
