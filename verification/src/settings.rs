//! Analysis settings, from the values of the environment variables that
//! configure a run.
use vstd::prelude::*;
use crate::text::{chars_of, is_ascii_digit, is_ascii_digit_char};

verus! {

broadcast use vstd::string::group_string_axioms;

/// Where the graph is written and the depth parameter recorded in it.
#[derive(Debug, Clone)]
pub struct AnalysisConfig {
    pub output_path: String,
    pub depth_k: u32,
}

/// The value of an ASCII digit.
pub open spec fn digit_value(c: char) -> int {
    (c as u32) as int - 0x30
}

/// The number that a string of decimal digits denotes.
pub open spec fn digits_value(d: Seq<char>) -> nat
    decreases d.len(),
{
    if d.len() == 0 {
        0
    } else {
        (digits_value(d.drop_last()) * 10 + digit_value(d.last())) as nat
    }
}

/// Every character of `d` is an ASCII digit.
pub open spec fn all_digits(d: Seq<char>) -> bool {
    forall|i: int| 0 <= i < d.len() ==> is_ascii_digit(#[trigger] d[i])
}

/// `s` without one leading `+`.
pub open spec fn unsigned_digits(s: Seq<char>) -> Seq<char> {
    if s.len() > 0 && s[0] == '+' {
        s.drop_first()
    } else {
        s
    }
}

/// What `str::parse::<u32>` gives: an optional `+` followed by one or more
/// ASCII digits whose value fits in 32 bits, else nothing.
pub open spec fn parse_u32_spec(s: Seq<char>) -> Option<u32> {
    let d = unsigned_digits(s);
    if d.len() > 0 && all_digits(d) && digits_value(d) <= u32::MAX {
        Some(digits_value(d) as u32)
    } else {
        None
    }
}

/// The output path used when none is configured.
pub open spec fn default_output_path() -> Seq<char> {
    "mir_public_graph.json"@
}

/// The configuration that the values of `MIR_PUBLIC_OUTPUT` and
/// `MIR_PUBLIC_DEPTH_K` (each absent when unset or not Unicode) give.
pub open spec fn config_matches(c: AnalysisConfig, output: Option<Seq<char>>, depth: Option<Seq<char>>) -> bool {
    &&& c.output_path@ == match output {
        Some(o) => o,
        None => default_output_path(),
    }
    &&& c.depth_k == match depth {
        Some(d) => match parse_u32_spec(d) {
            Some(v) => v,
            None => 0u32,
        },
        None => 0u32,
    }
}

/// The number that `s` denotes in decimal, as `str::parse::<u32>` reads it.
pub fn parse_u32(s: &str) -> (r: Option<u32>)
    ensures
        r == parse_u32_spec(s@),
{
    let c = chars_of(s);
    let n = c.len();
    let start: usize = if n > 0 && c[0] == '+' {
        1
    } else {
        0
    };
    let ghost d = unsigned_digits(s@);
    assert(d =~= c@.subrange(start as int, n as int));
    if start >= n {
        return None;
    }
    let cap: u64 = 0x1_0000_0000;
    let mut acc: u64 = 0;
    let mut i = start;
    while i < n
        invariant
            start <= i <= n == c@.len(),
            d == c@.subrange(start as int, n as int),
            c@ == s@,
            d == unsigned_digits(s@),
            cap == 0x1_0000_0000,
            all_digits(c@.subrange(start as int, i as int)),
            acc as int == if digits_value(c@.subrange(start as int, i as int)) < cap {
                digits_value(c@.subrange(start as int, i as int)) as int
            } else {
                cap as int
            },
        decreases n - i,
    {
        let ch = c[i];
        if !is_ascii_digit_char(ch) {
            assert(d[i - start] == ch);
            assert(!all_digits(d));
            return None;
        }
        let ghost pre = c@.subrange(start as int, i as int);
        let ghost post = c@.subrange(start as int, i + 1);
        assert(post.drop_last() =~= pre);
        assert(post.last() == ch);
        let dig = (ch as u32 - 0x30) as u64;
        assert(digits_value(post) == digits_value(pre) * 10 + dig);
        let next = acc * 10 + dig;
        acc = if next >= cap {
            cap
        } else {
            next
        };
        assert(all_digits(post)) by {
            assert forall|k: int| 0 <= k < post.len() implies is_ascii_digit(#[trigger] post[k]) by {
                if k < pre.len() {
                    assert(post[k] == pre[k]);
                }
            }
        }
        i = i + 1;
    }
    if acc >= cap {
        None
    } else {
        Some(acc as u32)
    }
}

impl AnalysisConfig {
    /// The configuration from the values of `MIR_PUBLIC_OUTPUT` and
    /// `MIR_PUBLIC_DEPTH_K`: the output path defaults to
    /// `mir_public_graph.json`, and the depth to 0 when unset or not a
    /// number.
    pub fn from_values(output: Option<String>, depth: Option<String>) -> (c: AnalysisConfig)
        ensures
            config_matches(
                c,
                match output {
                    Some(o) => Some(o@),
                    None => None,
                },
                match depth {
                    Some(d) => Some(d@),
                    None => None,
                },
            ),
    {
        let output_path = match output {
            Some(o) => o,
            None => "mir_public_graph.json".to_string(),
        };
        let depth_k = match &depth {
            Some(d) => match parse_u32(d.as_str()) {
                Some(v) => v,
                None => 0,
            },
            None => 0,
        };
        AnalysisConfig { output_path, depth_k }
    }
}

} // verus!
