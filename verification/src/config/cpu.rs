//! Effective processor count for automatic worker sizing: the host's
//! parallelism, limited by the control group's CPU quota where there is one.

use vstd::prelude::*;
use vstd::string::*;
use vstd::utf8::*;

use crate::bytes::{number, parse_number};
use crate::text::{is_space, is_space_char, same, to_chars};

verus! {

/// Whole cores that an allowance of `quota` per `period` is worth, rounded up.
pub open spec fn cores(quota: u64, period: u64) -> Option<usize> {
    if quota == 0 || period == 0 {
        None
    } else {
        Some(((quota + period - 1) / (period as int)) as usize)
    }
}

pub fn cores_from_quota(quota: u64, period: u64) -> (r: Option<usize>)
    ensures
        r == cores(quota, period),
{
    if quota == 0 || period == 0 {
        return None;
    }
    let n: u128 = (quota as u128 + period as u128 - 1) / (period as u128);
    assert(n == (quota + period - 1) / (period as int));
    assert(n <= u64::MAX) by (nonlinear_arith)
        requires
            n == (quota + period - 1) / (period as int),
            period >= 1,
    ;
    Some(n as u64 as usize)
}

/// The first run of characters that are no white space, and what follows it.
pub open spec fn word_start(s: Seq<char>) -> int
    decreases s.len(),
{
    if s.len() > 0 && is_space(s[0]) {
        1 + word_start(s.subrange(1, s.len() as int))
    } else {
        0
    }
}

pub open spec fn word_len(s: Seq<char>) -> int
    decreases s.len(),
{
    if s.len() > 0 && !is_space(s[0]) {
        1 + word_len(s.subrange(1, s.len() as int))
    } else {
        0
    }
}

/// The first word of a text and the rest, if there is a word.
pub open spec fn next_word(s: Seq<char>) -> Option<(Seq<char>, Seq<char>)> {
    let a = word_start(s);
    let t = s.subrange(a, s.len() as int);
    let n = word_len(t);
    if n == 0 {
        None
    } else {
        Some((t.subrange(0, n), t.subrange(n, t.len() as int)))
    }
}

fn skip_spaces(s: &Vec<char>, from: usize) -> (r: usize)
    requires
        from <= s@.len(),
    ensures
        from <= r <= s@.len(),
        r - from == word_start(s@.subrange(from as int, s@.len() as int)),
{
    let mut i: usize = from;
    while i < s.len() && is_space_char(s[i])
        invariant
            from <= i <= s@.len(),
            word_start(s@.subrange(from as int, s@.len() as int)) == i - from + word_start(
                s@.subrange(i as int, s@.len() as int),
            ),
        decreases s@.len() - i,
    {
        proof {
            let t = s@.subrange(i as int, s@.len() as int);
            assert(t.subrange(1, t.len() as int) =~= s@.subrange(i + 1, s@.len() as int));
        }
        i += 1;
    }
    proof {
        let t = s@.subrange(i as int, s@.len() as int);
        if i < s@.len() {
            assert(t[0] == s@[i as int]);
        }
    }
    i
}

fn skip_word(s: &Vec<char>, from: usize) -> (r: usize)
    requires
        from <= s@.len(),
    ensures
        from <= r <= s@.len(),
        r - from == word_len(s@.subrange(from as int, s@.len() as int)),
{
    let mut i: usize = from;
    while i < s.len() && !is_space_char(s[i])
        invariant
            from <= i <= s@.len(),
            word_len(s@.subrange(from as int, s@.len() as int)) == i - from + word_len(
                s@.subrange(i as int, s@.len() as int),
            ),
        decreases s@.len() - i,
    {
        proof {
            let t = s@.subrange(i as int, s@.len() as int);
            assert(t.subrange(1, t.len() as int) =~= s@.subrange(i + 1, s@.len() as int));
        }
        i += 1;
    }
    proof {
        let t = s@.subrange(i as int, s@.len() as int);
        if i < s@.len() {
            assert(t[0] == s@[i as int]);
        }
    }
    i
}

/// The quota of the second control-group version: `<quota> <period>` in
/// microseconds, or `max`.
pub open spec fn quota_v2(raw: Seq<char>) -> Option<usize> {
    match next_word(raw) {
        None => None,
        Some((quota, rest)) => if quota == "max"@ {
            None
        } else {
            match number(encode_utf8(quota), u64::MAX as nat) {
                None => None,
                Some(q) => match next_word(rest) {
                    None => cores(q as u64, 100000),
                    Some((period, _)) => match number(encode_utf8(period), u64::MAX as nat) {
                        None => None,
                        Some(p) => cores(q as u64, p as u64),
                    },
                },
            }
        },
    }
}

fn parse_v2(raw: &str) -> (r: Option<usize>)
    ensures
        r == quota_v2(raw@),
{
    let s = to_chars(raw);
    let a: usize = skip_spaces(&s, 0);
    assert(s@.subrange(0, s@.len() as int) =~= s@);
    let b: usize = skip_word(&s, a);
    if a == b {
        return None;
    }
    let quota = raw.substring_char(a, b);
    proof {
        let t = s@.subrange(a as int, s@.len() as int);
        assert(quota@ =~= t.subrange(0, b - a));
        assert(t.subrange(b - a, t.len() as int) =~= s@.subrange(b as int, s@.len() as int));
    }
    if same(quota, "max") {
        return None;
    }
    let q: u64 = match parse_number(quota.as_bytes(), u64::MAX) {
        Some(q) => q,
        None => {
            return None;
        },
    };
    let c: usize = skip_spaces(&s, b);
    let d: usize = skip_word(&s, c);
    let ghost rest = s@.subrange(b as int, s@.len() as int);
    assert(rest.subrange(c - b, rest.len() as int) =~= s@.subrange(c as int, s@.len() as int));
    if c == d {
        return cores_from_quota(q, 100000);
    }
    let period = raw.substring_char(c, d);
    assert(period@ =~= s@.subrange(c as int, s@.len() as int).subrange(0, d - c));
    match parse_number(period.as_bytes(), u64::MAX) {
        Some(p) => cores_from_quota(q, p),
        None => None,
    }
}

/// A signed number that stands alone between white space, as the 64 bits
/// that hold it.
pub open spec fn signed_bits(raw: Seq<char>) -> Option<(bool, u64)> {
    match next_word(raw) {
        None => None,
        Some((w, rest)) => if word_start(rest) != rest.len() {
            None
        } else {
            let b = encode_utf8(w);
            if b.len() > 0 && b[0] == 45 {
                let digits = b.subrange(1, b.len() as int);
                if digits.len() > 0 && digits[0] == 43 {
                    None
                } else {
                    match number(digits, 9223372036854775808) {
                        None => None,
                        Some(n) => if n == 0 {
                            Some((false, 0))
                        } else {
                            Some((true, (18446744073709551616 - n) as u64))
                        },
                    }
                }
            } else {
                match number(b, i64::MAX as nat) {
                    None => None,
                    Some(n) => Some((false, n as u64)),
                }
            }
        },
    }
}

fn parse_signed(raw: &str) -> (r: Option<(bool, u64)>)
    ensures
        r == signed_bits(raw@),
{
    let s = to_chars(raw);
    let a: usize = skip_spaces(&s, 0);
    assert(s@.subrange(0, s@.len() as int) =~= s@);
    let b: usize = skip_word(&s, a);
    if a == b {
        return None;
    }
    let w = raw.substring_char(a, b);
    let c: usize = skip_spaces(&s, b);
    proof {
        let t = s@.subrange(a as int, s@.len() as int);
        assert(w@ =~= t.subrange(0, b - a));
        assert(t.subrange(b - a, t.len() as int) =~= s@.subrange(b as int, s@.len() as int));
    }
    if c != s.len() {
        return None;
    }
    let bytes = w.as_bytes();
    if bytes.len() > 0 && bytes[0] == 45 {
        let digits = &bytes[1..bytes.len()];
        if digits.len() > 0 && digits[0] == 43 {
            return None;
        }
        match parse_number(digits, 9223372036854775808) {
            Some(n) => if n == 0 {
                Some((false, 0))
            } else {
                Some((true, u64::MAX - n + 1))
            },
            None => None,
        }
    } else {
        match parse_number(bytes, 9223372036854775807) {
            Some(n) => Some((false, n)),
            None => None,
        }
    }
}

/// The quota of the first control-group version: quota and period in files of
/// their own; a quota that is not positive means no limit.
pub open spec fn quota_v1(quota: Option<Seq<char>>, period: Option<Seq<char>>) -> Option<usize> {
    match (quota, period) {
        (Some(q), Some(p)) => match (signed_bits(q), signed_bits(p)) {
            (Some((neg, q)), Some((_, p))) => if neg {
                None
            } else {
                cores(q, p)
            },
            _ => None,
        },
        _ => None,
    }
}

pub open spec fn opt_text(s: Option<&str>) -> Option<Seq<char>> {
    match s {
        Some(t) => Some(t@),
        None => None,
    }
}

/// CPU quota in whole cores from the contents of the control-group files, each
/// `None` where it cannot be read.
pub fn cgroup_cpu_quota(
    cpu_max: Option<&str>,
    cfs_quota: Option<&str>,
    cfs_period: Option<&str>,
) -> (r: Option<usize>)
    ensures
        r == (match cpu_max {
            Some(raw) => quota_v2(raw@),
            None => quota_v1(opt_text(cfs_quota), opt_text(cfs_period)),
        }),
{
    if let Some(raw) = cpu_max {
        return parse_v2(raw);
    }
    match (cfs_quota, cfs_period) {
        (Some(q), Some(p)) => match (parse_signed(q), parse_signed(p)) {
            (Some((neg, q)), Some((_, p))) => if neg {
                None
            } else {
                cores_from_quota(q, p)
            },
            _ => None,
        },
        _ => None,
    }
}

/// Number of workers for `processes: auto`: the host's parallelism limited by
/// the quota, never below one.
pub fn auto_worker_count(parallelism: usize, quota: Option<usize>) -> (r: u32)
    ensures
        ({
            let n = match quota {
                Some(q) => if q < parallelism {
                    q
                } else {
                    parallelism
                },
                None => parallelism,
            };
            r == (if n < 1 {
                1
            } else if n > u32::MAX {
                u32::MAX
            } else {
                n as u32
            })
        }),
        r >= 1,
{
    let n: usize = match quota {
        Some(q) => if q < parallelism {
            q
        } else {
            parallelism
        },
        None => parallelism,
    };
    if n < 1 {
        1
    } else if n as u64 > u32::MAX as u64 {
        u32::MAX
    } else {
        n as u32
    }
}

/// A positive allowance is worth at least one core, and enough of them.
pub proof fn cores_cover_the_quota(quota: u64, period: u64)
    requires
        quota > 0,
        period > 0,
    ensures
        ({
            let n = (quota + period - 1) / (period as int);
            n >= 1 && n * period >= quota && (n - 1) * period < quota
        }),
{
    let n = (quota + period - 1) / (period as int);
    vstd::arithmetic::div_mod::lemma_fundamental_div_mod(quota + period - 1, period as int);
    vstd::arithmetic::div_mod::lemma_mod_bound(quota + period - 1, period as int);
    let m = (quota + period - 1) % (period as int);
    assert(n >= 1 && n * period >= quota && (n - 1) * period < quota) by (nonlinear_arith)
        requires
            quota + period - 1 == period * n + m,
            0 <= m < period,
            quota > 0,
            period > 0,
    ;
}

} // verus!
