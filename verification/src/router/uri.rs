//! URI path utilities and calendar dates.

use vstd::prelude::*;
use vstd::string::*;

use crate::bytes::{
    ascii_string, chars, dec, is_ascii, lemma_pieces_len, pieces, push_bytes, push_dec, push_two,
    split, two, views,
};

verus! {

/// The value of a hexadecimal digit.
pub open spec fn hex_value(b: u8) -> Option<u8> {
    if 48 <= b <= 57 {
        Some((b - 48) as u8)
    } else if 97 <= b <= 102 {
        Some((b - 87) as u8)
    } else if 65 <= b <= 70 {
        Some((b - 55) as u8)
    } else {
        None
    }
}

pub fn hex(b: u8) -> (r: Option<u8>)
    ensures
        r == hex_value(b),
{
    if 48 <= b && b <= 57 {
        Some(b - 48)
    } else if 97 <= b && b <= 102 {
        Some(b - 87)
    } else if 65 <= b && b <= 70 {
        Some(b - 55)
    } else {
        None
    }
}

/// Whether `s` begins with a percent sign and two hexadecimal digits.
pub open spec fn escape_ahead(s: Seq<u8>) -> bool {
    s.len() >= 3 && s[0] == 37 && hex_value(s[1]) is Some && hex_value(s[2]) is Some
}

/// Percent-decoding: every escape becomes its byte, everything else stays.
pub open spec fn decoded(s: Seq<u8>) -> Seq<u8>
    decreases s.len(),
{
    if s.len() == 0 {
        seq![]
    } else if escape_ahead(s) {
        seq![(hex_value(s[1])->0 * 16 + hex_value(s[2])->0) as u8] + decoded(
            s.subrange(3, s.len() as int),
        )
    } else {
        seq![s[0]] + decoded(s.subrange(1, s.len() as int))
    }
}

pub fn percent_decode(input: &[u8]) -> (r: Vec<u8>)
    ensures
        r@ == decoded(input@),
{
    let mut out: Vec<u8> = Vec::with_capacity(input.len());
    let mut i: usize = 0;
    assert(input@.subrange(0, input@.len() as int) =~= input@);
    while i < input.len()
        invariant
            i <= input@.len(),
            out@ + decoded(input@.subrange(i as int, input@.len() as int)) == decoded(input@),
        decreases input@.len() - i,
    {
        let ghost rest = input@.subrange(i as int, input@.len() as int);
        if input[i] == 37 && input.len() - i > 2 {
            if let (Some(hi), Some(lo)) = (hex(input[i + 1]), hex(input[i + 2])) {
                let ghost was = out@;
                out.push(hi * 16 + lo);
                proof {
                    assert(rest[1] == input@[i + 1] && rest[2] == input@[i + 2]);
                    let next = input@.subrange(i + 3, input@.len() as int);
                    assert(rest.subrange(3, rest.len() as int) =~= next);
                    assert(out@ + decoded(next) =~= was + decoded(rest));
                }
                i += 3;
                continue ;
            }
        }
        let ghost was = out@;
        out.push(input[i]);
        proof {
            let next = input@.subrange(i + 1, input@.len() as int);
            if rest.len() >= 3 {
                assert(rest[1] == input@[i + 1] && rest[2] == input@[i + 2]);
            }
            assert(!escape_ahead(rest));
            assert(rest.subrange(1, rest.len() as int) =~= next);
            assert(out@ + decoded(next) =~= was + decoded(rest));
        }
        i += 1;
    }
    assert(input@.subrange(i as int, input@.len() as int).len() == 0);
    out
}

/// One path segment applied to the stack of those before it: empty and `.`
/// segments vanish, `..` takes one back and nothing at the root.
pub open spec fn apply_segment(stack: Seq<Seq<u8>>, s: Seq<u8>) -> Seq<Seq<u8>> {
    if s.len() == 0 || s == seq![46u8] {
        stack
    } else if s == seq![46u8, 46u8] {
        if stack.len() > 0 {
            stack.drop_last()
        } else {
            stack
        }
    } else {
        stack.push(s)
    }
}

/// The segments that are left once dot segments are resolved.
pub open spec fn resolved(segments: Seq<Seq<u8>>) -> Seq<Seq<u8>>
    decreases segments.len(),
{
    if segments.len() == 0 {
        seq![]
    } else {
        apply_segment(resolved(segments.drop_last()), segments.last())
    }
}

/// The segments, each behind a slash.
pub open spec fn joined(segments: Seq<Seq<u8>>) -> Seq<u8>
    decreases segments.len(),
{
    if segments.len() == 0 {
        seq![]
    } else {
        joined(segments.drop_last()) + seq![47u8] + segments.last()
    }
}

/// A decoded path with its dot segments resolved. A trailing slash stays, and
/// the root is a slash.
pub open spec fn resolved_path(p: Seq<u8>) -> Seq<u8> {
    let body = joined(resolved(pieces(p, 47)));
    if body.len() == 0 || (p.len() > 0 && p.last() == 47) {
        body.push(47)
    } else {
        body
    }
}

/// The path of a request target: percent-decoded, dot segments resolved.
pub open spec fn normalized(path: Seq<u8>) -> Seq<u8> {
    resolved_path(decoded(path))
}

/// Percent-decode and collapse `.` and `..` segments; `..` never climbs above
/// the root.
pub fn normalize_path(path: &[u8]) -> (r: Vec<u8>)
    ensures
        r@ == normalized(path@),
{
    let plain = percent_decode(path);
    let segments = split(plain.as_slice(), 47);
    let ghost all = pieces(plain@, 47);
    let mut stack: Vec<&Vec<u8>> = Vec::new();
    let mut i: usize = 0;
    assert(all.take(0) =~= Seq::<Seq<u8>>::empty());
    assert(ref_views(stack@) =~= Seq::<Seq<u8>>::empty());
    while i < segments.len()
        invariant
            i <= segments@.len(),
            views(segments@) == all,
            ref_views(stack@) == resolved(all.take(i as int)),
        decreases segments@.len() - i,
    {
        let s = &segments[i];
        let ghost was = ref_views(stack@);
        proof {
            assert(all.take(i + 1).drop_last() =~= all.take(i as int));
            assert(all[i as int] == s@);
        }
        let skip = s.len() == 0 || (s.len() == 1 && s[0] == 46);
        let up = s.len() == 2 && s[0] == 46 && s[1] == 46;
        proof {
            if skip && s@.len() == 0 {
                assert(s@.len() == 0);
            }
            if skip && s@.len() == 1 {
                assert(s@ =~= seq![46u8]);
            }
            if up {
                assert(s@ =~= seq![46u8, 46u8]);
            }
            assert(s@ == seq![46u8] ==> s@[0] == 46 && s@.len() == 1);
            assert(s@ == seq![46u8, 46u8] ==> s@[0] == 46 && s@[1] == 46 && s@.len() == 2);
        }
        if skip {
        } else if up {
            let _ = stack.pop();
            assert(was.len() > 0 ==> ref_views(stack@) =~= was.drop_last());
            assert(was.len() == 0 ==> ref_views(stack@) =~= was);
        } else {
            stack.push(s);
            assert(ref_views(stack@) =~= was.push(s@));
        }
        i += 1;
    }
    assert(all.take(i as int) =~= all);
    let mut out: Vec<u8> = Vec::with_capacity(plain.len());
    let ghost kept = ref_views(stack@);
    let mut k: usize = 0;
    assert(kept.take(0) =~= Seq::<Seq<u8>>::empty());
    while k < stack.len()
        invariant
            k <= stack@.len(),
            kept == ref_views(stack@),
            out@ == joined(kept.take(k as int)),
        decreases stack@.len() - k,
    {
        proof {
            assert(kept.take(k + 1).drop_last() =~= kept.take(k as int));
            assert(kept[k as int] == stack@[k as int]@);
        }
        let ghost was = out@;
        out.push(47);
        push_bytes(&mut out, stack[k].as_slice());
        assert(out@ =~= was + seq![47u8] + kept[k as int]);
        k += 1;
    }
    assert(kept.take(k as int) =~= kept);
    if out.len() == 0 || (plain.len() > 0 && plain[plain.len() - 1] == 47) {
        out.push(47);
    }
    out
}

spec fn ref_views(v: Seq<&Vec<u8>>) -> Seq<Seq<u8>> {
    v.map_values(|x: &Vec<u8>| x@)
}

/// A segment that names something: not empty, no slash in it, no dot segment.
pub open spec fn proper(s: Seq<u8>) -> bool {
    s.len() > 0 && !s.contains(47) && s != seq![46u8] && s != seq![46u8, 46u8]
}

proof fn lemma_resolved_proper(segments: Seq<Seq<u8>>)
    requires
        forall|i: int| 0 <= i < segments.len() ==> !(#[trigger] segments[i]).contains(47),
    ensures
        forall|i: int|
            0 <= i < resolved(segments).len() ==> proper(#[trigger] resolved(segments)[i]),
    decreases segments.len(),
{
    if segments.len() > 0 {
        let init = segments.drop_last();
        assert forall|i: int| 0 <= i < init.len() implies !(#[trigger] init[i]).contains(47) by {
            assert(init[i] == segments[i]);
        }
        lemma_resolved_proper(init);
        let last = segments.last();
        assert(segments[segments.len() - 1] == last);
        let stack = resolved(init);
        let out = resolved(segments);
        assert forall|i: int| 0 <= i < out.len() implies proper(#[trigger] out[i]) by {
            if i < stack.len() {
                assert(out[i] == stack[i]);
            }
        }
    }
}

proof fn lemma_pieces_clean(s: Seq<u8>, b: u8)
    ensures
        forall|i: int| 0 <= i < pieces(s, b).len() ==> !(#[trigger] pieces(s, b)[i]).contains(b),
    decreases s.len(),
{
    lemma_pieces_len(s, b);
    if s.len() > 0 {
        lemma_pieces_clean(s.drop_last(), b);
        lemma_pieces_len(s.drop_last(), b);
        let before = pieces(s.drop_last(), b);
        assert(!before[before.len() - 1].contains(b));
        if s.last() != b {
            let last = before.last().push(s.last());
            assert(!last.contains(b)) by {
                if last.contains(b) {
                    let k = choose|k: int| 0 <= k < last.len() && last[k] == b;
                    assert(before.last()[k] == b);
                }
            }
        }
    }
}

proof fn lemma_pieces_of_clean(front: Seq<u8>, s: Seq<u8>, b: u8)
    requires
        !s.contains(b),
    ensures
        pieces(front.push(b) + s, b) == pieces(front, b).push(s),
    decreases s.len(),
{
    let whole = front.push(b) + s;
    if s.len() == 0 {
        assert(whole =~= front.push(b));
        assert(whole.drop_last() =~= front);
        assert(s =~= Seq::<u8>::empty());
    } else {
        let init = s.drop_last();
        assert(!init.contains(b)) by {
            if init.contains(b) {
                let k = choose|k: int| 0 <= k < init.len() && init[k] == b;
                assert(s[k] == b);
            }
        }
        lemma_pieces_of_clean(front, init, b);
        assert(whole.drop_last() =~= front.push(b) + init);
        assert(s[s.len() - 1] != b);
        let before = pieces(front, b).push(init);
        assert(before.drop_last() =~= pieces(front, b));
        assert(init.push(s.last()) =~= s);
    }
}

proof fn lemma_pieces_joined(segments: Seq<Seq<u8>>)
    requires
        forall|i: int| 0 <= i < segments.len() ==> proper(#[trigger] segments[i]),
    ensures
        pieces(joined(segments), 47) == seq![Seq::<u8>::empty()] + segments,
    decreases segments.len(),
{
    if segments.len() == 0 {
        assert(pieces(joined(segments), 47) =~= seq![Seq::<u8>::empty()] + segments);
    } else {
        let init = segments.drop_last();
        assert forall|i: int| 0 <= i < init.len() implies proper(#[trigger] init[i]) by {
            assert(init[i] == segments[i]);
        }
        lemma_pieces_joined(init);
        assert(proper(segments[segments.len() - 1]));
        assert(joined(init) + seq![47u8] + segments.last() =~= joined(init).push(47)
            + segments.last());
        lemma_pieces_of_clean(joined(init), segments.last(), 47);
        assert((seq![Seq::<u8>::empty()] + init).push(segments.last()) =~= seq![
            Seq::<u8>::empty(),
        ] + segments);
    }
}

proof fn lemma_resolved_fixed(segments: Seq<Seq<u8>>)
    requires
        forall|i: int| 0 <= i < segments.len() ==> proper(#[trigger] segments[i]),
    ensures
        resolved(seq![Seq::<u8>::empty()] + segments) == segments,
    decreases segments.len(),
{
    let all = seq![Seq::<u8>::empty()] + segments;
    if segments.len() == 0 {
        assert(all.drop_last() =~= Seq::<Seq<u8>>::empty());
        
        assert(resolved(all.drop_last()) =~= Seq::<Seq<u8>>::empty());
        assert(all.last().len() == 0);
        assert(resolved(all) =~= segments);
    } else {
        let init = segments.drop_last();
        assert forall|i: int| 0 <= i < init.len() implies proper(#[trigger] init[i]) by {
            assert(init[i] == segments[i]);
        }
        lemma_resolved_fixed(init);
        assert(all.drop_last() =~= seq![Seq::<u8>::empty()] + init);
        assert(proper(segments[segments.len() - 1]));
        assert(init.push(segments.last()) =~= segments);
    }
}

proof fn lemma_resolved_path_pieces(p: Seq<u8>)
    ensures
        ({
            let kept = resolved(pieces(p, 47));
            let all = pieces(resolved_path(p), 47);
            &&& forall|i: int| 0 <= i < kept.len() ==> proper(#[trigger] kept[i])
            &&& all == seq![Seq::<u8>::empty()] + kept || all == (seq![Seq::<u8>::empty()]
                + kept).push(seq![])
        }),
{
    let kept = resolved(pieces(p, 47));
    lemma_pieces_clean(p, 47);
    lemma_resolved_proper(pieces(p, 47));
    lemma_pieces_joined(kept);
    let body = joined(kept);
    let out = resolved_path(p);
    if out != body {
        assert(out.drop_last() =~= body);
    }
}

/// A normalized path begins with a slash, and none of its segments is `.` or
/// `..`: it names nothing above the root.
pub proof fn normalized_stays_below_root(path: Seq<u8>)
    ensures
        normalized(path).len() > 0,
        normalized(path)[0] == 47,
        forall|i: int|
            0 <= i < pieces(normalized(path), 47).len() ==> {
                &&& (#[trigger] pieces(normalized(path), 47)[i]) != seq![46u8]
                &&& pieces(normalized(path), 47)[i] != seq![46u8, 46u8]
            },
{
    let p = decoded(path);
    let kept = resolved(pieces(p, 47));
    lemma_resolved_path_pieces(p);
    lemma_joined_slash(kept);
    let all = pieces(normalized(path), 47);
    assert forall|i: int| 0 <= i < all.len() implies (#[trigger] all[i]) != seq![46u8] && all[i]
        != seq![46u8, 46u8] by {
        if 1 <= i <= kept.len() {
            assert(all[i] == kept[i - 1]);
        } else {
            assert(all[i].len() == 0);
        }
    }
}

proof fn lemma_joined_slash(segments: Seq<Seq<u8>>)
    ensures
        segments.len() > 0 ==> joined(segments).len() > 0 && joined(segments)[0] == 47,
    decreases segments.len(),
{
    reveal_with_fuel(joined, 2);
    if segments.len() > 0 {
        lemma_joined_slash(segments.drop_last());
    }
}

/// Resolving dot segments twice is resolving them once.
pub proof fn resolved_path_is_fixed(p: Seq<u8>)
    ensures
        resolved_path(resolved_path(p)) == resolved_path(p),
{
    let kept = resolved(pieces(p, 47));
    let out = resolved_path(p);
    let all = pieces(out, 47);
    lemma_resolved_path_pieces(p);
    lemma_resolved_fixed(kept);
    let front = seq![Seq::<u8>::empty()] + kept;
    if all != front {
        assert(all.drop_last() =~= front);
        assert(all.last().len() == 0);
    }
    assert(resolved(all) == kept);
    let body = joined(kept);
    if kept.len() > 0 {
        lemma_joined_ends(kept);
    }
}

proof fn lemma_joined_ends(segments: Seq<Seq<u8>>)
    requires
        segments.len() > 0,
        forall|i: int| 0 <= i < segments.len() ==> proper(#[trigger] segments[i]),
    ensures
        joined(segments).len() > 0,
        joined(segments).last() != 47,
{
    let s = segments[segments.len() - 1];
    assert(proper(s));
    assert(joined(segments).last() == s.last());
    assert(s.last() != 47) by {
        assert(s.contains(s[s.len() - 1]));
    }
}

/// Whether `y` has a twenty-ninth of February.
pub open spec fn leap(y: int) -> bool {
    y % 4 == 0 && (y % 100 != 0 || y % 400 == 0)
}

pub open spec fn days_in_month(y: int, m: int) -> int {
    if m == 2 {
        if leap(y) {
            29
        } else {
            28
        }
    } else if m == 4 || m == 6 || m == 9 || m == 11 {
        30
    } else {
        31
    }
}

/// Days from the first of January 1970 to the first of January of `y`.
pub open spec fn days_to_year(y: int) -> int {
    365 * (y - 1970) + (y - 1) / 4 - (y - 1) / 100 + (y - 1) / 400 - 477
}

/// Days from the first of January to the first of month `m`.
pub open spec fn days_to_month(y: int, m: int) -> int
    decreases m,
{
    if m <= 1 {
        0
    } else {
        days_to_month(y, m - 1) + days_in_month(y, m - 1)
    }
}

pub open spec fn is_date(y: int, m: int, d: int) -> bool {
    1 <= m <= 12 && 1 <= d <= days_in_month(y, m)
}

/// Days from the first of January 1970 to a date of the Gregorian calendar.
pub open spec fn day_number(y: int, m: int, d: int) -> int {
    days_to_year(y) + days_to_month(y, m) + d - 1
}

/// A year has 365 days, a leap year 366.
pub proof fn year_length(y: int)
    ensures
        days_to_year(y + 1) - days_to_year(y) == (if leap(y) {
            366int
        } else {
            365
        }),
        days_to_year(y + 1) - days_to_year(y) == days_to_month(y, 13),
{
    lemma_month_table(y);
    lemma_leap_count(y);
}

proof fn lemma_leap_count(y: int)
    ensures
        days_to_year(y + 1) - days_to_year(y) == (if leap(y) {
            366int
        } else {
            365
        }),
{
    lemma_step(y, 4);
    lemma_step(y, 100);
    lemma_step(y, 400);
    if y % 400 == 0 {
        lemma_multiple(y, 100, 4);
    }
    if y % 100 == 0 {
        lemma_multiple(y, 4, 25);
    }
}

proof fn lemma_step(y: int, d: int)
    requires
        d > 1,
    ensures
        y / d - (y - 1) / d == (if y % d == 0 {
            1int
        } else {
            0
        }),
{
    let q = y / d;
    let r = y % d;
    vstd::arithmetic::div_mod::lemma_fundamental_div_mod(y, d);
    vstd::arithmetic::div_mod::lemma_mod_bound(y, d);
    if r == 0 {
        assert(y - 1 == (q - 1) * d + (d - 1)) by (nonlinear_arith)
            requires
                y == d * q + 0,
        ;
        vstd::arithmetic::div_mod::lemma_fundamental_div_mod_converse(y - 1, d, q - 1, d - 1);
    } else {
        assert(y - 1 == q * d + (r - 1)) by (nonlinear_arith)
            requires
                y == d * q + r,
        ;
        vstd::arithmetic::div_mod::lemma_fundamental_div_mod_converse(y - 1, d, q, r - 1);
    }
}

proof fn lemma_multiple(y: int, d: int, k: int)
    requires
        d > 0,
        k > 0,
        y % (d * k) == 0,
    ensures
        y % d == 0,
{
    let q = y / (d * k);
    assert(d * k > 0) by (nonlinear_arith)
        requires
            d > 0,
            k > 0,
    ;
    vstd::arithmetic::div_mod::lemma_fundamental_div_mod(y, d * k);
    assert(y == d * (k * q) + 0) by (nonlinear_arith)
        requires
            y == (d * k) * q,
    ;
    vstd::arithmetic::div_mod::lemma_mod_multiples_vanish(k * q, 0, d);
}

proof fn lemma_years_grow(a: int, b: int)
    requires
        a <= b,
    ensures
        days_to_year(a) <= days_to_year(b),
        a < b ==> days_to_year(a) + days_to_month(a, 13) <= days_to_year(b),
    decreases b - a,
{
    if a < b {
        year_length(a);
        lemma_years_grow(a + 1, b);
    }
}

proof fn lemma_months_grow(y: int, a: int, b: int)
    requires
        1 <= a < b <= 13,
    ensures
        days_to_month(y, a) + days_in_month(y, a) <= days_to_month(y, b),
    decreases b - a,
{
    if a + 1 < b {
        lemma_months_grow(y, a, b - 1);
    }
}

/// Every day number is the number of one date at most.
pub proof fn date_is_unique(y1: int, m1: int, d1: int, y2: int, m2: int, d2: int)
    requires
        is_date(y1, m1, d1),
        is_date(y2, m2, d2),
        day_number(y1, m1, d1) == day_number(y2, m2, d2),
    ensures
        y1 == y2 && m1 == m2 && d1 == d2,
{
    lemma_months_grow(y1, m1, 13);
    lemma_months_grow(y2, m2, 13);
    lemma_months_from_one(y1, m1);
    lemma_months_from_one(y2, m2);
    if y1 < y2 {
        lemma_years_grow(y1, y2);
    } else if y2 < y1 {
        lemma_years_grow(y2, y1);
    } else if m1 < m2 {
        lemma_months_grow(y1, m1, m2);
    } else if m2 < m1 {
        lemma_months_grow(y1, m2, m1);
    }
}

proof fn lemma_months_from_one(y: int, m: int)
    ensures
        days_to_month(y, m) >= 0,
    decreases m,
{
    if m > 1 {
        lemma_months_from_one(y, m - 1);
    }
}

/// Days from the first of March of year 0 to the first of March of year `y`.
spec fn march(y: int) -> int {
    365 * y + y / 4 - y / 100 + y / 400
}

proof fn lemma_march(y: int)
    ensures
        days_to_year(y) + days_to_month(y, 3) == march(y) - 719468,
        days_to_year(y + 1) == march(y) - 719468 + 306,
{
    lemma_month_table(y);
    year_length(y);
    lemma_step(y, 4);
    lemma_step(y, 100);
    lemma_step(y, 400);
}

/// March-based year and day of a day number within a 400-year era that
/// begins on a first of March.
fn year_of_era(doe: u64) -> (r: (u64, u64))
    requires
        doe < 146097,
    ensures
        r.0 < 400,
        doe == 365 * r.0 + r.0 / 4 - r.0 / 100 + r.1,
        r.1 <= 365,
        r.1 == 365 ==> leap(r.0 + 1),
{
    let c: u64 = if doe / 36524 < 3 {
        doe / 36524
    } else {
        3
    };
    let r: u64 = doe - c * 36524;
    let q: u64 = r / 1461;
    let s: u64 = r - q * 1461;
    let y: u64 = if s / 365 < 3 {
        s / 365
    } else {
        3
    };
    let yoe: u64 = 100 * c + 4 * q + y;
    let doy: u64 = s - 365 * y;
    assert(q <= 24);
    assert(yoe / 4 == 25 * c + q);
    assert(yoe / 100 == c);
    assert(doy == 365 ==> y == 3);
    assert(doy == 365 ==> leap(yoe + 1)) by {
        if doy == 365 {
            assert(yoe + 1 == 100 * c + 4 * (q + 1));
            assert((yoe + 1) % 4 == 0);
            if q == 24 {
                assert(c == 3);
                assert(yoe + 1 == 400);
            } else {
                assert((yoe + 1) % 100 == 4 * (q + 1));
            }
        }
    }
    (yoe, doy)
}

/// The date of a day number, counted from the first of January 1970.
pub fn civil_from_days(z: i64) -> (r: (i64, u32, u32))
    requires
        z <= i64::MAX - 719468,
    ensures
        is_date(r.0 as int, r.1 as int, r.2 as int),
        day_number(r.0 as int, r.1 as int, r.2 as int) == z,
        z >= 0 ==> r.0 >= 1970,
{
    let z0: i64 = z + 719468;
    let era: i64 = if z0 >= 0 {
        z0 / 146097
    } else {
        -1 - (-(z0 + 1)) / 146097
    };
    let doe: u64 = (z0 - era * 146097) as u64;
    let (yoe, doy) = year_of_era(doe);
    let y: i64 = yoe as i64 + era * 400;
    let mp: u64 = (5 * doy + 2) / 153;
    let d: u32 = (doy - (153 * mp + 2) / 5 + 1) as u32;
    let m: u32 = if mp < 10 {
        (mp + 3) as u32
    } else {
        (mp - 9) as u32
    };
    let year: i64 = if m <= 2 {
        y + 1
    } else {
        y
    };
    proof {
        lemma_march(y as int);
        lemma_era(y as int, yoe as int, era as int);
        lemma_month_of_year(y as int, doy as int, mp as int);
        if z >= 0 {
            lemma_first_year(year as int, m as int, d as int);
        }
    }
    (year, m, d)
}

proof fn lemma_era(y: int, yoe: int, era: int)
    requires
        y == yoe + era * 400,
        0 <= yoe < 400,
    ensures
        march(y) == 146097 * era + 365 * yoe + yoe / 4 - yoe / 100,
        leap(y + 1) == leap(yoe + 1),
{
    lemma_shift(yoe, 100 * era, 4);
    lemma_shift(yoe, 4 * era, 100);
    lemma_shift(yoe, era, 400);
    lemma_shift(yoe + 1, 100 * era, 4);
    lemma_shift(yoe + 1, 4 * era, 100);
    lemma_shift(yoe + 1, era, 400);
}

proof fn lemma_shift(x: int, j: int, d: int)
    requires
        d > 0,
    ensures
        (x + j * d) / d == x / d + j,
        (x + j * d) % d == x % d,
{
    vstd::arithmetic::div_mod::lemma_hoist_over_denominator(x, j, d as nat);
    vstd::arithmetic::div_mod::lemma_mod_multiples_vanish(j, x, d);
    assert(d * j + x == x + j * d) by (nonlinear_arith);
}

proof fn lemma_month_of_year(y: int, doy: int, mp: int)
    requires
        0 <= doy <= 365,
        doy == 365 ==> leap(y + 1),
        mp == (5 * doy + 2) / 153,
    ensures
        0 <= mp <= 11,
        ({
            let d = doy - (153 * mp + 2) / 5 + 1;
            if mp < 10 {
                is_date(y, mp + 3, d) && days_to_month(y, mp + 3) + d - 1 == days_to_month(y, 3)
                    + doy
            } else {
                is_date(y + 1, mp - 9, d) && days_to_month(y + 1, mp - 9) + d - 1 == doy - 306
            }
        }),
{
    lemma_month_table(y);
    lemma_month_table(y + 1);
    if mp == 0 {
    } else if mp == 1 {
    } else if mp == 2 {
    } else if mp == 3 {
    } else if mp == 4 {
    } else if mp == 5 {
    } else if mp == 6 {
    } else if mp == 7 {
    } else if mp == 8 {
    } else if mp == 9 {
    } else if mp == 10 {
    } else {
    }
}

proof fn lemma_month_table(y: int)
    ensures
        days_to_month(y, 1) == 0,
        days_to_month(y, 2) == 31,
        days_to_month(y, 3) == 31 + days_in_month(y, 2),
        days_to_month(y, 4) == days_to_month(y, 3) + 31,
        days_to_month(y, 5) == days_to_month(y, 3) + 61,
        days_to_month(y, 6) == days_to_month(y, 3) + 92,
        days_to_month(y, 7) == days_to_month(y, 3) + 122,
        days_to_month(y, 8) == days_to_month(y, 3) + 153,
        days_to_month(y, 9) == days_to_month(y, 3) + 184,
        days_to_month(y, 10) == days_to_month(y, 3) + 214,
        days_to_month(y, 11) == days_to_month(y, 3) + 245,
        days_to_month(y, 12) == days_to_month(y, 3) + 275,
        days_to_month(y, 13) == days_to_month(y, 3) + 306,
{
    assert(days_to_month(y, 1) == 0);
    assert(days_to_month(y, 2) == 31);
    assert(days_to_month(y, 3) == 31 + days_in_month(y, 2));
    assert(days_to_month(y, 4) == days_to_month(y, 3) + 31);
    assert(days_to_month(y, 5) == days_to_month(y, 3) + 61);
    assert(days_to_month(y, 6) == days_to_month(y, 3) + 92);
    assert(days_to_month(y, 7) == days_to_month(y, 3) + 122);
    assert(days_to_month(y, 8) == days_to_month(y, 3) + 153);
    assert(days_to_month(y, 9) == days_to_month(y, 3) + 184);
    assert(days_to_month(y, 10) == days_to_month(y, 3) + 214);
    assert(days_to_month(y, 11) == days_to_month(y, 3) + 245);
    assert(days_to_month(y, 12) == days_to_month(y, 3) + 275);
}

proof fn lemma_first_year(y: int, m: int, d: int)
    requires
        is_date(y, m, d),
        day_number(y, m, d) >= 0,
    ensures
        y >= 1970,
{
    if y < 1970 {
        lemma_months_grow(y, m, 13);
        lemma_years_grow(y, 1970);
    }
}

/// English name of a weekday; the first of January 1970 was a Thursday.
pub open spec fn weekday_name(day: int) -> Seq<char> {
    if day % 7 == 0 {
        "Thu"@
    } else if day % 7 == 1 {
        "Fri"@
    } else if day % 7 == 2 {
        "Sat"@
    } else if day % 7 == 3 {
        "Sun"@
    } else if day % 7 == 4 {
        "Mon"@
    } else if day % 7 == 5 {
        "Tue"@
    } else {
        "Wed"@
    }
}

pub open spec fn month_name(m: int) -> Seq<char> {
    if m == 1 {
        "Jan"@
    } else if m == 2 {
        "Feb"@
    } else if m == 3 {
        "Mar"@
    } else if m == 4 {
        "Apr"@
    } else if m == 5 {
        "May"@
    } else if m == 6 {
        "Jun"@
    } else if m == 7 {
        "Jul"@
    } else if m == 8 {
        "Aug"@
    } else if m == 9 {
        "Sep"@
    } else if m == 10 {
        "Oct"@
    } else if m == 11 {
        "Nov"@
    } else {
        "Dec"@
    }
}

fn weekday(day: u64) -> (r: &'static str)
    ensures
        r@ == weekday_name(day as int),
{
    match day % 7 {
        0 => "Thu",
        1 => "Fri",
        2 => "Sat",
        3 => "Sun",
        4 => "Mon",
        5 => "Tue",
        _ => "Wed",
    }
}

pub fn month(m: u32) -> (r: &'static str)
    ensures
        1 <= m <= 12 ==> r@ == month_name(m as int),
{
    match m {
        1 => "Jan",
        2 => "Feb",
        3 => "Mar",
        4 => "Apr",
        5 => "May",
        6 => "Jun",
        7 => "Jul",
        8 => "Aug",
        9 => "Sep",
        10 => "Oct",
        11 => "Nov",
        _ => "Dec",
    }
}

/// `hh:mm:ss` of a second within a day.
pub open spec fn clock(secs: int) -> Seq<char> {
    chars(two(secs / 3600)) + ":"@ + chars(two(secs % 3600 / 60)) + ":"@ + chars(two(secs % 60))
}

/// Append two decimal digits.
pub fn append_two(out: &mut String, n: u64)
    requires
        n < 100,
    ensures
        final(out)@ == old(out)@ + chars(two(n as int)),
{
    let mut b: Vec<u8> = Vec::new();
    push_two(&mut b, n);
    assert(b@ =~= two(n as int));
    out.append(ascii_string(b).as_str());
}

proof fn lemma_dec_ascii(n: nat)
    ensures
        is_ascii(dec(n)),
    decreases n,
{
    if n >= 10 {
        lemma_dec_ascii(n / 10);
    }
}

/// Append the decimal digits of `n`.
pub fn append_dec(out: &mut String, n: u64)
    ensures
        final(out)@ == old(out)@ + chars(dec(n as nat)),
{
    let mut b: Vec<u8> = Vec::new();
    push_dec(&mut b, n);
    assert(b@ =~= dec(n as nat));
    proof {
        lemma_dec_ascii(n as nat);
    }
    out.append(ascii_string(b).as_str());
}

pub fn append_clock(out: &mut String, secs: u64)
    requires
        secs < 86400,
    ensures
        final(out)@ == old(out)@ + clock(secs as int),
{
    append_two(out, secs / 3600);
    out.append(":");
    append_two(out, secs % 3600 / 60);
    out.append(":");
    append_two(out, secs % 60);
    assert(out@ =~= old(out)@ + clock(secs as int));
}

/// `Sun, 06 Nov 1994 08:49:37 GMT`, given the weekday, the date and the second
/// of the day.
pub open spec fn imf_fixdate(day: int, y: int, m: int, d: int, secs: int) -> Seq<char> {
    weekday_name(day) + ", "@ + chars(two(d)) + " "@ + month_name(m) + " "@ + chars(dec(y as nat))
        + " "@ + clock(secs) + " GMT"@
}

/// The date of a day number.
pub open spec fn civil(days: int) -> (int, int, int) {
    choose|y: int, m: int, d: int| #[trigger] is_date(y, m, d) && day_number(y, m, d) == days
}

/// The date with a given day number is the date of that number.
pub proof fn date_of_its_number(y: int, m: int, d: int)
    requires
        is_date(y, m, d),
    ensures
        civil(day_number(y, m, d)) == (y, m, d),
{
    let (a, b, c) = civil(day_number(y, m, d));
    assert(is_date(a, b, c) && day_number(a, b, c) == day_number(y, m, d));
    date_is_unique(a, b, c, y, m, d);
}

/// IMF-fixdate of a moment, in seconds since the first of January 1970.
pub open spec fn http_date_text(unix_secs: int) -> Seq<char> {
    let (y, m, d) = civil(unix_secs / 86400);
    imf_fixdate(unix_secs / 86400, y, m, d, unix_secs % 86400)
}

pub fn http_date(unix_secs: u64) -> (r: String)
    ensures
        r@ == http_date_text(unix_secs as int),
{
    let days: u64 = unix_secs / 86400;
    let rem: u64 = unix_secs % 86400;
    let (y, m, d) = civil_from_days(days as i64);
    let mut out = String::new();
    out.append(weekday(days));
    out.append(", ");
    append_two(&mut out, d as u64);
    out.append(" ");
    out.append(month(m));
    out.append(" ");
    append_dec(&mut out, y as u64);
    out.append(" ");
    append_clock(&mut out, rem);
    out.append(" GMT");
    assert(out@ =~= imf_fixdate(days as int, y as int, m as int, d as int, rem as int));
    proof {
        date_of_its_number(y as int, m as int, d as int);
    }
    out
}

} // verus!
