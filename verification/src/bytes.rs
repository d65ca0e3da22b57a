//! Byte-string helpers shared by the protocol and HTTP modules.

use vstd::prelude::*;
use vstd::string::*;
use vstd::utf8::*;

verus! {

/// The bytes of a string literal.
pub open spec fn text(s: &str) -> Seq<u8> {
    s.spec_bytes()
}

/// `b` stands at position `i` of `s` and nowhere before it.
pub open spec fn first_at(s: Seq<u8>, b: u8, i: int) -> bool {
    &&& 0 <= i < s.len()
    &&& s[i] == b
    &&& forall|j: int| 0 <= j < i ==> s[j] != b
}

/// Position of the first `b` in `s`.
pub open spec fn find(s: Seq<u8>, b: u8) -> Option<int> {
    if s.contains(b) {
        Some(choose|i: int| first_at(s, b, i))
    } else {
        None
    }
}

/// What stands before the first `b` and what follows it.
pub open spec fn cut(s: Seq<u8>, b: u8) -> Option<(Seq<u8>, Seq<u8>)> {
    match find(s, b) {
        Some(i) => Some((s.subrange(0, i), s.subrange(i + 1, s.len() as int))),
        None => None,
    }
}

/// What stands before the first `b`, or all of `s` where there is none.
pub open spec fn until(s: Seq<u8>, b: u8) -> Seq<u8> {
    match find(s, b) {
        Some(i) => s.subrange(0, i),
        None => s,
    }
}

pub proof fn lemma_find(s: Seq<u8>, b: u8, i: int)
    requires
        first_at(s, b, i),
    ensures
        find(s, b) == Some(i),
{
    assert(s[i] == b);
    let k = choose|k: int| first_at(s, b, k);
    assert(first_at(s, b, k));
    if k < i {
        assert(s[k] != b);
    }
    if i < k {
        assert(s[i] != b);
    }
}

pub proof fn lemma_find_none(s: Seq<u8>, b: u8)
    requires
        forall|j: int| 0 <= j < s.len() ==> s[j] != b,
    ensures
        find(s, b) is None,
{
}

pub proof fn lemma_find_some(s: Seq<u8>, b: u8)
    requires
        s.contains(b),
    ensures
        find(s, b) is Some,
        first_at(s, b, find(s, b)->0),
{
    let w = choose|w: int| 0 <= w < s.len() && s[w] == b;
    lemma_least(s, b, w);
}

proof fn lemma_least(s: Seq<u8>, b: u8, w: int)
    requires
        0 <= w < s.len(),
        s[w] == b,
    ensures
        exists|i: int| first_at(s, b, i),
    decreases w,
{
    if forall|j: int| 0 <= j < w ==> s[j] != b {
        assert(first_at(s, b, w));
    } else {
        let j = choose|j: int| 0 <= j < w && s[j] == b;
        lemma_least(s, b, j);
    }
}

/// The first position of `needle` in `haystack`, as the `memchr` crate
/// finds it: the least index that holds the byte, `None` where no index does.
pub assume_specification[ memchr::memchr ](needle: u8, haystack: &[u8]) -> (r: Option<usize>)
    ensures
        match r {
            Some(i) => first_at(haystack@, needle, i as int),
            None => forall|j: int| 0 <= j < haystack@.len() ==> haystack@[j] != needle,
        },
;

/// Position of the first `b` in `s`.
pub fn find_byte(b: u8, s: &[u8]) -> (r: Option<usize>)
    ensures
        match r {
            Some(i) => find(s@, b) == Some(i as int) && first_at(s@, b, i as int) && i < s.len(),
            None => find(s@, b) is None && !s@.contains(b),
        },
{
    let r = memchr::memchr(b, s);
    proof {
        match r {
            Some(i) => lemma_find(s@, b, i as int),
            None => lemma_find_none(s@, b),
        }
    }
    r
}

/// Append `b` to `out`.
pub fn push_bytes(out: &mut Vec<u8>, b: &[u8])
    ensures
        final(out)@ == old(out)@ + b@,
{
    out.extend_from_slice(b);
}

/// Append the bytes of `s` to `out`.
pub fn push_str(out: &mut Vec<u8>, s: &str)
    ensures
        final(out)@ == old(out)@ + text(s),
{
    out.extend_from_slice(s.as_bytes());
}

/// An owned copy of `b`.
pub fn to_vec(b: &[u8]) -> (r: Vec<u8>)
    ensures
        r@ == b@,
{
    vstd::slice::slice_to_vec(b)
}

/// Whether two byte strings are the same.
pub fn eq(a: &[u8], b: &[u8]) -> (r: bool)
    ensures
        r == (a@ == b@),
{
    if a.len() != b.len() {
        return false;
    }
    let mut i: usize = 0;
    while i < a.len()
        invariant
            i <= a@.len(),
            a@.len() == b@.len(),
            forall|j: int| 0 <= j < i ==> a@[j] == b@[j],
        decreases a@.len() - i,
    {
        if a[i] != b[i] {
            return false;
        }
        i += 1;
    }
    assert(a@ =~= b@);
    true
}

/// Whether `b` is the byte string of the literal `s`.
pub fn is_text(b: &[u8], s: &str) -> (r: bool)
    ensures
        r == (b@ == text(s)),
{
    eq(b, s.as_bytes())
}

/// `s` begins with `p`.
pub open spec fn has_prefix(s: Seq<u8>, p: Seq<u8>) -> bool {
    p.len() <= s.len() && s.subrange(0, p.len() as int) == p
}

/// `s` ends with `p`.
pub open spec fn has_suffix(s: Seq<u8>, p: Seq<u8>) -> bool {
    p.len() <= s.len() && s.subrange(s.len() - p.len(), s.len() as int) == p
}

pub fn starts_with(s: &[u8], p: &[u8]) -> (r: bool)
    ensures
        r == has_prefix(s@, p@),
{
    p.len() <= s.len() && eq(&s[0..p.len()], p)
}

pub fn ends_with(s: &[u8], p: &[u8]) -> (r: bool)
    ensures
        r == has_suffix(s@, p@),
{
    p.len() <= s.len() && eq(&s[s.len() - p.len()..s.len()], p)
}

/// ASCII lower case of one byte.
pub open spec fn lower(b: u8) -> u8 {
    if 65 <= b <= 90 {
        (b + 32) as u8
    } else {
        b
    }
}

/// ASCII lower case of a byte string.
pub open spec fn lowered(s: Seq<u8>) -> Seq<u8> {
    Seq::new(s.len(), |i: int| lower(s[i]))
}

pub fn lower_byte(b: u8) -> (r: u8)
    ensures
        r == lower(b),
{
    if 65 <= b && b <= 90 {
        b + 32
    } else {
        b
    }
}

pub fn to_lower(s: &[u8]) -> (r: Vec<u8>)
    ensures
        r@ == lowered(s@),
{
    let mut out: Vec<u8> = Vec::new();
    let mut i: usize = 0;
    while i < s.len()
        invariant
            i <= s@.len(),
            out@.len() == i,
            forall|j: int| 0 <= j < i ==> out@[j] == lower(s@[j]),
        decreases s@.len() - i,
    {
        out.push(lower_byte(s[i]));
        i += 1;
    }
    assert(out@ =~= lowered(s@));
    out
}

/// Whether two byte strings agree up to ASCII case.
pub fn eq_ignore_case(a: &[u8], b: &[u8]) -> (r: bool)
    ensures
        r == (lowered(a@) == lowered(b@)),
{
    if a.len() != b.len() {
        assert(lowered(a@).len() != lowered(b@).len());
        return false;
    }
    let mut i: usize = 0;
    while i < a.len()
        invariant
            i <= a@.len(),
            a@.len() == b@.len(),
            forall|j: int| 0 <= j < i ==> lower(a@[j]) == lower(b@[j]),
        decreases a@.len() - i,
    {
        if lower_byte(a[i]) != lower_byte(b[i]) {
            assert(lowered(a@)[i as int] != lowered(b@)[i as int]);
            return false;
        }
        i += 1;
    }
    assert(lowered(a@) =~= lowered(b@));
    true
}

/// Little-endian bytes of a 32-bit number.
pub open spec fn le32(x: u32) -> Seq<u8> {
    seq![
        (x % 256) as u8,
        (x / 256 % 256) as u8,
        (x / 65536 % 256) as u8,
        (x / 16777216 % 256) as u8,
    ]
}

/// Little-endian bytes of a 64-bit number.
pub open spec fn le64(x: u64) -> Seq<u8> {
    le32((x % 4294967296) as u32) + le32((x / 4294967296) as u32)
}

/// The number whose little-endian bytes stand at `i`.
pub open spec fn u32_at(s: Seq<u8>, i: int) -> u32 {
    (s[i] + s[i + 1] * 256 + s[i + 2] * 65536 + s[i + 3] * 16777216) as u32
}

pub open spec fn u64_at(s: Seq<u8>, i: int) -> u64 {
    (u32_at(s, i) + u32_at(s, i + 4) * 4294967296) as u64
}

/// The bytes that `le32` writes at `i` read back as the number.
pub proof fn lemma_le32(s: Seq<u8>, i: int, x: u32)
    requires
        0 <= i,
        i + 4 <= s.len(),
        s.subrange(i, i + 4) == le32(x),
    ensures
        u32_at(s, i) == x,
{
    let t = s.subrange(i, i + 4);
    assert(t[0] == s[i] && t[1] == s[i + 1] && t[2] == s[i + 2] && t[3] == s[i + 3]);
}

pub proof fn lemma_le64(s: Seq<u8>, i: int, x: u64)
    requires
        0 <= i,
        i + 8 <= s.len(),
        s.subrange(i, i + 8) == le64(x),
    ensures
        u64_at(s, i) == x,
{
    assert(s.subrange(i, i + 4) =~= s.subrange(i, i + 8).subrange(0, 4));
    assert(le64(x).subrange(0, 4) =~= le32((x % 4294967296) as u32));
    assert(s.subrange(i + 4, i + 8) =~= s.subrange(i, i + 8).subrange(4, 8));
    assert(le64(x).subrange(4, 8) =~= le32((x / 4294967296) as u32));
    lemma_le32(s, i, (x % 4294967296) as u32);
    lemma_le32(s, i + 4, (x / 4294967296) as u32);
}

/// Little-endian bytes of `x`.
pub fn le_bytes(x: u32) -> (r: [u8; 4])
    ensures
        r@ == le32(x),
{
    let r = [
        (x % 256) as u8,
        (x / 256 % 256) as u8,
        (x / 65536 % 256) as u8,
        (x / 16777216 % 256) as u8,
    ];
    assert(r@ =~= le32(x));
    r
}

pub fn push_u32(out: &mut Vec<u8>, x: u32)
    ensures
        final(out)@ == old(out)@ + le32(x),
{
    let b = le_bytes(x);
    push_bytes(out, b.as_slice());
}

pub fn push_u64(out: &mut Vec<u8>, x: u64)
    ensures
        final(out)@ == old(out)@ + le64(x),
{
    push_u32(out, (x % 4294967296) as u32);
    push_u32(out, (x / 4294967296) as u32);
}

pub fn read_u32(s: &[u8], i: usize) -> (r: u32)
    requires
        i + 4 <= s.len(),
    ensures
        r == u32_at(s@, i as int),
{
    s[i] as u32 + s[i + 1] as u32 * 256 + s[i + 2] as u32 * 65536 + s[i + 3] as u32 * 16777216
}

pub fn read_u64(s: &[u8], i: usize) -> (r: u64)
    requires
        i + 8 <= s.len(),
    ensures
        r == u64_at(s@, i as int),
{
    read_u32(s, i) as u64 + read_u32(s, i + 4) as u64 * 4294967296
}

/// The contents of a list of byte strings.
pub open spec fn views(v: Seq<Vec<u8>>) -> Seq<Seq<u8>> {
    v.map_values(|x: Vec<u8>| x@)
}

/// The pieces of `s` between the occurrences of `b`; one more than there are
/// occurrences.
pub open spec fn pieces(s: Seq<u8>, b: u8) -> Seq<Seq<u8>>
    decreases s.len(),
{
    if s.len() == 0 {
        seq![seq![]]
    } else {
        let before = pieces(s.drop_last(), b);
        if s.last() == b {
            before.push(seq![])
        } else {
            before.drop_last().push(before.last().push(s.last()))
        }
    }
}

pub proof fn lemma_pieces_len(s: Seq<u8>, b: u8)
    ensures
        pieces(s, b).len() >= 1,
    decreases s.len(),
{
    if s.len() > 0 {
        lemma_pieces_len(s.drop_last(), b);
    }
}

/// Cut `s` at every `b`.
pub fn split(s: &[u8], b: u8) -> (r: Vec<Vec<u8>>)
    ensures
        views(r@) == pieces(s@, b),
        r@.len() >= 1,
{
    let mut out: Vec<Vec<u8>> = Vec::new();
    let mut cur: Vec<u8> = Vec::new();
    let mut i: usize = 0;
    assert(views(out@).push(cur@) =~= pieces(s@.take(0), b));
    while i < s.len()
        invariant
            i <= s@.len(),
            views(out@).push(cur@) == pieces(s@.take(i as int), b),
        decreases s@.len() - i,
    {
        let ghost before = views(out@).push(cur@);
        let ghost was = out@;
        let ghost held = cur@;
        assert(s@.take(i + 1).drop_last() =~= s@.take(i as int));
        assert(s@.take(i + 1).last() == s@[i as int]);
        assert(before.drop_last() =~= views(was));
        if s[i] == b {
            out.push(cur);
            cur = Vec::new();
            assert(views(out@) =~= before);
        } else {
            cur.push(s[i]);
        }
        assert(views(out@).push(cur@) =~= pieces(s@.take(i + 1), b));
        i += 1;
    }
    assert(s@.take(i as int) =~= s@);
    out.push(cur);
    assert(views(out@) =~= pieces(s@, b));
    out
}

/// Decimal digits of a number.
pub open spec fn dec(n: nat) -> Seq<u8>
    decreases n,
{
    if n < 10 {
        seq![(48 + n) as u8]
    } else {
        dec(n / 10).push((48 + n % 10) as u8)
    }
}

/// Append the decimal digits of `n`.
pub fn push_dec(out: &mut Vec<u8>, n: u64)
    ensures
        final(out)@ == old(out)@ + dec(n as nat),
    decreases n,
{
    if n >= 10 {
        push_dec(out, n / 10);
        out.push((48 + n % 10) as u8);
    } else {
        out.push((48 + n) as u8);
    }
    assert(out@ =~= old(out)@ + dec(n as nat));
}

/// Two decimal digits of a number below a hundred.
pub open spec fn two(n: int) -> Seq<u8> {
    seq![(48 + n / 10) as u8, (48 + n % 10) as u8]
}

pub fn push_two(out: &mut Vec<u8>, n: u64)
    requires
        n < 100,
    ensures
        final(out)@ == old(out)@ + two(n as int),
{
    out.push((48 + n / 10) as u8);
    out.push((48 + n % 10) as u8);
    assert(out@ =~= old(out)@ + two(n as int));
}

pub open spec fn is_digit(b: u8) -> bool {
    48 <= b <= 57
}

pub open spec fn all_digits(s: Seq<u8>) -> bool {
    forall|i: int| 0 <= i < s.len() ==> is_digit(#[trigger] s[i])
}

/// The number that decimal digits spell.
pub open spec fn value(s: Seq<u8>) -> nat
    decreases s.len(),
{
    if s.len() == 0 {
        0
    } else {
        value(s.drop_last()) * 10 + (s.last() - 48) as nat
    }
}

/// An unsigned decimal number of at most `max`: digits, with an optional plus.
pub open spec fn number(s: Seq<u8>, max: nat) -> Option<nat> {
    let digits = if s.len() > 0 && s[0] == 43 {
        s.subrange(1, s.len() as int)
    } else {
        s
    };
    if digits.len() > 0 && all_digits(digits) && value(digits) <= max {
        Some(value(digits))
    } else {
        None
    }
}

/// Decimal digits spell the number that they were written for.
pub proof fn digits_spell_their_number(n: nat)
    ensures
        dec(n).len() > 0,
        all_digits(dec(n)),
        value(dec(n)) == n,
    decreases n,
{
    let all = dec(n);
    if n < 10 {
        assert(all.drop_last() =~= Seq::<u8>::empty());
        assert(value(all.drop_last()) == 0);
    } else {
        digits_spell_their_number(n / 10);
        let init = dec(n / 10);
        assert(all.drop_last() =~= init);
        assert forall|i: int| 0 <= i < all.len() implies is_digit(#[trigger] all[i]) by {
            if i < init.len() {
                assert(all[i] == init[i]);
            }
        }
    }
}

proof fn lemma_value_grows(s: Seq<u8>, k: int)
    requires
        0 <= k <= s.len(),
        all_digits(s),
    ensures
        value(s.take(k)) <= value(s),
    decreases s.len(),
{
    if k < s.len() {
        let init = s.drop_last();
        assert(init.take(k) =~= s.take(k));
        assert forall|i: int| 0 <= i < init.len() implies is_digit(#[trigger] init[i]) by {
            assert(init[i] == s[i]);
        }
        lemma_value_grows(init, k);
        assert(is_digit(s[s.len() - 1]));
    } else {
        assert(s.take(k) =~= s);
    }
}

/// Read an unsigned decimal number of at most `max`.
pub fn parse_number(s: &[u8], max: u64) -> (r: Option<u64>)
    ensures
        match number(s@, max as nat) {
            Some(n) => r == Some(n as u64) && n <= max,
            None => r is None,
        },
{
    let start: usize = if s.len() > 0 && s[0] == 43 {
        1
    } else {
        0
    };
    let ghost digits = s@.subrange(start as int, s@.len() as int);
    assert(start == 0 ==> digits =~= s@);
    if s.len() == start {
        return None;
    }
    let mut n: u64 = 0;
    let mut i: usize = start;
    assert(digits.take(0) =~= seq![]);
    while i < s.len()
        invariant
            start <= i <= s@.len(),
            digits == s@.subrange(start as int, s@.len() as int),
            n == value(digits.take(i - start)),
            n <= max,
            all_digits(digits.take(i - start)),
            digits.len() > 0,
            number(s@, max as nat) == (if all_digits(digits) && value(digits) <= max {
                Some(value(digits))
            } else {
                None
            }),
        decreases s@.len() - i,
    {
        let b: u8 = s[i];
        let ghost k = i - start;
        assert(digits[k] == b);
        if b < 48 || b > 57 {
            assert(!is_digit(digits[k]));
            return None;
        }
        let ghost up = digits.take(k + 1);
        proof {
            assert(up.drop_last() =~= digits.take(k));
            assert(up.last() == b);
            assert forall|j: int| 0 <= j < up.len() implies is_digit(#[trigger] up[j]) by {
                if j < k {
                    assert(digits.take(k)[j] == up[j]);
                }
            }
        }
        let wide: u128 = n as u128 * 10 + (b - 48) as u128;
        assert(wide == value(up));
        if wide > max as u128 {
            proof {
                if all_digits(digits) {
                    lemma_value_grows(digits, k + 1);
                }
            }
            return None;
        }
        n = wide as u64;
        i += 1;
    }
    assert(digits.take(i - start) =~= digits);
    Some(n)
}

/// ASCII white space.
pub open spec fn is_blank(b: u8) -> bool {
    b == 32 || b == 9 || b == 10 || b == 12 || b == 13
}

/// Without the white space at the start.
pub open spec fn trimmed_left(s: Seq<u8>) -> Seq<u8>
    decreases s.len(),
{
    if s.len() > 0 && is_blank(s[0]) {
        trimmed_left(s.subrange(1, s.len() as int))
    } else {
        s
    }
}

/// Without the white space at the end.
pub open spec fn trimmed_right(s: Seq<u8>) -> Seq<u8>
    decreases s.len(),
{
    if s.len() > 0 && is_blank(s.last()) {
        trimmed_right(s.drop_last())
    } else {
        s
    }
}

/// Without the white space at both ends.
pub fn trim(s: &[u8]) -> (r: &[u8])
    ensures
        r@ == trimmed_right(trimmed_left(s@)),
{
    let mut a: usize = 0;
    assert(s@.subrange(0, s@.len() as int) =~= s@);
    while a < s.len() && (s[a] == 32 || s[a] == 9 || s[a] == 10 || s[a] == 12 || s[a] == 13)
        invariant
            a <= s@.len(),
            trimmed_left(s@) == trimmed_left(s@.subrange(a as int, s@.len() as int)),
        decreases s@.len() - a,
    {
        proof {
            let here = s@.subrange(a as int, s@.len() as int);
            assert(here.subrange(1, here.len() as int) =~= s@.subrange(a + 1, s@.len() as int));
        }
        a += 1;
    }
    let mut b: usize = s.len();
    let ghost left = s@.subrange(a as int, s@.len() as int);
    while b > a && (s[b - 1] == 32 || s[b - 1] == 9 || s[b - 1] == 10 || s[b - 1] == 12 || s[b - 1]
        == 13)
        invariant
            a <= b <= s@.len(),
            trimmed_right(left) == trimmed_right(s@.subrange(a as int, b as int)),
        decreases b - a,
    {
        assert(s@.subrange(a as int, b as int).drop_last() =~= s@.subrange(a as int, b - 1));
        b -= 1;
    }
    &s[a..b]
}

/// Bytes below 128, read as characters.
pub open spec fn chars(b: Seq<u8>) -> Seq<char> {
    Seq::new(b.len(), |i: int| b[i] as char)
}

pub open spec fn is_ascii(b: Seq<u8>) -> bool {
    forall|i: int| 0 <= i < b.len() ==> #[trigger] b[i] < 128
}

pub proof fn lemma_ascii(b: Seq<u8>)
    requires
        is_ascii(b),
    ensures
        encode_utf8(chars(b)) == b,
        valid_utf8(b),
{
    let c = chars(b);
    assert(is_ascii_chars(c)) by {
        assert forall|i: int| 0 <= i < c.len() implies c[i] < 128 as char by {
            assert(b[i] < 128);
        }
    }
    is_ascii_chars_encode_utf8(c);
    assert(encode_utf8(c) =~= b);
    encode_utf8_valid_utf8(c);
}

/// The text that UTF-8 bytes spell.
///
/// Calls `std::str::from_utf8`: it succeeds exactly on valid UTF-8, and the
/// text's bytes are then the bytes that were given.
#[verifier::external_body]
pub(crate) fn utf8(b: &[u8]) -> (r: Option<&str>)
    ensures
        match r {
            Some(s) => valid_utf8(b@) && s@ == decode_utf8(b@),
            None => !valid_utf8(b@),
        },
{
    std::str::from_utf8(b).ok()
}

/// The string that ASCII bytes spell.
pub fn ascii_string(b: Vec<u8>) -> (r: String)
    requires
        is_ascii(b@),
    ensures
        r@ == chars(b@),
{
    proof {
        lemma_ascii(b@);
        encode_utf8_decode_utf8(chars(b@));
    }
    match utf8(b.as_slice()) {
        Some(s) => s.to_owned(),
        None => String::new(),
    }
}

} // verus!
