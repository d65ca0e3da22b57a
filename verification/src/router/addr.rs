//! IP addresses and their text forms.

use vstd::prelude::*;

use crate::bytes::{all_digits, is_digit, parse_number, pieces, push_bytes, split, value, views};
use crate::router::uri::{hex, hex_value};

verus! {

#[derive(Debug, Clone, Copy, PartialEq, Eq)]
pub enum Addr {
    V4([u8; 4]),
    V6([u8; 16]),
}

impl Addr {
    pub open spec fn octets(self) -> Seq<u8> {
        match self {
            Addr::V4(o) => o@,
            Addr::V6(o) => o@,
        }
    }
}

/// One part of a dotted address: a number up to 255 without leading zeros.
pub open spec fn v4_part(p: Seq<u8>) -> Option<u8> {
    if 1 <= p.len() <= 3 && all_digits(p) && (p.len() > 1 ==> p[0] != 48) && value(p) <= 255 {
        Some(value(p) as u8)
    } else {
        None
    }
}

/// `a.b.c.d`
pub open spec fn v4(s: Seq<u8>) -> Option<Seq<u8>> {
    let ps = pieces(s, 46);
    if ps.len() == 4 && v4_part(ps[0]) is Some && v4_part(ps[1]) is Some && v4_part(ps[2]) is Some
        && v4_part(ps[3]) is Some {
        Some(seq![v4_part(ps[0])->0, v4_part(ps[1])->0, v4_part(ps[2])->0, v4_part(ps[3])->0])
    } else {
        None
    }
}

pub open spec fn all_hex(p: Seq<u8>) -> bool {
    forall|i: int| 0 <= i < p.len() ==> hex_value(#[trigger] p[i]) is Some
}

/// The number that hexadecimal digits spell.
pub open spec fn hex_number(p: Seq<u8>) -> nat
    decreases p.len(),
{
    if p.len() == 0 {
        0
    } else {
        hex_number(p.drop_last()) * 16 + hex_value(p.last())->0 as nat
    }
}

/// One to four hexadecimal digits, as two bytes.
pub open spec fn v6_group(p: Seq<u8>) -> Option<Seq<u8>> {
    if 1 <= p.len() <= 4 && all_hex(p) {
        Some(seq![(hex_number(p) / 256) as u8, (hex_number(p) % 256) as u8])
    } else {
        None
    }
}

/// The bytes of a list of groups; the last may be a dotted address where
/// `dotted` allows it.
pub open spec fn group_bytes(ps: Seq<Seq<u8>>, dotted: bool) -> Option<Seq<u8>>
    decreases ps.len(),
{
    if ps.len() == 0 {
        Some(seq![])
    } else {
        match group_bytes(ps.drop_last(), false) {
            None => None,
            Some(front) => if dotted && v4(ps.last()) is Some {
                Some(front + v4(ps.last())->0)
            } else if v6_group(ps.last()) is Some {
                Some(front + v6_group(ps.last())->0)
            } else {
                None
            },
        }
    }
}

/// A list of groups between colons; the empty text is the empty list.
pub open spec fn groups(s: Seq<u8>, dotted: bool) -> Option<Seq<u8>> {
    if s.len() == 0 {
        Some(seq![])
    } else {
        group_bytes(pieces(s, 58), dotted)
    }
}

/// The first pair of colons stands at `i`.
pub open spec fn first_gap(s: Seq<u8>, i: int) -> bool {
    &&& 0 <= i
    &&& i + 1 < s.len()
    &&& s[i] == 58 && s[i + 1] == 58
    &&& forall|j: int| 0 <= j < i ==> !(#[trigger] s[j] == 58 && s[j + 1] == 58)
}

pub open spec fn zeros(n: int) -> Seq<u8> {
    Seq::new(n as nat, |i: int| 0u8)
}

/// Eight groups, of which one run of zeros may be written as two colons.
pub open spec fn v6(s: Seq<u8>) -> Option<Seq<u8>> {
    if exists|i: int| first_gap(s, i) {
        let i = choose|i: int| first_gap(s, i);
        match (groups(s.subrange(0, i), false), groups(s.subrange(i + 2, s.len() as int), true)) {
            (Some(h), Some(t)) => if h.len() + t.len() <= 14 {
                Some(h + zeros(16 - h.len() - t.len()) + t)
            } else {
                None
            },
            _ => None,
        }
    } else {
        match groups(s, true) {
            Some(b) => if b.len() == 16 {
                Some(b)
            } else {
                None
            },
            None => None,
        }
    }
}

/// The octets of an address, and whether it is of the fourth version.
pub open spec fn address(s: Seq<u8>) -> Option<(bool, Seq<u8>)> {
    match v4(s) {
        Some(o) => Some((true, o)),
        None => match v6(s) {
            Some(o) => Some((false, o)),
            None => None,
        },
    }
}

fn parse_v4_part(p: &[u8]) -> (r: Option<u8>)
    ensures
        r == v4_part(p@),
{
    if p.len() < 1 || p.len() > 3 || (p.len() > 1 && p[0] == 48) {
        return None;
    }
    if p[0] == 43 {
        assert(!is_digit(p@[0]));
        return None;
    }
    match parse_number(p, 255) {
        Some(n) => Some(n as u8),
        None => None,
    }
}

fn parse_v4(s: &[u8]) -> (r: Option<Vec<u8>>)
    ensures
        match v4(s@) {
            Some(o) => r matches Some(v) && v@ == o,
            None => r is None,
        },
{
    let ps = split(s, 46);
    let ghost all = pieces(s@, 46);
    if ps.len() != 4 {
        return None;
    }
    assert(all[0] == ps@[0]@ && all[1] == ps@[1]@ && all[2] == ps@[2]@ && all[3] == ps@[3]@);
    match (
        parse_v4_part(ps[0].as_slice()),
        parse_v4_part(ps[1].as_slice()),
        parse_v4_part(ps[2].as_slice()),
        parse_v4_part(ps[3].as_slice()),
    ) {
        (Some(a), Some(b), Some(c), Some(d)) => {
            let mut v: Vec<u8> = Vec::new();
            v.push(a);
            v.push(b);
            v.push(c);
            v.push(d);
            assert(v@ =~= seq![a, b, c, d]);
            Some(v)
        },
        _ => None,
    }
}

proof fn lemma_hex_bound(p: Seq<u8>)
    requires
        p.len() <= 4,
    ensures
        p.len() == 0 ==> hex_number(p) == 0,
        p.len() == 1 && all_hex(p) ==> hex_number(p) < 16,
        p.len() == 2 && all_hex(p) ==> hex_number(p) < 256,
        p.len() == 3 && all_hex(p) ==> hex_number(p) < 4096,
        p.len() == 4 && all_hex(p) ==> hex_number(p) < 65536,
    decreases p.len(),
{
    if p.len() > 0 && all_hex(p) {
        let init = p.drop_last();
        assert forall|i: int| 0 <= i < init.len() implies hex_value(#[trigger] init[i]) is Some by {
            assert(init[i] == p[i]);
        }
        lemma_hex_bound(init);
        assert(hex_value(p[p.len() - 1]) is Some);
    }
}

fn parse_v6_group(p: &[u8]) -> (r: Option<(u8, u8)>)
    ensures
        match v6_group(p@) {
            Some(b) => r matches Some((hi, lo)) && b == seq![hi, lo],
            None => r is None,
        },
{
    if p.len() < 1 || p.len() > 4 {
        return None;
    }
    let mut n: u32 = 0;
    let mut i: usize = 0;
    assert(p@.take(0).len() == 0);
    while i < p.len()
        invariant
            i <= p@.len(),
            1 <= p@.len() <= 4,
            all_hex(p@.take(i as int)),
            n == hex_number(p@.take(i as int)),
        decreases p@.len() - i,
    {
        let ghost up = p@.take(i + 1);
        proof {
            lemma_hex_bound(p@.take(i as int));
            assert(up.drop_last() =~= p@.take(i as int));
        }
        match hex(p[i]) {
            Some(h) => {
                proof {
                    assert forall|j: int| 0 <= j < up.len() implies hex_value(
                        #[trigger] up[j],
                    ) is Some by {
                        if j < i {
                            assert(p@.take(i as int)[j] == up[j]);
                        }
                    }
                }
                n = n * 16 + h as u32;
            },
            None => {
                assert(hex_value(p@[i as int]) is None);
                return None;
            },
        }
        i += 1;
    }
    assert(p@.take(i as int) =~= p@);
    proof {
        lemma_hex_bound(p@);
    }
    Some(((n / 256) as u8, (n % 256) as u8))
}

fn parse_groups(s: &[u8], dotted: bool) -> (r: Option<Vec<u8>>)
    ensures
        match groups(s@, dotted) {
            Some(o) => r matches Some(v) && v@ == o,
            None => r is None,
        },
{
    let mut out: Vec<u8> = Vec::new();
    if s.len() == 0 {
        return Some(out);
    }
    let ps = split(s, 58);
    let ghost all = pieces(s@, 58);
    let mut i: usize = 0;
    assert(all.take(0).len() == 0);
    while i < ps.len() - 1
        invariant
            ps@.len() >= 1,
            i <= ps@.len() - 1,
            views(ps@) == all,
            all == pieces(s@, 58),
            s@.len() > 0,
            group_bytes(all.take(i as int), false) == Some(out@),
        decreases ps@.len() - i,
    {
        proof {
            assert(all[i as int] == ps@[i as int]@);
            assert(all.take(i + 1).drop_last() =~= all.take(i as int));
        }
        match parse_v6_group(ps[i].as_slice()) {
            Some((hi, lo)) => {
                let ghost was = out@;
                out.push(hi);
                out.push(lo);
                assert(out@ =~= was + seq![hi, lo]);
            },
            None => {
                proof {
                    assert(group_bytes(all.take(i + 1), false) is None);
                    lemma_bad_prefix(all, i + 1, dotted);
                }
                return None;
            },
        }
        i += 1;
    }
    assert(all.drop_last() =~= all.take(i as int));
    assert(all.last() == ps@[i as int]@);
    let last = ps[i].as_slice();
    if dotted {
        if let Some(v) = parse_v4(last) {
            push_bytes(&mut out, v.as_slice());
            return Some(out);
        }
    }
    match parse_v6_group(last) {
        Some((hi, lo)) => {
            let ghost was = out@;
            out.push(hi);
            out.push(lo);
            assert(out@ =~= was + seq![hi, lo]);
            Some(out)
        },
        None => None,
    }
}

proof fn lemma_bad_prefix(ps: Seq<Seq<u8>>, n: int, dotted: bool)
    requires
        0 <= n < ps.len(),
        group_bytes(ps.take(n), false) is None,
    ensures
        group_bytes(ps, dotted) is None,
    decreases ps.len(),
{
    let init = ps.drop_last();
    if n == init.len() {
        assert(init =~= ps.take(n));
    } else {
        assert(init.take(n) =~= ps.take(n));
        lemma_bad_prefix(init, n, false);
    }
}

proof fn lemma_gap_unique(s: Seq<u8>, i: int)
    requires
        first_gap(s, i),
    ensures
        forall|j: int| first_gap(s, j) ==> j == i,
{
    assert forall|j: int| first_gap(s, j) implies j == i by {
        if j < i {
            assert(s[j] == 58 && s[j + 1] == 58);
        }
        if i < j {
            assert(s[i] == 58 && s[i + 1] == 58);
        }
    }
}

fn find_gap(s: &[u8]) -> (r: Option<usize>)
    ensures
        match r {
            Some(i) => first_gap(s@, i as int),
            None => forall|i: int| !first_gap(s@, i),
        },
{
    let mut i: usize = 0;
    while i < s.len() && s.len() - i >= 2
        invariant
            i <= s@.len(),
            forall|j: int| 0 <= j < i && j + 1 < s@.len() ==> !(#[trigger] s@[j] == 58 && s@[j + 1]
                == 58),
        decreases s@.len() - i,
    {
        if s[i] == 58 && s[i + 1] == 58 {
            return Some(i);
        }
        i += 1;
    }
    assert forall|k: int| !first_gap(s@, k) by {
        if first_gap(s@, k) {
            assert(s@[k] == 58 && s@[k + 1] == 58);
        }
    }
    None
}

fn sixteen(b: &Vec<u8>) -> (r: [u8; 16])
    requires
        b@.len() == 16,
    ensures
        r@ == b@,
{
    let r = [
        b[0],
        b[1],
        b[2],
        b[3],
        b[4],
        b[5],
        b[6],
        b[7],
        b[8],
        b[9],
        b[10],
        b[11],
        b[12],
        b[13],
        b[14],
        b[15],
    ];
    assert(r@ =~= b@);
    r
}

fn parse_v6(s: &[u8]) -> (r: Option<Vec<u8>>)
    ensures
        match v6(s@) {
            Some(o) => r matches Some(v) && v@ == o && o.len() == 16,
            None => r is None,
        },
{
    match find_gap(s) {
        None => match parse_groups(s, true) {
            Some(b) => if b.len() == 16 {
                Some(b)
            } else {
                None
            },
            None => None,
        },
        Some(i) => {
            proof {
                lemma_gap_unique(s@, i as int);
            }
            assert(i + 2 <= s.len());
            let head = parse_groups(&s[0..i], false);
            let tail = parse_groups(&s[i + 2..s.len()], true);
            match (head, tail) {
                (Some(h), Some(t)) => {
                    if h.len() > 14 || t.len() > 14 - h.len() {
                        return None;
                    }
                    let ghost hv = h@;
                    let mut out: Vec<u8> = h;
                    let n: usize = 16 - out.len() - t.len();
                    let mut k: usize = 0;
                    while k < n
                        invariant
                            k <= n,
                            out@ == hv + zeros(k as int),
                        decreases n - k,
                    {
                        out.push(0);
                        k += 1;
                        assert(out@ =~= hv + zeros(k as int));
                    }
                    push_bytes(&mut out, t.as_slice());
                    Some(out)
                },
                _ => None,
            }
        },
    }
}

/// Read a dotted address.
pub fn parse_v4_addr(s: &[u8]) -> (r: Option<Addr>)
    ensures
        match v4(s@) {
            Some(o) => r matches Some(Addr::V4(a)) && a@ == o,
            None => r is None,
        },
{
    match parse_v4(s) {
        Some(v) => {
            let a = [v[0], v[1], v[2], v[3]];
            assert(a@ =~= v@);
            Some(Addr::V4(a))
        },
        None => None,
    }
}

/// Read an address in groups between colons.
pub fn parse_v6_addr(s: &[u8]) -> (r: Option<Addr>)
    ensures
        match v6(s@) {
            Some(o) => r matches Some(Addr::V6(a)) && a@ == o,
            None => r is None,
        },
{
    match parse_v6(s) {
        Some(v) => Some(Addr::V6(sixteen(&v))),
        None => None,
    }
}

/// Read the text form of an address.
pub fn parse_addr(s: &[u8]) -> (r: Option<Addr>)
    ensures
        match address(s@) {
            Some((true, o)) => r matches Some(Addr::V4(a)) && a@ == o,
            Some((false, o)) => r matches Some(Addr::V6(a)) && a@ == o,
            None => r is None,
        },
{
    match parse_v4_addr(s) {
        Some(a) => Some(a),
        None => parse_v6_addr(s),
    }
}

} // verus!
