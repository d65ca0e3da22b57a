//! Messages as lines: each ended by a carriage return and a line feed.

use vstd::prelude::*;

use crate::bytes::{is_blank, lower, lowered, pieces, trimmed_left, trimmed_right, until};

verus! {

/// A letter of either case as a small one.
pub open spec fn small(b: u8) -> int {
    if 65 <= b <= 90 {
        b + 32
    } else {
        b as int
    }
}

/// Bytes that differ in the case of letters at most.
pub open spec fn alike(a: Seq<u8>, b: Seq<u8>) -> bool {
    a.len() == b.len() && forall|i: int| 0 <= i < a.len() ==> small(#[trigger] a[i]) == small(b[i])
}

pub proof fn lemma_alike(a: Seq<u8>, b: Seq<u8>)
    ensures
        (lowered(a) == lowered(b)) == alike(a, b),
{
    let (x, y) = (lowered(a), lowered(b));
    assert(forall|i: int| 0 <= i < a.len() ==> x[i] == lower(#[trigger] a[i]) && lower(a[i])
        == small(a[i]));
    assert(forall|i: int| 0 <= i < b.len() ==> y[i] == lower(#[trigger] b[i]) && lower(b[i])
        == small(b[i]));
    if x == y {
        assert(x.len() == y.len());
        assert forall|i: int| 0 <= i < a.len() implies small(#[trigger] a[i]) == small(b[i]) by {
            assert(x[i] == y[i]);
            assert(lower(b[i]) == small(b[i]));
        }
    }
    if alike(a, b) {
        assert forall|i: int| 0 <= i < x.len() implies x[i] == y[i] by {
            assert(small(a[i]) == small(b[i]));
            assert(lower(b[i]) == small(b[i]));
        }
        assert(x =~= y);
    }
}

/// Where the name of a header line ends: at its first colon, or with it.
pub open spec fn name_ends(line: Seq<u8>, n: int) -> bool {
    &&& 0 <= n <= line.len()
    &&& n < line.len() ==> line[n] == 58
    &&& forall|j: int| 0 <= j < n ==> line[j] != 58
}

/// Whether a header line has this name, in letters of any case.
pub open spec fn has_name(line: Seq<u8>, name: Seq<u8>) -> bool {
    exists|n: int| #[trigger] name_ends(line, n) && alike(line.subrange(0, n), name)
}

pub proof fn lemma_has_name(line: Seq<u8>, name: Seq<u8>)
    ensures
        has_name(line, name) == (lowered(until(line, 58)) == lowered(name)),
{
    let u = until(line, 58);
    let n = u.len() as int;
    if line.contains(58) {
        crate::bytes::lemma_find_some(line, 58);
    }
    assert(name_ends(line, n));
    assert(line.subrange(0, n) =~= u);
    assert forall|m: int| #[trigger] name_ends(line, m) implies m == n by {
        if m < n {
            assert(line[m] == 58);
        }
        if n < m {
            assert(line[n] == 58);
        }
    }
    lemma_alike(u, name);
}

/// Lines as they are sent: each with its end.
pub open spec fn ended(lines: Seq<Seq<u8>>) -> Seq<u8>
    decreases lines.len(),
{
    if lines.len() == 0 {
        seq![]
    } else {
        ended(lines.drop_last()) + lines.last() + seq![13u8, 10u8]
    }
}

pub proof fn lemma_ended_joins(a: Seq<Seq<u8>>, b: Seq<Seq<u8>>)
    ensures
        ended(a + b) == ended(a) + ended(b),
    decreases b.len(),
{
    if b.len() == 0 {
        assert(a + b =~= a);
        assert(ended(a) + ended(b) =~= ended(a));
    } else {
        assert((a + b).drop_last() =~= a + b.drop_last());
        lemma_ended_joins(a, b.drop_last());
        assert(ended(a + b) =~= ended(a) + ended(b));
    }
}

pub proof fn lemma_ended_one(line: Seq<u8>)
    ensures
        ended(seq![line]) == line + seq![13u8, 10u8],
{
    let one = seq![line];
    assert(one.drop_last() =~= seq![]);
    assert(ended(one.drop_last()) =~= seq![]);
    assert(ended(one) =~= line + seq![13u8, 10u8]);
}

pub proof fn lemma_pieces_grow(s: Seq<u8>, t: Seq<u8>, b: u8)
    requires
        !t.contains(b),
    ensures
        pieces(s, b).len() > 0,
        pieces(s + t, b) == pieces(s, b).drop_last().push(pieces(s, b).last() + t),
    decreases t.len(), s.len(),
{
    lemma_some_piece(s, b);
    if t.len() == 0 {
        assert(s + t =~= s);
        let p = pieces(s, b);
        assert(p.last() + t =~= p.last());
        assert(p.drop_last().push(p.last()) =~= p);
    } else {
        let init = t.drop_last();
        assert(t[t.len() - 1] == t.last());
        assert forall|i: int| 0 <= i < init.len() implies init[i] != b by {
            assert(init[i] == t[i]);
        }
        lemma_pieces_grow(s, init, b);
        assert((s + t).drop_last() =~= s + init);
        let before = pieces(s + init, b);
        assert(before.drop_last() =~= pieces(s, b).drop_last());
        assert(before.last().push(t.last()) =~= pieces(s, b).last() + t);
    }
}

proof fn lemma_some_piece(s: Seq<u8>, b: u8)
    ensures
        pieces(s, b).len() > 0,
    decreases s.len(),
{
    if s.len() > 0 {
        lemma_some_piece(s.drop_last(), b);
    }
}

/// Lines that can be told apart once they are sent.
pub open spec fn plain_lines(lines: Seq<Seq<u8>>) -> bool {
    forall|i: int|
        0 <= i < lines.len() ==> !(#[trigger] lines[i]).contains(10) && (lines[i].len() > 0
            ==> lines[i].last() != 13)
}

#[verifier::spinoff_prover]
#[verifier::rlimit(50)]
pub proof fn lemma_pieces_of_lines(lines: Seq<Seq<u8>>)
    requires
        plain_lines(lines),
    ensures
        pieces(ended(lines), 10) == lines.map_values(|l: Seq<u8>| l.push(13)).push(seq![]),
    decreases lines.len(),
{
    let f = |l: Seq<u8>| l.push(13u8);
    if lines.len() == 0 {
        assert(pieces(ended(lines), 10) =~= seq![seq![]]);
        assert(lines.map_values(f).push(seq![]) =~= seq![seq![]]);
    } else {
        let init = lines.drop_last();
        let last = lines.last();
        assert(lines[lines.len() - 1] == last);
        assert forall|i: int| 0 <= i < init.len() implies !(#[trigger] init[i]).contains(10) && (
        init[i].len() > 0 ==> init[i].last() != 13) by {
            assert(init[i] == lines[i]);
        }
        lemma_pieces_of_lines(init);
        let t = last.push(13);
        assert forall|i: int| 0 <= i < t.len() implies t[i] != 10 by {
            if i < last.len() {
                assert(last[i] == t[i]);
            }
        }
        lemma_pieces_grow(ended(init), t, 10);
        let s = ended(lines);
        assert(s.drop_last() =~= ended(init) + t);
        assert(s.last() == 10);
        let p = pieces(ended(init), 10);
        assert(p.drop_last() =~= init.map_values(f));
        assert(p.last() + t =~= t);
        assert(lines.map_values(f) =~= init.map_values(f).push(t));
        assert(pieces(s, 10) =~= lines.map_values(f).push(seq![]));
    }
}

/// Parts with a separator between each two.
pub open spec fn apart(parts: Seq<Seq<u8>>, b: u8) -> Seq<u8>
    decreases parts.len(),
{
    if parts.len() == 0 {
        seq![]
    } else if parts.len() == 1 {
        parts[0]
    } else {
        apart(parts.drop_last(), b).push(b) + parts.last()
    }
}

pub proof fn lemma_pieces_of_parts(parts: Seq<Seq<u8>>, b: u8)
    requires
        parts.len() > 0,
        forall|i: int| 0 <= i < parts.len() ==> !(#[trigger] parts[i]).contains(b),
    ensures
        pieces(apart(parts, b), b) == parts,
    decreases parts.len(),
{
    assert(!parts[parts.len() - 1].contains(b));
    if parts.len() == 1 {
        lemma_pieces_grow(seq![], parts[0], b);
        assert(Seq::<u8>::empty() + parts[0] =~= parts[0]);
        let none = pieces(seq![], b);
        assert(none.drop_last() =~= seq![]);
        assert(none.last() + parts[0] =~= parts[0]);
        assert(pieces(apart(parts, b), b) =~= parts);
    } else {
        let init = parts.drop_last();
        assert forall|i: int| 0 <= i < init.len() implies !(#[trigger] init[i]).contains(b) by {
            assert(init[i] == parts[i]);
        }
        lemma_pieces_of_parts(init, b);
        let front = apart(init, b).push(b);
        assert(front.drop_last() =~= apart(init, b));
        assert(pieces(front, b) == init.push(seq![]));
        lemma_pieces_grow(front, parts.last(), b);
        assert(init.push(seq![]).drop_last() =~= init);
        assert(Seq::<u8>::empty() + parts.last() =~= parts.last());
        assert(pieces(apart(parts, b), b) =~= parts);
    }
}

/// A space, a tab, a line feed, a form feed or a carriage return.
pub open spec fn blank(b: u8) -> bool {
    b == 32 || b == 9 || b == 10 || b == 12 || b == 13
}

/// Bytes with nothing but blanks before and behind them.
pub open spec fn around(s: Seq<u8>, inner: Seq<u8>, a: int) -> bool {
    &&& 0 <= a <= a + inner.len() <= s.len()
    &&& s.subrange(a, a + inner.len()) == inner
    &&& forall|i: int| 0 <= i < a ==> blank(#[trigger] s[i])
    &&& forall|i: int| a + inner.len() <= i < s.len() ==> blank(#[trigger] s[i])
}

proof fn lemma_trim_left(s: Seq<u8>) -> (a: int)
    ensures
        0 <= a <= s.len(),
        trimmed_left(s) == s.subrange(a, s.len() as int),
        forall|i: int| 0 <= i < a ==> blank(#[trigger] s[i]),
        a < s.len() ==> !blank(s[a]),
    decreases s.len(),
{
    if s.len() > 0 && is_blank(s[0]) {
        let t = s.subrange(1, s.len() as int);
        let a = lemma_trim_left(t);
        assert(t.subrange(a, t.len() as int) =~= s.subrange(a + 1, s.len() as int));
        assert forall|i: int| 0 <= i < a + 1 implies blank(#[trigger] s[i]) by {
            if i > 0 {
                assert(blank(t[i - 1]));
            }
        }
        assert(a < t.len() ==> t[a] == s[a + 1]);
        a + 1
    } else {
        assert(s.subrange(0, s.len() as int) =~= s);
        0
    }
}

proof fn lemma_trim_right(s: Seq<u8>) -> (b: int)
    ensures
        0 <= b <= s.len(),
        trimmed_right(s) == s.subrange(0, b),
        forall|i: int| b <= i < s.len() ==> blank(#[trigger] s[i]),
        b > 0 ==> !blank(s[b - 1]),
    decreases s.len(),
{
    if s.len() > 0 && is_blank(s.last()) {
        let t = s.drop_last();
        let b = lemma_trim_right(t);
        assert(t.subrange(0, b) =~= s.subrange(0, b));
        assert forall|i: int| b <= i < s.len() implies blank(#[trigger] s[i]) by {
            if i < t.len() {
                assert(blank(t[i]));
            }
        }
        b
    } else {
        assert(s.subrange(0, s.len() as int) =~= s);
        s.len() as int
    }
}

#[verifier::spinoff_prover]
#[verifier::rlimit(50)]
pub proof fn lemma_around(s: Seq<u8>, inner: Seq<u8>)
    requires
        inner.len() > 0,
        !blank(inner[0]),
        !blank(inner[inner.len() - 1]),
    ensures
        (trimmed_right(trimmed_left(s)) == inner) == exists|a: int| around(s, inner, a),
{
    let a = lemma_trim_left(s);
    let t = trimmed_left(s);
    let b = lemma_trim_right(t);
    let n = inner.len() as int;
    if trimmed_right(t) == inner {
        assert(b == n);
        assert(s.subrange(a, a + n) =~= inner);
        assert forall|i: int| a + n <= i < s.len() implies blank(#[trigger] s[i]) by {
            assert(t[i - a] == s[i]);
        }
        assert(around(s, inner, a));
    }
    if exists|c: int| around(s, inner, c) {
        let c = choose|c: int| around(s, inner, c);
        let part = s.subrange(c, c + n);
        assert(part[0] == s[c] && part[n - 1] == s[c + n - 1]);
        assert(a == c) by {
            if a < c {
                assert(blank(s[a]));
            }
            if c < a {
                assert(blank(s[c]));
            }
        }
        assert(t[n - 1] == s[c + n - 1]);
        if b < n {
            assert(blank(t[n - 1]));
        }
        if b > n {
            assert(t[b - 1] == s[a + b - 1]);
            assert(blank(s[a + b - 1]));
        }
        assert(t.subrange(0, b) =~= inner);
    }
}

} // verus!
