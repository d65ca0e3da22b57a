//! What patterns hit, and what paths, queries and templates stand for.

use vstd::prelude::*;
use vstd::string::*;

use crate::bytes::{
    chars, first_at, has_prefix, has_suffix, is_ascii, lemma_ascii, lemma_find, lemma_find_none,
    lower, lowered, pieces, text,
};
use crate::laws::lines::{alike, apart, lemma_alike, lemma_pieces_of_parts};
use crate::router::args::{args, args_of, component, decode_component, pairs, parse_args, spaced};
use crate::router::matching::{
    entry_body, folded, lowered_chars, negated, pattern_hits, regex_source, set_hits, strs,
    MatchError, PatternSet,
};
use crate::router::template::{
    ends_a_name, filled, is_name_byte, name_len, parts_of, rendered, var_named, PartModel, Template,
    TemplateError, TemplateFault, Values, Var, Vars,
};
use crate::router::uri::{
    decoded, hex_value, joined, normalize_path, percent_decode, proper, resolved, resolved_path,
};

verus! {

/// The same bytes, or with any case of letters.
pub open spec fn same(a: Seq<u8>, b: Seq<u8>, ci: bool) -> bool {
    if ci {
        alike(a, b)
    } else {
        a == b
    }
}

/// A pattern of plain letters with one star at most, that is no regular expression
/// and no exclusion.
pub open spec fn simple(b: Seq<u8>) -> bool {
    &&& is_ascii(b)
    &&& b.len() > 0 ==> b[0] != 126 && b[0] != 33
    &&& forall|i: int, j: int|
        0 <= i < b.len() && 0 <= j < b.len() && #[trigger] b[i] == 42 && #[trigger] b[j] == 42
            ==> i == j
}

/// Whether a value is what a simple pattern says: the pattern itself, or what
/// stands before its star, anything, and what stands behind it.
pub open spec fn is_hit(b: Seq<u8>, ci: bool, v: Seq<u8>) -> bool {
    if b.contains(42) {
        exists|i: int|
            {
                &&& 0 <= i < b.len()
                &&& #[trigger] b[i] == 42
                &&& v.len() >= b.len() - 1
                &&& same(v.subrange(0, i), b.subrange(0, i), ci)
                &&& same(
                    v.subrange(v.len() - (b.len() - i - 1), v.len() as int),
                    b.subrange(i + 1, b.len() as int),
                    ci,
                )
            }
    } else {
        same(v, b, ci)
    }
}

/// Whether an entry is an exclusion.
pub open spec fn excludes(e: Seq<u8>) -> bool {
    e.len() > 0 && e[0] == 33
}

/// An entry without its mark.
pub open spec fn unmarked(e: Seq<u8>) -> Seq<u8> {
    if excludes(e) {
        e.subrange(1, e.len() as int)
    } else {
        e
    }
}

proof fn lemma_lowered_chars(b: Seq<u8>)
    requires
        is_ascii(b),
    ensures
        lowered_chars(chars(b)) == chars(lowered(b)),
        is_ascii(lowered(b)),
{
    assert forall|i: int| 0 <= i < b.len() implies lowered_chars(chars(b))[i] == chars(
        lowered(b),
    )[i] && lowered(b)[i] < 128 by {
        assert(b[i] < 128);
        assert(lowered(b)[i] == lower(b[i]));
        assert(chars(b)[i] == b[i] as char);
    }
    assert(lowered_chars(chars(b)) =~= chars(lowered(b)));
}

#[verifier::spinoff_prover]
#[verifier::rlimit(50)]
proof fn lemma_simple(b: Seq<u8>, ci: bool, v: Seq<u8>)
    requires
        simple(b),
    ensures
        pattern_hits(
            chars(b),
            ci,
            if ci {
                lowered(v)
            } else {
                v
            },
        ) == is_hit(b, ci, v),
{
    let w = if ci {
        lowered(v)
    } else {
        v
    };
    let f = if ci {
        lowered(b)
    } else {
        b
    };
    lemma_lowered_chars(b);
    lemma_ascii(f);
    assert(folded(chars(b), ci) == chars(f));
    assert(b.len() > 0 ==> chars(b)[0] != '~') by {
        if b.len() > 0 {
            assert(chars(b)[0] == b[0] as char);
            assert(b[0] < 128);
        }
    }
    assert forall|i: int| 0 <= i < b.len() implies (#[trigger] f[i] == 42) == (b[i] == 42) by {}
    if b.contains(42) {
        let i = choose|i: int| 0 <= i < b.len() && b[i] == 42;
        let x = f.subrange(0, i);
        let y = f.subrange(i + 1, f.len() as int);
        let parts = seq![x, y];
        assert forall|k: int| 0 <= k < x.len() implies x[k] != 42 by {
            assert(f[k] == x[k]);
        }
        assert forall|k: int| 0 <= k < y.len() implies y[k] != 42 by {
            assert(f[i + 1 + k] == y[k]);
        }
        assert(parts.drop_last() =~= seq![x]);
        assert(apart(parts.drop_last(), 42) =~= x);
        assert(apart(parts, 42) =~= f);
        lemma_pieces_of_parts(parts, 42);
        assert(regex_source(chars(b), ci) is None);
        let bx = b.subrange(0, i);
        let by = b.subrange(i + 1, b.len() as int);
        if v.len() >= b.len() - 1 {
            let n = by.len() as int;
            let vx = v.subrange(0, i);
            let vy = v.subrange(v.len() - n, v.len() as int);
            lemma_alike(vx, bx);
            lemma_alike(vy, by);
            if ci {
                assert(lowered(vx) =~= w.subrange(0, i));
                assert(lowered(vy) =~= w.subrange(w.len() - n, w.len() as int));
                assert(lowered(bx) =~= x);
                assert(lowered(by) =~= y);
            }
            assert((has_prefix(w, x) && has_suffix(w, y)) == (same(vx, bx, ci) && same(
                vy,
                by,
                ci,
            )));
        }
        assert(b[i] == 42);
        assert forall|k: int| 0 <= k < b.len() && #[trigger] b[k] == 42 implies k == i by {}
    } else {
        assert forall|k: int| 0 <= k < f.len() implies f[k] != 42 by {
            assert(b[k] != 42);
        }
        let parts = seq![f];
        lemma_pieces_of_parts(parts, 42);
        assert(regex_source(chars(b), ci) is None);
        lemma_alike(v, b);
    }
}

proof fn lemma_mark(e: Seq<u8>)
    requires
        is_ascii(e),
    ensures
        negated(chars(e)) == excludes(e),
        entry_body(chars(e)) == chars(unmarked(e)),
{
    if e.len() > 0 {
        assert(chars(e)[0] == e[0] as char);
        assert(e[0] < 128);
    }
    if excludes(e) {
        assert(chars(e).subrange(1, e.len() as int) =~= chars(unmarked(e)));
    }
}

/// A value passes a list of simple patterns where none of the exclusions hits it,
/// and one of the others does if there are any. A pattern hits the value that it
/// spells; a star stands for anything. Where the case of letters does not count, it
/// counts neither in the pattern nor in the value.
#[verifier::spinoff_prover]
#[verifier::rlimit(50)]
pub proof fn a_list_lets_through_what_its_patterns_spell(
    patterns: &[&str],
    ci: bool,
    spelled: Seq<Seq<u8>>,
    compiled: Result<PatternSet, MatchError>,
    value: &[u8],
    r: bool,
)
    requires
        call_ensures(PatternSet::compile, (patterns, ci), compiled),
        compiled matches Ok(set) && call_ensures(PatternSet::matches, (&set, value, ci), r),
        spelled.len() == patterns@.len(),
        forall|i: int|
            0 <= i < spelled.len() ==> is_ascii(#[trigger] spelled[i]) && simple(
                unmarked(spelled[i]),
            ) && patterns@[i]@ == chars(spelled[i]),
    ensures
        r == {
            &&& forall|i: int|
                0 <= i < spelled.len() && excludes(#[trigger] spelled[i]) ==> !is_hit(
                    unmarked(spelled[i]),
                    ci,
                    value@,
                )
            &&& (forall|i: int| 0 <= i < spelled.len() ==> excludes(#[trigger] spelled[i]))
                || exists|i: int|
                0 <= i < spelled.len() && !excludes(#[trigger] spelled[i]) && is_hit(
                    spelled[i],
                    ci,
                    value@,
                )
        },
{
    let raws = strs(patterns@);
    let w = if ci {
        lowered(value@)
    } else {
        value@
    };
    let set = compiled->Ok_0;
    assert(r == set.hits(w));
    assert(set.hits(w) == set_hits(raws, ci, w));
    assert forall|i: int| 0 <= i < raws.len() implies {
        &&& negated(#[trigger] raws[i]) == excludes(spelled[i])
        &&& pattern_hits(entry_body(raws[i]), ci, w) == is_hit(unmarked(spelled[i]), ci, value@)
    } by {
        assert(raws[i] == chars(spelled[i]));
        lemma_mark(spelled[i]);
        lemma_simple(unmarked(spelled[i]), ci, value@);
    }
    if r {
        assert forall|i: int| 0 <= i < spelled.len() && excludes(
            #[trigger] spelled[i],
        ) implies !is_hit(unmarked(spelled[i]), ci, value@) by {
            assert(negated(raws[i]));
        }
        if exists|i: int| 0 <= i < spelled.len() && !excludes(#[trigger] spelled[i]) {
            let k = choose|k: int| 0 <= k < spelled.len() && !excludes(#[trigger] spelled[k]);
            assert(!negated(raws[k]));
            let i = choose|i: int|
                0 <= i < raws.len() && !negated(#[trigger] raws[i]) && pattern_hits(
                    entry_body(raws[i]),
                    ci,
                    w,
                );
            assert(!excludes(spelled[i]) && is_hit(spelled[i], ci, value@));
        }
    } else {
        if exists|i: int|
            0 <= i < raws.len() && negated(#[trigger] raws[i]) && pattern_hits(
                entry_body(raws[i]),
                ci,
                w,
            ) {
            let i = choose|i: int|
                0 <= i < raws.len() && negated(#[trigger] raws[i]) && pattern_hits(
                    entry_body(raws[i]),
                    ci,
                    w,
                );
            assert(excludes(spelled[i]) && is_hit(unmarked(spelled[i]), ci, value@));
        } else {
            let k = choose|k: int| 0 <= k < raws.len() && !negated(#[trigger] raws[k]);
            assert(!excludes(spelled[k]));
            assert forall|i: int| 0 <= i < spelled.len() && !excludes(
                #[trigger] spelled[i],
            ) implies !is_hit(spelled[i], ci, value@) by {
                assert(!negated(raws[i]));
            }
        }
    }
}

/// A hexadecimal digit, in capitals or in small letters.
pub open spec fn digit(n: int, capitals: bool) -> u8 {
    if n < 10 {
        (48 + n) as u8
    } else if capitals {
        (55 + n) as u8
    } else {
        (87 + n) as u8
    }
}

/// A byte as an escape.
pub open spec fn escape(b: u8, capitals: bool) -> Seq<u8> {
    seq![37u8, digit(b as int / 16, capitals), digit(b as int % 16, capitals)]
}

/// An escape stands for its byte, whatever follows, and any other byte for itself.
pub proof fn an_escape_stands_for_its_byte(b: u8, capitals: bool, rest: Seq<u8>)
    ensures
        decoded(escape(b, capitals) + rest) == seq![b] + decoded(rest),
        b != 37 ==> decoded(seq![b] + rest) == seq![b] + decoded(rest),
        decoded(seq![]) == Seq::<u8>::empty(),
{
    let s = escape(b, capitals) + rest;
    assert(s[0] == 37);
    let (hi, lo) = (b as int / 16, b as int % 16);
    assert(s[1] == digit(hi, capitals) && s[2] == digit(lo, capitals));
    assert(hex_value(s[1]) == Some(hi as u8));
    assert(hex_value(s[2]) == Some(lo as u8));
    assert(s.subrange(3, s.len() as int) =~= rest);
    assert(hi * 16 + lo == b);
    let t = seq![b] + rest;
    assert(t.subrange(1, t.len() as int) =~= rest);
}

/// Reading escapes reads each where it stands, in paths and in queries; in a query
/// a plus sign stands for a space.
pub proof fn texts_are_decoded_piece_by_piece(
    input: &[u8],
    path: Vec<u8>,
    value: Vec<u8>,
    a: u8,
    rest: Seq<u8>,
)
    requires
        call_ensures(percent_decode, (input,), path),
        call_ensures(decode_component, (input,), value),
    ensures
        path@ == decoded(input@),
        input@.len() == 0 ==> value@.len() == 0,
        input@ == seq![43u8] + rest ==> value@ == seq![32u8] + component(rest),
        input@ == escape(a, true) + rest ==> value@ == seq![a] + component(rest),
        a != 37 && a != 43 && input@ == seq![a] + rest ==> value@ == seq![a] + component(rest),
{
    an_escape_stands_for_its_byte(a, true, spaced(rest));
    an_escape_stands_for_its_byte(32, true, spaced(rest));
    if input@.len() == 0 {
        assert(spaced(input@) =~= seq![]);
    }
    if input@ == seq![43u8] + rest {
        assert(spaced(input@) =~= seq![32u8] + spaced(rest));
    }
    if input@ == escape(a, true) + rest {
        assert(spaced(input@) =~= escape(a, true) + spaced(rest));
    }
    if a != 37 && a != 43 && input@ == seq![a] + rest {
        assert(spaced(input@) =~= seq![a] + spaced(rest));
    }
}

/// The arguments of a query are its parts between ampersands, in their order: each
/// a name and a value behind the first equals sign.
pub proof fn a_query_holds_its_arguments(
    query: &[u8],
    given: Seq<(Seq<u8>, Seq<u8>)>,
    r: Vec<(Vec<u8>, Vec<u8>)>,
)
    requires
        call_ensures(parse_args, (query,), r),
        given.len() > 0,
        forall|i: int|
            0 <= i < given.len() ==> !(#[trigger] given[i]).0.contains(61) && !given[i].0.contains(
                38,
            ) && !given[i].1.contains(38),
        query@ == apart(spelled_out(given), 38),
    ensures
        r@.len() == given.len(),
        forall|i: int|
            0 <= i < given.len() ==> (#[trigger] r@[i]).0@ == component(given[i].0) && r@[i].1@
                == component(given[i].1),
{
    let parts = spelled_out(given);
    assert forall|i: int| 0 <= i < parts.len() implies !(#[trigger] parts[i]).contains(38) by {
        let g = given[i];
        let p = parts[i];
        assert forall|k: int| 0 <= k < p.len() implies p[k] != 38 by {
            if k < g.0.len() {
                assert(g.0[k] == p[k]);
            } else if k > g.0.len() {
                assert(g.1[k - g.0.len() - 1] == p[k]);
            }
        }
    }
    lemma_pieces_of_parts(parts, 38);
    lemma_args(given);
    let ps = pairs(r@);
    assert(ps.len() == given.len());
    assert forall|i: int| 0 <= i < given.len() implies (#[trigger] r@[i]).0@ == component(
        given[i].0,
    ) && r@[i].1@ == component(given[i].1) by {
        assert(ps[i] == (r@[i].0@, r@[i].1@));
    }
}

/// Arguments as a query spells them.
pub open spec fn spelled_out(given: Seq<(Seq<u8>, Seq<u8>)>) -> Seq<Seq<u8>> {
    given.map_values(|g: (Seq<u8>, Seq<u8>)| g.0.push(61) + g.1)
}

proof fn lemma_args(given: Seq<(Seq<u8>, Seq<u8>)>)
    requires
        forall|i: int| 0 <= i < given.len() ==> !(#[trigger] given[i]).0.contains(61),
    ensures
        args_of(spelled_out(given)).len() == given.len(),
        forall|i: int|
            0 <= i < given.len() ==> args_of(spelled_out(given))[i] == (
                component((#[trigger] given[i]).0),
                component(given[i].1),
            ),
    decreases given.len(),
{
    if given.len() > 0 {
        let init = given.drop_last();
        let g = given.last();
        let parts = spelled_out(given);
        assert(given[given.len() - 1] == g);
        assert forall|i: int| 0 <= i < init.len() implies !(#[trigger] init[i]).0.contains(61) by {
            assert(init[i] == given[i]);
        }
        lemma_args(init);
        assert(parts.drop_last() =~= spelled_out(init));
        let p = g.0.push(61) + g.1;
        assert(parts.last() == p);
        let n = g.0.len() as int;
        assert forall|j: int| 0 <= j < n implies p[j] != 61 by {
            assert(g.0[j] == p[j]);
        }
        assert(first_at(p, 61, n));
        lemma_find(p, 61, n);
        assert(p.subrange(0, n) =~= g.0);
        assert(p.subrange(n + 1, p.len() as int) =~= g.1);
        assert forall|i: int| 0 <= i < given.len() implies args_of(parts)[i] == (
            component((#[trigger] given[i]).0),
            component(given[i].1),
        ) by {
            if i < init.len() {
                assert(init[i] == given[i]);
            }
        }
    }
}

proof fn lemma_resolved_joins(a: Seq<Seq<u8>>, b: Seq<Seq<u8>>, c: Seq<Seq<u8>>)
    requires
        resolved(a) == resolved(b),
    ensures
        resolved(a + c) == resolved(b + c),
    decreases c.len(),
{
    if c.len() == 0 {
        assert(a + c =~= a);
        assert(b + c =~= b);
    } else {
        lemma_resolved_joins(a, b, c.drop_last());
        assert((a + c).drop_last() =~= a + c.drop_last());
        assert((b + c).drop_last() =~= b + c.drop_last());
    }
}

/// Segments that hold no slash.
pub open spec fn segments(s: Seq<Seq<u8>>) -> bool {
    forall|i: int| 0 <= i < s.len() ==> !(#[trigger] s[i]).contains(47)
}

/// In a path an empty segment and a dot stand for nothing, and two dots undo the
/// segment before them.
#[verifier::spinoff_prover]
#[verifier::rlimit(50)]
pub proof fn dots_are_resolved(a: Seq<Seq<u8>>, b: Seq<u8>, c: Seq<Seq<u8>>)
    requires
        segments(a),
        segments(c),
        a.len() > 0,
        c.len() > 0,
        proper(b),
    ensures
        ({
            let plain = resolved_path(apart(a + c, 47));
            &&& resolved_path(apart(a + seq![seq![]] + c, 47)) == plain
            &&& resolved_path(apart(a + seq![seq![46u8]] + c, 47)) == plain
            &&& resolved_path(apart(a + seq![b, seq![46u8, 46u8]] + c, 47)) == plain
        }),
{
    let none: Seq<u8> = seq![];
    let dot = seq![46u8];
    let dots = seq![46u8, 46u8];
    lemma_same_resolution(a, seq![none], c);
    lemma_same_resolution(a, seq![dot], c);
    assert((a + seq![none]).drop_last() =~= a);
    assert((a + seq![dot]).drop_last() =~= a);
    let two = seq![b, dots];
    assert((a + two).drop_last() =~= a.push(b));
    assert(a.push(b).drop_last() =~= a);
    assert(resolved(a.push(b)) == resolved(a).push(b));
    assert(resolved(a).push(b).drop_last() =~= resolved(a));
    assert(!dots.contains(47) && !dot.contains(47) && !none.contains(47));
    lemma_same_resolution(a, two, c);
}

proof fn lemma_same_resolution(a: Seq<Seq<u8>>, x: Seq<Seq<u8>>, c: Seq<Seq<u8>>)
    requires
        segments(a),
        segments(c),
        a.len() > 0,
        c.len() > 0,
    ensures
        segments(x) && resolved(a + x) == resolved(a) ==> resolved_path(apart(a + x + c, 47))
            == resolved_path(apart(a + c, 47)),
{
    if segments(x) && resolved(a + x) == resolved(a) {
        lemma_resolved_joins(a + x, a, c);
        lemma_pieces_of_parts(a + x + c, 47);
        lemma_pieces_of_parts(a + c, 47);
        lemma_last_of_parts(a + x, c);
        lemma_last_of_parts(a, c);
    }
}

proof fn lemma_last_of_parts(a: Seq<Seq<u8>>, c: Seq<Seq<u8>>)
    requires
        segments(c),
        a.len() > 0,
        c.len() > 0,
    ensures
        ({
            let p = apart(a + c, 47);
            &&& p.len() > 0
            &&& (p.last() == 47) == (c.last().len() == 0)
        }),
{
    let all = a + c;
    assert(all.len() > 1);
    assert(all.last() == c.last());
    let p = apart(all, 47);
    let last = c.last();
    assert(c[c.len() - 1] == last);
    if last.len() > 0 {
        assert(p.last() == last[last.len() - 1]);
        assert(last.contains(last[last.len() - 1]));
    } else {
        assert(p =~= apart(all.drop_last(), 47).push(47));
    }
}

/// A path of proper segments without escapes is its own normal form.
pub proof fn a_plain_path_stays(path: &[u8], s: Seq<Seq<u8>>, r: Vec<u8>)
    requires
        call_ensures(normalize_path, (path,), r),
        s.len() > 0,
        forall|i: int| 0 <= i < s.len() ==> proper(#[trigger] s[i]),
        path@ == joined(s),
        !path@.contains(37),
    ensures
        r@ == path@,
{
    lemma_plain(path@);
    lemma_joined(s);
}

proof fn lemma_plain(s: Seq<u8>)
    requires
        !s.contains(37),
    ensures
        decoded(s) == s,
    decreases s.len(),
{
    if s.len() > 0 {
        assert(s[0] != 37);
        let t = s.subrange(1, s.len() as int);
        assert forall|i: int| 0 <= i < t.len() implies t[i] != 37 by {
            assert(s[i + 1] == t[i]);
        }
        lemma_plain(t);
        assert(seq![s[0]] + t =~= s);
    }
}

proof fn lemma_joined(s: Seq<Seq<u8>>)
    requires
        forall|i: int| 0 <= i < s.len() ==> proper(#[trigger] s[i]),
    ensures
        s.len() > 0 ==> joined(s).len() > 0 && joined(s).last() != 47,
        pieces(joined(s), 47) == seq![Seq::<u8>::empty()] + s,
        resolved(pieces(joined(s), 47)) == s,
    decreases s.len(),
{
    let none = Seq::<u8>::empty();
    let all = seq![none] + s;
    if s.len() == 0 {
        assert(pieces(joined(s), 47) =~= all);
        assert(all.drop_last() =~= seq![]);
        assert(resolved(all.drop_last()) =~= seq![]);
        assert(resolved(all) =~= s);
    } else {
        let init = s.drop_last();
        let last = s.last();
        assert(s[s.len() - 1] == last);
        assert forall|i: int| 0 <= i < init.len() implies proper(#[trigger] init[i]) by {
            assert(init[i] == s[i]);
        }
        lemma_joined(init);
        let front = joined(init).push(47);
        assert(joined(s) =~= front + last);
        assert(front.drop_last() =~= joined(init));
        crate::laws::lines::lemma_pieces_grow(front, last, 47);
        let before = seq![none] + init;
        assert(pieces(front, 47) == before.push(seq![]));
        assert(before.push(seq![]).drop_last() =~= before);
        assert(Seq::<u8>::empty() + last =~= last);
        assert(pieces(joined(s), 47) =~= all);
        assert(all.drop_last() =~= before);
        assert(init.push(last) =~= s);
        assert(last.contains(last[last.len() - 1]));
    }
}

/// A variable of a template, by its name.
pub open spec fn named_value(name: Seq<u8>, v: Values) -> Option<Seq<u8>> {
    if name == text("uri") {
        Some(v.uri)
    } else if name == text("args") || name == text("query") {
        Some(v.args)
    } else if name == text("host") {
        Some(v.host)
    } else if name == text("method") {
        Some(v.method)
    } else if name == text("remote_addr") {
        Some(v.remote_addr)
    } else {
        None
    }
}

/// A variable in braces stands for its value, and what follows for itself. A name
/// that no variable has is an error, and so is a brace that nothing closes.
#[verifier::spinoff_prover]
#[verifier::rlimit(50)]
pub proof fn a_variable_stands_for_its_value(name: Seq<u8>, rest: Seq<u8>, v: Values)
    requires
        !name.contains(125),
    ensures
        ({
            let whole = parts_of(seq![36u8, 123u8] + name + seq![125u8] + rest);
            match named_value(name, v) {
                Some(x) => match parts_of(rest) {
                    Ok(more) => whole matches Ok(parts) && rendered(parts, v) == x + rendered(
                        more,
                        v,
                    ),
                    Err(e) => whole == Err::<Seq<PartModel>, TemplateFault>(e),
                },
                None => whole == Err::<Seq<PartModel>, TemplateFault>(
                    TemplateFault::UnknownVariable(name),
                ),
            }
        }),
        parts_of(seq![36u8, 123u8] + name) == Err::<Seq<PartModel>, TemplateFault>(
            TemplateFault::Unterminated,
        ),
{
    let s = seq![36u8, 123u8] + name + seq![125u8] + rest;
    assert(first_at(s, 36, 0));
    lemma_find(s, 36, 0);
    let tail = s.subrange(1, s.len() as int);
    let inner = tail.subrange(1, tail.len() as int);
    let n = name.len() as int;
    assert(inner =~= name + seq![125u8] + rest);
    assert forall|j: int| 0 <= j < n implies inner[j] != 125 by {
        assert(name[j] == inner[j]);
    }
    assert(first_at(inner, 125, n));
    lemma_find(inner, 125, n);
    assert(inner.subrange(0, n) =~= name);
    assert(inner.subrange(n + 1, inner.len() as int) =~= rest);
    assert(s.subrange(0, 0) =~= seq![]);
    if let Some(var) = var_named(name) {
        if let Ok(more) = parts_of(rest) {
            let none = Seq::<PartModel>::empty();
            assert(none + seq![PartModel::Var(var)] + more =~= seq![PartModel::Var(var)] + more);
            lemma_rendered(PartModel::Var(var), more, v);
        }
    }
    let t = seq![36u8, 123u8] + name;
    assert(first_at(t, 36, 0));
    lemma_find(t, 36, 0);
    let u = t.subrange(1, t.len() as int);
    assert(u.subrange(1, u.len() as int) =~= name);
    lemma_find_none(name, 125);
}

proof fn lemma_rendered(first: PartModel, more: Seq<PartModel>, v: Values)
    ensures
        rendered(seq![first] + more, v) == filled(first, v) + rendered(more, v),
    decreases more.len(),
{
    let all = seq![first] + more;
    if more.len() == 0 {
        assert(all.drop_last() =~= seq![]);
        assert(rendered(all.drop_last(), v) =~= seq![]);
        assert(rendered(all, v) =~= filled(first, v) + rendered(more, v));
    } else {
        lemma_rendered(first, more.drop_last(), v);
        assert(all.drop_last() =~= seq![first] + more.drop_last());
        assert(rendered(all, v) =~= filled(first, v) + rendered(more, v));
    }
}

/// A variable without braces is as long as its name can be, and the same as in
/// braces.
#[verifier::spinoff_prover]
#[verifier::rlimit(50)]
pub proof fn braces_only_end_a_name(name: Seq<u8>, rest: Seq<u8>)
    requires
        forall|i: int| 0 <= i < name.len() ==> is_name_byte(#[trigger] name[i]),
        rest.len() > 0 ==> !is_name_byte(rest[0]) && (name.len() == 0 ==> rest[0] != 123),
    ensures
        parts_of(seq![36u8] + name + rest) == parts_of(
            seq![36u8, 123u8] + name + seq![125u8] + rest,
        ),
{
    let s = seq![36u8] + name + rest;
    assert(first_at(s, 36, 0));
    lemma_find(s, 36, 0);
    let tail = s.subrange(1, s.len() as int);
    let n = name.len() as int;
    assert(tail =~= name + rest);
    lemma_name(name, rest);
    assert(tail.subrange(0, n) =~= name);
    assert(tail.subrange(n, tail.len() as int) =~= rest);
    if n > 0 {
        assert(is_name_byte(name[0]));
    }
    let t = seq![36u8, 123u8] + name + seq![125u8] + rest;
    assert(first_at(t, 36, 0));
    lemma_find(t, 36, 0);
    let u = t.subrange(1, t.len() as int);
    let inner = u.subrange(1, u.len() as int);
    assert(inner =~= name + seq![125u8] + rest);
    assert forall|j: int| 0 <= j < n implies inner[j] != 125 by {
        assert(is_name_byte(name[j]));
    }
    assert(first_at(inner, 125, n));
    lemma_find(inner, 125, n);
    assert(inner.subrange(0, n) =~= name);
    assert(inner.subrange(n + 1, inner.len() as int) =~= rest);
    assert(s.subrange(0, 0) =~= t.subrange(0, 0));
}

proof fn lemma_name(name: Seq<u8>, rest: Seq<u8>)
    requires
        forall|i: int| 0 <= i < name.len() ==> is_name_byte(#[trigger] name[i]),
        ends_a_name(rest),
    ensures
        name_len(name + rest) == name.len(),
    decreases name.len(),
{
    let s = name + rest;
    if name.len() > 0 {
        assert(is_name_byte(name[0]));
        let t = name.subrange(1, name.len() as int);
        assert forall|i: int| 0 <= i < t.len() implies is_name_byte(#[trigger] t[i]) by {
            assert(is_name_byte(name[i + 1]));
        }
        lemma_name(t, rest);
        assert(s.subrange(1, s.len() as int) =~= t + rest);
    } else {
        assert(s =~= rest);
    }
}

/// A template that was compiled renders as its text says, with the values of the
/// request at hand.
pub proof fn a_template_renders_its_text(
    input: &str,
    t: &Template,
    vars: &Vars<'_>,
    r: Vec<u8>,
)
    requires
        call_ensures(Template::compile, (input,), Ok::<Template, TemplateError>(*t)),
        call_ensures(Template::render, (t, vars), r),
    ensures
        parts_of(text(input)) matches Ok(parts) && r@ == rendered(
            parts,
            (Values {
                uri: vars.uri@,
                args: vars.args@,
                host: vars.host@,
                method: vars.method@,
                remote_addr: text(vars.remote_addr),
            }),
        ),
{
}

} // verus!
