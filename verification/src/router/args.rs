//! Query parameters, and the lookup of a value by its name.

use vstd::prelude::*;

use crate::bytes::{cut, eq, find_byte, pieces, split, views};
use crate::router::uri::{decoded, percent_decode};

verus! {

/// A plus sign stands for a space.
pub open spec fn spaced(s: Seq<u8>) -> Seq<u8> {
    Seq::new(
        s.len(),
        |i: int|
            if s[i] == 43 {
                32u8
            } else {
                s[i]
            },
    )
}

/// A form-encoded name or value.
pub open spec fn component(s: Seq<u8>) -> Seq<u8> {
    decoded(spaced(s))
}

/// Name and value of one parameter; one without `=` has the empty value.
pub open spec fn arg(part: Seq<u8>) -> (Seq<u8>, Seq<u8>) {
    match cut(part, 61) {
        Some((name, value)) => (component(name), component(value)),
        None => (component(part), component(seq![])),
    }
}

/// The parameters of the parts that are not empty, in order.
pub open spec fn args_of(parts: Seq<Seq<u8>>) -> Seq<(Seq<u8>, Seq<u8>)>
    decreases parts.len(),
{
    if parts.len() == 0 {
        seq![]
    } else if parts.last().len() == 0 {
        args_of(parts.drop_last())
    } else {
        args_of(parts.drop_last()).push(arg(parts.last()))
    }
}

/// The parameters of a query string.
pub open spec fn args(query: Seq<u8>) -> Seq<(Seq<u8>, Seq<u8>)> {
    args_of(pieces(query, 38))
}

/// The contents of name and value pairs.
pub open spec fn pairs(v: Seq<(Vec<u8>, Vec<u8>)>) -> Seq<(Seq<u8>, Seq<u8>)> {
    v.map_values(|p: (Vec<u8>, Vec<u8>)| (p.0@, p.1@))
}

/// The value of the first pair from `i` on with the given name.
pub open spec fn named_from(
    ps: Seq<(Seq<u8>, Seq<u8>)>,
    name: Seq<u8>,
    i: int,
) -> Option<Seq<u8>>
    decreases ps.len() - i,
{
    if i < 0 || i >= ps.len() {
        None
    } else if ps[i].0 == name {
        Some(ps[i].1)
    } else {
        named_from(ps, name, i + 1)
    }
}

/// The value of the first pair with the given name.
pub open spec fn named(ps: Seq<(Seq<u8>, Seq<u8>)>, name: Seq<u8>) -> Option<Seq<u8>> {
    named_from(ps, name, 0)
}

/// The same, with the empty value where there is no such pair.
pub open spec fn value_of(ps: Seq<(Seq<u8>, Seq<u8>)>, name: Seq<u8>) -> Seq<u8> {
    match named(ps, name) {
        Some(v) => v,
        None => seq![],
    }
}

/// The value of the first pair with the given name.
pub fn lookup<'a>(v: &'a [(Vec<u8>, Vec<u8>)], name: &[u8]) -> (r: Option<&'a [u8]>)
    ensures
        match r {
            Some(x) => named(pairs(v@), name@) == Some(x@),
            None => named(pairs(v@), name@) is None,
        },
{
    let ghost ps = pairs(v@);
    let mut i: usize = 0;
    while i < v.len()
        invariant
            i <= v@.len(),
            ps == pairs(v@),
            named(ps, name@) == named_from(ps, name@, i as int),
        decreases v@.len() - i,
    {
        assert(ps[i as int] == (v@[i as int].0@, v@[i as int].1@));
        if eq(v[i].0.as_slice(), name) {
            return Some(v[i].1.as_slice());
        }
        i += 1;
    }
    None
}

pub fn decode_component(input: &[u8]) -> (r: Vec<u8>)
    ensures
        r@ == component(input@),
{
    let mut plus: Vec<u8> = Vec::new();
    let mut i: usize = 0;
    while i < input.len()
        invariant
            i <= input@.len(),
            plus@.len() == i,
            forall|j: int| 0 <= j < i ==> plus@[j] == spaced(input@)[j],
        decreases input@.len() - i,
    {
        if input[i] == 43 {
            plus.push(32);
        } else {
            plus.push(input[i]);
        }
        i += 1;
    }
    assert(plus@ =~= spaced(input@));
    percent_decode(plus.as_slice())
}

/// Decode `a=1&b=%20` into pairs; `+` becomes a space.
pub fn parse_args(query: &[u8]) -> (r: Vec<(Vec<u8>, Vec<u8>)>)
    ensures
        pairs(r@) == args(query@),
{
    let parts = split(query, 38);
    let ghost all = views(parts@);
    let mut out: Vec<(Vec<u8>, Vec<u8>)> = Vec::new();
    let mut i: usize = 0;
    assert(pairs(out@) =~= args_of(all.take(0)));
    while i < parts.len()
        invariant
            i <= parts@.len(),
            all == views(parts@),
            pairs(out@) == args_of(all.take(i as int)),
        decreases parts@.len() - i,
    {
        let part = parts[i].as_slice();
        let ghost was = pairs(out@);
        proof {
            assert(all.take(i + 1).drop_last() =~= all.take(i as int));
            assert(all.take(i + 1).last() == part@);
        }
        if part.len() > 0 {
            let pair = match find_byte(61, part) {
                Some(p) => (
                    decode_component(&part[0..p]),
                    decode_component(&part[p + 1..part.len()]),
                ),
                None => (decode_component(part), decode_component(&part[0..0])),
            };
            assert(part@.subrange(0, 0) =~= Seq::<u8>::empty());
            out.push(pair);
            assert(pairs(out@) =~= was.push((pair.0@, pair.1@)));
        }
        i += 1;
    }
    assert(all.take(i as int) =~= all);
    out
}

} // verus!
