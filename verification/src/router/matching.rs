//! Pattern matching for route `match` blocks: exact, `*` wildcard, `!`
//! negation, `~` regular expression. A list is an OR-set: a value matches if
//! it hits any positive pattern and no negative one; a list of only negative
//! patterns matches unless one hits.

use regex::bytes::Regex;
use vstd::prelude::*;
use vstd::string::*;
use vstd::utf8::*;

use crate::bytes::{
    cut, ends_with, eq, find_byte, has_prefix, has_suffix, lowered, number, parse_number, pieces,
    split, starts_with, text, to_lower, to_vec,
};
use crate::router::addr::{address, parse_addr, Addr};

verus! {

/// A compiled regular expression of the `regex` crate.
#[verifier::external_type_specification]
#[verifier::external_body]
pub struct ExRegex(regex::bytes::Regex);

/// Why the `regex` crate refused a pattern.
#[verifier::external_type_specification]
#[verifier::external_body]
pub struct ExRegexError(regex::Error);

/// Limit, in bytes, of a compiled program and of its cache.
pub const REGEX_LIMIT: usize = 1048576;

/// What the `regex` crate compiles a pattern to within a size limit, `None`
/// where it refuses the pattern.
pub uninterp spec fn regex_of(pattern: Seq<char>, limit: nat) -> Option<Regex>;

/// Whether a compiled regular expression matches somewhere in a value.
pub uninterp spec fn regex_hits(re: Regex, value: Seq<u8>) -> bool;

/// Calls `build` of the `regex` crate's byte-oriented builder with one limit
/// for the compiled program and for its cache: a function of the pattern and
/// the limit.
#[verifier::external_body]
fn build_bounded_regex(pattern: &str, limit: usize) -> (r: Result<Regex, regex::Error>)
    ensures
        match r {
            Ok(re) => regex_of(pattern@, limit as nat) == Some(re),
            Err(_) => regex_of(pattern@, limit as nat) is None,
        },
{
    regex::bytes::RegexBuilder::new(pattern).size_limit(limit).dfa_size_limit(limit).build()
}

/// Calls `Regex::is_match` of the `regex` crate: a function of the compiled
/// expression and the bytes alone.
#[verifier::external_body]
fn regex_is_match(re: &Regex, value: &[u8]) -> (r: bool)
    ensures
        r == regex_hits(*re, value@),
{
    re.is_match(value)
}

/// Characters that mean something in a regular expression.
pub open spec fn is_meta(c: char) -> bool {
    c == '\\' || c == '.' || c == '+' || c == '*' || c == '?' || c == '(' || c == ')' || c == '|'
        || c == '[' || c == ']' || c == '{' || c == '}' || c == '^' || c == '$' || c == '#' || c
        == '&' || c == '-' || c == '~'
}

/// A text with a backslash before every character of special meaning.
pub open spec fn regex_escaped(s: Seq<char>) -> Seq<char>
    decreases s.len(),
{
    if s.len() == 0 {
        seq![]
    } else if is_meta(s.last()) {
        regex_escaped(s.drop_last()).push('\\').push(s.last())
    } else {
        regex_escaped(s.drop_last()).push(s.last())
    }
}

/// Calls `regex::escape`: every character of special meaning gets a backslash
/// before it, nothing else changes.
#[verifier::external_body]
fn regex_escape(s: &str) -> (r: String)
    ensures
        r@ == regex_escaped(s@),
{
    regex::escape(s)
}

/// ASCII lower case of a text.
pub open spec fn lowered_chars(s: Seq<char>) -> Seq<char> {
    s.map_values(
        |c: char|
            if 'A' <= c && c <= 'Z' {
                (c as u32 + 32) as char
            } else {
                c
            },
    )
}

/// A text with the ASCII letters `A` to `Z` as `a` to `z`.
pub(crate) fn lower_str(s: &str) -> (r: String)
    ensures
        r@ == lowered_chars(s@),
{
    let mut out = String::new();
    assert(out@ =~= lowered_chars(s@.take(0)));
    for c in it: s.chars()
        invariant
            it.seq() == s@,
            out@ == lowered_chars(s@.take(it.index() as int)),
    {
        let low: char = if 'A' <= c && c <= 'Z' {
            (c as u8 + 32) as char
        } else {
            c
        };
        proof {
            let k = it.index() as int;
            assert(lowered_chars(s@.take(k + 1)) =~= lowered_chars(s@.take(k)).push(low));
        }
        out.push(low);
    }
    assert(s@.take(s@.len() as int) =~= s@);
    out
}

/// An entry of a list that cannot be compiled, by its place in the list.
#[derive(Debug, Clone, Copy, PartialEq, Eq, Structural)]
pub enum MatchError {
    BadRegex(usize),
    BadAddress(usize),
    BadPrefix(usize),
    PrefixOutOfRange(usize),
}

/// The contents of a list of texts.
pub open spec fn strs(v: Seq<&str>) -> Seq<Seq<char>> {
    v.map_values(|x: &str| x@)
}

pub open spec fn negated(raw: Seq<char>) -> bool {
    raw.len() > 0 && raw[0] == '!'
}

/// An entry without its negation mark.
pub open spec fn entry_body(raw: Seq<char>) -> Seq<char> {
    if negated(raw) {
        raw.subrange(1, raw.len() as int)
    } else {
        raw
    }
}

/// A wildcard pattern as the inside of a regular expression: a star becomes
/// `.*`, everything else stands for itself.
pub open spec fn wildcard_regex(s: Seq<char>) -> Seq<char>
    decreases s.len(),
{
    if s.len() == 0 {
        seq![]
    } else if s.last() == '*' {
        wildcard_regex(s.drop_last()) + ".*"@
    } else {
        wildcard_regex(s.drop_last()) + regex_escaped(seq![s.last()])
    }
}

pub open spec fn folded(body: Seq<char>, ci: bool) -> Seq<char> {
    if ci {
        lowered_chars(body)
    } else {
        body
    }
}

/// The regular expression that a pattern needs, if it needs one: those that
/// begin with `~` and those with two stars or more.
pub open spec fn regex_source(body: Seq<char>, ci: bool) -> Option<Seq<char>> {
    if body.len() > 0 && body[0] == '~' {
        let tail = body.subrange(1, body.len() as int);
        Some(
            if ci {
                "(?i)"@ + tail
            } else {
                tail
            },
        )
    } else {
        let t = folded(body, ci);
        if pieces(encode_utf8(t), 42).len() > 2 {
            Some("^"@ + wildcard_regex(t) + "$"@)
        } else {
            None
        }
    }
}

pub open spec fn compiles(body: Seq<char>, ci: bool) -> bool {
    regex_source(body, ci) matches Some(src) ==> regex_of(src, REGEX_LIMIT as nat) is Some
}

/// Whether a pattern hits a value: by its regular expression; without a star
/// by equality; with one star by what stands before and behind it, which do
/// not overlap.
pub open spec fn pattern_hits(body: Seq<char>, ci: bool, value: Seq<u8>) -> bool {
    match regex_source(body, ci) {
        Some(src) => regex_hits(regex_of(src, REGEX_LIMIT as nat)->0, value),
        None => {
            let ps = pieces(encode_utf8(folded(body, ci)), 42);
            if ps.len() == 1 {
                value == ps[0]
            } else {
                &&& value.len() >= ps[0].len() + ps[1].len()
                &&& has_prefix(value, ps[0])
                &&& has_suffix(value, ps[1])
            }
        },
    }
}

/// Whether a list of patterns hits a value: some positive one does, or there
/// is none, and no negative one does.
pub open spec fn set_hits(raws: Seq<Seq<char>>, ci: bool, value: Seq<u8>) -> bool {
    &&& !exists|i: int|
        0 <= i < raws.len() && negated(#[trigger] raws[i]) && pattern_hits(
            entry_body(raws[i]),
            ci,
            value,
        )
    &&& (forall|i: int| 0 <= i < raws.len() ==> negated(#[trigger] raws[i])) || exists|i: int|
        0 <= i < raws.len() && !negated(#[trigger] raws[i]) && pattern_hits(
            entry_body(raws[i]),
            ci,
            value,
        )
}

enum Pattern {
    Exact(Vec<u8>),
    /// What stands before a single star and what stands behind it.
    Around(Vec<u8>, Vec<u8>),
    Regex(Regex),
}

impl Pattern {
    spec fn hits(self, value: Seq<u8>) -> bool {
        match self {
            Pattern::Exact(p) => value == p@,
            Pattern::Around(p, s) => value.len() >= p@.len() + s@.len() && has_prefix(value, p@)
                && has_suffix(value, s@),
            Pattern::Regex(re) => regex_hits(re, value),
        }
    }

    fn compile(body: &str, case_insensitive: bool) -> (r: Result<Self, regex::Error>)
        ensures
            r is Ok <==> compiles(body@, case_insensitive),
            r matches Ok(p) ==> forall|v: Seq<u8>|
                #[trigger] p.hits(v) == pattern_hits(body@, case_insensitive, v),
    {
        if !body.is_empty() && body.get_char(0) == '~' {
            let tail = body.substring_char(1, body.unicode_len());
            let mut src = String::new();
            if case_insensitive {
                src.append("(?i)");
            }
            src.append(tail);
            assert(case_insensitive ==> src@ =~= "(?i)"@ + tail@);
            assert(!case_insensitive ==> src@ =~= tail@);
            return match build_bounded_regex(src.as_str(), REGEX_LIMIT) {
                Ok(re) => Ok(Pattern::Regex(re)),
                Err(e) => Err(e),
            };
        }
        let t: String = if case_insensitive {
            lower_str(body)
        } else {
            body.to_owned()
        };
        let mut ps = split(t.as_str().as_bytes(), 42);
        let ghost all = pieces(encode_utf8(t@), 42);
        if ps.len() > 2 {
            let inner = wildcard_source(t.as_str());
            let mut src = String::new();
            src.append("^");
            src.append(inner.as_str());
            src.append("$");
            assert(src@ =~= "^"@ + wildcard_regex(t@) + "$"@);
            return match build_bounded_regex(src.as_str(), REGEX_LIMIT) {
                Ok(re) => Ok(Pattern::Regex(re)),
                Err(e) => Err(e),
            };
        }
        assert(all[0] == ps@[0]@);
        if ps.len() == 1 {
            Ok(Pattern::Exact(ps.remove(0)))
        } else {
            assert(all[1] == ps@[1]@);
            let tail = ps.remove(1);
            let head = ps.remove(0);
            Ok(Pattern::Around(head, tail))
        }
    }

    fn matches(&self, value: &[u8]) -> (r: bool)
        ensures
            r == self.hits(value@),
    {
        match self {
            Pattern::Exact(p) => eq(value, p.as_slice()),
            Pattern::Around(p, s) => {
                p.len() <= value.len() && s.len() <= value.len() - p.len() && starts_with(
                    value,
                    p.as_slice(),
                ) && ends_with(value, s.as_slice())
            },
            Pattern::Regex(re) => regex_is_match(re, value),
        }
    }
}

fn wildcard_source(t: &str) -> (r: String)
    ensures
        r@ == wildcard_regex(t@),
{
    let n: usize = t.unicode_len();
    let mut out = String::new();
    let mut i: usize = 0;
    assert(t@.take(0).len() == 0);
    while i < n
        invariant
            i <= n,
            n == t@.len(),
            out@ == wildcard_regex(t@.take(i as int)),
        decreases n - i,
    {
        assert(t@.take(i + 1).drop_last() =~= t@.take(i as int));
        if t.get_char(i) == '*' {
            out.append(".*");
        } else {
            let one = t.substring_char(i, i + 1);
            assert(one@ =~= seq![t@[i as int]]);
            let esc = regex_escape(one);
            out.append(esc.as_str());
        }
        i += 1;
    }
    assert(t@.take(n as int) =~= t@);
    out
}

/// Whether one of the patterns hits.
spec fn any_hits(ps: Seq<Pattern>, v: Seq<u8>) -> bool {
    exists|i: int| 0 <= i < ps.len() && (#[trigger] ps[i]).hits(v)
}

/// Whether one of the entries of the given sign hits.
spec fn any_entry(raws: Seq<Seq<char>>, neg: bool, ci: bool, v: Seq<u8>) -> bool {
    exists|i: int|
        0 <= i < raws.len() && negated(#[trigger] raws[i]) == neg && pattern_hits(
            entry_body(raws[i]),
            ci,
            v,
        )
}

proof fn lemma_any_hits_push(ps: Seq<Pattern>, p: Pattern, v: Seq<u8>)
    ensures
        any_hits(ps.push(p), v) == (any_hits(ps, v) || p.hits(v)),
{
    let up = ps.push(p);
    assert(up[ps.len() as int] == p);
    if any_hits(ps, v) {
        let i = choose|i: int| 0 <= i < ps.len() && (#[trigger] ps[i]).hits(v);
        assert(up[i].hits(v));
    }
    if any_hits(up, v) {
        let i = choose|i: int| 0 <= i < up.len() && (#[trigger] up[i]).hits(v);
        if i < ps.len() {
            assert(ps[i].hits(v));
        }
    }
}

proof fn lemma_any_entry_next(raws: Seq<Seq<char>>, k: int, neg: bool, ci: bool, v: Seq<u8>)
    requires
        0 <= k < raws.len(),
    ensures
        any_entry(raws.take(k + 1), neg, ci, v) == (any_entry(raws.take(k), neg, ci, v) || (negated(
            raws[k],
        ) == neg && pattern_hits(entry_body(raws[k]), ci, v))),
{
    let a = raws.take(k);
    let b = raws.take(k + 1);
    assert(b[k] == raws[k]);
    if any_entry(a, neg, ci, v) {
        let i = choose|i: int|
            0 <= i < a.len() && negated(#[trigger] a[i]) == neg && pattern_hits(
                entry_body(a[i]),
                ci,
                v,
            );
        assert(b[i] == a[i]);
    }
    if any_entry(b, neg, ci, v) {
        let i = choose|i: int|
            0 <= i < b.len() && negated(#[trigger] b[i]) == neg && pattern_hits(
                entry_body(b[i]),
                ci,
                v,
            );
        if i < k {
            assert(a[i] == b[i]);
        }
    }
}

pub struct PatternSet {
    positive: Vec<Pattern>,
    negative: Vec<Pattern>,
}

impl PatternSet {
    /// Whether the set hits a value, taken as it is.
    pub closed spec fn hits(self, value: Seq<u8>) -> bool {
        !any_hits(self.negative@, value) && (self.positive@.len() == 0 || any_hits(
            self.positive@,
            value,
        ))
    }

    pub fn compile(patterns: &[&str], case_insensitive: bool) -> (r: Result<Self, MatchError>)
        ensures
            match r {
                Ok(set) => {
                    &&& forall|i: int|
                        0 <= i < patterns@.len() ==> compiles(
                            entry_body(#[trigger] strs(patterns@)[i]),
                            case_insensitive,
                        )
                    &&& forall|v: Seq<u8>| #[trigger]
                        set.hits(v) == set_hits(strs(patterns@), case_insensitive, v)
                },
                Err(e) => {
                    &&& e matches MatchError::BadRegex(k) && k < patterns@.len() && !compiles(
                        entry_body(strs(patterns@)[k as int]),
                        case_insensitive,
                    ) && forall|i: int|
                        0 <= i < k ==> compiles(
                            entry_body(#[trigger] strs(patterns@)[i]),
                            case_insensitive,
                        )
                },
            },
    {
        let mut positive: Vec<Pattern> = Vec::new();
        let mut negative: Vec<Pattern> = Vec::new();
        let ghost raws = strs(patterns@);
        let ghost ci = case_insensitive;
        let mut k: usize = 0;
        while k < patterns.len()
            invariant
                k <= patterns@.len(),
                raws == strs(patterns@),
                ci == case_insensitive,
                forall|i: int| 0 <= i < k ==> compiles(entry_body(#[trigger] raws[i]), ci),
                forall|v: Seq<u8>| #[trigger]
                    any_hits(positive@, v) == any_entry(raws.take(k as int), false, ci, v),
                forall|v: Seq<u8>| #[trigger]
                    any_hits(negative@, v) == any_entry(raws.take(k as int), true, ci, v),
                positive@.len() == 0 <==> forall|i: int|
                    0 <= i < k ==> negated(#[trigger] raws[i]),
            decreases patterns@.len() - k,
        {
            let raw: &str = patterns[k];
            assert(raws[k as int] == raw@);
            let neg = !raw.is_empty() && raw.get_char(0) == '!';
            let body: &str = if neg {
                raw.substring_char(1, raw.unicode_len())
            } else {
                raw
            };
            assert(body@ == entry_body(raw@));
            let p = match Pattern::compile(body, case_insensitive) {
                Ok(p) => p,
                Err(_) => {
                    return Err(MatchError::BadRegex(k));
                },
            };
            let ghost was_pos = positive@;
            let ghost was_neg = negative@;
            if neg {
                negative.push(p);
            } else {
                positive.push(p);
                assert(!negated(raws[k as int]));
            }
            proof {
                let next = raws.take(k + 1);
                assert forall|v: Seq<u8>| #[trigger]
                    any_hits(positive@, v) == any_entry(next, false, ci, v) by {
                    lemma_any_hits_push(was_pos, p, v);
                    lemma_any_entry_next(raws, k as int, false, ci, v);
                    assert(any_hits(was_pos, v) == any_entry(raws.take(k as int), false, ci, v));
                    assert(p.hits(v) == pattern_hits(entry_body(raws[k as int]), ci, v));
                }
                assert forall|v: Seq<u8>| #[trigger]
                    any_hits(negative@, v) == any_entry(next, true, ci, v) by {
                    lemma_any_hits_push(was_neg, p, v);
                    lemma_any_entry_next(raws, k as int, true, ci, v);
                    assert(any_hits(was_neg, v) == any_entry(raws.take(k as int), true, ci, v));
                    assert(p.hits(v) == pattern_hits(entry_body(raws[k as int]), ci, v));
                }
            }
            k += 1;
        }
        assert(raws.take(k as int) =~= raws);
        let r = PatternSet { positive, negative };
        proof {
            assert forall|v: Seq<u8>| #[trigger] r.hits(v) == set_hits(raws, ci, v) by {
                assert(any_hits(r.positive@, v) == any_entry(raws, false, ci, v));
                assert(any_hits(r.negative@, v) == any_entry(raws, true, ci, v));
            }
        }
        Ok(r)
    }

    /// Whether the set hits a value, brought to lower case first where asked.
    pub fn matches(&self, value: &[u8], case_insensitive: bool) -> (r: bool)
        ensures
            r == self.hits(
                if case_insensitive {
                    lowered(value@)
                } else {
                    value@
                },
            ),
    {
        let v: Vec<u8> = if case_insensitive {
            to_lower(value)
        } else {
            to_vec(value)
        };
        if some_hits(&self.negative, v.as_slice()) {
            return false;
        }
        if self.positive.len() == 0 {
            return true;
        }
        some_hits(&self.positive, v.as_slice())
    }
}

fn some_hits(ps: &Vec<Pattern>, value: &[u8]) -> (r: bool)
    ensures
        r == any_hits(ps@, value@),
{
    let mut i: usize = 0;
    while i < ps.len()
        invariant
            i <= ps@.len(),
            forall|j: int| 0 <= j < i ==> !(#[trigger] ps@[j]).hits(value@),
        decreases ps@.len() - i,
    {
        if ps[i].matches(value) {
            assert(ps@[i as int].hits(value@));
            return true;
        }
        i += 1;
    }
    false
}

/// A block of addresses: those of one family that agree with `net` in the
/// first `prefix` bits.
pub struct Block {
    pub v4: bool,
    pub net: Seq<u8>,
    pub prefix: int,
}

pub enum BlockFault {
    Address,
    Prefix,
    Range,
}

/// The `i`-th bit of an address, counted from the left.
pub open spec fn bit(o: Seq<u8>, i: int) -> u8 {
    (o[i / 8] >> ((7 - i % 8) as u8)) & 1
}

pub open spec fn in_block(b: Block, v4: bool, o: Seq<u8>) -> bool {
    b.v4 == v4 && forall|i: int| 0 <= i < b.prefix ==> #[trigger] bit(b.net, i) == bit(o, i)
}

pub open spec fn negated_entry(raw: Seq<u8>) -> bool {
    raw.len() > 0 && raw[0] == 33
}

/// The block that an entry names: an address with an optional prefix length,
/// behind an optional negation mark.
pub open spec fn block_of(raw: Seq<u8>) -> Result<Block, BlockFault> {
    let body = if negated_entry(raw) {
        raw.subrange(1, raw.len() as int)
    } else {
        raw
    };
    let (host, tail) = match cut(body, 47) {
        Some((a, p)) => (a, Some(p)),
        None => (body, None),
    };
    match address(host) {
        None => Err(BlockFault::Address),
        Some((v4, net)) => {
            let max = if v4 {
                32int
            } else {
                128
            };
            match tail {
                None => Ok(Block { v4, net, prefix: max }),
                Some(p) => match number(p, 255) {
                    None => Err(BlockFault::Prefix),
                    Some(n) => if n > max {
                        Err(BlockFault::Range)
                    } else {
                        Ok(Block { v4, net, prefix: n as int })
                    },
                },
            }
        },
    }
}

pub open spec fn fault_at(f: BlockFault, i: usize) -> MatchError {
    match f {
        BlockFault::Address => MatchError::BadAddress(i),
        BlockFault::Prefix => MatchError::BadPrefix(i),
        BlockFault::Range => MatchError::PrefixOutOfRange(i),
    }
}

/// The bytes of a list of texts.
pub open spec fn texts(v: Seq<&str>) -> Seq<Seq<u8>> {
    v.map_values(|x: &str| text(x))
}

/// Whether a list of blocks takes an address in: some positive one does, or
/// there is none, and no negative one does.
pub open spec fn blocks_hit(raws: Seq<Seq<u8>>, v4: bool, o: Seq<u8>) -> bool {
    &&& !exists|i: int|
        0 <= i < raws.len() && negated_entry(#[trigger] raws[i]) && in_block(
            block_of(raws[i])->Ok_0,
            v4,
            o,
        )
    &&& (forall|i: int| 0 <= i < raws.len() ==> negated_entry(#[trigger] raws[i])) || exists|
        i: int,
    |
        0 <= i < raws.len() && !negated_entry(#[trigger] raws[i]) && in_block(
            block_of(raws[i])->Ok_0,
            v4,
            o,
        )
}

struct Cidr {
    addr: Addr,
    prefix: u8,
}

pub open spec fn is_v4(a: Addr) -> bool {
    a is V4
}

impl Cidr {
    spec fn block(self) -> Block {
        Block { v4: is_v4(self.addr), net: self.addr.octets(), prefix: self.prefix as int }
    }

    spec fn wf(self) -> bool {
        self.prefix <= 8 * self.addr.octets().len()
    }

    fn parse(raw: &[u8]) -> (r: Result<Cidr, BlockFaultKind>)
        ensures
            match block_of(raw@) {
                Ok(b) => r matches Ok(c) && c.block() == b && c.wf(),
                Err(f) => r matches Err(k) && kind_of_fault(k) == f,
            },
    {
        let neg = raw.len() > 0 && raw[0] == 33;
        let body = if neg {
            &raw[1..raw.len()]
        } else {
            raw
        };
        let at = find_byte(47, body);
        let host = match at {
            Some(i) => &body[0..i],
            None => body,
        };
        let addr = match parse_addr(host) {
            Some(a) => a,
            None => {
                return Err(BlockFaultKind::Address);
            },
        };
        let max: u8 = match addr {
            Addr::V4(_) => 32,
            Addr::V6(_) => 128,
        };
        match at {
            None => Ok(Cidr { addr, prefix: max }),
            Some(i) => match parse_number(&body[i + 1..body.len()], 255) {
                None => Err(BlockFaultKind::Prefix),
                Some(n) => if n > max as u64 {
                    Err(BlockFaultKind::Range)
                } else {
                    Ok(Cidr { addr, prefix: n as u8 })
                },
            },
        }
    }

    fn contains(&self, ip: &Addr) -> (r: bool)
        requires
            self.wf(),
        ensures
            r == in_block(self.block(), is_v4(*ip), ip.octets()),
    {
        let ghost b = self.block();
        match &self.addr {
            Addr::V4(net) => match ip {
                Addr::V4(o) => {
                    assert(b.net == net@ && ip.octets() == o@);
                    prefix_eq(net.as_slice(), o.as_slice(), self.prefix)
                },
                Addr::V6(_) => false,
            },
            Addr::V6(net) => match ip {
                Addr::V4(_) => false,
                Addr::V6(o) => {
                    assert(b.net == net@ && ip.octets() == o@);
                    prefix_eq(net.as_slice(), o.as_slice(), self.prefix)
                },
            },
        }
    }
}

enum BlockFaultKind {
    Address,
    Prefix,
    Range,
}

spec fn kind_of_fault(k: BlockFaultKind) -> BlockFault {
    match k {
        BlockFaultKind::Address => BlockFault::Address,
        BlockFaultKind::Prefix => BlockFault::Prefix,
        BlockFaultKind::Range => BlockFault::Range,
    }
}

fn prefix_eq(a: &[u8], b: &[u8], prefix: u8) -> (r: bool)
    requires
        prefix <= 8 * a@.len(),
        a@.len() == b@.len(),
    ensures
        r == (forall|i: int| 0 <= i < prefix ==> #[trigger] bit(a@, i) == bit(b@, i)),
{
    let mut i: usize = 0;
    while i < prefix as usize
        invariant
            i <= prefix,
            prefix <= 8 * a@.len(),
            a@.len() == b@.len(),
            forall|j: int| 0 <= j < i ==> #[trigger] bit(a@, j) == bit(b@, j),
        decreases prefix - i,
    {
        let shift: u8 = (7 - i % 8) as u8;
        let x: u8 = (a[i / 8] >> shift) & 1;
        let y: u8 = (b[i / 8] >> shift) & 1;
        assert(x == bit(a@, i as int) && y == bit(b@, i as int));
        if x != y {
            return false;
        }
        i += 1;
    }
    true
}

/// `source` matcher: addresses and blocks, with `!` negation.
pub struct CidrSet {
    positive: Vec<Cidr>,
    negative: Vec<Cidr>,
}

spec fn any_holds(cs: Seq<Cidr>, v4: bool, o: Seq<u8>) -> bool {
    exists|i: int| 0 <= i < cs.len() && in_block((#[trigger] cs[i]).block(), v4, o)
}

spec fn any_block(raws: Seq<Seq<u8>>, neg: bool, v4: bool, o: Seq<u8>) -> bool {
    exists|i: int|
        0 <= i < raws.len() && negated_entry(#[trigger] raws[i]) == neg && in_block(
            block_of(raws[i])->Ok_0,
            v4,
            o,
        )
}

proof fn lemma_any_holds_push(cs: Seq<Cidr>, c: Cidr, v4: bool, o: Seq<u8>)
    ensures
        any_holds(cs.push(c), v4, o) == (any_holds(cs, v4, o) || in_block(c.block(), v4, o)),
{
    let up = cs.push(c);
    assert(up[cs.len() as int] == c);
    if any_holds(cs, v4, o) {
        let i = choose|i: int| 0 <= i < cs.len() && in_block((#[trigger] cs[i]).block(), v4, o);
        assert(up[i] == cs[i]);
    }
    if any_holds(up, v4, o) {
        let i = choose|i: int| 0 <= i < up.len() && in_block((#[trigger] up[i]).block(), v4, o);
        if i < cs.len() {
            assert(cs[i] == up[i]);
        }
    }
}

proof fn lemma_any_block_next(raws: Seq<Seq<u8>>, k: int, neg: bool, v4: bool, o: Seq<u8>)
    requires
        0 <= k < raws.len(),
    ensures
        any_block(raws.take(k + 1), neg, v4, o) == (any_block(raws.take(k), neg, v4, o) || (
        negated_entry(raws[k]) == neg && in_block(block_of(raws[k])->Ok_0, v4, o))),
{
    let a = raws.take(k);
    let b = raws.take(k + 1);
    assert(b[k] == raws[k]);
    if any_block(a, neg, v4, o) {
        let i = choose|i: int|
            0 <= i < a.len() && negated_entry(#[trigger] a[i]) == neg && in_block(
                block_of(a[i])->Ok_0,
                v4,
                o,
            );
        assert(b[i] == a[i]);
    }
    if any_block(b, neg, v4, o) {
        let i = choose|i: int|
            0 <= i < b.len() && negated_entry(#[trigger] b[i]) == neg && in_block(
                block_of(b[i])->Ok_0,
                v4,
                o,
            );
        if i < k {
            assert(a[i] == b[i]);
        }
    }
}

impl CidrSet {
    /// Whether the set takes an address in.
    pub closed spec fn hits(self, v4: bool, o: Seq<u8>) -> bool {
        !any_holds(self.negative@, v4, o) && (self.positive@.len() == 0 || any_holds(
            self.positive@,
            v4,
            o,
        ))
    }

    #[verifier::type_invariant]
    spec fn wf(self) -> bool {
        &&& forall|i: int| 0 <= i < self.positive@.len() ==> (#[trigger] self.positive@[i]).wf()
        &&& forall|i: int| 0 <= i < self.negative@.len() ==> (#[trigger] self.negative@[i]).wf()
    }

    pub fn compile(entries: &[&str]) -> (r: Result<Self, MatchError>)
        ensures
            match r {
                Ok(set) => {
                    &&& forall|i: int|
                        0 <= i < entries@.len() ==> block_of(#[trigger] texts(entries@)[i]) is Ok
                    &&& forall|v4: bool, o: Seq<u8>| #[trigger]
                        set.hits(v4, o) == blocks_hit(texts(entries@), v4, o)
                },
                Err(e) => exists|k: int|
                    {
                        &&& 0 <= k < entries@.len()
                        &&& #[trigger] block_of(texts(entries@)[k]) is Err
                        &&& e == fault_at(block_of(texts(entries@)[k])->Err_0, k as usize)
                        &&& forall|i: int|
                            0 <= i < k ==> block_of(#[trigger] texts(entries@)[i]) is Ok
                    },
            },
    {
        let mut positive: Vec<Cidr> = Vec::new();
        let mut negative: Vec<Cidr> = Vec::new();
        let ghost raws = texts(entries@);
        let mut k: usize = 0;
        while k < entries.len()
            invariant
                k <= entries@.len(),
                raws == texts(entries@),
                forall|i: int| 0 <= i < k ==> block_of(#[trigger] raws[i]) is Ok,
                forall|i: int| 0 <= i < positive@.len() ==> (#[trigger] positive@[i]).wf(),
                forall|i: int| 0 <= i < negative@.len() ==> (#[trigger] negative@[i]).wf(),
                forall|v4: bool, o: Seq<u8>| #[trigger]
                    any_holds(positive@, v4, o) == any_block(raws.take(k as int), false, v4, o),
                forall|v4: bool, o: Seq<u8>| #[trigger]
                    any_holds(negative@, v4, o) == any_block(raws.take(k as int), true, v4, o),
                positive@.len() == 0 <==> forall|i: int|
                    0 <= i < k ==> negated_entry(#[trigger] raws[i]),
            decreases entries@.len() - k,
        {
            let raw = entries[k].as_bytes();
            assert(raws[k as int] == raw@);
            let neg = raw.len() > 0 && raw[0] == 33;
            let c = match Cidr::parse(raw) {
                Ok(c) => c,
                Err(BlockFaultKind::Address) => {
                    return Err(MatchError::BadAddress(k));
                },
                Err(BlockFaultKind::Prefix) => {
                    return Err(MatchError::BadPrefix(k));
                },
                Err(BlockFaultKind::Range) => {
                    return Err(MatchError::PrefixOutOfRange(k));
                },
            };
            let ghost was_pos = positive@;
            let ghost was_neg = negative@;
            if neg {
                negative.push(c);
            } else {
                positive.push(c);
                assert(!negated_entry(raws[k as int]));
            }
            proof {
                let next = raws.take(k + 1);
                assert forall|v4: bool, o: Seq<u8>| #[trigger]
                    any_holds(positive@, v4, o) == any_block(next, false, v4, o) by {
                    lemma_any_holds_push(was_pos, c, v4, o);
                    lemma_any_block_next(raws, k as int, false, v4, o);
                    assert(any_holds(was_pos, v4, o) == any_block(
                        raws.take(k as int),
                        false,
                        v4,
                        o,
                    ));
                }
                assert forall|v4: bool, o: Seq<u8>| #[trigger]
                    any_holds(negative@, v4, o) == any_block(next, true, v4, o) by {
                    lemma_any_holds_push(was_neg, c, v4, o);
                    lemma_any_block_next(raws, k as int, true, v4, o);
                    assert(any_holds(was_neg, v4, o) == any_block(
                        raws.take(k as int),
                        true,
                        v4,
                        o,
                    ));
                }
            }
            k += 1;
        }
        assert(raws.take(k as int) =~= raws);
        let r = CidrSet { positive, negative };
        proof {
            assert forall|v4: bool, o: Seq<u8>| #[trigger]
                r.hits(v4, o) == blocks_hit(raws, v4, o) by {
                assert(any_holds(r.positive@, v4, o) == any_block(raws, false, v4, o));
                assert(any_holds(r.negative@, v4, o) == any_block(raws, true, v4, o));
            }
        }
        Ok(r)
    }

    pub fn matches(&self, ip: &Addr) -> (r: bool)
        ensures
            r == self.hits(is_v4(*ip), ip.octets()),
    {
        proof {
            use_type_invariant(self);
        }
        if some_holds(&self.negative, ip) {
            return false;
        }
        if self.positive.len() == 0 {
            return true;
        }
        some_holds(&self.positive, ip)
    }
}

fn some_holds(cs: &Vec<Cidr>, ip: &Addr) -> (r: bool)
    requires
        forall|i: int| 0 <= i < cs@.len() ==> (#[trigger] cs@[i]).wf(),
    ensures
        r == any_holds(cs@, is_v4(*ip), ip.octets()),
{
    let mut i: usize = 0;
    while i < cs.len()
        invariant
            i <= cs@.len(),
            forall|j: int| 0 <= j < cs@.len() ==> (#[trigger] cs@[j]).wf(),
            forall|j: int|
                0 <= j < i ==> !in_block((#[trigger] cs@[j]).block(), is_v4(*ip), ip.octets()),
        decreases cs@.len() - i,
    {
        if cs[i].contains(ip) {
            assert(in_block(cs@[i as int].block(), is_v4(*ip), ip.octets()));
            return true;
        }
        i += 1;
    }
    false
}

/// A list of only negative patterns, the empty list among them, hits whatever
/// none of them hits.
pub proof fn negatives_alone_exclude(raws: Seq<Seq<char>>, ci: bool, value: Seq<u8>)
    requires
        forall|i: int| 0 <= i < raws.len() ==> negated(#[trigger] raws[i]),
    ensures
        set_hits(raws, ci, value) <==> forall|i: int|
            0 <= i < raws.len() ==> !pattern_hits(entry_body(#[trigger] raws[i]), ci, value),
{
}

/// A negative pattern that hits excludes the value, whatever else is listed.
pub proof fn negative_wins(raws: Seq<Seq<char>>, ci: bool, value: Seq<u8>, i: int)
    requires
        0 <= i < raws.len(),
        negated(raws[i]),
        pattern_hits(entry_body(raws[i]), ci, value),
    ensures
        !set_hits(raws, ci, value),
{
}

/// An address of one family is in no block of the other.
pub proof fn families_never_mix(b: Block, v4: bool, o: Seq<u8>)
    requires
        b.v4 != v4,
    ensures
        !in_block(b, v4, o),
{
}

/// A block with the full prefix length holds its own address and no other.
pub proof fn full_prefix_is_equality(b: Block, o: Seq<u8>)
    requires
        b.net.len() == o.len(),
        b.prefix == 8 * o.len(),
    ensures
        in_block(b, b.v4, o) <==> b.net == o,
{
    if in_block(b, b.v4, o) {
        assert forall|k: int| 0 <= k < o.len() implies b.net[k] == o[k] by {
            let x = b.net[k];
            let y = o[k];
            assert(bit(b.net, 8 * k) == bit(o, 8 * k));
            assert(bit(b.net, 8 * k + 1) == bit(o, 8 * k + 1));
            assert(bit(b.net, 8 * k + 2) == bit(o, 8 * k + 2));
            assert(bit(b.net, 8 * k + 3) == bit(o, 8 * k + 3));
            assert(bit(b.net, 8 * k + 4) == bit(o, 8 * k + 4));
            assert(bit(b.net, 8 * k + 5) == bit(o, 8 * k + 5));
            assert(bit(b.net, 8 * k + 6) == bit(o, 8 * k + 6));
            assert(bit(b.net, 8 * k + 7) == bit(o, 8 * k + 7));
            assert((x >> 7u8) & 1 == (y >> 7u8) & 1 && (x >> 6u8) & 1 == (y >> 6u8) & 1 && (x
                >> 5u8) & 1 == (y >> 5u8) & 1 && (x >> 4u8) & 1 == (y >> 4u8) & 1 && (x >> 3u8) & 1
                == (y >> 3u8) & 1 && (x >> 2u8) & 1 == (y >> 2u8) & 1 && (x >> 1u8) & 1 == (y
                >> 1u8) & 1 && (x >> 0u8) & 1 == (y >> 0u8) & 1 ==> x == y) by (bit_vector);
        }
        assert(b.net =~= o);
    }
}

} // verus!
