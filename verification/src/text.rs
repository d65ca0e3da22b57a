//! String helpers.

use vstd::prelude::*;
use vstd::string::*;
use vstd::utf8::{decode_utf8, encode_utf8, valid_utf8};

use crate::bytes::{chars, dec, push_bytes, utf8};
use crate::router::uri::append_dec;

verus! {

/// `String::push` of std appends one character.
pub assume_specification[ String::push ](s: &mut String, c: char)
    ensures
        final(s)@ == old(s)@.push(c),
;

/// What a lossy reading of bytes that are no valid UTF-8 gives.
pub uninterp spec fn lossy_text(b: Seq<u8>) -> Seq<char>;

/// Calls `String::from_utf8_lossy` of std. Valid UTF-8 gives the text that it
/// spells; what stands in place of invalid sequences is given a name only.
#[verifier::external_body]
fn lossy(b: &[u8]) -> (r: String)
    ensures
        r@ == lossy_text(b@),
        valid_utf8(b@) ==> r@ == decode_utf8(b@),
{
    String::from_utf8_lossy(b).into_owned()
}

/// Bytes read as a text: what they spell, where they are valid UTF-8.
pub open spec fn text_of(b: Seq<u8>) -> Seq<char> {
    if valid_utf8(b) {
        decode_utf8(b)
    } else {
        lossy_text(b)
    }
}

/// Read bytes as a text.
pub fn read_text(b: &[u8]) -> (r: String)
    ensures
        r@ == text_of(b@),
{
    lossy(b)
}

/// Bytes that are passed on as a text: themselves, where they are valid UTF-8.
pub open spec fn relayed(b: Seq<u8>) -> Seq<u8> {
    if valid_utf8(b) {
        b
    } else {
        encode_utf8(lossy_text(b))
    }
}

/// Append bytes as a text.
pub fn push_relayed(out: &mut Vec<u8>, b: &[u8])
    ensures
        final(out)@ == old(out)@ + relayed(b@),
{
    match utf8(b) {
        Some(_) => push_bytes(out, b),
        None => push_bytes(out, lossy(b).as_str().as_bytes()),
    }
}

pub fn cat2(a: &str, b: &str) -> (r: String)
    ensures
        r@ == a@ + b@,
{
    let mut s = a.to_owned();
    s.append(b);
    s
}

pub fn cat3(a: &str, b: &str, c: &str) -> (r: String)
    ensures
        r@ == a@ + b@ + c@,
{
    let mut s = a.to_owned();
    s.append(b);
    s.append(c);
    s
}

pub fn cat5(a: &str, b: &str, c: &str, d: &str, e: &str) -> (r: String)
    ensures
        r@ == a@ + b@ + c@ + d@ + e@,
{
    let mut s = a.to_owned();
    s.append(b);
    s.append(c);
    s.append(d);
    s.append(e);
    s
}

/// Decimal text of a number.
pub fn decimal(n: u64) -> (r: String)
    ensures
        r@ == chars(dec(n as nat)),
{
    let mut s = String::new();
    append_dec(&mut s, n);
    assert(s@ =~= chars(dec(n as nat)));
    s
}

/// The text of an option.
pub open spec fn option_text(s: Option<String>) -> Option<Seq<char>> {
    match s {
        Some(s) => Some(s@),
        None => None,
    }
}

/// The texts of a list.
pub open spec fn texts(v: Seq<String>) -> Seq<Seq<char>> {
    v.map_values(|s: String| s@)
}

/// Whether two texts are the same.
pub fn same(a: &str, b: &str) -> (r: bool)
    ensures
        r == (a@ == b@),
{
    let r = crate::bytes::eq(a.as_bytes(), b.as_bytes());
    proof {
        if r {
            vstd::utf8::encode_utf8_decode_utf8(a@);
            vstd::utf8::encode_utf8_decode_utf8(b@);
        }
    }
    r
}

/// The characters of a text.
pub fn to_chars(s: &str) -> (r: Vec<char>)
    ensures
        r@ == s@,
{
    let mut out: Vec<char> = Vec::new();
    for c in it: s.chars()
        invariant
            it.seq() == s@,
            out@ == s@.take(it.index() as int),
    {
        proof {
            assert(s@.take(it.index() + 1) =~= s@.take(it.index() as int).push(c));
        }
        out.push(c);
    }
    assert(s@.take(s@.len() as int) =~= s@);
    out
}

/// Characters that Unicode counts as white space.
pub open spec fn is_space(c: char) -> bool {
    let u = c as u32;
    9 <= u <= 13 || u == 32 || u == 0x85 || u == 0xa0 || u == 0x1680 || 0x2000 <= u <= 0x200a || u
        == 0x2028 || u == 0x2029 || u == 0x202f || u == 0x205f || u == 0x3000
}

pub fn is_space_char(c: char) -> (r: bool)
    ensures
        r == is_space(c),
{
    let u: u32 = c as u32;
    9 <= u && u <= 13 || u == 32 || u == 0x85 || u == 0xa0 || u == 0x1680 || 0x2000 <= u && u
        <= 0x200a || u == 0x2028 || u == 0x2029 || u == 0x202f || u == 0x205f || u == 0x3000
}

/// A text without the given character at its start.
pub open spec fn trimmed(s: Seq<char>, c: char) -> Seq<char>
    decreases s.len(),
{
    if s.len() > 0 && s[0] == c {
        trimmed(s.subrange(1, s.len() as int), c)
    } else {
        s
    }
}

pub fn trim_start<'a>(s: &'a str, c: char) -> (r: &'a str)
    ensures
        r@ == trimmed(s@, c),
{
    let all = to_chars(s);
    let mut i: usize = 0;
    assert(s@.subrange(0, s@.len() as int) =~= s@);
    while i < all.len() && all[i] == c
        invariant
            i <= all@.len(),
            all@ == s@,
            trimmed(s@.subrange(i as int, s@.len() as int), c) == trimmed(s@, c),
        decreases all@.len() - i,
    {
        proof {
            let here = s@.subrange(i as int, s@.len() as int);
            assert(here.subrange(1, here.len() as int) =~= s@.subrange(i + 1, s@.len() as int));
        }
        i += 1;
    }
    s.substring_char(i, all.len())
}

/// A text without the given character at its end.
pub open spec fn trimmed_end(s: Seq<char>, c: char) -> Seq<char>
    decreases s.len(),
{
    if s.len() > 0 && s.last() == c {
        trimmed_end(s.drop_last(), c)
    } else {
        s
    }
}

pub fn trim_end<'a>(s: &'a str, c: char) -> (r: &'a str)
    ensures
        r@ == trimmed_end(s@, c),
{
    let all = to_chars(s);
    let mut n: usize = all.len();
    assert(s@.subrange(0, n as int) =~= s@);
    while n > 0 && all[n - 1] == c
        invariant
            n <= all@.len(),
            all@ == s@,
            trimmed_end(s@.subrange(0, n as int), c) == trimmed_end(s@, c),
        decreases n,
    {
        proof {
            assert(s@.subrange(0, n as int).drop_last() =~= s@.subrange(0, n - 1));
        }
        n -= 1;
    }
    s.substring_char(0, n)
}

/// Whether `m` stands in `s` at `i`.
pub open spec fn stands_at(s: Seq<char>, m: Seq<char>, i: int) -> bool {
    0 <= i && i + m.len() <= s.len() && s.subrange(i, i + m.len()) == m
}

/// Whether `i` is the first place of `m` in `s`.
pub open spec fn first_stands_at(s: Seq<char>, m: Seq<char>, i: int) -> bool {
    stands_at(s, m, i) && forall|j: int| 0 <= j < i ==> !#[trigger] stands_at(s, m, j)
}

/// Where `m` first stands in `s`.
pub open spec fn first_of(s: Seq<char>, m: Seq<char>) -> Option<int> {
    if exists|i: int| first_stands_at(s, m, i) {
        Some(choose|i: int| first_stands_at(s, m, i))
    } else {
        None
    }
}

proof fn lemma_first(s: Seq<char>, m: Seq<char>, i: int)
    requires
        first_stands_at(s, m, i),
    ensures
        first_of(s, m) == Some(i),
{
    let k = choose|k: int| first_stands_at(s, m, k);
    assert(first_stands_at(s, m, k));
    assert(stands_at(s, m, k) && stands_at(s, m, i));
}

fn at(s: &Vec<char>, m: &Vec<char>, i: usize) -> (r: bool)
    requires
        i <= s@.len(),
    ensures
        r == stands_at(s@, m@, i as int),
{
    if m.len() > s.len() - i {
        return false;
    }
    let mut k: usize = 0;
    while k < m.len()
        invariant
            k <= m@.len(),
            i + m.len() <= s.len(),
            s@.subrange(i as int, i + k) == m@.subrange(0, k as int),
        decreases m@.len() - k,
    {
        if s[i + k] != m[k] {
            assert(s@.subrange(i as int, i + m@.len())[k as int] == s@[i + k]);
            return false;
        }
        assert(s@.subrange(i as int, i + k + 1) =~= s@.subrange(i as int, i + k).push(s@[i + k]));
        assert(m@.subrange(0, k + 1) =~= m@.subrange(0, k as int).push(m@[k as int]));
        k += 1;
    }
    assert(m@.subrange(0, k as int) =~= m@);
    true
}

/// Find the first place of `m` in `s`, counted in characters.
pub fn find_text(s: &str, m: &str) -> (r: Option<usize>)
    ensures
        match r {
            Some(i) => first_of(s@, m@) == Some(i as int),
            None => first_of(s@, m@) is None,
        },
        r matches Some(i) ==> i + m@.len() <= s@.len() <= usize::MAX,
{
    let hay = to_chars(s);
    let needle = to_chars(m);
    let n: usize = hay.len();
    let mut i: usize = 0;
    loop
        invariant
            hay@ == s@,
            needle@ == m@,
            n == hay@.len(),
            i <= n,
            forall|j: int| 0 <= j < i ==> !#[trigger] stands_at(s@, m@, j),
        decreases n - i,
    {
        if at(&hay, &needle, i) {
            proof {
                lemma_first(s@, m@, i as int);
            }
            return Some(i);
        }
        if i == n {
            assert forall|j: int| !first_stands_at(s@, m@, j) by {
                assert(0 <= j <= n ==> !stands_at(s@, m@, j));
            }
            return None;
        }
        i += 1;
    }
}

/// Whether `s` begins with `m`.
pub fn starts_with_text(s: &str, m: &str) -> (r: bool)
    ensures
        r == stands_at(s@, m@, 0),
{
    let all = to_chars(s);
    let head = to_chars(m);
    at(&all, &head, 0)
}

/// Whether `s` ends with `m`.
pub open spec fn ends_in(s: Seq<char>, m: Seq<char>) -> bool {
    stands_at(s, m, s.len() - m.len())
}

pub fn ends_with_text(s: &str, m: &str) -> (r: bool)
    ensures
        r == ends_in(s@, m@),
{
    let all = to_chars(s);
    let tail = to_chars(m);
    if tail.len() > all.len() {
        return false;
    }
    at(&all, &tail, all.len() - tail.len())
}

} // verus!
