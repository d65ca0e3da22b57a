//! Request heads.

use vstd::prelude::*;

use crate::bytes::{
    cut, eq_ignore_case, find_byte, is_text, lowered, number, parse_number, pieces, split, text,
    to_lower, to_vec, trim, trimmed_left, trimmed_right, views,
};
use crate::router::args::{lookup, named, pairs};

verus! {

/// The most header fields that a request may have.
pub const MAX_HEADERS: usize = 64;

/// What a request head consists of: method, target, minor version, and the
/// header fields in order.
pub type HeadModel = (Seq<u8>, Seq<u8>, u8, Seq<(Seq<u8>, Seq<u8>)>);

/// A complete head as it stands on the wire, with room for the given number
/// of header fields; nothing where it is incomplete or malformed.
pub uninterp spec fn http_head(
    head: Seq<u8>,
    max_headers: nat,
) -> Option<(Seq<u8>, Seq<u8>, u8, Seq<(Seq<u8>, Seq<u8>)>)>;

/// The parts of a request head, taken as they are.
pub struct RawHead {
    pub method: Vec<u8>,
    pub target: Vec<u8>,
    pub minor: u8,
    pub headers: Vec<(Vec<u8>, Vec<u8>)>,
}

impl View for RawHead {
    type V = HeadModel;

    open spec fn view(&self) -> HeadModel {
        (self.method@, self.target@, self.minor, pairs(self.headers@))
    }
}

/// Calls `httparse::Request::parse` on a head, with room for `max_headers`
/// header fields. Which parts it finds, and on which input it finds none, is
/// given a name only.
#[verifier::external_body]
fn read_head(head: &[u8], max_headers: usize) -> (r: Option<RawHead>)
    requires
        max_headers <= MAX_HEADERS,
    ensures
        match http_head(head@, max_headers as nat) {
            Some(h) => r matches Some(x) && x@ == h,
            None => r is None,
        },
{
    let mut slots = vec![httparse::EMPTY_HEADER; max_headers];
    let mut req = httparse::Request::new(&mut slots);
    match req.parse(head) {
        Ok(httparse::Status::Complete(_)) => {},
        _ => return None,
    }
    Some(RawHead {
        method: req.method?.as_bytes().to_vec(),
        target: req.path?.as_bytes().to_vec(),
        minor: req.version?,
        headers: req.headers.iter().map(
            |h| (h.name.as_bytes().to_vec(), h.value.to_vec()),
        ).collect(),
    })
}

/// A request as the router sees it. Header names are in lower case.
#[derive(Debug)]
pub struct Parsed {
    pub method: Vec<u8>,
    pub target: Vec<u8>,
    pub headers: Vec<(Vec<u8>, Vec<u8>)>,
    pub keep_alive: bool,
    pub content_length: u64,
    /// The status that the request is refused with.
    pub bad: Option<u16>,
}

/// What the header fields say about the message's extent.
pub struct Framing {
    pub keep_alive: bool,
    pub content_length: u64,
    pub bad: Option<u16>,
}

/// The effect of one header field, given by its lower-case name.
pub open spec fn framed(f: Framing, name: Seq<u8>, value: Seq<u8>) -> Framing {
    if name == text("content-length") {
        match number(value, u64::MAX as nat) {
            Some(n) => if n < u64::MAX {
                Framing { content_length: n as u64, ..f }
            } else {
                Framing { content_length: u64::MAX, bad: Some(400), ..f }
            },
            None => Framing { content_length: u64::MAX, bad: Some(400), ..f },
        }
    } else if name == text("transfer-encoding") {
        Framing { bad: Some(411), ..f }
    } else if name == text("connection") && lowered(value) == lowered(text("close")) {
        Framing { keep_alive: false, ..f }
    } else {
        f
    }
}

/// The effect of all header fields, in order. A connection is kept only under
/// HTTP/1.1.
pub open spec fn framing(minor: u8, headers: Seq<(Seq<u8>, Seq<u8>)>) -> Framing
    decreases headers.len(),
{
    if headers.len() == 0 {
        Framing { keep_alive: minor == 1, content_length: 0, bad: None }
    } else {
        framed(
            framing(minor, headers.drop_last()),
            lowered(headers.last().0),
            headers.last().1,
        )
    }
}

/// Header fields with their names in lower case.
pub open spec fn lower_names(headers: Seq<(Seq<u8>, Seq<u8>)>) -> Seq<(Seq<u8>, Seq<u8>)> {
    headers.map_values(|h: (Seq<u8>, Seq<u8>)| (lowered(h.0), h.1))
}

/// The request that a head stands for.
pub open spec fn stands_for(p: Parsed, h: HeadModel) -> bool {
    let f = framing(h.2, h.3);
    &&& p.method@ == h.0
    &&& p.target@ == h.1
    &&& pairs(p.headers@) == lower_names(h.3)
    &&& p.keep_alive == f.keep_alive
    &&& p.content_length == f.content_length
    &&& p.bad == f.bad
}

/// Read what the header fields of a head say.
pub fn interpret(raw: RawHead) -> (r: Parsed)
    ensures
        stands_for(r, raw@),
{
    let ghost all = pairs(raw.headers@);
    let RawHead { method, target, minor, headers } = raw;
    let mut out: Vec<(Vec<u8>, Vec<u8>)> = Vec::new();
    let mut keep_alive = minor == 1;
    let mut content_length: u64 = 0;
    let mut bad: Option<u16> = None;
    let mut i: usize = 0;
    assert(all.take(0).len() == 0);
    while i < headers.len()
        invariant
            i <= headers@.len(),
            all == pairs(headers@),
            out@.len() == i,
            forall|j: int| 0 <= j < i ==> #[trigger] pairs(out@)[j] == lower_names(all)[j],
            framing(minor, all.take(i as int)) == (Framing { keep_alive, content_length, bad }),
        decreases headers@.len() - i,
    {
        let name = to_lower(headers[i].0.as_slice());
        let value = headers[i].1.as_slice();
        proof {
            assert(all.take(i + 1).drop_last() =~= all.take(i as int));
            assert(all.take(i + 1).last() == (headers@[i as int].0@, value@));
        }
        if is_text(name.as_slice(), "content-length") {
            content_length = match parse_number(value, u64::MAX) {
                Some(n) => n,
                None => u64::MAX,
            };
            if content_length == u64::MAX {
                bad = Some(400);
            }
        } else if is_text(name.as_slice(), "transfer-encoding") {
            bad = Some(411);
        } else if is_text(name.as_slice(), "connection") && eq_ignore_case(
            value,
            "close".as_bytes(),
        ) {
            keep_alive = false;
        }
        let ghost was = pairs(out@);
        out.push((name, to_vec(value)));
        assert(pairs(out@) =~= was.push((name@, value@)));
        i += 1;
    }
    assert(all.take(i as int) =~= all);
    assert(pairs(out@) =~= lower_names(all));
    Parsed { method, target, headers: out, keep_alive, content_length, bad }
}

/// Read a complete request head.
pub fn parse_request(head: &[u8]) -> (r: Option<Parsed>)
    ensures
        match http_head(head@, MAX_HEADERS as nat) {
            Some(h) => r matches Some(p) && stands_for(p, h),
            None => r is None,
        },
{
    match read_head(head, MAX_HEADERS) {
        Some(raw) => Some(interpret(raw)),
        None => None,
    }
}

/// A needle stands at `i`.
pub open spec fn occurs(haystack: Seq<u8>, needle: Seq<u8>, i: int) -> bool {
    &&& 0 <= i
    &&& i + needle.len() <= haystack.len()
    &&& haystack.subrange(i, i + needle.len()) == needle
}

/// Calls `memchr::memmem::find`, which finds the first place where the needle
/// stands.
#[verifier::external_body]
fn find_bytes(haystack: &[u8], needle: &[u8]) -> (r: Option<usize>)
    ensures
        match r {
            Some(i) => {
                &&& occurs(haystack@, needle@, i as int)
                &&& forall|j: int| 0 <= j < i ==> !occurs(haystack@, needle@, j)
            },
            None => forall|j: int| !occurs(haystack@, needle@, j),
        },
{
    memchr::memmem::find(haystack, needle)
}

/// The length of a complete head: up to and with the first empty line.
pub open spec fn is_head_end(buf: Seq<u8>, n: int) -> bool {
    &&& occurs(buf, text("\r\n\r\n"), n - 4)
    &&& forall|j: int| 0 <= j < n - 4 ==> !occurs(buf, text("\r\n\r\n"), j)
}

/// Whether no head is complete yet.
pub open spec fn no_head_end(buf: Seq<u8>) -> bool {
    forall|j: int| !occurs(buf, text("\r\n\r\n"), j)
}

proof fn lemma_crlf()
    ensures
        text("\r\n\r\n") == seq![13u8, 10, 13, 10],
{
    reveal_strlit("\r\n\r\n");
    vstd::utf8::is_ascii_chars_encode_utf8("\r\n\r\n"@);
    assert(text("\r\n\r\n") =~= seq![13u8, 10, 13, 10]);
}

pub fn find_headers_end(buf: &[u8]) -> (r: Option<usize>)
    ensures
        match r {
            Some(n) => n <= buf@.len() && is_head_end(buf@, n as int),
            None => no_head_end(buf@),
        },
{
    proof {
        lemma_crlf();
    }
    match find_bytes(buf, "\r\n\r\n".as_bytes()) {
        Some(pos) => {
            assert(pos + 4 <= buf.len());
            Some(pos + 4)
        },
        None => None,
    }
}

/// Path and query of a request target.
pub open spec fn target_parts(target: Seq<u8>) -> (Seq<u8>, Seq<u8>) {
    match cut(target, 63) {
        Some((path, query)) => (path, query),
        None => (target, seq![]),
    }
}

pub fn split_target(target: &[u8]) -> (r: (&[u8], &[u8]))
    ensures
        (r.0@, r.1@) == target_parts(target@),
{
    match find_byte(63, target) {
        Some(pos) => (&target[0..pos], &target[pos + 1..target.len()]),
        None => {
            let none = &target[0..0];
            assert(none@ =~= Seq::<u8>::empty());
            (target, none)
        },
    }
}

/// Whether a comma-separated list holds a token; case does not count.
pub open spec fn has_token(list: Seq<u8>, token: Seq<u8>) -> bool {
    exists|i: int|
        0 <= i < pieces(list, 44).len() && lowered(
            trimmed_right(trimmed_left(#[trigger] pieces(list, 44)[i])),
        ) == lowered(token)
}

fn lists_token(list: &[u8], token: &[u8]) -> (r: bool)
    ensures
        r == has_token(list@, token@),
{
    let parts = split(list, 44);
    let ghost all = pieces(list@, 44);
    let mut i: usize = 0;
    while i < parts.len()
        invariant
            i <= parts@.len(),
            all == views(parts@),
            all == pieces(list@, 44),
            forall|j: int|
                0 <= j < i ==> lowered(trimmed_right(trimmed_left(#[trigger] all[j]))) != lowered(
                    token@,
                ),
        decreases parts@.len() - i,
    {
        assert(all[i as int] == parts@[i as int]@);
        if eq_ignore_case(trim(parts[i].as_slice()), token) {
            return true;
        }
        i += 1;
    }
    false
}

/// The key of a well-formed WebSocket upgrade offer: a GET without a body that
/// asks to upgrade to version 13.
pub open spec fn upgrade_key(p: Parsed) -> Option<Seq<u8>> {
    let headers = pairs(p.headers@);
    if p.method@ == text("GET") && p.content_length == 0 && (named(headers, text("upgrade"))
        matches Some(u) && lowered(u) == lowered(text("websocket"))) && (named(
        headers,
        text("connection"),
    ) matches Some(c) && has_token(c, text("upgrade"))) && named(
        headers,
        text("sec-websocket-version"),
    ) == Some(text("13")) {
        named(headers, text("sec-websocket-key"))
    } else {
        None
    }
}

/// The key of an upgrade offer; anything else is served as plain HTTP.
pub fn websocket_upgrade(p: &Parsed) -> (r: Option<Vec<u8>>)
    ensures
        match upgrade_key(*p) {
            Some(k) => r matches Some(x) && x@ == k,
            None => r is None,
        },
{
    if !is_text(p.method.as_slice(), "GET") || p.content_length != 0 {
        return None;
    }
    let headers = p.headers.as_slice();
    match lookup(headers, "upgrade".as_bytes()) {
        Some(u) => {
            if !eq_ignore_case(u, "websocket".as_bytes()) {
                return None;
            }
        },
        None => {
            return None;
        },
    }
    match lookup(headers, "connection".as_bytes()) {
        Some(c) => {
            if !lists_token(c, "upgrade".as_bytes()) {
                return None;
            }
        },
        None => {
            return None;
        },
    }
    match lookup(headers, "sec-websocket-version".as_bytes()) {
        Some(v) => {
            if !is_text(v, "13") {
                return None;
            }
        },
        None => {
            return None;
        },
    }
    match lookup(headers, "sec-websocket-key".as_bytes()) {
        Some(k) => Some(to_vec(k)),
        None => None,
    }
}

} // verus!
