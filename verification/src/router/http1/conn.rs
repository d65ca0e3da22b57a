//! The decisions of a connection: when a head is complete, whether a request
//! is taken, how its body is read, and what answers it.

use vstd::prelude::*;
use vstd::string::*;

use crate::bytes::{text, to_vec};
use crate::config::table::Table;
use crate::router::addr::Addr;
use crate::router::args::{lookup, pairs, value_of};
use crate::router::http1::parse::{
    find_headers_end, http_head, is_head_end, no_head_end, parse_request, split_target, stands_for,
    target_parts, upgrade_key, websocket_upgrade, Parsed, MAX_HEADERS,
};
use crate::router::routes::{
    changed, decided, decided_from, ends_with, ops_of, start, Action, CompiledRoutes, Decision,
    Fallback, MetaModel, RequestMeta, RouteOutcome, Trail, MAX_HOPS,
};
use crate::router::uri::{normalize_path, normalized};

verus! {

/// The most bytes of a head that are read before it is refused.
pub const MAX_HEADER_BYTES: usize = 32768;

/// What a listener is for.
#[derive(Debug)]
pub enum ListenerKind {
    Route(String),
    Status,
}

/// What to do with the bytes that have arrived.
#[derive(Debug, Clone, Copy, PartialEq, Eq, Structural)]
pub enum Intake {
    /// A head is complete and has this length.
    Head(usize),
    /// Refuse the request: its head is too large.
    TooLarge,
    /// Read on. Nothing of a request has arrived where `idle` holds: the
    /// connection may then wait longer, and may be closed at any time.
    More { idle: bool },
}

/// Look for a complete head.
pub fn intake(buf: &[u8]) -> (r: Intake)
    ensures
        match r {
            Intake::Head(n) => n <= buf@.len() && is_head_end(buf@, n as int),
            Intake::TooLarge => no_head_end(buf@) && buf@.len() > MAX_HEADER_BYTES,
            Intake::More { idle } => {
                &&& no_head_end(buf@)
                &&& buf@.len() <= MAX_HEADER_BYTES
                &&& idle == (buf@.len() == 0)
            },
        },
{
    match find_headers_end(buf) {
        Some(n) => Intake::Head(n),
        None => if buf.len() > MAX_HEADER_BYTES {
            Intake::TooLarge
        } else {
            Intake::More { idle: buf.len() == 0 }
        },
    }
}

/// What an application's workers can do.
#[derive(Debug, Clone, Copy)]
pub struct PoolCaps {
    pub streams_body: bool,
    pub websocket: bool,
}

/// A request that is taken.
pub struct Admitted<'r> {
    pub parsed: Parsed,
    pub path: Vec<u8>,
    pub query: Vec<u8>,
    /// The routing decision; none on a status listener.
    pub outcome: Option<RouteOutcome<'r>>,
    /// The body goes to the worker as it arrives.
    pub streams: bool,
    /// The key of a WebSocket upgrade offer.
    pub ws_key: Option<Vec<u8>>,
}

pub enum Admission<'r> {
    /// Answer with this status and close.
    Refused(u16),
    Accepted(Admitted<'r>),
}

/// Control bytes, which no path may hold once it is decoded: they would end up
/// in headers and variables.
pub open spec fn is_control_byte(b: u8) -> bool {
    b < 0x20 || b == 0x7f
}

pub open spec fn has_control(path: Seq<u8>) -> bool {
    exists|i: int| 0 <= i < path.len() && is_control_byte(#[trigger] path[i])
}

fn holds_control(path: &[u8]) -> (r: bool)
    ensures
        r == has_control(path@),
{
    let mut i: usize = 0;
    while i < path.len()
        invariant
            i <= path@.len(),
            forall|j: int| 0 <= j < i ==> !is_control_byte(#[trigger] path@[j]),
        decreases path@.len() - i,
    {
        if path[i] < 0x20 || path[i] == 0x7f {
            assert(is_control_byte(path@[i as int]));
            return true;
        }
        i += 1;
    }
    false
}

/// The status that a request is refused with, if it is: for what its head
/// says, for the size of its body, or for its path.
pub open spec fn refusal(p: Parsed, max_body: u64) -> Option<u16> {
    if p.bad is Some {
        p.bad
    } else if p.content_length > max_body {
        Some(413)
    } else if has_control(normalized(target_parts(p.target@).0)) {
        Some(400)
    } else {
        None
    }
}

/// What routing knows of a request.
pub open spec fn meta_of(p: Parsed, remote: Addr, remote_text: Seq<u8>) -> MetaModel {
    MetaModel {
        method: p.method@,
        host: value_of(pairs(p.headers@), text("host")),
        path: normalized(target_parts(p.target@).0),
        query: target_parts(p.target@).1,
        headers: pairs(p.headers@),
        remote,
        remote_text,
    }
}

/// Whether the body is handed on as it arrives: it is not all there, and the
/// workers of the application that was decided on take it so.
pub open spec fn streams_to(
    d: Option<Decision<'_>>,
    content_length: u64,
    arrived: nat,
    pools: Table<PoolCaps>,
) -> bool {
    &&& d matches Some(Decision::Application(name)) && pools.has(name@) && pools.at(
        name@,
    ).streams_body
    &&& content_length > 0
    &&& arrived < content_length
}

/// The decision of an outcome that may be absent.
pub open spec fn decision_of(o: Option<RouteOutcome<'_>>) -> Option<Decision<'_>> {
    match o {
        Some(x) => Some(x.decision),
        None => None,
    }
}

/// A request as it is taken, where `arrived` bytes stand behind its head.
pub open spec fn admitted(
    a: Admitted<'_>,
    arrived: nat,
    kind: ListenerKind,
    routes: CompiledRoutes,
    pools: Table<PoolCaps>,
    remote: Addr,
    remote_text: Seq<u8>,
) -> bool {
    let meta = meta_of(a.parsed, remote, remote_text);
    &&& a.path@ == meta.path
    &&& a.query@ == meta.query
    &&& match kind {
        ListenerKind::Route(route) => a.outcome matches Some(o) && decided(
            o,
            routes.routes(),
            route@,
            meta,
        ),
        ListenerKind::Status => a.outcome is None,
    }
    &&& a.streams == streams_to(
        decision_of(a.outcome),
        a.parsed.content_length,
        arrived,
        pools,
    )
    &&& match upgrade_key(a.parsed) {
        Some(k) => a.ws_key matches Some(x) && x@ == k,
        None => a.ws_key is None,
    }
}

fn pool_streams(o: &Option<RouteOutcome<'_>>, pools: &Table<PoolCaps>) -> (r: bool)
    ensures
        r == (decision_of(*o) matches Some(Decision::Application(name)) && pools.has(name@)
            && pools.at(name@).streams_body),
{
    if let Some(o) = o {
        if let Decision::Application(name) = &o.decision {
            if let Some(caps) = pools.get(name) {
                return caps.streams_body;
            }
        }
    }
    false
}

/// The host that a request names; empty where it names none.
pub(crate) fn host_of(p: &Parsed) -> (r: &[u8])
    ensures
        r@ == value_of(pairs(p.headers@), text("host")),
{
    match lookup(p.headers.as_slice(), "host".as_bytes()) {
        Some(h) => h,
        None => &[],
    }
}

/// Take a request whose head has been read, with `arrived` bytes behind it, or
/// refuse it.
pub fn examine<'r>(
    parsed: Parsed,
    arrived: usize,
    kind: &ListenerKind,
    routes: &'r CompiledRoutes,
    pools: &Table<PoolCaps>,
    max_body: u64,
    remote: Addr,
    remote_text: &str,
) -> (r: Admission<'r>)
    ensures
        match refusal(parsed, max_body) {
            Some(s) => r matches Admission::Refused(x) && x == s,
            None => r matches Admission::Accepted(a) && a.parsed == parsed && admitted(
                a,
                arrived as nat,
                *kind,
                *routes,
                *pools,
                remote,
                text(remote_text),
            ),
        },
{
    if let Some(status) = parsed.bad {
        return Admission::Refused(status);
    }
    if parsed.content_length > max_body {
        return Admission::Refused(413);
    }
    let (raw_path, raw_query) = split_target(parsed.target.as_slice());
    let path = normalize_path(raw_path);
    let query = to_vec(raw_query);
    if holds_control(path.as_slice()) {
        return Admission::Refused(400);
    }
    let meta = RequestMeta {
        method: parsed.method.as_slice(),
        host: host_of(&parsed),
        path: path.as_slice(),
        query: query.as_slice(),
        headers: parsed.headers.as_slice(),
        remote,
        remote_text,
    };
    assert(meta@ == meta_of(parsed, remote, text(remote_text)));
    let outcome: Option<RouteOutcome<'r>> = match kind {
        ListenerKind::Route(route) => Some(routes.decide(route.as_str(), &meta)),
        ListenerKind::Status => None,
    };
    let streams = pool_streams(&outcome, pools) && parsed.content_length > 0 && (arrived as u64)
        < parsed.content_length;
    let ws_key = websocket_upgrade(&parsed);
    Admission::Accepted(Admitted { parsed, path, query, outcome, streams, ws_key })
}

/// Take the request whose head is the first `n` bytes that have arrived, or
/// refuse it. The head of a request that is taken is removed from the bytes.
pub fn accept<'r>(
    buf: &mut Vec<u8>,
    n: usize,
    kind: &ListenerKind,
    routes: &'r CompiledRoutes,
    pools: &Table<PoolCaps>,
    max_body: u64,
    remote: Addr,
    remote_text: &str,
) -> (r: Admission<'r>)
    requires
        n <= old(buf)@.len(),
    ensures
        match http_head(old(buf)@.subrange(0, n as int), MAX_HEADERS as nat) {
            None => r matches Admission::Refused(s) && s == 400 && final(buf)@ == old(buf)@,
            Some(h) => match r {
                Admission::Refused(s) => {
                    &&& final(buf)@ == old(buf)@
                    &&& exists|p: Parsed| #[trigger]
                        stands_for(p, h) && refusal(p, max_body) == Some(s)
                },
                Admission::Accepted(a) => {
                    &&& stands_for(a.parsed, h)
                    &&& refusal(a.parsed, max_body) is None
                    &&& final(buf)@ == old(buf)@.subrange(n as int, old(buf)@.len() as int)
                    &&& admitted(
                        a,
                        final(buf)@.len(),
                        *kind,
                        *routes,
                        *pools,
                        remote,
                        text(remote_text),
                    )
                },
            },
        },
{
    let parsed = match parse_request(&buf.as_slice()[0..n]) {
        Some(p) => p,
        None => {
            return Admission::Refused(400);
        },
    };
    assert(stands_for(parsed, http_head(buf@.subrange(0, n as int), MAX_HEADERS as nat)->0));
    let arrived: usize = buf.len() - n;
    match examine(parsed, arrived, kind, routes, pools, max_body, remote, remote_text) {
        Admission::Refused(status) => Admission::Refused(status),
        Admission::Accepted(a) => {
            let rest = to_vec(&buf.as_slice()[n..buf.len()]);
            *buf = rest;
            Admission::Accepted(a)
        },
    }
}

/// Take a request's body out of what has arrived, as far as it is there. What
/// stands behind it belongs to the next request and stays.
pub fn take_body(buf: &mut Vec<u8>, content_length: u64) -> (r: Vec<u8>)
    ensures
        r@.len() <= content_length,
        r@ + final(buf)@ == old(buf)@,
        r@.len() < content_length ==> final(buf)@.len() == 0,
{
    let mut body: Vec<u8> = Vec::new();
    std::mem::swap(&mut body, buf);
    if body.len() as u64 > content_length {
        let n: usize = content_length as usize;
        let rest = body.split_off(n);
        *buf = rest;
        assert(body@ + buf@ =~= old(buf)@);
    } else {
        assert(body@ + buf@ =~= old(buf)@);
    }
    body
}

/// How many bytes of a body to read next, at most `chunk`; none where it is
/// complete.
pub fn body_want(have: u64, content_length: u64, chunk: usize) -> (r: usize)
    requires
        have <= content_length,
    ensures
        r == if content_length - have < chunk {
            content_length - have
        } else {
            chunk as int
        },
{
    let left: u64 = content_length - have;
    if left < chunk as u64 {
        left as usize
    } else {
        chunk
    }
}

/// Whether a body arrives too slowly: once the grace window is over, fewer
/// bytes than the floor asks for on average have come. A floor of 0 asks for
/// nothing.
pub fn body_too_slow(received: u64, elapsed_secs: u64, grace_secs: u64, min_rate: u64) -> (r: bool)
    ensures
        r == (min_rate > 0 && elapsed_secs > grace_secs && received < min_rate * elapsed_secs),
{
    if min_rate == 0 || elapsed_secs <= grace_secs {
        return false;
    }
    assert(min_rate * elapsed_secs <= u64::MAX * u64::MAX) by (nonlinear_arith)
        requires
            0 <= min_rate <= u64::MAX,
            0 <= elapsed_secs <= u64::MAX,
    ;
    (received as u128) < min_rate as u128 * elapsed_secs as u128
}

/// Whether another connection is taken; a cap of 0 caps nothing.
pub fn admits_connection(open: u64, max_connections: u64) -> (r: bool)
    ensures
        r == (max_connections == 0 || open < max_connections),
{
    max_connections == 0 || open < max_connections
}

/// Whether a connection carries another request after an exchange: the client
/// wants it to, nothing was broken off, and a body that was streamed to its
/// worker has been read whole.
pub fn reusable(keep_alive: bool, streams: bool, read_whole: bool, broken: bool) -> (r: bool)
    ensures
        r == (keep_alive && !broken && (!streams || read_whole)),
{
    keep_alive && !broken && (!streams || read_whole)
}

/// Why the server itself fails a request.
#[derive(Debug, Clone, Copy, PartialEq, Eq, Structural)]
pub enum Failure {
    /// The head is too large.
    Head,
    /// The body came too slowly.
    Body,
    /// The application has no workers.
    NoPool,
    /// The body could not be written to a file.
    Spill,
    /// The request is too large to be handed to a worker.
    Payload,
}

/// The answer to a request that the server itself fails: the status, and whether
/// the connection is kept. It is not where the rest of the request may still
/// arrive, nor where the application cannot be served at all.
pub fn failure_answer(f: Failure, keep_alive: bool) -> (r: (u16, bool))
    ensures
        r == match f {
            Failure::Head => (431u16, false),
            Failure::Body => (408u16, false),
            Failure::NoPool => (500u16, false),
            Failure::Spill => (500u16, keep_alive),
            Failure::Payload => (500u16, keep_alive),
        },
{
    match f {
        Failure::Head => (431, false),
        Failure::Body => (408, false),
        Failure::NoPool => (500, false),
        Failure::Spill | Failure::Payload => (500, keep_alive),
    }
}

/// What follows a share that served nothing: its fallback, which changes path,
/// query and headers as it says and may enter routing again. After `MAX_HOPS`
/// such entries nothing is found.
pub open spec fn after_miss(
    r: RouteOutcome<'_>,
    fallback: Option<&Fallback>,
    routes: CompiledRoutes,
    meta: MetaModel,
    entries: usize,
) -> bool {
    match fallback {
        Some(f) => {
            let w = changed(f.rewrite, ops_of(f.response_headers@), start(meta), meta);
            match f.action {
                Action::Route { name } if entries < MAX_HOPS => decided_from(
                    r,
                    routes.routes(),
                    name@,
                    w,
                    meta,
                ),
                action => ends_with(r, Some(action), w),
            }
        },
        None => ends_with(r, None, start(meta)),
    }
}

/// Decide what follows a share that served nothing. `entries` counts how often
/// a fallback has entered routing for this request.
pub fn fall_back<'r>(
    fallback: Option<&'r Fallback>,
    routes: &'r CompiledRoutes,
    meta: &RequestMeta<'_>,
    entries: usize,
) -> (r: RouteOutcome<'r>)
    ensures
        after_miss(r, fallback, *routes, meta@, entries),
{
    let mut trail = Trail::new(meta);
    match fallback {
        Some(f) => {
            trail.change(&f.rewrite, &f.response_headers, meta);
            if let Action::Route { name } = &f.action {
                if entries < MAX_HOPS {
                    return routes.decide_from(name.as_str(), trail, meta);
                }
            }
            trail.end(f.action.decision())
        },
        None => trail.end(Decision::NotFound),
    }
}

} // verus!
