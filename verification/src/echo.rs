//! The echo module: reference for runtimes that serve many requests at once.
//!
//! It answers a request with its request line and its body, and a WebSocket
//! session with what the client says.

use std::collections::BTreeMap;
use vstd::prelude::*;
use vstd::string::*;
use vstd::utf8::{decode_utf8, encode_utf8, is_ascii_chars_encode_utf8, valid_utf8};

use crate::bytes::{dec, push_bytes, push_dec, push_str, text, to_vec, u64_at, utf8};
use crate::ipc::request::entry;
use crate::ipc::{
    error_text, FrameHeader, FrameKind, RequestView, FLAG_BODY_FILE, FLAG_BODY_STREAM,
    FLAG_UPGRADE, PONG_BUSY, PONG_IDLE, WS_OP_BINARY, WS_OP_CLOSE, WS_OP_TEXT,
};
use crate::worker::{add_bare, add_frame, add_frame_with, frame, frame_with, probe_answer};

verus! {

/// Ceiling where the router grants any concurrency.
pub const MAX_CONCURRENCY: u32 = 1024;

/// Settings of an application that this module reads.
#[derive(Debug)]
pub struct AppConfig {
    pub max_requests: u64,
    pub user_id: Option<u32>,
    pub group_id: Option<u32>,
    pub user_name: Option<String>,
}

/// How many requests the worker serves at once.
pub fn concurrency(granted: u32) -> (r: u32)
    ensures
        r == if granted < MAX_CONCURRENCY {
            granted
        } else {
            MAX_CONCURRENCY
        },
{
    if granted < MAX_CONCURRENCY {
        granted
    } else {
        MAX_CONCURRENCY
    }
}

/// Whether more frames follow a request: its body, or the messages of a
/// session.
pub fn has_inbound(flags: u8) -> (r: bool)
    ensures
        r == (flags & (FLAG_BODY_STREAM | FLAG_UPGRADE) != 0),
{
    flags & (FLAG_BODY_STREAM | FLAG_UPGRADE) != 0
}

/// What follows a claimed request.
#[derive(Debug, PartialEq, Eq)]
pub enum Inbound {
    /// A piece of the body; an empty one ends it.
    Body(Vec<u8>),
    /// A WebSocket message: its opcode and payload.
    Ws(u32, Vec<u8>),
}

/// What is said of a std error about UTF-8.
pub uninterp spec fn utf8_fault_text(b: Seq<u8>) -> Seq<char>;

/// Calls `std::str::from_utf8` and words its error: a function of the bytes
/// alone. Of bytes that are valid UTF-8 nothing is claimed.
#[verifier::external_body]
fn utf8_fault(b: &[u8]) -> (r: String)
    ensures
        !valid_utf8(b@) ==> r@ == utf8_fault_text(b@),
{
    match std::str::from_utf8(b) {
        Ok(_) => String::new(),
        Err(e) => e.to_string(),
    }
}

/// Where the body of a request is.
#[derive(Debug, PartialEq, Eq)]
pub enum BodySource {
    /// In the request.
    Inline(Vec<u8>),
    /// In a file of this name, which is removed once it is read.
    File(String),
    /// In frames that follow, this many bytes.
    Stream(u64),
}

/// Where the body of a request is, in terms of the request's bytes.
pub open spec fn is_source(r: Result<BodySource, String>, p: Seq<u8>, flags: u8) -> bool {
    let inline = entry(p, 80 + 16 * crate::bytes::u32_at(p, 76));
    if flags & FLAG_BODY_STREAM != 0 {
        r == Ok::<BodySource, String>(BodySource::Stream(u64_at(p, 60)))
    } else {
        match inline {
            Err(e) => r matches Err(m) && m@ == error_text(e),
            Ok(b) => if flags & FLAG_BODY_FILE == 0 {
                r matches Ok(BodySource::Inline(v)) && v@ == b
            } else if valid_utf8(b) {
                r matches Ok(BodySource::File(s)) && s@ == decode_utf8(b)
            } else {
                r matches Err(m) && m@ == utf8_fault_text(b)
            },
        }
    }
}

/// Find out where the body of a request is.
pub fn body_source(view: &RequestView<'_>, flags: u8) -> (r: Result<BodySource, String>)
    ensures
        is_source(r, view.payload(), flags),
{
    if flags & FLAG_BODY_STREAM != 0 {
        return Ok(BodySource::Stream(view.content_length()));
    }
    let inline = match view.preread_body() {
        Ok(b) => b,
        Err(e) => {
            return Err(e.message());
        },
    };
    if flags & FLAG_BODY_FILE == 0 {
        return Ok(BodySource::Inline(to_vec(inline)));
    }
    match utf8(inline) {
        Some(s) => Ok(BodySource::File(s.to_owned())),
        None => Err(utf8_fault(inline)),
    }
}

/// A body that comes in pieces.
pub struct BodyStream {
    body: Vec<u8>,
    total: u64,
}

/// What has become of a body that comes in pieces.
pub enum Collected {
    More,
    Whole(Seq<u8>),
    Aborted,
}

/// What a piece, or the end of the channel, makes of a body.
pub open spec fn collects(body: Seq<u8>, total: u64, inbound: Option<Inbound>) -> Collected {
    let ended = if body.len() == total {
        Collected::Whole(body)
    } else {
        Collected::Aborted
    };
    match inbound {
        None => ended,
        Some(Inbound::Ws(..)) => Collected::More,
        Some(Inbound::Body(chunk)) => {
            let grown = body + chunk@;
            if chunk@.len() == 0 {
                ended
            } else if grown.len() < total {
                Collected::More
            } else if grown.len() == total {
                Collected::Whole(grown)
            } else {
                Collected::Aborted
            }
        },
    }
}

/// The body so far once a piece has come.
pub open spec fn grown(body: Seq<u8>, inbound: Option<Inbound>) -> Seq<u8> {
    match inbound {
        Some(Inbound::Body(chunk)) => body + chunk@,
        _ => body,
    }
}

impl BodyStream {
    pub closed spec fn so_far(self) -> Seq<u8> {
        self.body@
    }

    pub closed spec fn expected(self) -> u64 {
        self.total
    }

    pub fn new(total: u64) -> (r: Self)
        ensures
            r.so_far() == Seq::<u8>::empty(),
            r.expected() == total,
    {
        BodyStream { body: Vec::new(), total }
    }

    /// Take in what came, or that nothing more will. The answer is `None`
    /// while more is to come.
    pub fn feed(&mut self, inbound: Option<Inbound>) -> (r: Option<Result<Vec<u8>, String>>)
        ensures
            final(self).expected() == old(self).expected(),
            match collects(old(self).so_far(), old(self).expected(), inbound) {
                Collected::More => r is None && final(self).so_far() == grown(
                    old(self).so_far(),
                    inbound,
                ),
                Collected::Whole(b) => r matches Some(Ok(v)) && v@ == b,
                Collected::Aborted => r matches Some(Err(m)) && m@ == "request body aborted"@,
            },
    {
        match inbound {
            Some(Inbound::Ws(_, _)) => {
                return None;
            },
            Some(Inbound::Body(chunk)) => {
                if chunk.len() > 0 {
                    push_bytes(&mut self.body, chunk.as_slice());
                    if (self.body.len() as u64) < self.total {
                        return None;
                    }
                } else {
                    assert(self.body@ + chunk@ =~= self.body@);
                }
            },
            None => {},
        }
        if self.body.len() as u64 != self.total {
            return Some(Err("request body aborted".to_owned()));
        }
        let mut body: Vec<u8> = Vec::new();
        std::mem::swap(&mut body, &mut self.body);
        Some(Ok(body))
    }
}

/// The text that answers a request, given its body.
pub open spec fn echo(method: Seq<u8>, target: Seq<u8>, body: Seq<u8>) -> Seq<u8> {
    method + text(" ") + target + text("\n") + text("body-length: ") + dec(body.len()) + text("\n")
        + body
}

/// The answer to a request, in terms of the request's bytes: an error where the
/// method or the target cannot be read.
pub open spec fn is_echo(r: Result<Vec<u8>, String>, p: Seq<u8>, body: Seq<u8>) -> bool {
    match entry(p, 4) {
        Err(e) => r matches Err(m) && m@ == error_text(e),
        Ok(method) => match entry(p, 20) {
            Err(e) => r matches Err(m) && m@ == error_text(e),
            Ok(target) => r matches Ok(v) && v@ == echo(method, target, body),
        },
    }
}

/// Answer a request, given its body.
pub fn build_response(view: &RequestView<'_>, body: &[u8]) -> (r: Result<Vec<u8>, String>)
    ensures
        is_echo(r, view.payload(), body@),
{
    let method = match view.method() {
        Ok(m) => m,
        Err(e) => {
            return Err(e.message());
        },
    };
    let target = match view.target() {
        Ok(t) => t,
        Err(e) => {
            return Err(e.message());
        },
    };
    let mut out: Vec<u8> = Vec::new();
    push_bytes(&mut out, method);
    assert(out@ =~= method@);
    push_str(&mut out, " ");
    push_bytes(&mut out, target);
    push_str(&mut out, "\n");
    push_str(&mut out, "body-length: ");
    push_dec(&mut out, body.len() as u64);
    push_str(&mut out, "\n");
    push_bytes(&mut out, body);
    Ok(out)
}

/// The frames that answer a request.
pub open spec fn reply(id: u32, answer: Result<Seq<u8>, Seq<u8>>) -> Seq<u8> {
    match answer {
        Ok(body) => frame_with(
            FrameKind::ResponseHeaders,
            id,
            200,
            text("content-type: text/plain\r\n"),
        ) + frame(FrameKind::ResponseBody, id, body) + frame(FrameKind::End, id, seq![]) + frame(
            FrameKind::Done,
            id,
            seq![],
        ),
        Err(message) => frame(FrameKind::Error, id, message),
    }
}

/// The frames that answer a request: the response, or that it failed.
pub fn reply_frames(id: u32, answer: &Result<Vec<u8>, String>) -> (r: Vec<u8>)
    requires
        match *answer {
            Ok(body) => body@.len() <= u32::MAX,
            Err(message) => encode_utf8(message@).len() <= u32::MAX,
        },
    ensures
        r@ == reply(
            id,
            match *answer {
                Ok(body) => Ok(body@),
                Err(message) => Err(encode_utf8(message@)),
            },
        ),
{
    let mut out: Vec<u8> = Vec::new();
    match answer {
        Ok(body) => {
            proof {
                reveal_strlit("content-type: text/plain\r\n");
                is_ascii_chars_encode_utf8("content-type: text/plain\r\n"@);
            }
            add_frame_with(
                &mut out,
                FrameKind::ResponseHeaders,
                id,
                200,
                "content-type: text/plain\r\n".as_bytes(),
            );
            assert(out@ =~= frame_with(
                FrameKind::ResponseHeaders,
                id,
                200,
                text("content-type: text/plain\r\n"),
            ));
            add_frame(&mut out, FrameKind::ResponseBody, id, body.as_slice());
            add_bare(&mut out, FrameKind::End, id);
            add_bare(&mut out, FrameKind::Done, id);
        },
        Err(message) => {
            let m = message.as_str();
            add_frame(&mut out, FrameKind::Error, id, m.as_bytes());
            assert(out@ =~= frame(FrameKind::Error, id, encode_utf8(message@)));
        },
    }
    out
}

/// The frame that accepts a WebSocket session.
pub fn ws_accept(id: u32) -> (r: Vec<u8>)
    ensures
        r@ == frame_with(FrameKind::ResponseHeaders, id, 101, seq![]),
{
    let none: Vec<u8> = Vec::new();
    assert(none@ =~= seq![]);
    let mut out: Vec<u8> = Vec::new();
    add_frame_with(&mut out, FrameKind::ResponseHeaders, id, 101, none.as_slice());
    assert(out@ =~= frame_with(FrameKind::ResponseHeaders, id, 101, seq![]));
    out
}

/// What a session does on what came.
#[derive(Debug, PartialEq, Eq)]
pub enum WsStep {
    Nothing,
    Send(Vec<u8>),
    /// Send this and end.
    Finish(Vec<u8>),
}

/// What a session does on what came, or on the end of the channel: it mirrors
/// messages, and ends on a close.
pub open spec fn is_ws_step(r: WsStep, id: u32, inbound: Option<Inbound>) -> bool {
    let ended = r matches WsStep::Finish(v) && v@ == frame(FrameKind::End, id, seq![]) + frame(
        FrameKind::Done,
        id,
        seq![],
    );
    match inbound {
        None => ended,
        Some(Inbound::Body(_)) => r is Nothing,
        Some(Inbound::Ws(op, payload)) => if op == WS_OP_TEXT || op == WS_OP_BINARY {
            r matches WsStep::Send(v) && v@ == frame_with(FrameKind::WsMessage, id, op, payload@)
        } else if op == WS_OP_CLOSE {
            ended
        } else {
            r is Nothing
        },
    }
}

/// Go on with a session.
pub fn ws_step(id: u32, inbound: &Option<Inbound>) -> (r: WsStep)
    requires
        *inbound matches Some(Inbound::Ws(_, payload)) ==> payload@.len() <= u32::MAX,
    ensures
        is_ws_step(r, id, *inbound),
{
    let mut out: Vec<u8> = Vec::new();
    match inbound {
        Some(Inbound::Body(_)) => {
            return WsStep::Nothing;
        },
        Some(Inbound::Ws(op, payload)) => {
            let op: u32 = *op;
            if op == WS_OP_TEXT || op == WS_OP_BINARY {
                add_frame_with(&mut out, FrameKind::WsMessage, id, op, payload.as_slice());
                assert(out@ =~= frame_with(FrameKind::WsMessage, id, op, payload@));
                return WsStep::Send(out);
            }
            if op != WS_OP_CLOSE {
                return WsStep::Nothing;
            }
        },
        None => {},
    }
    add_bare(&mut out, FrameKind::End, id);
    assert(out@ =~= frame(FrameKind::End, id, seq![]));
    add_bare(&mut out, FrameKind::Done, id);
    WsStep::Finish(out)
}

/// The requests that a worker has at hand.
pub struct Tasks {
    /// Those that frames may follow.
    routes: BTreeMap<u32, bool>,
    /// Those whose handler runs.
    running: BTreeMap<u32, bool>,
}

/// The requests at hand.
#[verifier::ext_equal]
pub struct TasksModel {
    pub routes: Set<u32>,
    pub running: Set<u32>,
}

impl View for Tasks {
    type V = TasksModel;

    closed spec fn view(&self) -> TasksModel {
        TasksModel { routes: self.routes@.dom(), running: self.running@.dom() }
    }
}

/// What a frame from the router leads to.
#[derive(Debug, PartialEq, Eq)]
pub enum Routed {
    Nothing,
    /// Hand this to the request.
    Deliver(u32, Inbound),
    /// Answer with these frames.
    Answer(Vec<u8>),
    /// Stop the request's handler, then answer with these frames.
    Cancel(u32, Vec<u8>),
}

/// What a frame from the router leads to.
pub open spec fn is_routed(r: Routed, t: TasksModel, h: FrameHeader, payload: Seq<u8>) -> bool {
    let id = h.request_id;
    match h.kind {
        FrameKind::RequestBody => if t.routes.contains(id) {
            r matches Routed::Deliver(i, Inbound::Body(v)) && i == id && v@ == payload
        } else {
            r is Nothing
        },
        FrameKind::WsMessage => if t.routes.contains(id) {
            r matches Routed::Deliver(i, Inbound::Ws(op, v)) && i == id && op == h.aux && v@
                == payload
        } else {
            r is Nothing
        },
        FrameKind::Ping => r matches Routed::Answer(v) && v@ == frame_with(
            FrameKind::Pong,
            id,
            probe_answer(t.running.contains(id)),
            seq![],
        ),
        FrameKind::Abort => if t.running.contains(id) {
            r matches Routed::Cancel(i, v) && i == id && v@ == frame(FrameKind::Done, id, seq![])
        } else {
            r is Nothing
        },
        _ => r is Nothing,
    }
}

/// The requests at hand once the router has sent a frame.
pub open spec fn tasks_after(t: TasksModel, h: FrameHeader) -> TasksModel {
    if h.kind == FrameKind::Abort && t.running.contains(h.request_id) {
        TasksModel {
            routes: t.routes.remove(h.request_id),
            running: t.running.remove(h.request_id),
        }
    } else {
        t
    }
}

impl Tasks {
    pub fn new() -> (r: Self)
        ensures
            r@ == (TasksModel { routes: Set::empty(), running: Set::empty() }),
    {
        let r = Tasks { routes: BTreeMap::new(), running: BTreeMap::new() };
        assert(r@ =~= (TasksModel { routes: Set::empty(), running: Set::empty() }));
        r
    }

    /// Frames may follow this request. Said before the request is claimed, so
    /// that none is lost.
    pub fn expect(&mut self, id: u32)
        ensures
            final(self)@ == (TasksModel { routes: old(self)@.routes.insert(id), ..old(self)@ }),
    {
        self.routes.insert(id, true);
        assert(self@ =~= (TasksModel { routes: old(self)@.routes.insert(id), ..old(self)@ }));
    }

    /// The request's handler runs.
    pub fn started(&mut self, id: u32)
        ensures
            final(self)@ == (TasksModel { running: old(self)@.running.insert(id), ..old(self)@ }),
    {
        self.running.insert(id, true);
        assert(self@ =~= (TasksModel { running: old(self)@.running.insert(id), ..old(self)@ }));
    }

    /// The request is done with.
    pub fn finished(&mut self, id: u32)
        ensures
            final(self)@ == (TasksModel {
                routes: old(self)@.routes.remove(id),
                running: old(self)@.running.remove(id),
            }),
    {
        self.routes.remove(&id);
        self.running.remove(&id);
        assert(self@ =~= (TasksModel {
            routes: old(self)@.routes.remove(id),
            running: old(self)@.running.remove(id),
        }));
    }

    /// Take in a frame from the router.
    pub fn route(&mut self, h: &FrameHeader, payload: Vec<u8>) -> (r: Routed)
        ensures
            is_routed(r, old(self)@, *h, payload@),
            final(self)@ == tasks_after(old(self)@, *h),
    {
        let id: u32 = h.request_id;
        match h.kind {
            FrameKind::RequestBody => if self.routes.contains_key(&id) {
                Routed::Deliver(id, Inbound::Body(payload))
            } else {
                Routed::Nothing
            },
            FrameKind::WsMessage => if self.routes.contains_key(&id) {
                Routed::Deliver(id, Inbound::Ws(h.aux, payload))
            } else {
                Routed::Nothing
            },
            FrameKind::Ping => {
                let status: u32 = if self.running.contains_key(&id) {
                    PONG_BUSY
                } else {
                    PONG_IDLE
                };
                let none: Vec<u8> = Vec::new();
                assert(none@ =~= seq![]);
                let mut out: Vec<u8> = Vec::new();
                add_frame_with(&mut out, FrameKind::Pong, id, status, none.as_slice());
                assert(out@ =~= frame_with(FrameKind::Pong, id, status, seq![]));
                Routed::Answer(out)
            },
            FrameKind::Abort => {
                if !self.running.contains_key(&id) {
                    return Routed::Nothing;
                }
                self.finished(id);
                let mut out: Vec<u8> = Vec::new();
                add_bare(&mut out, FrameKind::Done, id);
                assert(out@ =~= frame(FrameKind::Done, id, seq![]));
                Routed::Cancel(id, out)
            },
            _ => Routed::Nothing,
        }
    }
}

/// A request that the router gave up is over: a probe of it finds the worker
/// idle, nothing more is delivered to it, and giving it up again does nothing.
pub proof fn aborted_task_is_over(
    t: TasksModel,
    h: FrameHeader,
    next: FrameHeader,
    payload: Seq<u8>,
    r: Routed,
)
    requires
        h.kind == FrameKind::Abort,
        t.running.contains(h.request_id),
        next.request_id == h.request_id,
        is_routed(r, tasks_after(t, h), next, payload),
    ensures
        next.kind == FrameKind::Ping ==> (r matches Routed::Answer(v) && v@ == frame_with(
            FrameKind::Pong,
            h.request_id,
            PONG_IDLE,
            seq![],
        )),
        next.kind != FrameKind::Ping ==> r is Nothing,
        tasks_after(tasks_after(t, h), next) == tasks_after(t, h),
{
}

/// The pieces of a body, put together.
pub open spec fn whole(chunks: Seq<Vec<u8>>) -> Seq<u8>
    decreases chunks.len(),
{
    if chunks.len() == 0 {
        seq![]
    } else {
        chunks[0]@ + whole(chunks.subrange(1, chunks.len() as int))
    }
}

/// What has become of a body once pieces have come.
pub open spec fn collected(body: Seq<u8>, total: u64, chunks: Seq<Vec<u8>>) -> Collected
    decreases chunks.len(),
{
    if chunks.len() == 0 {
        Collected::More
    } else {
        match collects(body, total, Some(Inbound::Body(chunks[0]))) {
            Collected::More => collected(
                body + chunks[0]@,
                total,
                chunks.subrange(1, chunks.len() as int),
            ),
            done => done,
        }
    }
}

/// A body that comes whole, in pieces that are not empty, is what the pieces
/// make, however it was cut.
pub proof fn streamed_body_is_whole(body: Seq<u8>, total: u64, chunks: Seq<Vec<u8>>)
    requires
        chunks.len() > 0,
        forall|i: int| 0 <= i < chunks.len() ==> (#[trigger] chunks[i])@.len() > 0,
        body.len() + whole(chunks).len() == total,
    ensures
        collected(body, total, chunks) == Collected::Whole(body + whole(chunks)),
    decreases chunks.len(),
{
    let rest = chunks.subrange(1, chunks.len() as int);
    assert(chunks[0]@.len() > 0);
    if rest.len() > 0 {
        assert forall|i: int| 0 <= i < rest.len() implies (#[trigger] rest[i])@.len() > 0 by {
            assert(rest[i] == chunks[i + 1]);
        }
        assert(rest[0]@.len() > 0);
        assert(body + chunks[0]@ + whole(rest) =~= body + whole(chunks));
        streamed_body_is_whole(body + chunks[0]@, total, rest);
    } else {
        assert(whole(chunks) =~= chunks[0]@);
    }
}

} // verus!
