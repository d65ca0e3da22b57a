//! The response of an application: from a worker's events to the bytes that
//! the client gets.
//!
//! A response that ends while it is small goes out with its length; one that
//! is flushed or grows large is sent in chunks.

use vstd::prelude::*;
use vstd::string::*;

use crate::bytes::{
    dec, eq_ignore_case, find_byte, lowered, pieces, push_bytes, push_str, split, text, to_vec,
    until, views,
};
use crate::router::dispatch::{DispatchError, WorkerEvent};
use crate::router::http1::head::{
    chunk_bytes, close_line, header_line, is_named, named_by, own_line, push_close, push_header,
    push_length, push_own, push_set, push_status_line, set_lines, simple_bytes, status_line,
    write_chunk, write_simple, Ops,
};
use crate::router::http1::submit::refusal_status;
use crate::router::routes::op_views;
use crate::text::{push_relayed, relayed};

verus! {

/// How much of a response is held back before it is sent in chunks.
pub const STREAM_THRESHOLD: usize = 262144;

/// The name part of a header line.
pub open spec fn line_name(line: Seq<u8>) -> Seq<u8> {
    until(line, 58)
}

/// Headers that say how the message is framed; they are the router's.
pub open spec fn is_framing(line: Seq<u8>) -> bool {
    let name = lowered(line_name(line));
    ||| name == lowered(text("content-length"))
    ||| name == lowered(text("transfer-encoding"))
    ||| name == lowered(text("connection"))
}

/// Headers of an upgrade that are the router's.
pub open spec fn is_handshake(line: Seq<u8>) -> bool {
    let name = lowered(line_name(line));
    name == lowered(text("upgrade")) || name == lowered(text("sec-websocket-accept"))
}

fn name_of(line: &[u8]) -> (r: &[u8])
    ensures
        r@ == line_name(line@),
{
    match find_byte(58, line) {
        Some(i) => &line[0..i],
        None => line,
    }
}

pub fn framing_header(line: &[u8]) -> (r: bool)
    ensures
        r == is_framing(line@),
{
    let name = name_of(line);
    eq_ignore_case(name, "content-length".as_bytes()) || eq_ignore_case(
        name,
        "transfer-encoding".as_bytes(),
    ) || eq_ignore_case(name, "connection".as_bytes())
}

pub fn handshake_header(line: &[u8]) -> (r: bool)
    ensures
        r == is_handshake(line@),
{
    let name = name_of(line);
    eq_ignore_case(name, "upgrade".as_bytes()) || eq_ignore_case(
        name,
        "sec-websocket-accept".as_bytes(),
    )
}

/// A line without the carriage return at its end.
pub open spec fn bare_line(line: Seq<u8>) -> Seq<u8> {
    if line.len() > 0 && line.last() == 13 {
        line.drop_last()
    } else {
        line
    }
}

/// Whether a worker's header line is passed on.
pub open spec fn passes(
    line: Seq<u8>,
    ops: Seq<(Seq<char>, Option<Seq<char>>)>,
    upgrade: bool,
) -> bool {
    &&& line.len() > 0
    &&& !is_framing(line)
    &&& !(upgrade && is_handshake(line))
    &&& !named_by(ops, line_name(line))
}

/// A worker's header lines as they are passed on.
pub open spec fn worker_lines(
    lines: Seq<Seq<u8>>,
    ops: Seq<(Seq<char>, Option<Seq<char>>)>,
    upgrade: bool,
) -> Seq<u8>
    decreases lines.len(),
{
    if lines.len() == 0 {
        seq![]
    } else {
        let before = worker_lines(lines.drop_last(), ops, upgrade);
        let line = bare_line(lines.last());
        if passes(line, ops, upgrade) {
            before + (relayed(line) + text("\r\n"))
        } else {
            before
        }
    }
}

fn push_worker_lines(out: &mut Vec<u8>, block: &[u8], ops: &Ops<'_>, upgrade: bool)
    ensures
        final(out)@ == old(out)@ + worker_lines(pieces(block@, 10), op_views(ops@), upgrade),
{
    let lines = split(block, 10);
    let ghost all = views(lines@);
    let ghost was = out@;
    let ghost o = op_views(ops@);
    let mut i: usize = 0;
    assert(out@ =~= was + worker_lines(all.take(0), o, upgrade));
    while i < lines.len()
        invariant
            i <= lines@.len(),
            all == views(lines@),
            o == op_views(ops@),
            out@ == was + worker_lines(all.take(i as int), o, upgrade),
        decreases lines@.len() - i,
    {
        let whole = lines[i].as_slice();
        proof {
            assert(all.take(i + 1).drop_last() =~= all.take(i as int));
            assert(all.take(i + 1).last() == whole@);
        }
        let line: &[u8] = if whole.len() > 0 && whole[whole.len() - 1] == 13 {
            &whole[0..whole.len() - 1]
        } else {
            whole
        };
        assert(line@ =~= bare_line(whole@));
        let pass = line.len() > 0 && !framing_header(line) && !(upgrade && handshake_header(line))
            && !is_named(ops, name_of(line));
        let ghost before = out@;
        if pass {
            push_relayed(out, line);
            push_str(out, "\r\n");
        }
        proof {
            let prefix = worker_lines(all.take(i as int), o, upgrade);
            if pass {
                let one = relayed(line@) + text("\r\n");
                assert(out@ =~= was + (prefix + one));
            }
        }
        i += 1;
    }
    assert(all.take(i as int) =~= all);
}

/// What shapes a response besides the worker's events.
pub struct ReplyContext<'a> {
    pub server: &'a str,
    pub ops: &'a Ops<'a>,
    pub keep_alive: bool,
    /// The request offered an upgrade, and the workers take them.
    pub upgrade: bool,
}

/// The head of a response, without its framing and its end.
pub open spec fn reply_head(status: u16, block: Seq<u8>, ctx: ReplyContext<'_>) -> Seq<u8> {
    let ops = op_views(ctx.ops@);
    status_line(status) + own_line(text("server"), text(ctx.server), ops) + worker_lines(
        pieces(block, 10),
        ops,
        false,
    ) + set_lines(ops) + close_line(ctx.keep_alive)
}

fn write_head(status: u16, block: &[u8], ctx: &ReplyContext<'_>) -> (r: Vec<u8>)
    ensures
        r@ == reply_head(status, block@, *ctx),
{
    let mut out: Vec<u8> = Vec::new();
    push_status_line(&mut out, status);
    assert(out@ =~= status_line(status));
    push_own(&mut out, "server".as_bytes(), ctx.server.as_bytes(), ctx.ops);
    push_worker_lines(&mut out, block, ctx.ops, false);
    push_set(&mut out, ctx.ops);
    push_close(&mut out, ctx.keep_alive);
    out
}

/// A whole response with its length.
pub open spec fn sized_reply(
    status: u16,
    block: Seq<u8>,
    body: Seq<u8>,
    ctx: ReplyContext<'_>,
) -> Seq<u8> {
    reply_head(status, block, ctx) + header_line(text("content-length"), dec(body.len())) + text(
        "\r\n",
    ) + body
}

/// The beginning of a response that is sent in chunks.
pub open spec fn chunked_start(
    status: u16,
    block: Seq<u8>,
    body: Seq<u8>,
    ctx: ReplyContext<'_>,
) -> Seq<u8> {
    reply_head(status, block, ctx) + text("transfer-encoding: chunked\r\n\r\n") + chunk_bytes(body)
}

fn write_sized(status: u16, block: &[u8], body: &[u8], ctx: &ReplyContext<'_>) -> (r: Vec<u8>)
    ensures
        r@ == sized_reply(status, block@, body@, *ctx),
{
    let mut out = write_head(status, block, ctx);
    push_length(&mut out, body.len() as u64);
    push_str(&mut out, "\r\n");
    push_bytes(&mut out, body);
    out
}

fn write_chunked_start(status: u16, block: &[u8], body: &[u8], ctx: &ReplyContext<'_>) -> (r: Vec<
    u8,
>)
    ensures
        r@ == chunked_start(status, block@, body@, *ctx),
{
    let mut out = write_head(status, block, ctx);
    push_str(&mut out, "transfer-encoding: chunked\r\n\r\n");
    write_chunk(&mut out, body);
    out
}

/// How far a response has come.
#[derive(Debug)]
pub enum Reply {
    /// The request is in the queue; no worker has claimed it.
    Queued,
    /// A worker has claimed the request; nothing has come.
    Waiting,
    /// The head has come, and part of the body; nothing is sent.
    Held { status: u16, headers: Vec<u8>, body: Vec<u8> },
    /// The head is sent, the body goes out in chunks.
    Streaming { status: u16 },
}

/// What a response waits for.
#[derive(Debug)]
pub enum ReplyInput {
    /// A worker has claimed the request.
    Claimed,
    Event(WorkerEvent),
    /// The worker's events have ended without an end of the response.
    Closed,
    /// Nothing came in time.
    Stalled,
    /// The client takes no more: what was sent last did not reach it.
    Lost,
}

/// What to do next.
#[derive(Debug)]
pub enum ReplyStep {
    /// Wait for the next event.
    Wait,
    /// Send this and wait for the next event.
    Send(Vec<u8>),
    /// Send this; the response is complete.
    Finish { bytes: Vec<u8>, status: u16 },
    /// Send this in place of a response: the application gave none. What is left
    /// of the request's body is not read for it.
    Refuse { bytes: Vec<u8>, status: u16 },
    /// Send this; the response is broken off and the connection with it.
    Break { bytes: Vec<u8>, status: u16 },
    /// The application accepts the upgrade, with these header lines.
    Upgrade { headers: Vec<u8> },
}

/// What a step does, as a mathematical value.
pub enum StepModel {
    Wait,
    Send(Seq<u8>),
    Finish(Seq<u8>, u16),
    Refuse(Seq<u8>, u16),
    Break(Seq<u8>, u16),
    Upgrade(Seq<u8>),
}

impl View for ReplyStep {
    type V = StepModel;

    open spec fn view(&self) -> StepModel {
        match self {
            ReplyStep::Wait => StepModel::Wait,
            ReplyStep::Send(b) => StepModel::Send(b@),
            ReplyStep::Finish { bytes, status } => StepModel::Finish(bytes@, *status),
            ReplyStep::Refuse { bytes, status } => StepModel::Refuse(bytes@, *status),
            ReplyStep::Break { bytes, status } => StepModel::Break(bytes@, *status),
            ReplyStep::Upgrade { headers } => StepModel::Upgrade(headers@),
        }
    }
}

pub enum ReplyModel {
    Queued,
    Waiting,
    Held(u16, Seq<u8>, Seq<u8>),
    Streaming(u16),
}

impl View for Reply {
    type V = ReplyModel;

    open spec fn view(&self) -> ReplyModel {
        match self {
            Reply::Queued => ReplyModel::Queued,
            Reply::Waiting => ReplyModel::Waiting,
            Reply::Held { status, headers, body } => ReplyModel::Held(*status, headers@, body@),
            Reply::Streaming { status } => ReplyModel::Streaming(*status),
        }
    }
}

pub open spec fn plain_answer(status: u16, reason: Seq<u8>, ctx: ReplyContext<'_>) -> StepModel {
    StepModel::Refuse(simple_bytes(text(ctx.server), status, reason, ctx.keep_alive), status)
}

/// The next state of a response and what to do. A request that no worker
/// claims in time was never served: the server is overloaded. One that a
/// worker claimed and then left without output is the worker's timeout.
pub open spec fn reply_step(
    r: ReplyModel,
    input: ReplyInput,
    ctx: ReplyContext<'_>,
) -> (ReplyModel, StepModel) {
    match r {
        ReplyModel::Queued | ReplyModel::Waiting => match input {
            ReplyInput::Claimed => (ReplyModel::Waiting, StepModel::Wait),
            ReplyInput::Event(WorkerEvent::Headers { status, headers }) => if status != 101 {
                (ReplyModel::Held(status, headers@, seq![]), StepModel::Wait)
            } else if ctx.upgrade {
                (r, StepModel::Upgrade(headers@))
            } else {
                (r, plain_answer(502, text("Bad Gateway"), ctx))
            },
            ReplyInput::Stalled => if r is Queued {
                (r, plain_answer(503, text("Service Unavailable"), ctx))
            } else {
                (r, plain_answer(504, text("Gateway Timeout"), ctx))
            },
            ReplyInput::Lost => (r, StepModel::Break(seq![], 502)),
            _ => (r, plain_answer(502, text("Bad Gateway"), ctx)),
        },
        ReplyModel::Held(status, block, body) => match input {
            ReplyInput::Event(WorkerEvent::Chunk(c)) => {
                let all = body + c@;
                if all.len() > STREAM_THRESHOLD {
                    (
                        ReplyModel::Streaming(status),
                        StepModel::Send(chunked_start(status, block, all, ctx)),
                    )
                } else {
                    (ReplyModel::Held(status, block, all), StepModel::Wait)
                }
            },
            ReplyInput::Event(WorkerEvent::Flush) => (
                ReplyModel::Streaming(status),
                StepModel::Send(chunked_start(status, block, body, ctx)),
            ),
            ReplyInput::Event(WorkerEvent::End) => (
                r,
                StepModel::Finish(sized_reply(status, block, body, ctx), status),
            ),
            ReplyInput::Event(WorkerEvent::Failed(_)) | ReplyInput::Closed => (
                r,
                StepModel::Break(sized_reply(status, block, body, ctx), status),
            ),
            ReplyInput::Stalled => (r, plain_answer(504, text("Gateway Timeout"), ctx)),
            ReplyInput::Lost => (r, StepModel::Break(seq![], status)),
            _ => (r, StepModel::Wait),
        },
        ReplyModel::Streaming(status) => match input {
            ReplyInput::Event(WorkerEvent::Chunk(c)) => (r, StepModel::Send(chunk_bytes(c@))),
            ReplyInput::Event(WorkerEvent::End) => (
                r,
                StepModel::Finish(text("0\r\n\r\n"), status),
            ),
            ReplyInput::Event(WorkerEvent::Failed(_))
            | ReplyInput::Closed
            | ReplyInput::Stalled
            | ReplyInput::Lost => (r, StepModel::Break(seq![], status)),
            _ => (r, StepModel::Wait),
        },
    }
}

/// Whether the worker that claimed the request is told to abort it: the worker
/// has stalled, or the client is lost. A request that no worker has claimed
/// has none to be told.
pub open spec fn aborting(r: ReplyModel, input: ReplyInput) -> bool {
    !(r is Queued) && (input is Stalled || input is Lost)
}

/// A stall fails the request and not the worker. While the client still waits for
/// the head, it is answered 504 and the worker that claimed the request is told
/// to abort; once the response is streamed, it is broken off and the worker is
/// told the same. A request that no worker has claimed is answered 503, and none
/// is told.
pub proof fn a_stall_aborts_what_was_claimed(r: ReplyModel, ctx: ReplyContext<'_>)
    ensures
        ({
            let (next, step) = reply_step(r, ReplyInput::Stalled, ctx);
            &&& next == r
            &&& aborting(r, ReplyInput::Stalled) == !(r is Queued)
            &&& match r {
                ReplyModel::Queued => step == plain_answer(503, text("Service Unavailable"), ctx),
                ReplyModel::Waiting | ReplyModel::Held(..) => step == plain_answer(
                    504,
                    text("Gateway Timeout"),
                    ctx,
                ),
                ReplyModel::Streaming(status) => step == StepModel::Break(seq![], status),
            }
        }),
{
}

fn answer(status: u16, reason: &str, ctx: &ReplyContext<'_>) -> (r: ReplyStep)
    ensures
        r@ == plain_answer(status, text(reason), *ctx),
{
    let mut bytes: Vec<u8> = Vec::new();
    write_simple(&mut bytes, ctx.server, status, reason, ctx.keep_alive);
    assert(bytes@ =~= simple_bytes(text(ctx.server), status, text(reason), ctx.keep_alive));
    ReplyStep::Refuse { bytes, status }
}

fn break_off(status: u16) -> (r: ReplyStep)
    ensures
        r@ == StepModel::Break(seq![], status),
{
    let bytes: Vec<u8> = Vec::new();
    assert(bytes@ =~= Seq::<u8>::empty());
    ReplyStep::Break { bytes, status }
}

impl Reply {
    pub fn new() -> (r: Self)
        ensures
            r@ == ReplyModel::Queued,
    {
        Reply::Queued
    }

    /// How many seconds to wait for the next event: `queue` until a worker
    /// claims the request, `next` while the response is awaited or held back,
    /// and `idle` once it is streamed, which may be silent for longer.
    pub fn patience(&self, queue: u64, next: u64, idle: u64) -> (r: u64)
        ensures
            r == match self@ {
                ReplyModel::Queued => queue,
                ReplyModel::Waiting | ReplyModel::Held(..) => next,
                ReplyModel::Streaming(_) => idle,
            },
    {
        match self {
            Reply::Queued => queue,
            Reply::Waiting | Reply::Held { .. } => next,
            Reply::Streaming { .. } => idle,
        }
    }

    /// Whether the worker is told to abort the request, on what is about to be
    /// taken in.
    pub fn aborts(&self, input: &ReplyInput) -> (r: bool)
        ensures
            r == aborting(self@, *input),
    {
        match self {
            Reply::Queued => false,
            _ => match input {
                ReplyInput::Stalled | ReplyInput::Lost => true,
                _ => false,
            },
        }
    }

    /// Take in what has happened. Bytes of the head and the body leave in
    /// order; nothing is held back once the response is streamed.
    pub fn step(&mut self, input: ReplyInput, ctx: &ReplyContext<'_>) -> (r: ReplyStep)
        ensures
            (final(self)@, r@) == reply_step(old(self)@, input, *ctx),
    {
        let mut state = Reply::Waiting;
        std::mem::swap(&mut state, self);
        match state {
            Reply::Queued => Self::step_early(self, true, input, ctx),
            Reply::Waiting => Self::step_early(self, false, input, ctx),
            Reply::Held { status, headers, body } => Self::step_held(
                self,
                status,
                headers,
                body,
                input,
                ctx,
            ),
            Reply::Streaming { status } => {
                *self = Reply::Streaming { status };
                match input {
                    ReplyInput::Event(WorkerEvent::Chunk(c)) => {
                        let mut bytes: Vec<u8> = Vec::new();
                        write_chunk(&mut bytes, c.as_slice());
                        assert(bytes@ =~= chunk_bytes(c@));
                        ReplyStep::Send(bytes)
                    },
                    ReplyInput::Event(WorkerEvent::End) => ReplyStep::Finish {
                        bytes: to_vec("0\r\n\r\n".as_bytes()),
                        status,
                    },
                    ReplyInput::Event(WorkerEvent::Failed(_)) | ReplyInput::Closed
                    | ReplyInput::Stalled | ReplyInput::Lost => break_off(status),
                    _ => ReplyStep::Wait,
                }
            },
        }
    }

    fn step_early(&mut self, queued: bool, input: ReplyInput, ctx: &ReplyContext<'_>) -> (r:
        ReplyStep)
        ensures
            (final(self)@, r@) == reply_step(
                if queued {
                    ReplyModel::Queued
                } else {
                    ReplyModel::Waiting
                },
                input,
                *ctx,
            ),
    {
        *self = if queued {
            Reply::Queued
        } else {
            Reply::Waiting
        };
        match input {
            ReplyInput::Claimed => {
                *self = Reply::Waiting;
                ReplyStep::Wait
            },
            ReplyInput::Event(WorkerEvent::Headers { status, headers }) => {
                if status != 101 {
                    let body: Vec<u8> = Vec::new();
                    assert(body@ =~= Seq::<u8>::empty());
                    *self = Reply::Held { status, headers, body };
                    ReplyStep::Wait
                } else if ctx.upgrade {
                    ReplyStep::Upgrade { headers }
                } else {
                    answer(502, "Bad Gateway", ctx)
                }
            },
            ReplyInput::Stalled => if queued {
                answer(refusal_status(DispatchError::QueueTimeout), "Service Unavailable", ctx)
            } else {
                answer(504, "Gateway Timeout", ctx)
            },
            ReplyInput::Lost => break_off(502),
            _ => answer(502, "Bad Gateway", ctx),
        }
    }

    fn step_held(
        &mut self,
        status: u16,
        headers: Vec<u8>,
        body: Vec<u8>,
        input: ReplyInput,
        ctx: &ReplyContext<'_>,
    ) -> (r: ReplyStep)
        ensures
            (final(self)@, r@) == reply_step(
                ReplyModel::Held(status, headers@, body@),
                input,
                *ctx,
            ),
    {
        let mut body = body;
        match input {
            ReplyInput::Event(WorkerEvent::Chunk(c)) => {
                push_bytes(&mut body, c.as_slice());
                if body.len() > STREAM_THRESHOLD {
                    let bytes = write_chunked_start(
                        status,
                        headers.as_slice(),
                        body.as_slice(),
                        ctx,
                    );
                    *self = Reply::Streaming { status };
                    ReplyStep::Send(bytes)
                } else {
                    *self = Reply::Held { status, headers, body };
                    ReplyStep::Wait
                }
            },
            ReplyInput::Event(WorkerEvent::Flush) => {
                let bytes = write_chunked_start(status, headers.as_slice(), body.as_slice(), ctx);
                *self = Reply::Streaming { status };
                ReplyStep::Send(bytes)
            },
            ReplyInput::Event(WorkerEvent::End) => {
                let bytes = write_sized(status, headers.as_slice(), body.as_slice(), ctx);
                *self = Reply::Held { status, headers, body };
                ReplyStep::Finish { bytes, status }
            },
            ReplyInput::Event(WorkerEvent::Failed(_)) | ReplyInput::Closed => {
                let bytes = write_sized(status, headers.as_slice(), body.as_slice(), ctx);
                *self = Reply::Held { status, headers, body };
                ReplyStep::Break { bytes, status }
            },
            ReplyInput::Stalled => {
                *self = Reply::Held { status, headers, body };
                answer(504, "Gateway Timeout", ctx)
            },
            ReplyInput::Lost => {
                *self = Reply::Held { status, headers, body };
                break_off(status)
            },
            _ => {
                *self = Reply::Held { status, headers, body };
                ReplyStep::Wait
            },
        }
    }
}

/// The head that completes an upgrade. The worker's header lines may add to
/// it, but the handshake is the router's.
pub open spec fn upgrade_head(
    server: Seq<u8>,
    accept: Seq<u8>,
    block: Seq<u8>,
    ops: Seq<(Seq<char>, Option<Seq<char>>)>,
) -> Seq<u8> {
    status_line(101) + own_line(text("server"), server, ops) + text(
        "upgrade: websocket\r\nconnection: upgrade\r\n",
    ) + header_line(text("sec-websocket-accept"), accept) + worker_lines(
        pieces(block, 10),
        ops,
        true,
    ) + set_lines(ops) + text("\r\n")
}

/// Write the head that completes an upgrade; `accept` answers the client's
/// key.
pub fn write_101(out: &mut Vec<u8>, server: &str, accept: &str, block: &[u8], ops: &Ops<'_>)
    ensures
        final(out)@ == old(out)@ + upgrade_head(
            text(server),
            text(accept),
            block@,
            op_views(ops@),
        ),
{
    let mut head: Vec<u8> = Vec::new();
    push_status_line(&mut head, 101);
    assert(head@ =~= status_line(101));
    push_own(&mut head, "server".as_bytes(), server.as_bytes(), ops);
    push_str(&mut head, "upgrade: websocket\r\nconnection: upgrade\r\n");
    push_header(&mut head, "sec-websocket-accept".as_bytes(), accept.as_bytes());
    push_worker_lines(&mut head, block, ops, true);
    push_set(&mut head, ops);
    push_str(&mut head, "\r\n");
    push_bytes(out, head.as_slice());
}

} // verus!
