//! What a client gets of an application's response.

use vstd::prelude::*;
use vstd::string::*;
use vstd::utf8::{encode_utf8, is_ascii_chars_encode_utf8, valid_utf8};

use crate::bytes::{dec, lowered, pieces, text};
use crate::laws::lines::{
    alike, ended, has_name, lemma_alike, lemma_ended_joins, lemma_ended_one, lemma_has_name,
    lemma_pieces_of_lines, plain_lines,
};
use crate::router::dispatch::WorkerEvent;
use crate::router::http1::chunked::{
    contents, dechunked, joined, response_carries_its_body, sent, stream_carries_its_pieces,
    streamed,
};
use crate::router::http1::head::{
    close_line, header_line, named_by, own_line, phrase, phrased_line, response_bytes, return_bytes,
    reason_phrase, set_lines, simple_bytes, write_response, write_return, write_simple, Ops,
};
use crate::router::http1::reply::{
    bare_line, chunked_start, passes, reply_head, reply_step, sized_reply, upgrade_head,
    worker_lines, write_101, Reply, ReplyContext, ReplyInput, ReplyModel, ReplyStep, StepModel,
};
use crate::router::routes::op_views;
use crate::text::relayed;

verus! {

/// What is done to the headers of a response: each name with the value to set,
/// or without one to remove it.
pub type Changes = Seq<(Seq<char>, Option<Seq<char>>)>;

/// Whether a line of the worker's reaches the client. The framing is the
/// router's, and so is the handshake of an upgrade; a header that is changed
/// does not come from the worker.
pub open spec fn reaches(line: Seq<u8>, changes: Changes, upgrade: bool) -> bool {
    &&& line.len() > 0
    &&& !has_name(line, text("content-length"))
    &&& !has_name(line, text("transfer-encoding"))
    &&& !has_name(line, text("connection"))
    &&& upgrade ==> !has_name(line, text("upgrade")) && !has_name(
        line,
        text("sec-websocket-accept"),
    )
    &&& forall|i: int|
        0 <= i < changes.len() ==> !has_name(line, encode_utf8((#[trigger] changes[i]).0))
}

/// The worker's lines that reach the client, in the worker's order.
pub open spec fn passed_on(lines: Seq<Seq<u8>>, changes: Changes, upgrade: bool) -> Seq<Seq<u8>> {
    lines.filter(|l: Seq<u8>| reaches(l, changes, upgrade)).map_values(|l: Seq<u8>| relayed(l))
}

/// A header as a line.
pub open spec fn said(name: Seq<u8>, value: Seq<u8>) -> Seq<u8> {
    name + text(": ") + value
}

/// A header of the router's own, unless it is changed.
pub open spec fn own(name: Seq<u8>, value: Seq<u8>, changes: Changes) -> Seq<Seq<u8>> {
    if exists|i: int|
        0 <= i < changes.len() && alike(
            encode_utf8((#[trigger] changes[i]).0),
            name,
        ) {
        seq![]
    } else {
        seq![said(name, value)]
    }
}

/// The headers that are set.
pub open spec fn set_headers(changes: Changes) -> Seq<Seq<u8>> {
    changes.filter(|c: (Seq<char>, Option<Seq<char>>)| c.1 is Some).map_values(
        |c: (Seq<char>, Option<Seq<char>>)| said(encode_utf8(c.0), encode_utf8(c.1->0)),
    )
}

/// Whether the client is told that the connection ends.
pub open spec fn farewell(keep_alive: bool) -> Seq<Seq<u8>> {
    if keep_alive {
        seq![]
    } else {
        seq![text("connection: close")]
    }
}

/// The first line of a response.
pub open spec fn first_line(status: u16, reason: Seq<u8>) -> Seq<u8> {
    text("HTTP/1.1 ") + dec(status as nat) + text(" ") + reason
}

pub proof fn lemma_crlf()
    ensures
        text("\r\n") == seq![13u8, 10u8],
{
    reveal_strlit("\r\n");
    is_ascii_chars_encode_utf8("\r\n"@);
    assert(text("\r\n") =~= seq![13u8, 10u8]);
}

proof fn lemma_passes(line: Seq<u8>, changes: Changes, upgrade: bool)
    ensures
        passes(line, changes, upgrade) == reaches(line, changes, upgrade),
{
    lemma_has_name(line, text("content-length"));
    lemma_has_name(line, text("transfer-encoding"));
    lemma_has_name(line, text("connection"));
    lemma_has_name(line, text("upgrade"));
    lemma_has_name(line, text("sec-websocket-accept"));
    let name = crate::bytes::until(line, 58);
    assert forall|i: int| 0 <= i < changes.len() implies has_name(
        line,
        encode_utf8((#[trigger] changes[i]).0),
    ) == (lowered(encode_utf8(changes[i].0)) == lowered(name)) by {
        lemma_has_name(line, encode_utf8(changes[i].0));
    }
    if named_by(changes, name) {
        let i = choose|i: int|
            0 <= i < changes.len() && lowered(encode_utf8((#[trigger] changes[i]).0)) == lowered(
                name,
            );
        assert(has_name(line, encode_utf8(changes[i].0)));
    }
}

#[verifier::spinoff_prover]
#[verifier::rlimit(50)]
proof fn lemma_worker_lines(lines: Seq<Seq<u8>>, changes: Changes, upgrade: bool)
    requires
        plain_lines(lines),
    ensures
        worker_lines(lines.map_values(|l: Seq<u8>| l.push(13)), changes, upgrade) == ended(
            passed_on(lines, changes, upgrade),
        ),
    decreases lines.len(),
{
    reveal(Seq::filter);
    let f = |l: Seq<u8>| l.push(13u8);
    let all = lines.map_values(f);
    let out = passed_on(lines, changes, upgrade);
    if lines.len() == 0 {
        assert(worker_lines(all, changes, upgrade) =~= seq![]);
        assert(out.len() == 0);
    } else {
        let init = lines.drop_last();
        let last = lines.last();
        assert(lines[lines.len() - 1] == last);
        assert forall|i: int| 0 <= i < init.len() implies !(#[trigger] init[i]).contains(10) && (
        init[i].len() > 0 ==> init[i].last() != 13) by {
            assert(init[i] == lines[i]);
        }
        lemma_worker_lines(init, changes, upgrade);
        assert(all.drop_last() =~= init.map_values(f));
        assert(all.last() == last.push(13));
        assert(bare_line(last.push(13)) =~= last);
        lemma_passes(last, changes, upgrade);
        lemma_crlf();
        let before = passed_on(init, changes, upgrade);
        if reaches(last, changes, upgrade) {
            assert(out =~= before.push(relayed(last)));
            assert(out.drop_last() =~= before);
            assert(ended(out) =~= ended(before) + (relayed(last) + text("\r\n")));
        } else {
            assert(out =~= before);
        }
    }
}

pub proof fn lemma_block(lines: Seq<Seq<u8>>, changes: Changes, upgrade: bool)
    requires
        plain_lines(lines),
    ensures
        worker_lines(pieces(ended(lines), 10), changes, upgrade) == ended(
            passed_on(lines, changes, upgrade),
        ),
{
    let f = |l: Seq<u8>| l.push(13u8);
    lemma_pieces_of_lines(lines);
    let all = lines.map_values(f);
    let ps = all.push(seq![]);
    assert(ps.drop_last() =~= all);
    assert(bare_line(ps.last()).len() == 0);
    lemma_worker_lines(lines, changes, upgrade);
}

pub proof fn lemma_own(name: Seq<u8>, value: Seq<u8>, changes: Changes)
    ensures
        own_line(name, value, changes) == ended(own(name, value, changes)),
{
    lemma_crlf();
    assert forall|i: int| 0 <= i < changes.len() implies (lowered(
        encode_utf8((#[trigger] changes[i]).0),
    ) == lowered(name)) == alike(encode_utf8(changes[i].0), name) by {
        lemma_alike(encode_utf8(changes[i].0), name);
    }
    if named_by(changes, name) {
        let i = choose|i: int|
            0 <= i < changes.len() && lowered(encode_utf8((#[trigger] changes[i]).0)) == lowered(
                name,
            );
        assert(alike(encode_utf8(changes[i].0), name));
        assert(ended(own(name, value, changes)) =~= seq![]);
    } else {
        assert forall|i: int| 0 <= i < changes.len() implies !alike(
            encode_utf8((#[trigger] changes[i]).0),
            name,
        ) by {
            assert(lowered(encode_utf8(changes[i].0)) != lowered(name));
        }
        lemma_ended_one(said(name, value));
        assert(header_line(name, value) =~= ended(own(name, value, changes)));
    }
}

pub proof fn lemma_header(name: Seq<u8>, value: Seq<u8>)
    ensures
        header_line(name, value) == ended(seq![said(name, value)]),
{
    lemma_crlf();
    lemma_ended_one(said(name, value));
    assert(header_line(name, value) =~= ended(seq![said(name, value)]));
}

pub proof fn lemma_set(changes: Changes)
    ensures
        set_lines(changes) == ended(set_headers(changes)),
    decreases changes.len(),
{
    reveal(Seq::filter);
    let out = set_headers(changes);
    if changes.len() == 0 {
        assert(out.len() == 0);
        assert(set_lines(changes) =~= ended(out));
    } else {
        lemma_set(changes.drop_last());
        let before = set_headers(changes.drop_last());
        match changes.last().1 {
            Some(v) => {
                let line = said(encode_utf8(changes.last().0), encode_utf8(v));
                assert(out =~= before.push(line));
                assert(before.push(line) =~= before + seq![line]);
                lemma_ended_joins(before, seq![line]);
                lemma_header(encode_utf8(changes.last().0), encode_utf8(v));
            },
            None => {
                assert(out =~= before);
            },
        }
    }
}

pub proof fn lemma_farewell(keep_alive: bool)
    ensures
        close_line(keep_alive) == ended(farewell(keep_alive)),
{
    if !keep_alive {
        reveal_strlit("connection: close");
        reveal_strlit("connection: close\r\n");
        is_ascii_chars_encode_utf8("connection: close"@);
        is_ascii_chars_encode_utf8("connection: close\r\n"@);
        lemma_ended_one(text("connection: close"));
        assert(text("connection: close\r\n") =~= text("connection: close") + seq![13u8, 10u8]);
    } else {
        assert(ended(farewell(keep_alive)) =~= seq![]);
    }
}

pub proof fn lemma_first_line(status: u16, reason: Seq<u8>)
    ensures
        phrased_line(status, reason) == ended(
            seq![first_line(status, reason)],
        ),
{
    lemma_crlf();
    lemma_ended_one(first_line(status, reason));
    assert(phrased_line(status, reason) =~= ended(
        seq![first_line(status, reason)],
    ));
}

/// A line that is valid UTF-8 is passed on byte for byte.
pub proof fn valid_lines_are_passed_on_as_they_are(
    lines: Seq<Seq<u8>>,
    changes: Changes,
    upgrade: bool,
    i: int,
)
    requires
        0 <= i < passed_on(lines, changes, upgrade).len(),
        forall|j: int| 0 <= j < lines.len() ==> valid_utf8(#[trigger] lines[j]),
    ensures
        lines.contains(passed_on(lines, changes, upgrade)[i]),
        reaches(passed_on(lines, changes, upgrade)[i], changes, upgrade),
{
    broadcast use {vstd::seq_lib::group_seq_properties, vstd::seq_lib::group_filter_ensures};

    let pred = |l: Seq<u8>| reaches(l, changes, upgrade);
    let kept = lines.filter(pred);
    lines.lemma_filter_contains_rev(pred, kept[i]);
    let j = choose|j: int| 0 <= j < lines.len() && lines[j] == kept[i];
    assert(valid_utf8(lines[j]));
}

/// A message: its head lines, an empty line, and its body.
pub open spec fn message(head: Seq<Seq<u8>>, body: Seq<u8>) -> Seq<u8> {
    ended(head) + seq![13u8, 10u8] + body
}

/// The head lines of a response that an application gives.
pub open spec fn answer_lines(
    status: u16,
    lines: Seq<Seq<u8>>,
    server: Seq<u8>,
    changes: Changes,
    keep_alive: bool,
) -> Seq<Seq<u8>> {
    seq![first_line(status, encode_utf8(phrase(status)))] + own(text("server"), server, changes)
        + passed_on(lines, changes, false) + set_headers(changes) + farewell(keep_alive)
}

#[verifier::spinoff_prover]
#[verifier::rlimit(50)]
proof fn lemma_reply_head(status: u16, lines: Seq<Seq<u8>>, ctx: ReplyContext<'_>)
    requires
        plain_lines(lines),
    ensures
        reply_head(status, ended(lines), ctx) == ended(
            answer_lines(status, lines, text(ctx.server), op_views(ctx.ops@), ctx.keep_alive),
        ),
{
    let changes = op_views(ctx.ops@);
    let a = seq![first_line(status, encode_utf8(phrase(status)))];
    let b = own(text("server"), text(ctx.server), changes);
    let c = passed_on(lines, changes, false);
    let d = set_headers(changes);
    let e = farewell(ctx.keep_alive);
    lemma_first_line(status, encode_utf8(phrase(status)));
    lemma_own(text("server"), text(ctx.server), changes);
    lemma_block(lines, changes, false);
    lemma_set(changes);
    lemma_farewell(ctx.keep_alive);
    lemma_ended_joins(a, b);
    lemma_ended_joins(a + b, c);
    lemma_ended_joins(a + b + c, d);
    lemma_ended_joins(a + b + c + d, e);
}

proof fn lemma_chunked_end()
    ensures
        text("transfer-encoding: chunked\r\n\r\n") == ended(
            seq![text("transfer-encoding: chunked")],
        ) + seq![13u8, 10u8],
{
    reveal_strlit("transfer-encoding: chunked");
    reveal_strlit("transfer-encoding: chunked\r\n\r\n");
    is_ascii_chars_encode_utf8("transfer-encoding: chunked"@);
    is_ascii_chars_encode_utf8("transfer-encoding: chunked\r\n\r\n"@);
    lemma_ended_one(text("transfer-encoding: chunked"));
    assert(text("transfer-encoding: chunked\r\n\r\n") =~= ended(
        seq![text("transfer-encoding: chunked")],
    ) + seq![13u8, 10u8]);
}

/// A client gets what the application answered: its status, then of its header
/// lines each that is neither empty, nor framing, nor changed by the route, in
/// the application's order and no other, then the headers that the route sets,
/// and its body whole. A body of at most 256 KiB comes with its length, a longer
/// one in chunks.
#[verifier::spinoff_prover]
#[verifier::rlimit(50)]
pub proof fn a_response_reaches_the_client(
    status: u16,
    headers: Vec<u8>,
    lines: Seq<Seq<u8>>,
    parts: Seq<Vec<u8>>,
    ctx: ReplyContext<'_>,
)
    requires
        status != 101,
        headers@ == ended(lines),
        plain_lines(lines),
    ensures
        ({
            let (held, step) = reply_step(
                ReplyModel::Waiting,
                ReplyInput::Event(WorkerEvent::Headers { status, headers }),
                ctx,
            );
            let head = answer_lines(
                status,
                lines,
                text(ctx.server),
                op_views(ctx.ops@),
                ctx.keep_alive,
            );
            let body = joined(contents(parts));
            &&& step == StepModel::Wait
            &&& if body.len() <= 262144 {
                sent(held, parts, ctx) == Some(
                    message(head.push(said(text("content-length"), dec(body.len()))), body),
                )
            } else {
                sent(held, parts, ctx) matches Some(out) && in_chunks(out, head, body)
            }
        }),
{
    let head = answer_lines(status, lines, text(ctx.server), op_views(ctx.ops@), ctx.keep_alive);
    let body = joined(contents(parts));
    lemma_reply_head(status, lines, ctx);
    response_carries_its_body(status, headers@, parts, ctx);
    let length = said(text("content-length"), dec(body.len()));
    assert(head.push(length) =~= head + seq![length]);
    lemma_ended_joins(head, seq![length]);
    lemma_header(text("content-length"), dec(body.len()));
    lemma_crlf();
    let te = text("transfer-encoding: chunked");
    assert(head.push(te) =~= head + seq![te]);
    lemma_ended_joins(head, seq![te]);
    lemma_chunked_end();
    if body.len() > 262144 {
        let out = sent(ReplyModel::Held(status, headers@, seq![]), parts, ctx)->0;
        let stream = choose|stream: Seq<u8>| #[trigger]
            dechunked(stream) == Some(body) && out == reply_head(status, headers@, ctx) + text(
                "transfer-encoding: chunked\r\n\r\n",
            ) + stream;
        assert(out =~= message(head.push(te), stream));
        assert(in_chunks(out, head, body));
    } else {
        assert(sized_reply(status, headers@, body, ctx) =~= message(head.push(length), body));
    }
}

/// A response with these head lines that carries a body in chunks.
pub open spec fn in_chunks(out: Seq<u8>, head: Seq<Seq<u8>>, body: Seq<u8>) -> bool {
    exists|stream: Seq<u8>| #[trigger]
        dechunked(stream) == Some(body) && out == message(
            head.push(text("transfer-encoding: chunked")),
            stream,
        )
}

/// What is flushed is on its way: the head and all of the body that has come, in
/// chunks, so that with the end of the stream behind it the client has it.
#[verifier::spinoff_prover]
#[verifier::rlimit(50)]
pub proof fn a_flush_sends_what_has_come(
    status: u16,
    lines: Seq<Seq<u8>>,
    body: Seq<u8>,
    ctx: ReplyContext<'_>,
)
    requires
        plain_lines(lines),
    ensures
        ({
            let (next, step) = reply_step(
                ReplyModel::Held(status, ended(lines), body),
                ReplyInput::Event(WorkerEvent::Flush),
                ctx,
            );
            let head = answer_lines(
                status,
                lines,
                text(ctx.server),
                op_views(ctx.ops@),
                ctx.keep_alive,
            );
            &&& next == ReplyModel::Streaming(status)
            &&& step matches StepModel::Send(out) && in_chunks(out + text("0\r\n\r\n"), head, body)
        }),
{
    let head = answer_lines(status, lines, text(ctx.server), op_views(ctx.ops@), ctx.keep_alive);
    lemma_reply_head(status, lines, ctx);
    let te = text("transfer-encoding: chunked");
    assert(head.push(te) =~= head + seq![te]);
    lemma_ended_joins(head, seq![te]);
    lemma_chunked_end();
    let parts = seq![body];
    stream_carries_its_pieces(parts);
    assert(parts.subrange(1, 1) =~= seq![]);
    assert(joined(parts.subrange(1, 1)) =~= seq![]);
    assert(joined(parts) =~= body);
    let stream = streamed(parts);
    assert(streamed(parts.subrange(1, 1)) == text("0\r\n\r\n"));
    let out = chunked_start(status, ended(lines), body, ctx);
    assert(dechunked(stream) == Some(body));
    assert(out + text("0\r\n\r\n") =~= message(head.push(te), stream));
}

/// Each piece of a streamed response is sent at once, and the end of it when the
/// application ends; a response that breaks off has no end.
pub proof fn a_stream_is_sent_as_it_comes(status: u16, chunk: Vec<u8>, ctx: ReplyContext<'_>)
    ensures
        ({
            let r = ReplyModel::Streaming(status);
            let more = reply_step(r, ReplyInput::Event(WorkerEvent::Chunk(chunk)), ctx);
            let end = reply_step(r, ReplyInput::Event(WorkerEvent::End), ctx);
            let lost = reply_step(r, ReplyInput::Closed, ctx);
            &&& more.0 == r
            &&& more.1 matches StepModel::Send(out) && dechunked(out + text("0\r\n\r\n")) == Some(
                chunk@,
            )
            &&& end.1 == StepModel::Finish(text("0\r\n\r\n"), status)
            &&& lost.1 == StepModel::Break(seq![], status)
        }),
{
    let parts = seq![chunk@];
    stream_carries_its_pieces(parts);
    assert(parts.subrange(1, 1) =~= seq![]);
    assert(joined(parts.subrange(1, 1)) =~= seq![]);
    assert(joined(parts) =~= chunk@);
    assert(streamed(parts.subrange(1, 1)) == text("0\r\n\r\n"));
}

/// The head that accepts an upgrade has the handshake of the router and the
/// application's other lines.
#[verifier::spinoff_prover]
#[verifier::rlimit(50)]
pub proof fn an_upgrade_is_accepted_with_the_workers_lines(
    server: Seq<u8>,
    accept: Seq<u8>,
    lines: Seq<Seq<u8>>,
    changes: Changes,
)
    requires
        plain_lines(lines),
    ensures
        upgrade_head(server, accept, ended(lines), changes) == message(
            seq![first_line(101, text("Switching Protocols"))] + own(
                text("server"),
                server,
                changes,
            ) + seq![
                text("upgrade: websocket"),
                text("connection: upgrade"),
                said(text("sec-websocket-accept"), accept),
            ] + passed_on(lines, changes, true) + set_headers(changes),
            seq![],
        ),
{
    let a = seq![first_line(101, text("Switching Protocols"))];
    let b = own(text("server"), server, changes);
    let (u, c) = (text("upgrade: websocket"), text("connection: upgrade"));
    let k = said(text("sec-websocket-accept"), accept);
    let d = seq![u, c, k];
    let e = passed_on(lines, changes, true);
    let f = set_headers(changes);
    lemma_first_line(101, text("Switching Protocols"));
    lemma_own(text("server"), server, changes);
    lemma_block(lines, changes, true);
    lemma_set(changes);
    lemma_header(text("sec-websocket-accept"), accept);
    reveal_strlit("upgrade: websocket");
    reveal_strlit("connection: upgrade");
    reveal_strlit("upgrade: websocket\r\nconnection: upgrade\r\n");
    is_ascii_chars_encode_utf8("upgrade: websocket"@);
    is_ascii_chars_encode_utf8("connection: upgrade"@);
    is_ascii_chars_encode_utf8("upgrade: websocket\r\nconnection: upgrade\r\n"@);
    lemma_ended_one(u);
    lemma_ended_one(c);
    assert(text("upgrade: websocket\r\nconnection: upgrade\r\n") =~= ended(seq![u]) + ended(
        seq![c],
    ));
    assert(d =~= seq![u] + seq![c] + seq![k]);
    lemma_ended_joins(seq![u], seq![c]);
    lemma_ended_joins(seq![u] + seq![c], seq![k]);
    lemma_ended_joins(a, b);
    lemma_ended_joins(a + b, d);
    lemma_ended_joins(a + b + d, e);
    lemma_ended_joins(a + b + d + e, f);
    lemma_crlf();
    assert(upgrade_head(server, accept, ended(lines), changes) =~= message(
        a + b + d + e + f,
        seq![],
    ));
}

/// A route's own answer: the status, no body, and the target of a redirect.
#[verifier::spinoff_prover]
#[verifier::rlimit(50)]
pub proof fn a_return_is_answered(
    server: Seq<u8>,
    status: u16,
    location: Option<Seq<u8>>,
    changes: Changes,
    keep_alive: bool,
)
    ensures
        return_bytes(server, status, location, changes, keep_alive) == message(
            seq![first_line(status, encode_utf8(phrase(status)))] + own(
                text("server"),
                server,
                changes,
            ) + seq![text("content-length: 0")] + match location {
                Some(l) => own(text("location"), l, changes),
                None => seq![],
            } + set_headers(changes) + farewell(keep_alive),
            seq![],
        ),
{
    let a = seq![first_line(status, encode_utf8(phrase(status)))];
    let b = own(text("server"), server, changes);
    let c = seq![text("content-length: 0")];
    let d = match location {
        Some(l) => own(text("location"), l, changes),
        None => seq![],
    };
    let e = set_headers(changes);
    let f = farewell(keep_alive);
    lemma_first_line(status, encode_utf8(phrase(status)));
    lemma_own(text("server"), server, changes);
    if let Some(l) = location {
        lemma_own(text("location"), l, changes);
    } else {
        assert(ended(d) =~= seq![]);
    }
    lemma_set(changes);
    lemma_farewell(keep_alive);
    reveal_strlit("content-length: 0");
    reveal_strlit("content-length: 0\r\n");
    is_ascii_chars_encode_utf8("content-length: 0"@);
    is_ascii_chars_encode_utf8("content-length: 0\r\n"@);
    lemma_ended_one(text("content-length: 0"));
    assert(text("content-length: 0\r\n") =~= ended(c));
    lemma_ended_joins(a, b);
    lemma_ended_joins(a + b, c);
    lemma_ended_joins(a + b + c, d);
    lemma_ended_joins(a + b + c + d, e);
    lemma_ended_joins(a + b + c + d + e, f);
    lemma_crlf();
    assert(return_bytes(server, status, location, changes, keep_alive) =~= message(
        a + b + c + d + e + f,
        seq![],
    ));
}

/// An answer with a body has its type and length, and the body whole.
#[verifier::spinoff_prover]
#[verifier::rlimit(50)]
pub proof fn a_body_is_answered(
    server: Seq<u8>,
    status: u16,
    content_type: Seq<u8>,
    body: Seq<u8>,
    changes: Changes,
    keep_alive: bool,
)
    ensures
        response_bytes(server, status, content_type, body, changes, keep_alive) == message(
            seq![first_line(status, encode_utf8(phrase(status)))] + own(
                text("server"),
                server,
                changes,
            ) + own(text("content-type"), content_type, changes) + seq![
                said(text("content-length"), dec(body.len())),
            ] + set_headers(changes) + farewell(keep_alive),
            body,
        ),
{
    let a = seq![first_line(status, encode_utf8(phrase(status)))];
    let b = own(text("server"), server, changes);
    let c = own(text("content-type"), content_type, changes);
    let d = seq![said(text("content-length"), dec(body.len()))];
    let e = set_headers(changes);
    let f = farewell(keep_alive);
    lemma_first_line(status, encode_utf8(phrase(status)));
    lemma_own(text("server"), server, changes);
    lemma_own(text("content-type"), content_type, changes);
    lemma_header(text("content-length"), dec(body.len()));
    lemma_set(changes);
    lemma_farewell(keep_alive);
    lemma_ended_joins(a, b);
    lemma_ended_joins(a + b, c);
    lemma_ended_joins(a + b + c, d);
    lemma_ended_joins(a + b + c + d, e);
    lemma_ended_joins(a + b + c + d + e, f);
    lemma_crlf();
    assert(response_bytes(server, status, content_type, body, changes, keep_alive) =~= message(
        a + b + c + d + e + f,
        body,
    ));
}

/// A plain answer says its status in words, once in its first line and once in
/// its body.
#[verifier::spinoff_prover]
#[verifier::rlimit(50)]
pub proof fn a_refusal_says_its_status(
    server: Seq<u8>,
    status: u16,
    reason: Seq<u8>,
    keep_alive: bool,
)
    ensures
        ({
            let body = dec(status as nat) + text(" ") + reason + text("\n");
            simple_bytes(server, status, reason, keep_alive) == message(
                seq![
                    first_line(status, encode_utf8(phrase(status))),
                    said(text("server"), server),
                    text("content-type: text/plain"),
                    said(text("content-length"), dec(body.len())),
                ] + farewell(keep_alive),
                body,
            )
        }),
{
    let none: Changes = seq![];
    let body = dec(status as nat) + text(" ") + reason + text("\n");
    a_body_is_answered(server, status, text("text/plain"), body, none, keep_alive);
    reveal(Seq::filter);
    assert(set_headers(none) =~= seq![]);
    reveal_strlit("content-type: text/plain");
    reveal_strlit("content-type");
    reveal_strlit("text/plain");
    reveal_strlit(": ");
    is_ascii_chars_encode_utf8("content-type: text/plain"@);
    is_ascii_chars_encode_utf8("content-type"@);
    is_ascii_chars_encode_utf8("text/plain"@);
    is_ascii_chars_encode_utf8(": "@);
    assert(said(text("content-type"), text("text/plain")) =~= text("content-type: text/plain"));
    let one = seq![
        first_line(status, encode_utf8(phrase(status))),
        said(text("server"), server),
        text("content-type: text/plain"),
        said(text("content-length"), dec(body.len())),
    ] + farewell(keep_alive);
    let other = seq![first_line(status, encode_utf8(phrase(status)))] + own(
        text("server"),
        server,
        none,
    ) + own(text("content-type"), text("text/plain"), none) + seq![
        said(text("content-length"), dec(body.len())),
    ] + set_headers(none) + farewell(keep_alive);
    assert(one =~= other);
}

/// A plain answer: the status and its reason, in the head and in the body.
pub open spec fn plainly(
    server: Seq<u8>,
    status: u16,
    reason: Seq<u8>,
    keep_alive: bool,
) -> Seq<u8> {
    let body = dec(status as nat) + text(" ") + reason + text("\n");
    message(
        seq![
            first_line(status, encode_utf8(phrase(status))),
            said(text("server"), server),
            text("content-type: text/plain"),
            said(text("content-length"), dec(body.len())),
        ] + farewell(keep_alive),
        body,
    )
}

/// An application that ends, fails or is lost before its head, or that asks for a
/// protocol which nobody asked it for, is a bad gateway. One that nobody has taken
/// the request from yet when time is up is unavailable, and one that has taken it
/// is late.
#[verifier::spinoff_prover]
#[verifier::rlimit(50)]
pub proof fn a_failure_before_the_head_is_named(
    s: &mut Reply,
    input: ReplyInput,
    ctx: &ReplyContext<'_>,
    r: ReplyStep,
)
    requires
        call_ensures(Reply::step, (s, input, ctx), r),
        old(s)@ is Queued || old(s)@ is Waiting,
    ensures
        ({
            let bad = plainly(text(ctx.server), 502, text("Bad Gateway"), ctx.keep_alive);
            let off = plainly(text(ctx.server), 503, text("Service Unavailable"), ctx.keep_alive);
            let late = plainly(text(ctx.server), 504, text("Gateway Timeout"), ctx.keep_alive);
            match input {
                ReplyInput::Claimed => r@ is Wait && final(s)@ is Waiting,
                ReplyInput::Stalled => if old(s)@ is Queued {
                    r@ == StepModel::Refuse(off, 503)
                } else {
                    r@ == StepModel::Refuse(late, 504)
                },
                ReplyInput::Lost => r@ == StepModel::Break(seq![], 502),
                ReplyInput::Closed => r@ == StepModel::Refuse(bad, 502),
                ReplyInput::Event(WorkerEvent::Headers { status, headers }) => if status == 101
                    && ctx.upgrade {
                    r@ == StepModel::Upgrade(headers@)
                } else if status == 101 {
                    r@ == StepModel::Refuse(bad, 502)
                } else {
                    r@ is Wait && final(s)@ == ReplyModel::Held(status, headers@, seq![])
                },
                ReplyInput::Event(_) => r@ == StepModel::Refuse(bad, 502),
            }
        }),
{
    a_refusal_says_its_status(text(ctx.server), 502, text("Bad Gateway"), ctx.keep_alive);
    a_refusal_says_its_status(text(ctx.server), 503, text("Service Unavailable"), ctx.keep_alive);
    a_refusal_says_its_status(text(ctx.server), 504, text("Gateway Timeout"), ctx.keep_alive);
}

/// Once its head is there, a response that ends is sent whole, and one that breaks
/// off is sent as far as it came, but the connection ends with it. A client of one
/// that stalls learns that it is late. Small pieces are collected.
#[verifier::spinoff_prover]
#[verifier::rlimit(50)]
pub proof fn a_held_response_is_not_lost(
    s: &mut Reply,
    input: ReplyInput,
    ctx: &ReplyContext<'_>,
    status: u16,
    lines: Seq<Seq<u8>>,
    body: Seq<u8>,
    r: ReplyStep,
)
    requires
        call_ensures(Reply::step, (s, input, ctx), r),
        old(s)@ == ReplyModel::Held(status, ended(lines), body),
        plain_lines(lines),
    ensures
        ({
            let head = answer_lines(
                status,
                lines,
                text(ctx.server),
                op_views(ctx.ops@),
                ctx.keep_alive,
            );
            let whole = message(
                head.push(said(text("content-length"), dec(body.len()))),
                body,
            );
            let late = plainly(text(ctx.server), 504, text("Gateway Timeout"), ctx.keep_alive);
            match input {
                ReplyInput::Event(WorkerEvent::End) => r@ == StepModel::Finish(whole, status),
                ReplyInput::Event(WorkerEvent::Failed(_)) | ReplyInput::Closed => r@
                    == StepModel::Break(whole, status),
                ReplyInput::Stalled => r@ == StepModel::Refuse(late, 504),
                ReplyInput::Lost => r@ == StepModel::Break(seq![], status),
                ReplyInput::Event(WorkerEvent::Chunk(c)) => if body.len() + c@.len() <= 262144 {
                    r@ is Wait && final(s)@ == ReplyModel::Held(
                        status,
                        ended(lines),
                        body + c@,
                    )
                } else {
                    final(s)@ == ReplyModel::Streaming(status) && (r@ matches StepModel::Send(out)
                        && in_chunks(out + text("0\r\n\r\n"), head, body + c@))
                },
                ReplyInput::Event(WorkerEvent::Flush) => final(s)@ == ReplyModel::Streaming(
                    status,
                ) && (r@ matches StepModel::Send(out) && in_chunks(
                    out + text("0\r\n\r\n"),
                    head,
                    body,
                )),
                _ => r@ is Wait,
            }
        }),
{
    let head = answer_lines(status, lines, text(ctx.server), op_views(ctx.ops@), ctx.keep_alive);
    a_refusal_says_its_status(text(ctx.server), 504, text("Gateway Timeout"), ctx.keep_alive);
    lemma_reply_head(status, lines, *ctx);
    let length = said(text("content-length"), dec(body.len()));
    assert(head.push(length) =~= head + seq![length]);
    lemma_ended_joins(head, seq![length]);
    lemma_header(text("content-length"), dec(body.len()));
    lemma_crlf();
    assert(sized_reply(status, ended(lines), body, *ctx) =~= message(head.push(length), body));
    a_flush_sends_what_has_come(status, lines, body, *ctx);
    if let ReplyInput::Event(WorkerEvent::Chunk(c)) = input {
        a_flush_sends_what_has_come(status, lines, body + c@, *ctx);
    }
}

/// How long is waited depends on what is waited for: a worker to take the request,
/// its next sign, or the next piece of a stream.
pub proof fn patience_depends_on_what_is_awaited(
    s: &Reply,
    queue: u64,
    next: u64,
    idle: u64,
    r: u64,
)
    requires
        call_ensures(Reply::patience, (s, queue, next, idle), r),
    ensures
        *s is Queued ==> r == queue,
        *s is Waiting || *s is Held ==> r == next,
        *s is Streaming ==> r == idle,
{
}

/// The answers that are written are those that the laws above speak of, behind
/// what is written already.
pub proof fn answers_are_written_behind_each_other(
    a: &mut Vec<u8>,
    b: &mut Vec<u8>,
    c: &mut Vec<u8>,
    d: &mut Vec<u8>,
    server: &str,
    accept: &str,
    status: u16,
    location: Option<&[u8]>,
    content_type: &str,
    body: &[u8],
    reason: &str,
    block: &[u8],
    ops: &Ops<'_>,
    keep_alive: bool,
)
    requires
        call_ensures(write_return, (a, server, status, location, ops, keep_alive), ()),
        call_ensures(
            write_response,
            (b, server, status, content_type, body, ops, keep_alive),
            (),
        ),
        call_ensures(write_simple, (c, server, status, reason, keep_alive), ()),
        call_ensures(write_101, (d, server, accept, block, ops), ()),
    ensures
        final(a)@ == old(a)@ + return_bytes(
            text(server),
            status,
            match location {
                Some(l) => Some(l@),
                None => None,
            },
            op_views(ops@),
            keep_alive,
        ),
        final(b)@ == old(b)@ + response_bytes(
            text(server),
            status,
            text(content_type),
            body@,
            op_views(ops@),
            keep_alive,
        ),
        final(c)@ == old(c)@ + plainly(text(server), status, text(reason), keep_alive),
        final(d)@ == old(d)@ + upgrade_head(text(server), text(accept), block@, op_views(ops@)),
{
    a_refusal_says_its_status(text(server), status, text(reason), keep_alive);
}

/// The statuses that the server gives of its own accord have their usual reasons.
pub proof fn statuses_have_their_reasons(status: u16, r: &'static str)
    requires
        call_ensures(reason_phrase, (status,), r),
    ensures
        r@ == phrase(status),
        phrase(101) == "Switching Protocols"@,
        phrase(200) == "OK"@,
        phrase(301) == "Moved Permanently"@,
        phrase(302) == "Found"@,
        phrase(304) == "Not Modified"@,
        phrase(400) == "Bad Request"@,
        phrase(403) == "Forbidden"@,
        phrase(404) == "Not Found"@,
        phrase(408) == "Request Timeout"@,
        phrase(411) == "Length Required"@,
        phrase(413) == "Content Too Large"@,
        phrase(431) == "Request Header Fields Too Large"@,
        phrase(500) == "Internal Server Error"@,
        phrase(502) == "Bad Gateway"@,
        phrase(503) == "Service Unavailable"@,
{
}

} // verus!
