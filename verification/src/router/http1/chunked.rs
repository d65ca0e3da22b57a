//! What a client reads out of a response.

use vstd::prelude::*;
use vstd::utf8::is_ascii_chars_encode_utf8;

use crate::bytes::{cut, lemma_find, text};
use crate::router::dispatch::WorkerEvent;
use crate::router::http1::head::{chunk_bytes, hex_byte, hex_text};
use crate::router::http1::reply::{
    reply_head, reply_step, sized_reply, ReplyContext, ReplyInput, ReplyModel, StepModel,
    STREAM_THRESHOLD,
};

verus! {

/// The value of a lower-case hexadecimal digit.
pub open spec fn hex_digit_value(b: u8) -> nat {
    if 48 <= b <= 57 {
        (b - 48) as nat
    } else {
        (b - 87) as nat
    }
}

/// The number that hexadecimal digits spell.
pub open spec fn hex_number(s: Seq<u8>) -> nat
    decreases s.len(),
{
    if s.len() == 0 {
        0
    } else {
        hex_number(s.drop_last()) * 16 + hex_digit_value(s.last())
    }
}

/// The body that a chunked stream carries; nothing where it is incomplete or
/// malformed.
pub open spec fn dechunked(s: Seq<u8>) -> Option<Seq<u8>>
    decreases s.len(),
{
    match cut(s, 13) {
        None => None,
        Some((size, rest)) => {
            let n = hex_number(size);
            if rest.len() == 0 || rest[0] != 10 || rest.len() >= s.len() {
                None
            } else if n == 0 {
                if rest == seq![10u8, 13, 10] {
                    Some(seq![])
                } else {
                    None
                }
            } else if rest.len() < n + 3 || rest[n as int + 1] != 13 || rest[n as int + 2] != 10 {
                None
            } else {
                match dechunked(rest.subrange(n as int + 3, rest.len() as int)) {
                    Some(more) => Some(rest.subrange(1, n as int + 1) + more),
                    None => None,
                }
            }
        },
    }
}

/// A stream of pieces, each sent as a chunk.
pub open spec fn streamed(parts: Seq<Seq<u8>>) -> Seq<u8>
    decreases parts.len(),
{
    if parts.len() == 0 {
        text("0\r\n\r\n")
    } else {
        chunk_bytes(parts[0]) + streamed(parts.subrange(1, parts.len() as int))
    }
}

/// The pieces joined.
pub open spec fn joined(parts: Seq<Seq<u8>>) -> Seq<u8>
    decreases parts.len(),
{
    if parts.len() == 0 {
        seq![]
    } else {
        parts[0] + joined(parts.subrange(1, parts.len() as int))
    }
}

proof fn lemma_hex(n: nat)
    ensures
        hex_text(n).len() > 0,
        hex_number(hex_text(n)) == n,
        forall|i: int| 0 <= i < hex_text(n).len() ==> #[trigger] hex_text(n)[i] > 13,
    decreases n,
{
    let all = hex_text(n);
    if n < 16 {
        assert(all == seq![hex_byte(n as int)]);
        assert(all.drop_last() =~= Seq::<u8>::empty());
        assert(hex_number(all.drop_last()) == 0);
    } else {
        lemma_hex(n / 16);
        let init = hex_text(n / 16);
        assert(all == init.push(hex_byte((n % 16) as int)));
        assert(all.drop_last() =~= init);
        assert forall|i: int| 0 <= i < all.len() implies #[trigger] all[i] > 13 by {
            if i < init.len() {
                assert(all[i] == init[i]);
            }
        }
    }
}

proof fn lemma_literals()
    ensures
        text("\r\n") == seq![13u8, 10],
        text("0\r\n\r\n") == seq![48u8, 13, 10, 13, 10],
{
    reveal_strlit("\r\n");
    reveal_strlit("0\r\n\r\n");
    is_ascii_chars_encode_utf8("\r\n"@);
    is_ascii_chars_encode_utf8("0\r\n\r\n"@);
    assert(text("\r\n") =~= seq![13u8, 10]);
    assert(text("0\r\n\r\n") =~= seq![48u8, 13, 10, 13, 10]);
}

proof fn lemma_chunk(data: Seq<u8>, more: Seq<u8>)
    requires
        data.len() > 0,
    ensures
        dechunked(chunk_bytes(data) + more) == match dechunked(more) {
            Some(m) => Some(data + m),
            None => None,
        },
{
    lemma_literals();
    lemma_hex(data.len());
    let size = hex_text(data.len());
    let s = chunk_bytes(data) + more;
    let k = size.len() as int;
    let n = data.len() as int;
    assert(s[k] == 13);
    assert forall|j: int| 0 <= j < k implies s[j] != 13 by {
        assert(s[j] == size[j]);
    }
    lemma_find(s, 13, k);
    assert(s.subrange(0, k) =~= size);
    let rest = s.subrange(k + 1, s.len() as int);
    assert(rest =~= seq![10u8] + data + seq![13u8, 10] + more);
    assert(rest[0] == 10 && rest[n + 1] == 13 && rest[n + 2] == 10);
    assert(rest.subrange(1, n + 1) =~= data);
    assert(rest.subrange(n + 3, rest.len() as int) =~= more);
}

/// A client reads out of a streamed response what the worker has written,
/// however it was cut into pieces.
pub proof fn stream_carries_its_pieces(parts: Seq<Seq<u8>>)
    ensures
        dechunked(streamed(parts)) == Some(joined(parts)),
    decreases parts.len(),
{
    lemma_literals();
    if parts.len() == 0 {
        let s = text("0\r\n\r\n");
        assert(s[1] == 13 && s[0] != 13);
        lemma_find(s, 13, 1);
        assert(s.subrange(0, 1) =~= seq![48u8]);
        assert(seq![48u8].drop_last() =~= Seq::<u8>::empty());
        assert(hex_number(seq![48u8].drop_last()) == 0);
        assert(hex_number(seq![48u8]) == 0);
        assert(s.subrange(2, 5) =~= seq![10u8, 13, 10]);
    } else {
        let tail = parts.subrange(1, parts.len() as int);
        stream_carries_its_pieces(tail);
        if parts[0].len() == 0 {
            assert(parts[0] =~= Seq::<u8>::empty());
            assert(chunk_bytes(parts[0]) + streamed(tail) =~= streamed(tail));
            assert(parts[0] + joined(tail) =~= joined(tail));
        } else {
            lemma_chunk(parts[0], streamed(tail));
        }
    }
}

/// The contents of the pieces that a worker has written.
pub open spec fn contents(parts: Seq<Vec<u8>>) -> Seq<Seq<u8>> {
    parts.map_values(|p: Vec<u8>| p@)
}

/// What is sent to the client in all, where the worker writes these pieces and
/// then ends the response; nothing where the response is not completed.
pub open spec fn sent(r: ReplyModel, parts: Seq<Vec<u8>>, ctx: ReplyContext<'_>) -> Option<Seq<u8>>
    decreases parts.len(),
{
    if parts.len() == 0 {
        match reply_step(r, ReplyInput::Event(WorkerEvent::End), ctx).1 {
            StepModel::Finish(bytes, _) => Some(bytes),
            _ => None,
        }
    } else {
        let (next, step) = reply_step(r, ReplyInput::Event(WorkerEvent::Chunk(parts[0])), ctx);
        let now = match step {
            StepModel::Wait => Some(Seq::<u8>::empty()),
            StepModel::Send(bytes) => Some(bytes),
            _ => None,
        };
        match (now, sent(next, parts.subrange(1, parts.len() as int), ctx)) {
            (Some(a), Some(b)) => Some(a + b),
            _ => None,
        }
    }
}

/// A response that is sent in chunks and carries this body.
pub open spec fn carries(
    out: Seq<u8>,
    status: u16,
    block: Seq<u8>,
    body: Seq<u8>,
    ctx: ReplyContext<'_>,
) -> bool {
    exists|stream: Seq<u8>| #[trigger]
        dechunked(stream) == Some(body) && out == reply_head(status, block, ctx) + text(
            "transfer-encoding: chunked\r\n\r\n",
        ) + stream
}

proof fn lemma_streaming(status: u16, parts: Seq<Vec<u8>>, ctx: ReplyContext<'_>)
    ensures
        sent(ReplyModel::Streaming(status), parts, ctx) == Some(streamed(contents(parts))),
    decreases parts.len(),
{
    if parts.len() > 0 {
        let tail = parts.subrange(1, parts.len() as int);
        lemma_streaming(status, tail, ctx);
        assert(contents(parts).subrange(1, parts.len() as int) =~= contents(tail));
        assert(contents(parts)[0] == parts[0]@);
    }
}

proof fn lemma_held(
    status: u16,
    block: Seq<u8>,
    held: Seq<u8>,
    parts: Seq<Vec<u8>>,
    ctx: ReplyContext<'_>,
)
    requires
        held.len() <= STREAM_THRESHOLD,
    ensures
        ({
            let body = held + joined(contents(parts));
            let out = sent(ReplyModel::Held(status, block, held), parts, ctx);
            if body.len() <= STREAM_THRESHOLD {
                out == Some(sized_reply(status, block, body, ctx))
            } else {
                out matches Some(bytes) && carries(bytes, status, block, body, ctx)
            }
        }),
    decreases parts.len(),
{
    let all = contents(parts);
    let body = held + joined(all);
    if parts.len() == 0 {
        assert(body =~= held);
    } else {
        let tail = parts.subrange(1, parts.len() as int);
        let more = held + parts[0]@;
        assert(all.subrange(1, parts.len() as int) =~= contents(tail));
        assert(all[0] == parts[0]@);
        assert(body =~= more + joined(contents(tail)));
        if more.len() > STREAM_THRESHOLD {
            lemma_streaming(status, tail, ctx);
            let pieces = seq![more] + contents(tail);
            stream_carries_its_pieces(pieces);
            assert(pieces.subrange(1, pieces.len() as int) =~= contents(tail));
            let stream = streamed(pieces);
            assert(dechunked(stream) == Some(body));
            let head = reply_head(status, block, ctx) + text("transfer-encoding: chunked\r\n\r\n");
            let bytes = head + chunk_bytes(more) + streamed(contents(tail));
            assert(bytes =~= head + stream);
            assert(carries(bytes, status, block, body, ctx));
        } else {
            lemma_held(status, block, more, tail, ctx);
            let rest = sent(ReplyModel::Held(status, block, more), tail, ctx);
            assert(Seq::<u8>::empty() + rest->0 =~= rest->0);
        }
    }
}

/// A response reaches the client with the body that the worker has written: with
/// its length where it stays within the threshold, in chunks where it does not.
pub proof fn response_carries_its_body(
    status: u16,
    block: Seq<u8>,
    parts: Seq<Vec<u8>>,
    ctx: ReplyContext<'_>,
)
    ensures
        ({
            let body = joined(contents(parts));
            let out = sent(ReplyModel::Held(status, block, seq![]), parts, ctx);
            if body.len() <= STREAM_THRESHOLD {
                out == Some(sized_reply(status, block, body, ctx))
            } else {
                out matches Some(bytes) && carries(bytes, status, block, body, ctx)
            }
        }),
{
    lemma_held(status, block, seq![], parts, ctx);
    assert(Seq::<u8>::empty() + joined(contents(parts)) =~= joined(contents(parts)));
}

} // verus!
