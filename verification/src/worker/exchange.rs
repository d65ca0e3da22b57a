//! Router and worker understand each other.

use vstd::prelude::*;

use crate::bytes::text;
use crate::ipc::frame::{frame_bytes, header_bytes, header_of, header_roundtrip, plain_header};
use crate::ipc::hello::{hello_ack_bytes, hello_ack_roundtrip, hello_bytes, hello_roundtrip};
use crate::ipc::{
    BwpError, FrameHeader, FrameKind, Hello, HelloAck, BWP_VERSION, FRAME_HEADER_LEN,
};
use crate::router::dispatch::lifecycle::{introduced, HandshakeError};
use crate::router::dispatch::{body_flags, SubmitBody};
use crate::worker::{ack_answer, frame, leading_frame, settlement, work_of, Progress, Work};

verus! {

/// A frame splits into its header and its payload.
pub proof fn frame_splits(h: FrameHeader, payload: Seq<u8>)
    ensures
        ({
            let bytes = frame_bytes(h, payload);
            &&& bytes.len() == FRAME_HEADER_LEN + payload.len()
            &&& header_of(bytes.subrange(0, 16)) == Ok::<FrameHeader, BwpError>(h)
            &&& bytes.subrange(16, bytes.len() as int) == payload
        }),
{
    header_roundtrip(h);
    let bytes = frame_bytes(h, payload);
    assert(bytes.subrange(0, 16) =~= header_bytes(h));
    assert(bytes.subrange(16, bytes.len() as int) =~= payload);
}

/// A frame on a stream comes off it as it was sent, and what follows it stays.
pub proof fn frames_come_off_in_order(h: FrameHeader, payload: Seq<u8>, rest: Seq<u8>)
    requires
        h.payload_len == payload.len(),
    ensures
        ({
            let s = frame_bytes(h, payload) + rest;
            let n = FRAME_HEADER_LEN + payload.len();
            &&& leading_frame(s) == Ok::<Option<(FrameHeader, int)>, BwpError>(Some((h, n as int)))
            &&& s.subrange(16, n as int) == payload
            &&& s.subrange(n as int, s.len() as int) == rest
        }),
{
    header_roundtrip(h);
    let s = frame_bytes(h, payload) + rest;
    let n = FRAME_HEADER_LEN + payload.len();
    assert(s.subrange(0, 16) =~= header_bytes(h));
    assert(s.subrange(16, n as int) =~= payload);
    assert(s.subrange(n as int, s.len() as int) =~= rest);
}

/// The router takes a worker's greeting for what it says.
pub proof fn greeting_is_understood(pid: u32, concurrency: u32, capabilities: u32)
    ensures
        ({
            let hello = Hello { version: BWP_VERSION, pid, concurrency, capabilities };
            let bytes = frame(FrameKind::Hello, 0, hello_bytes(hello));
            &&& header_of(bytes.subrange(0, 16)) matches Ok(h)
            &&& introduced(h, bytes.subrange(16, bytes.len() as int)) == Ok::<
                Hello,
                HandshakeError,
            >(hello)
        }),
{
    let hello = Hello { version: BWP_VERSION, pid, concurrency, capabilities };
    hello_roundtrip(hello);
    let payload = hello_bytes(hello);
    frame_splits(plain_header(FrameKind::Hello, 0, payload.len() as u32), payload);
}

/// The worker reads the concurrency that the router granted.
pub proof fn welcome_is_understood(granted: u32)
    ensures
        ({
            let ack = HelloAck { version: BWP_VERSION, concurrency: granted };
            let bytes = frame(FrameKind::HelloAck, 0, hello_ack_bytes(ack));
            &&& header_of(bytes.subrange(0, 16)) matches Ok(h)
            &&& ack_answer(h.kind, bytes.subrange(16, bytes.len() as int)) == Ok::<u32, BwpError>(
                granted,
            )
        }),
{
    let ack = HelloAck { version: BWP_VERSION, concurrency: granted };
    hello_ack_roundtrip(ack);
    frame_splits(
        plain_header(FrameKind::HelloAck, 0, hello_ack_bytes(ack).len() as u32),
        hello_ack_bytes(ack),
    );
}

/// A queued request is served under its id, with its flags and its payload.
pub proof fn request_reaches_its_worker(id: u32, body: SubmitBody, payload: Seq<u8>)
    requires
        FRAME_HEADER_LEN + payload.len() <= u32::MAX,
    ensures
        ({
            let h = FrameHeader {
                flags: body_flags(body),
                ..plain_header(FrameKind::Request, id, payload.len() as u32)
            };
            let bytes = frame_bytes(h, payload);
            &&& work_of(bytes) matches Ok(Work::Serve { id: i, flags, end })
            &&& i == id
            &&& flags == body_flags(body)
            &&& bytes.subrange(16, end as int) == payload
        }),
{
    let h = FrameHeader {
        flags: body_flags(body),
        ..plain_header(FrameKind::Request, id, payload.len() as u32)
    };
    frame_splits(h, payload);
}

/// A worker told to retire does.
pub proof fn retirement_is_understood(id: u32)
    ensures
        work_of(frame(FrameKind::Retire, id, seq![])) == Ok::<Work, BwpError>(Work::Retire),
{
    frame_splits(plain_header(FrameKind::Retire, id, 0), seq![]);
}

/// Whatever the handler did, the task is over in the router's eyes once the
/// worker has settled it: the request has failed, now or before, or `Done` is
/// the last that is said of it.
pub proof fn settled_task_is_over(p: Progress, id: u32, success: bool)
    ensures
        ({
            let last = frame(FrameKind::Done, id, seq![]);
            let all = settlement(p, id, success);
            ||| p.failed
            ||| all == frame(FrameKind::Error, id, text("handler failed"))
            ||| last.len() <= all.len() && all.subrange(all.len() - last.len(), all.len() as int)
                == last
        }),
{
    let last = frame(FrameKind::Done, id, seq![]);
    let all = settlement(p, id, success);
    if !p.failed && !(!success && !p.finished) {
        assert(all.subrange(all.len() - last.len(), all.len() as int) =~= last);
    }
}

} // verus!
