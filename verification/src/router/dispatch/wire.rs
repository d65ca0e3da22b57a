//! Frames to and from workers, and the files that large bodies spill to.

use vstd::prelude::*;
use vstd::string::*;
use vstd::utf8::encode_utf8;

use crate::bytes::{
    chars, dec, digits_spell_their_number, has_prefix, is_digit, lemma_ascii, lemma_find, number,
    parse_number, starts_with, text, until,
};
use crate::ipc::frame::{
    frame_bytes, header_of, plain_header, push_frame, FrameHeader, FrameKind, FRAME_HEADER_LEN,
};
use crate::ipc::BwpError;
use crate::router::dispatch::{
    body_flags, frame_effect, needs_no_claim, request_header, FrameOutcome, Pool, PoolModel,
    SubmitBody, MAX_FRAME_PAYLOAD,
};
use crate::router::uri::append_dec;

verus! {

/// The message that puts a request into the queue.
pub fn request_message(id: u32, body: SubmitBody, payload: &[u8]) -> (r: Vec<u8>)
    requires
        payload@.len() <= u32::MAX,
    ensures
        r@ == frame_bytes(
            FrameHeader {
                flags: body_flags(body),
                ..plain_header(FrameKind::Request, id, payload@.len() as u32)
            },
            payload@,
        ),
{
    let h = request_header(id, payload.len() as u32, body);
    let mut out: Vec<u8> = Vec::new();
    push_frame(&mut out, &h, payload);
    assert(out@ =~= frame_bytes(h, payload@));
    out
}

/// A frame without a payload: `Abort` and `Ping` for a request, `Retire` for
/// any worker, or an empty `RequestBody`, which ends a body.
pub fn bare_frame(kind: FrameKind, id: u32) -> (r: Vec<u8>)
    ensures
        r@ == frame_bytes(plain_header(kind, id, 0), seq![]),
{
    let h = FrameHeader::new(kind, id, 0);
    let none: Vec<u8> = Vec::new();
    let mut out: Vec<u8> = Vec::new();
    push_frame(&mut out, &h, none.as_slice());
    assert(out@ =~= frame_bytes(h, seq![]));
    out
}

impl Pool {
    /// Whom to tell that a request is aborted, and how: the worker that has
    /// claimed it, by an `Abort` frame. Nobody where no worker has.
    pub fn abort_notice(&self, id: u32) -> (r: Option<(u32, Vec<u8>)>)
        requires
            self@.wf(),
        ensures
            match r {
                Some((w, frame)) => {
                    &&& self@.pending.dom().contains(id) && self@.pending[id].claimed is Some
                    &&& w == (self@.pending[id].claimed->0).0
                    &&& self@.workers.dom().contains(w)
                    &&& frame@ == frame_bytes(plain_header(FrameKind::Abort, id, 0), seq![])
                },
                None => !(self@.pending.dom().contains(id) && self@.pending[id].claimed is Some),
            },
    {
        match self.claimer(id) {
            Some(w) => Some((w, bare_frame(FrameKind::Abort, id))),
            None => None,
        }
    }
}

/// A piece of a body. An empty one makes no frame: it would end the body.
pub fn body_frame(id: u32, chunk: &[u8]) -> (r: Option<Vec<u8>>)
    requires
        chunk@.len() <= u32::MAX,
    ensures
        match r {
            Some(f) => chunk@.len() > 0 && f@ == frame_bytes(
                plain_header(FrameKind::RequestBody, id, chunk@.len() as u32),
                chunk@,
            ),
            None => chunk@.len() == 0,
        },
{
    if chunk.len() == 0 {
        return None;
    }
    let h = FrameHeader::new(FrameKind::RequestBody, id, chunk.len() as u32);
    let mut out: Vec<u8> = Vec::new();
    push_frame(&mut out, &h, chunk);
    assert(out@ =~= frame_bytes(h, chunk@));
    Some(out)
}

/// A WebSocket message.
pub fn ws_frame(id: u32, opcode: u32, payload: &[u8]) -> (r: Vec<u8>)
    requires
        payload@.len() <= u32::MAX,
    ensures
        r@ == frame_bytes(
            FrameHeader {
                aux: opcode,
                ..plain_header(FrameKind::WsMessage, id, payload@.len() as u32)
            },
            payload@,
        ),
{
    let mut h = FrameHeader::new(FrameKind::WsMessage, id, payload.len() as u32);
    h.aux = opcode;
    let mut out: Vec<u8> = Vec::new();
    push_frame(&mut out, &h, payload);
    assert(out@ =~= frame_bytes(h, payload@));
    out
}

/// Why nothing more is read from a worker.
#[derive(Debug, Clone, Copy, PartialEq, Eq, Structural)]
pub enum FrameFault {
    Malformed(BwpError),
    /// It announces a payload of this length.
    TooLarge(u32),
}

/// Read a worker's frame header; its payload may only be read where this
/// succeeds.
pub fn read_header(head: &[u8; FRAME_HEADER_LEN]) -> (r: Result<FrameHeader, FrameFault>)
    ensures
        match header_of(head@) {
            Err(e) => r == Err::<FrameHeader, FrameFault>(FrameFault::Malformed(e)),
            Ok(h) => r == if h.payload_len > MAX_FRAME_PAYLOAD {
                Err(FrameFault::TooLarge(h.payload_len))
            } else {
                Ok::<FrameHeader, FrameFault>(h)
            },
        },
{
    match FrameHeader::decode(head) {
        Err(e) => Err(FrameFault::Malformed(e)),
        Ok(h) => if h.payload_len > MAX_FRAME_PAYLOAD {
            Err(FrameFault::TooLarge(h.payload_len))
        } else {
            Ok(h)
        },
    }
}

/// The name of a spill file of a process.
pub open spec fn spill_text(pid: u32, seq: u64) -> Seq<char> {
    "body-"@ + chars(dec(pid as nat)) + "-"@ + chars(dec(seq as nat))
}

pub fn spill_name(pid: u32, seq: u64) -> (r: String)
    ensures
        r@ == spill_text(pid, seq),
{
    let mut out = "body-".to_owned();
    append_dec(&mut out, pid as u64);
    out.append("-");
    append_dec(&mut out, seq);
    out
}

/// The process that a spill file belongs to, by the file's name.
pub open spec fn owner_of(name: Seq<u8>) -> Option<nat> {
    if !has_prefix(name, text("body-")) {
        None
    } else {
        number(until(name.subrange(text("body-").len() as int, name.len() as int), 45), 0x7fff_ffff)
    }
}

/// The process that a spill file belongs to; other files have none.
pub fn spill_owner(name: &str) -> (r: Option<i32>)
    ensures
        match owner_of(text(name)) {
            Some(pid) => r matches Some(p) && p == pid,
            None => r is None,
        },
{
    let b = name.as_bytes();
    let prefix = "body-".as_bytes();
    if !starts_with(b, prefix) {
        return None;
    }
    let rest = &b[prefix.len()..b.len()];
    let piece: &[u8] = match crate::bytes::find_byte(45, rest) {
        Some(i) => &rest[0..i],
        None => rest,
    };
    match parse_number(piece, 0x7fff_ffff) {
        Some(n) => Some(n as i32),
        None => None,
    }
}

/// A spill file's name tells the process that it belongs to.
pub proof fn spill_name_tells_its_owner(pid: u32, seq: u64)
    requires
        pid <= 0x7fff_ffff,
    ensures
        owner_of(encode_utf8(spill_text(pid, seq))) == Some(pid as nat),
{
    reveal_strlit("body-");
    reveal_strlit("-");
    let a = dec(pid as nat);
    let b = dec(seq as nat);
    digits_spell_their_number(pid as nat);
    digits_spell_their_number(seq as nat);
    let head = seq![98u8, 111, 100, 121, 45];
    let want = head + a + seq![45u8] + b;
    assert forall|i: int| 0 <= i < want.len() implies #[trigger] want[i] < 128 by {
        if head.len() <= i < head.len() + a.len() {
            assert(is_digit(a[i - head.len()]));
        } else if head.len() + a.len() + 1 <= i {
            assert(is_digit(b[i - head.len() - a.len() - 1]));
        }
    }
    assert(spill_text(pid, seq) =~= chars(want));
    lemma_ascii(want);
    assert("body-"@ =~= chars(head));
    lemma_ascii(head);
    assert(want.subrange(0, 5) =~= head);
    let rest = want.subrange(5, want.len() as int);
    let n = a.len() as int;
    assert(rest[n] == 45);
    assert forall|j: int| 0 <= j < n implies rest[j] != 45 by {
        assert(is_digit(a[j]));
        assert(rest[j] == a[j]);
    }
    lemma_find(rest, 45, n);
    assert(rest.subrange(0, n) =~= a);
    assert(is_digit(a[0]));
}

/// A worker's frame about a request that it has not claimed changes nothing
/// and reaches nobody.
pub proof fn unclaimed_frames_do_nothing(
    p: PoolModel,
    after: PoolModel,
    w: u32,
    h: FrameHeader,
    payload: Vec<u8>,
    now: u64,
    r: FrameOutcome,
)
    requires
        frame_effect(p, after, w, h, payload, now, r),
        !needs_no_claim(h.kind),
        !p.workers[w].claimed@.contains(h.request_id),
    ensures
        after == p,
        r is Dropped,
{
}

/// A request that a worker has claimed is not claimed by another: a second
/// claim leaves it with the first.
pub proof fn first_claim_stands(
    p: PoolModel,
    after: PoolModel,
    w: u32,
    h: FrameHeader,
    payload: Vec<u8>,
    now: u64,
    r: FrameOutcome,
)
    requires
        frame_effect(p, after, w, h, payload, now, r),
        h.kind is Claim,
        p.pending.dom().contains(h.request_id),
        p.pending[h.request_id].claimed is Some,
    ensures
        after.pending == p.pending,
{
}

/// No request is in the hands of a worker that has gone.
pub proof fn gone_worker_holds_nothing(p: PoolModel, w: u32, id: u32)
    requires
        p.wf(),
        !p.workers.dom().contains(w),
        p.pending.dom().contains(id),
    ensures
        p.pending[id].claimed matches Some((by, _)) ==> by != w,
{
    if p.pending[id].claimed is Some {
        assert(p.held_by(id, (p.pending[id].claimed->0).0));
    }
}

/// A worker holds at most as many requests as it was granted.
pub proof fn grant_is_kept(p: PoolModel, w: u32)
    requires
        p.wf(),
        p.workers.dom().contains(w),
    ensures
        p.workers[w].claimed@.len() <= p.workers[w].granted,
{
}

} // verus!
