//! Frame layout: a fixed 16-byte header followed by `payload_len` bytes.

use vstd::prelude::*;

use crate::bytes::{le32, le_bytes, lemma_le32, push_bytes, read_u32, u32_at};
use crate::ipc::BwpError;

verus! {

pub const FRAME_HEADER_LEN: usize = 16;

#[derive(Debug, Clone, Copy, PartialEq, Eq, Structural)]
pub enum FrameKind {
    /// Worker to router, first frame: magic, version and capabilities.
    Hello,
    /// Router to worker: accepted version and granted concurrency.
    HelloAck,
    /// Router to worker: flat request.
    Request,
    /// Router to worker: one body chunk; an empty one ends the body.
    RequestBody,
    /// Router to workers on the shared socket: one idle worker exits.
    Retire,
    /// Worker to router: the request is mine.
    Claim,
    /// Worker to router: status (aux) and serialized header block.
    ResponseHeaders,
    /// Worker to router: response body chunk.
    ResponseBody,
    /// Worker to router: forward what is buffered and keep the response open.
    Flush,
    /// Worker to router: the client response is complete.
    End,
    /// Worker to router: the task is fully finished; frees its slot.
    Done,
    /// Worker to router: the request failed; also frees its slot.
    Error,
    /// Router to worker: liveness probe about one task.
    Ping,
    /// Worker to router: answer to a probe, status in `aux`.
    Pong,
    /// Router to worker: the client of this request is gone.
    Abort,
    /// Worker to router: line for the error log.
    Log,
    /// Both directions after an accepted upgrade: one WebSocket message.
    WsMessage,
}

/// The byte that stands for a kind on the wire.
pub open spec fn kind_code(k: FrameKind) -> u8 {
    match k {
        FrameKind::Hello => 1,
        FrameKind::HelloAck => 2,
        FrameKind::Request => 3,
        FrameKind::RequestBody => 4,
        FrameKind::Retire => 5,
        FrameKind::Claim => 6,
        FrameKind::ResponseHeaders => 7,
        FrameKind::ResponseBody => 8,
        FrameKind::Flush => 9,
        FrameKind::End => 10,
        FrameKind::Done => 11,
        FrameKind::Error => 12,
        FrameKind::Ping => 13,
        FrameKind::Pong => 14,
        FrameKind::Abort => 15,
        FrameKind::Log => 16,
        FrameKind::WsMessage => 17,
    }
}

/// The kind whose wire byte is `v`.
pub open spec fn kind_of(v: u8) -> Result<FrameKind, BwpError> {
    match v {
        1 => Ok(FrameKind::Hello),
        2 => Ok(FrameKind::HelloAck),
        3 => Ok(FrameKind::Request),
        4 => Ok(FrameKind::RequestBody),
        5 => Ok(FrameKind::Retire),
        6 => Ok(FrameKind::Claim),
        7 => Ok(FrameKind::ResponseHeaders),
        8 => Ok(FrameKind::ResponseBody),
        9 => Ok(FrameKind::Flush),
        10 => Ok(FrameKind::End),
        11 => Ok(FrameKind::Done),
        12 => Ok(FrameKind::Error),
        13 => Ok(FrameKind::Ping),
        14 => Ok(FrameKind::Pong),
        15 => Ok(FrameKind::Abort),
        16 => Ok(FrameKind::Log),
        17 => Ok(FrameKind::WsMessage),
        _ => Err(BwpError::UnknownKind(v)),
    }
}

impl FrameKind {
    /// The byte that stands for this kind on the wire.
    pub fn code(self) -> (r: u8)
        ensures
            r == kind_code(self),
    {
        match self {
            FrameKind::Hello => 1,
            FrameKind::HelloAck => 2,
            FrameKind::Request => 3,
            FrameKind::RequestBody => 4,
            FrameKind::Retire => 5,
            FrameKind::Claim => 6,
            FrameKind::ResponseHeaders => 7,
            FrameKind::ResponseBody => 8,
            FrameKind::Flush => 9,
            FrameKind::End => 10,
            FrameKind::Done => 11,
            FrameKind::Error => 12,
            FrameKind::Ping => 13,
            FrameKind::Pong => 14,
            FrameKind::Abort => 15,
            FrameKind::Log => 16,
            FrameKind::WsMessage => 17,
        }
    }

    /// The kind whose wire byte is `v`; 1 to 17 name a kind, nothing else does.
    pub fn try_from(v: u8) -> (r: Result<Self, BwpError>)
        ensures
            r == kind_of(v),
    {
        Ok(
            match v {
                1 => FrameKind::Hello,
                2 => FrameKind::HelloAck,
                3 => FrameKind::Request,
                4 => FrameKind::RequestBody,
                5 => FrameKind::Retire,
                6 => FrameKind::Claim,
                7 => FrameKind::ResponseHeaders,
                8 => FrameKind::ResponseBody,
                9 => FrameKind::Flush,
                10 => FrameKind::End,
                11 => FrameKind::Done,
                12 => FrameKind::Error,
                13 => FrameKind::Ping,
                14 => FrameKind::Pong,
                15 => FrameKind::Abort,
                16 => FrameKind::Log,
                17 => FrameKind::WsMessage,
                other => {
                    return Err(BwpError::UnknownKind(other));
                },
            },
        )
    }
}

/// ```text
/// 0    1      2        4            8             12         16
/// kind flags  reserved request_id   payload_len   aux
/// u8   u8     u16      u32          u32           u32
/// ```
#[derive(Debug, Clone, Copy, PartialEq, Eq, Structural)]
pub struct FrameHeader {
    pub kind: FrameKind,
    pub flags: u8,
    pub request_id: u32,
    pub payload_len: u32,
    pub aux: u32,
}

/// The header as it stands on the wire.
pub open spec fn header_bytes(h: FrameHeader) -> Seq<u8> {
    seq![kind_code(h.kind), h.flags, 0u8, 0u8] + le32(h.request_id) + le32(h.payload_len) + le32(
        h.aux,
    )
}

/// The header that sixteen bytes stand for; the two reserved ones do not count.
pub open spec fn header_of(buf: Seq<u8>) -> Result<FrameHeader, BwpError> {
    match kind_of(buf[0]) {
        Ok(kind) => Ok(
            FrameHeader {
                kind,
                flags: buf[1],
                request_id: u32_at(buf, 4),
                payload_len: u32_at(buf, 8),
                aux: u32_at(buf, 12),
            },
        ),
        Err(e) => Err(e),
    }
}

/// A whole frame on the wire: its header, then its payload.
pub open spec fn frame_bytes(h: FrameHeader, payload: Seq<u8>) -> Seq<u8> {
    header_bytes(h) + payload
}

/// A header with the given kind, id and length and nothing else set.
pub open spec fn plain_header(kind: FrameKind, request_id: u32, payload_len: u32) -> FrameHeader {
    FrameHeader { kind, flags: 0, request_id, payload_len, aux: 0 }
}

impl FrameHeader {
    pub fn new(kind: FrameKind, request_id: u32, payload_len: u32) -> (r: Self)
        ensures
            r == plain_header(kind, request_id, payload_len),
    {
        FrameHeader { kind, flags: 0, request_id, payload_len, aux: 0 }
    }

    pub fn encode(&self) -> (r: [u8; FRAME_HEADER_LEN])
        ensures
            r@ == header_bytes(*self),
    {
        let a = le_bytes(self.request_id);
        let b = le_bytes(self.payload_len);
        let c = le_bytes(self.aux);
        let r = [
            self.kind.code(),
            self.flags,
            0,
            0,
            a[0],
            a[1],
            a[2],
            a[3],
            b[0],
            b[1],
            b[2],
            b[3],
            c[0],
            c[1],
            c[2],
            c[3],
        ];
        assert(r@ =~= header_bytes(*self));
        r
    }

    /// Reads a header; the two reserved bytes are not looked at.
    pub fn decode(buf: &[u8; FRAME_HEADER_LEN]) -> (r: Result<Self, BwpError>)
        ensures
            r == header_of(buf@),
    {
        match FrameKind::try_from(buf[0]) {
            Ok(kind) => Ok(
                FrameHeader {
                    kind,
                    flags: buf[1],
                    request_id: read_u32(buf.as_slice(), 4),
                    payload_len: read_u32(buf.as_slice(), 8),
                    aux: read_u32(buf.as_slice(), 12),
                },
            ),
            Err(e) => Err(e),
        }
    }
}

/// The kinds and the bytes 1 to 17 stand for each other.
pub proof fn kind_roundtrip(k: FrameKind, v: u8)
    ensures
        kind_of(kind_code(k)) == Ok::<FrameKind, BwpError>(k),
        kind_of(v) matches Ok(q) ==> kind_code(q) == v,
        kind_of(v) is Ok <==> 1 <= v <= 17,
{
}

/// A header written to the wire reads back as itself.
pub proof fn header_roundtrip(h: FrameHeader)
    ensures
        header_bytes(h).len() == FRAME_HEADER_LEN,
        header_of(header_bytes(h)) == Ok::<FrameHeader, BwpError>(h),
{
    let buf = header_bytes(h);
    assert(buf.subrange(4, 8) =~= le32(h.request_id));
    assert(buf.subrange(8, 12) =~= le32(h.payload_len));
    assert(buf.subrange(12, 16) =~= le32(h.aux));
    lemma_le32(buf, 4, h.request_id);
    lemma_le32(buf, 8, h.payload_len);
    lemma_le32(buf, 12, h.aux);
    kind_roundtrip(h.kind, 0);
}

/// Append one frame to a batched output buffer.
pub fn push_frame(out: &mut Vec<u8>, header: &FrameHeader, payload: &[u8])
    ensures
        final(out)@ == old(out)@ + frame_bytes(*header, payload@),
{
    let h = header.encode();
    push_bytes(out, h.as_slice());
    push_bytes(out, payload);
    assert(out@ =~= old(out)@ + frame_bytes(*header, payload@));
}

} // verus!
