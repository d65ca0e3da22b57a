//! An upgraded connection: messages between the client and the worker. Pings
//! and the closing handshake do not leave the router.

use vstd::prelude::*;

use crate::bytes::{push_bytes, text};
use crate::ipc::{WS_OP_BINARY, WS_OP_CLOSE, WS_OP_TEXT};
use crate::router::dispatch::WorkerEvent;
use crate::router::ws::{
    be_bytes, close_payload, decode_next, encode_close, encode_frame, push_be, server_header,
    DecodeError, Decoder, Message, MessageModel, CLOSE_GOING_AWAY, CLOSE_INTERNAL, CLOSE_NORMAL,
    OP_BINARY, OP_CLOSE, OP_PONG, OP_TEXT,
};

verus! {

/// What to do next.
#[derive(Debug)]
pub enum TunnelStep {
    /// Nothing; look at what else has arrived.
    Skip,
    /// Nothing is left to do until something happens.
    Need,
    ToClient(Vec<u8>),
    ToWorker { opcode: u32, payload: Vec<u8> },
    /// The tunnel is down: tell the worker and the client, and close.
    Close { to_worker: Option<Vec<u8>>, to_client: Vec<u8> },
}

pub enum TunnelModel {
    Skip,
    Need,
    ToClient(Seq<u8>),
    ToWorker(u32, Seq<u8>),
    /// What the worker's close message carries, and what the client gets.
    Close(Option<Seq<u8>>, Seq<u8>),
}

impl View for TunnelStep {
    type V = TunnelModel;

    open spec fn view(&self) -> TunnelModel {
        match self {
            TunnelStep::Skip => TunnelModel::Skip,
            TunnelStep::Need => TunnelModel::Need,
            TunnelStep::ToClient(b) => TunnelModel::ToClient(b@),
            TunnelStep::ToWorker { opcode, payload } => TunnelModel::ToWorker(*opcode, payload@),
            TunnelStep::Close { to_worker, to_client } => TunnelModel::Close(
                match to_worker {
                    Some(p) => Some(p@),
                    None => None,
                },
                to_client@,
            ),
        }
    }
}

/// A frame of the router's.
pub open spec fn frame(opcode: u8, payload: Seq<u8>) -> Seq<u8> {
    server_header(opcode, payload.len()) + payload
}

/// A close frame with a code and a reason.
pub open spec fn close_frame(code: u16, reason: Seq<u8>) -> Seq<u8> {
    frame(OP_CLOSE, close_payload(code, reason))
}

pub open spec fn close_code(e: DecodeError) -> u16 {
    match e {
        DecodeError::Protocol(_) => 1002,
        DecodeError::TooBig => 1009,
        DecodeError::BadUtf8 => 1007,
    }
}

/// What follows from what the client has sent.
pub open spec fn client_step(answer: Result<Option<MessageModel>, DecodeError>) -> TunnelModel {
    match answer {
        Ok(None) => TunnelModel::Need,
        Ok(Some(MessageModel::Text(p))) => TunnelModel::ToWorker(WS_OP_TEXT, p),
        Ok(Some(MessageModel::Binary(p))) => TunnelModel::ToWorker(WS_OP_BINARY, p),
        Ok(Some(MessageModel::Ping(p))) => TunnelModel::ToClient(frame(OP_PONG, p)),
        Ok(Some(MessageModel::Pong(_))) => TunnelModel::Skip,
        Ok(Some(MessageModel::Close(p))) => TunnelModel::Close(Some(p), frame(OP_CLOSE, p)),
        Err(e) => TunnelModel::Close(
            Some(be_bytes(close_code(e) as nat, 2)),
            close_frame(close_code(e), text("")),
        ),
    }
}

/// What follows from what the worker has sent; nothing means that its events
/// have ended.
pub open spec fn worker_step(event: Option<WorkerEvent>) -> TunnelModel {
    match event {
        Some(WorkerEvent::Ws { opcode, payload }) => if opcode == WS_OP_TEXT {
            TunnelModel::ToClient(frame(OP_TEXT, payload@))
        } else if opcode == WS_OP_BINARY {
            TunnelModel::ToClient(frame(OP_BINARY, payload@))
        } else if opcode == WS_OP_CLOSE {
            TunnelModel::Close(None, frame(OP_CLOSE, payload@))
        } else {
            TunnelModel::Skip
        },
        Some(WorkerEvent::End) | None => TunnelModel::Close(
            None,
            close_frame(CLOSE_NORMAL, text("")),
        ),
        Some(WorkerEvent::Failed(_)) => TunnelModel::Close(
            None,
            close_frame(CLOSE_INTERNAL, text("")),
        ),
        _ => TunnelModel::Skip,
    }
}

/// A tunnel: what the client has sent and was not taken yet.
pub struct Tunnel {
    decoder: Decoder,
    buf: Vec<u8>,
}

fn code_bytes(code: u16) -> (r: Vec<u8>)
    ensures
        r@ == be_bytes(code as nat, 2),
{
    let mut out: Vec<u8> = Vec::new();
    push_be(&mut out, code as u64, 2);
    assert(out@ =~= be_bytes(code as nat, 2));
    out
}

impl Tunnel {
    pub closed spec fn limit(self) -> nat {
        self.decoder.limit()
    }

    /// The fragmented message in progress.
    pub closed spec fn pending(self) -> Option<(u8, Seq<u8>)> {
        self.decoder.pending()
    }

    /// The bytes that were not taken yet.
    pub closed spec fn buffered(self) -> Seq<u8> {
        self.buf@
    }

    /// A tunnel whose client has sent `early` bytes behind its request.
    pub fn new(max_message: usize, early: Vec<u8>) -> (r: Self)
        ensures
            r.limit() == max_message,
            r.pending() is None,
            r.buffered() == early@,
    {
        Tunnel { decoder: Decoder::new(max_message), buf: early }
    }

    /// The client has sent something.
    pub fn feed(&mut self, data: &[u8])
        ensures
            final(self).limit() == old(self).limit(),
            final(self).pending() == old(self).pending(),
            final(self).buffered() == old(self).buffered() + data@,
    {
        push_bytes(&mut self.buf, data);
    }

    /// Take the next message of the client.
    pub fn from_client(&mut self) -> (r: TunnelStep)
        ensures
            final(self).limit() == old(self).limit(),
            ({
                let d = decode_next(old(self).limit(), old(self).pending(), old(self).buffered());
                &&& r@ == client_step(d.answer)
                &&& final(self).pending() == d.frag
                &&& final(self).buffered() == d.rest
            }),
    {
        match self.decoder.next(&mut self.buf) {
            Ok(None) => TunnelStep::Need,
            Ok(Some(m)) => match m {
                Message::Text(payload) => TunnelStep::ToWorker { opcode: WS_OP_TEXT, payload },
                Message::Binary(payload) => TunnelStep::ToWorker { opcode: WS_OP_BINARY, payload },
                Message::Ping(p) => TunnelStep::ToClient(encode_frame(OP_PONG, p.as_slice())),
                Message::Pong(_) => TunnelStep::Skip,
                Message::Close(p) => {
                    let to_client = encode_frame(OP_CLOSE, p.as_slice());
                    TunnelStep::Close { to_worker: Some(p), to_client }
                },
            },
            Err(e) => {
                let code: u16 = e.close_code();
                TunnelStep::Close {
                    to_worker: Some(code_bytes(code)),
                    to_client: encode_close(code, ""),
                }
            },
        }
    }

    /// Take an event of the worker; nothing means that its events have ended.
    pub fn from_worker(event: Option<WorkerEvent>) -> (r: TunnelStep)
        ensures
            r@ == worker_step(event),
    {
        match event {
            Some(WorkerEvent::Ws { opcode, payload }) => if opcode == WS_OP_TEXT {
                TunnelStep::ToClient(encode_frame(OP_TEXT, payload.as_slice()))
            } else if opcode == WS_OP_BINARY {
                TunnelStep::ToClient(encode_frame(OP_BINARY, payload.as_slice()))
            } else if opcode == WS_OP_CLOSE {
                TunnelStep::Close {
                    to_worker: None,
                    to_client: encode_frame(OP_CLOSE, payload.as_slice()),
                }
            } else {
                TunnelStep::Skip
            },
            Some(WorkerEvent::End) | None => TunnelStep::Close {
                to_worker: None,
                to_client: encode_close(CLOSE_NORMAL, ""),
            },
            Some(WorkerEvent::Failed(_)) => TunnelStep::Close {
                to_worker: None,
                to_client: encode_close(CLOSE_INTERNAL, ""),
            },
            _ => TunnelStep::Skip,
        }
    }

    /// The worker could not be reached.
    pub fn worker_lost() -> (r: TunnelStep)
        ensures
            r@ == TunnelModel::Close(None, close_frame(CLOSE_INTERNAL, text(""))),
    {
        TunnelStep::Close { to_worker: None, to_client: encode_close(CLOSE_INTERNAL, "") }
    }

    /// The client has gone without a close frame.
    pub fn client_lost() -> (r: TunnelStep)
        ensures
            r@ == TunnelModel::Close(Some(be_bytes(CLOSE_GOING_AWAY as nat, 2)), seq![]),
    {
        let nothing: Vec<u8> = Vec::new();
        assert(nothing@ =~= Seq::<u8>::empty());
        TunnelStep::Close { to_worker: Some(code_bytes(CLOSE_GOING_AWAY)), to_client: nothing }
    }

    /// Nothing has come from either side for too long.
    pub fn idle() -> (r: TunnelStep)
        ensures
            r@ == TunnelModel::Close(
                Some(be_bytes(CLOSE_GOING_AWAY as nat, 2)),
                close_frame(CLOSE_GOING_AWAY, text("idle timeout")),
            ),
    {
        TunnelStep::Close {
            to_worker: Some(code_bytes(CLOSE_GOING_AWAY)),
            to_client: encode_close(CLOSE_GOING_AWAY, "idle timeout"),
        }
    }
}

/// A ping is answered with a pong that carries the same, and never reaches the
/// worker.
pub proof fn ping_is_answered(p: Seq<u8>)
    ensures
        client_step(Ok(Some(MessageModel::Ping(p)))) == TunnelModel::ToClient(frame(OP_PONG, p)),
{
}

} // verus!
