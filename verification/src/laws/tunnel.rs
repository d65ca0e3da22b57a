//! What either side of an upgraded connection gets of what the other sends.

use vstd::prelude::*;
use vstd::string::*;
use vstd::utf8::{is_ascii_chars_encode_utf8, valid_utf8};

use crate::bytes::text;
use crate::router::dispatch::{DispatchError, WorkerEvent};
use crate::router::http1::tunnel::{client_step, Tunnel, TunnelModel, TunnelStep};
use crate::router::ws::{
    be_bytes, client_frame, client_frame_decodes, cut_frame, decode_next, length_field,
    server_header, Cut, DecodeError,
};

verus! {

/// The size of a payload as a frame's head gives it: in one byte, or in two or
/// eight behind a mark, the highest first.
pub open spec fn size_bytes(n: nat, bit: int) -> Seq<u8> {
    if n <= 125 {
        seq![(bit + n) as u8]
    } else if n <= 65535 {
        seq![(bit + 126) as u8, (n / 256) as u8, (n % 256) as u8]
    } else {
        seq![
            (bit + 127) as u8,
            (n / 0x100000000000000 % 256) as u8,
            (n / 0x1000000000000 % 256) as u8,
            (n / 0x10000000000 % 256) as u8,
            (n / 0x100000000 % 256) as u8,
            (n / 0x1000000 % 256) as u8,
            (n / 0x10000 % 256) as u8,
            (n / 0x100 % 256) as u8,
            (n % 256) as u8,
        ]
    }
}

/// A frame for the client: its first byte, the size and the payload as it is.
pub open spec fn to_client(first: u8, payload: Seq<u8>) -> Seq<u8> {
    seq![first] + size_bytes(payload.len(), 0) + payload
}

/// A frame of a client's: its payload is masked, byte by byte.
pub open spec fn by_client(first: u8, mask: Seq<u8>, payload: Seq<u8>) -> Seq<u8> {
    seq![first] + size_bytes(payload.len(), 128) + mask + Seq::new(
        payload.len(),
        |i: int| payload[i] ^ mask[i % 4],
    )
}

proof fn lemma_two(x: nat)
    requires
        x <= 65535,
    ensures
        be_bytes(x, 2) == seq![(x / 256) as u8, (x % 256) as u8],
{
    reveal_with_fuel(be_bytes, 3);
    assert(x / 256 % 256 == x / 256);
    assert(be_bytes(x, 2) =~= seq![(x / 256) as u8, (x % 256) as u8]);
}

#[verifier::spinoff_prover]
#[verifier::rlimit(50)]
proof fn lemma_size(n: nat, bit: int)
    requires
        bit == 0 || bit == 128,
        n <= u64::MAX,
    ensures
        length_field(n, bit) == size_bytes(n, bit),
{
    if 125 < n <= 65535 {
        lemma_two(n);
    }
    if n > 65535 {
        reveal_with_fuel(be_bytes, 9);
        assert(n / 256 / 256 == n / 0x10000);
        assert(n / 0x10000 / 256 == n / 0x1000000);
        assert(n / 0x1000000 / 256 == n / 0x100000000);
        assert(n / 0x100000000 / 256 == n / 0x10000000000);
        assert(n / 0x10000000000 / 256 == n / 0x1000000000000);
        assert(n / 0x1000000000000 / 256 == n / 0x100000000000000);
    }
    assert(length_field(n, bit) =~= size_bytes(n, bit));
}

proof fn lemma_to_client(opcode: u8, payload: Seq<u8>)
    requires
        opcode < 16,
        payload.len() <= u64::MAX,
    ensures
        server_header(opcode, payload.len()) + payload == to_client(
            (128 + opcode) as u8,
            payload,
        ),
{
    lemma_size(payload.len(), 0);
}

proof fn lemma_closes(code: u16)
    ensures
        be_bytes(code as nat, 2) == seq![(code / 256) as u8, (code % 256) as u8],
        text("") == Seq::<u8>::empty(),
{
    lemma_two(code as nat);
    reveal_strlit("");
    is_ascii_chars_encode_utf8(""@);
    assert(text("") =~= seq![]);
}

/// A message of the worker's keeps its kind and its payload: a text reaches the
/// client as a final text frame, binary data as a final binary frame. What closes
/// the worker's side closes the client's with the same payload, and no other
/// message reaches the client.
pub proof fn a_workers_message_keeps_its_kind(opcode: u32, payload: Vec<u8>, r: TunnelStep)
    requires
        call_ensures(Tunnel::from_worker, (Some(WorkerEvent::Ws { opcode, payload }),), r),
        payload@.len() <= u64::MAX,
    ensures
        opcode == 1 ==> r@ == TunnelModel::ToClient(to_client(0x81, payload@)),
        opcode == 2 ==> r@ == TunnelModel::ToClient(to_client(0x82, payload@)),
        opcode == 8 ==> r@ == TunnelModel::Close(None, to_client(0x88, payload@)),
        opcode != 1 && opcode != 2 && opcode != 8 ==> r@ is Skip,
{
    lemma_to_client(1, payload@);
    lemma_to_client(2, payload@);
    lemma_to_client(8, payload@);
}

/// A frame of a client's, with nothing of a message before it: a whole text
/// reaches the worker as text and binary data as binary data, each with the
/// payload that the client had before it masked it. A ping comes back with its
/// payload as a pong, a pong goes nowhere, and a close is passed on and comes back
/// with its payload. What follows the frame is left for later.
#[verifier::spinoff_prover]
#[verifier::rlimit(50)]
pub proof fn a_clients_message_keeps_its_kind(
    max: nat,
    mask: Seq<u8>,
    payload: Seq<u8>,
    rest: Seq<u8>,
)
    requires
        mask.len() == 4,
        payload.len() <= max,
        payload.len() <= u64::MAX,
    ensures
        ({
            let text = decode_next(max, None, by_client(0x81, mask, payload) + rest);
            let data = decode_next(max, None, by_client(0x82, mask, payload) + rest);
            let end = decode_next(max, None, by_client(0x88, mask, payload) + rest);
            let ping = decode_next(max, None, by_client(0x89, mask, payload) + rest);
            let pong = decode_next(max, None, by_client(0x8a, mask, payload) + rest);
            &&& client_step(data.answer) == TunnelModel::ToWorker(2, payload)
            &&& data.rest == rest && data.frag is None
            &&& text.rest == rest && text.frag is None
            &&& valid_utf8(payload) ==> client_step(text.answer) == TunnelModel::ToWorker(
                1,
                payload,
            )
            &&& !valid_utf8(payload) ==> client_step(text.answer) == TunnelModel::Close(
                Some(seq![3, 239]),
                to_client(0x88, seq![3, 239]),
            )
            &&& payload.len() <= 125 ==> {
                &&& client_step(ping.answer) == TunnelModel::ToClient(to_client(0x8a, payload))
                &&& client_step(pong.answer) is Skip
                &&& client_step(end.answer) == TunnelModel::Close(
                    Some(payload),
                    to_client(0x88, payload),
                )
                &&& ping.rest == rest && pong.rest == rest && end.rest == rest
            }
        }),
{
    lemma_size(payload.len(), 128);
    lemma_closes(1007);
    let bad = seq![3u8, 239];
    assert(bad + Seq::<u8>::empty() =~= bad);
    lemma_to_client(8, bad);
    lemma_to_client(8, payload);
    lemma_to_client(10, payload);
    lemma_whole(1, max, mask, payload, rest);
    lemma_whole(2, max, mask, payload, rest);
    if payload.len() <= 125 {
        lemma_whole(8, max, mask, payload, rest);
        lemma_whole(9, max, mask, payload, rest);
        lemma_whole(10, max, mask, payload, rest);
    }
}

proof fn lemma_whole(opcode: u8, max: nat, mask: Seq<u8>, payload: Seq<u8>, rest: Seq<u8>)
    requires
        opcode < 16,
        mask.len() == 4,
        payload.len() <= max,
        payload.len() <= u64::MAX,
        opcode >= 8 ==> payload.len() <= 125,
    ensures
        ({
            let frame = by_client((128 + opcode) as u8, mask, payload);
            &&& cut_frame(frame + rest, max) == (
            Cut::Frame {
                fin: true,
                opcode,
                payload,
                used: frame.len() as int,
            })
            &&& (frame + rest).subrange(frame.len() as int, (frame + rest).len() as int) == rest
        }),
{
    lemma_size(payload.len(), 128);
    let frame = by_client((128 + opcode) as u8, mask, payload);
    assert(frame =~= client_frame(true, opcode, mask, payload));
    client_frame_decodes(true, opcode, mask, payload, rest, max);
    assert((frame + rest).subrange(frame.len() as int, (frame + rest).len() as int) =~= rest);
}

/// How a tunnel ends says why. A worker that is done ends it normally (1000), one
/// that failed or is lost with an internal error (1011). A client that is lost or
/// idle is going away (1001), and the worker is told so.
#[verifier::spinoff_prover]
#[verifier::rlimit(50)]
pub proof fn an_end_says_why(
    failure: DispatchError,
    done: TunnelStep,
    gone: TunnelStep,
    failed: TunnelStep,
    worker_lost: TunnelStep,
    client_lost: TunnelStep,
    idle: TunnelStep,
)
    requires
        call_ensures(Tunnel::from_worker, (Some(WorkerEvent::End),), done),
        call_ensures(Tunnel::from_worker, (None,), gone),
        call_ensures(Tunnel::from_worker, (Some(WorkerEvent::Failed(failure)),), failed),
        call_ensures(Tunnel::worker_lost, (), worker_lost),
        call_ensures(Tunnel::client_lost, (), client_lost),
        call_ensures(Tunnel::idle, (), idle),
    ensures
        done@ == TunnelModel::Close(None, seq![0x88, 2, 3, 232]),
        gone@ == done@,
        failed@ == TunnelModel::Close(None, seq![0x88, 2, 3, 243]),
        worker_lost@ == failed@,
        client_lost@ == TunnelModel::Close(Some(seq![3, 233]), seq![]),
        idle@ == TunnelModel::Close(
            Some(seq![3, 233]),
            to_client(0x88, seq![3, 233] + text("idle timeout")),
        ),
{
    lemma_closes(1000);
    lemma_closes(1001);
    lemma_closes(1011);
    reveal_strlit("idle timeout");
    is_ascii_chars_encode_utf8("idle timeout"@);
    let normal = seq![3u8, 232];
    let internal = seq![3u8, 243];
    let away = seq![3u8, 233];
    assert(normal + Seq::<u8>::empty() =~= normal);
    assert(internal + Seq::<u8>::empty() =~= internal);
    lemma_to_client(8, normal);
    lemma_to_client(8, internal);
    lemma_to_client(8, away + text("idle timeout"));
    assert(to_client(0x88, normal) =~= seq![0x88, 2, 3, 232]);
    assert(to_client(0x88, internal) =~= seq![0x88, 2, 3, 243]);
}

/// A client that breaks the protocol is told so (1002), and so is one whose
/// message is too big (1009); the worker learns the same code.
pub proof fn a_fault_of_the_client_is_named(fault: DecodeError)
    ensures
        ({
            let code: Seq<u8> = if fault is TooBig {
                seq![3, 241]
            } else if fault is BadUtf8 {
                seq![3, 239]
            } else {
                seq![3, 234]
            };
            client_step(Err(fault)) == TunnelModel::Close(Some(code), to_client(0x88, code))
        }),
{
    lemma_closes(1002);
    lemma_closes(1007);
    lemma_closes(1009);
    let a = seq![3u8, 234];
    let b = seq![3u8, 239];
    let c = seq![3u8, 241];
    assert(a + Seq::<u8>::empty() =~= a);
    assert(b + Seq::<u8>::empty() =~= b);
    assert(c + Seq::<u8>::empty() =~= c);
    lemma_to_client(8, a);
    lemma_to_client(8, b);
    lemma_to_client(8, c);
}

} // verus!
