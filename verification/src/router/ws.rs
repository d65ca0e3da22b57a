//! Server side of the WebSocket wire protocol.
//!
//! The decoder checks masking, reserved bits and opcodes, puts fragmented
//! messages together and enforces the size limit; the encoder emits single
//! unmasked frames. No extension is negotiated, so the reserved bits are zero.

pub mod stream;

use base64::Engine;
use sha1::Digest;
use vstd::prelude::*;
use vstd::string::*;
use vstd::utf8::valid_utf8;

use crate::bytes::{push_bytes, push_str, text, to_vec, utf8};

verus! {

pub const CLOSE_NORMAL: u16 = 1000;

pub const CLOSE_GOING_AWAY: u16 = 1001;

pub const CLOSE_PROTOCOL_ERROR: u16 = 1002;

pub const CLOSE_BAD_DATA: u16 = 1007;

pub const CLOSE_TOO_BIG: u16 = 1009;

pub const CLOSE_INTERNAL: u16 = 1011;

pub const OP_CONTINUATION: u8 = 0;

pub const OP_TEXT: u8 = 1;

pub const OP_BINARY: u8 = 2;

pub const OP_CLOSE: u8 = 8;

pub const OP_PING: u8 = 9;

pub const OP_PONG: u8 = 10;

/// SHA-1 digest of a byte string, as the `sha1` crate computes it.
pub uninterp spec fn sha1_digest(data: Seq<u8>) -> Seq<u8>;

/// Base64 text of a byte string in the standard alphabet with padding, as the
/// `base64` crate writes it.
pub uninterp spec fn base64_text(data: Seq<u8>) -> Seq<char>;

/// Calls `Sha1::digest` of the `sha1` crate: a function of the bytes alone,
/// twenty bytes long.
#[verifier::external_body]
fn sha1(data: &[u8]) -> (r: Vec<u8>)
    ensures
        r@ == sha1_digest(data@),
        r@.len() == 20,
{
    sha1::Sha1::digest(data).to_vec()
}

/// Calls `encode` of the `base64` crate's standard engine: a function of the
/// bytes alone. It panics where the text would be longer than a string can be,
/// so only short inputs are taken.
#[verifier::external_body]
fn base64(data: &[u8]) -> (r: String)
    requires
        data@.len() <= 65536,
    ensures
        r@ == base64_text(data@),
{
    base64::engine::general_purpose::STANDARD.encode(data)
}

/// The string that the handshake appends to the client's key.
pub open spec fn guid() -> Seq<u8> {
    text("258EAFA5-E914-47DA-95CA-C5AB0DC85B11")
}

/// `Sec-WebSocket-Accept` for a client's `Sec-WebSocket-Key`.
pub fn accept_key(key: &[u8]) -> (r: String)
    ensures
        r@ == base64_text(sha1_digest(key@ + guid())),
{
    let mut whole: Vec<u8> = to_vec(key);
    push_str(&mut whole, "258EAFA5-E914-47DA-95CA-C5AB0DC85B11");
    let digest = sha1(whole.as_slice());
    base64(digest.as_slice())
}

/// One complete message out of the decoder, fragments already merged.
#[derive(Debug, PartialEq, Eq)]
pub enum Message {
    /// Payload is valid UTF-8.
    Text(Vec<u8>),
    Binary(Vec<u8>),
    /// Raw close payload: empty, or a big-endian code and a UTF-8 reason.
    Close(Vec<u8>),
    Ping(Vec<u8>),
    Pong(Vec<u8>),
}

/// What a message carries.
pub enum MessageModel {
    Text(Seq<u8>),
    Binary(Seq<u8>),
    Close(Seq<u8>),
    Ping(Seq<u8>),
    Pong(Seq<u8>),
}

impl View for Message {
    type V = MessageModel;

    open spec fn view(&self) -> MessageModel {
        match self {
            Message::Text(p) => MessageModel::Text(p@),
            Message::Binary(p) => MessageModel::Binary(p@),
            Message::Close(p) => MessageModel::Close(p@),
            Message::Ping(p) => MessageModel::Ping(p@),
            Message::Pong(p) => MessageModel::Pong(p@),
        }
    }
}

/// Decode failures map straight to close codes.
#[derive(Debug, Clone, Copy, PartialEq, Eq)]
pub enum DecodeError {
    /// Bad framing: unmasked client frame, reserved bits, bad opcode, broken
    /// fragmentation, oversized control frame.
    Protocol(&'static str),
    /// Message over the configured limit.
    TooBig,
    /// Text message that is not valid UTF-8.
    BadUtf8,
}

impl DecodeError {
    pub fn close_code(&self) -> (r: u16)
        ensures
            r == (match *self {
                DecodeError::Protocol(_) => 1002,
                DecodeError::TooBig => 1009,
                DecodeError::BadUtf8 => 1007u16,
            }),
    {
        match self {
            DecodeError::Protocol(_) => CLOSE_PROTOCOL_ERROR,
            DecodeError::TooBig => CLOSE_TOO_BIG,
            DecodeError::BadUtf8 => CLOSE_BAD_DATA,
        }
    }
}

/// The number that big-endian bytes spell.
pub open spec fn be(s: Seq<u8>) -> nat
    decreases s.len(),
{
    if s.len() == 0 {
        0
    } else {
        be(s.drop_last()) * 256 + s.last() as nat
    }
}

/// Big-endian bytes of `x`, `n` of them.
pub open spec fn be_bytes(x: nat, n: nat) -> Seq<u8>
    decreases n,
{
    if n == 0 {
        seq![]
    } else {
        be_bytes(x / 256, (n - 1) as nat).push((x % 256) as u8)
    }
}

/// What the front of a client's byte stream holds.
pub enum Cut {
    /// Not a whole frame yet.
    More,
    Bad(DecodeError),
    /// A frame of `used` bytes, its payload unmasked.
    Frame { fin: bool, opcode: u8, payload: Seq<u8>, used: int },
}

/// Bytes of the frame header that hold the length: none, two or eight.
pub open spec fn length_bytes(b1: u8) -> int {
    if b1 % 128 == 126 {
        2
    } else if b1 % 128 == 127 {
        8
    } else {
        0
    }
}

pub open spec fn payload_length(buf: Seq<u8>) -> nat {
    if length_bytes(buf[1]) == 0 {
        (buf[1] % 128) as nat
    } else {
        be(buf.subrange(2, 2 + length_bytes(buf[1])))
    }
}

/// A payload with a four-byte mask applied; applied twice it is gone.
pub open spec fn masked(payload: Seq<u8>, mask: Seq<u8>) -> Seq<u8> {
    Seq::new(payload.len(), |i: int| payload[i] ^ mask[i % 4])
}

/// One client frame cut off the front of `buf`.
pub open spec fn cut_frame(buf: Seq<u8>, max: nat) -> Cut {
    if buf.len() < 2 {
        Cut::More
    } else if buf[0] / 16 % 8 != 0 {
        Cut::Bad(DecodeError::Protocol("rsv bits set without an extension"))
    } else if buf[1] < 128 {
        Cut::Bad(DecodeError::Protocol("unmasked client frame"))
    } else if buf.len() < 2 + length_bytes(buf[1]) {
        Cut::More
    } else {
        let head = 2 + length_bytes(buf[1]);
        let len = payload_length(buf);
        let opcode = buf[0] % 16;
        if opcode >= 8 && len > 125 {
            Cut::Bad(DecodeError::Protocol("control frame over 125 bytes"))
        } else if opcode < 8 && len > max {
            Cut::Bad(DecodeError::TooBig)
        } else if buf.len() < head + 4 + len {
            Cut::More
        } else {
            Cut::Frame {
                fin: buf[0] >= 128,
                opcode,
                payload: masked(
                    buf.subrange(head + 4, head + 4 + len),
                    buf.subrange(head, head + 4),
                ),
                used: head + 4 + len,
            }
        }
    }
}

/// A whole data message, or the failure of its text.
pub open spec fn finished(opcode: u8, payload: Seq<u8>) -> Result<Option<MessageModel>, DecodeError> {
    if opcode == OP_TEXT {
        if valid_utf8(payload) {
            Ok(Some(MessageModel::Text(payload)))
        } else {
            Err(DecodeError::BadUtf8)
        }
    } else {
        Ok(Some(MessageModel::Binary(payload)))
    }
}

/// What one call of the decoder yields and leaves: the answer, the fragmented
/// message in progress and the bytes that are left.
pub struct Decoded {
    pub answer: Result<Option<MessageModel>, DecodeError>,
    pub frag: Option<(u8, Seq<u8>)>,
    pub rest: Seq<u8>,
}

/// The next message of a byte stream. Control frames between fragments come
/// out on their own; data fragments gather until their final frame.
pub open spec fn decode_next(max: nat, frag: Option<(u8, Seq<u8>)>, buf: Seq<u8>) -> Decoded
    decreases buf.len(),
{
    match cut_frame(buf, max) {
        Cut::More => Decoded { answer: Ok(None), frag, rest: buf },
        Cut::Bad(e) => Decoded { answer: Err(e), frag, rest: buf },
        Cut::Frame { fin, opcode, payload, used } => {
            let rest = buf.subrange(used, buf.len() as int);
            if opcode == OP_CLOSE || opcode == OP_PING || opcode == OP_PONG {
                if !fin {
                    Decoded {
                        answer: Err(DecodeError::Protocol("fragmented control frame")),
                        frag,
                        rest,
                    }
                } else {
                    let m = if opcode == OP_CLOSE {
                        MessageModel::Close(payload)
                    } else if opcode == OP_PING {
                        MessageModel::Ping(payload)
                    } else {
                        MessageModel::Pong(payload)
                    };
                    Decoded { answer: Ok(Some(m)), frag, rest }
                }
            } else if opcode == OP_TEXT || opcode == OP_BINARY {
                if frag is Some {
                    Decoded {
                        answer: Err(
                            DecodeError::Protocol("new message inside a fragmented one"),
                        ),
                        frag,
                        rest,
                    }
                } else if fin {
                    Decoded { answer: finished(opcode, payload), frag, rest }
                } else {
                    decode_next(max, Some((opcode, payload)), rest)
                }
            } else if opcode == OP_CONTINUATION {
                match frag {
                    None => Decoded {
                        answer: Err(DecodeError::Protocol("continuation without a start")),
                        frag,
                        rest,
                    },
                    Some((op, held)) => {
                        if held.len() + payload.len() > max {
                            Decoded { answer: Err(DecodeError::TooBig), frag, rest }
                        } else if fin {
                            Decoded { answer: finished(op, held + payload), frag: None, rest }
                        } else {
                            decode_next(max, Some((op, held + payload)), rest)
                        }
                    },
                }
            } else {
                Decoded { answer: Err(DecodeError::Protocol("reserved opcode")), frag, rest }
            }
        },
    }
}

/// Incremental decoder over a caller-owned buffer.
pub struct Decoder {
    max_message: usize,
    /// Data opcode of the fragmented message in progress.
    frag_opcode: Option<u8>,
    frag: Vec<u8>,
}

struct Frame {
    fin: bool,
    opcode: u8,
    payload: Vec<u8>,
}

impl Decoder {
    pub closed spec fn limit(self) -> nat {
        self.max_message as nat
    }

    /// The fragmented message in progress: its opcode and what has arrived.
    pub closed spec fn pending(self) -> Option<(u8, Seq<u8>)> {
        match self.frag_opcode {
            Some(op) => Some((op, self.frag@)),
            None => None,
        }
    }

    pub fn new(max_message: usize) -> (r: Self)
        ensures
            r.limit() == max_message,
            r.pending() is None,
    {
        Decoder { max_message, frag_opcode: None, frag: Vec::new() }
    }

    /// Try to cut one complete message off the front of `buf`. `Ok(None)`
    /// means that more bytes are needed.
    pub fn next(&mut self, buf: &mut Vec<u8>) -> (r: Result<Option<Message>, DecodeError>)
        ensures
            final(self).limit() == old(self).limit(),
            ({
                let d = decode_next(old(self).limit(), old(self).pending(), old(buf)@);
                &&& answers(r, d.answer)
                &&& final(self).pending() == d.frag
                &&& final(buf)@ == d.rest
            }),
    {
        let ghost goal = decode_next(self.limit(), self.pending(), buf@);
        loop
            invariant
                self.limit() == old(self).limit(),
                decode_next(self.limit(), self.pending(), buf@) == goal,
                goal == decode_next(old(self).limit(), old(self).pending(), old(buf)@),
            decreases buf@.len(),
        {
            let frame = match parse_frame(buf, self.max_message) {
                Ok(Some(f)) => f,
                Ok(None) => {
                    return Ok(None);
                },
                Err(e) => {
                    return Err(e);
                },
            };
            if frame.opcode == OP_CLOSE || frame.opcode == OP_PING || frame.opcode == OP_PONG {
                if !frame.fin {
                    return Err(DecodeError::Protocol("fragmented control frame"));
                }
                return Ok(
                    Some(
                        if frame.opcode == OP_CLOSE {
                            Message::Close(frame.payload)
                        } else if frame.opcode == OP_PING {
                            Message::Ping(frame.payload)
                        } else {
                            Message::Pong(frame.payload)
                        },
                    ),
                );
            } else if frame.opcode == OP_TEXT || frame.opcode == OP_BINARY {
                if self.frag_opcode.is_some() {
                    return Err(DecodeError::Protocol("new message inside a fragmented one"));
                }
                if frame.fin {
                    return finish_message(frame.opcode, frame.payload);
                }
                self.frag_opcode = Some(frame.opcode);
                self.frag = frame.payload;
            } else if frame.opcode == OP_CONTINUATION {
                let opcode: u8 = match self.frag_opcode {
                    Some(op) => op,
                    None => {
                        return Err(DecodeError::Protocol("continuation without a start"));
                    },
                };
                if self.frag.len() as u128 + frame.payload.len() as u128
                    > self.max_message as u128 {
                    return Err(DecodeError::TooBig);
                }
                push_bytes(&mut self.frag, frame.payload.as_slice());
                if frame.fin {
                    self.frag_opcode = None;
                    let mut payload: Vec<u8> = Vec::new();
                    std::mem::swap(&mut payload, &mut self.frag);
                    return finish_message(opcode, payload);
                }
            } else {
                return Err(DecodeError::Protocol("reserved opcode"));
            }
        }
    }
}

/// An answer whose message carries what the model says.
pub open spec fn answers(
    r: Result<Option<Message>, DecodeError>,
    m: Result<Option<MessageModel>, DecodeError>,
) -> bool {
    match (r, m) {
        (Ok(Some(a)), Ok(Some(b))) => a@ == b,
        (Ok(None), Ok(None)) => true,
        (Err(a), Err(b)) => a == b,
        _ => false,
    }
}

fn finish_message(opcode: u8, payload: Vec<u8>) -> (r: Result<Option<Message>, DecodeError>)
    ensures
        answers(r, finished(opcode, payload@)),
{
    if opcode == OP_TEXT {
        if utf8(payload.as_slice()).is_none() {
            return Err(DecodeError::BadUtf8);
        }
        Ok(Some(Message::Text(payload)))
    } else {
        Ok(Some(Message::Binary(payload)))
    }
}

fn read_be(buf: &Vec<u8>, from: usize, n: usize) -> (r: u64)
    requires
        n <= 8,
        from + n <= buf.len(),
    ensures
        r == be(buf@.subrange(from as int, from + n)),
{
    let ghost s = buf@.subrange(from as int, from + n);
    let mut x: u64 = 0;
    let mut i: usize = 0;
    assert(s.take(0).len() == 0);
    proof {
        lemma_pow256();
    }
    while i < n
        invariant
            i <= n <= 8,
            from + n <= buf.len(),
            s == buf@.subrange(from as int, from + n),
            x == be(s.take(i as int)),
            x < pow256(i as nat),
            pow256(8) == 18446744073709551616,
        decreases n - i,
    {
        proof {
            assert(s.take(i + 1).drop_last() =~= s.take(i as int));
            assert(s.take(i + 1).last() == buf@[from + i]);
            lemma_pow256_grows((i + 1) as nat, 8);
        }
        x = x * 256 + buf[from + i] as u64;
        i += 1;
    }
    assert(s.take(n as int) =~= s);
    x
}

spec fn pow256(n: nat) -> nat
    decreases n,
{
    if n == 0 {
        1
    } else {
        256 * pow256((n - 1) as nat)
    }
}

proof fn lemma_pow256()
    ensures
        pow256(8) == 18446744073709551616,
{
    reveal_with_fuel(pow256, 9);
}

proof fn lemma_pow256_grows(a: nat, b: nat)
    requires
        a <= b,
    ensures
        pow256(a) <= pow256(b),
    decreases b,
{
    if a < b {
        lemma_pow256_grows(a, (b - 1) as nat);
    }
}

/// Parse one client frame off the front of `buf` and drop its bytes.
fn parse_frame(buf: &mut Vec<u8>, max_message: usize) -> (r: Result<Option<Frame>, DecodeError>)
    ensures
        match cut_frame(old(buf)@, max_message as nat) {
            Cut::More => r matches Ok(None) && final(buf)@ == old(buf)@,
            Cut::Bad(e) => r == Err::<Option<Frame>, DecodeError>(e) && final(buf)@ == old(buf)@,
            Cut::Frame { fin, opcode, payload, used } => {
                &&& r matches Ok(Some(f)) && f.fin == fin && f.opcode == opcode && f.payload@
                    == payload
                &&& final(buf)@ == old(buf)@.subrange(used, old(buf)@.len() as int)
            },
        },
{
    if buf.len() < 2 {
        return Ok(None);
    }
    let b0: u8 = buf[0];
    let b1: u8 = buf[1];
    if b0 / 16 % 8 != 0 {
        return Err(DecodeError::Protocol("rsv bits set without an extension"));
    }
    if b1 < 128 {
        return Err(DecodeError::Protocol("unmasked client frame"));
    }
    let ext: usize = if b1 % 128 == 126 {
        2
    } else if b1 % 128 == 127 {
        8
    } else {
        0
    };
    if buf.len() < 2 + ext {
        return Ok(None);
    }
    let len: u64 = if ext == 0 {
        (b1 % 128) as u64
    } else {
        read_be(buf, 2, ext)
    };
    let opcode: u8 = b0 % 16;
    if opcode >= 8 && len > 125 {
        return Err(DecodeError::Protocol("control frame over 125 bytes"));
    }
    if opcode < 8 && len > max_message as u64 {
        return Err(DecodeError::TooBig);
    }
    let head: usize = 2 + ext;
    if buf.len() - head < 4 || ((buf.len() - head - 4) as u64) < len {
        return Ok(None);
    }
    let n: usize = len as usize;
    let start: usize = head + 4;
    let ghost whole = buf@;
    let ghost mask = buf@.subrange(head as int, head + 4);
    let ghost raw = buf@.subrange(start as int, start + n);
    let mut payload: Vec<u8> = Vec::with_capacity(n);
    let mut i: usize = 0;
    while i < n
        invariant
            i <= n,
            buf@ == whole,
            head + 4 == start,
            start + n <= buf.len(),
            mask == whole.subrange(head as int, head + 4),
            raw == whole.subrange(start as int, start + n),
            payload@.len() == i,
            forall|j: int| 0 <= j < i ==> payload@[j] == raw[j] ^ mask[j % 4],
        decreases n - i,
    {
        payload.push(buf[start + i] ^ buf[head + i % 4]);
        i += 1;
    }
    assert(payload@ =~= masked(raw, mask));
    let rest = buf.split_off(start + n);
    *buf = rest;
    Ok(Some(Frame { fin: b0 >= 128, opcode, payload }))
}

/// Header of a frame: final, with the given opcode and payload length.
pub open spec fn server_header(opcode: u8, n: nat) -> Seq<u8> {
    seq![(128 + opcode % 16) as u8] + length_field(n, 0)
}

/// The length of a payload, with the mask bit in its first byte.
pub open spec fn length_field(n: nat, mask_bit: int) -> Seq<u8> {
    if n <= 125 {
        seq![(mask_bit + n) as u8]
    } else if n <= 65535 {
        seq![(mask_bit + 126) as u8] + be_bytes(n, 2)
    } else {
        seq![(mask_bit + 127) as u8] + be_bytes(n, 8)
    }
}

pub(crate) fn push_be(out: &mut Vec<u8>, x: u64, n: usize)
    ensures
        final(out)@ == old(out)@ + be_bytes(x as nat, n as nat),
    decreases n,
{
    if n > 0 {
        push_be(out, x / 256, n - 1);
        out.push((x % 256) as u8);
    }
    assert(out@ =~= old(out)@ + be_bytes(x as nat, n as nat));
}

/// One unmasked final server frame.
pub fn encode_frame(opcode: u8, payload: &[u8]) -> (r: Vec<u8>)
    ensures
        r@ == server_header(opcode, payload@.len()) + payload@,
{
    let mut out: Vec<u8> = Vec::new();
    out.push(128 + opcode % 16);
    let n: usize = payload.len();
    if n <= 125 {
        out.push(n as u8);
    } else if n <= 65535 {
        out.push(126);
        push_be(&mut out, n as u64, 2);
    } else {
        out.push(127);
        push_be(&mut out, n as u64, 8);
    }
    assert(out@ =~= server_header(opcode, payload@.len()));
    push_bytes(&mut out, payload);
    out
}

/// Payload of a close frame: a big-endian code and a reason.
pub open spec fn close_payload(code: u16, reason: Seq<u8>) -> Seq<u8> {
    be_bytes(code as nat, 2) + reason
}

pub fn encode_close(code: u16, reason: &str) -> (r: Vec<u8>)
    ensures
        ({
            let p = close_payload(code, text(reason));
            r@ == server_header(OP_CLOSE, p.len()) + p
        }),
{
    let mut payload: Vec<u8> = Vec::new();
    push_be(&mut payload, code as u64, 2);
    push_str(&mut payload, reason);
    assert(payload@ =~= close_payload(code, text(reason)));
    encode_frame(OP_CLOSE, payload.as_slice())
}

/// A client's frame: masked, with any final bit and opcode.
pub open spec fn client_frame(fin: bool, opcode: u8, mask: Seq<u8>, payload: Seq<u8>) -> Seq<u8> {
    seq![
        (if fin {
            128 + opcode
        } else {
            opcode as int
        }) as u8,
    ] + length_field(payload.len(), 128) + mask + masked(payload, mask)
}

proof fn lemma_be_bytes(x: nat, n: nat)
    ensures
        be_bytes(x, n).len() == n,
        be(be_bytes(x, n)) == x % pow256(n),
    decreases n,
{
    if n > 0 {
        let m = (n - 1) as nat;
        lemma_be_bytes(x / 256, m);
        let b = be_bytes(x, n);
        assert(b.drop_last() =~= be_bytes(x / 256, m));
        assert(pow256(m) > 0) by {
            lemma_pow256_grows(0, m);
        }
        vstd::arithmetic::div_mod::lemma_mod_breakdown(x as int, 256, pow256(m) as int);
    }
}

pub(crate) proof fn lemma_be_small(x: nat, n: nat)
    requires
        (n == 2 && x <= 65535) || (n == 8 && x <= u64::MAX),
    ensures
        be_bytes(x, n).len() == n,
        be(be_bytes(x, n)) == x,
{
    lemma_be_bytes(x, n);
    lemma_pow256();
    reveal_with_fuel(pow256, 3);
    vstd::arithmetic::div_mod::lemma_small_mod(x, pow256(n));
}

proof fn lemma_masked_twice(payload: Seq<u8>, mask: Seq<u8>)
    ensures
        masked(masked(payload, mask), mask) == payload,
{
    assert forall|i: int| 0 <= i < payload.len() implies masked(masked(payload, mask), mask)[i]
        == payload[i] by {
        let a = payload[i];
        let m = mask[i % 4];
        assert((a ^ m) ^ m == a) by (bit_vector);
    }
    assert(masked(masked(payload, mask), mask) =~= payload);
}

/// A client's frame is cut off the stream as it was sent, whatever follows it
/// and whatever its mask: the same final bit, opcode and payload.
pub proof fn client_frame_decodes(
    fin: bool,
    opcode: u8,
    mask: Seq<u8>,
    payload: Seq<u8>,
    rest: Seq<u8>,
    max: nat,
)
    requires
        opcode < 16,
        mask.len() == 4,
        payload.len() <= u64::MAX,
        opcode < 8 ==> payload.len() <= max,
        opcode >= 8 ==> payload.len() <= 125,
    ensures
        cut_frame(client_frame(fin, opcode, mask, payload) + rest, max) == (Cut::Frame {
            fin,
            opcode,
            payload,
            used: client_frame(fin, opcode, mask, payload).len() as int,
        }),
{
    let n = payload.len();
    let frame = client_frame(fin, opcode, mask, payload);
    let buf = frame + rest;
    let field = length_field(n, 128);
    let head = 1 + field.len() as int;
    let b0 = buf[0];
    if n <= 125 {
        assert(field.len() == 1);
        assert(buf[1] == field[0]);
    } else if n <= 65535 {
        lemma_be_small(n, 2);
        assert(buf[1] == field[0]);
        assert(buf.subrange(2, 4) =~= be_bytes(n, 2));
    } else {
        lemma_be_small(n, 8);
        assert(buf[1] == field[0]);
        assert(buf.subrange(2, 10) =~= be_bytes(n, 8));
    }
    assert(head == 2 + length_bytes(buf[1]));
    assert(payload_length(buf) == n);
    assert(buf.subrange(head, head + 4) =~= mask);
    assert(buf.subrange(head + 4, head + 4 + n) =~= masked(payload, mask));
    lemma_masked_twice(payload, mask);
    assert(b0 / 16 % 8 == 0 && b0 % 16 == opcode);
}

proof fn lemma_cut_extends(buf: Seq<u8>, more: Seq<u8>, max: nat)
    ensures
        !(cut_frame(buf, max) is More) ==> cut_frame(buf + more, max) == cut_frame(buf, max),
{
    let all = buf + more;
    if buf.len() >= 2 {
        assert(all[0] == buf[0] && all[1] == buf[1]);
        let head = 2 + length_bytes(buf[1]);
        if buf.len() >= head {
            assert(all.subrange(2, head) =~= buf.subrange(2, head));
            let len = payload_length(buf);
            if buf.len() >= head + 4 + len {
                assert(all.subrange(head, head + 4) =~= buf.subrange(head, head + 4));
                assert(all.subrange(head + 4, head + 4 + len) =~= buf.subrange(
                    head + 4,
                    head + 4 + len,
                ));
            }
        }
    }
}

/// How the bytes arrive does not matter: with more bytes behind them the
/// decoder gives the same answer, and where it asked for more it goes on as if
/// all of them had been there from the start.
pub proof fn decoding_is_incremental(
    max: nat,
    frag: Option<(u8, Seq<u8>)>,
    buf: Seq<u8>,
    more: Seq<u8>,
)
    ensures
        ({
            let d = decode_next(max, frag, buf);
            if d.answer matches Ok(None) {
                decode_next(max, frag, buf + more) == decode_next(max, d.frag, d.rest + more)
            } else {
                decode_next(max, frag, buf + more) == (Decoded { rest: d.rest + more, ..d })
            }
        }),
    decreases buf.len(),
{
    lemma_cut_extends(buf, more, max);
    match cut_frame(buf, max) {
        Cut::Frame { fin, opcode, payload, used } => {
            let rest = buf.subrange(used, buf.len() as int);
            assert((buf + more).subrange(used, (buf + more).len() as int) =~= rest + more);
            if (opcode == OP_TEXT || opcode == OP_BINARY) && frag is None && !fin {
                decoding_is_incremental(max, Some((opcode, payload)), rest, more);
            }
            if opcode == OP_CONTINUATION && frag is Some && !fin {
                let held = (frag->0).1;
                if held.len() + payload.len() <= max {
                    decoding_is_incremental(max, Some(((frag->0).0, held + payload)), rest, more);
                }
            }
        },
        _ => {},
    }
}

/// No message is larger than the limit, however it was fragmented; control
/// payloads are at most 125 bytes; text is valid UTF-8.
pub proof fn messages_keep_the_limit(max: nat, frag: Option<(u8, Seq<u8>)>, buf: Seq<u8>)
    requires
        frag matches Some(f) ==> f.1.len() <= max,
    ensures
        ({
            let d = decode_next(max, frag, buf);
            &&& d.frag matches Some(f) ==> f.1.len() <= max
            &&& d.answer matches Ok(Some(MessageModel::Text(p))) ==> p.len() <= max && valid_utf8(p)
            &&& d.answer matches Ok(Some(MessageModel::Binary(p))) ==> p.len() <= max
            &&& d.answer matches Ok(Some(MessageModel::Close(p))) ==> p.len() <= 125
            &&& d.answer matches Ok(Some(MessageModel::Ping(p))) ==> p.len() <= 125
            &&& d.answer matches Ok(Some(MessageModel::Pong(p))) ==> p.len() <= 125
        }),
    decreases buf.len(),
{
    match cut_frame(buf, max) {
        Cut::Frame { fin, opcode, payload, used } => {
            let rest = buf.subrange(used, buf.len() as int);
            if (opcode == OP_TEXT || opcode == OP_BINARY) && frag is None && !fin {
                messages_keep_the_limit(max, Some((opcode, payload)), rest);
            }
            if opcode == OP_CONTINUATION && frag is Some && !fin {
                let held = (frag->0).1;
                if held.len() + payload.len() <= max {
                    messages_keep_the_limit(max, Some(((frag->0).0, held + payload)), rest);
                }
            }
        },
        _ => {},
    }
}

} // verus!
