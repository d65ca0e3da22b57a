//! What a decoder makes of a client's whole stream, however it is cut into
//! frames and however its bytes arrive.

use vstd::prelude::*;
use vstd::utf8::valid_utf8;

use crate::router::ws::{
    be_bytes, client_frame, client_frame_decodes, cut_frame, decode_next, decoding_is_incremental,
    length_bytes, length_field, lemma_be_small, payload_length, Cut, DecodeError, Decoded,
    MessageModel, OP_BINARY, OP_CLOSE, OP_CONTINUATION, OP_PING, OP_PONG, OP_TEXT,
};

verus! {

/// A message leaves fewer bytes than there were.
pub proof fn lemma_message_shrinks(max: nat, frag: Option<(u8, Seq<u8>)>, buf: Seq<u8>)
    ensures
        decode_next(max, frag, buf).answer matches Ok(Some(_)) ==> decode_next(
            max,
            frag,
            buf,
        ).rest.len() < buf.len(),
        decode_next(max, frag, buf).rest.len() <= buf.len(),
    decreases buf.len(),
{
    match cut_frame(buf, max) {
        Cut::Frame { fin, opcode, payload, used } => {
            let rest = buf.subrange(used, buf.len() as int);
            assert(rest.len() < buf.len());
            if (opcode == OP_TEXT || opcode == OP_BINARY) && frag is None && !fin {
                lemma_message_shrinks(max, Some((opcode, payload)), rest);
            }
            if opcode == OP_CONTINUATION && frag is Some && !fin {
                let held = (frag->0).1;
                if held.len() + payload.len() <= max {
                    lemma_message_shrinks(max, Some(((frag->0).0, held + payload)), rest);
                }
            }
        },
        _ => {},
    }
}

/// What repeated calls of the decoder yield until one yields no message: the
/// messages, and how the last call ended.
pub open spec fn drained(max: nat, frag: Option<(u8, Seq<u8>)>, buf: Seq<u8>) -> (
    Seq<MessageModel>,
    Decoded,
)
    decreases buf.len(),
{
    proof {
        lemma_message_shrinks(max, frag, buf);
    }
    let d = decode_next(max, frag, buf);
    match d.answer {
        Ok(Some(m)) => {
            let (more, end) = drained(max, d.frag, d.rest);
            (seq![m] + more, end)
        },
        _ => (seq![], d),
    }
}

/// What repeated calls yield where bytes arrive piece by piece behind those
/// that are there. Nothing is read any more once the decoder has failed.
pub open spec fn fed(
    max: nat,
    frag: Option<(u8, Seq<u8>)>,
    buf: Seq<u8>,
    pieces: Seq<Seq<u8>>,
) -> (Seq<MessageModel>, Decoded)
    decreases pieces.len(),
{
    let (ms, d) = drained(max, frag, buf);
    if pieces.len() == 0 || d.answer is Err {
        (ms, d)
    } else {
        let (more, end) = fed(
            max,
            d.frag,
            d.rest + pieces[0],
            pieces.subrange(1, pieces.len() as int),
        );
        (ms + more, end)
    }
}

/// All pieces, one behind the other.
pub open spec fn joined(pieces: Seq<Seq<u8>>) -> Seq<u8>
    decreases pieces.len(),
{
    if pieces.len() == 0 {
        seq![]
    } else {
        pieces[0] + joined(pieces.subrange(1, pieces.len() as int))
    }
}

proof fn lemma_drained_extends(
    max: nat,
    frag: Option<(u8, Seq<u8>)>,
    buf: Seq<u8>,
    more: Seq<u8>,
)
    ensures
        ({
            let (ms, d) = drained(max, frag, buf);
            if d.answer is Err {
                drained(max, frag, buf + more) == (ms, (Decoded { rest: d.rest + more, ..d }))
            } else {
                let (ns, e) = drained(max, d.frag, d.rest + more);
                drained(max, frag, buf + more) == (ms + ns, e)
            }
        }),
    decreases buf.len(),
{
    let d = decode_next(max, frag, buf);
    decoding_is_incremental(max, frag, buf, more);
    match d.answer {
        Ok(Some(m)) => {
            lemma_message_shrinks(max, frag, buf);
            lemma_drained_extends(max, d.frag, d.rest, more);
            let (ms, e) = drained(max, d.frag, d.rest);
            if !(e.answer is Err) {
                let (ns, end) = drained(max, e.frag, e.rest + more);
                assert(seq![m] + (ms + ns) =~= (seq![m] + ms) + ns);
            }
        },
        Ok(None) => {
            let (ns, end) = drained(max, d.frag, d.rest + more);
            assert(Seq::<MessageModel>::empty() + ns =~= ns);
        },
        Err(_) => {},
    }
}

/// How the bytes arrive does not matter, in however many pieces: the decoder
/// yields the same messages in the same order and ends alike, with the same
/// failure if any. Unless it failed, it also leaves the same bytes.
pub proof fn pieces_do_not_matter(
    max: nat,
    frag: Option<(u8, Seq<u8>)>,
    buf: Seq<u8>,
    pieces: Seq<Seq<u8>>,
)
    ensures
        ({
            let (ms, d) = fed(max, frag, buf, pieces);
            let (ns, e) = drained(max, frag, buf + joined(pieces));
            &&& ms == ns
            &&& d.answer == e.answer
            &&& d.frag == e.frag
            &&& !(d.answer is Err) ==> d.rest == e.rest
        }),
    decreases pieces.len(),
{
    let (ms, d) = drained(max, frag, buf);
    lemma_drained_extends(max, frag, buf, joined(pieces));
    if pieces.len() == 0 {
        assert(buf + joined(pieces) =~= buf);
    } else if !(d.answer is Err) {
        let tail = pieces.subrange(1, pieces.len() as int);
        pieces_do_not_matter(max, d.frag, d.rest + pieces[0], tail);
        assert(d.rest + joined(pieces) =~= d.rest + pieces[0] + joined(tail));
    }
}

/// A decoder that asked for more asks again, and leaves everything as it is,
/// until bytes arrive.
pub proof fn waiting_changes_nothing(max: nat, frag: Option<(u8, Seq<u8>)>, buf: Seq<u8>)
    ensures
        ({
            let d = decode_next(max, frag, buf);
            d.answer matches Ok(None) ==> decode_next(max, d.frag, d.rest) == d
        }),
{
    let d = decode_next(max, frag, buf);
    decoding_is_incremental(max, frag, buf, seq![]);
    assert(buf + Seq::<u8>::empty() =~= buf);
    assert(d.rest + Seq::<u8>::empty() =~= d.rest);
}

/// A control frame as a client sends it.
pub struct Control {
    pub opcode: u8,
    pub mask: Seq<u8>,
    pub payload: Seq<u8>,
}

/// A part of a data message, with the mask of its frame.
pub struct Fragment {
    pub mask: Seq<u8>,
    pub payload: Seq<u8>,
}

/// What a client sends: a control frame, or a data message in one or more
/// fragments with control frames before each of the later ones.
pub enum Unit {
    Control(Control),
    Message { opcode: u8, first: Fragment, later: Seq<(Seq<Control>, Fragment)> },
}

/// A control frame that the protocol allows.
pub open spec fn proper(c: Control) -> bool {
    &&& c.opcode == OP_CLOSE || c.opcode == OP_PING || c.opcode == OP_PONG
    &&& c.mask.len() == 4
    &&& c.payload.len() <= 125
}

pub open spec fn all_proper(cs: Seq<Control>) -> bool {
    forall|i: int| 0 <= i < cs.len() ==> proper(#[trigger] cs[i])
}

/// A fragment that a frame can hold.
pub open spec fn sendable(f: Fragment) -> bool {
    f.mask.len() == 4 && f.payload.len() <= u64::MAX
}

/// A unit that the protocol allows, whatever the size of its message.
pub open spec fn well_formed(u: Unit) -> bool {
    match u {
        Unit::Control(c) => proper(c),
        Unit::Message { opcode, first, later } => {
            &&& opcode == OP_TEXT || opcode == OP_BINARY
            &&& sendable(first)
            &&& forall|i: int|
                0 <= i < later.len() ==> all_proper((#[trigger] later[i]).0) && sendable(later[i].1)
        },
    }
}

/// What the later fragments carry.
pub open spec fn carried(later: Seq<(Seq<Control>, Fragment)>) -> Seq<u8>
    decreases later.len(),
{
    if later.len() == 0 {
        seq![]
    } else {
        later[0].1.payload + carried(later.subrange(1, later.len() as int))
    }
}

/// A data message as a whole.
pub open spec fn whole(u: Unit) -> Seq<u8> {
    match u {
        Unit::Control(c) => c.payload,
        Unit::Message { first, later, .. } => first.payload + carried(later),
    }
}

/// A unit that is not refused: its message keeps the limit, and a text is valid
/// UTF-8.
pub open spec fn acceptable(u: Unit, max: nat) -> bool {
    &&& well_formed(u)
    &&& u matches Unit::Message { opcode, .. } ==> whole(u).len() <= max && (opcode == OP_TEXT
        ==> valid_utf8(whole(u)))
}

/// The bytes of control frames.
pub open spec fn controls_wire(cs: Seq<Control>) -> Seq<u8>
    decreases cs.len(),
{
    if cs.len() == 0 {
        seq![]
    } else {
        client_frame(true, cs[0].opcode, cs[0].mask, cs[0].payload) + controls_wire(
            cs.subrange(1, cs.len() as int),
        )
    }
}

/// The bytes of the later fragments and of the control frames among them; the
/// last fragment is final.
pub open spec fn later_wire(later: Seq<(Seq<Control>, Fragment)>) -> Seq<u8>
    decreases later.len(),
{
    if later.len() == 0 {
        seq![]
    } else {
        let f = later[0].1;
        controls_wire(later[0].0) + (client_frame(
            later.len() == 1,
            OP_CONTINUATION,
            f.mask,
            f.payload,
        ) + later_wire(later.subrange(1, later.len() as int)))
    }
}

/// The bytes of a unit.
pub open spec fn wire(u: Unit) -> Seq<u8> {
    match u {
        Unit::Control(c) => client_frame(true, c.opcode, c.mask, c.payload),
        Unit::Message { opcode, first, later } => client_frame(
            later.len() == 0,
            opcode,
            first.mask,
            first.payload,
        ) + later_wire(later),
    }
}

/// The bytes of all units.
pub open spec fn wires(us: Seq<Unit>) -> Seq<u8>
    decreases us.len(),
{
    if us.len() == 0 {
        seq![]
    } else {
        wire(us[0]) + wires(us.subrange(1, us.len() as int))
    }
}

/// The message that a control frame is.
pub open spec fn control_message(c: Control) -> MessageModel {
    if c.opcode == OP_CLOSE {
        MessageModel::Close(c.payload)
    } else if c.opcode == OP_PING {
        MessageModel::Ping(c.payload)
    } else {
        MessageModel::Pong(c.payload)
    }
}

pub open spec fn control_messages(cs: Seq<Control>) -> Seq<MessageModel> {
    cs.map_values(|c: Control| control_message(c))
}

/// The control frames among the later fragments.
pub open spec fn among(later: Seq<(Seq<Control>, Fragment)>) -> Seq<MessageModel>
    decreases later.len(),
{
    if later.len() == 0 {
        seq![]
    } else {
        control_messages(later[0].0) + among(later.subrange(1, later.len() as int))
    }
}

/// The data message of an opcode.
pub open spec fn data_message(opcode: u8, payload: Seq<u8>) -> MessageModel {
    if opcode == OP_TEXT {
        MessageModel::Text(payload)
    } else {
        MessageModel::Binary(payload)
    }
}

/// What is read of a unit, in the order in which the last frame of each message
/// was sent.
pub open spec fn read_of(u: Unit) -> Seq<MessageModel> {
    match u {
        Unit::Control(c) => seq![control_message(c)],
        Unit::Message { opcode, later, .. } => among(later).push(data_message(opcode, whole(u))),
    }
}

/// What is read of all units.
pub open spec fn read_of_all(us: Seq<Unit>) -> Seq<MessageModel>
    decreases us.len(),
{
    if us.len() == 0 {
        seq![]
    } else {
        read_of(us[0]) + read_of_all(us.subrange(1, us.len() as int))
    }
}

/// Messages in front of what is read later.
spec fn behind(ms: Seq<MessageModel>, end: (Seq<MessageModel>, Decoded)) -> (
    Seq<MessageModel>,
    Decoded,
) {
    (ms + end.0, end.1)
}

proof fn lemma_behind(a: Seq<MessageModel>, b: Seq<MessageModel>, end: (Seq<MessageModel>, Decoded))
    ensures
        behind(a, behind(b, end)) == behind(a + b, end),
        behind(seq![], end) == end,
{
    assert(a + (b + end.0) =~= a + b + end.0);
    assert(Seq::<MessageModel>::empty() + end.0 =~= end.0);
}

proof fn lemma_frame_rest(frame: Seq<u8>, rest: Seq<u8>)
    ensures
        (frame + rest).subrange(frame.len() as int, (frame + rest).len() as int) == rest,
{
    assert((frame + rest).subrange(frame.len() as int, (frame + rest).len() as int) =~= rest);
}

proof fn lemma_control(max: nat, frag: Option<(u8, Seq<u8>)>, c: Control, rest: Seq<u8>)
    requires
        proper(c),
    ensures
        drained(max, frag, client_frame(true, c.opcode, c.mask, c.payload) + rest) == behind(
            seq![control_message(c)],
            drained(max, frag, rest),
        ),
{
    let frame = client_frame(true, c.opcode, c.mask, c.payload);
    client_frame_decodes(true, c.opcode, c.mask, c.payload, rest, max);
    lemma_frame_rest(frame, rest);
    let d = decode_next(max, frag, frame + rest);
    assert(d == (Decoded { answer: Ok(Some(control_message(c))), frag, rest }));
    lemma_message_shrinks(max, frag, frame + rest);
}

proof fn lemma_controls(max: nat, frag: Option<(u8, Seq<u8>)>, cs: Seq<Control>, rest: Seq<u8>)
    requires
        all_proper(cs),
    ensures
        drained(max, frag, controls_wire(cs) + rest) == behind(
            control_messages(cs),
            drained(max, frag, rest),
        ),
    decreases cs.len(),
{
    if cs.len() == 0 {
        assert(controls_wire(cs) + rest =~= rest);
        assert(control_messages(cs) =~= seq![]);
        lemma_behind(seq![], seq![], drained(max, frag, rest));
    } else {
        let c = cs[0];
        let tail = cs.subrange(1, cs.len() as int);
        assert forall|i: int| 0 <= i < tail.len() implies proper(#[trigger] tail[i]) by {
            assert(tail[i] == cs[i + 1]);
        }
        let frame = client_frame(true, c.opcode, c.mask, c.payload);
        assert(controls_wire(cs) + rest =~= frame + (controls_wire(tail) + rest));
        lemma_control(max, frag, c, controls_wire(tail) + rest);
        lemma_controls(max, frag, tail, rest);
        lemma_behind(seq![control_message(c)], control_messages(tail), drained(max, frag, rest));
        assert(seq![control_message(c)] + control_messages(tail) =~= control_messages(cs));
    }
}

/// A data frame whose payload is over the limit is refused by its header.
proof fn lemma_frame_too_big(
    fin: bool,
    opcode: u8,
    mask: Seq<u8>,
    payload: Seq<u8>,
    rest: Seq<u8>,
    max: nat,
)
    requires
        opcode < 8,
        mask.len() == 4,
        max < payload.len() <= u64::MAX,
    ensures
        cut_frame(client_frame(fin, opcode, mask, payload) + rest, max) == Cut::Bad(
            DecodeError::TooBig,
        ),
{
    let n = payload.len();
    let frame = client_frame(fin, opcode, mask, payload);
    let buf = frame + rest;
    let field = length_field(n, 128);
    let b0 = buf[0];
    if n <= 125 {
        assert(field.len() == 1);
        assert(buf[1] == field[0]);
    } else if n <= 65535 {
        lemma_be_small(n, 2);
        assert(buf[1] == field[0]);
        assert(buf.subrange(2, 4) =~= be_bytes(n, 2));
    } else {
        lemma_be_small(n, 8);
        assert(buf[1] == field[0]);
        assert(buf.subrange(2, 10) =~= be_bytes(n, 8));
    }
    assert(1 + field.len() == 2 + length_bytes(buf[1]));
    assert(payload_length(buf) == n);
    assert(b0 / 16 % 8 == 0 && b0 % 16 == opcode);
}

/// The decoder goes on past a fragment that is not final.
proof fn lemma_more_follows(
    max: nat,
    frag: Option<(u8, Seq<u8>)>,
    opcode: u8,
    f: Fragment,
    rest: Seq<u8>,
)
    requires
        sendable(f),
        match frag {
            None => (opcode == OP_TEXT || opcode == OP_BINARY) && f.payload.len() <= max,
            Some(h) => opcode == OP_CONTINUATION && h.1.len() + f.payload.len() <= max,
        },
    ensures
        drained(max, frag, client_frame(false, opcode, f.mask, f.payload) + rest) == drained(
            max,
            match frag {
                None => Some((opcode, f.payload)),
                Some(h) => Some((h.0, h.1 + f.payload)),
            },
            rest,
        ),
{
    let frame = client_frame(false, opcode, f.mask, f.payload);
    client_frame_decodes(false, opcode, f.mask, f.payload, rest, max);
    lemma_frame_rest(frame, rest);
    let held = match frag {
        None => Some((opcode, f.payload)),
        Some(h) => Some((h.0, h.1 + f.payload)),
    };
    assert(decode_next(max, frag, frame + rest) == decode_next(max, held, rest));
}

/// The final fragment completes its message.
proof fn lemma_completes(
    max: nat,
    frag: Option<(u8, Seq<u8>)>,
    opcode: u8,
    f: Fragment,
    rest: Seq<u8>,
)
    requires
        sendable(f),
        match frag {
            None => (opcode == OP_TEXT || opcode == OP_BINARY) && f.payload.len() <= max && (opcode
                == OP_TEXT ==> valid_utf8(f.payload)),
            Some(h) => {
                &&& opcode == OP_CONTINUATION
                &&& h.1.len() + f.payload.len() <= max
                &&& h.0 == OP_TEXT || h.0 == OP_BINARY
                &&& h.0 == OP_TEXT ==> valid_utf8(h.1 + f.payload)
            },
        },
    ensures
        drained(max, frag, client_frame(true, opcode, f.mask, f.payload) + rest) == behind(
            seq![
                match frag {
                    None => data_message(opcode, f.payload),
                    Some(h) => data_message(h.0, h.1 + f.payload),
                },
            ],
            drained(max, None, rest),
        ),
{
    let frame = client_frame(true, opcode, f.mask, f.payload);
    client_frame_decodes(true, opcode, f.mask, f.payload, rest, max);
    lemma_frame_rest(frame, rest);
    let m = match frag {
        None => data_message(opcode, f.payload),
        Some(h) => data_message(h.0, h.1 + f.payload),
    };
    let d = decode_next(max, frag, frame + rest);
    assert(d == (Decoded { answer: Ok(Some(m)), frag: None, rest }));
    lemma_message_shrinks(max, frag, frame + rest);
}

/// A fragment that takes its message over the limit is refused.
proof fn lemma_refused(
    max: nat,
    frag: Option<(u8, Seq<u8>)>,
    fin: bool,
    opcode: u8,
    f: Fragment,
    rest: Seq<u8>,
)
    requires
        sendable(f),
        match frag {
            None => (opcode == OP_TEXT || opcode == OP_BINARY) && f.payload.len() > max,
            Some(h) => opcode == OP_CONTINUATION && h.1.len() + f.payload.len() > max,
        },
    ensures
        ({
            let (ms, d) = drained(
                max,
                frag,
                client_frame(fin, opcode, f.mask, f.payload) + rest,
            );
            ms == Seq::<MessageModel>::empty() && d.answer == Err::<
                Option<MessageModel>,
                DecodeError,
            >(DecodeError::TooBig)
        }),
{
    let frame = client_frame(fin, opcode, f.mask, f.payload);
    if f.payload.len() > max {
        lemma_frame_too_big(fin, opcode, f.mask, f.payload, rest, max);
    } else {
        client_frame_decodes(fin, opcode, f.mask, f.payload, rest, max);
    }
}

proof fn lemma_later(
    max: nat,
    op: u8,
    held: Seq<u8>,
    later: Seq<(Seq<Control>, Fragment)>,
    rest: Seq<u8>,
)
    requires
        later.len() > 0,
        op == OP_TEXT || op == OP_BINARY,
        forall|i: int|
            0 <= i < later.len() ==> all_proper((#[trigger] later[i]).0) && sendable(later[i].1),
        (held + carried(later)).len() <= max,
        op == OP_TEXT ==> valid_utf8(held + carried(later)),
    ensures
        drained(max, Some((op, held)), later_wire(later) + rest) == behind(
            among(later).push(data_message(op, held + carried(later))),
            drained(max, None, rest),
        ),
    decreases later.len(),
{
    let (cs, f) = later[0];
    let tail = later.subrange(1, later.len() as int);
    let frag = Some((op, held));
    let frame = client_frame(later.len() == 1, OP_CONTINUATION, f.mask, f.payload);
    let next = held + f.payload;
    assert(held + carried(later) =~= next + carried(tail));
    assert(later_wire(later) + rest =~= controls_wire(cs) + (frame + (later_wire(tail) + rest)));
    lemma_controls(max, frag, cs, frame + (later_wire(tail) + rest));
    let m = data_message(op, held + carried(later));
    let end = drained(max, None, rest);
    if later.len() == 1 {
        assert(tail.len() == 0);
        assert(next + carried(tail) =~= next);
        assert(later_wire(tail) + rest =~= rest);
        lemma_completes(max, frag, OP_CONTINUATION, f, rest);
        lemma_behind(control_messages(cs), seq![m], end);
        assert(among(tail) =~= seq![]);
        assert(among(later) =~= control_messages(cs));
        assert(control_messages(cs) + seq![m] =~= among(later).push(m));
    } else {
        assert forall|i: int| 0 <= i < tail.len() implies all_proper((#[trigger] tail[i]).0)
            && sendable(tail[i].1) by {
            assert(tail[i] == later[i + 1]);
        }
        lemma_more_follows(max, frag, OP_CONTINUATION, f, later_wire(tail) + rest);
        lemma_later(max, op, next, tail, rest);
        lemma_behind(control_messages(cs), among(tail).push(m), end);
        assert(control_messages(cs) + among(tail).push(m) =~= among(later).push(m));
    }
}

proof fn lemma_unit(max: nat, u: Unit, rest: Seq<u8>)
    requires
        acceptable(u, max),
    ensures
        drained(max, None, wire(u) + rest) == behind(read_of(u), drained(max, None, rest)),
{
    match u {
        Unit::Control(c) => {
            lemma_control(max, None, c, rest);
        },
        Unit::Message { opcode, first, later } => {
            let frame = client_frame(later.len() == 0, opcode, first.mask, first.payload);
            assert(wire(u) + rest =~= frame + (later_wire(later) + rest));
            if later.len() == 0 {
                assert(first.payload + carried(later) =~= first.payload);
                assert(later_wire(later) + rest =~= rest);
                lemma_completes(max, None, opcode, first, rest);
                assert(read_of(u) =~= seq![data_message(opcode, whole(u))]);
            } else {
                lemma_more_follows(max, None, opcode, first, later_wire(later) + rest);
                lemma_later(max, opcode, first.payload, later, rest);
            }
        },
    }
}

proof fn lemma_units(max: nat, us: Seq<Unit>, rest: Seq<u8>)
    requires
        forall|i: int| 0 <= i < us.len() ==> acceptable(#[trigger] us[i], max),
    ensures
        drained(max, None, wires(us) + rest) == behind(read_of_all(us), drained(max, None, rest)),
    decreases us.len(),
{
    if us.len() == 0 {
        assert(wires(us) + rest =~= rest);
        lemma_behind(seq![], seq![], drained(max, None, rest));
    } else {
        let tail = us.subrange(1, us.len() as int);
        assert forall|i: int| 0 <= i < tail.len() implies acceptable(#[trigger] tail[i], max) by {
            assert(tail[i] == us[i + 1]);
        }
        assert(wires(us) + rest =~= wire(us[0]) + (wires(tail) + rest));
        lemma_unit(max, us[0], wires(tail) + rest);
        lemma_units(max, tail, rest);
        lemma_behind(read_of(us[0]), read_of_all(tail), drained(max, None, rest));
    }
}

/// A client's stream is read as it was sent: control frames come out on their
/// own, fragments as one message, each in the order in which its last frame was
/// sent. Then more bytes are asked for, and none are left.
pub proof fn streams_are_read_as_sent(max: nat, us: Seq<Unit>)
    requires
        forall|i: int| 0 <= i < us.len() ==> acceptable(#[trigger] us[i], max),
    ensures
        drained(max, None, wires(us)) == (
            read_of_all(us),
            (Decoded { answer: Ok(None), frag: None, rest: seq![] }),
        ),
{
    let none = Seq::<u8>::empty();
    assert(wires(us) + none =~= wires(us));
    lemma_units(max, us, none);
    assert(drained(max, None, none) == (
        Seq::<MessageModel>::empty(),
        (Decoded { answer: Ok(None), frag: None, rest: none }),
    ));
    assert(read_of_all(us) + Seq::<MessageModel>::empty() =~= read_of_all(us));
}

/// The control frames that come out before a message that has `held` bytes is
/// found to be over the limit.
pub open spec fn before_refusal(
    max: nat,
    held: nat,
    later: Seq<(Seq<Control>, Fragment)>,
) -> Seq<MessageModel>
    decreases later.len(),
{
    if held > max || later.len() == 0 {
        seq![]
    } else {
        control_messages(later[0].0) + before_refusal(
            max,
            held + later[0].1.payload.len(),
            later.subrange(1, later.len() as int),
        )
    }
}

proof fn lemma_later_refused(
    max: nat,
    op: u8,
    held: Seq<u8>,
    later: Seq<(Seq<Control>, Fragment)>,
    rest: Seq<u8>,
)
    requires
        op == OP_TEXT || op == OP_BINARY,
        forall|i: int|
            0 <= i < later.len() ==> all_proper((#[trigger] later[i]).0) && sendable(later[i].1),
        held.len() <= max,
        (held + carried(later)).len() > max,
    ensures
        ({
            let (ms, d) = drained(max, Some((op, held)), later_wire(later) + rest);
            ms == before_refusal(max, held.len(), later) && d.answer == Err::<
                Option<MessageModel>,
                DecodeError,
            >(DecodeError::TooBig)
        }),
    decreases later.len(),
{
    assert(later.len() > 0);
    let (cs, f) = later[0];
    let tail = later.subrange(1, later.len() as int);
    let frag = Some((op, held));
    let frame = client_frame(later.len() == 1, OP_CONTINUATION, f.mask, f.payload);
    let next = held + f.payload;
    let behind_it = later_wire(tail) + rest;
    assert(held + carried(later) =~= next + carried(tail));
    assert(later_wire(later) + rest =~= controls_wire(cs) + (frame + behind_it));
    lemma_controls(max, frag, cs, frame + behind_it);
    if next.len() > max {
        lemma_refused(max, frag, later.len() == 1, OP_CONTINUATION, f, behind_it);
        assert(before_refusal(max, next.len(), tail) =~= seq![]);
    } else {
        assert(tail.len() > 0);
        assert forall|i: int| 0 <= i < tail.len() implies all_proper((#[trigger] tail[i]).0)
            && sendable(tail[i].1) by {
            assert(tail[i] == later[i + 1]);
        }
        lemma_more_follows(max, frag, OP_CONTINUATION, f, behind_it);
        lemma_later_refused(max, op, next, tail, rest);
    }
}

/// A data message over the limit is refused as too big, however it is cut:
/// everything before it comes out, and so do the control frames before the
/// fragment that takes it over the limit.
pub proof fn a_message_over_the_limit_is_refused(
    max: nat,
    us: Seq<Unit>,
    opcode: u8,
    first: Fragment,
    later: Seq<(Seq<Control>, Fragment)>,
    rest: Seq<u8>,
)
    requires
        forall|i: int| 0 <= i < us.len() ==> acceptable(#[trigger] us[i], max),
        well_formed((Unit::Message { opcode, first, later })),
        whole((Unit::Message { opcode, first, later })).len() > max,
    ensures
        ({
            let u = Unit::Message { opcode, first, later };
            let (ms, d) = drained(max, None, wires(us) + wire(u) + rest);
            &&& ms == read_of_all(us) + before_refusal(max, first.payload.len(), later)
            &&& d.answer == Err::<Option<MessageModel>, DecodeError>(DecodeError::TooBig)
        }),
{
    let u = Unit::Message { opcode, first, later };
    let frame = client_frame(later.len() == 0, opcode, first.mask, first.payload);
    assert(wires(us) + wire(u) + rest =~= wires(us) + (wire(u) + rest));
    assert(wire(u) + rest =~= frame + (later_wire(later) + rest));
    lemma_units(max, us, wire(u) + rest);
    if first.payload.len() > max {
        lemma_refused(max, None, later.len() == 0, opcode, first, later_wire(later) + rest);
        assert(before_refusal(max, first.payload.len(), later) =~= seq![]);
    } else {
        assert(later.len() > 0);
        lemma_more_follows(max, None, opcode, first, later_wire(later) + rest);
        lemma_later_refused(max, opcode, first.payload, later, rest);
    }
}

} // verus!
