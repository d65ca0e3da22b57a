use buran::echo::{
    body_source, build_response, concurrency, has_inbound, reply_frames, ws_accept, ws_step,
    BodySource, BodyStream, Inbound, Routed, Tasks, WsStep,
};
use buran::ipc::{
    FrameHeader, FrameKind, RequestBuilder, RequestView, FLAG_BODY_FILE, FLAG_BODY_STREAM,
    FLAG_UPGRADE, FRAME_HEADER_LEN, PONG_BUSY, PONG_IDLE, WS_OP_BINARY, WS_OP_CLOSE, WS_OP_TEXT,
};

/// Split batched output buffers into (header, payload) frames.
fn frames(bufs: Vec<Vec<u8>>) -> Vec<(FrameHeader, Vec<u8>)> {
    let mut out = Vec::new();
    for buf in bufs {
        let mut i = 0;
        while i + FRAME_HEADER_LEN <= buf.len() {
            let h = FrameHeader::decode(buf[i..i + FRAME_HEADER_LEN].try_into().unwrap()).unwrap();
            let start = i + FRAME_HEADER_LEN;
            let end = start + h.payload_len as usize;
            out.push((h, buf[start..end].to_vec()));
            i = end;
        }
    }
    out
}

#[test]
fn route_bodies_answers_ping_and_aborts_task() {
    // A running handler for request 5.
    let mut tasks = Tasks::new();
    tasks.started(5);

    // Ping(5) -> Pong: busy.
    let pong = match tasks.route(&FrameHeader::new(FrameKind::Ping, 5, 0), vec![]) {
        Routed::Answer(v) => v,
        other => panic!("expected an answer, got {other:?}"),
    };
    let h = FrameHeader::decode(pong[..FRAME_HEADER_LEN].try_into().unwrap()).unwrap();
    assert_eq!((h.kind, h.request_id, h.aux), (FrameKind::Pong, 5, PONG_BUSY));

    // Abort(5) -> handler cancelled, Done(5) frees the slot.
    let abort = FrameHeader::new(FrameKind::Abort, 5, 0);
    let done = match tasks.route(&abort, vec![]) {
        Routed::Cancel(5, v) => v,
        other => panic!("expected a cancel, got {other:?}"),
    };
    let h = FrameHeader::decode(done[..FRAME_HEADER_LEN].try_into().unwrap()).unwrap();
    assert_eq!((h.kind, h.request_id), (FrameKind::Done, 5));
    assert_eq!(tasks.route(&abort, vec![]), Routed::Nothing);
    let idle = match tasks.route(&FrameHeader::new(FrameKind::Ping, 5, 0), vec![]) {
        Routed::Answer(v) => v,
        other => panic!("expected an answer, got {other:?}"),
    };
    let h = FrameHeader::decode(idle[..FRAME_HEADER_LEN].try_into().unwrap()).unwrap();
    assert_eq!(h.aux, PONG_IDLE);
}

/// Run a session over what comes in, as the worker does.
fn session(id: u32, inbound: Vec<Inbound>) -> Vec<Vec<u8>> {
    let mut out = vec![ws_accept(id)];
    let mut left = inbound.into_iter();
    loop {
        match ws_step(id, &left.next()) {
            WsStep::Nothing => {}
            WsStep::Send(v) => out.push(v),
            WsStep::Finish(v) => {
                out.push(v);
                return out;
            }
        }
    }
}

#[test]
fn ws_session_accepts_echoes_and_ends_on_close() {
    let f = frames(session(
        7,
        vec![
            Inbound::Ws(WS_OP_TEXT, b"marco".to_vec()),
            Inbound::Ws(WS_OP_BINARY, vec![1, 2, 3]),
            Inbound::Ws(WS_OP_CLOSE, vec![]),
        ],
    ));
    assert_eq!(f.len(), 5);
    assert_eq!((f[0].0.kind, f[0].0.aux), (FrameKind::ResponseHeaders, 101));
    assert_eq!((f[1].0.kind, f[1].0.aux), (FrameKind::WsMessage, WS_OP_TEXT));
    assert_eq!(f[1].1, b"marco");
    assert_eq!((f[2].0.kind, f[2].0.aux), (FrameKind::WsMessage, WS_OP_BINARY));
    assert_eq!(f[2].1, vec![1, 2, 3]);
    // End releases the client, Done frees the slot.
    assert_eq!((f[3].0.kind, f[3].0.request_id), (FrameKind::End, 7));
    assert_eq!((f[4].0.kind, f[4].0.request_id), (FrameKind::Done, 7));
}

#[test]
fn ws_session_ends_when_router_side_vanishes() {
    let f = frames(session(3, vec![]));
    // Terminates with End then Done.
    assert_eq!(f[f.len() - 2].0.kind, FrameKind::End);
    assert_eq!(f.last().unwrap().0.kind, FrameKind::Done);
}

#[test]
fn stray_pieces_do_not_disturb_a_session() {
    assert_eq!(ws_step(1, &Some(Inbound::Body(vec![1]))), WsStep::Nothing);
    assert_eq!(ws_step(1, &Some(Inbound::Ws(99, vec![1]))), WsStep::Nothing);
}

#[test]
fn read_body_collects_streamed_chunks_until_total() {
    let payload = RequestBuilder::new().content_length(11).finish();
    let view = RequestView::parse(&payload).unwrap();
    let total = match body_source(&view, FLAG_BODY_STREAM) {
        Ok(BodySource::Stream(n)) => n,
        other => panic!("expected a stream, got {other:?}"),
    };
    let mut stream = BodyStream::new(total);
    assert_eq!(stream.feed(Some(Inbound::Body(b"hello ".to_vec()))), None);
    let body = stream.feed(Some(Inbound::Body(b"world".to_vec()))).unwrap().unwrap();
    assert_eq!(body, b"hello world");
}

#[test]
fn read_body_reports_aborted_stream() {
    let payload = RequestBuilder::new().content_length(100).finish();
    let view = RequestView::parse(&payload).unwrap();
    let total = match body_source(&view, FLAG_BODY_STREAM) {
        Ok(BodySource::Stream(n)) => n,
        other => panic!("expected a stream, got {other:?}"),
    };
    let mut stream = BodyStream::new(total);
    assert_eq!(stream.feed(Some(Inbound::Body(b"only-a-piece".to_vec()))), None);
    // early terminator
    assert!(stream.feed(Some(Inbound::Body(Vec::new()))).unwrap().is_err());
    // and an overlong body
    let mut stream = BodyStream::new(2);
    assert_eq!(
        stream.feed(Some(Inbound::Body(b"abc".to_vec()))),
        Some(Err("request body aborted".to_string()))
    );
}

#[test]
fn read_body_inline_passthrough() {
    let payload = RequestBuilder::new().content_length(4).preread_body(b"ping").finish();
    let view = RequestView::parse(&payload).unwrap();
    assert_eq!(body_source(&view, 0), Ok(BodySource::Inline(b"ping".to_vec())));
}

#[test]
fn spilled_bodies_name_their_file() {
    let payload = RequestBuilder::new().preread_body(b"/tmp/x").finish();
    let view = RequestView::parse(&payload).unwrap();
    assert_eq!(body_source(&view, FLAG_BODY_FILE), Ok(BodySource::File("/tmp/x".to_string())));
    let payload = RequestBuilder::new().preread_body(b"\xff").finish();
    let view = RequestView::parse(&payload).unwrap();
    assert_eq!(
        body_source(&view, FLAG_BODY_FILE),
        Err("invalid utf-8 sequence of 1 bytes from index 0".to_string())
    );
}

#[test]
fn answers_with_the_request_line_and_the_body() {
    let payload = RequestBuilder::new().method(b"PUT").target(b"/a?b").finish();
    let view = RequestView::parse(&payload).unwrap();
    let answer = build_response(&view, b"xyz");
    assert_eq!(answer, Ok(b"PUT /a?b\nbody-length: 3\nxyz".to_vec()));

    let f = frames(vec![reply_frames(4, &answer)]);
    assert_eq!(f.len(), 4);
    assert_eq!((f[0].0.kind, f[0].0.aux), (FrameKind::ResponseHeaders, 200));
    assert_eq!(f[0].1, b"content-type: text/plain\r\n");
    assert_eq!(f[1].1, b"PUT /a?b\nbody-length: 3\nxyz");
    assert_eq!((f[2].0.kind, f[3].0.kind), (FrameKind::End, FrameKind::Done));

    let f = frames(vec![reply_frames(4, &Err("no".to_string()))]);
    assert_eq!(f.len(), 1);
    assert_eq!((f[0].0.kind, f[0].1.as_slice()), (FrameKind::Error, &b"no"[..]));
}

#[test]
fn frames_reach_the_request_they_follow() {
    let mut tasks = Tasks::new();
    let body = FrameHeader::new(FrameKind::RequestBody, 2, 1);
    assert_eq!(tasks.route(&body, vec![7]), Routed::Nothing);
    tasks.expect(2);
    assert_eq!(tasks.route(&body, vec![7]), Routed::Deliver(2, Inbound::Body(vec![7])));
    let mut ws = FrameHeader::new(FrameKind::WsMessage, 2, 1);
    ws.aux = WS_OP_TEXT;
    assert_eq!(tasks.route(&ws, vec![8]), Routed::Deliver(2, Inbound::Ws(WS_OP_TEXT, vec![8])));
    tasks.finished(2);
    assert_eq!(tasks.route(&ws, vec![8]), Routed::Nothing);
}

#[test]
fn concurrency_is_bounded() {
    assert_eq!(concurrency(8), 8);
    assert_eq!(concurrency(5000), 1024);
    assert!(has_inbound(FLAG_UPGRADE) && has_inbound(FLAG_BODY_STREAM));
    assert!(!has_inbound(FLAG_BODY_FILE));
}
