use buran::ipc::frame::push_frame;
use buran::ipc::{
    BwpError, FrameHeader, FrameKind, Hello, HelloAck, RequestBuilder, RequestView, BWP_VERSION,
    FRAME_HEADER_LEN, PONG_BUSY, PONG_IDLE,
};
use buran::worker::{
    claim_frame, hello_frame, next_frame, read_ack, read_work, Describe, Recycle, Responder, Work,
    WorkerError, FLUSH_THRESHOLD,
};

/// Split a batched output buffer into (header, payload) frames.
fn frames(buf: &[u8]) -> Vec<(FrameHeader, Vec<u8>)> {
    let mut out = Vec::new();
    let mut i = 0;
    while i + FRAME_HEADER_LEN <= buf.len() {
        let h = FrameHeader::decode(buf[i..i + FRAME_HEADER_LEN].try_into().unwrap()).unwrap();
        let start = i + FRAME_HEADER_LEN;
        let end = start + h.payload_len as usize;
        out.push((h, buf[start..end].to_vec()));
        i = end;
    }
    out
}

fn responder_output(build: impl FnOnce(&mut Responder)) -> Vec<u8> {
    let mut r = Responder::new(7);
    build(&mut r);
    r.take()
}

#[test]
fn push_frame_prepends_header() {
    let mut out = Vec::new();
    push_frame(&mut out, &FrameHeader::new(FrameKind::ResponseBody, 3, 2), b"hi");
    let f = frames(&out);
    assert_eq!(f.len(), 1);
    assert_eq!(f[0].0.kind, FrameKind::ResponseBody);
    assert_eq!(f[0].0.request_id, 3);
    assert_eq!(f[0].1, b"hi");
}

#[test]
fn headers_body_finish_are_batched_in_order() {
    let out = responder_output(|r| {
        r.send_headers(200, b"content-type: text/plain\r\n").unwrap();
        r.send_body(b"hello").unwrap();
        r.finish().unwrap();
    });
    let f = frames(&out);
    assert_eq!(f.len(), 3);

    assert_eq!(f[0].0.kind, FrameKind::ResponseHeaders);
    assert_eq!(f[0].0.aux, 200); // status rides in aux
    assert_eq!(f[0].0.request_id, 7);
    assert_eq!(f[0].1, b"content-type: text/plain\r\n");

    assert_eq!(f[1].0.kind, FrameKind::ResponseBody);
    assert_eq!(f[1].1, b"hello");

    assert_eq!(f[2].0.kind, FrameKind::End);
    assert_eq!(f[2].0.payload_len, 0);
}

#[test]
fn finish_is_idempotent() {
    let out = responder_output(|r| {
        r.send_headers(204, b"").unwrap();
        r.finish().unwrap();
        r.finish().unwrap(); // second call is a no-op
    });
    let ends = frames(&out).into_iter().filter(|(h, _)| h.kind == FrameKind::End).count();
    assert_eq!(ends, 1);
}

#[test]
fn error_emits_error_frame() {
    let out = responder_output(|r| {
        r.error("boom").unwrap();
    });
    let f = frames(&out);
    assert_eq!(f[0].0.kind, FrameKind::Error);
    assert_eq!(f[0].1, b"boom");
}

#[test]
fn run_serves_a_request_and_recycles_after_max_requests() {
    // Hello: the blocking profile pins its declaration.
    let f = frames(&hello_frame(4242, 1, 0));
    assert_eq!(f[0].0.kind, FrameKind::Hello);
    let hello = Hello::decode(&f[0].1).unwrap();
    assert_eq!(hello.version, BWP_VERSION);
    assert_eq!(hello.concurrency, 1);
    assert_eq!(hello.capabilities, 0);
    assert!(hello.pid > 0);

    let ack = HelloAck { version: BWP_VERSION, concurrency: 1 }.encode();
    let header = FrameHeader::new(FrameKind::HelloAck, 0, ack.len() as u32);
    assert_eq!(read_ack(&header, &ack), Ok(1));

    // One request through the work queue.
    let req = RequestBuilder::new().method(b"GET").path(b"/x").finish();
    let mut dgram = Vec::new();
    push_frame(&mut dgram, &FrameHeader::new(FrameKind::Request, 9, req.len() as u32), &req);
    let (id, flags, end) = match read_work(&dgram) {
        Ok(Work::Serve { id, flags, end }) => (id, flags, end),
        other => panic!("expected a request, got {other:?}"),
    };
    assert_eq!(id, 9);
    assert_eq!(flags, 0);

    let claim = frames(&claim_frame(id));
    assert_eq!((claim[0].0.kind, claim[0].0.request_id), (FrameKind::Claim, 9));

    let view = RequestView::parse(&dgram[FRAME_HEADER_LEN..end]).unwrap();
    let mut responder = Responder::new(id);
    responder.send_headers(200, b"x-test: 1\r\n").unwrap();
    let mut line = view.method().unwrap().to_vec();
    line.push(b' ');
    line.extend_from_slice(view.path().unwrap());
    responder.send_body(&line).unwrap();
    responder.finish().unwrap();
    responder.settle(true);

    let f = frames(&responder.take());
    assert_eq!((f[0].0.kind, f[0].0.aux), (FrameKind::ResponseHeaders, 200));
    assert_eq!(f[0].1, b"x-test: 1\r\n");
    assert_eq!(f[1].0.kind, FrameKind::ResponseBody);
    assert_eq!(f[1].1, b"GET /x");
    assert_eq!((f[2].0.kind, f[2].0.request_id), (FrameKind::End, 9));
    assert_eq!((f[3].0.kind, f[3].0.request_id), (FrameKind::Done, 9));
    assert_eq!(f.len(), 4);

    // max_requests = 1: the loop must end after one response.
    assert!(Recycle::new(1).served());
}

#[test]
fn retire_datagram_exits_the_loop() {
    let retire = FrameHeader::new(FrameKind::Retire, 0, 0).encode();
    assert_eq!(read_work(&retire), Ok(Work::Retire));
}

#[test]
fn odd_datagrams_are_skipped() {
    assert_eq!(read_work(b"short"), Ok(Work::Skip));
    let end = FrameHeader::new(FrameKind::End, 1, 0).encode();
    assert_eq!(read_work(&end), Ok(Work::Skip));
    // Cut off: the header announces more than came.
    let cut = FrameHeader::new(FrameKind::Request, 1, 5).encode();
    assert_eq!(read_work(&cut), Ok(Work::Skip));
    assert_eq!(read_work(&[99u8; 16]), Err(BwpError::UnknownKind(99)));
}

#[test]
fn answers_to_the_greeting() {
    let ack = HelloAck { version: BWP_VERSION, concurrency: 12 }.encode();
    let header = FrameHeader::new(FrameKind::HelloAck, 0, ack.len() as u32);
    assert_eq!(read_ack(&header, &ack), Ok(12));
    let wrong = FrameHeader::new(FrameKind::Ping, 0, 0);
    assert_eq!(read_ack(&wrong, &ack), Err(BwpError::BadMagic));
    let old = HelloAck { version: 7, concurrency: 1 }.encode();
    assert_eq!(read_ack(&header, &old), Err(BwpError::UnsupportedVersion(7)));
    assert_eq!(
        read_ack(&header, b"abc"),
        Err(BwpError::Truncated { expected: 8, actual: 3 })
    );
}

#[test]
fn a_failed_handler_fails_its_request() {
    let mut r = Responder::new(3);
    r.send_headers(200, b"").unwrap();
    r.settle(false);
    let p = r.progress();
    assert!(p.headers_sent && p.finished && p.failed && !p.gone);
    let f = frames(&r.take());
    assert_eq!(f.len(), 2);
    assert_eq!((f[1].0.kind, f[1].1.as_slice()), (FrameKind::Error, &b"handler failed"[..]));

    // A request that failed already is not ended twice.
    let mut r = Responder::new(3);
    r.error("boom").unwrap();
    r.settle(true);
    assert_eq!(frames(&r.take()).len(), 1);

    // The client was released before the handler failed: only the task ends.
    let mut r = Responder::new(3);
    r.send_headers(200, b"").unwrap();
    let early = frames(&r.finish_now().unwrap());
    assert_eq!(early.last().unwrap().0.kind, FrameKind::End);
    r.settle(false);
    assert!(r.progress().finished && !r.progress().failed);
    let f = frames(&r.take());
    assert_eq!(f.len(), 1);
    assert_eq!(f[0].0.kind, FrameKind::Done);
}

#[test]
fn a_gone_client_fails_later_output() {
    let mut r = Responder::new(3);
    r.send_headers(200, b"").unwrap();
    r.hear(&FrameHeader::new(FrameKind::Abort, 4, 0));
    assert!(r.send_body(b"x").is_ok());
    r.hear(&FrameHeader::new(FrameKind::Abort, 3, 0));
    assert_eq!(r.send_body(b"x"), Err(WorkerError::Closed));
    assert_eq!(r.flush(), Err(WorkerError::Closed));
}

#[test]
fn probes_are_answered() {
    let mut r = Responder::new(3);
    r.hear(&FrameHeader::new(FrameKind::Ping, 3, 0));
    r.hear(&FrameHeader::new(FrameKind::Ping, 9, 0));
    let f = frames(&r.take());
    assert_eq!((f[0].0.kind, f[0].0.request_id, f[0].0.aux), (FrameKind::Pong, 3, PONG_BUSY));
    assert_eq!((f[1].0.kind, f[1].0.request_id, f[1].0.aux), (FrameKind::Pong, 9, PONG_IDLE));
}

#[test]
fn flush_leaves_the_response_open() {
    let mut r = Responder::new(3);
    r.send_headers(200, b"").unwrap();
    r.flush().unwrap();
    assert!(!r.progress().finished);
    assert_eq!(frames(&r.take())[1].0.kind, FrameKind::Flush);
}

#[test]
fn large_output_is_due_early() {
    let mut r = Responder::new(3);
    r.send_headers(200, b"").unwrap();
    assert_eq!(r.send_body(b"small"), Ok(false));
    assert_eq!(r.send_body(&vec![0u8; FLUSH_THRESHOLD]), Ok(true));
}

#[test]
fn workers_without_a_limit_go_on() {
    let mut r = Recycle::new(0);
    for _ in 0..10 {
        assert!(!r.served());
    }
    let mut r = Recycle::new(3);
    assert_eq!((r.served(), r.served(), r.served()), (false, false, true));
}

#[test]
fn describes_itself_in_json() {
    let d = Describe {
        runtime: "php",
        version: "8.5 \"beta\"".to_string(),
        source_extensions: &[".php", ".phtml"],
    };
    assert_eq!(
        d.to_json(),
        "{\"bwp\":1,\"runtime\":\"php\",\"source_extensions\":[\".php\",\".phtml\"],\"version\":\"8.5 \\\"beta\\\"\"}"
    );
    let d = Describe { runtime: "echo", version: "1".to_string(), source_extensions: &[] };
    assert_eq!(
        d.to_json(),
        "{\"bwp\":1,\"runtime\":\"echo\",\"source_extensions\":[],\"version\":\"1\"}"
    );
}

#[test]
fn errors_in_words() {
    assert_eq!(WorkerError::Closed.message(), "router closed the channel");
    assert_eq!(WorkerError::Io("nope".to_string()).message(), "io: nope");
    assert_eq!(
        WorkerError::Bwp(BwpError::UnknownKind(200)).message(),
        "protocol: unknown frame kind 200"
    );
    assert_eq!(BwpError::BadMagic.message(), "bad magic in Hello frame");
    assert_eq!(BwpError::UnsupportedVersion(3).message(), "unsupported BWP version 3");
    assert_eq!(
        BwpError::Truncated { expected: 8, actual: 3 }.message(),
        "frame payload too short: 3 < 8"
    );
    assert_eq!(
        BwpError::OutOfBounds { off: 1, len: 20, blob: 3 }.message(),
        "offset table entry out of bounds: 1+20 > 3"
    );
}

#[test]
fn frames_come_off_a_stream_in_order() {
    let mut inbox = hello_frame(7, 1, 0);
    let hello_len = inbox.len();
    inbox.extend_from_slice(&claim_frame(5));
    let whole = inbox.clone();
    let mut short = whole[..hello_len - 1].to_vec();
    assert!(matches!(next_frame(&mut short), Ok(None)));
    assert_eq!(short, whole[..hello_len - 1]);
    let (header, payload) = next_frame(&mut inbox).unwrap().unwrap();
    assert_eq!(header.kind, FrameKind::Hello);
    assert_eq!(payload, whole[16..hello_len]);
    let (header, payload) = next_frame(&mut inbox).unwrap().unwrap();
    assert_eq!((header.kind, header.request_id), (FrameKind::Claim, 5));
    assert!(payload.is_empty());
    assert!(inbox.is_empty());
    assert_eq!(next_frame(&mut vec![0xee; 16]).unwrap_err(), BwpError::UnknownKind(0xee));
}
