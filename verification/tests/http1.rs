use buran::router::http1::conn::{
    admits_connection, body_too_slow, body_want, failure_answer, intake, reusable, take_body,
    Failure, Intake,
};
use buran::router::http1::head::{
    reason_phrase, server_header, write_chunk, write_response, write_return, write_simple,
};
use buran::router::http1::parse::{
    find_headers_end, parse_request, split_target, websocket_upgrade, Parsed,
};
use buran::router::http1::reply::{
    framing_header, handshake_header, write_101, Reply, ReplyContext, ReplyInput, ReplyStep,
    STREAM_THRESHOLD,
};
use buran::router::dispatch::{DispatchError, WorkerEvent};
use buran::router::http1::submit::refusal_status;

fn head_of(resp: &[u8]) -> String {
    let end = resp.windows(4).position(|w| w == b"\r\n\r\n").unwrap();
    String::from_utf8_lossy(&resp[..end]).into_owned()
}

#[test]
fn parse_minimal_request() {
    let raw = b"GET /path?x=1 HTTP/1.1\r\nHost: example.test\r\n\r\n";
    let p = parse_request(raw).unwrap();
    assert_eq!(p.method, b"GET");
    assert_eq!(p.target, b"/path?x=1");
    assert!(p.keep_alive); // HTTP/1.1 defaults to keep-alive
    assert_eq!(p.content_length, 0);
    assert!(p.bad.is_none());
    // Header names are lowercased.
    assert_eq!(p.headers[0], (b"host".to_vec(), b"example.test".to_vec()));
}

#[test]
fn parse_reads_content_length() {
    let raw = b"POST / HTTP/1.1\r\nContent-Length: 42\r\n\r\n";
    assert_eq!(parse_request(raw).unwrap().content_length, 42);
}

#[test]
fn parse_flags_bad_content_length() {
    let raw = b"POST / HTTP/1.1\r\nContent-Length: notanumber\r\n\r\n";
    assert_eq!(parse_request(raw).unwrap().bad, Some(400));
}

#[test]
fn parse_rejects_chunked_body() {
    let raw = b"POST / HTTP/1.1\r\nTransfer-Encoding: chunked\r\n\r\n";
    assert_eq!(parse_request(raw).unwrap().bad, Some(411));
}

#[test]
fn parse_honors_connection_close() {
    let raw = b"GET / HTTP/1.1\r\nConnection: close\r\n\r\n";
    assert!(!parse_request(raw).unwrap().keep_alive);
}

#[test]
fn old_requests_close_their_connection() {
    assert!(!parse_request(b"GET / HTTP/1.0\r\n\r\n").unwrap().keep_alive);
}

#[test]
fn parse_rejects_garbage() {
    assert!(parse_request(b"not a request\r\n\r\n").is_none());
}

#[test]
fn too_many_headers_are_refused() {
    let mut raw = b"GET / HTTP/1.1\r\n".to_vec();
    for i in 0..65 {
        raw.extend_from_slice(format!("x-{i}: 1\r\n").as_bytes());
    }
    raw.extend_from_slice(b"\r\n");
    assert!(parse_request(&raw).is_none());
}

#[test]
fn split_target_variants() {
    assert_eq!(split_target(b"/p?x=1"), (&b"/p"[..], &b"x=1"[..]));
    assert_eq!(split_target(b"/p"), (&b"/p"[..], &b""[..]));
    assert_eq!(split_target(b"/p?"), (&b"/p"[..], &b""[..]));
}

#[test]
fn find_headers_end_locates_terminator() {
    assert_eq!(find_headers_end(b"GET / HTTP/1.1\r\n\r\nbody"), Some(18));
    assert_eq!(find_headers_end(b"incomplete\r\n"), None);
}

#[test]
fn framing_headers_are_recognized() {
    assert!(framing_header(b"content-length: 5"));
    assert!(framing_header(b"Transfer-Encoding: chunked"));
    assert!(framing_header(b"CONNECTION: close"));
    assert!(!framing_header(b"content-type: text/html"));
    assert!(!framing_header(b"x-custom: 1"));
    assert!(handshake_header(b"Sec-WebSocket-Accept: x"));
    assert!(!handshake_header(b"sec-websocket-protocol: x"));
}

#[test]
fn reason_phrases() {
    assert_eq!(reason_phrase(200), "OK");
    assert_eq!(reason_phrase(404), "Not Found");
    assert_eq!(reason_phrase(599), ""); // unknown codes have no phrase
}

#[test]
fn write_return_redirect() {
    let mut out = Vec::new();
    write_return(&mut out, server_header(true), 301, Some(b"/new"), &[], true);
    let head = head_of(&out);
    assert!(head.starts_with("HTTP/1.1 301 Moved Permanently"));
    assert!(head.contains("location: /new"));
    assert!(head.contains("content-length: 0"));
    assert!(!head.contains("connection: close"));
}

#[test]
fn write_return_closes_when_not_keep_alive() {
    let mut out = Vec::new();
    write_return(&mut out, server_header(true), 404, None, &[], false);
    assert!(head_of(&out).contains("connection: close"));
}

#[test]
fn write_response_has_body_and_length() {
    let mut out = Vec::new();
    write_response(&mut out, server_header(true), 200, "application/json", b"{}", &[], true);
    let head = head_of(&out);
    assert!(head.contains("content-type: application/json"));
    assert!(head.contains("content-length: 2"));
    assert!(out.ends_with(b"{}"));
}

#[test]
fn write_response_appends_extra_headers() {
    let mut out = Vec::new();
    let extra = [("x-a", Some("1")), ("x-b", None)];
    write_response(&mut out, server_header(true), 200, "text/plain", b"", &extra, true);
    let head = head_of(&out);
    assert!(head.contains("x-a: 1"));
    assert!(!head.contains("x-b")); // None value is skipped
}

#[test]
fn write_simple_wraps_response() {
    let mut out = Vec::new();
    write_simple(&mut out, server_header(true), 404, "Not Found", true);
    assert!(head_of(&out).starts_with("HTTP/1.1 404 Not Found"));
    assert!(out.ends_with(b"404 Not Found\n"));
}

#[test]
fn the_server_shows_its_version_on_demand() {
    let mut out = Vec::new();
    write_simple(&mut out, server_header(false), 404, "Not Found", true);
    assert!(head_of(&out).contains("server: buran\r\n"));
    assert_eq!(server_header(true), "buran/0.1.0");
}

#[test]
fn write_chunk_frames_data() {
    let mut out = Vec::new();
    write_chunk(&mut out, b"hello");
    assert_eq!(out, b"5\r\nhello\r\n");

    // Empty chunk writes nothing (the terminator is written by the caller).
    let mut empty = Vec::new();
    write_chunk(&mut empty, b"");
    assert!(empty.is_empty());
}

fn upgrade_request(extra: &str) -> Parsed {
    let raw = format!(
        "GET /ws HTTP/1.1\r\nHost: h\r\nUpgrade: websocket\r\n\
         Connection: keep-alive, Upgrade\r\nSec-WebSocket-Key: dGhlIHNhbXBsZQ==\r\n\
         Sec-WebSocket-Version: 13\r\n{extra}\r\n"
    );
    parse_request(raw.as_bytes()).unwrap()
}

#[test]
fn websocket_upgrade_detects_valid_offer() {
    let key = websocket_upgrade(&upgrade_request("")).expect("valid offer");
    assert_eq!(key, b"dGhlIHNhbXBsZQ==");
}

#[test]
fn websocket_upgrade_rejects_malformed_offers() {
    // Wrong method.
    let raw = b"POST /ws HTTP/1.1\r\nUpgrade: websocket\r\nConnection: Upgrade\r\n\
Sec-WebSocket-Key: k\r\nSec-WebSocket-Version: 13\r\n\r\n";
    assert!(websocket_upgrade(&parse_request(raw).unwrap()).is_none());

    // A body has no place in an upgrade offer.
    let mut with_body = upgrade_request("");
    with_body.content_length = 5;
    assert!(websocket_upgrade(&with_body).is_none());

    // Foreign version: pass through as plain HTTP.
    let raw = b"GET /ws HTTP/1.1\r\nUpgrade: websocket\r\nConnection: Upgrade\r\n\
Sec-WebSocket-Key: k\r\nSec-WebSocket-Version: 8\r\n\r\n";
    assert!(websocket_upgrade(&parse_request(raw).unwrap()).is_none());

    // `connection` without the upgrade token.
    let raw = b"GET /ws HTTP/1.1\r\nUpgrade: websocket\r\nConnection: keep-alive\r\n\
Sec-WebSocket-Key: k\r\nSec-WebSocket-Version: 13\r\n\r\n";
    assert!(websocket_upgrade(&parse_request(raw).unwrap()).is_none());

    // Upgrade to something else entirely.
    let raw = b"GET /ws HTTP/1.1\r\nUpgrade: h2c\r\nConnection: Upgrade\r\n\
Sec-WebSocket-Key: k\r\nSec-WebSocket-Version: 13\r\n\r\n";
    assert!(websocket_upgrade(&parse_request(raw).unwrap()).is_none());

    // No key, no deal.
    let raw = b"GET /ws HTTP/1.1\r\nUpgrade: websocket\r\nConnection: Upgrade\r\n\
Sec-WebSocket-Version: 13\r\n\r\n";
    assert!(websocket_upgrade(&parse_request(raw).unwrap()).is_none());
}

#[test]
fn take_body_splits_pipelined_bytes() {
    let mut buf = b"bodyNEXT REQUEST".to_vec();
    let body = take_body(&mut buf, 4);
    assert_eq!(body, b"body");
    assert_eq!(buf, b"NEXT REQUEST");
}

#[test]
fn take_body_reads_remainder_from_socket() {
    let mut buf = b"par".to_vec();
    let mut body = take_body(&mut buf, 7);
    // The rest comes from the socket, no more than is owed.
    let want = body_want(body.len() as u64, 7, 65536);
    body.extend_from_slice(&b"tialNEXT"[..want]);
    assert_eq!(body, b"partial");
    assert!(buf.is_empty());
    assert_eq!(body_want(7, 7, 65536), 0);
}

#[test]
fn slow_bodies_and_full_servers() {
    assert!(!body_too_slow(0, 5, 5, 256));
    assert!(body_too_slow(255, 6, 5, 256));
    assert!(!admits_connection(4096, 4096));
    assert!(admits_connection(4095, 4096));
}

#[test]
fn heads_are_taken_whole() {
    assert!(matches!(intake(b"GET / HTTP/1.1\r\n\r\nx"), Intake::Head(18)));
    assert!(matches!(intake(b""), Intake::More { idle: true }));
    assert!(matches!(intake(b"GET"), Intake::More { idle: false }));
    assert!(matches!(intake(&vec![b'a'; 32769]), Intake::TooLarge));
}

fn context(keep_alive: bool) -> ReplyContext<'static> {
    ReplyContext { server: "buran", ops: &[], keep_alive, upgrade: false }
}

fn event(e: WorkerEvent) -> ReplyInput {
    ReplyInput::Event(e)
}

#[test]
fn a_short_response_has_its_length() {
    let mut r = Reply::new();
    let ctx = context(true);
    let headers = b"content-type: text/plain\r\ncontent-length: 99\r\n".to_vec();
    assert!(matches!(
        r.step(event(WorkerEvent::Headers { status: 200, headers }), &ctx),
        ReplyStep::Wait
    ));
    assert!(matches!(r.step(event(WorkerEvent::Chunk(b"ab".to_vec())), &ctx), ReplyStep::Wait));
    match r.step(event(WorkerEvent::End), &ctx) {
        ReplyStep::Finish { bytes, status } => {
            assert_eq!(status, 200);
            let head = head_of(&bytes);
            assert!(head.contains("content-length: 2"), "{head}");
            assert!(!head.contains("99"), "{head}");
            assert!(bytes.ends_with(b"\r\n\r\nab"));
        }
        _ => panic!("expected the response"),
    }
}

#[test]
fn a_flushed_response_is_chunked() {
    let mut r = Reply::new();
    let ctx = context(true);
    r.step(event(WorkerEvent::Headers { status: 200, headers: vec![] }), &ctx);
    r.step(event(WorkerEvent::Chunk(b"ab".to_vec())), &ctx);
    match r.step(event(WorkerEvent::Flush), &ctx) {
        ReplyStep::Send(bytes) => {
            assert!(head_of(&bytes).contains("transfer-encoding: chunked"));
            assert!(bytes.ends_with(b"\r\n\r\n2\r\nab\r\n"));
        }
        _ => panic!("expected bytes"),
    }
    match r.step(event(WorkerEvent::End), &ctx) {
        ReplyStep::Finish { bytes, status } => {
            assert_eq!((bytes.as_slice(), status), (&b"0\r\n\r\n"[..], 200));
        }
        _ => panic!("expected the end"),
    }
}

#[test]
fn a_large_response_is_chunked() {
    let mut r = Reply::new();
    let ctx = context(true);
    r.step(event(WorkerEvent::Headers { status: 200, headers: vec![] }), &ctx);
    let big = vec![b'x'; STREAM_THRESHOLD + 1];
    assert!(matches!(r.step(event(WorkerEvent::Chunk(big)), &ctx), ReplyStep::Send(_)));
}

fn status_of(step: ReplyStep) -> u16 {
    match step {
        ReplyStep::Refuse { status, .. } | ReplyStep::Break { status, .. } => status,
        _ => panic!("expected an end"),
    }
}

#[test]
fn failures_before_the_head() {
    let ctx = context(true);
    let failed = |e| status_of(Reply::new().step(event(WorkerEvent::Failed(e)), &ctx));
    assert_eq!(failed(DispatchError::WorkerFailed), 502);
    assert_eq!(status_of(Reply::new().step(ReplyInput::Closed, &ctx)), 502);
}

#[test]
fn only_a_claimed_request_is_a_gateway_timeout() {
    let ctx = context(true);
    let mut r = Reply::new();
    match r.step(ReplyInput::Stalled, &ctx) {
        ReplyStep::Refuse { bytes, status } => {
            assert_eq!(status, 503);
            assert_eq!(status, refusal_status(DispatchError::QueueTimeout));
            assert!(head_of(&bytes).starts_with("HTTP/1.1 503 Service Unavailable"));
        }
        _ => panic!("expected an end"),
    }
    let mut r = Reply::new();
    assert!(matches!(r.step(ReplyInput::Claimed, &ctx), ReplyStep::Wait));
    assert_eq!(status_of(r.step(ReplyInput::Stalled, &ctx)), 504);
}

#[test]
fn a_handshake_is_the_routers_own() {
    let mut out = Vec::new();
    write_101(
        &mut out,
        "buran",
        "KEY",
        b"sec-websocket-protocol: chat\r\nsec-websocket-accept: forged\r\n",
        &[],
    );
    let head = head_of(&out);
    assert!(head.starts_with("HTTP/1.1 101 "), "{head}");
    assert!(head.contains("sec-websocket-accept: KEY"), "{head}");
    assert!(head.contains("sec-websocket-protocol: chat"), "{head}");
    assert!(!head.contains("forged"), "{head}");
}

#[test]
fn a_stream_may_be_silent_for_longer() {
    let mut r = Reply::new();
    assert_eq!(r.patience(1, 2, 3), 1);
    r = Reply::Waiting;
    assert_eq!(r.patience(1, 2, 3), 2);
    r = Reply::Held { status: 200, headers: vec![], body: vec![] };
    assert_eq!(r.patience(1, 2, 3), 2);
    r = Reply::Streaming { status: 200 };
    assert_eq!(r.patience(1, 2, 3), 3);
}

#[test]
fn a_stalled_worker_is_told_to_abort() {
    let ctx = context(true);
    let mut r = Reply::new();
    assert!(!r.aborts(&ReplyInput::Stalled));
    assert!(!r.aborts(&ReplyInput::Lost));
    r.step(ReplyInput::Claimed, &ctx);
    assert!(r.aborts(&ReplyInput::Stalled));
    assert!(!r.aborts(&ReplyInput::Closed));
    assert_eq!(status_of(r.step(ReplyInput::Stalled, &ctx)), 504);
    r.step(event(WorkerEvent::Headers { status: 200, headers: vec![] }), &ctx);
    assert!(r.aborts(&ReplyInput::Stalled));
    assert!(!r.aborts(&event(WorkerEvent::End)));
    assert_eq!(status_of(r.step(ReplyInput::Stalled, &ctx)), 504);
    r.step(event(WorkerEvent::Flush), &ctx);
    assert!(r.aborts(&ReplyInput::Stalled));
    assert!(r.aborts(&ReplyInput::Lost));
    assert!(matches!(
        r.step(ReplyInput::Lost, &ctx),
        ReplyStep::Break { bytes, status: 200 } if bytes.is_empty()
    ));
}

#[test]
fn a_connection_is_used_again_only_if_it_can_be() {
    assert!(reusable(true, false, false, false));
    assert!(reusable(true, true, true, false));
    assert!(!reusable(true, true, false, false));
    assert!(!reusable(false, false, true, false));
    assert!(!reusable(true, false, true, true));
}

#[test]
fn failures_of_the_server_have_their_status() {
    assert_eq!(failure_answer(Failure::Head, true), (431, false));
    assert_eq!(failure_answer(Failure::Body, true), (408, false));
    assert_eq!(failure_answer(Failure::NoPool, true), (500, false));
    assert_eq!(failure_answer(Failure::Spill, true), (500, true));
    assert_eq!(failure_answer(Failure::Payload, false), (500, false));
}
