use buran::config::schema::{
    Action, Config, Listener, Match, OneOrMany, RouteStep, Share, StaticSettings,
};
use buran::config::table::Table;
use buran::config::validate;
use buran::ipc::{RequestView, WS_OP_CLOSE, WS_OP_TEXT};
use buran::router::addr::Addr;
use buran::router::compile::compile;
use buran::router::dispatch::lifecycle::PoolStats;
use buran::router::dispatch::{DispatchError, SubmitBody, WorkerEvent, INLINE_BODY_LIMIT};
use buran::router::http1::conn::{
    accept, examine, fall_back, Admission, Admitted, ListenerKind, PoolCaps,
};
use buran::router::http1::parse::parse_request;
use buran::router::http1::stage::{status_reply, Stage};
use buran::router::http1::submit::{plan_body, refusal_status, worker_request, Delivery};
use buran::router::http1::tunnel::{Tunnel, TunnelStep};
use buran::router::routes::{CompiledRoutes, Decision, RequestMeta, RouteOutcome};
use buran::router::setup::{endpoints, mime_overrides, status_body};
use buran::router::ws::{encode_close, encode_frame, OP_BINARY, OP_PING, OP_PONG, OP_TEXT};

fn routes(steps: Vec<Action>) -> CompiledRoutes {
    let mut c = Config::default();
    let l = Listener { route: Some("main".to_string()), status: false };
    c.listeners.insert("*:8080".to_string(), l);
    let steps = steps.into_iter().map(|action| RouteStep { match_: None, action }).collect();
    c.routes.insert("main".to_string(), steps);
    match compile(&validate(c, 1).unwrap()) {
        Ok(r) => r,
        Err(_) => panic!("routes do not compile"),
    }
}

fn returning(status: u16) -> Action {
    Action { return_: Some(status), ..Action::default() }
}

fn admitted<'r>(raw: &[u8], routes: &'r CompiledRoutes, rest: &mut Vec<u8>) -> Admission<'r> {
    let mut buf = raw.to_vec();
    let n = raw.windows(4).position(|w| w == b"\r\n\r\n").unwrap() + 4;
    let kind = ListenerKind::Route("main".to_string());
    let pools = Table::new();
    let a = accept(
        &mut buf,
        n,
        &kind,
        routes,
        &pools,
        1000,
        Addr::V4([10, 0, 0, 1]),
        "10.0.0.1",
    );
    *rest = buf;
    a
}

fn refusal(raw: &[u8]) -> u16 {
    let r = routes(vec![returning(200)]);
    match admitted(raw, &r, &mut Vec::new()) {
        Admission::Refused(status) => status,
        Admission::Accepted(_) => panic!("expected a refusal"),
    }
}

#[test]
fn requests_that_are_refused() {
    assert_eq!(refusal(b"junk\r\n\r\n"), 400);
    assert_eq!(refusal(b"GET /a%0d%0ab HTTP/1.1\r\nHost: h\r\n\r\n"), 400);
    assert_eq!(refusal(b"POST / HTTP/1.1\r\nHost: h\r\nContent-Length: 1001\r\n\r\n"), 413);
    assert_eq!(refusal(b"POST / HTTP/1.1\r\nHost: h\r\nTransfer-Encoding: chunked\r\n\r\n"), 411);
}

#[test]
fn an_accepted_request_is_routed() {
    let r = routes(vec![returning(204)]);
    let mut rest = Vec::new();
    let a: Admitted = match admitted(
        b"POST /a/../b?x=1 HTTP/1.1\r\nHost: h\r\nContent-Length: 3\r\n\r\nabcGET",
        &r,
        &mut rest,
    ) {
        Admission::Accepted(a) => a,
        Admission::Refused(s) => panic!("refused with {s}"),
    };
    assert_eq!(a.path, b"/b");
    assert_eq!(a.query, b"x=1");
    assert!(!a.streams);
    assert!(a.ws_key.is_none());
    assert_eq!(rest, b"abcGET");
    assert!(matches!(a.outcome.unwrap().decision, Decision::Return { status: 204, .. }));
}

#[test]
fn a_parsed_request_is_examined() {
    let r = routes(vec![returning(204)]);
    let kind = ListenerKind::Route("main".to_string());
    let pools = Table::new();
    let remote = Addr::V4([10, 0, 0, 1]);
    let p = parse_request(b"GET /a/./b?q HTTP/1.1\r\nHost: h\r\n\r\n").unwrap();
    match examine(p, 0, &kind, &r, &pools, 0, remote, "10.0.0.1") {
        Admission::Accepted(a) => assert_eq!(a.path, b"/a/b"),
        Admission::Refused(s) => panic!("refused with {s}"),
    }
    let p = parse_request(b"POST / HTTP/1.1\r\nContent-Length: 1\r\n\r\n").unwrap();
    assert!(matches!(
        examine(p, 0, &kind, &r, &pools, 0, remote, "10.0.0.1"),
        Admission::Refused(413)
    ));
}

fn outcome(decision: Decision<'_>) -> RouteOutcome<'_> {
    RouteOutcome { decision, rewritten: None, response_headers: vec![] }
}

#[test]
fn upgrades_need_a_pool_that_can() {
    let key = Some(b"k".to_vec());
    let mut pools = Table::new();
    pools.insert("can".to_string(), PoolCaps { streams_body: false, websocket: true });
    pools.insert("cannot".to_string(), PoolCaps { streams_body: true, websocket: false });
    let stage = |name| Stage::begin(outcome(Decision::Application(name)), vec![], vec![]);
    assert!(stage("can").upgrades(&key, &pools));
    assert!(!stage("cannot").upgrades(&key, &pools));
    assert!(!stage("unknown").upgrades(&key, &pools));
    assert!(!stage("can").upgrades(&None, &pools));
    let mut late = stage("can");
    late.misses = 1;
    assert!(!late.upgrades(&key, &pools));
}

#[test]
fn rewrites_take_effect() {
    let rewritten = RouteOutcome {
        decision: Decision::NotFound,
        rewritten: Some((b"/r".to_vec(), b"z".to_vec())),
        response_headers: vec![],
    };
    let s = Stage::begin(rewritten, b"/p".to_vec(), b"y".to_vec());
    assert_eq!((s.path.as_slice(), s.query.as_slice()), (&b"/r"[..], &b"z"[..]));
    let s = Stage::begin(outcome(Decision::NotFound), b"/p".to_vec(), b"y".to_vec());
    assert_eq!((s.path.as_slice(), s.query.as_slice()), (&b"/p"[..], &b"y"[..]));
}

#[test]
fn plain_actions_answer_at_once() {
    let r = routes(vec![Action {
        return_: Some(302),
        location: Some("http://$host$uri?$args".to_string()),
        ..Action::default()
    }]);
    let raw = b"GET /x?a=1 HTTP/1.1\r\nHost: h\r\n\r\n";
    let a = match admitted(raw, &r, &mut Vec::new()) {
        Admission::Accepted(a) => a,
        Admission::Refused(s) => panic!("refused with {s}"),
    };
    let mut s = Stage::begin(a.outcome.unwrap(), a.path, a.query);
    s.ops.push(("x-a", Some("1")));
    let (status, bytes) = s.plain_reply(&a.parsed, "10.0.0.1", "buran").unwrap();
    assert_eq!(status, 302);
    assert_eq!(
        String::from_utf8(bytes).unwrap(),
        "HTTP/1.1 302 Found\r\nserver: buran\r\ncontent-length: 0\r\n\
         location: http://h/x?a=1\r\nx-a: 1\r\n\r\n"
    );
    s.decision = Decision::NotFound;
    let (status, bytes) = s.plain_reply(&a.parsed, "10.0.0.1", "buran").unwrap();
    assert_eq!(status, 404);
    assert_eq!(
        String::from_utf8(bytes).unwrap(),
        "HTTP/1.1 404 Not Found\r\nserver: buran\r\ncontent-type: text/plain\r\n\
         content-length: 14\r\nx-a: 1\r\n\r\n404 Not Found\n"
    );
    s.decision = Decision::Application("app");
    assert!(s.plain_reply(&a.parsed, "10.0.0.1", "buran").is_none());
}

#[test]
fn misses_go_on_until_nothing_is_left() {
    let share = Action {
        share: Some(Share::Path("/www$uri".to_string())),
        fallback: Some(Box::new(Action {
            route: Some("main".to_string()),
            ..Action::default()
        })),
        ..Action::default()
    };
    let r = routes(vec![share]);
    let a = match admitted(b"GET /x HTTP/1.1\r\nHost: h\r\n\r\n", &r, &mut Vec::new()) {
        Admission::Accepted(a) => a,
        Admission::Refused(s) => panic!("refused with {s}"),
    };
    let mut s = Stage::begin(a.outcome.unwrap(), a.path, a.query);
    let mut misses = 0;
    while !matches!(s.decision, Decision::NotFound) {
        s = s.missed(&r, &a.parsed, Addr::V4([10, 0, 0, 1]), "10.0.0.1");
        misses += 1;
    }
    assert_eq!(misses, 17);
    assert_eq!(s.path, b"/x");
}

#[test]
fn a_share_falls_back() {
    let share = Action {
        share: Some(Share::Path("/www$uri".to_string())),
        fallback: Some(Box::new(returning(418))),
        ..Action::default()
    };
    let r = routes(vec![share]);
    let meta = RequestMeta {
        method: b"GET",
        host: b"h",
        path: b"/x",
        query: b"",
        headers: &[],
        remote: Addr::V4([10, 0, 0, 1]),
        remote_text: "10.0.0.1",
    };
    let fallback = match r.decide("main", &meta).decision {
        Decision::Share { fallback, .. } => fallback,
        _ => panic!("expected a share"),
    };
    assert!(matches!(
        fall_back(fallback, &r, &meta, 0).decision,
        Decision::Return { status: 418, .. }
    ));
    assert!(matches!(fall_back(None, &r, &meta, 0).decision, Decision::NotFound));
}

#[test]
fn a_fallback_is_a_full_action() {
    let mut headers = Table::new();
    headers.insert("X-Fell".to_string(), Some("back".to_string()));
    let fallback = Action {
        rewrite: Some("/index.php?from=$uri".to_string()),
        response_headers: Some(headers),
        return_: Some(302),
        location: Some("$uri?$args".to_string()),
        ..Action::default()
    };
    let share = Action {
        share: Some(Share::Path("/www$uri".to_string())),
        fallback: Some(Box::new(fallback)),
        ..Action::default()
    };
    let r = routes(vec![share]);
    let a = match admitted(b"GET /x HTTP/1.1\r\nHost: h\r\n\r\n", &r, &mut Vec::new()) {
        Admission::Accepted(a) => a,
        Admission::Refused(s) => panic!("refused with {s}"),
    };
    let s = Stage::begin(a.outcome.unwrap(), a.path, a.query);
    assert!(s.ops.is_empty());
    let s = s.missed(&r, &a.parsed, Addr::V4([10, 0, 0, 1]), "10.0.0.1");
    assert_eq!((s.path.as_slice(), s.query.as_slice()), (&b"/index.php"[..], &b"from=/x"[..]));
    assert_eq!(s.ops, vec![("X-Fell", Some("back"))]);
    let (status, bytes) = s.plain_reply(&a.parsed, "10.0.0.1", "buran").unwrap();
    assert_eq!(status, 302);
    assert_eq!(
        String::from_utf8(bytes).unwrap(),
        "HTTP/1.1 302 Found\r\nserver: buran\r\ncontent-length: 0\r\n\
         location: /index.php?from=/x\r\nX-Fell: back\r\n\r\n"
    );
}

#[test]
fn a_fallback_rewrites_before_it_jumps() {
    let on = |uri: &str, action| RouteStep {
        match_: Some(Match {
            uri: Some(OneOrMany::One(uri.to_string())),
            ..Match::default()
        }),
        action,
    };
    let share = Action {
        share: Some(Share::Path("/www$uri".to_string())),
        fallback: Some(Box::new(Action {
            rewrite: Some("/found".to_string()),
            route: Some("main".to_string()),
            ..Action::default()
        })),
        ..Action::default()
    };
    let mut c = Config::default();
    let l = Listener { route: Some("main".to_string()), status: false };
    c.listeners.insert("*:8080".to_string(), l);
    c.routes.insert("main".to_string(), vec![on("/found", returning(418)), on("*", share)]);
    let r = match compile(&validate(c, 1).unwrap()) {
        Ok(r) => r,
        Err(_) => panic!("routes do not compile"),
    };
    let meta = RequestMeta {
        method: b"GET",
        host: b"h",
        path: b"/x",
        query: b"q=1",
        headers: &[],
        remote: Addr::V4([10, 0, 0, 1]),
        remote_text: "10.0.0.1",
    };
    let fallback = match r.decide("main", &meta).decision {
        Decision::Share { fallback, .. } => fallback,
        _ => panic!("expected a share"),
    };
    let next = fall_back(fallback, &r, &meta, 0);
    assert!(matches!(next.decision, Decision::Return { status: 418, .. }));
    assert_eq!(next.rewritten, Some((b"/found".to_vec(), vec![])));
}

#[test]
fn bodies_travel_as_they_can() {
    assert_eq!(plan_body(10, false, false), SubmitBody::Inline);
    assert_eq!(plan_body(INLINE_BODY_LIMIT, false, false), SubmitBody::Inline);
    assert_eq!(plan_body(INLINE_BODY_LIMIT + 1, false, false), SubmitBody::File);
    assert_eq!(plan_body(INLINE_BODY_LIMIT + 1, true, false), SubmitBody::Stream);
    assert_eq!(plan_body(0, true, true), SubmitBody::Upgrade);
}

#[test]
fn refused_requests_have_their_status() {
    assert_eq!(refusal_status(DispatchError::WorkerFailed), 502);
    assert_eq!(refusal_status(DispatchError::QueueFull), 503);
    assert_eq!(refusal_status(DispatchError::QueueTimeout), 503);
}

#[test]
fn the_worker_is_told_of_the_request() {
    let p = parse_request(b"GET /o?z HTTP/1.1\r\nHost: h:81\r\nX: y\r\n\r\n").unwrap();
    let d = Delivery {
        path: b"/rewritten",
        query: b"q",
        remote_text: "10.0.0.1",
        local_port: 8080,
        content_length: 4,
        preread: b"body",
    };
    let payload = worker_request(&p, &d).unwrap();
    let v = RequestView::parse(&payload).unwrap();
    assert_eq!(v.method().unwrap(), b"GET");
    assert_eq!(v.path().unwrap(), b"/rewritten");
    assert_eq!(v.target().unwrap(), b"/o?z");
    assert_eq!(v.query().unwrap(), b"q");
    assert_eq!(v.remote_addr().unwrap(), b"10.0.0.1");
    assert_eq!(v.server_port(), 8080);
    assert_eq!(v.content_length(), 4);
    assert_eq!(v.preread_body().unwrap(), b"body");
    assert_eq!(v.fields_count(), 2);
}

/// A client's frame, masked with zeros.
fn client(opcode: u8, payload: &[u8]) -> Vec<u8> {
    let mut f = vec![0x80 | opcode, 0x80 | payload.len() as u8, 0, 0, 0, 0];
    f.extend_from_slice(payload);
    f
}

#[test]
fn a_tunnel_carries_messages() {
    let mut t = Tunnel::new(1024, client(OP_TEXT, b"hi"));
    match t.from_client() {
        TunnelStep::ToWorker { opcode, payload } => {
            assert_eq!((opcode, payload.as_slice()), (WS_OP_TEXT, &b"hi"[..]))
        }
        _ => panic!("expected a message"),
    }
    assert!(matches!(t.from_client(), TunnelStep::Need));
    t.feed(&client(OP_PING, b"p"));
    assert!(matches!(t.from_client(), TunnelStep::ToClient(f) if f == encode_frame(OP_PONG, b"p")));
    let ws = |opcode, payload: &[u8]| {
        Tunnel::from_worker(Some(WorkerEvent::Ws { opcode, payload: payload.to_vec() }))
    };
    assert!(matches!(ws(2, b"x"), TunnelStep::ToClient(f) if f == encode_frame(OP_BINARY, b"x")));
    assert!(matches!(ws(WS_OP_CLOSE, b""), TunnelStep::Close { to_worker: None, .. }));
}

#[test]
fn a_tunnel_ends_in_many_ways() {
    let mut t = Tunnel::new(1, client(OP_TEXT, b"too big"));
    match t.from_client() {
        TunnelStep::Close { to_worker, to_client } => {
            assert_eq!(to_worker, Some(1009u16.to_be_bytes().to_vec()));
            assert_eq!(to_client, encode_close(1009, ""));
        }
        _ => panic!("expected a close"),
    }
    let closes = |step: TunnelStep| match step {
        TunnelStep::Close { to_client, .. } => to_client,
        _ => panic!("expected a close"),
    };
    assert_eq!(closes(Tunnel::from_worker(Some(WorkerEvent::End))), encode_close(1000, ""));
    assert_eq!(
        closes(Tunnel::from_worker(Some(WorkerEvent::Failed(DispatchError::WorkerFailed)))),
        encode_close(1011, "")
    );
    assert_eq!(closes(Tunnel::worker_lost()), encode_close(1011, ""));
    assert_eq!(closes(Tunnel::idle()), encode_close(1001, "idle timeout"));
    assert!(closes(Tunnel::client_lost()).is_empty());
}

#[test]
fn listeners_become_endpoints() {
    let mut t = Table::new();
    t.insert(
        "*:8080".to_string(),
        Listener { route: Some("main".to_string()), status: false },
    );
    t.insert("127.0.0.1:9000".to_string(), Listener { route: None, status: true });
    let e = endpoints(&t).unwrap();
    assert_eq!((e[0].addr, e[0].port), (Addr::V4([0, 0, 0, 0]), 8080));
    assert!(matches!(&e[0].kind, ListenerKind::Route(r) if r == "main"));
    assert!(matches!(e[1].kind, ListenerKind::Status));
    t.insert("x".to_string(), Listener { route: None, status: true });
    assert!(endpoints(&t).is_err());
}

#[test]
fn types_are_turned_around() {
    let mut s = StaticSettings::default();
    s.mime_types.insert("text/x".to_string(), vec![".X".to_string(), "y".to_string()]);
    let m = mime_overrides(&Some(s));
    assert_eq!(m.get("x").map(|s| s.as_str()), Some("text/x"));
    assert_eq!(m.get("y").map(|s| s.as_str()), Some("text/x"));
    assert!(mime_overrides(&None).is_empty());
}

#[test]
fn the_status_endpoint() {
    let apps = vec![("site".to_string(), PoolStats { workers: 2, idle: 1, queued: 3 })];
    assert_eq!(status_body(b"/health", &apps).unwrap(), "{\"status\":\"ok\"}\n");
    assert_eq!(
        status_body(b"/health/applications", &apps).unwrap(),
        "{\"status\":\"ok\",\"applications\":{\"site\":{\"workers\":2,\"idle\":1,\"queued\":3}}}\n"
    );
    assert_eq!(status_body(b"/other", &apps), None);
    let (status, bytes) = status_reply(b"/health", &apps, "buran", false);
    assert_eq!(status, 200);
    assert_eq!(
        String::from_utf8(bytes).unwrap(),
        "HTTP/1.1 200 OK\r\nserver: buran\r\ncontent-type: application/json\r\n\
         content-length: 16\r\nconnection: close\r\n\r\n{\"status\":\"ok\"}\n"
    );
    assert_eq!(status_reply(b"/other", &apps, "buran", true).0, 404);
}
