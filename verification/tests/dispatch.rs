use buran::config::schema::{
    Application, Limits, Processes, Queue, DEFAULT_CONCURRENCY_CAP,
};
use buran::config::table::Table;
use buran::ipc::{
    BwpError, FrameHeader, FrameKind, Hello, HelloAck, RequestBuilder, BWP_VERSION,
    CAP_BODY_STREAM, CAP_WEBSOCKET, CONCURRENCY_UNBOUNDED, FLAG_BODY_STREAM, FLAG_UPGRADE,
    FRAME_HEADER_LEN, PONG_BUSY, PONG_IDLE, WS_OP_TEXT,
};
use buran::router::dispatch::lifecycle::{
    start_retry_ms, AfterExit, HandshakeError, StartFault,
};
use buran::router::dispatch::sweep::{janitor_tick_ms, sweep_tick_ms, KillCandidate};
use buran::router::dispatch::wire::{
    bare_frame, body_frame, read_header, request_message, spill_name, spill_owner, ws_frame,
    FrameFault,
};
use buran::router::dispatch::{
    crash_backoff, DispatchError, FrameOutcome, Pool, PoolSettings, SubmitBody, WorkerEvent,
    CRASH_BACKOFF_MAX_MS, HEALTHY_UPTIME_MS, MAX_FRAME_PAYLOAD,
};

fn test_app(cap: Option<u32>) -> Application {
    Application {
        module: "echo".to_string(),
        root: None,
        script: None,
        index: None,
        user: None,
        group: None,
        working_directory: None,
        execute: vec![],
        environment: Table::new(),
        processes: Processes::Fixed(1),
        concurrency: cap,
        queue: Queue::default(),
        limits: Limits::default(),
        options: None,
    }
}

/// A pool with one worker whose handshake is done.
struct Rig {
    pool: Pool,
    w: u32,
    ack: HelloAck,
}

fn rig(cap: Option<u32>, declare: u32, capabilities: u32) -> Rig {
    let mut pool = Pool::new(PoolSettings::of(&test_app(cap), 1));
    let w = pool.provide().unwrap();
    let hello =
        Hello { version: BWP_VERSION, pid: 0, concurrency: declare, capabilities }.encode();
    let header = FrameHeader::new(FrameKind::Hello, 0, hello.len() as u32);
    let (_, granted) = pool.greet(&header, &hello).unwrap();
    pool.worker_up(w, 1, granted);
    Rig { pool, w, ack: Pool::welcome(granted) }
}

impl Rig {
    /// Queue a request.
    fn submit(&mut self) -> u32 {
        self.pool.try_reserve().unwrap();
        let (id, _) = self.pool.submit(false);
        self.pool.release();
        id
    }

    /// The worker sends a frame.
    fn frame(&mut self, kind: FrameKind, id: u32, aux: u32, payload: &[u8]) -> FrameOutcome {
        let mut h = FrameHeader::new(kind, id, payload.len() as u32);
        h.aux = aux;
        self.pool.on_frame(self.w, &h, payload.to_vec(), 0)
    }
}

fn delivered(outcome: FrameOutcome) -> WorkerEvent {
    match outcome {
        FrameOutcome::Deliver { event, .. } => event,
        other => panic!("expected an event, got {other:?}"),
    }
}

#[test]
fn handshake_grants_capped_concurrency_and_records_caps() {
    let r = rig(Some(2), 8, CAP_BODY_STREAM | CAP_WEBSOCKET);
    assert_eq!(r.ack.version, BWP_VERSION);
    assert_eq!(r.ack.concurrency, 2, "declared 8 capped by config to 2");
    assert!(r.pool.streams_body());
    assert!(r.pool.supports_websocket());
}

#[test]
fn unbounded_declaration_without_cap_falls_back_to_default() {
    let r = rig(None, CONCURRENCY_UNBOUNDED, 0);
    // Never truly unbounded: a finite default so reaping has a bound.
    assert_eq!(r.ack.concurrency, DEFAULT_CONCURRENCY_CAP);
    assert!(!r.pool.streams_body());
    assert!(!r.pool.supports_websocket());
}

#[test]
fn bad_greetings_are_refused() {
    let mut pool = Pool::new(PoolSettings::of(&test_app(None), 1));
    let hello = Hello { version: 9, pid: 0, concurrency: 1, capabilities: 0 }.encode();
    let header = FrameHeader::new(FrameKind::Hello, 0, hello.len() as u32);
    assert_eq!(pool.greet(&header, &hello), Err(HandshakeError::UnsupportedVersion(9)));
    let other = FrameHeader::new(FrameKind::Claim, 0, 0);
    assert_eq!(pool.greet(&other, &hello), Err(HandshakeError::NotHello));
    assert_eq!(
        pool.greet(&header, b""),
        Err(HandshakeError::Malformed(BwpError::Truncated { expected: 20, actual: 0 }))
    );
}

#[test]
fn interleaved_responses_demux_by_request_id() {
    let mut r = rig(Some(4), 4, 0);
    let id1 = r.submit();
    let id2 = r.submit();
    assert_ne!(id1, id2);

    // Claim both, then interleave the two responses frame by frame.
    assert!(matches!(r.frame(FrameKind::Claim, id1, 0, &[]), FrameOutcome::Claimed));
    assert!(matches!(r.frame(FrameKind::Claim, id2, 0, &[]), FrameOutcome::Claimed));
    let h2 = delivered(r.frame(FrameKind::ResponseHeaders, id2, 202, b""));
    let h1 = delivered(r.frame(FrameKind::ResponseHeaders, id1, 201, b""));
    assert!(matches!(h1, WorkerEvent::Headers { status: 201, .. }));
    assert!(matches!(h2, WorkerEvent::Headers { status: 202, .. }));
    let c1 = delivered(r.frame(FrameKind::ResponseBody, id1, 0, b"one"));
    let c2 = delivered(r.frame(FrameKind::ResponseBody, id2, 0, b"two"));
    assert!(matches!(c1, WorkerEvent::Chunk(c) if c == b"one"));
    assert!(matches!(c2, WorkerEvent::Chunk(c) if c == b"two"));
    assert!(matches!(delivered(r.frame(FrameKind::End, id1, 0, &[])), WorkerEvent::End));
    assert!(matches!(delivered(r.frame(FrameKind::End, id2, 0, &[])), WorkerEvent::End));
}

#[test]
fn flush_frame_surfaces_as_flush_event() {
    let mut r = rig(Some(1), 1, 0);
    let id = r.submit();
    r.frame(FrameKind::Claim, id, 0, &[]);
    assert!(matches!(
        delivered(r.frame(FrameKind::ResponseHeaders, id, 200, b"")),
        WorkerEvent::Headers { status: 200, .. }
    ));
    assert!(matches!(delivered(r.frame(FrameKind::Flush, id, 0, &[])), WorkerEvent::Flush));
    match delivered(r.frame(FrameKind::ResponseBody, id, 0, b"tick")) {
        WorkerEvent::Chunk(c) => assert_eq!(c, b"tick"),
        _ => panic!("expected chunk"),
    }
    assert!(matches!(delivered(r.frame(FrameKind::End, id, 0, &[])), WorkerEvent::End));
}

#[test]
fn worker_cannot_answer_a_request_it_never_claimed() {
    // Responses are demuxed by request_id, so a buggy/compromised worker must
    // not address an id it never claimed. A pre-claim ResponseHeaders is
    // dropped; only frames after a valid Claim reach the client.
    let mut r = rig(Some(1), 1, 0);
    let id = r.submit();

    // Rogue frame for the still-unclaimed id: must be gated out.
    assert!(matches!(
        r.frame(FrameKind::ResponseHeaders, id, 500, b""),
        FrameOutcome::Dropped
    ));
    // Legitimate claim, then the real response for the same id.
    r.frame(FrameKind::Claim, id, 0, &[]);
    match delivered(r.frame(FrameKind::ResponseHeaders, id, 200, b"")) {
        WorkerEvent::Headers { status, .. } => assert_eq!(status, 200),
        _ => panic!("expected 200 headers after the valid claim"),
    }
    assert!(matches!(delivered(r.frame(FrameKind::End, id, 0, &[])), WorkerEvent::End));
}

#[test]
fn over_claiming_worker_is_killed_and_its_requests_fail() {
    // A blocking worker (granted 1) must not claim a second request while it
    // still holds one. The second claim is a protocol violation, so the worker
    // is killed and every request it had claimed fails.
    let mut r = rig(Some(1), 1, 0);
    let id1 = r.submit();
    let id2 = r.submit();

    // First claim sits at the grant (allowed); the second exceeds it.
    assert!(matches!(r.frame(FrameKind::Claim, id1, 0, &[]), FrameOutcome::Claimed));
    assert!(
        matches!(
            r.frame(FrameKind::Claim, id2, 0, &[]),
            FrameOutcome::Violation { kill: Some(1) }
        ),
        "the over-claiming worker must be killed"
    );
    // The request it legitimately held fails as the reader tears down.
    assert_eq!(r.pool.worker_gone(r.w), vec![id1]);
}

#[test]
fn worker_may_claim_up_to_its_grant_then_no_further() {
    // An event-loop worker granted 2 may hold two requests at once
    // (legitimate, no kill), but a third concurrent claim exceeds the grant
    // and is a violation.
    let mut r = rig(Some(2), 2, 0);
    let ids = [r.submit(), r.submit(), r.submit()];

    // Two concurrent claims sit exactly at the grant: allowed.
    assert!(matches!(r.frame(FrameKind::Claim, ids[0], 0, &[]), FrameOutcome::Claimed));
    assert!(matches!(r.frame(FrameKind::Claim, ids[1], 0, &[]), FrameOutcome::Claimed));

    // The third concurrent claim exceeds the grant: violation -> kill.
    assert!(matches!(
        r.frame(FrameKind::Claim, ids[2], 0, &[]),
        FrameOutcome::Violation { kill: Some(1) }
    ));
    // Both properly-held requests fail on teardown.
    let mut failed = r.pool.worker_gone(r.w);
    failed.sort();
    assert_eq!(failed, vec![ids[0], ids[1]]);
}

#[test]
fn crash_backoff_grows_then_caps() {
    // Exponential per-crash, capped so a broken pool never storms.
    assert_eq!(crash_backoff(1), 100);
    assert_eq!(crash_backoff(2), 200);
    assert_eq!(crash_backoff(3), 400);
    assert_eq!(crash_backoff(9), 25_600);
    // Beyond the shift cap it saturates at the ceiling, never overflowing.
    assert_eq!(crash_backoff(10), CRASH_BACKOFF_MAX_MS);
    assert_eq!(crash_backoff(u32::MAX), CRASH_BACKOFF_MAX_MS);
}

#[test]
fn fast_worker_crash_bumps_the_backoff_streak() {
    // A worker that comes up then dies almost immediately is a crash, not a
    // recycle: the pool delays its replacement, longer with every crash.
    let mut r = rig(Some(1), 1, 0);
    r.pool.worker_gone(r.w);
    assert_eq!(r.pool.worker_exit(5), AfterExit::Respawn(100));
    assert_eq!(r.pool.worker_exit(5), AfterExit::Respawn(200));
    // One that lived is replaced at once, and the streak is over.
    assert_eq!(r.pool.worker_exit(HEALTHY_UPTIME_MS), AfterExit::Retired(true));
}

#[test]
fn stats_reports_live_workers_not_provisioned_slots() {
    // A slot counts from the moment it starts spawning, but only workers that
    // completed the handshake and can serve are reported.
    let mut r = rig(Some(1), 1, 0);
    assert_eq!(r.pool.stats().workers, 1, "the handshaked worker is live");

    // The worker dies; the slot respawns in place, but the replacement never
    // handshakes, so it is provisioned yet not live.
    r.pool.worker_gone(r.w);
    assert_eq!(r.pool.worker_exit(0), AfterExit::Respawn(100));
    assert_eq!(
        r.pool.stats().workers,
        0,
        "a provisioned-but-unhandshaked slot must not count as a live worker"
    );
}

#[test]
fn end_releases_client_but_done_frees_the_slot() {
    let mut r = rig(Some(1), 1, 0);
    let id = r.submit();
    r.frame(FrameKind::Claim, id, 0, &[]);
    assert!(matches!(
        delivered(r.frame(FrameKind::ResponseHeaders, id, 200, b"")),
        WorkerEvent::Headers { .. }
    ));
    assert!(matches!(delivered(r.frame(FrameKind::End, id, 0, &[])), WorkerEvent::End));

    // Client response is done, but the task still holds its slot (a
    // finish_request background task would still be running).
    assert_eq!(r.pool.stats().idle, 0, "slot held until Done");

    // Done frees the slot.
    r.frame(FrameKind::Done, id, 0, &[]);
    assert_eq!(r.pool.stats().idle, 1, "slot freed on Done");
}

#[test]
fn sweep_aborts_over_budget_task_then_kills_if_defiant() {
    let mut r = rig(Some(1), 1, 0);
    let id = r.submit();
    r.frame(FrameKind::Claim, id, 0, &[]); // claimed at 0

    // Over budget: the task gets one Abort, no kill candidate yet.
    let t1 = r.pool.settings().task_timeout * 1000 + 1000;
    let (to_abort, candidates) = r.pool.sweep_decide(t1, 100);
    assert_eq!(to_abort, vec![id]);
    assert!(candidates.is_empty());

    // Still alive after the grace: the (blocking) worker becomes a kill
    // candidate (the final kill is gated by a Ping).
    let (to_abort2, candidates2) = r.pool.sweep_decide(t1 + 200, 100);
    assert!(to_abort2.is_empty(), "already aborted once");
    assert_eq!(candidates2.len(), 1, "one defiant slot = 100% for a blocking worker");
    // The kill targets the supervisor-assigned token (first spawn = 1), not
    // anything the worker self-reported in Hello.
    assert_eq!(candidates2[0].token, 1);
    assert_eq!(candidates2[0].probe_task, id);
}

/// Whether a worker with this many slots is condemned, where as many of its
/// tasks go on after they were told to stop.
fn condemned(granted: u32, stuck: u32) -> bool {
    let mut r = rig(Some(granted), granted, 0);
    for _ in 0..stuck {
        let id = r.submit();
        r.frame(FrameKind::Claim, id, 0, &[]);
    }
    let late = r.pool.settings().task_timeout * 1000;
    assert_eq!(r.pool.sweep_decide(late, 100).0.len(), stuck as usize);
    !r.pool.sweep_decide(late + 100, 100).1.is_empty()
}

#[test]
fn an_event_loop_is_condemned_by_a_majority() {
    assert!(condemned(1, 1));
    assert!(!condemned(2, 1));
    assert!(condemned(2, 2));
    assert!(!condemned(3, 1));
    assert!(condemned(3, 2));
    assert!(!condemned(4, 2));
    assert!(condemned(4, 3));
}

#[test]
fn confirm_and_kill_kills_a_busy_defiant_worker() {
    let mut r = rig(Some(1), 1, 0);
    let c = KillCandidate { worker_id: r.w, token: 7, probe_task: 42 };
    let ping = bare_frame(FrameKind::Ping, c.probe_task);
    let h = FrameHeader::decode(ping[..FRAME_HEADER_LEN].try_into().unwrap()).unwrap();
    assert_eq!((h.kind, h.request_id), (FrameKind::Ping, 42));
    assert_eq!(r.pool.confirm(&c, Some(PONG_BUSY)), Some(7), "busy defiant worker killed by token");
    assert_eq!(r.pool.confirm(&c, Some(PONG_BUSY)), None, "killed once");
}

#[test]
fn confirm_and_kill_spares_an_idle_worker() {
    let mut r = rig(Some(1), 1, 0);
    let c = KillCandidate { worker_id: r.w, token: 7, probe_task: 42 };
    // Pong: idle -> the task actually finished (reader lagged): don't kill.
    assert_eq!(r.pool.confirm(&c, Some(PONG_IDLE)), None, "idle worker must be spared");
    // Silence does not help.
    assert_eq!(r.pool.confirm(&c, None), Some(7));
}

#[test]
fn send_abort_reaches_the_claiming_worker() {
    let mut r = rig(Some(1), 1, 0);
    let id = r.submit();
    assert_eq!(r.pool.claimer(id), None);
    r.frame(FrameKind::Claim, id, 0, &[]);
    assert_eq!(r.pool.claimer(id), Some(r.w));
    let abort = bare_frame(FrameKind::Abort, id);
    let h = FrameHeader::decode(abort[..FRAME_HEADER_LEN].try_into().unwrap()).unwrap();
    assert_eq!((h.kind, h.request_id), (FrameKind::Abort, id));
}

#[test]
fn worker_death_fails_every_claimed_request() {
    let mut r = rig(Some(4), 4, 0);
    let id1 = r.submit();
    let id2 = r.submit();
    let id3 = r.submit();
    r.frame(FrameKind::Claim, id1, 0, &[]);
    r.frame(FrameKind::Claim, id2, 0, &[]);
    let mut failed = r.pool.worker_gone(r.w);
    failed.sort();
    assert_eq!(failed, vec![id1, id2], "every claimed request must fail when the worker dies");
    // One that nobody claimed stays queued.
    assert_eq!(r.pool.stats().queued, 1);
    r.pool.remove_if_unclaimed(id3);
    assert_eq!(r.pool.stats().queued, 0);
}

#[test]
fn body_pump_streams_chunks_and_terminator() {
    let payload = RequestBuilder::new().method(b"GET").path(b"/t").finish();
    let m = request_message(6, SubmitBody::Stream, &payload);
    let h = FrameHeader::decode(m[..FRAME_HEADER_LEN].try_into().unwrap()).unwrap();
    assert_ne!(h.flags & FLAG_BODY_STREAM, 0, "stream flag must be set");
    assert_eq!(&m[FRAME_HEADER_LEN..], payload.as_slice());

    let mut got = Vec::new();
    let sent = [body_frame(6, b"hello "), body_frame(6, b"world"), body_frame(6, b"")];
    for f in sent.into_iter().flatten().chain([bare_frame(FrameKind::RequestBody, 6)]) {
        let fh = FrameHeader::decode(f[..FRAME_HEADER_LEN].try_into().unwrap()).unwrap();
        assert_eq!((fh.kind, fh.request_id), (FrameKind::RequestBody, 6));
        if fh.payload_len == 0 {
            break; // terminator
        }
        got.extend_from_slice(&f[FRAME_HEADER_LEN..]);
    }
    assert_eq!(got, b"hello world");
}

#[test]
fn ws_messages_flow_both_ways() {
    let mut r = rig(None, 4, CAP_WEBSOCKET);
    let id = r.submit();
    let m = request_message(id, SubmitBody::Upgrade, &[]);
    let h = FrameHeader::decode(m[..FRAME_HEADER_LEN].try_into().unwrap()).unwrap();
    assert_ne!(h.flags & FLAG_UPGRADE, 0, "upgrade flag must be set");

    r.frame(FrameKind::Claim, id, 0, &[]);
    match delivered(r.frame(FrameKind::ResponseHeaders, id, 101, b"")) {
        WorkerEvent::Headers { status, .. } => assert_eq!(status, 101),
        _ => panic!("expected 101"),
    }

    // Router -> worker.
    let f = ws_frame(id, WS_OP_TEXT, b"marco");
    let fh = FrameHeader::decode(f[..FRAME_HEADER_LEN].try_into().unwrap()).unwrap();
    assert_eq!(fh.kind, FrameKind::WsMessage);
    assert_eq!((fh.request_id, fh.aux), (id, WS_OP_TEXT));
    assert_eq!(&f[FRAME_HEADER_LEN..], b"marco");

    // Worker -> router.
    match delivered(r.frame(FrameKind::WsMessage, id, WS_OP_TEXT, b"polo")) {
        WorkerEvent::Ws { opcode, payload } => {
            assert_eq!(opcode, WS_OP_TEXT);
            assert_eq!(payload, b"polo");
        }
        _ => panic!("expected ws message"),
    }

    // End releases the slot like any other request.
    assert!(matches!(delivered(r.frame(FrameKind::End, id, 0, &[])), WorkerEvent::End));
}

#[test]
fn read_frame_rejects_oversized_payload_len() {
    // A worker declaring a payload past the cap must be refused before the
    // router buffers it.
    let header = FrameHeader::new(FrameKind::ResponseBody, 1, MAX_FRAME_PAYLOAD + 1);
    assert_eq!(read_header(&header.encode()), Err(FrameFault::TooLarge(MAX_FRAME_PAYLOAD + 1)));
    assert_eq!(
        read_header(&[0; 16]),
        Err(FrameFault::Malformed(BwpError::UnknownKind(0)))
    );
}

#[test]
fn read_frame_accepts_payload_at_the_cap_boundary() {
    // A frame exactly at the limit is fine.
    let header = FrameHeader::new(FrameKind::ResponseBody, 9, MAX_FRAME_PAYLOAD);
    assert_eq!(read_header(&header.encode()), Ok(header));
}

#[test]
fn a_full_queue_refuses() {
    let mut app = test_app(None);
    app.queue.max = 1;
    let mut pool = Pool::new(PoolSettings::of(&app, 1));
    assert_eq!(pool.try_reserve(), Ok(()));
    assert_eq!(pool.try_reserve(), Err(DispatchError::QueueFull));
    pool.release();
    assert_eq!(pool.try_reserve(), Ok(()));
}

#[test]
fn a_claimed_request_is_nobody_elses() {
    let mut r = rig(Some(2), 2, 0);
    let id = r.submit();
    let other = r.w + 1;
    r.pool.worker_up(other, 2, 2);
    r.frame(FrameKind::Claim, id, 0, &[]);
    let claim = FrameHeader::new(FrameKind::Claim, id, 0);
    assert!(matches!(r.pool.on_frame(other, &claim, vec![], 5), FrameOutcome::Dropped));
    assert_eq!(r.pool.claimer(id), Some(r.w));
}

#[test]
fn a_websocket_outlasts_the_budget() {
    let mut r = rig(None, 4, CAP_WEBSOCKET);
    let (ws, _) = r.pool.submit(true);
    let (refused, _) = r.pool.submit(true);
    let plain = r.submit();
    for id in [ws, refused, plain] {
        r.frame(FrameKind::Claim, id, 0, &[]);
    }
    for (id, status) in [(ws, 101), (refused, 403), (plain, 101)] {
        r.frame(FrameKind::ResponseHeaders, id, status, &[]);
    }
    let (to_abort, _) = r.pool.sweep_decide(u64::MAX, 100);
    assert_eq!(to_abort, [refused, plain]);
}

#[test]
fn a_pool_stays_under_its_ceiling() {
    let mut app = test_app(None);
    app.processes = Processes::Dynamic { max: 2, spare: 0, idle_timeout: 20 };
    let settings = PoolSettings::of(&app, 1);
    assert_eq!((settings.initial, settings.max), (1, 2));
    let mut pool = Pool::new(settings);
    assert_eq!(pool.provide(), Some(0));
    assert_eq!(pool.provide(), Some(1));
    assert_eq!(pool.provide(), None);
    assert!(matches!(pool.worker_exit(HEALTHY_UPTIME_MS), AfterExit::Retired(false)));
    assert_eq!(pool.provide(), Some(2));
}

#[test]
fn spill_files_tell_their_owner() {
    let name = spill_name(4242, 17);
    assert_eq!(spill_owner(&name), Some(4242));
    assert_eq!(spill_owner("something-else"), None);
}

#[test]
fn sweeps_come_often_enough() {
    assert!(sweep_tick_ms(300) > 0);
    assert!(sweep_tick_ms(1) <= 1000);
}

#[test]
fn a_request_has_its_time_in_the_queue_and_its_own() {
    let mut app = test_app(None);
    app.queue.timeout = 7;
    app.limits.response_timeout = 60;
    let settings = PoolSettings::of(&app, 1);
    assert_eq!(settings.queue_timeout, 7);
    assert_eq!(settings.event_timeout(), 65);
    assert_eq!(settings.first_event_timeout(), 72);
}

#[test]
fn an_abort_goes_to_the_worker_that_claimed() {
    let mut r = rig(None, 1, 0);
    let id = r.submit();
    assert!(r.pool.abort_notice(id).is_none());
    assert!(!r.pool.exhausted());
    r.frame(FrameKind::Claim, id, 0, &[]);
    let (w, frame) = r.pool.abort_notice(id).unwrap();
    assert_eq!(w, r.w);
    assert_eq!(frame, bare_frame(FrameKind::Abort, id));
    assert_eq!(read_header(&frame.as_slice().try_into().unwrap()).unwrap().kind, FrameKind::Abort);
}

#[test]
fn delays_of_a_pool() {
    assert_eq!(janitor_tick_ms(0), 1000);
    assert_eq!(janitor_tick_ms(1), 1000);
    assert_eq!(janitor_tick_ms(3), 1500);
    assert_eq!(janitor_tick_ms(20), 10000);
    assert_eq!(janitor_tick_ms(u64::MAX), u64::MAX);
    assert_eq!(start_retry_ms(StartFault::NotSpawned), 1000);
    assert_eq!(start_retry_ms(StartFault::NoHandshake), 100);
}
