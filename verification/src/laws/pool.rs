//! What passes between the router and its workers.

use vstd::prelude::*;

use crate::bytes::{le32, text};
use crate::config::schema::{Application, Processes};
use crate::ipc::frame::{header_bytes, kind_code, FrameHeader, FrameKind};
use crate::ipc::BwpError;
use crate::router::dispatch::{
    backoff, crash_backoff, request_header, DispatchError, FrameOutcome, Pool, PoolSettings,
    SubmitBody, WorkerEvent,
};
use crate::router::http1::submit::{plan_body, refusal_status};
use crate::worker::{frame, frame_with, Responder, WorkerError};
use crate::ipc::hello::Hello;
use crate::router::dispatch::lifecycle::{AfterExit, HandshakeError};
use crate::router::dispatch::sweep::{defiant_ids, KillCandidate};
use crate::router::dispatch::wire::{body_frame, ws_frame};
use crate::worker::Recycle;

verus! {

/// A number in four bytes, the lowest first.
pub open spec fn four(x: u32) -> Seq<u8> {
    seq![
        (x % 256) as u8,
        (x / 0x100 % 256) as u8,
        (x / 0x10000 % 256) as u8,
        (x / 0x1000000 % 256) as u8,
    ]
}

/// A frame: its kind, no flags, whom it is about, how long its payload is, a
/// number, and the payload.
pub open spec fn on_wire(kind: u8, id: u32, aux: u32, payload: Seq<u8>) -> Seq<u8> {
    seq![kind, 0u8, 0u8, 0u8] + four(id) + four(payload.len() as u32) + four(aux) + payload
}

pub proof fn lemma_on_wire(kind: FrameKind, id: u32, aux: u32, payload: Seq<u8>)
    ensures
        frame_with(kind, id, aux, payload) == on_wire(kind_code(kind), id, aux, payload),
        frame(kind, id, payload) == on_wire(kind_code(kind), id, 0, payload),
{
    let n = payload.len() as u32;
    assert(le32(id) =~= four(id));
    assert(le32(n) =~= four(n));
    assert(le32(aux) =~= four(aux));
    assert(le32(0) =~= four(0));
}

/// An application's answer goes to the router piece by piece, in the order in which
/// it gives it: the head with its status, each piece of the body, what it wants
/// sent at once, and the end.
#[verifier::spinoff_prover]
#[verifier::rlimit(50)]
pub proof fn an_answer_goes_out_in_frames(
    head: &mut Responder,
    body: &mut Responder,
    flush: &mut Responder,
    end: &mut Responder,
    fail: &mut Responder,
    status: u16,
    headers: &[u8],
    chunk: &[u8],
    message: &str,
    a: Result<(), WorkerError>,
    b: Result<bool, WorkerError>,
    c: Result<(), WorkerError>,
    d: Result<(), WorkerError>,
    e: Result<(), WorkerError>,
)
    requires
        call_ensures(Responder::send_headers, (head, status, headers), a),
        call_ensures(Responder::send_body, (body, chunk), b),
        call_ensures(Responder::flush, (flush,), c),
        call_ensures(Responder::finish, (end,), d),
        call_ensures(Responder::error, (fail, message), e),
        !old(body).state().gone,
        !old(flush).state().gone,
    ensures
        final(head).collected() == old(head).collected() + on_wire(
            7,
            old(head).id(),
            status as u32,
            headers@,
        ),
        final(body).collected() == old(body).collected() + on_wire(8, old(body).id(), 0, chunk@),
        final(flush).collected() == old(flush).collected() + on_wire(
            9,
            old(flush).id(),
            0,
            seq![],
        ),
        !old(end).state().finished ==> final(end).collected() == old(end).collected() + on_wire(
            10,
            old(end).id(),
            0,
            seq![],
        ),
        old(end).state().finished ==> final(end).collected() == old(end).collected(),
        final(end).state().finished,
        final(fail).collected() == old(fail).collected() + on_wire(
            12,
            old(fail).id(),
            0,
            text(message),
        ),
        final(fail).state().finished && final(fail).state().failed,
{
    lemma_on_wire(FrameKind::ResponseHeaders, old(head).id(), status as u32, headers@);
    lemma_on_wire(FrameKind::ResponseBody, old(body).id(), 0, chunk@);
    lemma_on_wire(FrameKind::Flush, old(flush).id(), 0, seq![]);
    lemma_on_wire(FrameKind::End, old(end).id(), 0, seq![]);
    lemma_on_wire(FrameKind::Error, old(fail).id(), 0, text(message));
}

/// A frame's head is read as it is written: byte by byte, wherever it comes from.
pub proof fn a_head_is_read_as_it_is_written(
    kind: u8,
    flags: u8,
    id: u32,
    length: u32,
    aux: u32,
    buf: &[u8; 16],
    r: Result<FrameHeader, BwpError>,
)
    requires
        call_ensures(FrameHeader::decode, (buf,), r),
        buf@ == seq![kind, flags, 0u8, 0u8] + four(id) + four(length) + four(aux),
    ensures
        1 <= kind <= 17 ==> {
            &&& r matches Ok(h)
            &&& kind_code(h.kind) == kind
            &&& h.flags == flags
            &&& h.request_id == id
            &&& h.payload_len == length
            &&& h.aux == aux
        },
        !(1 <= kind <= 17) ==> r is Err,
{
    let s = buf@;
    assert(s[0] == kind && s[1] == flags);
    assert(s.subrange(4, 8) =~= le32(id));
    assert(s.subrange(8, 12) =~= le32(length));
    assert(s.subrange(12, 16) =~= le32(aux));
    crate::bytes::lemma_le32(s, 4, id);
    crate::bytes::lemma_le32(s, 8, length);
    crate::bytes::lemma_le32(s, 12, aux);
}

/// What the worker that holds a request sends of it is delivered as what it is, with
/// its payload, and nothing changes by it. A status is brought into the range of
/// statuses. What no other worker may say is not heard from one that does not hold
/// the request.
#[verifier::spinoff_prover]
#[verifier::rlimit(50)]
pub proof fn a_workers_answer_is_delivered(
    pool: &mut Pool,
    w: u32,
    h: &FrameHeader,
    payload: Vec<u8>,
    now: u64,
    r: FrameOutcome,
)
    requires
        old(pool)@.wf(),
        old(pool)@.workers.dom().contains(w),
        call_ensures(Pool::on_frame, (pool, w, h, payload, now), r),
    ensures
        ({
            let p = old(pool)@;
            let id = h.request_id;
            let code = kind_code(h.kind);
            let holds = p.workers[w].claimed@.contains(id);
            let known = p.pending.dom().contains(id);
            &&& !holds && code != 6 && code != 14 && code != 16 ==> r is Dropped && final(pool)@
                == p
            &&& holds && known && code == 7 ==> {
                &&& r matches FrameOutcome::Deliver {
                    event: WorkerEvent::Headers { status, headers },
                    last,
                }
                &&& headers == payload && !last
                &&& 100 <= h.aux <= 599 ==> status == h.aux
                &&& 100 <= status <= 599
            }
            &&& holds && known && code == 8 ==> r == (FrameOutcome::Deliver {
                event: WorkerEvent::Chunk(payload),
                last: false,
            }) && final(pool)@ == p
            &&& holds && known && code == 9 ==> r == (FrameOutcome::Deliver {
                event: WorkerEvent::Flush,
                last: false,
            }) && final(pool)@ == p
            &&& holds && known && code == 10 ==> r == (FrameOutcome::Deliver {
                event: WorkerEvent::End,
                last: false,
            }) && final(pool)@ == p
            &&& holds && known && code == 11 ==> r == (FrameOutcome::Deliver {
                event: WorkerEvent::End,
                last: true,
            })
            &&& holds && known && code == 12 ==> r == (FrameOutcome::Deliver {
                event: WorkerEvent::Failed(DispatchError::WorkerFailed),
                last: true,
            })
            &&& holds && known && code == 17 ==> r == (FrameOutcome::Deliver {
                event: WorkerEvent::Ws { opcode: h.aux, payload },
                last: false,
            }) && final(pool)@ == p
            &&& holds && (code == 11 || code == 12) ==> {
                &&& !final(pool)@.pending.dom().contains(id)
                &&& !final(pool)@.workers[w].claimed@.contains(id)
            }
            &&& code == 16 ==> r == FrameOutcome::Log(payload) && final(pool)@ == p
            &&& code == 14 ==> r == FrameOutcome::Pong(h.aux) && final(pool)@ == p
        }),
{
    let p = old(pool)@;
    let id = h.request_id;
    let s = p.workers[w].claimed@;
    if s.contains(id) {
        let k = s.index_of(id);
        let t = s.remove(k);
        assert(s[k] == id);
        assert forall|i: int| 0 <= i < t.len() implies t[i] != id by {
            if i < k {
                assert(t[i] == s[i]);
            } else {
                assert(t[i] == s[i + 1]);
            }
        }
    }
}

/// A request is held by the worker that claims it first: a later claim of another
/// one changes nothing. A worker that claims more than it was granted is stopped.
#[verifier::spinoff_prover]
#[verifier::rlimit(50)]
pub proof fn the_first_claim_holds(
    first: &mut Pool,
    second: &mut Pool,
    w: u32,
    v: u32,
    h: &FrameHeader,
    payload: Vec<u8>,
    more: Vec<u8>,
    now: u64,
    then: u64,
    r: FrameOutcome,
    q: FrameOutcome,
)
    requires
        old(first)@.wf(),
        old(first)@.workers.dom().contains(w),
        old(first)@.workers.dom().contains(v),
        v != w,
        kind_code(h.kind) == 6,
        call_ensures(Pool::on_frame, (first, w, h, payload, now), r),
        old(second)@ == final(first)@,
        call_ensures(Pool::on_frame, (second, v, h, more, then), q),
        old(first)@.pending.dom().contains(h.request_id),
        old(first)@.pending[h.request_id].claimed is None,
    ensures
        ({
            let p = old(first)@;
            let room = p.workers[w].claimed@.len() < p.workers[w].granted;
            let id = h.request_id;
            &&& room ==> {
                &&& r is Claimed
                &&& final(first)@.pending[id].claimed == Some((w, now))
                &&& final(first)@.workers[w].claimed@.contains(id)
                &&& p.workers[v].claimed@.len() < p.workers[v].granted ==> {
                    &&& q is Dropped
                    &&& final(second)@ == final(first)@
                }
            }
            &&& !room ==> {
                &&& r matches FrameOutcome::Violation { kill }
                &&& kill == if p.workers[w].kill_requested {
                    None
                } else {
                    Some(p.workers[w].token)
                }
                &&& final(first)@.pending == p.pending
                &&& final(first)@.workers[w].kill_requested
            }
        }),
{
    let p = old(first)@;
    let s = p.workers[w].claimed@;
    let id = h.request_id;
    if s.len() < p.workers[w].granted && !s.contains(id) {
        assert(s.push(id)[s.len() as int] == id);
    }
}

/// A place in the queue is given while there is one, and given back it is there
/// again.
pub proof fn a_place_that_is_given_back_is_there_again(
    pool: &mut Pool,
    again: &mut Pool,
    r: Result<(), DispatchError>,
)
    requires
        old(pool)@.wf(),
        call_ensures(Pool::try_reserve, (pool,), r),
        old(again)@ == final(pool)@,
        r is Ok ==> call_ensures(Pool::release, (again,), ()),
    ensures
        (r is Ok) == (old(pool)@.reserved < old(pool)@.settings.queue_max),
        r is Err ==> r == Err::<(), DispatchError>(DispatchError::QueueFull) && final(pool)@ == old(
            pool,
        )@,
        r is Ok ==> final(pool)@.reserved == old(pool)@.reserved + 1 && final(again)@ == old(
            pool,
        )@,
{
}

/// A request that is submitted gets a number that no waiting request has, and waits
/// for a worker to claim it; the others wait on.
pub proof fn a_request_waits_under_a_number_of_its_own(
    pool: &mut Pool,
    offers: bool,
    r: (u32, bool),
)
    requires
        old(pool)@.wf(),
        old(pool)@.pending.len() < u32::MAX,
        call_ensures(Pool::submit, (pool, offers), r),
    ensures
        !old(pool)@.pending.dom().contains(r.0),
        final(pool)@.pending.dom() == old(pool)@.pending.dom().insert(r.0),
        final(pool)@.pending[r.0].claimed is None,
        final(pool)@.pending[r.0].offers == offers,
        !final(pool)@.pending[r.0].upgraded,
        forall|id: u32| #[trigger]
            old(pool)@.pending.dom().contains(id) ==> final(pool)@.pending[id] == old(
                pool,
            )@.pending[id],
        final(pool)@.workers == old(pool)@.workers,
        old(pool)@.settings.idle_exit is None ==> !r.1,
        r.1 ==> old(pool)@.active < old(pool)@.settings.max,
{
}

/// A worker that crashes again and again is started later each time: after a tenth
/// of a second first, then each time after twice as long, up to half a minute.
pub proof fn a_crash_doubles_the_wait(streak: u32, a: u64, b: u64)
    requires
        1 <= streak < u32::MAX,
        call_ensures(crash_backoff, (streak,), a),
        call_ensures(crash_backoff, ((streak + 1) as u32,), b),
    ensures
        streak == 1 ==> a == 100,
        b == if 2 * a < 30000 {
            2 * a
        } else {
            30000
        },
{
    vstd::arithmetic::power2::lemma2_to64();
    if streak < 9 {
        vstd::arithmetic::power2::lemma_pow2_unfold(streak as nat);
    }
}

/// A request goes out with its number and length, and says how its body comes: with
/// it, in a file, piece by piece, or not at all before an upgrade.
pub proof fn a_request_says_how_its_body_comes(
    id: u32,
    length: u32,
    buffered: usize,
    streams: bool,
    upgrade: bool,
    body: SubmitBody,
    r: FrameHeader,
)
    requires
        call_ensures(plan_body, (buffered, streams, upgrade), body),
        call_ensures(request_header, (id, length, body), r),
    ensures
        header_bytes(r) == seq![
            3u8,
            if upgrade {
                4u8
            } else if streams {
                2
            } else if buffered > 98304 {
                1
            } else {
                0
            },
            0,
            0,
        ] + four(id) + four(length) + four(0),
{
    assert(le32(id) =~= four(id));
    assert(le32(length) =~= four(length));
    assert(le32(0) =~= four(0));
}

/// A request that no worker can be found for is answered as unavailable, and one
/// whose worker failed as a bad gateway.
pub proof fn a_refusal_tells_who_failed(e: DispatchError, r: u16)
    requires
        call_ensures(refusal_status, (e,), r),
    ensures
        e == DispatchError::WorkerFailed ==> r == 502,
        e != DispatchError::WorkerFailed ==> r == 503,
{
}

/// A pool has as many workers as its application asks for: a fixed number, as many
/// as there are processors, or between the spare ones and a limit, where those that
/// are idle for too long leave.
pub proof fn a_pool_is_as_large_as_asked_for(app: &Application, auto: u32, r: PoolSettings)
    requires
        call_ensures(PoolSettings::of, (app, auto), r),
    ensures
        app.processes matches Processes::Fixed(n) ==> r.initial == n && r.max == n && r.spare == n
            && r.idle_exit is None,
        app.processes is Auto ==> r.initial == auto && r.max == auto && r.spare == auto
            && r.idle_exit is None,
        app.processes matches Processes::Dynamic { max, spare, idle_timeout } ==> {
            &&& r.max == max
            &&& r.idle_exit == Some(idle_timeout)
            &&& r.initial == r.spare
            &&& spare >= 1 ==> r.spare == spare
            &&& spare == 0 ==> r.spare == 1
        },
        r.queue_max == app.queue.max,
        r.queue_timeout == app.queue.timeout,
        r.request_timeout == app.limits.response_timeout,
        r.task_timeout == app.limits.task_timeout,
        app.concurrency matches Some(c) ==> r.concurrency_cap == c,
{
}

/// A task is aborted when it is over its time: one that a worker has held for the
/// task timeout, that was not told so before and did not become a WebSocket. It is
/// told so once.
pub proof fn a_task_is_aborted_once_its_time_is_up(
    pool: &mut Pool,
    again: &mut Pool,
    now: u64,
    later: u64,
    grace: u64,
    id: u32,
    r: (Vec<u32>, Vec<KillCandidate>),
    q: (Vec<u32>, Vec<KillCandidate>),
)
    requires
        old(pool)@.wf(),
        call_ensures(Pool::sweep_decide, (pool, now, grace), r),
        old(again)@ == final(pool)@,
        old(again)@.wf(),
        call_ensures(Pool::sweep_decide, (again, later, grace), q),
    ensures
        ({
            let p = old(pool)@;
            let t = p.pending[id];
            let over = {
                &&& p.pending.dom().contains(id)
                &&& t.claimed matches Some((_, at)) && (if now >= at {
                    now - at >= p.settings.task_timeout * 1000
                } else {
                    p.settings.task_timeout == 0
                })
                &&& t.aborted_at is None
                &&& !t.upgraded
            };
            &&& r.0@.contains(id) == over
            &&& over ==> final(pool)@.pending[id].aborted_at == Some(now) && !q.0@.contains(id)
            &&& p.pending.dom().contains(id) && !over ==> final(pool)@.pending[id] == t
            &&& final(pool)@.pending.dom() == p.pending.dom()
            &&& final(pool)@.workers == p.workers
        }),
{
    assert(final(pool)@.pending.dom() =~= old(pool)@.pending.dom());
}

/// A worker is to be killed only where most of what it may hold at once are tasks
/// that it went on with after it was told to stop, each for the time of grace, and
/// nobody asked for its end before.
#[verifier::spinoff_prover]
#[verifier::rlimit(50)]
pub proof fn a_worker_dies_for_most_of_its_tasks(
    pool: &mut Pool,
    now: u64,
    grace: u64,
    r: (Vec<u32>, Vec<KillCandidate>),
    i: int,
)
    requires
        old(pool)@.wf(),
        call_ensures(Pool::sweep_decide, (pool, now, grace), r),
        0 <= i < r.1@.len(),
    ensures
        ({
            let p = old(pool)@;
            let c = r.1@[i];
            let w = c.worker_id;
            let stuck = p.pending.dom().filter(
                |id: u32|
                    {
                        &&& p.pending[id].claimed matches Some((by, _)) && by == w
                        &&& p.pending[id].aborted_at matches Some(at) && (if now >= at {
                            now - at >= grace
                        } else {
                            grace == 0
                        })
                    },
            );
            &&& p.workers.dom().contains(w)
            &&& c.token == p.workers[w].token
            &&& !p.workers[w].kill_requested
            &&& stuck.contains(c.probe_task)
            &&& stuck.len() >= 1
            &&& p.workers[w].granted > 1 ==> 2 * stuck.len() > p.workers[w].granted
        }),
{
    let p = old(pool)@;
    let c = r.1@[i];
    let w = c.worker_id;
    let stuck = p.pending.dom().filter(
        |id: u32|
            {
                &&& p.pending[id].claimed matches Some((by, _)) && by == w
                &&& p.pending[id].aborted_at matches Some(at) && (if now >= at {
                    now - at >= grace
                } else {
                    grace == 0
                })
            },
    );
    assert(defiant_ids(p.pending, w, now, grace) =~= stuck);
    let granted = p.workers[w].granted;
    assert(granted > 1 ==> 2 * (granted / 2 + 1) > granted);
}

/// The kill is carried out unless the worker answers that it is idle, and once.
pub proof fn an_idle_answer_saves_a_worker(
    pool: &mut Pool,
    c: &KillCandidate,
    answer: Option<u32>,
    r: Option<u64>,
)
    requires
        old(pool)@.wf(),
        call_ensures(Pool::confirm, (pool, c, answer), r),
    ensures
        answer == Some(0u32) ==> r is None && final(pool)@ == old(pool)@,
        r is Some ==> {
            &&& r == Some(c.token)
            &&& !old(pool)@.workers[c.worker_id].kill_requested
            &&& final(pool)@.workers[c.worker_id].kill_requested
        },
        answer != Some(0u32) && old(pool)@.workers.dom().contains(c.worker_id) && !old(
            pool,
        )@.workers[c.worker_id].kill_requested ==> r is Some,
{
}

/// A worker that leaves within ten seconds has crashed and is started again after a
/// while; one that leaves later has retired, and is replaced only where too few are
/// left.
pub proof fn an_early_exit_is_a_crash(pool: &mut Pool, uptime: u64, r: AfterExit)
    requires
        old(pool)@.wf(),
        old(pool)@.active > 0,
        old(pool)@.crash_streak < u32::MAX,
        call_ensures(Pool::worker_exit, (pool, uptime), r),
    ensures
        ({
            let p = old(pool)@;
            let left = p.active - 1;
            &&& uptime < 10000 ==> {
                &&& r matches AfterExit::Respawn(ms) && ms == backoff((p.crash_streak + 1) as u32)
                &&& final(pool)@.crash_streak == p.crash_streak + 1
                &&& final(pool)@.active == p.active
            }
            &&& uptime >= 10000 ==> {
                &&& r matches AfterExit::Retired(replace) && replace == (left < if
                p.settings.idle_exit is None {
                    p.settings.max
                } else {
                    p.settings.spare
                })
                &&& final(pool)@.crash_streak == 0
                &&& final(pool)@.active == left
            }
            &&& final(pool)@.pending == p.pending && final(pool)@.workers == p.workers
        }),
{
}

/// A worker may hold as many requests at once as it says, but no more than its
/// application allows; the first that introduces itself decides for the pool.
pub proof fn a_worker_gets_no_more_than_both_allow(
    pool: &mut Pool,
    h: &FrameHeader,
    payload: &[u8],
    r: Result<(Hello, u32), HandshakeError>,
)
    requires
        old(pool)@.wf(),
        call_ensures(Pool::greet, (pool, h, payload), r),
    ensures
        ({
            let p = old(pool)@;
            let cap = p.settings.concurrency_cap;
            &&& r is Err ==> final(pool)@ == p
            &&& r matches Ok((hello, granted)) ==> {
                &&& kind_code(h.kind) == 1
                &&& hello.version == 1
                &&& p.granted != 0 ==> granted == p.granted && final(pool)@ == p
                &&& p.granted == 0 && hello.concurrency != 0 && hello.concurrency <= cap
                    && hello.concurrency < u32::MAX ==> granted == hello.concurrency
                &&& p.granted == 0 && cap < u32::MAX && (hello.concurrency == 0
                    || hello.concurrency > cap) ==> granted == cap
                &&& p.granted == 0 ==> final(pool)@.caps == hello.capabilities
            }
        }),
{
}

/// What a worker held when it went is lost with it, and nothing else is.
pub proof fn a_worker_takes_its_own_requests_with_it(pool: &mut Pool, w: u32, id: u32, r: Vec<u32>)
    requires
        old(pool)@.wf(),
        old(pool)@.workers.dom().contains(w),
        call_ensures(Pool::worker_gone, (pool, w), r),
    ensures
        ({
            let p = old(pool)@;
            let held = p.workers[w].claimed@.contains(id);
            &&& r@.contains(id) == (held && p.pending.dom().contains(id))
            &&& final(pool)@.pending.dom().contains(id) == (p.pending.dom().contains(id) && !held)
            &&& final(pool)@.pending.dom().contains(id) ==> final(pool)@.pending[id]
                == p.pending[id]
            &&& final(pool)@.workers == p.workers.remove(w)
        }),
{
}

/// What the router sends of a request to the worker that holds it: pieces of its
/// body, messages of its WebSocket with their kind, and that nobody waits for it
/// any more.
pub proof fn a_worker_is_sent_the_rest_of_its_request(
    pool: &Pool,
    id: u32,
    chunk: &[u8],
    opcode: u32,
    payload: &[u8],
    a: Option<Vec<u8>>,
    b: Vec<u8>,
    c: Option<(u32, Vec<u8>)>,
)
    requires
        call_ensures(body_frame, (id, chunk), a),
        call_ensures(ws_frame, (id, opcode, payload), b),
        pool@.wf(),
        call_ensures(Pool::abort_notice, (pool, id), c),
    ensures
        chunk@.len() > 0 ==> (a matches Some(f) && f@ == on_wire(4, id, 0, chunk@)),
        chunk@.len() == 0 ==> a is None,
        b@ == on_wire(17, id, opcode, payload@),
        (c is Some) == (pool@.pending.dom().contains(id) && pool@.pending[id].claimed is Some),
        c matches Some((w, f)) ==> f@ == on_wire(15, id, 0, seq![]) && (
        pool@.pending[id].claimed matches Some((by, _)) && by == w),
{
    lemma_on_wire(FrameKind::RequestBody, id, 0, chunk@);
    lemma_on_wire(FrameKind::WsMessage, id, opcode, payload@);
    lemma_on_wire(FrameKind::Abort, id, 0, seq![]);
}

/// A worker that is asked whether it still works on a request says so of its own
/// and of no other. What it is told of another request does not concern it.
pub proof fn a_worker_answers_for_its_own_request(s: &mut Responder, h: &FrameHeader)
    requires
        call_ensures(Responder::hear, (s, h), ()),
    ensures
        final(s).id() == old(s).id(),
        kind_code(h.kind) == 13 ==> final(s).collected() == old(s).collected() + on_wire(
            14,
            h.request_id,
            if h.request_id == old(s).id() {
                1
            } else {
                0
            },
            seq![],
        ),
        kind_code(h.kind) != 13 ==> final(s).collected() == old(s).collected(),
        kind_code(h.kind) == 15 && h.request_id == old(s).id() ==> final(s).state().gone,
        !(kind_code(h.kind) == 15 && h.request_id == old(s).id()) ==> final(s).state() == old(
            s,
        ).state(),
{
    lemma_on_wire(FrameKind::Pong, h.request_id, 1, seq![]);
    lemma_on_wire(FrameKind::Pong, h.request_id, 0, seq![]);
    assert(old(s).collected() + Seq::<u8>::empty() =~= old(s).collected());
}

/// Whatever a handler left undone is done at its end: an answer that was not ended
/// is ended, one that fails is reported, and the request is given back once.
pub proof fn a_request_is_given_back_at_the_end(s: &mut Responder, success: bool)
    requires
        call_ensures(Responder::settle, (s, success), ()),
    ensures
        ({
            let id = old(s).id();
            let before = old(s).collected();
            let p = old(s).state();
            &&& final(s).state().finished
            &&& success && !p.finished && !p.failed ==> final(s).collected() == before + (on_wire(
                10,
                id,
                0,
                seq![],
            ) + on_wire(11, id, 0, seq![]))
            &&& p.finished && !p.failed ==> final(s).collected() == before + on_wire(
                11,
                id,
                0,
                seq![],
            )
            &&& p.finished && p.failed ==> final(s).collected() == before
            &&& !success && !p.finished ==> final(s).collected() == before + on_wire(
                12,
                id,
                0,
                text("handler failed"),
            )
        }),
{
    let id = old(s).id();
    lemma_on_wire(FrameKind::End, id, 0, seq![]);
    lemma_on_wire(FrameKind::Done, id, 0, seq![]);
    lemma_on_wire(FrameKind::Error, id, 0, text("handler failed"));
    let done = on_wire(11, id, 0, seq![]);
    assert(Seq::<u8>::empty() + done =~= done);
    assert(old(s).collected() + Seq::<u8>::empty() =~= old(s).collected());
}

/// A worker leaves after as many requests as it may serve, and never where there is
/// no limit.
pub proof fn a_worker_leaves_when_it_is_worn_out(s: &mut Recycle, r: bool)
    requires
        call_ensures(Recycle::served, (s,), r),
        old(s).count() < u64::MAX,
    ensures
        final(s).count() == old(s).count() + 1,
        final(s).limit() == old(s).limit(),
        r == (old(s).limit() > 0 && final(s).count() >= old(s).limit()),
{
}

} // verus!
