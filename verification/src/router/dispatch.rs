//! Application worker pools: which requests are in flight, which worker holds
//! which of them, and what every frame and every tick of the clock means.
//!
//! A worker declares a concurrency and is granted one; it claims requests off
//! a shared queue and may answer only what it has claimed. Moments are
//! milliseconds on one clock.

pub mod lifecycle;
pub mod sweep;
pub mod wire;

use std::collections::BTreeMap;

use vstd::prelude::*;
use vstd::string::*;

use crate::config::schema::{Application, Processes, DEFAULT_CONCURRENCY_CAP};
use crate::ipc::frame::{plain_header, FrameHeader, FrameKind};
use crate::ipc::hello::CONCURRENCY_UNBOUNDED;
use crate::ipc::{CAP_BODY_STREAM, CAP_WEBSOCKET, FLAG_BODY_FILE, FLAG_BODY_STREAM, FLAG_UPGRADE};

verus! {

/// A body larger than this does not travel inside the request.
pub const INLINE_BODY_LIMIT: usize = 98304;

/// The largest payload of a frame that a worker may send.
pub const MAX_FRAME_PAYLOAD: u32 = 67108864;

/// A worker that lives shorter than this has crashed.
pub const HEALTHY_UPTIME_MS: u64 = 10000;

/// The delay after the first crash, doubled with every further one.
pub const CRASH_BACKOFF_BASE_MS: u64 = 100;

pub const CRASH_BACKOFF_MAX_MS: u64 = 30000;

/// How long a worker may take to introduce itself.
pub const HANDSHAKE_TIMEOUT_MS: u64 = 10000;

/// How long a task may go on after it was told to stop.
pub const TASK_ABORT_GRACE_MS: u64 = 5000;

/// How long a worker may take to answer a probe.
pub const PROBE_DEADLINE_MS: u64 = 2000;

#[derive(Debug, Clone, Copy, PartialEq, Eq, Structural)]
pub enum DispatchError {
    /// As many requests as the queue may hold.
    QueueFull,
    /// The request could not be queued in time.
    QueueTimeout,
    WorkerFailed,
}

/// What a connection learns about its request.
#[derive(Debug)]
pub enum WorkerEvent {
    Headers { status: u16, headers: Vec<u8> },
    Chunk(Vec<u8>),
    /// Forward what is buffered and keep the response open.
    Flush,
    /// A WebSocket message of an upgraded request.
    Ws { opcode: u32, payload: Vec<u8> },
    End,
    Failed(DispatchError),
}

/// How a request's body reaches the worker.
#[derive(Debug, Clone, Copy, PartialEq, Eq, Structural)]
pub enum SubmitBody {
    /// Within the request.
    Inline,
    /// In a file that the request names.
    File,
    /// As frames, once the request is claimed.
    Stream,
    /// There is none: the request offers an upgrade.
    Upgrade,
}

/// The frame flags that tell a worker where the body is.
pub open spec fn body_flags(body: SubmitBody) -> u8 {
    match body {
        SubmitBody::Inline => 0,
        SubmitBody::File => FLAG_BODY_FILE,
        SubmitBody::Stream => FLAG_BODY_STREAM,
        SubmitBody::Upgrade => FLAG_UPGRADE,
    }
}

/// The header of a request frame.
pub fn request_header(id: u32, payload_len: u32, body: SubmitBody) -> (r: FrameHeader)
    ensures
        r == (FrameHeader {
            flags: body_flags(body),
            ..plain_header(FrameKind::Request, id, payload_len)
        }),
{
    let mut h = FrameHeader::new(FrameKind::Request, id, payload_len);
    h.flags = match body {
        SubmitBody::Inline => 0,
        SubmitBody::File => FLAG_BODY_FILE,
        SubmitBody::Stream => FLAG_BODY_STREAM,
        SubmitBody::Upgrade => FLAG_UPGRADE,
    };
    h
}

/// Milliseconds to wait before a worker that crashed is replaced: the base,
/// doubled with every crash in a row, up to the ceiling.
pub open spec fn backoff(streak: u32) -> nat {
    let shift = if streak <= 1 {
        0
    } else if streak >= 10 {
        9
    } else {
        (streak - 1) as nat
    };
    let ms = CRASH_BACKOFF_BASE_MS as nat * vstd::arithmetic::power2::pow2(shift);
    if ms < CRASH_BACKOFF_MAX_MS {
        ms
    } else {
        CRASH_BACKOFF_MAX_MS as nat
    }
}

pub fn crash_backoff(streak: u32) -> (r: u64)
    ensures
        r == backoff(streak),
{
    let shift: u32 = if streak <= 1 {
        0
    } else if streak >= 10 {
        9
    } else {
        streak - 1
    };
    let mut ms: u64 = CRASH_BACKOFF_BASE_MS;
    let mut i: u32 = 0;
    proof {
        vstd::arithmetic::power2::lemma2_to64();
    }
    while i < shift
        invariant
            i <= shift <= 9,
            ms == CRASH_BACKOFF_BASE_MS * vstd::arithmetic::power2::pow2(i as nat),
            ms <= 51200,
        decreases shift - i,
    {
        proof {
            vstd::arithmetic::power2::lemma2_to64();
            vstd::arithmetic::power2::lemma_pow2_unfold((i + 1) as nat);
        }
        ms = ms * 2;
        i += 1;
    }
    if ms < CRASH_BACKOFF_MAX_MS {
        ms
    } else {
        CRASH_BACKOFF_MAX_MS
    }
}

/// A longer streak never waits less, and no streak waits longer than the
/// ceiling.
pub proof fn backoff_grows_to_its_ceiling(a: u32, b: u32)
    requires
        a <= b,
    ensures
        CRASH_BACKOFF_BASE_MS <= backoff(a) <= backoff(b) <= CRASH_BACKOFF_MAX_MS,
{
    vstd::arithmetic::power2::lemma2_to64();
}

/// A request in flight.
#[derive(Debug, Clone, Copy)]
pub struct Task {
    /// The worker that has claimed it, and when.
    pub claimed: Option<(u32, u64)>,
    /// When it was told to stop.
    pub aborted_at: Option<u64>,
    /// It offers an upgrade.
    pub offers: bool,
    /// A worker has accepted the offer.
    pub upgraded: bool,
}

/// A worker that serves.
#[derive(Debug)]
pub struct Worker {
    /// By this its parent knows it; the worker has no say in it.
    pub token: u64,
    pub granted: u32,
    pub kill_requested: bool,
    /// What it has claimed and not finished.
    pub claimed: Vec<u32>,
}

/// How a pool is set up.
#[derive(Debug, Clone, Copy)]
pub struct PoolSettings {
    /// Workers that are started at once.
    pub initial: u32,
    pub max: u32,
    pub spare: u32,
    /// Seconds before a surplus worker is retired; none where the size of the
    /// pool is fixed.
    pub idle_exit: Option<u64>,
    pub queue_max: u32,
    /// Seconds.
    pub queue_timeout: u64,
    pub request_timeout: u64,
    pub task_timeout: u64,
    pub concurrency_cap: u32,
}

/// The settings that an application's configuration asks for.
pub open spec fn settings_of(app: Application, auto_workers: u32) -> PoolSettings {
    let (initial, max, spare, idle_exit) = match app.processes {
        Processes::Fixed(n) => (n, n, n, None),
        Processes::Auto => (auto_workers, auto_workers, auto_workers, None),
        Processes::Dynamic { max, spare, idle_timeout } => {
            let least = if spare >= 1 {
                spare
            } else {
                1u32
            };
            (least, max, least, Some(idle_timeout))
        },
    };
    PoolSettings {
        initial,
        max,
        spare,
        idle_exit,
        queue_max: app.queue.max,
        queue_timeout: app.queue.timeout,
        request_timeout: app.limits.response_timeout,
        task_timeout: app.limits.task_timeout,
        concurrency_cap: match app.concurrency {
            Some(c) => c,
            None => u32::MAX,
        },
    }
}

impl PoolSettings {
    pub fn of(app: &Application, auto_workers: u32) -> (r: Self)
        ensures
            r == settings_of(*app, auto_workers),
    {
        let (initial, max, spare, idle_exit): (u32, u32, u32, Option<u64>) = match app.processes {
            Processes::Fixed(n) => (n, n, n, None),
            Processes::Auto => (auto_workers, auto_workers, auto_workers, None),
            Processes::Dynamic { max, spare, idle_timeout } => {
                let least: u32 = if spare >= 1 {
                    spare
                } else {
                    1
                };
                (least, max, least, Some(idle_timeout))
            },
        };
        PoolSettings {
            initial,
            max,
            spare,
            idle_exit,
            queue_max: app.queue.max,
            queue_timeout: app.queue.timeout,
            request_timeout: app.limits.response_timeout,
            task_timeout: app.limits.task_timeout,
            concurrency_cap: match app.concurrency {
                Some(c) => c,
                None => u32::MAX,
            },
        }
    }

    /// Seconds that a connection waits for the next event of its request.
    pub fn event_timeout(&self) -> (r: u64)
        requires
            self.request_timeout + 5 <= u64::MAX,
        ensures
            r == self.request_timeout + 5,
    {
        self.request_timeout + 5
    }

    /// The longest that a request can go without an event, in seconds: its time
    /// in the queue and then the wait for the worker that claimed it.
    pub fn first_event_timeout(&self) -> (r: u64)
        requires
            self.queue_timeout + self.request_timeout + 5 <= u64::MAX,
        ensures
            r == self.queue_timeout + self.request_timeout + 5,
    {
        self.queue_timeout + self.request_timeout + 5
    }
}

/// The concurrency that a worker is granted: what it declared, capped by the
/// configuration, and never without bound.
pub open spec fn grant(declared: u32, cap: u32) -> u32 {
    let d = if declared == CONCURRENCY_UNBOUNDED {
        u32::MAX
    } else {
        declared
    };
    let least = if d < cap {
        d
    } else {
        cap
    };
    if least == u32::MAX {
        DEFAULT_CONCURRENCY_CAP
    } else {
        least
    }
}

/// An application's requests and workers.
#[derive(Debug)]
pub struct Pool {
    settings: PoolSettings,
    pending: BTreeMap<u32, Task>,
    next_id: u32,
    /// Queue slots that are taken.
    reserved: u32,
    workers: BTreeMap<u32, Worker>,
    /// Slots that workers are provided for, those that are still starting
    /// among them.
    active: u32,
    worker_seq: u32,
    crash_streak: u32,
    /// The concurrency of this pool's workers; 0 before the first has
    /// introduced itself.
    granted: u32,
    caps: u32,
}

/// What a pool consists of.
pub struct PoolModel {
    pub settings: PoolSettings,
    pub pending: Map<u32, Task>,
    pub next_id: u32,
    pub reserved: u32,
    pub workers: Map<u32, Worker>,
    pub active: u32,
    pub worker_seq: u32,
    pub crash_streak: u32,
    pub granted: u32,
    pub caps: u32,
}

impl View for Pool {
    type V = PoolModel;

    closed spec fn view(&self) -> PoolModel {
        PoolModel {
            settings: self.settings,
            pending: self.pending@,
            next_id: self.next_id,
            reserved: self.reserved,
            workers: self.workers@,
            active: self.active,
            worker_seq: self.worker_seq,
            crash_streak: self.crash_streak,
            granted: self.granted,
            caps: self.caps,
        }
    }
}

impl PoolModel {
    /// No worker holds more than it was granted, none holds a request twice,
    /// a request that is claimed is held by the worker that claimed it, and
    /// neither the queue nor the workers exceed their ceiling.
    pub open spec fn wf(self) -> bool {
        &&& self.pending.dom().finite()
        &&& self.workers.dom().finite()
        &&& forall|w: u32| #[trigger]
            self.workers.dom().contains(w) ==> {
                &&& self.workers[w].claimed@.len() <= self.workers[w].granted
                &&& self.workers[w].claimed@.no_duplicates()
            }
        &&& forall|id: u32| #[trigger]
            self.pending.dom().contains(id) && self.pending[id].claimed is Some
                ==> self.held_by(id, (self.pending[id].claimed->0).0)
        &&& self.reserved <= self.settings.queue_max
        &&& self.active <= self.settings.max
    }

    /// A worker counts a request among those it holds.
    pub open spec fn held_by(self, id: u32, w: u32) -> bool {
        self.workers.dom().contains(w) && self.workers[w].claimed@.contains(id)
    }

    /// Concurrency of one worker; before the first has introduced itself, that
    /// of a blocking one.
    pub open spec fn worker_concurrency(self) -> nat {
        if self.granted == 0 {
            1
        } else {
            self.granted as nat
        }
    }

    /// The first identifier from the next on that no request in flight has is
    /// `skip` steps ahead.
    pub open spec fn free_after(self, skip: nat) -> bool {
        &&& !self.pending.dom().contains(id_after(self.next_id, skip))
        &&& forall|k: nat|
            k < skip ==> self.pending.dom().contains(#[trigger] id_after(self.next_id, k))
    }
}

/// The identifier `k` steps ahead; they wrap around.
pub open spec fn id_after(id: u32, k: nat) -> u32 {
    ((id + k) % 0x1_0000_0000) as u32
}

proof fn lemma_ids_apart(id: u32, a: nat, b: nat)
    requires
        a < b < 0x1_0000_0000,
    ensures
        id_after(id, a) != id_after(id, b),
{
}

impl Pool {
    pub fn new(settings: PoolSettings) -> (r: Self)
        ensures
            r@ == (PoolModel {
                settings,
                pending: Map::empty(),
                next_id: 1,
                reserved: 0,
                workers: Map::empty(),
                active: 0,
                worker_seq: 0,
                crash_streak: 0,
                granted: 0,
                caps: 0,
            }),
            r@.wf(),
    {
        let r = Pool {
            settings,
            pending: BTreeMap::new(),
            next_id: 1,
            reserved: 0,
            workers: BTreeMap::new(),
            active: 0,
            worker_seq: 0,
            crash_streak: 0,
            granted: 0,
            caps: 0,
        };
        r
    }

    pub fn settings(&self) -> (r: PoolSettings)
        ensures
            r == self@.settings,
    {
        self.settings
    }

    /// Whether the workers take bodies as frames; not before the first has
    /// introduced itself.
    pub fn streams_body(&self) -> (r: bool)
        ensures
            r == (self@.caps & CAP_BODY_STREAM != 0),
    {
        self.caps & CAP_BODY_STREAM != 0
    }

    /// Whether the workers take WebSocket upgrades.
    pub fn supports_websocket(&self) -> (r: bool)
        ensures
            r == (self@.caps & CAP_WEBSOCKET != 0),
    {
        self.caps & CAP_WEBSOCKET != 0
    }

    /// Take a slot of the queue, before anything is done for a request.
    pub fn try_reserve(&mut self) -> (r: Result<(), DispatchError>)
        requires
            old(self)@.wf(),
        ensures
            final(self)@.wf(),
            match r {
                Ok(()) => {
                    &&& old(self)@.reserved < old(self)@.settings.queue_max
                    &&& final(self)@ == (PoolModel {
                        reserved: (old(self)@.reserved + 1) as u32,
                        ..old(self)@
                    })
                },
                Err(e) => {
                    &&& e == DispatchError::QueueFull
                    &&& old(self)@.reserved >= old(self)@.settings.queue_max
                    &&& final(self)@ == old(self)@
                },
            },
    {
        if self.reserved >= self.settings.queue_max {
            return Err(DispatchError::QueueFull);
        }
        self.reserved = self.reserved + 1;
        Ok(())
    }

    /// Give a slot of the queue back.
    pub fn release(&mut self)
        requires
            old(self)@.wf(),
            old(self)@.reserved > 0,
        ensures
            final(self)@.wf(),
            final(self)@ == (PoolModel { reserved: (old(self)@.reserved - 1) as u32, ..old(self)@ }),
    {
        self.reserved = self.reserved - 1;
    }

    /// The next identifier that no request in flight has.
    fn free_id(&self) -> (r: u32)
        requires
            self@.wf(),
            self@.pending.len() <= u32::MAX,
        ensures
            exists|skip: nat| #[trigger] self@.free_after(skip) && r == id_after(self@.next_id, skip),
    {
        let mut id: u32 = self.next_id;
        let ghost mut k: nat = 0;
        let ghost mut tried: Set<u32> = Set::empty();
        while self.pending.contains_key(&id)
            invariant
                self@.wf(),
                self@.pending.len() <= u32::MAX,
                id == id_after(self@.next_id, k),
                k <= self@.pending.len(),
                tried.finite(),
                tried.len() == k,
                tried.subset_of(self@.pending.dom()),
                forall|j: nat|
                    j < k ==> self@.pending.dom().contains(#[trigger] id_after(self@.next_id, j)),
                forall|i: u32| #[trigger]
                    tried.contains(i) ==> exists|j: nat|
                        j < k && i == #[trigger] id_after(self@.next_id, j),
            decreases self@.pending.len() - k,
        {
            proof {
                assert(!tried.contains(id)) by {
                    if tried.contains(id) {
                        let j = choose|j: nat| j < k && id == #[trigger] id_after(self@.next_id, j);
                        lemma_ids_apart(self@.next_id, j, k);
                    }
                }
                let more = tried.insert(id);
                assert(more.subset_of(self@.pending.dom()));
                vstd::set_lib::lemma_len_subset(more, self@.pending.dom());
                assert forall|i: u32| #[trigger] more.contains(i) implies exists|j: nat|
                    j < k + 1 && i == #[trigger] id_after(self@.next_id, j) by {
                    if i == id {
                        assert(i == id_after(self@.next_id, k));
                    } else {
                        assert(tried.contains(i));
                    }
                }
                tried = more;
                k = k + 1;
            }
            id = if id == u32::MAX {
                0
            } else {
                id + 1
            };
        }
        assert(self@.free_after(k));
        id
    }

    /// Whether no further request can be told from those in flight.
    pub fn exhausted(&self) -> (r: bool)
        ensures
            r == (self@.pending.len() >= u32::MAX),
    {
        self.pending.len() >= u32::MAX as usize
    }

    /// Enter a request under a new identifier. `grow` says that the pool is to
    /// be given another worker: all that its workers can hold is in flight,
    /// and there is room for one more.
    pub fn submit(&mut self, offers: bool) -> (r: (u32, bool))
        requires
            old(self)@.wf(),
            old(self)@.pending.len() < u32::MAX,
        ensures
            final(self)@.wf(),
            exists|skip: nat| #[trigger]
                old(self)@.free_after(skip) && r.0 == id_after(old(self)@.next_id, skip),
            final(self)@ == (PoolModel {
                pending: old(self)@.pending.insert(
                    r.0,
                    Task { claimed: None, aborted_at: None, offers, upgraded: false },
                ),
                next_id: id_after(r.0, 1),
                ..old(self)@
            }),
            r.1 == ({
                &&& old(self)@.settings.idle_exit is Some
                &&& final(self)@.pending.len() >= old(self)@.active
                    * old(self)@.worker_concurrency()
                &&& old(self)@.active < old(self)@.settings.max
            }),
    {
        let id: u32 = self.free_id();
        let ghost before = self@;
        self.pending.insert(
            id,
            Task { claimed: None, aborted_at: None, offers, upgraded: false },
        );
        self.next_id = if id == u32::MAX {
            0
        } else {
            id + 1
        };
        let conc: u64 = self.concurrency();
        proof {
            lemma_product(self.active, conc);
        }
        let capacity: u64 = self.active as u64 * conc;
        let grow = self.settings.idle_exit.is_some() && self.pending.len() as u64 >= capacity
            && self.active < self.settings.max;
        proof {
            assert forall|x: u32| #[trigger]
                self@.pending.dom().contains(x) && self@.pending[x].claimed is Some implies
                self@.held_by(x, (self@.pending[x].claimed->0).0) by {
                assert(x != id);
                assert(before.pending.dom().contains(x));
            }
        }
        (id, grow)
    }

    fn concurrency(&self) -> (r: u64)
        ensures
            r == self@.worker_concurrency(),
            1 <= r <= u32::MAX,
    {
        if self.granted == 0 {
            1
        } else {
            self.granted as u64
        }
    }

    /// Forget a request that could not be queued.
    pub fn remove_pending(&mut self, id: u32)
        requires
            old(self)@.wf(),
        ensures
            final(self)@.wf(),
            final(self)@ == (PoolModel { pending: old(self)@.pending.remove(id), ..old(self)@ }),
    {
        let ghost before = self@;
        self.pending.remove(&id);
        proof {
            assert forall|x: u32| #[trigger]
                self@.pending.dom().contains(x) && self@.pending[x].claimed is Some implies
                self@.held_by(x, (self@.pending[x].claimed->0).0) by {
                assert(before.pending.dom().contains(x));
            }
        }
    }

    /// Forget a request whose connection has gone, unless a worker has claimed
    /// it: then it stays until the worker is done with it.
    pub fn remove_if_unclaimed(&mut self, id: u32)
        requires
            old(self)@.wf(),
        ensures
            final(self)@.wf(),
            final(self)@ == if old(self)@.pending.dom().contains(id)
                && old(self)@.pending[id].claimed is None {
                PoolModel { pending: old(self)@.pending.remove(id), ..old(self)@ }
            } else {
                old(self)@
            },
    {
        let unclaimed = match self.pending.get(&id) {
            Some(t) => t.claimed.is_none(),
            None => false,
        };
        if unclaimed {
            self.remove_pending(id);
        }
    }

    /// The worker that a request is to be aborted at, if one has claimed it
    /// and still serves.
    pub fn claimer(&self, id: u32) -> (r: Option<u32>)
        requires
            self@.wf(),
        ensures
            r == if self@.pending.dom().contains(id) && self@.pending[id].claimed is Some {
                Some((self@.pending[id].claimed->0).0)
            } else {
                None
            },
            r matches Some(w) ==> self@.workers.dom().contains(w),
    {
        proof {
            if self@.pending.dom().contains(id) && self@.pending[id].claimed is Some {
                assert(self@.held_by(id, (self@.pending[id].claimed->0).0));
            }
        }
        match self.pending.get(&id) {
            Some(t) => match t.claimed {
                Some((w, _)) => Some(w),
                None => None,
            },
            None => None,
        }
    }
}

proof fn lemma_product(a: u32, b: u64)
    requires
        b <= u32::MAX,
    ensures
        0 <= a * b <= u64::MAX,
{
    assert(0 <= a * b <= 0xffff_ffff * 0xffff_ffff) by (nonlinear_arith)
        requires
            0 <= a <= 0xffff_ffff,
            0 <= b <= 0xffff_ffff,
    ;
}

/// Whether a list holds a number.
fn holds(v: &Vec<u32>, x: u32) -> (r: bool)
    ensures
        r == v@.contains(x),
{
    let mut i: usize = 0;
    while i < v.len()
        invariant
            i <= v@.len(),
            forall|j: int| 0 <= j < i ==> v@[j] != x,
        decreases v@.len() - i,
    {
        if v[i] == x {
            return true;
        }
        i += 1;
    }
    false
}

/// Take a number out of a list that holds each at most once.
fn take_out(v: &mut Vec<u32>, x: u32)
    requires
        old(v)@.no_duplicates(),
    ensures
        final(v)@ == without(old(v)@, x),
        final(v)@.no_duplicates(),
        final(v)@.len() <= old(v)@.len(),
        forall|y: u32| #[trigger] final(v)@.contains(y) == (y != x && old(v)@.contains(y)),
{
    let ghost was = v@;
    let mut i: usize = 0;
    while i < v.len()
        invariant
            i <= v@.len(),
            v@ == was,
            was == old(v)@,
            was.no_duplicates(),
            forall|j: int| 0 <= j < i ==> was[j] != x,
        decreases v@.len() - i,
    {
        if v[i] == x {
            v.remove(i);
            proof {
                let now = v@;
                lemma_without(was, x, i as int);
                assert forall|y: u32| #[trigger] now.contains(y) == (y != x && was.contains(y)) by {
                    if now.contains(y) {
                        let j = choose|j: int| 0 <= j < now.len() && now[j] == y;
                        if j < i {
                            assert(was[j] == y);
                        } else {
                            assert(was[j + 1] == y);
                        }
                    }
                    if y != x && was.contains(y) {
                        let j = choose|j: int| 0 <= j < was.len() && was[j] == y;
                        if j < i {
                            assert(now[j] == y);
                        } else {
                            assert(now[j - 1] == y);
                        }
                    }
                }
            }
            return;
        }
        i += 1;
    }
    proof {
        assert(!was.contains(x));
        assert(without(was, x) == was);
    }
}

/// What a frame from a worker leads to.
#[derive(Debug)]
pub enum FrameOutcome {
    /// Nothing.
    Dropped,
    /// The request is this worker's now; a body that waits for it may flow.
    Claimed,
    /// The worker has broken its grant: stop reading from it, and kill it
    /// where a token is given.
    Violation { kill: Option<u64> },
    /// Tell the request's connection. `last` says that the request is over.
    Deliver { event: WorkerEvent, last: bool },
    /// A line for the log.
    Log(Vec<u8>),
    /// The answer to a probe about the request, sent to this very worker.
    Pong(u32),
}

/// A status within the range of status codes.
pub open spec fn clamped_status(aux: u32) -> u16 {
    if aux < 100 {
        100
    } else if aux > 599 {
        599
    } else {
        aux as u16
    }
}

/// Frames that a worker may send about a request that it does not hold.
pub open spec fn needs_no_claim(kind: FrameKind) -> bool {
    kind is Claim || kind is Log || kind is Pong
}

/// A worker that no longer holds a request.
pub open spec fn let_go(w: Worker, after: Worker, id: u32) -> bool {
    &&& after.token == w.token
    &&& after.granted == w.granted
    &&& after.kill_requested == w.kill_requested
    &&& after.claimed@ == without(w.claimed@, id)
}

/// A pool after a worker has let go of a request that is over.
pub open spec fn finished(p: PoolModel, after: PoolModel, w: u32, id: u32) -> bool {
    &&& after == (PoolModel {
        pending: p.pending.remove(id),
        workers: p.workers.insert(w, after.workers[w]),
        ..p
    })
    &&& let_go(p.workers[w], after.workers[w], id)
}

/// What a frame does to a pool, and what it leads to.
pub open spec fn frame_effect(
    p: PoolModel,
    after: PoolModel,
    w: u32,
    h: FrameHeader,
    payload: Vec<u8>,
    now: u64,
    r: FrameOutcome,
) -> bool {
    let id = h.request_id;
    let worker = p.workers[w];
    let known = p.pending.dom().contains(id);
    if !needs_no_claim(h.kind) && !worker.claimed@.contains(id) {
        after == p && r is Dropped
    } else {
        match h.kind {
            FrameKind::Claim => if worker.claimed@.len() >= worker.granted {
                &&& r matches FrameOutcome::Violation { kill }
                &&& kill == if worker.kill_requested {
                    None
                } else {
                    Some(worker.token)
                }
                &&& after == (PoolModel { workers: p.workers.insert(w, after.workers[w]), ..p })
                &&& after.workers[w] == (Worker { kill_requested: true, ..worker })
            } else if known && p.pending[id].claimed is None {
                &&& r is Claimed
                &&& after == (PoolModel {
                    pending: p.pending.insert(
                        id,
                        Task { claimed: Some((w, now)), ..p.pending[id] },
                    ),
                    workers: p.workers.insert(w, after.workers[w]),
                    ..p
                })
                &&& after.workers[w].token == worker.token
                &&& after.workers[w].granted == worker.granted
                &&& after.workers[w].kill_requested == worker.kill_requested
                &&& after.workers[w].claimed@ == if worker.claimed@.contains(id) {
                    worker.claimed@
                } else {
                    worker.claimed@.push(id)
                }
            } else {
                after == p && r is Dropped
            },
            FrameKind::ResponseHeaders => {
                &&& r == delivered(
                    known,
                    WorkerEvent::Headers { status: clamped_status(h.aux), headers: payload },
                    false,
                )
                &&& after == if known && p.pending[id].offers && h.aux == 101 {
                    PoolModel {
                        pending: p.pending.insert(id, Task { upgraded: true, ..p.pending[id] }),
                        ..p
                    }
                } else {
                    p
                }
            },
            FrameKind::ResponseBody => after == p && r == delivered(
                known,
                WorkerEvent::Chunk(payload),
                false,
            ),
            FrameKind::Flush => after == p && r == delivered(known, WorkerEvent::Flush, false),
            FrameKind::WsMessage => after == p && r == delivered(
                known,
                WorkerEvent::Ws { opcode: h.aux, payload },
                false,
            ),
            FrameKind::End => after == p && r == delivered(known, WorkerEvent::End, false),
            FrameKind::Error => finished(p, after, w, id) && r == delivered(
                known,
                WorkerEvent::Failed(DispatchError::WorkerFailed),
                true,
            ),
            FrameKind::Done => finished(p, after, w, id) && r == delivered(
                known,
                WorkerEvent::End,
                true,
            ),
            FrameKind::Log => after == p && r == FrameOutcome::Log(payload),
            FrameKind::Pong => after == p && r == FrameOutcome::Pong(h.aux),
            _ => after == p && r is Dropped,
        }
    }
}

/// An event for a request in flight; one for any other goes nowhere.
pub open spec fn delivered(known: bool, event: WorkerEvent, last: bool) -> FrameOutcome {
    if known {
        FrameOutcome::Deliver { event, last }
    } else {
        FrameOutcome::Dropped
    }
}

fn deliver(known: bool, event: WorkerEvent, last: bool) -> (r: FrameOutcome)
    ensures
        r == delivered(known, event, last),
{
    if known {
        FrameOutcome::Deliver { event, last }
    } else {
        FrameOutcome::Dropped
    }
}

impl Pool {
    /// A worker lets go of a request that is over. Says whether the request
    /// was still in flight.
    fn finish(&mut self, w: u32, id: u32) -> (r: bool)
        requires
            old(self)@.wf(),
            old(self)@.workers.dom().contains(w),
        ensures
            final(self)@.wf(),
            r == old(self)@.pending.dom().contains(id),
            finished(old(self)@, final(self)@, w, id),
    {
        let ghost before = self@;
        let known = self.pending.remove(&id).is_some();
        if let Some(mut worker) = self.workers.remove(&w) {
            let ghost was = worker;
            take_out(&mut worker.claimed, id);
            self.workers.insert(w, worker);
            proof {
                assert(self@.workers =~= before.workers.insert(w, self@.workers[w]));
                assert(let_go(before.workers[w], self@.workers[w], id));
                assert forall|x: u32| #[trigger]
                    self@.pending.dom().contains(x) && self@.pending[x].claimed is Some implies
                    self@.held_by(x, (self@.pending[x].claimed->0).0) by {
                    assert(before.pending.dom().contains(x));
                    assert(before.held_by(x, (before.pending[x].claimed->0).0));
                }
                assert forall|v: u32| #[trigger] self@.workers.dom().contains(v) implies {
                    &&& self@.workers[v].claimed@.len() <= self@.workers[v].granted
                    &&& self@.workers[v].claimed@.no_duplicates()
                } by {
                    assert(before.workers.dom().contains(v));
                }
            }
        }
        known
    }

    /// A worker claims a request.
    fn claim(&mut self, w: u32, id: u32, now: u64) -> (r: FrameOutcome)
        requires
            old(self)@.wf(),
            old(self)@.workers.dom().contains(w),
        ensures
            final(self)@.wf(),
            forall|h: FrameHeader, payload: Vec<u8>|
                h.kind is Claim && h.request_id == id ==> #[trigger] frame_effect(
                    old(self)@,
                    final(self)@,
                    w,
                    h,
                    payload,
                    now,
                    r,
                ),
    {
        let ghost before = self@;
        let unclaimed: Option<Task> = match self.pending.get(&id) {
            Some(t) => if t.claimed.is_none() {
                Some(*t)
            } else {
                None
            },
            None => None,
        };
        let mut worker = match self.workers.remove(&w) {
            Some(x) => x,
            None => {
                return FrameOutcome::Dropped;
            },
        };
        let ghost was = worker;
        if worker.claimed.len() as u64 >= worker.granted as u64 {
            let kill: Option<u64> = if worker.kill_requested {
                None
            } else {
                Some(worker.token)
            };
            worker.kill_requested = true;
            self.workers.insert(w, worker);
            proof {
                assert(self@.workers =~= before.workers.insert(w, self@.workers[w]));
                self.lemma_same_holders(before, w);
            }
            return FrameOutcome::Violation { kill };
        }
        match unclaimed {
            Some(t) => {
                if !holds(&worker.claimed, id) {
                    worker.claimed.push(id);
                }
                let ghost now_holds = worker.claimed@;
                self.workers.insert(w, worker);
                self.pending.insert(id, Task { claimed: Some((w, now)), ..t });
                proof {
                    assert(self@.workers =~= before.workers.insert(w, self@.workers[w]));
                    assert(now_holds.no_duplicates());
                    assert(now_holds.contains(id)) by {
                        if !was.claimed@.contains(id) {
                            assert(now_holds[was.claimed@.len() as int] == id);
                        }
                    }
                    assert forall|x: u32| #[trigger]
                        self@.pending.dom().contains(x) && self@.pending[x].claimed is Some implies
                        self@.held_by(x, (self@.pending[x].claimed->0).0) by {
                        if x != id {
                            assert(before.pending.dom().contains(x));
                            let v = (before.pending[x].claimed->0).0;
                            assert(before.held_by(x, v));
                            if v == w {
                                let j = choose|j: int|
                                    0 <= j < was.claimed@.len() && was.claimed@[j] == x;
                                assert(now_holds[j] == x);
                            }
                        }
                    }
                    assert forall|v: u32| #[trigger] self@.workers.dom().contains(v) implies {
                        &&& self@.workers[v].claimed@.len() <= self@.workers[v].granted
                        &&& self@.workers[v].claimed@.no_duplicates()
                    } by {
                        assert(before.workers.dom().contains(v));
                    }
                }
                FrameOutcome::Claimed
            },
            None => {
                self.workers.insert(w, worker);
                proof {
                    assert(self@.workers =~= before.workers);
                    assert(self@ == before);
                }
                FrameOutcome::Dropped
            },
        }
    }

    /// A worker accepts the upgrade that a request offers, if it offers one.
    fn accept_offer(&mut self, id: u32)
        requires
            old(self)@.wf(),
        ensures
            final(self)@.wf(),
            final(self)@ == if old(self)@.pending.dom().contains(id) && old(
                self,
            )@.pending[id].offers {
                PoolModel {
                    pending: old(self)@.pending.insert(
                        id,
                        Task { upgraded: true, ..old(self)@.pending[id] },
                    ),
                    ..old(self)@
                }
            } else {
                old(self)@
            },
    {
        let ghost before = self@;
        let offer: Option<Task> = match self.pending.get(&id) {
            Some(t) => if t.offers {
                Some(*t)
            } else {
                None
            },
            None => None,
        };
        if let Some(t) = offer {
            self.pending.insert(id, Task { upgraded: true, ..t });
            proof {
                assert(self@.pending.dom() =~= before.pending.dom());
                assert forall|x: u32| #[trigger]
                    self@.pending.dom().contains(x) && self@.pending[x].claimed is Some implies
                    self@.held_by(x, (self@.pending[x].claimed->0).0) by {
                    assert(before.pending.dom().contains(x));
                    assert(before.pending[x].claimed == self@.pending[x].claimed);
                    assert(before.held_by(x, (before.pending[x].claimed->0).0));
                }
            }
        }
    }

    proof fn lemma_same_holders(self, before: PoolModel, w: u32)
        requires
            before.wf(),
            before.workers.dom().contains(w),
            self@ == (PoolModel {
                workers: before.workers.insert(w, self@.workers[w]),
                ..before
            }),
            self@.workers[w].claimed@ == before.workers[w].claimed@,
            self@.workers[w].granted == before.workers[w].granted,
        ensures
            self@.wf(),
    {
        assert forall|x: u32| #[trigger]
            self@.pending.dom().contains(x) && self@.pending[x].claimed is Some implies
            self@.held_by(x, (self@.pending[x].claimed->0).0) by {
            assert(before.pending.dom().contains(x));
            assert(before.held_by(x, (before.pending[x].claimed->0).0));
        }
        assert forall|v: u32| #[trigger] self@.workers.dom().contains(v) implies {
            &&& self@.workers[v].claimed@.len() <= self@.workers[v].granted
            &&& self@.workers[v].claimed@.no_duplicates()
        } by {
            assert(before.workers.dom().contains(v));
        }
    }

    /// Take in a frame from a worker. A frame about a request counts only if
    /// the worker has claimed that request.
    pub fn on_frame(&mut self, w: u32, h: &FrameHeader, payload: Vec<u8>, now: u64) -> (r:
        FrameOutcome)
        requires
            old(self)@.wf(),
            old(self)@.workers.dom().contains(w),
        ensures
            final(self)@.wf(),
            frame_effect(old(self)@, final(self)@, w, *h, payload, now, r),
    {
        let id: u32 = h.request_id;
        let free = match h.kind {
            FrameKind::Claim => true,
            FrameKind::Log => true,
            FrameKind::Pong => true,
            _ => false,
        };
        let owned = match self.workers.get(&w) {
            Some(worker) => holds(&worker.claimed, id),
            None => false,
        };
        if !free && !owned {
            return FrameOutcome::Dropped;
        }
        let known = self.pending.contains_key(&id);
        match h.kind {
            FrameKind::Claim => self.claim(w, id, now),
            FrameKind::ResponseHeaders => {
                let status: u16 = if h.aux < 100 {
                    100
                } else if h.aux > 599 {
                    599
                } else {
                    h.aux as u16
                };
                if h.aux == 101 {
                    self.accept_offer(id);
                }
                deliver(known, WorkerEvent::Headers { status, headers: payload }, false)
            },
            FrameKind::ResponseBody => deliver(known, WorkerEvent::Chunk(payload), false),
            FrameKind::Flush => deliver(known, WorkerEvent::Flush, false),
            FrameKind::WsMessage => deliver(
                known,
                WorkerEvent::Ws { opcode: h.aux, payload },
                false,
            ),
            FrameKind::End => deliver(known, WorkerEvent::End, false),
            FrameKind::Error => {
                let was = self.finish(w, id);
                deliver(was, WorkerEvent::Failed(DispatchError::WorkerFailed), true)
            },
            FrameKind::Done => {
                let was = self.finish(w, id);
                deliver(was, WorkerEvent::End, true)
            },
            FrameKind::Log => FrameOutcome::Log(payload),
            FrameKind::Pong => FrameOutcome::Pong(h.aux),
            _ => FrameOutcome::Dropped,
        }
    }
}

/// A list without a number that it holds at most once.
pub open spec fn without(s: Seq<u32>, x: u32) -> Seq<u32> {
    if s.contains(x) {
        s.remove(s.index_of(x))
    } else {
        s
    }
}

proof fn lemma_without(s: Seq<u32>, x: u32, i: int)
    requires
        0 <= i < s.len(),
        s[i] == x,
        s.no_duplicates(),
    ensures
        without(s, x) == s.remove(i),
{
    let k = s.index_of(x);
    assert(s.contains(x));
    assert(0 <= k < s.len() && s[k] == x);
}

} // verus!
