//! The life of a pool's workers: introduction, exit, replacement, and what
//! the pool reports about itself.

use vstd::prelude::*;
use vstd::std_specs::iter::IteratorSpec;

use crate::config::schema::{Application, DEFAULT_CONCURRENCY_CAP};
use crate::config::validate::processes_fault;
use crate::ipc::frame::{FrameHeader, FrameKind};
use crate::ipc::hello::{hello_of, Hello, HelloAck, CONCURRENCY_UNBOUNDED};
use crate::ipc::{BwpError, BWP_VERSION};
use crate::router::dispatch::{
    grant, id_after, lemma_product, settings_of, Pool, PoolModel, Task, Worker, HEALTHY_UPTIME_MS,
};

verus! {

/// Why a worker's introduction is refused.
#[derive(Debug, Clone, Copy, PartialEq, Eq, Structural)]
pub enum HandshakeError {
    /// Its first frame is no introduction.
    NotHello,
    Malformed(BwpError),
    UnsupportedVersion(u32),
}

/// What a worker's first frame says.
pub open spec fn introduced(h: FrameHeader, payload: Seq<u8>) -> Result<Hello, HandshakeError> {
    if !(h.kind is Hello) {
        Err(HandshakeError::NotHello)
    } else {
        match hello_of(payload) {
            Err(e) => Err(HandshakeError::Malformed(e)),
            Ok(hello) => if hello.version != BWP_VERSION {
                Err(HandshakeError::UnsupportedVersion(hello.version))
            } else {
                Ok(hello)
            },
        }
    }
}

/// A pool after a worker has introduced itself. The first worker fixes the
/// concurrency and the capabilities of the pool; later ones change nothing.
pub open spec fn seeded(p: PoolModel, hello: Hello) -> PoolModel {
    if p.granted == 0 {
        PoolModel {
            granted: grant(hello.concurrency, p.settings.concurrency_cap),
            caps: hello.capabilities,
            ..p
        }
    } else {
        p
    }
}

/// Why a worker did not come up.
#[derive(Debug, Clone, Copy, PartialEq, Eq, Structural)]
pub enum StartFault {
    /// It could not be spawned.
    NotSpawned,
    /// It did not introduce itself as it should.
    NoHandshake,
}

/// How long to wait before a worker that did not come up is started again, in
/// milliseconds.
pub fn start_retry_ms(fault: StartFault) -> (r: u64)
    ensures
        r == match fault {
            StartFault::NotSpawned => 1000u64,
            StartFault::NoHandshake => 100u64,
        },
{
    match fault {
        StartFault::NotSpawned => 1000,
        StartFault::NoHandshake => 100,
    }
}

/// What happens to a worker's slot when the worker has exited.
#[derive(Debug, Clone, Copy, PartialEq, Eq, Structural)]
pub enum AfterExit {
    /// It crashed: start another in its place after this many milliseconds.
    Respawn(u64),
    /// It lived its life; start another worker where `true`.
    Retired(bool),
}

/// Occupancy of a pool.
#[derive(Debug, Clone, Copy, PartialEq, Eq, Structural)]
pub struct PoolStats {
    /// Workers that serve.
    pub workers: u32,
    /// Requests that they could hold besides those that they do.
    pub idle: u64,
    /// Requests that no worker has claimed.
    pub queued: usize,
}

/// The requests in flight that a worker has claimed.
pub open spec fn claimed_ids(pending: Map<u32, Task>) -> Set<u32> {
    pending.dom().filter(|id: u32| pending[id].claimed is Some)
}

/// How many of a list of requests are claimed.
spec fn count_claimed(ids: Seq<u32>, pending: Map<u32, Task>) -> nat
    decreases ids.len(),
{
    if ids.len() == 0 {
        0
    } else {
        count_claimed(ids.drop_last(), pending) + if pending[ids.last()].claimed is Some {
            1nat
        } else {
            0
        }
    }
}

proof fn lemma_count_claimed(ids: Seq<u32>, pending: Map<u32, Task>)
    requires
        ids.no_duplicates(),
    ensures
        ids.to_set().filter(|id: u32| pending[id].claimed is Some).finite(),
        count_claimed(ids, pending) == ids.to_set().filter(
            |id: u32| pending[id].claimed is Some,
        ).len(),
    decreases ids.len(),
{
    let p = |id: u32| pending[id].claimed is Some;
    let all = ids.to_set().filter(p);
    if ids.len() == 0 {
        assert(all =~= Set::empty());
    } else {
        let init = ids.drop_last();
        let last = ids.last();
        lemma_count_claimed(init, pending);
        let before = init.to_set().filter(p);
        assert(!init.contains(last)) by {
            if init.contains(last) {
                let j = choose|j: int| 0 <= j < init.len() && init[j] == last;
                assert(ids[j] == ids[ids.len() - 1]);
            }
        }
        assert forall|x: u32| ids.contains(x) implies init.contains(x) || x == last by {
            let j = choose|j: int| 0 <= j < ids.len() && ids[j] == x;
            if j < init.len() {
                assert(init[j] == x);
            }
        }
        assert forall|x: u32| init.contains(x) implies ids.contains(x) by {
            let j = choose|j: int| 0 <= j < init.len() && init[j] == x;
            assert(ids[j] == x);
        }
        assert(ids.contains(last)) by {
            assert(ids[ids.len() - 1] == last);
        }
        if p(last) {
            assert(all =~= before.insert(last));
        } else {
            assert(all =~= before);
        }
    }
}

impl Pool {
    /// The requests in flight, each once.
    pub(super) fn ids(&self) -> (r: Vec<u32>)
        ensures
            r@.no_duplicates(),
            r@.to_set() == self@.pending.dom(),
            r@.len() == self@.pending.len(),
    {
        let mut out: Vec<u32> = Vec::new();
        let ghost all = self.pending.keys().remaining();
        for k in it: self.pending.keys()
            invariant
                it.seq() == all,
                out@ == all.unref().take(it.index() as int),
        {
            proof {
                let i = it.index() as int;
                assert(all.unref().take(i + 1) =~= all.unref().take(i).push(*k));
            }
            out.push(*k);
        }
        assert(all.unref().take(all.len() as int) =~= all.unref());
        out
    }

    /// Take in a worker's first frame. The concurrency that it is granted is
    /// the pool's.
    pub fn greet(&mut self, h: &FrameHeader, payload: &[u8]) -> (r: Result<
        (Hello, u32),
        HandshakeError,
    >)
        requires
            old(self)@.wf(),
        ensures
            final(self)@.wf(),
            match introduced(*h, payload@) {
                Ok(hello) => {
                    &&& final(self)@ == seeded(old(self)@, hello)
                    &&& r == Ok::<(Hello, u32), HandshakeError>((hello, final(self)@.granted))
                },
                Err(e) => {
                    &&& final(self)@ == old(self)@
                    &&& r == Err::<(Hello, u32), HandshakeError>(e)
                },
            },
    {
        match h.kind {
            FrameKind::Hello => {},
            _ => {
                return Err(HandshakeError::NotHello);
            },
        }
        let hello = match Hello::decode(payload) {
            Ok(hello) => hello,
            Err(e) => {
                return Err(HandshakeError::Malformed(e));
            },
        };
        if hello.version != BWP_VERSION {
            return Err(HandshakeError::UnsupportedVersion(hello.version));
        }
        let declared: u32 = if hello.concurrency == CONCURRENCY_UNBOUNDED {
            u32::MAX
        } else {
            hello.concurrency
        };
        let cap: u32 = self.settings.concurrency_cap;
        let least: u32 = if declared < cap {
            declared
        } else {
            cap
        };
        let granted: u32 = if least == u32::MAX {
            DEFAULT_CONCURRENCY_CAP
        } else {
            least
        };
        let ghost before = self@;
        if self.granted == 0 {
            self.granted = granted;
            self.caps = hello.capabilities;
        }
        proof {
            assert(self@.pending == before.pending && self@.workers == before.workers);
            lemma_wf_kept(before, self@);
        }
        Ok((hello, self.granted))
    }

    /// The answer to a worker's introduction.
    pub fn welcome(granted: u32) -> (r: HelloAck)
        ensures
            r == (HelloAck { version: BWP_VERSION, concurrency: granted }),
    {
        HelloAck { version: BWP_VERSION, concurrency: granted }
    }

    /// A slot for another worker, under the number that the worker will have;
    /// none where the pool has as many workers as it may have.
    pub fn provide(&mut self) -> (r: Option<u32>)
        requires
            old(self)@.wf(),
        ensures
            final(self)@.wf(),
            if old(self)@.active < old(self)@.settings.max {
                &&& r == Some(old(self)@.worker_seq)
                &&& final(self)@ == (PoolModel {
                    active: (old(self)@.active + 1) as u32,
                    worker_seq: id_after(old(self)@.worker_seq, 1),
                    ..old(self)@
                })
            } else {
                r is None && final(self)@ == old(self)@
            },
    {
        if self.active >= self.settings.max {
            return None;
        }
        let ghost before = self@;
        let w: u32 = self.worker_seq;
        self.active = self.active + 1;
        self.worker_seq = if w == u32::MAX {
            0
        } else {
            w + 1
        };
        proof {
            lemma_wf_kept(before, self@);
        }
        Some(w)
    }

    /// A worker begins to serve.
    pub fn worker_up(&mut self, w: u32, token: u64, granted: u32)
        requires
            old(self)@.wf(),
            !old(self)@.workers.dom().contains(w),
        ensures
            final(self)@.wf(),
            final(self)@ == (PoolModel {
                workers: old(self)@.workers.insert(w, final(self)@.workers[w]),
                ..old(self)@
            }),
            final(self)@.workers[w].token == token,
            final(self)@.workers[w].granted == granted,
            !final(self)@.workers[w].kill_requested,
            final(self)@.workers[w].claimed@ == Seq::<u32>::empty(),
    {
        let ghost before = self@;
        self.workers.insert(w, Worker { token, granted, kill_requested: false, claimed: Vec::new() });
        proof {
            assert(self@.workers =~= before.workers.insert(w, self@.workers[w]));
            assert forall|x: u32| #[trigger]
                self@.pending.dom().contains(x) && self@.pending[x].claimed is Some implies
                self@.held_by(x, (self@.pending[x].claimed->0).0) by {
                assert(before.pending.dom().contains(x));
                assert(before.held_by(x, (before.pending[x].claimed->0).0));
            }
            assert forall|v: u32| #[trigger] self@.workers.dom().contains(v) implies {
                &&& self@.workers[v].claimed@.len() <= self@.workers[v].granted
                &&& self@.workers[v].claimed@.no_duplicates()
            } by {
                if v != w {
                    assert(before.workers.dom().contains(v));
                }
            }
        }
    }

    /// A worker has gone. Every request that it held and had not finished has
    /// failed and is in flight no more; requests that it had not claimed stay
    /// for the others.
    pub fn worker_gone(&mut self, w: u32) -> (r: Vec<u32>)
        requires
            old(self)@.wf(),
            old(self)@.workers.dom().contains(w),
        ensures
            final(self)@.wf(),
            r@.no_duplicates(),
            forall|id: u32| #[trigger]
                r@.contains(id) == (old(self)@.workers[w].claimed@.contains(id)
                    && old(self)@.pending.dom().contains(id)),
            final(self)@ == (PoolModel {
                pending: old(self)@.pending.remove_keys(
                    old(self)@.workers[w].claimed@.to_set(),
                ),
                workers: old(self)@.workers.remove(w),
                ..old(self)@
            }),
    {
        let ghost before = self@;
        let mut failed: Vec<u32> = Vec::new();
        let held: Vec<u32> = match self.workers.remove(&w) {
            Some(worker) => worker.claimed,
            None => Vec::new(),
        };
        let ghost all = held@;
        let mut i: usize = 0;
        assert(self.pending@ =~= before.pending.remove_keys(all.take(0).to_set()));
        while i < held.len()
            invariant
                i <= held@.len(),
                all == held@,
                all.no_duplicates(),
                self@ == (PoolModel {
                    pending: before.pending.remove_keys(all.take(i as int).to_set()),
                    workers: before.workers.remove(w),
                    ..before
                }),
                failed@.no_duplicates(),
                forall|id: u32| #[trigger]
                    failed@.contains(id) == (all.take(i as int).contains(id)
                        && before.pending.dom().contains(id)),
            decreases held@.len() - i,
        {
            let id: u32 = held[i];
            let ghost cut = all.take(i as int);
            let ghost next = all.take(i + 1);
            let ghost was = failed@;
            proof {
                assert(next =~= cut.push(id));
                assert(!cut.contains(id)) by {
                    if cut.contains(id) {
                        let j = choose|j: int| 0 <= j < cut.len() && cut[j] == id;
                        assert(all[j] == all[i as int]);
                    }
                }
                assert forall|x: u32| #[trigger] next.contains(x) == (cut.contains(x) || x == id) by {
                    if next.contains(x) {
                        let j = choose|j: int| 0 <= j < next.len() && next[j] == x;
                        if j < i {
                            assert(cut[j] == x);
                        }
                    }
                    if cut.contains(x) {
                        let j = choose|j: int| 0 <= j < cut.len() && cut[j] == x;
                        assert(next[j] == x);
                    }
                    if x == id {
                        assert(next[i as int] == id);
                    }
                }
                assert(!cut.to_set().contains(id));
            }
            if self.pending.remove(&id).is_some() {
                failed.push(id);
                proof {
                    assert(!was.contains(id));
                    assert forall|a: int, b: int|
                        0 <= a < b < failed@.len() implies failed@[a] != failed@[b] by {
                        assert(was[a] == failed@[a]);
                        assert(was.contains(was[a]));
                    }
                    assert forall|x: u32| #[trigger]
                        failed@.contains(x) == (was.contains(x) || x == id) by {
                        if was.contains(x) {
                            let j = choose|j: int| 0 <= j < was.len() && was[j] == x;
                            assert(failed@[j] == x);
                        }
                        if x == id {
                            assert(failed@[was.len() as int] == id);
                        }
                        if failed@.contains(x) {
                            let j = choose|j: int| 0 <= j < failed@.len() && failed@[j] == x;
                            if j < was.len() {
                                assert(was[j] == x);
                            }
                        }
                    }
                }
            }
            proof {
                assert(self.pending@ =~= before.pending.remove_keys(next.to_set())) by {
                    assert forall|x: u32| #[trigger] next.to_set().contains(x) == (
                    cut.to_set().contains(x) || x == id) by {
                        assert(next.contains(x) == (cut.contains(x) || x == id));
                    }
                }
            }
            i += 1;
        }
        assert(all.take(i as int) =~= all);
        proof {
            assert forall|x: u32| #[trigger]
                self@.pending.dom().contains(x) && self@.pending[x].claimed is Some implies
                self@.held_by(x, (self@.pending[x].claimed->0).0) by {
                assert(before.pending.dom().contains(x));
                let v = (before.pending[x].claimed->0).0;
                assert(before.held_by(x, v));
                assert(!all.contains(x)) by {
                    if all.contains(x) {
                        assert(all.to_set().contains(x));
                    }
                }
            }
            assert forall|v: u32| #[trigger] self@.workers.dom().contains(v) implies {
                &&& self@.workers[v].claimed@.len() <= self@.workers[v].granted
                &&& self@.workers[v].claimed@.no_duplicates()
            } by {
                assert(before.workers.dom().contains(v));
            }
        }
        failed
    }

    /// A worker that has gone lived for the given time. One that lived too
    /// short is replaced after a delay that grows with every crash in a row;
    /// otherwise its slot is given up, and another worker is started where the
    /// pool would fall below its floor.
    pub fn worker_exit(&mut self, uptime_ms: u64) -> (r: AfterExit)
        requires
            old(self)@.wf(),
            old(self)@.active > 0,
        ensures
            final(self)@.wf(),
            ({
                let p = old(self)@;
                let floor = if p.settings.idle_exit is None {
                    p.settings.max
                } else {
                    p.settings.spare
                };
                if uptime_ms < HEALTHY_UPTIME_MS {
                    let streak = id_after(p.crash_streak, 1);
                    &&& final(self)@ == (PoolModel { crash_streak: streak, ..p })
                    &&& r matches AfterExit::Respawn(ms) && ms == super::backoff(streak)
                } else {
                    &&& final(self)@ == (PoolModel {
                        crash_streak: 0,
                        active: (p.active - 1) as u32,
                        ..p
                    })
                    &&& r == AfterExit::Retired(p.active - 1 < floor)
                }
            }),
    {
        let ghost before = self@;
        if uptime_ms < HEALTHY_UPTIME_MS {
            self.crash_streak = if self.crash_streak == u32::MAX {
                0
            } else {
                self.crash_streak + 1
            };
            proof {
                lemma_wf_kept(before, self@);
            }
            return AfterExit::Respawn(super::crash_backoff(self.crash_streak));
        }
        self.crash_streak = 0;
        self.active = self.active - 1;
        proof {
            lemma_wf_kept(before, self@);
        }
        let floor: u32 = if self.settings.idle_exit.is_none() {
            self.settings.max
        } else {
            self.settings.spare
        };
        AfterExit::Retired(self.active < floor)
    }

    /// Whether the pool has a worker more than its load and its spare ones
    /// need.
    pub fn surplus(&self) -> (r: bool)
        requires
            self@.wf(),
            self@.pending.len() + self@.settings.spare < u64::MAX,
        ensures
            r == (self@.active > (self@.pending.len() + self@.worker_concurrency() - 1)
                / self@.worker_concurrency() as int + self@.settings.spare),
    {
        let conc: u64 = self.concurrency();
        let load: u64 = self.pending.len() as u64;
        let full: u64 = load / conc;
        let needed: u64 = if load % conc == 0 {
            full
        } else {
            full + 1
        };
        proof {
            lemma_ceil(load as int, conc as int);
        }
        self.active as u64 > needed + self.settings.spare as u64
    }

    /// What the pool reports: only workers that serve count.
    pub fn stats(&self) -> (r: PoolStats)
        requires
            self@.wf(),
            self@.workers.len() <= u32::MAX,
        ensures
            r.workers == self@.workers.len(),
            r.queued == self@.pending.len() - claimed_ids(self@.pending).len(),
            r.idle == if self@.workers.len() * self@.worker_concurrency() >= claimed_ids(
                self@.pending,
            ).len() {
                self@.workers.len() * self@.worker_concurrency() - claimed_ids(self@.pending).len()
            } else {
                0
            },
    {
        let ids = self.ids();
        let ghost all = ids@;
        let mut claimed: usize = 0;
        let mut i: usize = 0;
        assert(all.take(0).len() == 0);
        while i < ids.len()
            invariant
                i <= ids@.len(),
                all == ids@,
                all.to_set() == self@.pending.dom(),
                claimed <= i,
                claimed == count_claimed(all.take(i as int), self@.pending),
            decreases ids@.len() - i,
        {
            proof {
                assert(all.take(i + 1).drop_last() =~= all.take(i as int));
                assert(all.contains(all[i as int]));
                assert(all.to_set().contains(all[i as int]));
            }
            if let Some(t) = self.pending.get(&ids[i]) {
                if t.claimed.is_some() {
                    claimed += 1;
                }
            }
            i += 1;
        }
        proof {
            assert(all.take(i as int) =~= all);
            lemma_count_claimed(all, self@.pending);
            assert(all.to_set().filter(|id: u32| self@.pending[id].claimed is Some)
                =~= claimed_ids(self@.pending));
        }
        let workers: u32 = self.workers.len() as u32;
        let conc: u64 = self.concurrency();
        proof {
            lemma_product(workers, conc);
        }
        let capacity: u64 = workers as u64 * conc;
        let idle: u64 = if capacity >= claimed as u64 {
            capacity - claimed as u64
        } else {
            0
        };
        PoolStats { workers, idle, queued: self.pending.len() - claimed }
    }
}

proof fn lemma_ceil(a: int, b: int)
    requires
        a >= 0,
        b >= 1,
    ensures
        (a + b - 1) / b == if a % b == 0 {
            a / b
        } else {
            a / b + 1
        },
        0 <= a / b <= a,
{
    let q = a / b;
    let r = a % b;
    vstd::arithmetic::div_mod::lemma_fundamental_div_mod(a, b);
    vstd::arithmetic::div_mod::lemma_div_is_ordered_by_denominator(a, 1, b);
    vstd::arithmetic::div_mod::lemma_div_pos_is_pos(a, b);
    if r == 0 {
        assert(a + b - 1 == q * b + (b - 1)) by (nonlinear_arith)
            requires
                a == b * q + r,
                r == 0,
        ;
        vstd::arithmetic::div_mod::lemma_fundamental_div_mod_converse(a + b - 1, b, q, b - 1);
    } else {
        assert(a + b - 1 == (q + 1) * b + (r - 1)) by (nonlinear_arith)
            requires
                a == b * q + r,
        ;
        vstd::arithmetic::div_mod::lemma_fundamental_div_mod_converse(a + b - 1, b, q + 1, r - 1);
    }
}

/// A pool whose requests and workers stay the same stays well-formed.
proof fn lemma_wf_kept(before: PoolModel, after: PoolModel)
    requires
        before.wf(),
        after.pending == before.pending,
        after.workers == before.workers,
        after.reserved == before.reserved,
        after.settings == before.settings,
        after.active <= after.settings.max,
    ensures
        after.wf(),
{
    assert forall|x: u32| #[trigger]
        after.pending.dom().contains(x) && after.pending[x].claimed is Some implies after.held_by(
        x,
        (after.pending[x].claimed->0).0,
    ) by {
        assert(before.held_by(x, (before.pending[x].claimed->0).0));
    }
}

/// A pool never has more workers than it may have.
pub proof fn ceiling_is_kept(p: PoolModel)
    requires
        p.wf(),
    ensures
        p.active <= p.settings.max,
{
}

/// The workers that a pool starts with, and those that it keeps, fit under its
/// ceiling.
pub proof fn floor_fits_under_the_ceiling(app: Application, auto_workers: u32, path: Seq<char>)
    requires
        processes_fault(app.processes, path) is None,
    ensures
        settings_of(app, auto_workers).initial <= settings_of(app, auto_workers).max,
        settings_of(app, auto_workers).spare <= settings_of(app, auto_workers).max,
{
}

} // verus!
