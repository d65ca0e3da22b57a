//! The budget of a task: one that holds its slot for too long is told to
//! stop, and a worker whose tasks do not stop is killed once a probe confirms
//! that it is not free.

use vstd::prelude::*;
use vstd::std_specs::iter::IteratorSpec;

use crate::ipc::{FrameHeader, PONG_IDLE};
use crate::router::dispatch::{frame_effect, FrameOutcome, Pool, PoolModel, Task, Worker};

verus! {

/// A worker to kill, unless a probe about one of its tasks finds it free.
#[derive(Debug, Clone, Copy)]
pub struct KillCandidate {
    pub worker_id: u32,
    pub token: u64,
    pub probe_task: u32,
}

/// Milliseconds from one moment to another; a moment that has not come yet is
/// no time ago.
pub open spec fn since(now: u64, then: u64) -> int {
    if now >= then {
        now - then
    } else {
        0
    }
}

/// A task that has held its slot for longer than it may, and was not told to
/// stop yet. A WebSocket has no such budget.
pub open spec fn over_budget(t: Task, now: u64, budget_ms: int) -> bool {
    &&& t.claimed matches Some((_, at)) && since(now, at) >= budget_ms
    &&& t.aborted_at is None
    &&& !t.upgraded
}

/// A task of a worker that goes on although it was told to stop.
pub open spec fn is_defiant(t: Task, w: u32, now: u64, grace_ms: u64) -> bool {
    &&& t.claimed matches Some((by, _)) && by == w
    &&& t.aborted_at matches Some(at) && since(now, at) >= grace_ms
}

pub open spec fn defiant_ids(pending: Map<u32, Task>, w: u32, now: u64, grace_ms: u64) -> Set<u32> {
    pending.dom().filter(|id: u32| is_defiant(pending[id], w, now, grace_ms))
}

/// Requests in flight once those over budget were told to stop.
pub open spec fn swept(pending: Map<u32, Task>, now: u64, budget_ms: int) -> Map<u32, Task> {
    pending.map_entries(
        |id: u32, t: Task|
            if over_budget(t, now, budget_ms) {
                Task { aborted_at: Some(now), ..t }
            } else {
                t
            },
    )
}

/// How many defiant tasks condemn a worker: one that blocks has only one, of
/// an event loop a majority is needed. A single stuck task of an event loop
/// costs its slot and nothing else.
pub open spec fn threshold(granted: u32) -> nat {
    if granted <= 1 {
        1
    } else {
        (granted / 2 + 1) as nat
    }
}

/// A worker that is to be probed, and killed if it is not free.
pub open spec fn condemned(p: PoolModel, w: u32, now: u64, grace_ms: u64) -> bool {
    &&& p.workers.dom().contains(w)
    &&& !p.workers[w].kill_requested
    &&& defiant_ids(p.pending, w, now, grace_ms).len() >= threshold(p.workers[w].granted)
}

pub open spec fn is_candidate(
    c: KillCandidate,
    p: PoolModel,
    now: u64,
    grace_ms: u64,
) -> bool {
    &&& condemned(p, c.worker_id, now, grace_ms)
    &&& c.token == p.workers[c.worker_id].token
    &&& defiant_ids(p.pending, c.worker_id, now, grace_ms).contains(c.probe_task)
}

/// A worker is among the candidates.
pub open spec fn lists_worker(cs: Seq<KillCandidate>, w: u32) -> bool {
    exists|i: int| 0 <= i < cs.len() && (#[trigger] cs[i]).worker_id == w
}

spec fn count_defiant(
    ids: Seq<u32>,
    pending: Map<u32, Task>,
    w: u32,
    now: u64,
    grace_ms: u64,
) -> nat
    decreases ids.len(),
{
    if ids.len() == 0 {
        0
    } else {
        count_defiant(ids.drop_last(), pending, w, now, grace_ms) + if is_defiant(
            pending[ids.last()],
            w,
            now,
            grace_ms,
        ) {
            1nat
        } else {
            0
        }
    }
}

proof fn lemma_count_defiant(
    ids: Seq<u32>,
    pending: Map<u32, Task>,
    w: u32,
    now: u64,
    grace_ms: u64,
)
    requires
        ids.no_duplicates(),
    ensures
        ids.to_set().filter(|id: u32| is_defiant(pending[id], w, now, grace_ms)).finite(),
        count_defiant(ids, pending, w, now, grace_ms) == ids.to_set().filter(
            |id: u32| is_defiant(pending[id], w, now, grace_ms),
        ).len(),
    decreases ids.len(),
{
    let p = |id: u32| is_defiant(pending[id], w, now, grace_ms);
    let all = ids.to_set().filter(p);
    if ids.len() == 0 {
        assert(all =~= Set::empty());
    } else {
        let init = ids.drop_last();
        let last = ids.last();
        lemma_count_defiant(init, pending, w, now, grace_ms);
        let before = init.to_set().filter(p);
        assert(!init.contains(last)) by {
            if init.contains(last) {
                let j = choose|j: int| 0 <= j < init.len() && init[j] == last;
                assert(ids[j] == ids[ids.len() - 1]);
            }
        }
        assert forall|x: u32| ids.contains(x) implies init.contains(x) || x == last by {
            let j = choose|j: int| 0 <= j < ids.len() && ids[j] == x;
            if j < init.len() {
                assert(init[j] == x);
            }
        }
        assert forall|x: u32| init.contains(x) implies ids.contains(x) by {
            let j = choose|j: int| 0 <= j < init.len() && init[j] == x;
            assert(ids[j] == x);
        }
        assert(ids.contains(last)) by {
            assert(ids[ids.len() - 1] == last);
        }
        if p(last) {
            assert(all =~= before.insert(last));
        } else {
            assert(all =~= before);
        }
    }
}

fn elapsed(now: u64, then: u64) -> (r: u64)
    ensures
        r == since(now, then),
{
    if now >= then {
        now - then
    } else {
        0
    }
}

impl Pool {
    /// The numbers of the workers that serve, each once.
    fn worker_ids(&self) -> (r: Vec<u32>)
        ensures
            r@.no_duplicates(),
            r@.to_set() == self@.workers.dom(),
    {
        let mut out: Vec<u32> = Vec::new();
        let ghost all = self.workers.keys().remaining();
        for k in it: self.workers.keys()
            invariant
                it.seq() == all,
                out@ == all.unref().take(it.index() as int),
        {
            proof {
                let i = it.index() as int;
                assert(all.unref().take(i + 1) =~= all.unref().take(i).push(*k));
            }
            out.push(*k);
        }
        assert(all.unref().take(all.len() as int) =~= all.unref());
        out
    }

    /// How many of a worker's tasks are defiant, and one of them.
    fn defiance(&self, ids: &Vec<u32>, w: u32, now: u64, grace_ms: u64) -> (r: (usize, u32))
        requires
            ids@.no_duplicates(),
            ids@.to_set() == self@.pending.dom(),
        ensures
            r.0 == defiant_ids(self@.pending, w, now, grace_ms).len(),
            r.0 > 0 ==> defiant_ids(self@.pending, w, now, grace_ms).contains(r.1),
    {
        let ghost all = ids@;
        let ghost pending = self@.pending;
        let mut n: usize = 0;
        let mut sample: u32 = 0;
        let mut i: usize = 0;
        assert(all.take(0).len() == 0);
        while i < ids.len()
            invariant
                i <= ids@.len(),
                all == ids@,
                pending == self@.pending,
                all.to_set() == pending.dom(),
                n <= i,
                n == count_defiant(all.take(i as int), pending, w, now, grace_ms),
                n > 0 ==> pending.dom().contains(sample) && is_defiant(
                    pending[sample],
                    w,
                    now,
                    grace_ms,
                ),
            decreases ids@.len() - i,
        {
            let id: u32 = ids[i];
            proof {
                assert(all.take(i + 1).drop_last() =~= all.take(i as int));
                assert(all.contains(id));
                assert(all.to_set().contains(id));
            }
            if let Some(t) = self.pending.get(&id) {
                if let Some((by, _)) = t.claimed {
                    if let Some(at) = t.aborted_at {
                        if by == w && elapsed(now, at) >= grace_ms {
                            if n == 0 {
                                sample = id;
                            }
                            n += 1;
                        }
                    }
                }
            }
            i += 1;
        }
        proof {
            assert(all.take(i as int) =~= all);
            lemma_count_defiant(all, pending, w, now, grace_ms);
            assert(all.to_set().filter(|id: u32| is_defiant(pending[id], w, now, grace_ms))
                =~= defiant_ids(pending, w, now, grace_ms));
        }
        (n, sample)
    }

    /// The workers that are to be probed.
    fn candidates(&self, ids: &Vec<u32>, now: u64, grace_ms: u64) -> (r: Vec<KillCandidate>)
        requires
            ids@.no_duplicates(),
            ids@.to_set() == self@.pending.dom(),
        ensures
            forall|i: int| 0 <= i < r@.len() ==> is_candidate(#[trigger] r@[i], self@, now, grace_ms),
            forall|i: int, j: int|
                0 <= i < j < r@.len() ==> r@[i].worker_id != r@[j].worker_id,
            forall|w: u32| #[trigger]
                condemned(self@, w, now, grace_ms) ==> lists_worker(r@, w),
    {
        let workers = self.worker_ids();
        let ghost all = workers@;
        let mut out: Vec<KillCandidate> = Vec::new();
        let mut i: usize = 0;
        while i < workers.len()
            invariant
                i <= workers@.len(),
                all == workers@,
                all.no_duplicates(),
                all.to_set() == self@.workers.dom(),
                ids@.no_duplicates(),
                ids@.to_set() == self@.pending.dom(),
                forall|k: int|
                    0 <= k < out@.len() ==> is_candidate(#[trigger] out@[k], self@, now, grace_ms),
                forall|k: int|
                    0 <= k < out@.len() ==> all.take(i as int).contains(
                        (#[trigger] out@[k]).worker_id,
                    ),
                forall|a: int, b: int|
                    0 <= a < b < out@.len() ==> out@[a].worker_id != out@[b].worker_id,
                forall|j: int|
                    0 <= j < i && condemned(self@, #[trigger] all[j], now, grace_ms) ==> exists|
                        k: int,
                    |
                        0 <= k < out@.len() && (#[trigger] out@[k]).worker_id == all[j],
            decreases workers@.len() - i,
        {
            let w: u32 = workers[i];
            let ghost was = out@;
            proof {
                assert(all.contains(w));
                assert(all.to_set().contains(w));
                let cut = all.take(i as int);
                assert(!cut.contains(w)) by {
                    if cut.contains(w) {
                        let j = choose|j: int| 0 <= j < cut.len() && cut[j] == w;
                        assert(all[j] == all[i as int]);
                    }
                }
            }
            if let Some(worker) = self.workers.get(&w) {
                let (n, probe_task) = self.defiance(ids, w, now, grace_ms);
                let need: u32 = if worker.granted <= 1 {
                    1
                } else {
                    worker.granted / 2 + 1
                };
                if n as u64 >= need as u64 && !worker.kill_requested {
                    out.push(KillCandidate { worker_id: w, token: worker.token, probe_task });
                }
            }
            proof {
                let next = all.take(i + 1);
                assert(next[i as int] == w);
                assert forall|k: int| 0 <= k < out@.len() implies next.contains(
                    (#[trigger] out@[k]).worker_id,
                ) by {
                    if k < was.len() {
                        assert(out@[k] == was[k]);
                        let cut = all.take(i as int);
                        let j = choose|j: int| 0 <= j < cut.len() && cut[j] == was[k].worker_id;
                        assert(next[j] == was[k].worker_id);
                    }
                }
                assert forall|j: int|
                    0 <= j < i + 1 && condemned(
                        self@,
                        #[trigger] all[j],
                        now,
                        grace_ms,
                    ) implies exists|k: int|
                    0 <= k < out@.len() && (#[trigger] out@[k]).worker_id == all[j] by {
                    if j < i {
                        let k = choose|k: int|
                            0 <= k < was.len() && (#[trigger] was[k]).worker_id == all[j];
                        assert(out@[k] == was[k]);
                    } else {
                        assert(out@[was.len() as int].worker_id == w);
                    }
                }
            }
            i += 1;
        }
        proof {
            assert forall|w: u32| #[trigger] condemned(self@, w, now, grace_ms) implies lists_worker(
                out@,
                w,
            ) by {
                assert(all.to_set().contains(w));
                let j = choose|j: int| 0 <= j < all.len() && all[j] == w;
                assert(condemned(self@, all[j], now, grace_ms));
            }
        }
        out
    }

    /// One pass over the requests in flight: which are to be told to stop, and
    /// which workers are to be probed because their tasks did not.
    pub fn sweep_decide(&mut self, now: u64, grace_ms: u64) -> (r: (Vec<u32>, Vec<KillCandidate>))
        requires
            old(self)@.wf(),
        ensures
            final(self)@.wf(),
            final(self)@ == (PoolModel {
                pending: swept(
                    old(self)@.pending,
                    now,
                    old(self)@.settings.task_timeout * 1000,
                ),
                ..old(self)@
            }),
            r.0@.no_duplicates(),
            forall|id: u32| #[trigger]
                r.0@.contains(id) == (old(self)@.pending.dom().contains(id) && over_budget(
                    old(self)@.pending[id],
                    now,
                    old(self)@.settings.task_timeout * 1000,
                )),
            forall|i: int|
                0 <= i < r.1@.len() ==> is_candidate(#[trigger] r.1@[i], old(self)@, now, grace_ms),
            forall|i: int, j: int|
                0 <= i < j < r.1@.len() ==> r.1@[i].worker_id != r.1@[j].worker_id,
            forall|w: u32| #[trigger]
                condemned(old(self)@, w, now, grace_ms) ==> lists_worker(r.1@, w),
    {
        let ids = self.ids();
        let candidates = self.candidates(&ids, now, grace_ms);
        let ghost before = self@;
        let ghost all = ids@;
        let ghost budget = self@.settings.task_timeout * 1000;
        let wide: u128 = self.settings.task_timeout as u128 * 1000;
        let mut out: Vec<u32> = Vec::new();
        let mut i: usize = 0;
        while i < ids.len()
            invariant
                i <= ids@.len(),
                all == ids@,
                all.no_duplicates(),
                all.to_set() == before.pending.dom(),
                wide == budget,
                self@ == (PoolModel { pending: self@.pending, ..before }),
                self@.pending.dom() == before.pending.dom(),
                forall|j: int|
                    0 <= j < i ==> self@.pending[#[trigger] all[j]] == swept(
                        before.pending,
                        now,
                        budget,
                    )[all[j]],
                forall|j: int|
                    i <= j < all.len() ==> self@.pending[#[trigger] all[j]]
                        == before.pending[all[j]],
                out@.no_duplicates(),
                forall|id: u32| #[trigger]
                    out@.contains(id) == (all.take(i as int).contains(id) && over_budget(
                        before.pending[id],
                        now,
                        budget,
                    )),
            decreases ids@.len() - i,
        {
            let id: u32 = ids[i];
            let ghost cut = all.take(i as int);
            let ghost next = all.take(i + 1);
            let ghost was = out@;
            proof {
                assert(all.contains(id));
                assert(all.to_set().contains(id));
                assert(next =~= cut.push(id));
                assert(!cut.contains(id)) by {
                    if cut.contains(id) {
                        let j = choose|j: int| 0 <= j < cut.len() && cut[j] == id;
                        assert(all[j] == all[i as int]);
                    }
                }
                assert forall|x: u32| #[trigger] next.contains(x) == (cut.contains(x) || x == id) by {
                    if next.contains(x) {
                        let j = choose|j: int| 0 <= j < next.len() && next[j] == x;
                        if j < i {
                            assert(cut[j] == x);
                        }
                    }
                    if cut.contains(x) {
                        let j = choose|j: int| 0 <= j < cut.len() && cut[j] == x;
                        assert(next[j] == x);
                    }
                    if x == id {
                        assert(next[i as int] == id);
                    }
                }
            }
            let stale: Option<Task> = match self.pending.get(&id) {
                Some(t) => match t.claimed {
                    Some((_, at)) => if t.aborted_at.is_none() && !t.upgraded && elapsed(
                        now,
                        at,
                    ) as u128 >= wide {
                        Some(*t)
                    } else {
                        None
                    },
                    None => None,
                },
                None => None,
            };
            assert(self@.pending[all[i as int]] == before.pending[all[i as int]]);
            if let Some(t) = stale {
                self.pending.insert(id, Task { aborted_at: Some(now), ..t });
                out.push(id);
                proof {
                    assert(self@.pending.dom() =~= before.pending.dom());
                    assert(!was.contains(id));
                    assert forall|a: int, b: int|
                        0 <= a < b < out@.len() implies out@[a] != out@[b] by {
                        assert(was[a] == out@[a]);
                        assert(was.contains(was[a]));
                    }
                    assert forall|x: u32| #[trigger] out@.contains(x) == (was.contains(x) || x
                        == id) by {
                        if was.contains(x) {
                            let j = choose|j: int| 0 <= j < was.len() && was[j] == x;
                            assert(out@[j] == x);
                        }
                        if x == id {
                            assert(out@[was.len() as int] == id);
                        }
                        if out@.contains(x) {
                            let j = choose|j: int| 0 <= j < out@.len() && out@[j] == x;
                            if j < was.len() {
                                assert(was[j] == x);
                            }
                        }
                    }
                    assert forall|j: int| 0 <= j < all.len() && j != i implies #[trigger] all[j]
                        != id by {
                        assert(all[j] != all[i as int]);
                    }
                }
            }
            i += 1;
        }
        proof {
            assert(all.take(i as int) =~= all);
            let want = swept(before.pending, now, budget);
            assert(self@.pending =~= want) by {
                assert forall|x: u32| #[trigger] want.dom().contains(x) implies self@.pending[x]
                    == want[x] by {
                    assert(all.to_set().contains(x));
                    let j = choose|j: int| 0 <= j < all.len() && all[j] == x;
                    assert(self@.pending[all[j]] == want[all[j]]);
                }
            }
            assert forall|x: u32| #[trigger] all.contains(x) == before.pending.dom().contains(x) by {
                assert(all.to_set().contains(x) == all.contains(x));
            }
            assert forall|x: u32| #[trigger]
                self@.pending.dom().contains(x) && self@.pending[x].claimed is Some implies
                self@.held_by(x, (self@.pending[x].claimed->0).0) by {
                assert(before.pending.dom().contains(x));
                assert(before.pending[x].claimed == self@.pending[x].claimed);
                assert(before.held_by(x, (before.pending[x].claimed->0).0));
            }
        }
        (out, candidates)
    }

    /// The token to kill a candidate by, given its answer to the probe. A
    /// worker that says it is free is spared; one that is busy or silent is
    /// killed, once.
    pub fn confirm(&mut self, c: &KillCandidate, answer: Option<u32>) -> (r: Option<u64>)
        requires
            old(self)@.wf(),
        ensures
            final(self)@.wf(),
            ({
                let p = old(self)@;
                if answer != Some(PONG_IDLE) && p.workers.dom().contains(c.worker_id)
                    && !p.workers[c.worker_id].kill_requested {
                    &&& r == Some(c.token)
                    &&& final(self)@ == (PoolModel {
                        workers: p.workers.insert(
                            c.worker_id,
                            Worker { kill_requested: true, ..p.workers[c.worker_id] },
                        ),
                        ..p
                    })
                } else {
                    r is None && final(self)@ == p
                }
            }),
    {
        if let Some(status) = answer {
            if status == PONG_IDLE {
                return None;
            }
        }
        let ghost before = self@;
        match self.workers.remove(&c.worker_id) {
            None => {
                assert(self.workers@ =~= before.workers);
                None
            },
            Some(mut worker) => {
                let fresh = !worker.kill_requested;
                worker.kill_requested = true;
                self.workers.insert(c.worker_id, worker);
                proof {
                    assert(self@.workers =~= before.workers.insert(
                        c.worker_id,
                        self@.workers[c.worker_id],
                    ));
                    self.lemma_same_holders(before, c.worker_id);
                    if !fresh {
                        assert(self@.workers =~= before.workers);
                    }
                }
                if fresh {
                    Some(c.token)
                } else {
                    None
                }
            },
        }
    }
}

/// A task that was told to stop is not told again.
pub proof fn told_once(pending: Map<u32, Task>, id: u32, now: u64, later: u64, budget_ms: int)
    requires
        pending.dom().contains(id),
        over_budget(pending[id], now, budget_ms),
    ensures
        !over_budget(swept(pending, now, budget_ms)[id], later, budget_ms),
{
}

/// A WebSocket is left alone, however long it lasts: once a worker has accepted
/// the upgrade that a request offers, no sweep tells it to stop.
pub proof fn websocket_is_left_alone(
    p: PoolModel,
    after: PoolModel,
    w: u32,
    h: FrameHeader,
    payload: Vec<u8>,
    then: u64,
    r: FrameOutcome,
    now: u64,
    budget_ms: int,
)
    requires
        frame_effect(p, after, w, h, payload, then, r),
        p.workers[w].claimed@.contains(h.request_id),
        p.pending.dom().contains(h.request_id),
        p.pending[h.request_id].offers,
        h.kind is ResponseHeaders,
        h.aux == 101,
    ensures
        swept(after.pending, now, budget_ms)[h.request_id] == after.pending[h.request_id],
        after.pending[h.request_id].aborted_at == p.pending[h.request_id].aborted_at,
{
}

/// A worker none of whose tasks was told to stop is never condemned.
pub proof fn obedient_worker_is_spared(p: PoolModel, w: u32, now: u64, grace_ms: u64)
    requires
        forall|id: u32| #[trigger]
            p.pending.dom().contains(id) && (p.pending[id].claimed matches Some((by, _)) && by == w)
                ==> p.pending[id].aborted_at is None,
    ensures
        !condemned(p, w, now, grace_ms),
{
    assert(defiant_ids(p.pending, w, now, grace_ms) =~= Set::empty());
}

/// A worker that serves several requests at once is condemned only where more
/// than half of its slots are stuck.
pub proof fn minority_is_borne(p: PoolModel, w: u32, now: u64, grace_ms: u64)
    requires
        p.workers.dom().contains(w),
        p.workers[w].granted > 1,
    ensures
        condemned(p, w, now, grace_ms) == (!p.workers[w].kill_requested && 2 * defiant_ids(
            p.pending,
            w,
            now,
            grace_ms,
        ).len() > p.workers[w].granted),
{
}

/// How often the requests in flight are looked through, in milliseconds: a
/// quarter of the budget, but at least every five seconds and at most every
/// second.
pub fn sweep_tick_ms(task_timeout: u64) -> (r: u64)
    ensures
        r == if task_timeout * 250 < 1000 {
            1000
        } else if task_timeout * 250 > 5000 {
            5000
        } else {
            task_timeout * 250
        },
{
    if task_timeout < 4 {
        1000
    } else if task_timeout > 20 {
        5000
    } else {
        task_timeout * 250
    }
}

/// How often a pool looks for workers beyond its demand, in milliseconds: every
/// half of the time that a worker may be idle, given in seconds, but at most
/// every second.
pub fn janitor_tick_ms(idle_exit: u64) -> (r: u64)
    ensures
        r == if idle_exit * 500 < 1000 {
            1000
        } else if idle_exit * 500 > u64::MAX {
            u64::MAX as int
        } else {
            idle_exit * 500
        },
{
    if idle_exit < 2 {
        1000
    } else if idle_exit > u64::MAX / 500 {
        u64::MAX
    } else {
        idle_exit * 500
    }
}

} // verus!
