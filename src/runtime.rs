use vstd::prelude::*;
use vstd::arithmetic::div_mod::{lemma_add_mod_noop, lemma_mod_equivalence, lemma_small_mod};
use crate::js::{Js, ThreadPoolTaskKind};
use crate::registry::Registry;
use crate::timers::{TimerQueue, handles_of, expired, not_expired, scheduled, sorted};

verus! {

/// The number of distinct `usize` values.
pub open spec fn usize_range() -> int {
    usize::MAX as int + 1
}

/// The handles of a ready queue, in order.
pub open spec fn ready_handles(s: Seq<(usize, Js)>) -> Seq<usize> {
    s.map_values(|e: (usize, Js)| e.0)
}

/// `ready` followed by each handle of `hs` with an undefined result.
pub open spec fn with_undefined(ready: Seq<(usize, Js)>, hs: Seq<usize>) -> Seq<(usize, Js)> {
    ready + hs.map_values(|h: usize| (h, Js::Undefined))
}

/// The poll timeout that keeps the loop from sleeping past the earliest
/// deadline: none without timers, zero once it has passed.
pub open spec fn next_timeout(s: Seq<(u64, usize)>, now: u64) -> Option<u64> {
    if s.len() == 0 {
        None
    } else if s[0].0 > now {
        Some((s[0].0 - now) as u64)
    } else {
        Some(0)
    }
}

/// `w` is a worker that was handed work and has not reported back.
pub open spec fn worker_busy<C>(rt: Runtime<C>, w: usize) -> bool {
    w < rt.in_flight().len() && rt.in_flight()[w as int] is Some
}

/// `h` is pending and neither queued to run nor waiting on a timer: its
/// result comes from a worker or from the reactor.
pub open spec fn awaiting<C>(rt: Runtime<C>, h: usize) -> bool {
    &&& rt.callbacks().contains_key(h)
    &&& !ready_handles(rt.ready()).contains(h)
    &&& !handles_of(rt.timers()).contains(h)
}

/// The same loop state, but for the ready queue, the idle workers and the
/// count of I/O watches.
pub open spec fn same_but_queues<C>(a: Runtime<C>, b: Runtime<C>) -> bool {
    &&& a.callbacks() == b.callbacks()
    &&& a.pending() == b.pending()
    &&& a.timers() == b.timers()
    &&& a.workers() == b.workers()
    &&& a.token() == b.token()
}

/// The same loop state as seen through every view.
pub open spec fn same_state<C>(a: Runtime<C>, b: Runtime<C>) -> bool {
    &&& same_but_queues(a, b)
    &&& a.ready() == b.ready()
    &&& a.available() == b.available()
    &&& a.in_flight() == b.in_flight()
    &&& a.watches() == b.watches()
}

/// The outcome of a completion from worker `w` for handle `h`: refused for
/// a worker that is not busy, then for a handle other than the one that
/// worker runs; otherwise the result is queued and the worker is idle again.
pub open spec fn threadpool_done<C>(
    pre: Runtime<C>,
    post: Runtime<C>,
    w: usize,
    h: usize,
    v: Js,
    r: Result<(), RuntimeError>,
) -> bool {
    if !worker_busy(pre, w) {
        r == Err::<(), RuntimeError>(RuntimeError::UnknownWorker) && post == pre
    } else if pre.in_flight()[w as int] != Some(h) {
        r == Err::<(), RuntimeError>(RuntimeError::UnknownCallback) && post == pre
    } else {
        &&& r == Ok::<(), RuntimeError>(())
        &&& same_but_queues(pre, post)
        &&& post.ready() == pre.ready().push((h, v))
        &&& post.available() == pre.available().push(w)
        &&& post.in_flight() == pre.in_flight().update(w as int, None)
        &&& post.watches() == pre.watches()
    }
}

/// The outcome of readiness reported for handle `h`: refused unless `h` is
/// an outstanding I/O watch; otherwise the watch ends and `h` is queued with
/// an undefined result.
pub open spec fn epoll_done<C>(
    pre: Runtime<C>,
    post: Runtime<C>,
    h: usize,
    r: Result<(), RuntimeError>,
) -> bool {
    if !pre.watches().contains(h) {
        r == Err::<(), RuntimeError>(RuntimeError::UnknownCallback) && post == pre
    } else {
        &&& r == Ok::<(), RuntimeError>(())
        &&& same_but_queues(pre, post)
        &&& post.ready() == pre.ready().push((h, Js::Undefined))
        &&& post.available() == pre.available()
        &&& post.in_flight() == pre.in_flight()
        &&& exists|k: int|
            0 <= k < pre.watches().len() && pre.watches()[k] == h && (forall|j: int|
                0 <= j < k ==> pre.watches()[j] != h) && post.watches() == #[trigger] pre.watches().remove(k)
    }
}

/// The outcome of one step of the loop at time `now`: the oldest result of
/// the step's queue is handed out with its continuation, which leaves the
/// registry; with nothing to run the state is unchanged and the loop
/// finishes exactly when no callback is pending, or else waits until the
/// earliest deadline.
pub open spec fn step_done<C>(pre: Runtime<C>, post: Runtime<C>, now: u64, r: Step<C>) -> bool {
    &&& r is Finished <==> pre.pending() == 0
    &&& ({
        let q = step_queue(pre, now);
        q.len() > 0 ==> {
            let h = q[0].0;
            &&& r == Step::Invoke(h, pre.callbacks()[h], q[0].1)
            &&& pre.callbacks().contains_key(h)
            &&& post.callbacks() == pre.callbacks().remove(h)
            &&& post.pending() + 1 == pre.pending()
            &&& post.ready() == q.drop_first()
            &&& post.timers() == step_timers(pre, now)
            &&& post.available() == pre.available()
            &&& post.in_flight() == pre.in_flight()
            &&& post.watches() == pre.watches()
            &&& post.workers() == pre.workers()
            &&& post.token() == pre.token()
            &&& !ready_handles(post.ready()).contains(h)
            &&& !handles_of(post.timers()).contains(h)
        }
    })
    &&& step_queue(pre, now).len() == 0 ==> same_state(post, pre)
    &&& step_queue(pre, now).len() == 0 && pre.pending() > 0 ==> r == Step::<C>::Wait(
        next_timeout(pre.timers(), now),
    )
}

/// A step hands out a continuation only for a handle that was pending, and
/// that handle is pending no more afterwards: each registered continuation
/// runs at most once.
pub proof fn lemma_invoked_once<C>(pre: Runtime<C>, post: Runtime<C>, now: u64, r: Step<C>)
    requires
        step_done(pre, post, now, r),
    ensures
        r matches Step::Invoke(h, c, _) ==> pre.callbacks().contains_key(h) && c == pre.callbacks()[h]
            && !post.callbacks().contains_key(h) && post.callbacks() == pre.callbacks().remove(h),
{
    if step_queue(pre, now).len() == 0 {
        assert(!(r is Invoke));
    }
}

/// Handing out fresh handles is deterministic: one successor of `t` is the
/// first that `taken` does not hold.
pub proof fn lemma_first_free_unique(t: usize, taken: Set<usize>, r1: usize, r2: usize)
    requires
        first_free_after(t, taken, r1),
        first_free_after(t, taken, r2),
    ensures
        r1 == r2,
{
    let n1 = choose|n: int|
        0 <= n < usize_range() && r1 == #[trigger] succ_nth(t, n) && forall|i: int|
            0 <= i < n ==> taken.contains(#[trigger] succ_nth(t, i));
    let n2 = choose|n: int|
        0 <= n < usize_range() && r2 == #[trigger] succ_nth(t, n) && forall|i: int|
            0 <= i < n ==> taken.contains(#[trigger] succ_nth(t, i));
    if n1 < n2 {
        assert(taken.contains(succ_nth(t, n1)));
    } else if n2 < n1 {
        assert(taken.contains(succ_nth(t, n2)));
    }
}

/// Replaying a step on the same state at the same time gives the same
/// decision and the same next state.
pub proof fn lemma_step_deterministic<C>(
    a0: Runtime<C>,
    a1: Runtime<C>,
    b0: Runtime<C>,
    b1: Runtime<C>,
    now: u64,
    ra: Step<C>,
    rb: Step<C>,
)
    requires
        same_state(a0, b0),
        step_done(a0, a1, now, ra),
        step_done(b0, b1, now, rb),
    ensures
        ra == rb,
        same_state(a1, b1),
{
    assert(step_queue(a0, now) == step_queue(b0, now));
    assert(step_timers(a0, now) == step_timers(b0, now));
}

/// Replaying a timer registration on the same state gives the same handle
/// and the same next state.
pub proof fn lemma_timeout_deterministic<C>(
    a0: Runtime<C>,
    a1: Runtime<C>,
    b0: Runtime<C>,
    b1: Runtime<C>,
    deadline: u64,
    cb: C,
    ra: usize,
    rb: usize,
)
    requires
        same_state(a0, b0),
        timeout_set(a0, a1, deadline, cb, ra),
        timeout_set(b0, b1, deadline, cb, rb),
    ensures
        ra == rb,
        same_state(a1, b1),
{
    lemma_first_free_unique(a0.token(), a0.callbacks().dom(), ra, rb);
}

/// Replaying a submission to the pool on the same state gives the same
/// worker, handle and next state.
pub proof fn lemma_threadpool_deterministic<C, W>(
    a0: Runtime<C>,
    a1: Runtime<C>,
    b0: Runtime<C>,
    b1: Runtime<C>,
    task: W,
    kind: ThreadPoolTaskKind,
    cb: C,
    ra: Result<Dispatch<W>, RuntimeError>,
    rb: Result<Dispatch<W>, RuntimeError>,
)
    requires
        same_state(a0, b0),
        threadpool_registered(a0, a1, task, kind, cb, ra),
        threadpool_registered(b0, b1, task, kind, cb, rb),
    ensures
        ra is Err <==> rb is Err,
        ra is Err ==> ra == rb,
        ra matches Ok(da) ==> rb matches Ok(db) && da.worker == db.worker && da.callback_id
            == db.callback_id,
        same_state(a1, b1),
{
    if let Ok(da) = ra {
        if let Ok(db) = rb {
            lemma_first_free_unique(a0.token(), a0.callbacks().dom(), da.callback_id, db.callback_id);
        }
    }
}

/// Replaying a completion event on the same state gives the same outcome
/// and the same next state.
pub proof fn lemma_event_deterministic<C>(
    a0: Runtime<C>,
    a1: Runtime<C>,
    b0: Runtime<C>,
    b1: Runtime<C>,
    w: usize,
    h: usize,
    v: Js,
    ra: Result<(), RuntimeError>,
    rb: Result<(), RuntimeError>,
)
    requires
        same_state(a0, b0),
        threadpool_done(a0, a1, w, h, v, ra) && threadpool_done(b0, b1, w, h, v, rb) || epoll_done(
            a0,
            a1,
            h,
            ra,
        ) && epoll_done(b0, b1, h, rb),
    ensures
        ra == rb,
        same_state(a1, b1),
{
}

/// The ready queue that a step works from: the current one, or, when that
/// is empty, the timers due at `now`.
pub open spec fn step_queue<C>(rt: Runtime<C>, now: u64) -> Seq<(usize, Js)> {
    if rt.ready().len() > 0 {
        rt.ready()
    } else {
        with_undefined(rt.ready(), expired(rt.timers(), now))
    }
}

/// The timers left once a step has drained what it needed.
pub open spec fn step_timers<C>(rt: Runtime<C>, now: u64) -> Seq<(u64, usize)> {
    if rt.ready().len() > 0 {
        rt.timers()
    } else {
        not_expired(rt.timers(), now)
    }
}

/// `r` is the first successor of `t`, wrapping around, that `taken` does
/// not hold.
pub open spec fn first_free_after(t: usize, taken: Set<usize>, r: usize) -> bool {
    &&& !taken.contains(r)
    &&& exists|n: int|
        0 <= n < usize_range() && r == #[trigger] succ_nth(t, n) && forall|i: int|
            0 <= i < n ==> taken.contains(#[trigger] succ_nth(t, i))
}

/// The handle `i + 1` steps after `t`, wrapping around.
pub open spec fn succ_nth(t: usize, i: int) -> usize {
    ((t + i + 1) % usize_range()) as usize
}

/// The outcome of registering a timer due at `deadline`: a fresh handle,
/// the first free one after the last issued, holds `cb` and a timer entry.
pub open spec fn timeout_set<C>(pre: Runtime<C>, post: Runtime<C>, deadline: u64, cb: C, r: usize) -> bool {
    &&& first_free_after(pre.token(), pre.callbacks().dom(), r)
    &&& post.callbacks() == pre.callbacks().insert(r, cb)
    &&& post.timers() == scheduled(pre.timers(), deadline, r)
    &&& post.pending() == pre.pending() + 1
    &&& post.ready() == pre.ready()
    &&& post.available() == pre.available()
    &&& post.in_flight() == pre.in_flight()
    &&& post.watches() == pre.watches()
    &&& post.workers() == pre.workers()
    &&& post.token() == r
}

/// The outcome of registering an I/O watch: a fresh handle, the first free
/// one after the last issued, holds `cb` and joins the watches.
pub open spec fn watch_registered<C>(pre: Runtime<C>, post: Runtime<C>, cb: C, r: usize) -> bool {
    &&& first_free_after(pre.token(), pre.callbacks().dom(), r)
    &&& post.callbacks() == pre.callbacks().insert(r, cb)
    &&& post.watches() == pre.watches().push(r)
    &&& post.pending() == pre.pending() + 1
    &&& post.timers() == pre.timers()
    &&& post.ready() == pre.ready()
    &&& post.available() == pre.available()
    &&& post.in_flight() == pre.in_flight()
    &&& post.workers() == pre.workers()
    &&& post.token() == r
}

/// The outcome of handing `task` to the pool: refused, with nothing
/// changed, when every worker is busy; otherwise the last idle worker takes
/// it under a fresh handle whose continuation is `cb`.
pub open spec fn threadpool_registered<C, W>(
    pre: Runtime<C>,
    post: Runtime<C>,
    task: W,
    kind: ThreadPoolTaskKind,
    cb: C,
    r: Result<Dispatch<W>, RuntimeError>,
) -> bool {
    &&& pre.available().len() == 0 <==> r is Err
    &&& r is Err ==> r == Err::<Dispatch<W>, RuntimeError>(RuntimeError::NoAvailableWorker)
        && post == pre
    &&& r matches Ok(d) ==> {
        &&& d.worker == pre.available().last()
        &&& d.task == task
        &&& d.kind == kind
        &&& first_free_after(pre.token(), pre.callbacks().dom(), d.callback_id)
        &&& post.callbacks() == pre.callbacks().insert(d.callback_id, cb)
        &&& post.available() == pre.available().drop_last()
        &&& post.pending() == pre.pending() + 1
        &&& post.timers() == pre.timers()
        &&& post.ready() == pre.ready()
        &&& post.in_flight() == pre.in_flight().update(d.worker as int, Some(d.callback_id))
        &&& post.watches() == pre.watches()
        &&& post.workers() == pre.workers()
        &&& post.token() == d.callback_id
    }
}

/// Why the loop refused a request or an event.
#[derive(Clone, Copy, Debug, PartialEq, Eq, Structural)]
pub enum RuntimeError {
    /// Every worker is busy: the pool takes no more work until one completes.
    NoAvailableWorker,
    /// A completion named a handle that is not waiting for a result.
    UnknownCallback,
    /// A completion named a worker that is not busy.
    UnknownWorker,
}

/// A unit of work assigned to a worker: it is to run `task` and report the
/// result for `callback_id`.
pub struct Dispatch<W> {
    pub worker: usize,
    pub callback_id: usize,
    pub task: W,
    pub kind: ThreadPoolTaskKind,
}

/// What an event source delivers to the loop.
pub enum PollEvent {
    /// A worker finished: (worker id, callback handle, result).
    ThreadPool(usize, usize, Js),
    /// A watched descriptor became ready; the id is its callback handle.
    Epoll(usize),
    /// The poll wait elapsed with nothing ready.
    Timeout,
}

/// What the loop asks its driver to do next.
pub enum Step<C> {
    /// Invoke the continuation of this handle with this result.
    Invoke(usize, C, Js),
    /// Block for one event, for at most this many milliseconds (or without
    /// limit).
    Wait(Option<u64>),
    /// Nothing is pending: shut the workers and the reactor down.
    Finished,
}

/// The state of the event loop: the callback registry, the timer queue, the
/// ready queue and the set of idle workers, with the pending-event counter.
pub struct Runtime<C> {
    available_threads: Vec<usize>,
    callbacks_to_run: Vec<(usize, Js)>,
    callback_queue: Registry<C>,
    in_flight: Vec<Option<usize>>,
    watches: Vec<usize>,
    identity_token: usize,
    pending_events: usize,
    worker_count: usize,
    timers: TimerQueue,
}

impl<C> Runtime<C> {
    /// The number of registered callbacks that have not fired yet.
    pub closed spec fn pending(&self) -> nat {
        self.pending_events as nat
    }

    /// The pending continuations by handle.
    pub closed spec fn callbacks(&self) -> Map<usize, C> {
        self.callback_queue@
    }

    /// Results waiting for their continuation, oldest first.
    pub closed spec fn ready(&self) -> Seq<(usize, Js)> {
        self.callbacks_to_run@
    }

    /// Pending timers as (deadline, handle), in deadline order.
    pub closed spec fn timers(&self) -> Seq<(u64, usize)> {
        self.timers@
    }

    /// The idle workers; the last one is assigned next.
    pub closed spec fn available(&self) -> Seq<usize> {
        self.available_threads@
    }

    /// The number of I/O watches that have not become ready.
    pub closed spec fn epoll_pending(&self) -> nat {
        self.watches@.len()
    }

    /// The handle of the task each worker runs, if it is busy.
    pub closed spec fn in_flight(&self) -> Seq<Option<usize>> {
        self.in_flight@
    }

    /// The handles of the I/O watches that have not become ready.
    pub closed spec fn watches(&self) -> Seq<usize> {
        self.watches@
    }

    /// The last handle issued by the identity generator.
    pub closed spec fn token(&self) -> usize {
        self.identity_token
    }

    /// The size of the thread pool.
    pub closed spec fn workers(&self) -> nat {
        self.worker_count as nat
    }

    pub closed spec fn wf(&self) -> bool {
        &&& self.callback_queue.wf()
        &&& self.timers.wf()
        &&& self.pending_events == self.callback_queue.size()
        &&& ready_handles(self.ready()).no_duplicates()
        &&& handles_of(self.timers()).no_duplicates()
        &&& forall|i: int|
            0 <= i < self.ready().len() ==> self.callbacks().contains_key(
                #[trigger] self.ready()[i].0,
            )
        &&& forall|i: int|
            0 <= i < self.timers().len() ==> self.callbacks().contains_key(
                #[trigger] self.timers()[i].1,
            )
        &&& forall|i: int, j: int|
            0 <= i < self.ready().len() && 0 <= j < self.timers().len() ==> #[trigger] self.ready()[i].0
                != #[trigger] self.timers()[j].1
        &&& self.available().no_duplicates()
        &&& forall|i: int| 0 <= i < self.available().len() ==> #[trigger] self.available()[i] < self.worker_count
        &&& self.in_flight().len() == self.worker_count
        &&& forall|w: int|
            0 <= w < self.in_flight().len() ==> (#[trigger] self.in_flight()[w] is None
                <==> self.available().contains(w as usize))
        &&& forall|w: int|
            0 <= w < self.in_flight().len() && #[trigger] self.in_flight()[w] is Some
                ==> self.callbacks().contains_key(self.in_flight()[w]->0)
        &&& forall|v: int, w: int|
            0 <= v < self.in_flight().len() && 0 <= w < self.in_flight().len() && v != w
                && #[trigger] self.in_flight()[v] is Some ==> self.in_flight()[v]
                != #[trigger] self.in_flight()[w]
        &&& forall|w: int, i: int|
            0 <= w < self.in_flight().len() && 0 <= i < self.ready().len() ==> #[trigger] self.in_flight()[w]
                != Some(#[trigger] self.ready()[i].0)
        &&& forall|w: int, j: int|
            0 <= w < self.in_flight().len() && 0 <= j < self.timers().len() ==> #[trigger] self.in_flight()[w]
                != Some(#[trigger] self.timers()[j].1)
        &&& forall|w: int, k: int|
            0 <= w < self.in_flight().len() && 0 <= k < self.watches().len() ==> #[trigger] self.in_flight()[w]
                != Some(#[trigger] self.watches()[k])
        &&& self.watches().no_duplicates()
        &&& forall|k: int|
            0 <= k < self.watches().len() ==> self.callbacks().contains_key(#[trigger] self.watches()[k])
        &&& forall|k: int, i: int|
            0 <= k < self.watches().len() && 0 <= i < self.ready().len() ==> #[trigger] self.watches()[k]
                != #[trigger] self.ready()[i].0
        &&& forall|k: int, j: int|
            0 <= k < self.watches().len() && 0 <= j < self.timers().len() ==> #[trigger] self.watches()[k]
                != #[trigger] self.timers()[j].1
    }

    /// What validity tells a caller: the timers are in deadline order, the
    /// pending count is the number of registered handles, each worker is
    /// idle exactly when it runs no task, idle workers are distinct and in
    /// range, and every task in flight and every watch is pending.
    pub proof fn lemma_wf_facts(&self)
        requires
            self.wf(),
        ensures
            sorted(self.timers()),
            self.callbacks().dom().finite(),
            self.pending() == self.callbacks().dom().len(),
            self.available().no_duplicates(),
            forall|i: int| 0 <= i < self.available().len() ==> #[trigger] self.available()[i] < self.workers(),
            self.in_flight().len() == self.workers(),
            forall|w: int|
                0 <= w < self.in_flight().len() ==> (#[trigger] self.in_flight()[w] is None
                    <==> self.available().contains(w as usize)),
            forall|w: int|
                0 <= w < self.in_flight().len() && #[trigger] self.in_flight()[w] is Some
                    ==> self.callbacks().contains_key(self.in_flight()[w]->0),
            forall|v: int, w: int|
                0 <= v < self.in_flight().len() && 0 <= w < self.in_flight().len() && v != w
                    && #[trigger] self.in_flight()[v] is Some ==> self.in_flight()[v]
                    != #[trigger] self.in_flight()[w],
            self.watches().no_duplicates(),
            forall|k: int|
                0 <= k < self.watches().len() ==> self.callbacks().contains_key(#[trigger] self.watches()[k]),
            ready_handles(self.ready()).no_duplicates(),
            handles_of(self.timers()).no_duplicates(),
    {
        self.timers.lemma_sorted();
        self.callback_queue.lemma_size();
    }

    /// A loop with `worker_count` idle workers and nothing registered.
    pub fn new(worker_count: usize) -> (r: Self)
        ensures
            r.wf(),
            r.pending() == 0,
            r.callbacks() == Map::<usize, C>::empty(),
            r.ready() == Seq::<(usize, Js)>::empty(),
            r.timers() == Seq::<(u64, usize)>::empty(),
            r.available() == Seq::new(worker_count as nat, |i: int| i as usize),
            r.epoll_pending() == 0,
            r.in_flight() == Seq::new(worker_count as nat, |i: int| None::<usize>),
            r.token() == 0,
            r.workers() == worker_count,
    {
        let mut available_threads: Vec<usize> = Vec::new();
        let mut i: usize = 0;
        while i < worker_count
            invariant
                i <= worker_count,
                available_threads@ == Seq::new(i as nat, |j: int| j as usize),
            decreases worker_count - i,
        {
            available_threads.push(i);
            i = i + 1;
            assert(available_threads@ =~= Seq::new(i as nat, |j: int| j as usize));
        }
        let mut in_flight: Vec<Option<usize>> = Vec::new();
        let mut j: usize = 0;
        while j < worker_count
            invariant
                j <= worker_count,
                in_flight@ == Seq::new(j as nat, |k: int| None::<usize>),
            decreases worker_count - j,
        {
            in_flight.push(None);
            j = j + 1;
            assert(in_flight@ =~= Seq::new(j as nat, |k: int| None::<usize>));
        }
        let r = Runtime {
            available_threads,
            callbacks_to_run: Vec::new(),
            callback_queue: Registry::new(),
            in_flight,
            watches: Vec::new(),
            identity_token: 0,
            pending_events: 0,
            worker_count,
            timers: TimerQueue::new(),
        };
        assert(ready_handles(r.ready()) =~= Seq::<usize>::empty());
        assert(handles_of(r.timers()) =~= Seq::<usize>::empty());
        assert forall|w: int| 0 <= w < r.in_flight().len() implies (#[trigger] r.in_flight()[w] is None
            <==> r.available().contains(w as usize)) by {
            assert(r.available()[w] == w as usize);
        }
        r
    }

    /// Advances the identity counter, wrapping around at the top of `usize`.
    fn generate_identity(&mut self) -> (r: usize)
        ensures
            r == (if old(self).identity_token == usize::MAX {
                0
            } else {
                (old(self).identity_token + 1) as usize
            }),
            final(self).identity_token == r,
            final(self).available_threads == old(self).available_threads,
            final(self).callbacks_to_run == old(self).callbacks_to_run,
            final(self).callback_queue == old(self).callback_queue,
            final(self).in_flight == old(self).in_flight,
            final(self).watches == old(self).watches,
            final(self).pending_events == old(self).pending_events,
            final(self).worker_count == old(self).worker_count,
            final(self).timers == old(self).timers,
    {
        self.identity_token = self.identity_token.wrapping_add(1);
        self.identity_token
    }

    /// A handle that no pending callback holds: the successors of the last
    /// handle issued are probed in turn, wrapping around.
    fn generate_cb_identity(&mut self) -> (r: usize)
        requires
            old(self).wf(),
            old(self).pending() < usize::MAX,
        ensures
            first_free_after(old(self).token(), old(self).callbacks().dom(), r),
            final(self).identity_token == r,
            final(self).available_threads == old(self).available_threads,
            final(self).callbacks_to_run == old(self).callbacks_to_run,
            final(self).callback_queue == old(self).callback_queue,
            final(self).in_flight == old(self).in_flight,
            final(self).watches == old(self).watches,
            final(self).pending_events == old(self).pending_events,
            final(self).worker_count == old(self).worker_count,
            final(self).timers == old(self).timers,
            final(self).wf(),
    {
        let ghost start = self.identity_token as int;
        let ghost m = usize_range();
        let ghost dom = self.callback_queue@.dom();
        proof {
            self.callback_queue.lemma_size();
            lemma_succ_mod(start, m);
            lemma_small_mod(start as nat, m as nat);
        }
        let mut ident = self.generate_identity();
        let mut n: usize = 0;
        let ghost mut tried: Seq<usize> = Seq::empty();
        while self.callback_queue.contains_key(ident)
            invariant
                self.wf(),
                self.callback_queue@.dom() == dom,
                dom.finite(),
                dom.len() == self.pending_events,
                self.pending_events < usize::MAX,
                self.identity_token == ident,
                ident as int == (start + n + 1) % m,
                m == usize_range(),
                0 <= start,
                n <= self.pending_events,
                tried.len() == n,
                tried.no_duplicates(),
                forall|i: int| 0 <= i < n ==> #[trigger] tried[i] as int == (start + i + 1) % m,
                forall|i: int| 0 <= i < n ==> dom.contains(#[trigger] tried[i]),
                self.available_threads == old(self).available_threads,
                self.callbacks_to_run == old(self).callbacks_to_run,
                self.callback_queue == old(self).callback_queue,
                self.in_flight == old(self).in_flight,
                self.watches == old(self).watches,
                self.pending_events == old(self).pending_events,
                self.worker_count == old(self).worker_count,
                self.timers == old(self).timers,
            decreases self.pending_events - n,
        {
            proof {
                assert forall|i: int| 0 <= i < n implies tried[i] != ident by {
                    lemma_mod_distinct(start, i, n as int, m);
                }
                let next = tried.push(ident);
                assert forall|a: int, b: int| 0 <= a < b < next.len() implies next[a] != next[b] by {
                    if b < n {
                        assert(next[a] == tried[a] && next[b] == tried[b]);
                    } else {
                        assert(next[a] == tried[a]);
                    }
                }
                next.unique_seq_to_set();
                assert(next.to_set().subset_of(dom)) by {
                    assert forall|h: usize| next.to_set().contains(h) implies dom.contains(h) by {
                        let a = choose|a: int| 0 <= a < next.len() && next[a] == h;
                        if a < n {
                            assert(tried[a] == h);
                        }
                    }
                }
                vstd::set_lib::lemma_len_subset(next.to_set(), dom);
                tried = next;
                lemma_succ_mod(start + n + 1, m);
                lemma_small_mod(1, m as nat);
                lemma_add_mod_noop(start + n + 1, 1, m);
            }
            n = n + 1;
            ident = self.generate_identity();
            proof {
                if ident == 0 {
                } else {
                    lemma_small_mod(ident as nat, m as nat);
                }
            }
        }
        proof {
            let t = old(self).identity_token;
            let nn = n as int;
            assert forall|i: int| 0 <= i < nn implies dom.contains(#[trigger] succ_nth(t, i)) by {
                assert(tried[i] as int == (start + i + 1) % m);
            }
            assert(ident == succ_nth(t, nn));
        }
        ident
    }

    /// Whether a continuation is pending under `handle`.
    pub fn has_callback(&self, handle: usize) -> (r: bool)
        requires
            self.wf(),
        ensures
            r == self.callbacks().contains_key(handle),
    {
        self.callback_queue.contains_key(handle)
    }

    /// The number of registered callbacks that have not fired yet.
    pub fn pending_events(&self) -> (r: usize)
        ensures
            r == self.pending(),
    {
        self.pending_events
    }

    /// Registers a timer that fires `ms` milliseconds after `now` and returns
    /// its fresh handle.
    pub fn set_timeout(&mut self, now: u64, ms: u64, cb: C) -> (r: usize)
        requires
            old(self).wf(),
            old(self).pending() < usize::MAX,
            now + ms <= u64::MAX,
        ensures
            final(self).wf(),
            timeout_set(*old(self), *final(self), (now + ms) as u64, cb, r),
    {
        let cb_id = self.generate_cb_identity();
        let ghost pre = *self;
        self.callback_queue.insert(cb_id, cb);
        let timeout = now + ms;
        self.timers.schedule(timeout, cb_id);
        self.pending_events = self.pending_events + 1;
        proof {
            crate::timers::lemma_count_due(pre.timers(), timeout);
            lemma_timers_insert(pre.timers(), timeout, cb_id, pre.callbacks());
            assert forall|i: int| 0 <= i < self.ready().len() implies self.callbacks().contains_key(
                #[trigger] self.ready()[i].0) by {
                assert(pre.callbacks().contains_key(pre.ready()[i].0));
            }
            assert forall|i: int, j: int|
                0 <= i < self.ready().len() && 0 <= j < self.timers().len() implies #[trigger] self.ready()[i].0
                != #[trigger] self.timers()[j].1 by {
                assert(pre.callbacks().contains_key(pre.ready()[i].0));
                let p = crate::timers::count_due(pre.timers(), timeout) as int;
                if j < p {
                    assert(self.timers()[j] == pre.timers()[j]);
                } else if j > p {
                    assert(self.timers()[j] == pre.timers()[j - 1]);
                }
            }
        }
        cb_id
    }

    /// Registers a watch on an I/O source under a fresh handle, the first
    /// free one after the last issued, and returns it: the reactor reports
    /// readiness under that handle.
    pub fn register_event_epoll(&mut self, cb: C) -> (r: usize)
        requires
            old(self).wf(),
            old(self).pending() < usize::MAX,
        ensures
            final(self).wf(),
            watch_registered(*old(self), *final(self), cb, r),
    {
        let token = self.generate_cb_identity();
        let ghost pre = *self;
        self.callback_queue.insert(token, cb);
        self.pending_events = self.pending_events + 1;
        self.watches.push(token);
        proof {
            pre.lemma_fresh(token);
            assert forall|i: int| 0 <= i < self.ready().len() implies self.callbacks().contains_key(
                #[trigger] self.ready()[i].0) by {
                assert(pre.callbacks().contains_key(pre.ready()[i].0));
            }
            assert forall|i: int| 0 <= i < self.timers().len() implies self.callbacks().contains_key(
                #[trigger] self.timers()[i].1) by {
                assert(pre.callbacks().contains_key(pre.timers()[i].1));
            }
            assert forall|w: int| 0 <= w < self.in_flight().len() && #[trigger] self.in_flight()[w] is Some
                implies self.callbacks().contains_key(self.in_flight()[w]->0) by {
                assert(pre.in_flight()[w] is Some);
            }
            assert forall|k: int| 0 <= k < self.watches().len() implies self.callbacks().contains_key(
                #[trigger] self.watches()[k]) by {
                if k < pre.watches().len() {
                    assert(pre.callbacks().contains_key(pre.watches()[k]));
                }
            }
            assert forall|a: int, b: int| 0 <= a < b < self.watches().len() implies self.watches()[a]
                != self.watches()[b] by {
                if b == pre.watches().len() {
                    assert(pre.callbacks().contains_key(pre.watches()[a]));
                }
            }
            assert forall|w: int, k: int|
                0 <= w < self.in_flight().len() && 0 <= k < self.watches().len() implies #[trigger] self.in_flight()[w]
                != Some(#[trigger] self.watches()[k]) by {
                if k < pre.watches().len() {
                    assert(pre.in_flight()[w] != Some(pre.watches()[k]));
                }
            }
            assert forall|k: int, i: int|
                0 <= k < self.watches().len() && 0 <= i < self.ready().len() implies #[trigger] self.watches()[k]
                != #[trigger] self.ready()[i].0 by {
                if k < pre.watches().len() {
                    assert(pre.watches()[k] != pre.ready()[i].0);
                }
            }
            assert forall|k: int, j: int|
                0 <= k < self.watches().len() && 0 <= j < self.timers().len() implies #[trigger] self.watches()[k]
                != #[trigger] self.timers()[j].1 by {
                if k < pre.watches().len() {
                    assert(pre.watches()[k] != pre.timers()[j].1);
                }
            }
        }
        token
    }

    /// A handle that is not registered is neither queued, nor a timer, nor
    /// run by a worker, nor watched.
    proof fn lemma_fresh(&self, h: usize)
        requires
            self.wf(),
            !self.callbacks().contains_key(h),
        ensures
            forall|i: int| 0 <= i < self.ready().len() ==> #[trigger] self.ready()[i].0 != h,
            forall|j: int| 0 <= j < self.timers().len() ==> #[trigger] self.timers()[j].1 != h,
            forall|w: int| 0 <= w < self.in_flight().len() ==> #[trigger] self.in_flight()[w] != Some(h),
            forall|k: int| 0 <= k < self.watches().len() ==> #[trigger] self.watches()[k] != h,
    {
        assert forall|w: int| 0 <= w < self.in_flight().len() implies #[trigger] self.in_flight()[w] != Some(h) by {
            if self.in_flight()[w] is Some {
                assert(self.callbacks().contains_key(self.in_flight()[w]->0));
            }
        }
    }

    /// Hands `task` to the idle worker that comes last in the available
    /// list, under a fresh handle whose continuation is `cb`. With every
    /// worker busy nothing changes and the request is refused.
    pub fn register_event_threadpool<W>(&mut self, task: W, kind: ThreadPoolTaskKind, cb: C) -> (r:
        Result<Dispatch<W>, RuntimeError>)
        requires
            old(self).wf(),
            old(self).pending() < usize::MAX,
        ensures
            final(self).wf(),
            threadpool_registered(*old(self), *final(self), task, kind, cb, r),
    {
        if self.available_threads.len() == 0 {
            return Err(RuntimeError::NoAvailableWorker);
        }
        let callback_id = self.generate_cb_identity();
        let ghost pre = *self;
        proof {
            pre.lemma_fresh(callback_id);
        }
        self.callback_queue.insert(callback_id, cb);
        let worker = self.get_available_thread();
        proof {
            assert(pre.available().contains(worker));
            assert(!self.available().contains(worker)) by {
                if self.available().contains(worker) {
                    let i = choose|i: int| 0 <= i < self.available().len() && self.available()[i] == worker;
                    assert(pre.available()[i] == worker);
                    assert(pre.available()[pre.available().len() - 1] == worker);
                }
            }
        }
        self.in_flight.set(worker, Some(callback_id));
        self.pending_events = self.pending_events + 1;
        proof {
            self.lemma_assigned(pre, worker, callback_id);
            assert forall|i: int| 0 <= i < self.ready().len() implies self.callbacks().contains_key(
                #[trigger] self.ready()[i].0) by {
                assert(pre.callbacks().contains_key(pre.ready()[i].0));
            }
            assert forall|i: int| 0 <= i < self.timers().len() implies self.callbacks().contains_key(
                #[trigger] self.timers()[i].1) by {
                assert(pre.callbacks().contains_key(pre.timers()[i].1));
            }
            assert forall|i: int| 0 <= i < self.available().len() implies #[trigger] self.available()[i] < self.worker_count by {
                assert(pre.available()[i] == self.available()[i]);
            }
        }
        Ok(Dispatch { worker, callback_id, task, kind })
    }

    /// The frame facts after `worker`, idle in `pre`, took the fresh
    /// handle `h`.
    proof fn lemma_assigned(&self, pre: Self, worker: usize, h: usize)
        requires
            pre.wf(),
            !pre.callbacks().contains_key(h),
            pre.available().contains(worker),
            pre.available().len() > 0,
            worker == pre.available().last(),
            self.available() == pre.available().drop_last(),
            !self.available().contains(worker),
            self.callbacks() == pre.callbacks().insert(h, self.callbacks()[h]),
            self.in_flight() == pre.in_flight().update(worker as int, Some(h)),
            self.ready() == pre.ready(),
            self.timers() == pre.timers(),
            self.watches() == pre.watches(),
            self.worker_count == pre.worker_count,
        ensures
            forall|i: int| 0 <= i < self.ready().len() ==> self.callbacks().contains_key(
                #[trigger] self.ready()[i].0),
            forall|i: int| 0 <= i < self.timers().len() ==> self.callbacks().contains_key(
                #[trigger] self.timers()[i].1),
            forall|k: int| 0 <= k < self.watches().len() ==> self.callbacks().contains_key(
                #[trigger] self.watches()[k]),
            forall|i: int| 0 <= i < self.available().len() ==> #[trigger] self.available()[i] < self.worker_count,
            self.available().no_duplicates(),
            forall|w: int|
                0 <= w < self.in_flight().len() ==> (#[trigger] self.in_flight()[w] is None
                    <==> self.available().contains(w as usize)),
            forall|w: int|
                0 <= w < self.in_flight().len() && #[trigger] self.in_flight()[w] is Some
                    ==> self.callbacks().contains_key(self.in_flight()[w]->0),
            forall|v: int, w: int|
                0 <= v < self.in_flight().len() && 0 <= w < self.in_flight().len() && v != w
                    && #[trigger] self.in_flight()[v] is Some ==> self.in_flight()[v]
                    != #[trigger] self.in_flight()[w],
            forall|w: int, i: int|
                0 <= w < self.in_flight().len() && 0 <= i < self.ready().len() ==> #[trigger] self.in_flight()[w]
                    != Some(#[trigger] self.ready()[i].0),
            forall|w: int, j: int|
                0 <= w < self.in_flight().len() && 0 <= j < self.timers().len() ==> #[trigger] self.in_flight()[w]
                    != Some(#[trigger] self.timers()[j].1),
            forall|w: int, k: int|
                0 <= w < self.in_flight().len() && 0 <= k < self.watches().len() ==> #[trigger] self.in_flight()[w]
                    != Some(#[trigger] self.watches()[k]),
    {
        pre.lemma_fresh(h);
        let wi = worker as int;
        assert(worker < pre.worker_count) by {
            assert(pre.available()[pre.available().len() - 1] == worker);
        }
        assert(pre.in_flight()[wi] is None);
        assert forall|i: int| 0 <= i < self.ready().len() implies self.callbacks().contains_key(
            #[trigger] self.ready()[i].0) by {
            assert(pre.callbacks().contains_key(pre.ready()[i].0));
        }
        assert forall|i: int| 0 <= i < self.timers().len() implies self.callbacks().contains_key(
            #[trigger] self.timers()[i].1) by {
            assert(pre.callbacks().contains_key(pre.timers()[i].1));
        }
        assert forall|k: int| 0 <= k < self.watches().len() implies self.callbacks().contains_key(
            #[trigger] self.watches()[k]) by {
            assert(pre.callbacks().contains_key(pre.watches()[k]));
        }
        assert forall|i: int| 0 <= i < self.available().len() implies #[trigger] self.available()[i] < self.worker_count by {
            assert(pre.available()[i] == self.available()[i]);
        }
        assert forall|a: int, b: int| 0 <= a < b < self.available().len() implies self.available()[a]
            != self.available()[b] by {
            assert(pre.available()[a] == self.available()[a]);
            assert(pre.available()[b] == self.available()[b]);
        }
        assert forall|w: int| 0 <= w < self.in_flight().len() implies (#[trigger] self.in_flight()[w] is None
            <==> self.available().contains(w as usize)) by {
            if w != wi {
                assert(pre.in_flight()[w] == self.in_flight()[w]);
                if pre.available().contains(w as usize) {
                    let i = choose|i: int| 0 <= i < pre.available().len() && pre.available()[i] == w as usize;
                    assert(i != pre.available().len() - 1);
                    assert(self.available()[i] == w as usize);
                }
                if self.available().contains(w as usize) {
                    let i = choose|i: int| 0 <= i < self.available().len() && self.available()[i] == w as usize;
                    assert(pre.available()[i] == w as usize);
                }
            }
        }
        assert forall|w: int| 0 <= w < self.in_flight().len() && #[trigger] self.in_flight()[w] is Some
            implies self.callbacks().contains_key(self.in_flight()[w]->0) by {
            if w != wi {
                assert(pre.in_flight()[w] is Some);
            }
        }
        assert forall|v: int, w: int|
            0 <= v < self.in_flight().len() && 0 <= w < self.in_flight().len() && v != w
                && #[trigger] self.in_flight()[v] is Some implies self.in_flight()[v]
                != #[trigger] self.in_flight()[w] by {
            if v != wi && w != wi {
                assert(pre.in_flight()[v] != pre.in_flight()[w]);
            } else if v == wi {
                assert(pre.in_flight()[w] != Some(h));
            } else {
                assert(pre.in_flight()[v] != Some(h));
            }
        }
        assert forall|w: int, i: int|
            0 <= w < self.in_flight().len() && 0 <= i < self.ready().len() implies #[trigger] self.in_flight()[w]
            != Some(#[trigger] self.ready()[i].0) by {
            if w != wi {
                assert(pre.in_flight()[w] != Some(pre.ready()[i].0));
            }
        }
        assert forall|w: int, j: int|
            0 <= w < self.in_flight().len() && 0 <= j < self.timers().len() implies #[trigger] self.in_flight()[w]
            != Some(#[trigger] self.timers()[j].1) by {
            if w != wi {
                assert(pre.in_flight()[w] != Some(pre.timers()[j].1));
            }
        }
        assert forall|w: int, k: int|
            0 <= w < self.in_flight().len() && 0 <= k < self.watches().len() implies #[trigger] self.in_flight()[w]
            != Some(#[trigger] self.watches()[k]) by {
            if w != wi {
                assert(pre.in_flight()[w] != Some(pre.watches()[k]));
            }
        }
    }

    /// Records that worker `thread_id` finished the task for `callback_id`.
    pub fn process_threadpool_events(&mut self, thread_id: usize, callback_id: usize, data: Js) -> (r:
        Result<(), RuntimeError>)
        requires
            old(self).wf(),
        ensures
            final(self).wf(),
            threadpool_done(*old(self), *final(self), thread_id, callback_id, data, r),
    {
        if thread_id >= self.in_flight.len() {
            return Err(RuntimeError::UnknownWorker);
        }
        match self.in_flight[thread_id] {
            None => {
                return Err(RuntimeError::UnknownWorker);
            },
            Some(h) => {
                if h != callback_id {
                    return Err(RuntimeError::UnknownCallback);
                }
            },
        }
        let ghost pre = *self;
        let ghost wi = thread_id as int;
        proof {
            assert(pre.in_flight()[wi] is Some);
            assert(!pre.available().contains(thread_id));
            assert(pre.callbacks().contains_key(callback_id));
            assert forall|i: int| 0 <= i < pre.ready().len() implies pre.ready()[i].0 != callback_id by {
                assert(pre.in_flight()[wi] != Some(pre.ready()[i].0));
            }
            assert forall|j: int| 0 <= j < pre.timers().len() implies pre.timers()[j].1 != callback_id by {
                assert(pre.in_flight()[wi] != Some(pre.timers()[j].1));
            }
            assert forall|k: int| 0 <= k < pre.watches().len() implies pre.watches()[k] != callback_id by {
                assert(pre.in_flight()[wi] != Some(pre.watches()[k]));
            }
            pre.lemma_awaiting(callback_id);
        }
        self.callbacks_to_run.push((callback_id, data));
        self.available_threads.push(thread_id);
        self.in_flight.set(thread_id, None);
        proof {
            self.lemma_push_ready(pre, callback_id);
            assert forall|a: int, b: int| 0 <= a < b < self.available().len() implies self.available()[a]
                != self.available()[b] by {
                if b == pre.available().len() {
                    assert(pre.available().contains(pre.available()[a]));
                }
            }
            assert forall|a: int| 0 <= a < self.available().len() implies #[trigger] self.available()[a] < self.worker_count by {
                if a < pre.available().len() {
                    assert(pre.available()[a] < pre.worker_count);
                }
            }
            assert forall|w: int| 0 <= w < self.in_flight().len() implies (#[trigger] self.in_flight()[w] is None
                <==> self.available().contains(w as usize)) by {
                if w != wi {
                    assert(pre.in_flight()[w] == self.in_flight()[w]);
                    if pre.available().contains(w as usize) {
                        let i = choose|i: int| 0 <= i < pre.available().len() && pre.available()[i] == w as usize;
                        assert(self.available()[i] == w as usize);
                    }
                    if self.available().contains(w as usize) {
                        let i = choose|i: int| 0 <= i < self.available().len() && self.available()[i] == w as usize;
                        if i < pre.available().len() {
                            assert(pre.available()[i] == w as usize);
                        }
                    }
                } else {
                    assert(self.available()[pre.available().len() as int] == thread_id);
                }
            }
            assert forall|w: int| 0 <= w < self.in_flight().len() && #[trigger] self.in_flight()[w] is Some
                implies self.callbacks().contains_key(self.in_flight()[w]->0) by {
                assert(pre.in_flight()[w] is Some);
            }
            assert forall|v: int, w: int|
                0 <= v < self.in_flight().len() && 0 <= w < self.in_flight().len() && v != w
                    && #[trigger] self.in_flight()[v] is Some implies self.in_flight()[v]
                    != #[trigger] self.in_flight()[w] by {
                assert(pre.in_flight()[v] != pre.in_flight()[w]);
            }
            assert forall|w: int, i: int|
                0 <= w < self.in_flight().len() && 0 <= i < self.ready().len() implies #[trigger] self.in_flight()[w]
                != Some(#[trigger] self.ready()[i].0) by {
                if w != wi {
                    if i < pre.ready().len() {
                        assert(pre.in_flight()[w] != Some(pre.ready()[i].0));
                    } else {
                        assert(pre.in_flight()[wi] is Some);
                        assert(pre.in_flight()[wi] != pre.in_flight()[w]);
                    }
                }
            }
            assert forall|w: int, j: int|
                0 <= w < self.in_flight().len() && 0 <= j < self.timers().len() implies #[trigger] self.in_flight()[w]
                != Some(#[trigger] self.timers()[j].1) by {
                assert(pre.in_flight()[w] != Some(pre.timers()[j].1));
            }
            assert forall|w: int, k: int|
                0 <= w < self.in_flight().len() && 0 <= k < self.watches().len() implies #[trigger] self.in_flight()[w]
                != Some(#[trigger] self.watches()[k]) by {
                assert(pre.in_flight()[w] != Some(pre.watches()[k]));
            }
            assert forall|k: int, i: int|
                0 <= k < self.watches().len() && 0 <= i < self.ready().len() implies #[trigger] self.watches()[k]
                != #[trigger] self.ready()[i].0 by {
                if i < pre.ready().len() {
                    assert(pre.watches()[k] != pre.ready()[i].0);
                }
            }
        }
        Ok(())
    }

    /// Records that the source watched under `event_id` became ready.
    pub fn process_epoll_events(&mut self, event_id: usize) -> (r: Result<(), RuntimeError>)
        requires
            old(self).wf(),
        ensures
            final(self).wf(),
            epoll_done(*old(self), *final(self), event_id, r),
    {
        let mut k: usize = 0;
        while k < self.watches.len()
            invariant
                self.wf(),
                k <= self.watches().len(),
                forall|j: int| 0 <= j < k ==> self.watches()[j] != event_id,
            ensures
                k <= self.watches().len(),
                forall|j: int| 0 <= j < k ==> self.watches()[j] != event_id,
                k < self.watches().len() ==> self.watches()[k as int] == event_id,
            decreases self.watches().len() - k,
        {
            if self.watches[k] == event_id {
                break;
            }
            k = k + 1;
        }
        if k == self.watches.len() {
            proof {
                assert(!self.watches().contains(event_id));
            }
            return Err(RuntimeError::UnknownCallback);
        }
        let ghost pre = *self;
        let ghost ki = k as int;
        proof {
            assert(pre.callbacks().contains_key(event_id));
            assert forall|i: int| 0 <= i < pre.ready().len() implies pre.ready()[i].0 != event_id by {
                assert(pre.watches()[ki] != pre.ready()[i].0);
            }
            assert forall|j: int| 0 <= j < pre.timers().len() implies pre.timers()[j].1 != event_id by {
                assert(pre.watches()[ki] != pre.timers()[j].1);
            }
            pre.lemma_awaiting(event_id);
        }
        self.watches.remove(k);
        self.callbacks_to_run.push((event_id, Js::Undefined));
        proof {
            self.lemma_push_ready(pre, event_id);
            assert forall|w: int, i: int|
                0 <= w < self.in_flight().len() && 0 <= i < self.ready().len() implies #[trigger] self.in_flight()[w]
                != Some(#[trigger] self.ready()[i].0) by {
                if i < pre.ready().len() {
                    assert(pre.in_flight()[w] != Some(pre.ready()[i].0));
                } else {
                    assert(pre.in_flight()[w] != Some(pre.watches()[ki]));
                }
            }
            assert forall|w: int, k2: int|
                0 <= w < self.in_flight().len() && 0 <= k2 < self.watches().len() implies #[trigger] self.in_flight()[w]
                != Some(#[trigger] self.watches()[k2]) by {
                if k2 < ki {
                    assert(pre.in_flight()[w] != Some(pre.watches()[k2]));
                } else {
                    assert(pre.in_flight()[w] != Some(pre.watches()[k2 + 1]));
                }
            }
            assert forall|a: int, b: int| 0 <= a < b < self.watches().len() implies self.watches()[a]
                != self.watches()[b] by {
                let pa = if a < ki { a } else { a + 1 };
                let pb = if b < ki { b } else { b + 1 };
                assert(self.watches()[a] == pre.watches()[pa]);
                assert(self.watches()[b] == pre.watches()[pb]);
            }
            assert forall|k2: int| 0 <= k2 < self.watches().len() implies self.callbacks().contains_key(
                #[trigger] self.watches()[k2]) by {
                if k2 < ki {
                    assert(pre.callbacks().contains_key(pre.watches()[k2]));
                } else {
                    assert(pre.callbacks().contains_key(pre.watches()[k2 + 1]));
                }
            }
            assert forall|k2: int, i: int|
                0 <= k2 < self.watches().len() && 0 <= i < self.ready().len() implies #[trigger] self.watches()[k2]
                != #[trigger] self.ready()[i].0 by {
                let pk = if k2 < ki { k2 } else { k2 + 1 };
                assert(self.watches()[k2] == pre.watches()[pk]);
                if i < pre.ready().len() {
                    assert(pre.watches()[pk] != pre.ready()[i].0);
                } else {
                    assert(pk != ki);
                }
            }
            assert forall|k2: int, j: int|
                0 <= k2 < self.watches().len() && 0 <= j < self.timers().len() implies #[trigger] self.watches()[k2]
                != #[trigger] self.timers()[j].1 by {
                let pk = if k2 < ki { k2 } else { k2 + 1 };
                assert(self.watches()[k2] == pre.watches()[pk]);
                assert(pre.watches()[pk] != pre.timers()[j].1);
            }
        }
        Ok(())
    }

    /// A registered handle that is neither queued nor a timer is awaited.
    proof fn lemma_awaiting(&self, h: usize)
        requires
            self.callbacks().contains_key(h),
            forall|i: int| 0 <= i < self.ready().len() ==> self.ready()[i].0 != h,
            forall|j: int| 0 <= j < self.timers().len() ==> self.timers()[j].1 != h,
        ensures
            awaiting(*self, h),
    {
        if ready_handles(self.ready()).contains(h) {
            let i = choose|i: int| 0 <= i < self.ready().len() && ready_handles(self.ready())[i] == h;
            assert(ready_handles(self.ready())[i] == self.ready()[i].0);
        }
        if handles_of(self.timers()).contains(h) {
            let i = choose|i: int| 0 <= i < self.timers().len() && handles_of(self.timers())[i] == h;
            assert(handles_of(self.timers())[i] == self.timers()[i].1);
        }
    }

    /// After one awaited handle was appended to the ready queue of `pre`,
    /// the queue invariants still hold.
    proof fn lemma_push_ready(&self, pre: Self, h: usize)
        requires
            pre.wf(),
            awaiting(pre, h),
            self.callback_queue == pre.callback_queue,
            self.timers == pre.timers,
            self.pending_events == pre.pending_events,
            self.ready().len() == pre.ready().len() + 1,
            forall|i: int| 0 <= i < pre.ready().len() ==> self.ready()[i] == pre.ready()[i],
            self.ready().last().0 == h,
        ensures
            ready_handles(self.ready()).no_duplicates(),
            forall|i: int|
                0 <= i < self.ready().len() ==> self.callbacks().contains_key(
                    #[trigger] self.ready()[i].0,
                ),
            forall|i: int, j: int|
                0 <= i < self.ready().len() && 0 <= j < self.timers().len() ==> #[trigger] self.ready()[i].0
                    != #[trigger] self.timers()[j].1,
    {
        let n = pre.ready().len() as int;
        assert forall|a: int, b: int| 0 <= a < b < self.ready().len() implies ready_handles(
            self.ready(),
        )[a] != ready_handles(self.ready())[b] by {
            assert(ready_handles(pre.ready())[a] == pre.ready()[a].0);
            if b < n {
                assert(ready_handles(pre.ready())[b] == pre.ready()[b].0);
            } else {
                assert(ready_handles(pre.ready()).contains(pre.ready()[a].0));
            }
        }
        assert forall|i: int| 0 <= i < self.ready().len() implies self.callbacks().contains_key(
            #[trigger] self.ready()[i].0) by {
            if i < n {
                assert(pre.callbacks().contains_key(pre.ready()[i].0));
            }
        }
        assert forall|i: int, j: int|
            0 <= i < self.ready().len() && 0 <= j < self.timers().len() implies #[trigger] self.ready()[i].0
            != #[trigger] self.timers()[j].1 by {
            if i < n {
                assert(pre.ready()[i].0 != pre.timers()[j].1);
            } else {
                assert(handles_of(pre.timers())[j] == pre.timers()[j].1);
            }
        }
    }

    /// Feeds one event from the completion channel to the loop.
    pub fn on_event(&mut self, event: PollEvent) -> (r: Result<(), RuntimeError>)
        requires
            old(self).wf(),
        ensures
            final(self).wf(),
            event is Timeout ==> r == Ok::<(), RuntimeError>(()) && *final(self) == *old(self),
            event matches PollEvent::ThreadPool(w, h, v) ==> threadpool_done(
                *old(self),
                *final(self),
                w,
                h,
                v,
                r,
            ),
            event matches PollEvent::Epoll(h) ==> epoll_done(*old(self), *final(self), h, r),
    {
        match event {
            PollEvent::Timeout => Ok(()),
            PollEvent::ThreadPool(thread_id, callback_id, data) => {
                self.process_threadpool_events(thread_id, callback_id, data)
            },
            PollEvent::Epoll(event_id) => self.process_epoll_events(event_id),
        }
    }

    /// How long the reactor may block at `now` without passing the
    /// earliest deadline; `None` blocks until an event arrives.
    pub fn get_next_timeout(&self, now: u64) -> (r: Option<u64>)
        requires
            self.wf(),
        ensures
            r == next_timeout(self.timers(), now),
            sorted(self.timers()),
            r is None <==> self.timers().len() == 0,
            self.timers().len() > 0 ==> forall|j: int|
                0 <= j < self.timers().len() ==> #[trigger] self.timers()[j].0 >= self.timers()[0].0,
    {
        proof {
            self.timers.lemma_sorted();
            if self.timers().len() > 0 {
                assert(forall|j: int|
                    0 <= j < self.timers().len() ==> #[trigger] self.timers()[j].0 >= self.timers()[0].0);
            }
        }
        match self.timers.peek_next_deadline() {
            None => None,
            Some(deadline) => if deadline > now {
                Some(deadline - now)
            } else {
                Some(0)
            },
        }
    }

    /// Draining the timers of a valid loop at `now` queues exactly the
    /// handles due by `now`, earliest deadline first (ties in the order they
    /// were added), each once, and every timer left is due after `now`.
    pub proof fn lemma_expired_exact(&self, now: u64)
        requires
            self.wf(),
        ensures
            forall|h: usize|
                expired(self.timers(), now).contains(h) <==> exists|i: int|
                    0 <= i < self.timers().len() && self.timers()[i].1 == h && self.timers()[i].0 <= now,
            forall|a: int|
                0 <= a < expired(self.timers(), now).len() ==> #[trigger] expired(self.timers(), now)[a]
                    == self.timers()[a].1,
            forall|a: int, b: int|
                0 <= a < b < expired(self.timers(), now).len() ==> self.timers()[a].0 <= self.timers()[b].0,
            expired(self.timers(), now).no_duplicates(),
            forall|j: int|
                0 <= j < not_expired(self.timers(), now).len() ==> #[trigger] not_expired(
                    self.timers(),
                    now,
                )[j].0 > now,
            forall|h: usize|
                expired(self.timers(), now).contains(h) ==> !handles_of(
                    not_expired(self.timers(), now),
                ).contains(h),
    {
        self.lemma_wf_facts();
        crate::timers::lemma_drain_exact(self.timers(), now);
        crate::timers::lemma_count_due(self.timers(), now);
        let k = crate::timers::count_due(self.timers(), now) as int;
        assert forall|j: int| 0 <= j < not_expired(self.timers(), now).len() implies #[trigger] not_expired(
            self.timers(),
            now,
        )[j].0 > now by {
            assert(not_expired(self.timers(), now)[j] == self.timers()[j + k]);
        }
    }

    /// When a step of a valid loop waits, it waits without limit only when
    /// no timer is pending, and otherwise exactly until the earliest deadline,
    /// which lies after `now`.
    pub proof fn lemma_wait_bounded(&self, post: Self, now: u64, r: Step<C>)
        requires
            self.wf(),
            step_done(*self, post, now, r),
        ensures
            r matches Step::Wait(t) ==> {
                &&& t is None <==> self.timers().len() == 0
                &&& t matches Some(ms) ==> forall|j: int|
                    0 <= j < self.timers().len() ==> now < now + ms <= #[trigger] self.timers()[j].0
            },
    {
        self.lemma_wf_facts();
        crate::timers::lemma_count_due(self.timers(), now);
        if r is Wait && self.timers().len() > 0 {
            assert(step_queue(*self, now).len() == 0);
            assert(self.ready().len() == 0);
            assert(expired(self.timers(), now).len() == 0);
            assert(self.timers()[0].0 > now);
        }
    }

    /// With nothing pending, nothing is queued to run and no timer waits.
    pub proof fn lemma_idle(&self)
        requires
            self.wf(),
            self.pending() == 0,
        ensures
            self.callbacks().dom() == Set::<usize>::empty(),
            self.ready().len() == 0,
            self.timers().len() == 0,
    {
        self.callback_queue.lemma_size();
        assert(self.callbacks().dom() =~= Set::<usize>::empty());
        if self.ready().len() > 0 {
            assert(self.callbacks().contains_key(self.ready()[0].0));
        }
        if self.timers().len() > 0 {
            assert(self.callbacks().contains_key(self.timers()[0].1));
        }
    }

    /// One decision of the loop at time `now`. The oldest ready result is
    /// handed out with its continuation; with none ready, the timers due at
    /// `now` are queued first. With nothing to run the loop finishes when no
    /// callback is pending, and otherwise waits for the next event, no
    /// longer than the earliest deadline.
    pub fn poll_step(&mut self, now: u64) -> (r: Step<C>)
        requires
            old(self).wf(),
        ensures
            final(self).wf(),
            step_done(*old(self), *final(self), now, r),
    {
        let ghost pre = *self;
        if self.callbacks_to_run.len() == 0 {
            self.process_expired_timers(now);
            proof {
                if expired(pre.timers(), now).len() == 0 {
                    crate::timers::lemma_count_due(pre.timers(), now);
                    assert(not_expired(pre.timers(), now) =~= pre.timers());
                    assert(self.ready() =~= pre.ready());
                }
            }
        }
        proof {
            if pre.pending() == 0 {
                pre.lemma_idle();
                crate::timers::lemma_count_due(pre.timers(), now);
            }
        }
        match self.run_callback() {
            Some((h, cb, v)) => {
                proof {
                    self.lemma_fired_gone(h);
                }
                Step::Invoke(h, cb, v)
            },
            None => {
                if self.pending_events == 0 {
                    Step::Finished
                } else {
                    Step::Wait(self.get_next_timeout(now))
                }
            },
        }
    }

    /// A handle that is no longer pending is neither queued to run nor
    /// waiting on a timer, so nothing can invoke it again.
    pub proof fn lemma_fired_gone(&self, h: usize)
        requires
            self.wf(),
            !self.callbacks().contains_key(h),
        ensures
            !ready_handles(self.ready()).contains(h),
            !handles_of(self.timers()).contains(h),
    {
        if ready_handles(self.ready()).contains(h) {
            let i = choose|i: int| 0 <= i < self.ready().len() && ready_handles(self.ready())[i] == h;
            assert(self.callbacks().contains_key(self.ready()[i].0));
        }
        if handles_of(self.timers()).contains(h) {
            let i = choose|i: int| 0 <= i < self.timers().len() && handles_of(self.timers())[i] == h;
            assert(self.callbacks().contains_key(self.timers()[i].1));
        }
    }

    /// Takes the idle worker that comes last in the available list.
    fn get_available_thread(&mut self) -> (r: usize)
        requires
            old(self).available_threads@.len() > 0,
        ensures
            r == old(self).available_threads@.last(),
            final(self).available_threads@ == old(self).available_threads@.drop_last(),
            final(self).callbacks_to_run == old(self).callbacks_to_run,
            final(self).callback_queue == old(self).callback_queue,
            final(self).in_flight == old(self).in_flight,
            final(self).watches == old(self).watches,
            final(self).identity_token == old(self).identity_token,
            final(self).pending_events == old(self).pending_events,
            final(self).worker_count == old(self).worker_count,
            final(self).timers == old(self).timers,
    {
        match self.available_threads.pop() {
            Some(thread_id) => thread_id,
            None => 0,
        }
    }

    /// Moves every timer due at `now` to the ready queue with an undefined
    /// result, earliest deadline first.
    pub fn process_expired_timers(&mut self, now: u64)
        requires
            old(self).wf(),
        ensures
            final(self).wf(),
            final(self).ready() == with_undefined(old(self).ready(), expired(old(self).timers(), now)),
            final(self).timers() == not_expired(old(self).timers(), now),
            final(self).callbacks() == old(self).callbacks(),
            final(self).pending() == old(self).pending(),
            final(self).available() == old(self).available(),
            final(self).in_flight() == old(self).in_flight(),
            final(self).watches() == old(self).watches(),
            final(self).workers() == old(self).workers(),
            final(self).token() == old(self).token(),
    {
        let ghost pre = *self;
        proof {
            self.timers.lemma_sorted();
        }
        let due = self.timers.drain_expired(now);
        proof {
            crate::timers::lemma_drain_exact(pre.timers(), now);
            crate::timers::lemma_count_due(pre.timers(), now);
        }
        let mut i: usize = 0;
        while i < due.len()
            invariant
                i <= due@.len(),
                due@ == expired(pre.timers(), now),
                self.ready() == with_undefined(pre.ready(), due@.take(i as int)),
                self.timers() == not_expired(pre.timers(), now),
                self.callback_queue == pre.callback_queue,
                self.available_threads == pre.available_threads,
                self.in_flight == pre.in_flight,
                self.watches == pre.watches,
                self.identity_token == pre.identity_token,
                self.pending_events == pre.pending_events,
                self.worker_count == pre.worker_count,
                self.timers.wf(),
            decreases due@.len() - i,
        {
            self.callbacks_to_run.push((due[i], Js::Undefined));
            i = i + 1;
            assert(due@.take(i as int) =~= due@.take(i - 1).push(due@[i - 1]));
            assert(with_undefined(pre.ready(), due@.take(i as int)) =~= with_undefined(
                pre.ready(),
                due@.take(i - 1),
            ).push((due@[i - 1], Js::Undefined)));
        }
        proof {
            assert(due@.take(i as int) =~= due@);
            let k = crate::timers::count_due(pre.timers(), now) as int;
            let out = expired(pre.timers(), now);
            let rest = not_expired(pre.timers(), now);
            let r = self.ready();
            let n0 = pre.ready().len();
            assert forall|a: int| 0 <= a < r.len() implies #[trigger] ready_handles(r)[a] == (if a < n0 {
                pre.ready()[a].0
            } else {
                out[a - n0]
            }) by {}
            assert forall|a: int| 0 <= a < r.len() implies self.callbacks().contains_key(
                #[trigger] r[a].0) by {
                assert(ready_handles(r)[a] == r[a].0);
                if a < n0 {
                    assert(pre.callbacks().contains_key(pre.ready()[a].0));
                } else {
                    assert(pre.callbacks().contains_key(pre.timers()[a - n0].1));
                }
            }
            assert forall|a: int, b: int| 0 <= a < b < r.len() implies ready_handles(r)[a]
                != ready_handles(r)[b] by {
                if b < n0 {
                    assert(ready_handles(pre.ready())[a] == pre.ready()[a].0);
                    assert(ready_handles(pre.ready())[b] == pre.ready()[b].0);
                } else if a < n0 {
                    assert(pre.ready()[a].0 != pre.timers()[b - n0].1);
                } else {
                }
            }
            assert forall|j: int| 0 <= j < self.timers().len() implies self.callbacks().contains_key(
                #[trigger] self.timers()[j].1) by {
                assert(rest[j] == pre.timers()[j + k]);
                assert(pre.callbacks().contains_key(pre.timers()[j + k].1));
            }
            assert forall|a: int, j: int|
                0 <= a < r.len() && 0 <= j < self.timers().len() implies #[trigger] r[a].0
                != #[trigger] self.timers()[j].1 by {
                assert(rest[j] == pre.timers()[j + k]);
                assert(handles_of(rest)[j] == rest[j].1);
                if a < n0 {
                    assert(pre.ready()[a].0 != pre.timers()[j + k].1);
                } else {
                    assert(out.contains(out[a - n0]));
                }
            }
            assert forall|a: int, b: int| 0 <= a < b < handles_of(rest).len() implies handles_of(
                rest,
            )[a] != handles_of(rest)[b] by {
                assert(handles_of(rest)[a] == pre.timers()[a + k].1);
                assert(handles_of(rest)[b] == pre.timers()[b + k].1);
                assert(handles_of(pre.timers())[a + k] == pre.timers()[a + k].1);
                assert(handles_of(pre.timers())[b + k] == pre.timers()[b + k].1);
            }
        }
    }

    /// Removes the oldest ready result and hands it out with its handle's
    /// continuation, which leaves the registry.
    pub fn run_callback(&mut self) -> (r: Option<(usize, C, Js)>)
        requires
            old(self).wf(),
        ensures
            final(self).wf(),
            old(self).ready().len() == 0 ==> r is None && *final(self) == *old(self),
            old(self).ready().len() > 0 ==> {
                let (h, v) = old(self).ready()[0];
                &&& r == Some((h, old(self).callbacks()[h], v))
                &&& old(self).callbacks().contains_key(h)
                &&& final(self).callbacks() == old(self).callbacks().remove(h)
                &&& final(self).ready() == old(self).ready().drop_first()
                &&& final(self).pending() + 1 == old(self).pending()
                &&& final(self).timers() == old(self).timers()
                &&& final(self).available() == old(self).available()
                &&& final(self).in_flight() == old(self).in_flight()
                &&& final(self).watches() == old(self).watches()
                &&& final(self).workers() == old(self).workers()
                &&& final(self).token() == old(self).token()
            },
    {
        if self.callbacks_to_run.len() == 0 {
            return None;
        }
        let ghost pre = *self;
        let (callback_id, data) = self.callbacks_to_run.remove(0);
        proof {
            assert(pre.callbacks().contains_key(pre.ready()[0].0));
        }
        let cb = self.callback_queue.take(callback_id);
        self.pending_events = self.pending_events - 1;
        proof {
            let r = self.ready();
            assert forall|a: int| 0 <= a < r.len() implies self.callbacks().contains_key(
                #[trigger] r[a].0) by {
                assert(r[a] == pre.ready()[a + 1]);
                assert(pre.callbacks().contains_key(pre.ready()[a + 1].0));
                assert(ready_handles(pre.ready())[a + 1] == pre.ready()[a + 1].0);
                assert(ready_handles(pre.ready())[0] == pre.ready()[0].0);
            }
            assert forall|a: int, b: int| 0 <= a < b < r.len() implies ready_handles(r)[a]
                != ready_handles(r)[b] by {
                assert(ready_handles(pre.ready())[a + 1] == ready_handles(r)[a]);
                assert(ready_handles(pre.ready())[b + 1] == ready_handles(r)[b]);
            }
            assert forall|j: int| 0 <= j < self.timers().len() implies self.callbacks().contains_key(
                #[trigger] self.timers()[j].1) by {
                assert(pre.callbacks().contains_key(pre.timers()[j].1));
                assert(pre.ready()[0].0 != pre.timers()[j].1);
            }
            assert forall|a: int, j: int|
                0 <= a < r.len() && 0 <= j < self.timers().len() implies #[trigger] r[a].0
                != #[trigger] self.timers()[j].1 by {
                assert(r[a] == pre.ready()[a + 1]);
            }
        }
        Some((callback_id, cb, data))
    }

}

/// Scheduling a handle that no pending callback holds keeps the timer
/// handles distinct, and every entry is the new one or an old one.
proof fn lemma_timers_insert<C>(s: Seq<(u64, usize)>, d: u64, h: usize, cbs: Map<usize, C>)
    requires
        handles_of(s).no_duplicates(),
        forall|i: int| 0 <= i < s.len() ==> cbs.contains_key(#[trigger] s[i].1),
        !cbs.contains_key(h),
        crate::timers::count_due(s, d) <= s.len(),
    ensures
        handles_of(scheduled(s, d, h)).no_duplicates(),
        forall|i: int|
            0 <= i < scheduled(s, d, h).len() ==> (#[trigger] scheduled(s, d, h)[i].1 == h
                || cbs.contains_key(scheduled(s, d, h)[i].1)),
{
    let p = crate::timers::count_due(s, d) as int;
    let t = scheduled(s, d, h);
    assert forall|i: int| 0 <= i < t.len() implies (#[trigger] t[i].1 == h || cbs.contains_key(
        t[i].1,
    )) by {
        if i < p {
            assert(t[i] == s[i]);
        } else if i > p {
            assert(t[i] == s[i - 1]);
        }
    }
    assert forall|a: int, b: int| 0 <= a < b < t.len() implies handles_of(t)[a] != handles_of(
        t,
    )[b] by {
        assert(handles_of(t)[a] == t[a].1);
        assert(handles_of(t)[b] == t[b].1);
        let ia = if a < p {
            a
        } else {
            a - 1
        };
        let ib = if b < p {
            b
        } else {
            b - 1
        };
        if a != p && b != p {
            assert(t[a] == s[ia]);
            assert(t[b] == s[ib]);
            assert(handles_of(s)[ia] == s[ia].1);
            assert(handles_of(s)[ib] == s[ib].1);
        } else if a == p {
            assert(t[b] == s[ib]);
            assert(cbs.contains_key(s[ib].1));
        } else {
            assert(t[a] == s[ia]);
            assert(cbs.contains_key(s[ia].1));
        }
    }
}

/// Distinct offsets below the modulus land on distinct residues.
proof fn lemma_mod_distinct(a: int, i: int, j: int, m: int)
    requires
        0 <= a,
        0 <= i < j < m,
    ensures
        (a + i + 1) % m != (a + j + 1) % m,
{
    lemma_mod_equivalence(a + j + 1, a + i + 1, m);
    lemma_small_mod((j - i) as nat, m as nat);
}

/// Adding one after reducing agrees with reducing after adding one.
proof fn lemma_succ_mod(x: int, m: int)
    requires
        0 <= x,
        1 < m,
    ensures
        (x % m + 1) % m == (x + 1) % m,
        x % m + 1 == m ==> (x + 1) % m == 0,
        x % m + 1 < m ==> (x + 1) % m == x % m + 1,
{
    lemma_small_mod(1, m as nat);
    lemma_add_mod_noop(x, 1, m);
    vstd::arithmetic::div_mod::lemma_mod_pos_bound(x, m);
    if x % m + 1 == m {
        vstd::arithmetic::div_mod::lemma_mod_self_0(m);
    } else {
        lemma_small_mod((x % m + 1) as nat, m as nat);
    }
}

} // verus!
