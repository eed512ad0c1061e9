//! The scheduler core and runtime handle.
//!
//! A runtime owns an arena of task frames, a FIFO ready queue of task ids,
//! and the reactor's registration tables (descriptor interests and timer
//! deadlines). Stepping a task may complete it, storing its value in the
//! frame until the awaiting side consumes it exactly once.

use vstd::prelude::*;
use vstd::multiset::Multiset;

use crate::task::{Compute, Step, StepCtx, WakeRequest};

use std::collections::VecDeque;

verus! {

/// One task frame: phase of the task plus, after completion, its value.
pub enum Slot<C: Compute> {
    /// The task may still run; it owns its computation.
    Running(C),
    /// Transient marker while the scheduler has taken the computation out
    /// to step it; never visible outside one scheduling step.
    Stepping,
    /// The task completed; the value waits to be consumed.
    Done(C::Output),
    /// The task completed and its value was consumed; consuming again is
    /// the double-retrieval usage error and is reported, never silent.
    Taken,
}

/// A handle on a spawned task's eventual value.
///
/// Dropping it is harmless: the task keeps running and its frame stays in
/// the runtime's arena, so no wake can ever reach freed state.
pub struct JoinHandle {
    pub(crate) task: usize,
}

impl JoinHandle {
    /// The spawned task's id, as the contracts see it.
    pub closed spec fn spec_task(&self) -> usize {
        self.task
    }

    /// The spawned task's id.
    pub fn task_id(&self) -> (t: usize)
        ensures
            t == self.spec_task(),
    {
        self.task
    }
}

/// Outcome of polling a handle for its value.
pub enum JoinPoll<V> {
    /// The task completed; this call consumed its value.
    Ready(V),
    /// The task has not completed yet.
    Pending,
    /// The value was already consumed earlier, or the handle does not
    /// belong to this runtime: the double-retrieval error, reported loudly.
    Gone,
}

/// Why a `block_on` call gave up.
#[derive(Debug, PartialEq, Eq)]
pub enum RunError {
    /// The ready queue emptied with nothing registered with the reactor
    /// while the target task was still incomplete: a programming error in
    /// the task graph, reported rather than hanging silently.
    Stalled,
    /// The OS multiplex call or clock failed; holds the errno value.
    Sys(i32),
    /// The target task's value was consumed by someone else.
    ResultTaken,
    /// The scheduling budget ran out before the target completed.
    Exhausted,
}

/// A one-shot descriptor interest registered with the reactor.
#[derive(Clone, Copy)]
pub struct FdReg {
    /// Task to wake when the event fires.
    pub task: usize,
    /// The descriptor watched.
    pub fd: i32,
    /// Requested event mask (see [`crate::FD_IN`] and friends).
    pub mask: u8,
}

/// A one-shot timer registered with the reactor.
#[derive(Clone, Copy)]
pub struct TimerReg {
    /// Task to wake when the deadline passes.
    pub task: usize,
    /// Absolute deadline on the monotonic clock, in milliseconds.
    pub deadline_ms: u64,
}

/// The single-threaded cooperative runtime.
pub struct RuntimeHandle<C: Compute> {
    frames: Vec<Slot<C>>,
    waiters: Vec<Option<usize>>,
    queued: Vec<bool>,
    ready: VecDeque<usize>,
    fd_regs: Vec<FdReg>,
    timer_regs: Vec<TimerReg>,
    now_ms: u64,
    reactor_passes: u64,
}

/// The scheduler's task-visible state as plain views: what one step's
/// collected requests act on.
pub struct SchedState<C: Compute> {
    /// Task frames by id.
    pub frames: Seq<Slot<C>>,
    /// Stored continuations by id.
    pub waiters: Seq<Option<usize>>,
    /// Queued flags by id.
    pub queued: Seq<bool>,
    /// The FIFO ready queue, front first.
    pub ready: Seq<usize>,
    /// Pending descriptor interests, in registration order.
    pub fds: Seq<FdReg>,
    /// Pending timers, in registration order.
    pub timers: Seq<TimerReg>,
}

/// A registration for task `t` on `(fd, mask)` is among `fds`.
pub open spec fn reg_present(fds: Seq<FdReg>, t: usize, fd: i32, mask: u8) -> bool {
    exists|j: int| 0 <= j < fds.len() && fds[j] == (FdReg { task: t, fd: fd, mask: mask })
}

/// A timer for task `t` at `deadline_ms` is among `timers`.
pub open spec fn timer_present(timers: Seq<TimerReg>, t: usize, deadline_ms: u64) -> bool {
    exists|j: int|
        0 <= j < timers.len() && timers[j] == (TimerReg { task: t, deadline_ms: deadline_ms })
}

/// The exact effect of one request of the stepped task `me` on the
/// scheduler's state, and whether it consumed an already-completed
/// target's value (which goes to the stepped computation, so `me` must be
/// re-enqueued). Spawns allocate a new running frame queued at the back;
/// registrations are deduplicated (re-registration while pending is the
/// idempotent waker re-store) and dropped when the step is completing;
/// a completion subscription delivers at once from a completed target,
/// stores the subscriber in a live target's continuation slot (overwriting,
/// so only the most recent awaiter is notified), and leaves a consumed or
/// unknown target alone, so such an await can only stall, loudly.
pub open spec fn req_effect<C: Compute>(
    s: SchedState<C>,
    me: usize,
    req: WakeRequest<C>,
    completing: bool,
) -> (SchedState<C>, bool) {
    match req {
        WakeRequest::Spawn(c) => (
            SchedState {
                frames: s.frames.push(Slot::Running(c)),
                waiters: s.waiters.push(None),
                queued: s.queued.push(true),
                ready: s.ready.push(s.frames.len() as usize),
                fds: s.fds,
                timers: s.timers,
            },
            false,
        ),
        WakeRequest::Fd(fd, mask) => {
            if completing || reg_present(s.fds, me, fd, mask) {
                (s, false)
            } else {
                (
                    SchedState {
                        fds: s.fds.push(FdReg { task: me, fd: fd, mask: mask }),
                        frames: s.frames,
                        waiters: s.waiters,
                        queued: s.queued,
                        ready: s.ready,
                        timers: s.timers,
                    },
                    false,
                )
            }
        },
        WakeRequest::Deadline(d) => {
            if completing || timer_present(s.timers, me, d) {
                (s, false)
            } else {
                (
                    SchedState {
                        timers: s.timers.push(TimerReg { task: me, deadline_ms: d }),
                        frames: s.frames,
                        waiters: s.waiters,
                        queued: s.queued,
                        ready: s.ready,
                        fds: s.fds,
                    },
                    false,
                )
            }
        },
        WakeRequest::TaskDone(x) => {
            if !completing && x < s.frames.len() && s.frames[x as int] is Done {
                (
                    SchedState {
                        frames: s.frames.update(x as int, Slot::Taken),
                        waiters: s.waiters,
                        queued: s.queued,
                        ready: s.ready,
                        fds: s.fds,
                        timers: s.timers,
                    },
                    true,
                )
            } else if !completing && x < s.frames.len() && (s.frames[x as int] is Running
                || s.frames[x as int] is Stepping) {
                (
                    SchedState {
                        waiters: s.waiters.update(x as int, Some(me)),
                        frames: s.frames,
                        queued: s.queued,
                        ready: s.ready,
                        fds: s.fds,
                        timers: s.timers,
                    },
                    false,
                )
            } else {
                (s, false)
            }
        },
    }
}

/// The ready queue and queued flags after waking `tasks` in order: each
/// task that exists, still runs and is not yet queued is pushed at the
/// back; the others are left alone, so a wake never duplicates a queue
/// entry and never revives a completed task.
pub open spec fn wakes_applied<C: Compute>(
    frames: Seq<Slot<C>>,
    ready0: Seq<usize>,
    queued0: Seq<bool>,
    tasks: Seq<usize>,
) -> (Seq<usize>, Seq<bool>)
    decreases tasks.len(),
{
    if tasks.len() == 0 {
        (ready0, queued0)
    } else {
        let (r1, q1) = wakes_applied(frames, ready0, queued0, tasks.drop_last());
        let t = tasks.last();
        if t < frames.len() && frames[t as int] is Running && !q1[t as int] {
            (r1.push(t), q1.update(t as int, true))
        } else {
            (r1, q1)
        }
    }
}

/// After the wakes, every named task that still runs is queued.
proof fn lemma_wakes_queued<C: Compute>(
    frames: Seq<Slot<C>>,
    ready0: Seq<usize>,
    queued0: Seq<bool>,
    tasks: Seq<usize>,
)
    requires
        queued0.len() == frames.len(),
    ensures
        ({
            let (r1, q1) = wakes_applied(frames, ready0, queued0, tasks);
            &&& q1.len() == frames.len()
            &&& (forall|i: int|
                0 <= i < tasks.len() && (#[trigger] tasks[i]) < frames.len()
                    && frames[tasks[i] as int] is Running ==> q1[tasks[i] as int])
            &&& (forall|t: int| 0 <= t < queued0.len() && queued0[t] ==> #[trigger] q1[t])
        }),
    decreases tasks.len(),
{
    if tasks.len() > 0 {
        lemma_wakes_queued(frames, ready0, queued0, tasks.drop_last());
        let (r1, q1) = wakes_applied(frames, ready0, queued0, tasks.drop_last());
        let (r2, q2) = wakes_applied(frames, ready0, queued0, tasks);
        assert forall|i: int|
            0 <= i < tasks.len() && (#[trigger] tasks[i]) < frames.len()
                && frames[tasks[i] as int] is Running implies q2[tasks[i] as int] by {
            if i < tasks.len() - 1 {
                assert(tasks.drop_last()[i] == tasks[i]);
                assert(q1[tasks[i] as int]);
            }
        }
    }
}

/// The exact effect of applying a request list in order, folding
/// [`req_effect`]; the second component reports whether any request
/// delivered a value to the stepped computation.
pub open spec fn reqs_effect<C: Compute>(
    s: SchedState<C>,
    me: usize,
    reqs: Seq<WakeRequest<C>>,
    completing: bool,
) -> (SchedState<C>, bool)
    decreases reqs.len(),
{
    if reqs.len() == 0 {
        (s, false)
    } else {
        let (mid, w) = reqs_effect(s, me, reqs.drop_last(), completing);
        let (fin, d) = req_effect(mid, me, reqs.last(), completing);
        (fin, w || d)
    }
}

impl<C: Compute> RuntimeHandle<C> {
    /// The task frames, indexed by task id, as the contracts see them.
    pub closed spec fn frames_view(&self) -> Seq<Slot<C>> {
        self.frames@
    }

    /// Stored continuations: `waiters_view()[t]` is the task to wake when
    /// task `t` completes.
    pub closed spec fn waiters_view(&self) -> Seq<Option<usize>> {
        self.waiters@
    }

    /// Which tasks currently sit in the ready queue.
    pub closed spec fn queued_view(&self) -> Seq<bool> {
        self.queued@
    }

    /// The FIFO ready queue, front first.
    pub closed spec fn ready_view(&self) -> Seq<usize> {
        self.ready@
    }

    /// Pending descriptor interests, in registration order.
    pub closed spec fn fd_view(&self) -> Seq<FdReg> {
        self.fd_regs@
    }

    /// Pending timers, in registration order.
    pub closed spec fn timer_view(&self) -> Seq<TimerReg> {
        self.timer_regs@
    }

    /// Latest observed monotonic time, in milliseconds.
    pub closed spec fn now_view(&self) -> u64 {
        self.now_ms
    }

    /// How many times the runtime has blocked on the OS multiplex call.
    pub closed spec fn passes_view(&self) -> u64 {
        self.reactor_passes
    }

    /// Well-formedness, with `stepping` naming the one frame whose
    /// computation is temporarily taken out mid-step.
    pub open spec fn wf_at(&self, stepping: Option<int>) -> bool {
        &&& self.waiters_view().len() == self.frames_view().len()
        &&& self.queued_view().len() == self.frames_view().len()
        &&& (forall|i: int|
            0 <= i < self.ready_view().len() ==> (#[trigger] self.ready_view()[i])
                < self.frames_view().len())
        &&& (forall|i: int|
            0 <= i < self.ready_view().len() ==> self.frames_view()[#[trigger] self.ready_view()[i] as int] is Running)
        &&& (forall|i: int|
            0 <= i < self.ready_view().len() ==> self.queued_view()[#[trigger] self.ready_view()[i] as int])
        &&& (forall|i: int, j: int|
            0 <= i < j < self.ready_view().len() ==> self.ready_view()[i] != self.ready_view()[j])
        &&& (forall|t: int|
            0 <= t < self.queued_view().len() && #[trigger] self.queued_view()[t]
                ==> self.ready_view().contains(t as usize))
        &&& (forall|i: int|
            0 <= i < self.fd_view().len() ==> (#[trigger] self.fd_view()[i]).task
                < self.frames_view().len())
        &&& (forall|i: int|
            0 <= i < self.timer_view().len() ==> (#[trigger] self.timer_view()[i]).task
                < self.frames_view().len())
        &&& (forall|t: int|
            0 <= t < self.waiters_view().len() ==> ((#[trigger] self.waiters_view()[t]) matches Some(
                w,
            ) ==> w < self.frames_view().len()))
        &&& (forall|t: int|
            0 <= t < self.frames_view().len() ==> ((#[trigger] self.frames_view()[t]) is Stepping
                <==> stepping == Some(t)))
    }

    /// Well-formedness between scheduling steps.
    pub open spec fn wf(&self) -> bool {
        self.wf_at(None)
    }

    /// Task `t` would actually be enqueued by a wake: it exists, may still
    /// run, and is not already queued.
    pub open spec fn wakeable(&self, t: int) -> bool {
        &&& 0 <= t < self.frames_view().len()
        &&& self.frames_view()[t] is Running
        &&& !self.queued_view()[t]
    }

    /// Registration task bounds survive any change that keeps the
    /// registration tables and does not shrink the frame arena.
    proof fn lemma_reg_bounds_weaken(pre: Self, post: Self)
        requires
            post.fd_view() == pre.fd_view(),
            post.timer_view() == pre.timer_view(),
            pre.frames_view().len() <= post.frames_view().len(),
            forall|i: int|
                0 <= i < pre.fd_view().len() ==> (#[trigger] pre.fd_view()[i]).task
                    < pre.frames_view().len(),
            forall|i: int|
                0 <= i < pre.timer_view().len() ==> (#[trigger] pre.timer_view()[i]).task
                    < pre.frames_view().len(),
        ensures
            forall|i: int|
                0 <= i < post.fd_view().len() ==> (#[trigger] post.fd_view()[i]).task
                    < post.frames_view().len(),
            forall|i: int|
                0 <= i < post.timer_view().len() ==> (#[trigger] post.timer_view()[i]).task
                    < post.frames_view().len(),
    {
        assert forall|i: int| 0 <= i < post.fd_view().len() implies (#[trigger] post.fd_view()[i]).task
            < post.frames_view().len() by {
            assert(post.fd_view()[i] == pre.fd_view()[i]);
        }
        assert forall|i: int|
            0 <= i < post.timer_view().len() implies (#[trigger] post.timer_view()[i]).task
            < post.frames_view().len() by {
            assert(post.timer_view()[i] == pre.timer_view()[i]);
        }
    }

    /// All running tasks hold immediately-ready computations and no task
    /// awaits another: the pure queue-draining regime.
    pub open spec fn all_immediate_idle(&self) -> bool {
        &&& (forall|t: int|
            0 <= t < self.frames_view().len() ==> ((#[trigger] self.frames_view()[t]) matches Slot::Running(c)
                ==> c.immediate()))
        &&& (forall|t: int|
            0 <= t < self.waiters_view().len() ==> (#[trigger] self.waiters_view()[t]) is None)
    }

    /// A registration for task `t` on `(fd, mask)` is pending.
    pub open spec fn has_fd_reg(&self, t: usize, fd: i32, mask: u8) -> bool {
        reg_present(self.fd_view(), t, fd, mask)
    }

    /// A timer for task `t` at `deadline_ms` is pending.
    pub open spec fn has_timer_reg(&self, t: usize, deadline_ms: u64) -> bool {
        timer_present(self.timer_view(), t, deadline_ms)
    }

    /// Well-formedness only reads the views, so it carries over between
    /// states whose views agree.
    proof fn lemma_wf_views(pre: Self, post: Self, stepping: Option<int>)
        requires
            pre.wf_at(stepping),
            post.frames_view() == pre.frames_view(),
            post.waiters_view() == pre.waiters_view(),
            post.queued_view() == pre.queued_view(),
            post.ready_view() == pre.ready_view(),
            post.fd_view() == pre.fd_view(),
            post.timer_view() == pre.timer_view(),
        ensures
            post.wf_at(stepping),
    {
        assert forall|i: int|
            0 <= i < post.ready_view().len() implies (#[trigger] post.ready_view()[i])
            < post.frames_view().len() && post.frames_view()[post.ready_view()[i] as int] is Running
            && post.queued_view()[post.ready_view()[i] as int] by {
            assert(post.ready_view()[i] == pre.ready_view()[i]);
        }
        assert forall|t: int|
            0 <= t < post.queued_view().len() && #[trigger] post.queued_view()[t]
                implies post.ready_view().contains(t as usize) by {
            assert(pre.queued_view()[t]);
            let j = choose|j: int|
                0 <= j < pre.ready_view().len() && pre.ready_view()[j] == t as usize;
            assert(post.ready_view()[j] == t as usize);
        }
        Self::lemma_reg_bounds_weaken(pre, post);
        assert forall|t: int|
            0 <= t < post.waiters_view().len() implies ((#[trigger] post.waiters_view()[t]) matches Some(
                w,
            ) ==> w < post.frames_view().len()) by {
            assert(post.waiters_view()[t] == pre.waiters_view()[t]);
        }
        assert forall|t: int|
            0 <= t < post.frames_view().len() implies ((#[trigger] post.frames_view()[t]) is Stepping
                <==> stepping == Some(t)) by {
            assert(post.frames_view()[t] == pre.frames_view()[t]);
        }
    }

    /// Changing only the registration tables keeps the runtime well-formed,
    /// provided every registration still names an existing task.
    proof fn lemma_regs_changed(pre: Self, post: Self, stepping: Option<int>)
        requires
            pre.wf_at(stepping),
            post.frames_view() == pre.frames_view(),
            post.waiters_view() == pre.waiters_view(),
            post.queued_view() == pre.queued_view(),
            post.ready_view() == pre.ready_view(),
            forall|i: int|
                0 <= i < post.fd_view().len() ==> (#[trigger] post.fd_view()[i]).task
                    < post.frames_view().len(),
            forall|i: int|
                0 <= i < post.timer_view().len() ==> (#[trigger] post.timer_view()[i]).task
                    < post.frames_view().len(),
        ensures
            post.wf_at(stepping),
    {
        assert forall|i: int|
            0 <= i < post.ready_view().len() implies (#[trigger] post.ready_view()[i])
            < post.frames_view().len() && post.frames_view()[post.ready_view()[i] as int] is Running
            && post.queued_view()[post.ready_view()[i] as int] by {
            assert(post.ready_view()[i] == pre.ready_view()[i]);
        }
        assert forall|t: int|
            0 <= t < post.queued_view().len() && #[trigger] post.queued_view()[t]
                implies post.ready_view().contains(t as usize) by {
            assert(pre.queued_view()[t]);
            let j = choose|j: int|
                0 <= j < pre.ready_view().len() && pre.ready_view()[j] == t as usize;
            assert(post.ready_view()[j] == t as usize);
        }
        assert forall|t: int|
            0 <= t < post.waiters_view().len() implies ((#[trigger] post.waiters_view()[t]) matches Some(
                w,
            ) ==> w < post.frames_view().len()) by {
            assert(post.waiters_view()[t] == pre.waiters_view()[t]);
        }
        assert forall|t: int|
            0 <= t < post.frames_view().len() implies ((#[trigger] post.frames_view()[t]) is Stepping
                <==> stepping == Some(t)) by {
            assert(post.frames_view()[t] == pre.frames_view()[t]);
        }
    }

    /// Storing a bounded continuation in one frame's waiter slot keeps the
    /// runtime well-formed.
    proof fn lemma_waiter_set(pre: Self, post: Self, stepping: Option<int>, x: int, wv: Option<
        usize,
    >)
        requires
            pre.wf_at(stepping),
            0 <= x < pre.waiters_view().len(),
            wv matches Some(w) ==> w < pre.frames_view().len(),
            post.waiters_view() == pre.waiters_view().update(x, wv),
            post.frames_view() == pre.frames_view(),
            post.queued_view() == pre.queued_view(),
            post.ready_view() == pre.ready_view(),
            post.fd_view() == pre.fd_view(),
            post.timer_view() == pre.timer_view(),
        ensures
            post.wf_at(stepping),
    {
        assert forall|i: int|
            0 <= i < post.ready_view().len() implies (#[trigger] post.ready_view()[i])
            < post.frames_view().len() && post.frames_view()[post.ready_view()[i] as int] is Running
            && post.queued_view()[post.ready_view()[i] as int] by {
            assert(post.ready_view()[i] == pre.ready_view()[i]);
        }
        assert forall|t: int|
            0 <= t < post.queued_view().len() && #[trigger] post.queued_view()[t]
                implies post.ready_view().contains(t as usize) by {
            assert(pre.queued_view()[t]);
            let j = choose|j: int|
                0 <= j < pre.ready_view().len() && pre.ready_view()[j] == t as usize;
            assert(post.ready_view()[j] == t as usize);
        }
        Self::lemma_reg_bounds_weaken(pre, post);
        assert forall|t: int|
            0 <= t < post.waiters_view().len() implies ((#[trigger] post.waiters_view()[t]) matches Some(
                w,
            ) ==> w < post.frames_view().len()) by {
            if t != x {
                assert(post.waiters_view()[t] == pre.waiters_view()[t]);
            }
        }
        assert forall|t: int|
            0 <= t < post.frames_view().len() implies ((#[trigger] post.frames_view()[t]) is Stepping
                <==> stepping == Some(t)) by {
            assert(post.frames_view()[t] == pre.frames_view()[t]);
        }
    }

    /// Putting any non-transient slot back into the stepped frame restores
    /// full well-formedness: the stepped task is never in the ready queue.
    proof fn lemma_restore(pre: Self, post: Self, me: usize, slot: Slot<C>)
        requires
            pre.wf_at(Some(me as int)),
            me < pre.frames_view().len(),
            !(slot is Stepping),
            post.frames_view() == pre.frames_view().update(me as int, slot),
            post.ready_view() == pre.ready_view(),
            post.queued_view() == pre.queued_view(),
            post.waiters_view() == pre.waiters_view(),
            post.fd_view() == pre.fd_view(),
            post.timer_view() == pre.timer_view(),
        ensures
            post.wf_at(if slot is Stepping { Some(me as int) } else { None::<int> }),
            !pre.queued_view()[me as int],
            !pre.ready_view().contains(me as usize),
    {
        assert(pre.frames_view()[me as int] is Stepping);
        assert forall|i: int|
            0 <= i < pre.ready_view().len() implies (#[trigger] pre.ready_view()[i]) != me as usize by {
            assert(pre.frames_view()[pre.ready_view()[i] as int] is Running);
        }
        assert(!pre.ready_view().contains(me as usize)) by {
            if pre.ready_view().contains(me as usize) {
                let i = choose|i: int|
                    0 <= i < pre.ready_view().len() && pre.ready_view()[i] == me as usize;
                assert(pre.ready_view()[i] != me as usize);
            }
        }
        assert(!pre.queued_view()[me as int]) by {
            if pre.queued_view()[me as int] {
                assert(pre.ready_view().contains(me as usize));
            }
        }
        assert forall|i: int|
            0 <= i < post.ready_view().len() implies post.frames_view()[#[trigger] post.ready_view()[i] as int] is Running by {
            assert(pre.ready_view()[i] != me as usize);
            assert(pre.frames_view()[pre.ready_view()[i] as int] is Running);
        }
        Self::lemma_reg_bounds_weaken(pre, post);
    }

    /// Creates a new runtime with no tasks and nothing registered.
    pub fn new() -> (rt: Self)
        ensures
            rt.wf(),
            rt.frames_view() == Seq::<Slot<C>>::empty(),
            rt.waiters_view() == Seq::<Option<usize>>::empty(),
            rt.queued_view() == Seq::<bool>::empty(),
            rt.ready_view() == Seq::<usize>::empty(),
            rt.fd_view() == Seq::<FdReg>::empty(),
            rt.timer_view() == Seq::<TimerReg>::empty(),
            rt.now_view() == 0,
            rt.passes_view() == 0,
    {
        RuntimeHandle {
            frames: Vec::new(),
            waiters: Vec::new(),
            queued: Vec::new(),
            ready: VecDeque::new(),
            fd_regs: Vec::new(),
            timer_regs: Vec::new(),
            now_ms: 0,
            reactor_passes: 0,
        }
    }

    /// Creates a new task in the running phase wrapping `c`, pushes it to
    /// the back of the ready queue, and returns a handle on its eventual
    /// value. Never fails.
    pub fn spawn(&mut self, c: C) -> (h: JoinHandle)
        requires
            old(self).wf(),
        ensures
            final(self).wf(),
            h.spec_task() == old(self).frames_view().len(),
            final(self).frames_view() == old(self).frames_view().push(Slot::Running(c)),
            final(self).waiters_view() == old(self).waiters_view().push(None),
            final(self).queued_view() == old(self).queued_view().push(true),
            final(self).ready_view() == old(self).ready_view().push(h.spec_task()),
            final(self).fd_view() == old(self).fd_view(),
            final(self).timer_view() == old(self).timer_view(),
            final(self).now_view() == old(self).now_view(),
            final(self).passes_view() == old(self).passes_view(),
    {
        let t = self.push_task(c, Ghost(None));
        JoinHandle { task: t }
    }

    /// Allocates a frame for `c` and enqueues it, also usable while one
    /// frame's computation is taken out for stepping.
    fn push_task(&mut self, c: C, Ghost(stepping): Ghost<Option<int>>) -> (t: usize)
        requires
            old(self).wf_at(stepping),
            stepping matches Some(m) ==> 0 <= m < old(self).frames_view().len(),
        ensures
            final(self).wf_at(stepping),
            t == old(self).frames_view().len(),
            final(self).frames_view() == old(self).frames_view().push(Slot::Running(c)),
            final(self).waiters_view() == old(self).waiters_view().push(None),
            final(self).queued_view() == old(self).queued_view().push(true),
            final(self).ready_view() == old(self).ready_view().push(t),
            final(self).fd_view() == old(self).fd_view(),
            final(self).timer_view() == old(self).timer_view(),
            final(self).now_view() == old(self).now_view(),
            final(self).passes_view() == old(self).passes_view(),
    {
        let t = self.frames.len();
        self.frames.push(Slot::Running(c));
        self.waiters.push(None);
        self.queued.push(true);
        self.ready.push_back(t);
        proof {
            Self::lemma_reg_bounds_weaken(*old(self), *final(self));
            assert(final(self).ready_view().last() == t);
            assert forall|tt: int|
                0 <= tt < final(self).frames_view().len() implies ((
            #[trigger] final(self).frames_view()[tt]) is Stepping <==> stepping == Some(tt)) by {
                if tt < old(self).frames_view().len() {
                    assert(final(self).frames_view()[tt] == old(self).frames_view()[tt]);
                } else {
                    assert(final(self).frames_view()[tt] is Running);
                }
            }
            assert forall|tt: int|
                0 <= tt < final(self).queued_view().len() && final(self).queued_view()[tt]
                    implies final(self).ready_view().contains(tt as usize) by {
                if tt < old(self).queued_view().len() {
                    assert(old(self).ready_view().contains(tt as usize));
                    let i = choose|i: int|
                        0 <= i < old(self).ready_view().len() && old(self).ready_view()[i] == tt as usize;
                    assert(final(self).ready_view()[i] == tt as usize);
                } else {
                    assert(final(self).ready_view()[final(self).ready_view().len() - 1] == tt as usize);
                }
            }
        }
        t
    }

    /// Marks task `t` ready and enqueues it. Waking a completed or unknown
    /// task is a tolerated no-op, and waking a task already in the queue
    /// never duplicates it.
    pub fn wake(&mut self, t: usize)
        requires
            old(self).wf(),
        ensures
            final(self).wf(),
            final(self).frames_view() == old(self).frames_view(),
            final(self).waiters_view() == old(self).waiters_view(),
            final(self).fd_view() == old(self).fd_view(),
            final(self).timer_view() == old(self).timer_view(),
            final(self).now_view() == old(self).now_view(),
            final(self).passes_view() == old(self).passes_view(),
            old(self).wakeable(t as int) ==> final(self).ready_view() == old(self).ready_view().push(t) && final(self).queued_view() == old(self).queued_view().update(
                t as int,
                true,
            ),
            !old(self).wakeable(t as int) ==> final(self).ready_view() == old(self).ready_view()
                && final(self).queued_view() == old(self).queued_view(),
    {
        if t < self.frames.len() {
            let runnable = match &self.frames[t] {
                Slot::Running(_) => true,
                _ => false,
            };
            if runnable && !self.queued[t] {
                self.queued.set(t, true);
                self.ready.push_back(t);
                proof {
                    Self::lemma_reg_bounds_weaken(*old(self), *final(self));
                    assert forall|tt: int|
                        0 <= tt < final(self).queued_view().len() && final(self).queued_view()[tt]
                            implies final(self).ready_view().contains(tt as usize) by {
                        if tt == t as int {
                            assert(final(self).ready_view().last() == t);
                        } else {
                            assert(old(self).queued_view()[tt]);
                            let i = choose|i: int|
                                0 <= i < old(self).ready_view().len() && old(self).ready_view()[i]
                                    == tt as usize;
                            assert(final(self).ready_view()[i] == tt as usize);
                        }
                    }
                }
            }
        }
    }

    /// Releases the task behind the handle, consuming the handle: the
    /// frame keeps only a consumed stub, so the computation or unclaimed
    /// value is dropped, the stored continuation is cleared, any ready
    /// queue entry is removed, and the task's reactor registrations are
    /// released, so no wake can dangle into released state. A handle from
    /// another runtime releases nothing.
    pub fn release(&mut self, h: JoinHandle)
        requires
            old(self).wf(),
        ensures
            final(self).wf(),
            final(self).now_view() == old(self).now_view(),
            final(self).passes_view() == old(self).passes_view(),
            h.spec_task() >= old(self).frames_view().len() ==> *final(self) == *old(self),
            h.spec_task() < old(self).frames_view().len() ==> ({
                let t = h.spec_task() as int;
                &&& final(self).frames_view() == old(self).frames_view().update(t, Slot::Taken)
                &&& final(self).waiters_view() == old(self).waiters_view().update(t, None)
                &&& final(self).queued_view() == old(self).queued_view().update(t, false)
                &&& (old(self).queued_view()[t] ==> exists|j: int|
                    0 <= j < old(self).ready_view().len() && old(self).ready_view()[j]
                        == h.spec_task() && final(self).ready_view() == old(
                        self,
                    ).ready_view().remove(j))
                &&& (!old(self).queued_view()[t] ==> final(self).ready_view() == old(
                    self,
                ).ready_view())
                &&& final(self).fd_view() == old(self).fd_view().filter(
                    |reg: FdReg| reg.task != h.spec_task(),
                )
                &&& final(self).timer_view() == old(self).timer_view().filter(
                    |reg: TimerReg| reg.task != h.spec_task(),
                )
            }),
    {
        let t = h.task_id();
        if t >= self.frames.len() {
            return ;
        }
        self.frames.set(t, Slot::Taken);
        self.waiters.set(t, None);
        if self.queued[t] {
            let mut j: usize = 0;
            let mut found: usize = 0;
            let mut have: bool = false;
            while j < self.ready.len() && !have
                invariant
                    j <= self.ready_view().len(),
                    have ==> found < self.ready_view().len() && self.ready_view()[found as int]
                        == t,
                    !have ==> forall|i: int| 0 <= i < j ==> self.ready_view()[i] != t,
                decreases self.ready_view().len() - j,
            {
                if self.ready[j] == t {
                    found = j;
                    have = true;
                }
                j += 1;
            }
            proof {
                assert(have) by {
                    assert(old(self).ready_view().contains(t));
                    let w = choose|w: int|
                        0 <= w < old(self).ready_view().len() && old(self).ready_view()[w] == t;
                    if !have {
                        assert(self.ready_view()[w] != t);
                    }
                }
            }
            let ghost preremove = self.ready_view();
            self.ready.remove(found);
            self.queued.set(t, false);
            proof {
                assert(self.ready_view() =~= preremove.remove(found as int));
            }
        }
        let ghost mid = *self;
        self.purge_fd_regs(t);
        self.purge_timer_regs(t);
        proof {
            let tt = t as int;
            let pre = *old(self);
            assert forall|i: int|
                0 <= i < self.ready_view().len() implies (#[trigger] self.ready_view()[i])
                < self.frames_view().len() && self.frames_view()[self.ready_view()[i] as int] is Running
                && self.queued_view()[self.ready_view()[i] as int] by {
                if pre.queued_view()[tt] {
                    let j = choose|j: int|
                        0 <= j < pre.ready_view().len() && pre.ready_view()[j] == t
                            && mid.ready_view() == pre.ready_view().remove(j);
                    pre.ready_view().remove_ensures(j);
                    let src = if i < j {
                        i
                    } else {
                        i + 1
                    };
                    assert(self.ready_view()[i] == pre.ready_view()[src]);
                    assert(pre.ready_view()[src] != t) by {
                        if src != j {
                            assert(pre.ready_view()[j] == t);
                        }
                    }
                } else {
                    assert(self.ready_view()[i] == pre.ready_view()[i]);
                    assert(pre.ready_view()[i] != t) by {
                        if pre.ready_view()[i] == t {
                            assert(pre.queued_view()[tt]);
                        }
                    }
                }
            }
            assert forall|i: int, j2: int|
                0 <= i < j2 < self.ready_view().len() implies self.ready_view()[i]
                != self.ready_view()[j2] by {
                if pre.queued_view()[tt] {
                    let j = choose|j: int|
                        0 <= j < pre.ready_view().len() && pre.ready_view()[j] == t
                            && mid.ready_view() == pre.ready_view().remove(j);
                    pre.ready_view().remove_ensures(j);
                    let si = if i < j {
                        i
                    } else {
                        i + 1
                    };
                    let sj = if j2 < j {
                        j2
                    } else {
                        j2 + 1
                    };
                    assert(self.ready_view()[i] == pre.ready_view()[si]);
                    assert(self.ready_view()[j2] == pre.ready_view()[sj]);
                }
            }
            assert forall|x: int|
                0 <= x < self.queued_view().len() && #[trigger] self.queued_view()[x]
                    implies self.ready_view().contains(x as usize) by {
                assert(x != tt);
                assert(pre.queued_view()[x]);
                let w = choose|w: int|
                    0 <= w < pre.ready_view().len() && pre.ready_view()[w] == x as usize;
                if pre.queued_view()[tt] {
                    let j = choose|j: int|
                        0 <= j < pre.ready_view().len() && pre.ready_view()[j] == t
                            && mid.ready_view() == pre.ready_view().remove(j);
                    pre.ready_view().remove_ensures(j);
                    assert(w != j);
                    if w < j {
                        assert(self.ready_view()[w] == x as usize);
                    } else {
                        assert(self.ready_view()[w - 1] == x as usize);
                    }
                } else {
                    assert(self.ready_view()[w] == x as usize);
                }
            }
            assert forall|i: int|
                0 <= i < self.fd_view().len() implies (#[trigger] self.fd_view()[i]).task
                < self.frames_view().len() by {
                broadcast use vstd::seq_lib::group_filter_ensures;

                assert(mid.fd_view().contains(self.fd_view()[i])) by {
                    Seq::lemma_filter_contains_rev(
                        mid.fd_view(),
                        |reg: FdReg| reg.task != t,
                        self.fd_view()[i],
                    );
                }
                let w = choose|w: int|
                    0 <= w < mid.fd_view().len() && mid.fd_view()[w] == self.fd_view()[i];
                assert(pre.fd_view()[w].task < pre.frames_view().len());
            }
            assert forall|i: int|
                0 <= i < self.timer_view().len() implies (#[trigger] self.timer_view()[i]).task
                < self.frames_view().len() by {
                broadcast use vstd::seq_lib::group_filter_ensures;

                assert(mid.timer_view().contains(self.timer_view()[i])) by {
                    Seq::lemma_filter_contains_rev(
                        mid.timer_view(),
                        |reg: TimerReg| reg.task != t,
                        self.timer_view()[i],
                    );
                }
                let w = choose|w: int|
                    0 <= w < mid.timer_view().len() && mid.timer_view()[w] == self.timer_view()[i];
                assert(pre.timer_view()[w].task < pre.frames_view().len());
            }
            assert forall|x: int|
                0 <= x < self.waiters_view().len() implies ((#[trigger] self.waiters_view()[x]) matches Some(
                    w,
                ) ==> w < self.frames_view().len()) by {
                if x != tt {
                    assert(self.waiters_view()[x] == pre.waiters_view()[x]);
                }
            }
            assert forall|x: int|
                0 <= x < self.frames_view().len() implies !((#[trigger] self.frames_view()[x]) is Stepping) by {
                if x != tt {
                    assert(self.frames_view()[x] == pre.frames_view()[x]);
                }
            }
        }
    }

    /// Drops every descriptor registration of task `t`, keeping the others
    /// in order.
    fn purge_fd_regs(&mut self, t: usize)
        ensures
            final(self).fd_view() == old(self).fd_view().filter(|reg: FdReg| reg.task != t),
            final(self).frames_view() == old(self).frames_view(),
            final(self).waiters_view() == old(self).waiters_view(),
            final(self).queued_view() == old(self).queued_view(),
            final(self).ready_view() == old(self).ready_view(),
            final(self).timer_view() == old(self).timer_view(),
            final(self).now_view() == old(self).now_view(),
            final(self).passes_view() == old(self).passes_view(),
    {
        let ghost keep_p = |reg: FdReg| reg.task != t;
        let mut kept: Vec<FdReg> = Vec::new();
        let mut i: usize = 0;
        while i < self.fd_regs.len()
            invariant
                *self == *old(self),
                i <= self.fd_view().len(),
                keep_p == (|reg: FdReg| reg.task != t),
                kept@ == self.fd_view().take(i as int).filter(keep_p),
            decreases self.fd_view().len() - i,
        {
            let reg = self.fd_regs[i];
            proof {
                reveal(Seq::filter);
                let t1 = self.fd_view().take(i + 1);
                assert(t1.drop_last() =~= self.fd_view().take(i as int));
                assert(t1.last() == reg);
            }
            if reg.task != t {
                kept.push(reg);
            }
            i += 1;
        }
        proof {
            assert(self.fd_view().take(self.fd_view().len() as int) =~= self.fd_view());
        }
        self.fd_regs = kept;
    }

    /// Drops every timer registration of task `t`, keeping the others in
    /// order.
    fn purge_timer_regs(&mut self, t: usize)
        ensures
            final(self).timer_view() == old(self).timer_view().filter(
                |reg: TimerReg| reg.task != t,
            ),
            final(self).frames_view() == old(self).frames_view(),
            final(self).waiters_view() == old(self).waiters_view(),
            final(self).queued_view() == old(self).queued_view(),
            final(self).ready_view() == old(self).ready_view(),
            final(self).fd_view() == old(self).fd_view(),
            final(self).now_view() == old(self).now_view(),
            final(self).passes_view() == old(self).passes_view(),
    {
        let ghost keep_p = |reg: TimerReg| reg.task != t;
        let mut kept: Vec<TimerReg> = Vec::new();
        let mut i: usize = 0;
        while i < self.timer_regs.len()
            invariant
                *self == *old(self),
                i <= self.timer_view().len(),
                keep_p == (|reg: TimerReg| reg.task != t),
                kept@ == self.timer_view().take(i as int).filter(keep_p),
            decreases self.timer_view().len() - i,
        {
            let reg = self.timer_regs[i];
            proof {
                reveal(Seq::filter);
                let t1 = self.timer_view().take(i + 1);
                assert(t1.drop_last() =~= self.timer_view().take(i as int));
                assert(t1.last() == reg);
            }
            if reg.task != t {
                kept.push(reg);
            }
            i += 1;
        }
        proof {
            assert(self.timer_view().take(self.timer_view().len() as int) =~= self.timer_view());
        }
        self.timer_regs = kept;
    }

    /// Polls the handle for the task's value: consumes and returns it on
    /// the first poll after completion; reports `Gone` on any later poll
    /// instead of returning a stale value.
    pub fn try_join(&mut self, h: &JoinHandle) -> (r: JoinPoll<C::Output>)
        requires
            old(self).wf(),
        ensures
            final(self).wf(),
            final(self).waiters_view() == old(self).waiters_view(),
            final(self).queued_view() == old(self).queued_view(),
            final(self).ready_view() == old(self).ready_view(),
            final(self).fd_view() == old(self).fd_view(),
            final(self).timer_view() == old(self).timer_view(),
            final(self).now_view() == old(self).now_view(),
            final(self).passes_view() == old(self).passes_view(),
            ({
                let t = h.spec_task() as int;
                if t < old(self).frames_view().len() {
                    if old(self).frames_view()[t] is Done {
                        &&& r == JoinPoll::Ready(old(self).frames_view()[t]->Done_0)
                        &&& final(self).frames_view() == old(self).frames_view().update(
                            t,
                            Slot::Taken,
                        )
                    } else {
                        &&& final(self).frames_view() == old(self).frames_view()
                        &&& (old(self).frames_view()[t] is Taken ==> r == JoinPoll::<
                            C::Output,
                        >::Gone)
                        &&& (old(self).frames_view()[t] is Running ==> r == JoinPoll::<
                            C::Output,
                        >::Pending)
                    }
                } else {
                    &&& final(self).frames_view() == old(self).frames_view()
                    &&& r == JoinPoll::<C::Output>::Gone
                }
            }),
    {
        let t = h.task;
        if t >= self.frames.len() {
            return JoinPoll::Gone;
        }
        let done = match &self.frames[t] {
            Slot::Done(_) => true,
            _ => false,
        };
        if done {
            let mut slot = Slot::Taken;
            self.frames.set_and_swap(t, &mut slot);
            proof {
                Self::lemma_reg_bounds_weaken(*old(self), *final(self));
            }
            match slot {
                Slot::Done(v) => JoinPoll::Ready(v),
                _ => vstd::pervasive::unreached(),
            }
        } else {
            match &self.frames[t] {
                Slot::Taken => JoinPoll::Gone,
                _ => JoinPoll::Pending,
            }
        }
    }

    /// Collects task `t`'s pending descriptor registrations as plain
    /// (descriptor, mask) pairs, for the step context.
    /// The (descriptor, mask) pairs of task `t`'s registrations, in
    /// registration order, duplicates and all.
    pub open spec fn fds_of(regs: Seq<FdReg>, t: usize) -> Seq<(i32, u8)>
        decreases regs.len(),
    {
        if regs.len() == 0 {
            Seq::empty()
        } else if regs.last().task == t {
            Self::fds_of(regs.drop_last(), t).push((regs.last().fd, regs.last().mask))
        } else {
            Self::fds_of(regs.drop_last(), t)
        }
    }

    fn fd_snapshot(&self, t: usize) -> (v: Vec<(i32, u8)>)
        ensures
            v@ == Self::fds_of(self.fd_view(), t),
            forall|k: int|
                0 <= k < v@.len() ==> self.has_fd_reg(t, (#[trigger] v@[k]).0, v@[k].1),
            forall|j: int|
                0 <= j < self.fd_view().len() && (#[trigger] self.fd_view()[j]).task == t
                    ==> v@.contains((self.fd_view()[j].fd, self.fd_view()[j].mask)),
    {
        let mut v: Vec<(i32, u8)> = Vec::new();
        let mut i: usize = 0;
        while i < self.fd_regs.len()
            invariant
                i <= self.fd_view().len(),
                v@ == Self::fds_of(self.fd_view().take(i as int), t),
                forall|k: int|
                    0 <= k < v@.len() ==> self.has_fd_reg(t, (#[trigger] v@[k]).0, v@[k].1),
                forall|j: int|
                    0 <= j < i && (#[trigger] self.fd_view()[j]).task == t ==> v@.contains(
                        (self.fd_view()[j].fd, self.fd_view()[j].mask),
                    ),
            decreases self.fd_view().len() - i,
        {
            let r = &self.fd_regs[i];
            proof {
                let t1 = self.fd_view().take(i + 1);
                assert(t1.drop_last() =~= self.fd_view().take(i as int));
                assert(t1.last() == self.fd_view()[i as int]);
            }
            if r.task == t {
                let ghost vpre = v@;
                v.push((r.fd, r.mask));
                proof {
                    assert(self.fd_view()[i as int] == (FdReg { task: t, fd: v@.last().0, mask: v@.last().1 }));
                    assert forall|j: int|
                        0 <= j < i + 1 && (#[trigger] self.fd_view()[j]).task == t implies v@.contains(
                            (self.fd_view()[j].fd, self.fd_view()[j].mask),
                        ) by {
                        if j < i {
                            let k = choose|k: int|
                                0 <= k < vpre.len() && vpre[k] == (
                                    self.fd_view()[j].fd,
                                    self.fd_view()[j].mask,
                                );
                            assert(v@[k] == (self.fd_view()[j].fd, self.fd_view()[j].mask));
                        } else {
                            assert(v@.last() == (self.fd_view()[j].fd, self.fd_view()[j].mask));
                        }
                    }
                }
            }
            i += 1;
        }
        proof {
            assert(self.fd_view().take(self.fd_view().len() as int) =~= self.fd_view());
        }
        v
    }

    /// True when a registration for task `t` on `(fd, mask)` is pending.
    fn fd_reg_present(&self, t: usize, fd: i32, mask: u8) -> (r: bool)
        ensures
            r == self.has_fd_reg(t, fd, mask),
    {
        let mut i: usize = 0;
        while i < self.fd_regs.len()
            invariant
                i <= self.fd_view().len(),
                forall|j: int|
                    0 <= j < i ==> (#[trigger] self.fd_view()[j]) != (FdReg {
                        task: t,
                        fd: fd,
                        mask: mask,
                    }),
            decreases self.fd_view().len() - i,
        {
            let r = &self.fd_regs[i];
            if r.task == t && r.fd == fd && r.mask == mask {
                proof {
                    assert(self.fd_view()[i as int] == (FdReg { task: t, fd: fd, mask: mask }));
                }
                return true;
            }
            i += 1;
        }
        false
    }

    /// True when a timer for task `t` at `deadline_ms` is pending.
    fn timer_reg_present(&self, t: usize, deadline_ms: u64) -> (r: bool)
        ensures
            r == self.has_timer_reg(t, deadline_ms),
    {
        let mut i: usize = 0;
        while i < self.timer_regs.len()
            invariant
                i <= self.timer_view().len(),
                forall|j: int|
                    0 <= j < i ==> (#[trigger] self.timer_view()[j]) != (TimerReg {
                        task: t,
                        deadline_ms: deadline_ms,
                    }),
            decreases self.timer_view().len() - i,
        {
            let r = &self.timer_regs[i];
            if r.task == t && r.deadline_ms == deadline_ms {
                proof {
                    assert(self.timer_view()[i as int] == (TimerReg {
                        task: t,
                        deadline_ms: deadline_ms,
                    }));
                }
                return true;
            }
            i += 1;
        }
        false
    }

    /// The scheduler state a request chain acts on, as plain views.
    pub open spec fn state(&self) -> SchedState<C> {
        SchedState {
            frames: self.frames_view(),
            waiters: self.waiters_view(),
            queued: self.queued_view(),
            ready: self.ready_view(),
            fds: self.fd_view(),
            timers: self.timer_view(),
        }
    }

    /// What any request chain can do: the arena only grows, with running
    /// frames; existing frames only move forward in their lifecycle (a
    /// running or transient frame is untouched, a completed one is at most
    /// consumed, a consumed one stays consumed); continuations are stored
    /// only for the stepped task; the ready queue and the registration
    /// tables grow only at the back; and every new registration belongs to
    /// the stepped task.
    proof fn lemma_reqs_effect_shape(
        s: SchedState<C>,
        me: usize,
        reqs: Seq<WakeRequest<C>>,
        completing: bool,
    )
        requires
            s.waiters.len() == s.frames.len(),
        ensures
            ({
                let (post, w) = reqs_effect(s, me, reqs, completing);
                &&& s.frames.len() <= post.frames.len()
                &&& (forall|j: int|
                    0 <= j < s.frames.len() ==> {
                        &&& ((#[trigger] s.frames[j]) is Running ==> post.frames[j] == s.frames[j])
                        &&& (s.frames[j] is Stepping ==> post.frames[j] == s.frames[j])
                        &&& (s.frames[j] is Done ==> post.frames[j] == s.frames[j]
                            || post.frames[j] is Taken)
                        &&& (s.frames[j] is Taken ==> post.frames[j] is Taken)
                    })
                &&& (forall|j: int|
                    s.frames.len() <= j < post.frames.len() ==> (#[trigger] post.frames[j]) is Running)
                &&& (forall|j: int|
                    0 <= j < s.waiters.len() ==> (#[trigger] post.waiters[j]) == s.waiters[j]
                        || post.waiters[j] == Some(me))
                &&& s.ready.is_prefix_of(post.ready)
                &&& s.fds.is_prefix_of(post.fds)
                &&& (forall|k: int|
                    s.fds.len() <= k < post.fds.len() ==> (#[trigger] post.fds[k]).task == me)
                &&& s.timers.is_prefix_of(post.timers)
                &&& (forall|k: int|
                    s.timers.len() <= k < post.timers.len() ==> (#[trigger] post.timers[k]).task
                        == me)
                &&& post.waiters.len() == post.frames.len()
            }),
        decreases reqs.len(),
    {
        if reqs.len() == 0 {
            let (post, w) = reqs_effect(s, me, reqs, completing);
            assert(s.ready.is_prefix_of(post.ready)) by {
                assert(post.ready.subrange(0, s.ready.len() as int) =~= s.ready);
            }
            assert(s.fds.is_prefix_of(post.fds)) by {
                assert(post.fds.subrange(0, s.fds.len() as int) =~= s.fds);
            }
            assert(s.timers.is_prefix_of(post.timers)) by {
                assert(post.timers.subrange(0, s.timers.len() as int) =~= s.timers);
            }
        } else {
            Self::lemma_reqs_effect_shape(s, me, reqs.drop_last(), completing);
            let (mid, w) = reqs_effect(s, me, reqs.drop_last(), completing);
            let (post, d) = req_effect(mid, me, reqs.last(), completing);
            assert((post, w || d) == reqs_effect(s, me, reqs, completing));
            // one-step shape, by the request's arm
            assert(mid.frames.len() <= post.frames.len());
            assert forall|j: int|
                0 <= j < mid.frames.len() implies {
                &&& ((#[trigger] mid.frames[j]) is Running ==> post.frames[j] == mid.frames[j]
                    || post.frames[j] is Taken)
                &&& (mid.frames[j] is Stepping ==> post.frames[j] == mid.frames[j])
                &&& (mid.frames[j] is Done ==> post.frames[j] == mid.frames[j]
                    || post.frames[j] is Taken)
                &&& (mid.frames[j] is Taken ==> post.frames[j] is Taken)
            } by {
                match reqs.last() {
                    WakeRequest::Spawn(c) => {
                        assert(post.frames[j] == mid.frames[j]);
                    },
                    WakeRequest::TaskDone(x) => {
                        if post.frames != mid.frames {
                            if j != x as int {
                                assert(post.frames[j] == mid.frames[j]);
                            }
                        }
                    },
                    _ => {},
                }
            }
            // a running frame is never consumed: only completed ones are
            assert forall|j: int|
                0 <= j < mid.frames.len() && (#[trigger] mid.frames[j]) is Running implies post.frames[j]
                == mid.frames[j] by {
                match reqs.last() {
                    WakeRequest::TaskDone(x) => {
                        if j == x as int && post.frames != mid.frames {
                            assert(!(mid.frames[j] is Done) && !(mid.frames[j] is Running
                                && post.frames[j] is Taken)) by {
                                if mid.frames[x as int] is Done {
                                    assert(!(mid.frames[j] is Running));
                                }
                            }
                        }
                    },
                    _ => {},
                }
            }
            let last = reqs.last();
            match last {
                WakeRequest::Spawn(c) => {
                    assert forall|j: int|
                        s.frames.len() <= j < post.frames.len() implies (#[trigger] post.frames[j]) is Running by {
                        if j < mid.frames.len() {
                            assert(mid.frames[j] is Running);
                        } else {
                            assert(post.frames[j] == Slot::<C>::Running(c));
                        }
                    }
                    Self::lemma_prefix_push(s.ready, mid.ready, mid.frames.len() as usize);
                },
                WakeRequest::Fd(fd, mask) => {
                    if !(completing || reg_present(mid.fds, me, fd, mask)) {
                        Self::lemma_prefix_push(
                            s.fds,
                            mid.fds,
                            FdReg { task: me, fd: fd, mask: mask },
                        );
                    }
                },
                WakeRequest::Deadline(dl) => {
                    if !(completing || timer_present(mid.timers, me, dl)) {
                        Self::lemma_prefix_push(
                            s.timers,
                            mid.timers,
                            TimerReg { task: me, deadline_ms: dl },
                        );
                    }
                },
                WakeRequest::TaskDone(x) => {
                    if !completing && x < mid.frames.len() && mid.frames[x as int] is Done {
                        assert forall|j: int|
                            s.frames.len() <= j < post.frames.len() implies (#[trigger] post.frames[j]) is Running by {
                            assert(mid.frames[j] is Running);
                            assert(j != x as int);
                        }
                    }
                },
            }
            // compose the two stages
            assert forall|j: int|
                0 <= j < s.frames.len() implies {
                &&& ((#[trigger] s.frames[j]) is Running ==> post.frames[j] == s.frames[j])
                &&& (s.frames[j] is Stepping ==> post.frames[j] == s.frames[j])
                &&& (s.frames[j] is Done ==> post.frames[j] == s.frames[j]
                    || post.frames[j] is Taken)
                &&& (s.frames[j] is Taken ==> post.frames[j] is Taken)
            } by {
                if s.frames[j] is Running {
                    assert(mid.frames[j] == s.frames[j]);
                    assert(post.frames[j] == mid.frames[j]);
                } else if s.frames[j] is Stepping {
                    assert(mid.frames[j] == s.frames[j]);
                    assert(post.frames[j] == mid.frames[j]);
                } else if s.frames[j] is Done {
                    if mid.frames[j] == s.frames[j] {
                        assert(post.frames[j] == mid.frames[j] || post.frames[j] is Taken);
                    } else {
                        assert(mid.frames[j] is Taken);
                    }
                }
            }
            assert forall|j: int|
                s.frames.len() <= j < post.frames.len() implies (#[trigger] post.frames[j]) is Running by {
                if j < mid.frames.len() {
                    assert(mid.frames[j] is Running);
                    assert(post.frames[j] == mid.frames[j]);
                } else {
                    match last {
                        WakeRequest::Spawn(c) => {
                            assert(post.frames[j] == Slot::<C>::Running(c));
                        },
                        _ => {
                            assert(post.frames.len() == mid.frames.len());
                        },
                    }
                }
            }
            assert forall|j: int|
                0 <= j < s.waiters.len() implies (#[trigger] post.waiters[j]) == s.waiters[j]
                || post.waiters[j] == Some(me) by {
                assert(mid.waiters[j] == s.waiters[j] || mid.waiters[j] == Some(me));
                match last {
                    WakeRequest::TaskDone(x) => {
                        if j != x as int {
                            assert(post.waiters[j] == mid.waiters[j]);
                        }
                    },
                    _ => {
                        assert(post.waiters[j] == mid.waiters[j]);
                    },
                }
            }
            assert(s.ready.is_prefix_of(post.ready)) by {
                match last {
                    WakeRequest::Spawn(c) => {},
                    _ => {
                        assert(post.ready == mid.ready);
                    },
                }
            }
            assert(s.fds.is_prefix_of(post.fds) && forall|k: int|
                s.fds.len() <= k < post.fds.len() ==> (#[trigger] post.fds[k]).task == me) by {
                if post.fds == mid.fds {
                    assert forall|k: int|
                        s.fds.len() <= k < post.fds.len() implies (#[trigger] post.fds[k]).task
                        == me by {
                        assert(post.fds[k] == mid.fds[k]);
                    }
                } else {
                    Self::lemma_prefix_trans(s.fds, mid.fds, post.fds);
                    assert forall|k: int|
                        s.fds.len() <= k < post.fds.len() implies (#[trigger] post.fds[k]).task
                        == me by {
                        if k < mid.fds.len() {
                            assert(post.fds[k] == mid.fds[k]);
                        } else {
                            assert(post.fds[k] == post.fds.last());
                        }
                    }
                }
            }
            assert(s.timers.is_prefix_of(post.timers) && forall|k: int|
                s.timers.len() <= k < post.timers.len() ==> (#[trigger] post.timers[k]).task
                    == me) by {
                if post.timers == mid.timers {
                    assert forall|k: int|
                        s.timers.len() <= k < post.timers.len() implies (#[trigger] post.timers[k]).task
                        == me by {
                        assert(post.timers[k] == mid.timers[k]);
                    }
                } else {
                    Self::lemma_prefix_trans(s.timers, mid.timers, post.timers);
                    assert forall|k: int|
                        s.timers.len() <= k < post.timers.len() implies (#[trigger] post.timers[k]).task
                        == me by {
                        if k < mid.timers.len() {
                            assert(post.timers[k] == mid.timers[k]);
                        } else {
                            assert(post.timers[k] == post.timers.last());
                        }
                    }
                }
            }
        }
    }

    /// A completing step registers nothing and subscribes to nothing: its
    /// requests can only spawn, so every pre-existing frame and waiter and
    /// both registration tables are left exactly as they were.
    proof fn lemma_reqs_effect_completing(
        s: SchedState<C>,
        me: usize,
        reqs: Seq<WakeRequest<C>>,
    )
        ensures
            ({
                let (post, w) = reqs_effect(s, me, reqs, true);
                &&& !w
                &&& s.frames.len() <= post.frames.len()
                &&& (forall|j: int|
                    0 <= j < s.frames.len() ==> (#[trigger] post.frames[j]) == s.frames[j])
                &&& (forall|j: int|
                    0 <= j < s.waiters.len() ==> (#[trigger] post.waiters[j]) == s.waiters[j])
                &&& post.fds == s.fds
                &&& post.timers == s.timers
                &&& s.waiters.len() <= post.waiters.len()
            }),
        decreases reqs.len(),
    {
        if reqs.len() > 0 {
            Self::lemma_reqs_effect_completing(s, me, reqs.drop_last());
            let (mid, w) = reqs_effect(s, me, reqs.drop_last(), true);
            let (post, d) = req_effect(mid, me, reqs.last(), true);
            assert forall|j: int|
                0 <= j < s.frames.len() implies (#[trigger] post.frames[j]) == s.frames[j] by {
                assert(mid.frames[j] == s.frames[j]);
                match reqs.last() {
                    WakeRequest::Spawn(c) => {
                        assert(post.frames[j] == mid.frames[j]);
                    },
                    _ => {},
                }
            }
            assert forall|j: int|
                0 <= j < s.waiters.len() implies (#[trigger] post.waiters[j]) == s.waiters[j] by {
                assert(mid.waiters[j] == s.waiters[j]);
                match reqs.last() {
                    WakeRequest::Spawn(c) => {
                        assert(post.waiters[j] == mid.waiters[j]);
                    },
                    _ => {},
                }
            }
        }
    }

    /// Applies the requests one step of task `me` collected, in order,
    /// exactly as the request chain relation states: spawns, deduplicated
    /// reactor registrations, and completion subscriptions, with the value
    /// of an already-completed target consumed and delivered into `comp`
    /// at once and the re-enqueue of `me` reported. When the step is
    /// completing, only spawns apply: a finished computation registers no
    /// further interest.
    fn apply_requests(
        &mut self,
        me: usize,
        comp: &mut C,
        reqs: Vec<WakeRequest<C>>,
        completing: bool,
    ) -> (woke_self: bool)
        requires
            old(self).wf_at(Some(me as int)),
            me < old(self).frames_view().len(),
        ensures
            final(self).wf_at(Some(me as int)),
            final(self).frames_view().len() >= old(self).frames_view().len(),
            final(self).frames_view()[me as int] == old(self).frames_view()[me as int],
            final(self).now_view() == old(self).now_view(),
            final(self).passes_view() == old(self).passes_view(),
            (final(self).state(), woke_self) == reqs_effect(
                old(self).state(),
                me,
                reqs@,
                completing,
            ),
            reqs@.len() == 0 ==> !woke_self && *final(comp) == *old(comp) && *final(self)
                == *old(self),
    {
        let mut reqs = reqs;
        let ghost reqs0 = reqs@;
        let ghost mut k: int = 0;
        let mut woke_self = false;
        proof {
            assert(reqs0.take(0) =~= Seq::<WakeRequest<C>>::empty());
        }
        while reqs.len() > 0
            invariant
                self.wf_at(Some(me as int)),
                me < self.frames_view().len(),
                self.frames_view().len() >= old(self).frames_view().len(),
                self.frames_view()[me as int] == old(self).frames_view()[me as int],
                self.now_view() == old(self).now_view(),
                self.passes_view() == old(self).passes_view(),
                0 <= k <= reqs0.len(),
                reqs@ == reqs0.skip(k),
                (self.state(), woke_self) == reqs_effect(
                    old(self).state(),
                    me,
                    reqs0.take(k),
                    completing,
                ),
                reqs0.len() == 0 ==> !woke_self && *comp == *old(comp) && *self == *old(self),
            decreases reqs@.len(),
        {
            let ghost prev = *self;
            let ghost mut dflag = false;
            let req = reqs.remove(0);
            let ghost reqg = req;
            proof {
                assert(reqg == reqs0[k]);
                assert(reqs@ =~= reqs0.skip(k + 1));
            }
            match req {
                WakeRequest::Spawn(c) => {
                    let _ = self.push_task(c, Ghost(Some(me as int)));
                }
                WakeRequest::Fd(fd, mask) => {
                    if !completing && !self.fd_reg_present(me, fd, mask) {
                        let ghost pre = *self;
                        self.fd_regs.push(FdReg { task: me, fd, mask });
                        proof {
                            assert forall|i: int|
                                0 <= i < self.fd_view().len() implies (#[trigger] self.fd_view()[i]).task
                                < self.frames_view().len() by {
                                if i < pre.fd_view().len() {
                                    assert(self.fd_view()[i] == pre.fd_view()[i]);
                                } else {
                                    assert(self.fd_view()[i].task == me);
                                }
                            }
                            assert forall|i: int|
                                0 <= i < self.timer_view().len() implies (
                            #[trigger] self.timer_view()[i]).task < self.frames_view().len() by {
                                assert(self.timer_view()[i] == pre.timer_view()[i]);
                            }
                            Self::lemma_regs_changed(pre, *self, Some(me as int));
                        }
                    }
                }
                WakeRequest::Deadline(deadline_ms) => {
                    if !completing && !self.timer_reg_present(me, deadline_ms) {
                        let ghost pre = *self;
                        self.timer_regs.push(TimerReg { task: me, deadline_ms });
                        proof {
                            assert forall|i: int|
                                0 <= i < self.timer_view().len() implies (#[trigger] self.timer_view()[i]).task
                                < self.frames_view().len() by {
                                if i < pre.timer_view().len() {
                                    assert(self.timer_view()[i] == pre.timer_view()[i]);
                                } else {
                                    assert(self.timer_view()[i].task == me);
                                }
                            }
                            assert forall|i: int|
                                0 <= i < self.fd_view().len() implies (
                            #[trigger] self.fd_view()[i]).task < self.frames_view().len() by {
                                assert(self.fd_view()[i] == pre.fd_view()[i]);
                            }
                            Self::lemma_regs_changed(pre, *self, Some(me as int));
                        }
                    }
                }
                WakeRequest::TaskDone(x) => {
                    if !completing && x < self.frames.len() {
                        let done = match &self.frames[x] {
                            Slot::Done(_) => true,
                            _ => false,
                        };
                        if done {
                            let ghost prex = *self;
                            let mut slot = Slot::Taken;
                            self.frames.set_and_swap(x, &mut slot);
                            proof {
                                dflag = true;
                                assert(x as int != me as int);
                                assert forall|i: int|
                                    0 <= i < self.ready_view().len() implies self.frames_view()[#[trigger] self.ready_view()[i] as int] is Running by {
                                    assert(prex.frames_view()[prex.ready_view()[i] as int] is Running);
                                    assert(prex.ready_view()[i] != x);
                                }
                                Self::lemma_reg_bounds_weaken(prex, *self);
                            }
                            match slot {
                                Slot::Done(v) => {
                                    comp.on_task_done(x, v);
                                    woke_self = true;
                                }
                                _ => {
                                    vstd::pervasive::unreached::<()>();
                                }
                            }
                        } else {
                            let running = match &self.frames[x] {
                                Slot::Running(_) => true,
                                Slot::Stepping => true,
                                _ => false,
                            };
                            if running {
                                let ghost prew = *self;
                                self.waiters.set(x, Some(me));
                                proof {
                                    Self::lemma_waiter_set(
                                        prew,
                                        *self,
                                        Some(me as int),
                                        x as int,
                                        Some(me),
                                    );
                                }
                            }
                        }
                    }
                }
            }
            proof {
                assert((self.state(), dflag) =~~= req_effect(prev.state(), me, reqg, completing));
                assert(k + 1 <= reqs0.len());
                assert(reqs0.take(k + 1).drop_last() =~= reqs0.take(k));
                assert(reqs0.take(k + 1).last() == reqg);
                assert((self.state(), woke_self) =~~= reqs_effect(
                    old(self).state(),
                    me,
                    reqs0.take(k + 1),
                    completing,
                ));
                k = k + 1;
            }
        }
        proof {
            assert(reqs0.take(k) =~= reqs0);
        }
        woke_self
    }

    /// Pops the front of the ready queue and resumes that task: drives its
    /// computation one step, applies the requested wake conditions, and on
    /// completion records the value and wakes the stored continuation
    /// exactly once. In the pure queue-draining regime this completes the
    /// popped task with its immediate value and touches nothing else.
    pub fn step_one(&mut self)
        requires
            old(self).wf(),
            old(self).ready_view().len() > 0,
        ensures
            final(self).wf(),
            final(self).now_view() == old(self).now_view(),
            final(self).passes_view() == old(self).passes_view(),
            final(self).frames_view().len() >= old(self).frames_view().len(),
            ({
                let t = old(self).ready_view()[0] as int;
                let n0 = old(self).frames_view().len() as int;
                // the front of the queue is the task resumed: the rest
                // keeps its order, anything new enters behind it
                &&& old(self).ready_view().drop_first().is_prefix_of(final(self).ready_view())
                // the stepped frame finishes or stays running; it never
                // reverts, and its value is consumed by nobody here
                &&& (final(self).frames_view()[t] is Running || final(self).frames_view()[t] is Done)
                // every other pre-existing frame only moves forward in its
                // lifecycle: running ones are untouched, completed ones are
                // at most consumed by the stepped task, consumed stay so
                &&& (forall|j: int|
                    0 <= j < n0 && j != t ==> {
                        &&& ((#[trigger] old(self).frames_view()[j]) is Running ==> final(self).frames_view()[j] == old(self).frames_view()[j])
                        &&& (old(self).frames_view()[j] is Done ==> final(self).frames_view()[j]
                            == old(self).frames_view()[j] || final(self).frames_view()[j] is Taken)
                        &&& (old(self).frames_view()[j] is Taken ==> final(self).frames_view()[j] is Taken)
                    })
                // frames created during the step are spawned tasks, running
                &&& (forall|j: int|
                    n0 <= j < final(self).frames_view().len() ==> (#[trigger] final(self).frames_view()[j]) is Running)
                // on completion the stored continuation is cleared and, if
                // it can still run, it sits in the queue
                &&& (final(self).frames_view()[t] is Done ==> final(self).waiters_view()[t] is None
                    && (old(self).waiters_view()[t] matches Some(w) ==> (w == old(self).ready_view()[0] || !(final(self).frames_view()[w as int] is Running) || final(self).queued_view()[w as int])))
                // continuations are stored only for the stepped task
                &&& (forall|j: int|
                    0 <= j < old(self).waiters_view().len() && j != t ==> (#[trigger] final(self).waiters_view()[j]) == old(self).waiters_view()[j] || final(self).waiters_view()[j] == Some(old(self).ready_view()[0]))
                // registrations only grow, at the back, for the stepped task
                &&& old(self).fd_view().is_prefix_of(final(self).fd_view())
                &&& (forall|k: int|
                    old(self).fd_view().len() <= k < final(self).fd_view().len() ==> (
                    #[trigger] final(self).fd_view()[k]).task == old(self).ready_view()[0])
                &&& old(self).timer_view().is_prefix_of(final(self).timer_view())
                &&& (forall|k: int|
                    old(self).timer_view().len() <= k < final(self).timer_view().len() ==> (
                    #[trigger] final(self).timer_view()[k]).task == old(self).ready_view()[0])
            }),
            old(self).all_immediate_idle() ==> ({
                let t = old(self).ready_view()[0] as int;
                let c = old(self).frames_view()[t]->Running_0;
                &&& final(self).all_immediate_idle()
                &&& final(self).frames_view() == old(self).frames_view().update(
                    t,
                    Slot::Done(c.immediate_value()),
                )
                &&& final(self).ready_view() == old(self).ready_view().drop_first()
                &&& final(self).queued_view() == old(self).queued_view().update(t, false)
                &&& final(self).waiters_view() == old(self).waiters_view()
                &&& final(self).fd_view() == old(self).fd_view()
                &&& final(self).timer_view() == old(self).timer_view()
            }),
    {
        let t = match self.ready.pop_front() {
            Some(t) => t,
            None => vstd::pervasive::unreached(),
        };
        self.queued.set(t, false);
        let mut slot = Slot::Stepping;
        self.frames.set_and_swap(t, &mut slot);
        let mut comp = match slot {
            Slot::Running(c) => c,
            _ => vstd::pervasive::unreached(),
        };
        let qlen = self.queued.len();
        proof {
            let pre = *old(self);
            assert(self.queued_view().len() == qlen);
            assert forall|i: int|
                0 <= i < self.ready_view().len() implies (#[trigger] self.ready_view()[i])
                < self.frames_view().len() && self.frames_view()[self.ready_view()[i] as int] is Running
                && self.queued_view()[self.ready_view()[i] as int] by {
                assert(self.ready_view()[i] == pre.ready_view()[i + 1]);
                assert(pre.ready_view()[i + 1] != pre.ready_view()[0]);
            }
            assert forall|x: int|
                0 <= x < self.queued_view().len() && #[trigger] self.queued_view()[x]
                    implies self.ready_view().contains(x as usize) by {
                assert(x != t as int);
                assert(pre.queued_view()[x]);
                let j = choose|j: int|
                    0 <= j < pre.ready_view().len() && pre.ready_view()[j] == x as usize;
                assert(pre.ready_view()[0] == t);
                assert(j != 0);
                assert(self.ready_view()[j - 1] == x as usize);
            }
            Self::lemma_reg_bounds_weaken(pre, *self);
            assert(self.wf_at(Some(t as int)));
        }
        let ghost s1 = *self;
        let my_fds = self.fd_snapshot(t);
        let next = self.frames.len();
        let mut ctx: StepCtx<C> = StepCtx::new_ctx(t, self.now_ms, next, my_fds);
        let r = comp.step(&mut ctx);
        let reqs = ctx.into_requests();
        let ghost reqs0g = reqs@;
        let completing = match &r {
            Step::Done(_) => true,
            Step::Pending => false,
        };
        let woke_self = self.apply_requests(t, &mut comp, reqs, completing);
        let ghost s2 = *self;
        let ghost reqsg = reqs0g;
        proof {
            Self::lemma_reqs_effect_shape(s1.state(), t, reqsg, completing);
            if completing {
                Self::lemma_reqs_effect_completing(s1.state(), t, reqsg);
            }
            assert(old(self).ready_view().drop_first().is_prefix_of(s2.ready_view())) by {
                assert(s1.ready_view() == old(self).ready_view().drop_first());
            }
        }
        match r {
            Step::Pending => {
                let ghost pre = *self;
                self.frames.set(t, Slot::Running(comp));
                proof {
                    Self::lemma_restore(pre, *self, t, Slot::Running(comp));
                }
                let ghost s3 = *self;
                if woke_self {
                    self.wake(t);
                }
                proof {
                    if s3.wakeable(t as int) {
                        Self::lemma_prefix_push(
                            old(self).ready_view().drop_first(),
                            s3.ready_view(),
                            t,
                        );
                    }
                    Self::lemma_step_views(*old(self), s1, s2, *self, t, reqsg, completing);
                    assert(self.frames_view()[t as int] is Running);
                }
            }
            Step::Done(v) => {
                let ghost pre = *self;
                let ghost stored = Slot::<C>::Done(v);
                self.frames.set(t, Slot::Done(v));
                proof {
                    Self::lemma_restore(pre, *self, t, stored);
                }
                let w = self.waiters[t];
                match w {
                    Some(wt) => {
                        let ghost prew = *self;
                        self.waiters.set(t, None);
                        proof {
                            Self::lemma_waiter_set(prew, *self, None, t as int, None);
                        }
                        let ghost s3 = *self;
                        self.wake(wt);
                        proof {
                            if s3.wakeable(wt as int) {
                                Self::lemma_prefix_push(
                                    old(self).ready_view().drop_first(),
                                    s3.ready_view(),
                                    wt,
                                );
                            }
                            Self::lemma_step_views(
                                *old(self),
                                s1,
                                s2,
                                *self,
                                t,
                                reqsg,
                                completing,
                            );
                            assert(self.frames_view()[t as int] is Done);
                            assert(self.waiters_view()[t as int] is None);
                            // the stored continuation was the one read: a
                            // completing step subscribes to nothing
                            assert(s2.waiters_view()[t as int] == old(self).waiters_view()[t as int])
                                by {
                                assert(s1.waiters_view()[t as int] == old(self).waiters_view()[t as int]);
                                assert(s1.state().waiters[t as int] == s2.state().waiters[t as int]);
                            }
                            if self.frames_view()[wt as int] is Running {
                                assert(self.queued_view()[wt as int]) by {
                                    if !s3.queued_view()[wt as int] {
                                        assert(s3.wakeable(wt as int));
                                    }
                                }
                            }
                        }
                    }
                    None => {
                        proof {
                            Self::lemma_step_views(
                                *old(self),
                                s1,
                                s2,
                                *final(self),
                                t,
                                reqsg,
                                completing,
                            );
                            assert(s2.waiters_view()[t as int] == old(self).waiters_view()[t as int])
                                by {
                                assert(s1.waiters_view()[t as int] == old(self).waiters_view()[t as int]);
                                assert(s1.state().waiters[t as int] == s2.state().waiters[t as int]);
                            }
                            assert(final(self).waiters_view()[t as int] is None);
                        }
                    }
                }
            }
        }
    }

    /// Composes the three stages of one scheduling step (take the
    /// computation out, apply its requests, put the outcome back and wake)
    /// into the step's lifecycle guarantees for every frame, waiter and
    /// registration other than the stepped task's own slot.
    proof fn lemma_step_views(
        pre0: Self,
        s1: Self,
        s2: Self,
        fin: Self,
        t: usize,
        reqsg: Seq<WakeRequest<C>>,
        completing: bool,
    )
        requires
            pre0.wf(),
            pre0.ready_view().len() > 0,
            t == pre0.ready_view()[0],
            s1.frames_view() == pre0.frames_view().update(t as int, Slot::Stepping),
            s1.waiters_view() == pre0.waiters_view(),
            s1.ready_view() == pre0.ready_view().drop_first(),
            s1.fd_view() == pre0.fd_view(),
            s1.timer_view() == pre0.timer_view(),
            s1.waiters_view().len() == s1.frames_view().len(),
            reqs_effect(s1.state(), t, reqsg, completing).0 == s2.state(),
            !(fin.frames_view()[t as int] is Stepping),
            fin.frames_view() == s2.frames_view().update(t as int, fin.frames_view()[t as int]),
            fin.waiters_view() == s2.waiters_view() || fin.waiters_view() == s2.waiters_view()
                .update(t as int, None),
            fin.fd_view() == s2.fd_view(),
            fin.timer_view() == s2.timer_view(),
        ensures
            ({
                let tt = t as int;
                let n0 = pre0.frames_view().len() as int;
                &&& (forall|j: int|
                    0 <= j < n0 && j != tt ==> {
                        &&& ((#[trigger] pre0.frames_view()[j]) is Running ==> fin.frames_view()[j]
                            == pre0.frames_view()[j])
                        &&& (pre0.frames_view()[j] is Done ==> fin.frames_view()[j]
                            == pre0.frames_view()[j] || fin.frames_view()[j] is Taken)
                        &&& (pre0.frames_view()[j] is Taken ==> fin.frames_view()[j] is Taken)
                    })
                &&& (forall|j: int|
                    n0 <= j < fin.frames_view().len() ==> (#[trigger] fin.frames_view()[j]) is Running)
                &&& (forall|j: int|
                    0 <= j < pre0.waiters_view().len() && j != tt ==> (#[trigger] fin.waiters_view()[j])
                        == pre0.waiters_view()[j] || fin.waiters_view()[j] == Some(t))
                &&& pre0.fd_view().is_prefix_of(fin.fd_view())
                &&& (forall|k: int|
                    pre0.fd_view().len() <= k < fin.fd_view().len() ==> (#[trigger] fin.fd_view()[k]).task
                        == t)
                &&& pre0.timer_view().is_prefix_of(fin.timer_view())
                &&& (forall|k: int|
                    pre0.timer_view().len() <= k < fin.timer_view().len() ==> (#[trigger] fin.timer_view()[k]).task
                        == t)
            }),
    {
        Self::lemma_reqs_effect_shape(s1.state(), t, reqsg, completing);
        let post = reqs_effect(s1.state(), t, reqsg, completing).0;
        let tt = t as int;
        let n0 = pre0.frames_view().len() as int;
        assert(post.frames == s2.frames_view());
        assert(post.waiters == s2.waiters_view());
        assert(post.fds == s2.fd_view());
        assert(post.timers == s2.timer_view());
        assert forall|j: int|
            0 <= j < n0 && j != tt implies {
            &&& ((#[trigger] pre0.frames_view()[j]) is Running ==> fin.frames_view()[j]
                == pre0.frames_view()[j])
            &&& (pre0.frames_view()[j] is Done ==> fin.frames_view()[j] == pre0.frames_view()[j]
                || fin.frames_view()[j] is Taken)
            &&& (pre0.frames_view()[j] is Taken ==> fin.frames_view()[j] is Taken)
        } by {
            assert(s1.state().frames[j] == pre0.frames_view()[j]);
            assert(fin.frames_view()[j] == s2.frames_view()[j]);
        }
        assert forall|j: int|
            n0 <= j < fin.frames_view().len() implies (#[trigger] fin.frames_view()[j]) is Running by {
            assert(fin.frames_view()[j] == s2.frames_view()[j]);
            assert(s1.state().frames.len() == n0);
            assert(post.frames[j] is Running);
        }
        assert forall|j: int|
            0 <= j < pre0.waiters_view().len() && j != tt implies (#[trigger] fin.waiters_view()[j])
            == pre0.waiters_view()[j] || fin.waiters_view()[j] == Some(t) by {
            assert(s1.state().waiters[j] == pre0.waiters_view()[j]);
            assert(post.waiters[j] == s1.state().waiters[j] || post.waiters[j] == Some(t));
            assert(fin.waiters_view()[j] == s2.waiters_view()[j]);
        }
        assert(pre0.fd_view().is_prefix_of(fin.fd_view())) by {
            assert(s1.state().fds == pre0.fd_view());
            assert(fin.fd_view() == s2.fd_view());
        }
        assert forall|k: int|
            pre0.fd_view().len() <= k < fin.fd_view().len() implies (#[trigger] fin.fd_view()[k]).task
            == t by {
            assert(fin.fd_view()[k] == post.fds[k]);
            assert(s1.state().fds.len() == pre0.fd_view().len());
        }
        assert(pre0.timer_view().is_prefix_of(fin.timer_view())) by {
            assert(s1.state().timers == pre0.timer_view());
            assert(fin.timer_view() == s2.timer_view());
        }
        assert forall|k: int|
            pre0.timer_view().len() <= k < fin.timer_view().len() implies (#[trigger] fin.timer_view()[k]).task
            == t by {
            assert(fin.timer_view()[k] == post.timers[k]);
            assert(s1.state().timers.len() == pre0.timer_view().len());
        }
    }

    /// How many times this runtime has blocked on the OS multiplex call.
    pub fn reactor_passes(&self) -> (n: u64)
        ensures
            n == self.passes_view(),
    {
        self.reactor_passes
    }

    /// How many descriptor registrations are pending with the reactor.
    pub fn pending_fd_count(&self) -> (n: usize)
        ensures
            n == self.fd_view().len(),
    {
        self.fd_regs.len()
    }

    /// How many timers are pending with the reactor.
    pub fn pending_timer_count(&self) -> (n: usize)
        ensures
            n == self.timer_view().len(),
    {
        self.timer_regs.len()
    }

    /// Reads the monotonic clock and advances the observed time, which
    /// never goes backwards even if the clock misbehaves. Returns the
    /// observed time in milliseconds.
    pub fn now_ms(&mut self) -> (r: u64)
        ensures
            final(self).now_view() >= old(self).now_view(),
            r == final(self).now_view(),
            final(self).frames_view() == old(self).frames_view(),
            final(self).waiters_view() == old(self).waiters_view(),
            final(self).queued_view() == old(self).queued_view(),
            final(self).ready_view() == old(self).ready_view(),
            final(self).fd_view() == old(self).fd_view(),
            final(self).timer_view() == old(self).timer_view(),
            final(self).passes_view() == old(self).passes_view(),
            old(self).wf() ==> final(self).wf(),
    {
        match crate::sys::sys_clock_monotonic() {
            Ok((s, n)) => {
                let sec = s as u64;
                let frac = (n / 1_000_000) as u64;
                let ms = match sec.checked_mul(1000) {
                    Some(x) => match x.checked_add(frac) {
                        Some(y) => y,
                        None => u64::MAX,
                    },
                    None => u64::MAX,
                };
                if ms > self.now_ms {
                    self.now_ms = ms;
                }
            }
            Err(_) => {}
        }
        proof {
            if old(self).wf() {
                Self::lemma_wf_views(*old(self), *final(self), None);
            }
        }
        self.now_ms
    }

    /// The smallest registered timer deadline, if any timer is pending.
    fn min_deadline(&self) -> (r: Option<u64>)
        ensures
            r is None <==> self.timer_view().len() == 0,
            r matches Some(m) ==> (forall|i: int|
                0 <= i < self.timer_view().len() ==> (#[trigger] self.timer_view()[i]).deadline_ms
                    >= m) && (exists|i: int|
                0 <= i < self.timer_view().len() && (#[trigger] self.timer_view()[i]).deadline_ms
                    == m),
    {
        if self.timer_regs.len() == 0 {
            return None;
        }
        let mut m = self.timer_regs[0].deadline_ms;
        proof {
            assert(self.timer_view()[0].deadline_ms == m);
        }
        let mut i: usize = 1;
        while i < self.timer_regs.len()
            invariant
                1 <= i <= self.timer_view().len(),
                forall|j: int|
                    0 <= j < i ==> (#[trigger] self.timer_view()[j]).deadline_ms >= m,
                exists|j: int|
                    0 <= j < i && (#[trigger] self.timer_view()[j]).deadline_ms == m,
            decreases self.timer_view().len() - i,
        {
            if self.timer_regs[i].deadline_ms < m {
                m = self.timer_regs[i].deadline_ms;
                proof {
                    assert forall|j: int|
                        0 <= j < i + 1 implies (#[trigger] self.timer_view()[j]).deadline_ms >= m by {}
                }
            }
            i += 1;
        }
        Some(m)
    }

    /// The registrations left after a reactor pass reported `revs`: exactly
    /// those whose entry reported no event, in their original order. A
    /// fired registration is gone, so it can fire at most once.
    pub open spec fn kept_fds(regs: Seq<FdReg>, revs: Seq<u8>) -> Seq<FdReg>
        decreases regs.len(),
    {
        if regs.len() == 0 {
            Seq::empty()
        } else if revs[regs.len() - 1] == 0 {
            Self::kept_fds(regs.drop_last(), revs.drop_last()).push(regs.last())
        } else {
            Self::kept_fds(regs.drop_last(), revs.drop_last())
        }
    }

    /// The registrations a reactor pass fired: exactly those whose entry
    /// reported an event, in their original order.
    pub open spec fn fired_fds(regs: Seq<FdReg>, revs: Seq<u8>) -> Seq<FdReg>
        decreases regs.len(),
    {
        if regs.len() == 0 {
            Seq::empty()
        } else if revs[regs.len() - 1] != 0 {
            Self::fired_fds(regs.drop_last(), revs.drop_last()).push(regs.last())
        } else {
            Self::fired_fds(regs.drop_last(), revs.drop_last())
        }
    }

    /// A registration whose entry reported an event is among the fired.
    proof fn lemma_fired_fds_contains(regs: Seq<FdReg>, revs: Seq<u8>, k: int)
        requires
            revs.len() == regs.len(),
            0 <= k < regs.len(),
            revs[k] != 0,
        ensures
            exists|i: int|
                0 <= i < Self::fired_fds(regs, revs).len() && #[trigger] Self::fired_fds(
                    regs,
                    revs,
                )[i] == regs[k],
        decreases regs.len(),
    {
        if k == regs.len() - 1 {
            let f = Self::fired_fds(regs, revs);
            assert(f.last() == regs[k]);
        } else {
            Self::lemma_fired_fds_contains(regs.drop_last(), revs.drop_last(), k);
            assert(regs.drop_last()[k] == regs[k]);
            let sub = Self::fired_fds(regs.drop_last(), revs.drop_last());
            let i = choose|i: int| 0 <= i < sub.len() && sub[i] == regs.drop_last()[k];
            assert(Self::fired_fds(regs, revs)[i] == regs[k]);
        }
    }

    /// Translates one reactor report into wake-ups: every registration
    /// whose entry reported an event is removed (one-shot) and its task is
    /// woken; the others stay, in order. The ready queue only grows at the
    /// back, so earlier-queued tasks still resume first.
    fn fire_fd_events(&mut self, revs: &Vec<u8>)
        requires
            old(self).wf(),
            revs@.len() == old(self).fd_view().len(),
        ensures
            final(self).wf(),
            final(self).frames_view() == old(self).frames_view(),
            final(self).waiters_view() == old(self).waiters_view(),
            final(self).timer_view() == old(self).timer_view(),
            final(self).now_view() == old(self).now_view(),
            final(self).passes_view() == old(self).passes_view(),
            final(self).fd_view() == Self::kept_fds(old(self).fd_view(), revs@),
            old(self).ready_view().is_prefix_of(final(self).ready_view()),
            (final(self).ready_view(), final(self).queued_view()) == wakes_applied(
                final(self).frames_view(),
                old(self).ready_view(),
                old(self).queued_view(),
                Self::fired_fds(old(self).fd_view(), revs@).map_values(|reg: FdReg| reg.task),
            ),
            forall|k: int|
                0 <= k < old(self).fd_view().len() && revs@[k] != 0 && final(self).frames_view()[(#[trigger] old(self).fd_view()[k]).task as int] is Running ==> final(self).queued_view()[old(self).fd_view()[k].task as int],
    {
        let mut kept: Vec<FdReg> = Vec::new();
        let mut fired: Vec<FdReg> = Vec::new();
        let mut i: usize = 0;
        while i < self.fd_regs.len()
            invariant
                *self == *old(self),
                self.wf(),
                i <= self.fd_view().len(),
                revs@.len() == self.fd_view().len(),
                kept@ == Self::kept_fds(self.fd_view().take(i as int), revs@.take(i as int)),
                fired@ == Self::fired_fds(self.fd_view().take(i as int), revs@.take(i as int)),
                forall|k: int|
                    0 <= k < fired@.len() ==> (#[trigger] fired@[k]).task
                        < self.frames_view().len(),
            decreases self.fd_view().len() - i,
        {
            let reg = self.fd_regs[i];
            let ghost regs_i = self.fd_view().take(i as int);
            let ghost revs_i = revs@.take(i as int);
            if revs[i] == 0 {
                kept.push(reg);
            } else {
                let ghost fired0 = fired@;
                fired.push(reg);
                proof {
                    assert forall|k: int|
                        0 <= k < fired@.len() implies (#[trigger] fired@[k]).task
                        < self.frames_view().len() by {
                        if k < fired0.len() {
                            assert(fired@[k] == fired0[k]);
                        } else {
                            assert(fired@[k] == reg);
                            assert(self.fd_view()[i as int].task < self.frames_view().len());
                        }
                    }
                }
            }
            proof {
                let regs_i1 = self.fd_view().take(i + 1 as int);
                let revs_i1 = revs@.take(i + 1 as int);
                assert(regs_i1.drop_last() =~= regs_i);
                assert(revs_i1.drop_last() =~= revs_i);
                assert(regs_i1.last() == reg);
                assert(revs_i1[regs_i1.len() - 1] == revs@[i as int]);
            }
            i += 1;
        }
        proof {
            assert(self.fd_view().take(self.fd_view().len() as int) =~= self.fd_view());
            assert(revs@.take(self.fd_view().len() as int) =~= revs@);
        }
        let ghost pre = *self;
        self.fd_regs = kept;
        proof {
            assert forall|k: int|
                0 <= k < self.fd_view().len() implies (#[trigger] self.fd_view()[k]).task
                < self.frames_view().len() by {
                Self::lemma_kept_fds_tasks(pre.fd_view(), revs@, pre.frames_view().len() as int);
            }
            assert forall|k: int|
                0 <= k < self.timer_view().len() implies (#[trigger] self.timer_view()[k]).task
                < self.frames_view().len() by {
                assert(self.timer_view()[k] == pre.timer_view()[k]);
            }
            Self::lemma_regs_changed(pre, *self, None);
        }
        let ghost tasksg = fired@.map_values(|reg: FdReg| reg.task);
        proof {
            assert(fired@ == Self::fired_fds(old(self).fd_view(), revs@));
            assert(tasksg.take(0) =~= Seq::<usize>::empty());
        }
        let mut j: usize = 0;
        while j < fired.len()
            invariant
                j <= fired@.len(),
                self.wf(),
                tasksg == fired@.map_values(|reg: FdReg| reg.task),
                forall|k: int|
                    0 <= k < fired@.len() ==> (#[trigger] fired@[k]).task
                        < self.frames_view().len(),
                self.frames_view() == old(self).frames_view(),
                self.waiters_view() == old(self).waiters_view(),
                self.timer_view() == old(self).timer_view(),
                self.now_view() == old(self).now_view(),
                self.passes_view() == old(self).passes_view(),
                self.fd_view() == Self::kept_fds(old(self).fd_view(), revs@),
                old(self).ready_view().is_prefix_of(self.ready_view()),
                (self.ready_view(), self.queued_view()) == wakes_applied(
                    old(self).frames_view(),
                    old(self).ready_view(),
                    old(self).queued_view(),
                    tasksg.take(j as int),
                ),
                forall|k: int|
                    0 <= k < j && self.frames_view()[(#[trigger] fired@[k]).task as int] is Running
                        ==> self.queued_view()[fired@[k].task as int],
            decreases fired@.len() - j,
        {
            let ghost prew = *self;
            self.wake(fired[j].task);
            proof {
                if prew.wakeable(fired@[j as int].task as int) {
                    Self::lemma_prefix_push(
                        old(self).ready_view(),
                        prew.ready_view(),
                        fired@[j as int].task,
                    );
                }
                assert(tasksg.take(j + 1).drop_last() =~= tasksg.take(j as int));
                assert(tasksg.take(j + 1).last() == fired@[j as int].task);
                assert((self.ready_view(), self.queued_view()) =~~= wakes_applied(
                    old(self).frames_view(),
                    old(self).ready_view(),
                    old(self).queued_view(),
                    tasksg.take(j + 1),
                ));
                assert forall|k: int|
                    0 <= k < j + 1 && self.frames_view()[(#[trigger] fired@[k]).task as int] is Running
                        implies self.queued_view()[fired@[k].task as int] by {
                    let t = fired@[k].task as int;
                    if k < j {
                        assert(prew.queued_view()[t] ==> self.queued_view()[t]);
                    } else {
                        if !prew.queued_view()[t] {
                            assert(prew.wakeable(t));
                        }
                    }
                }
            }
            j += 1;
        }
        let jfin = j;
        proof {
            assert(jfin == fired@.len());
            assert(tasksg.take(jfin as int) =~= tasksg);
            assert((self.ready_view(), self.queued_view()) == wakes_applied(
                old(self).frames_view(),
                old(self).ready_view(),
                old(self).queued_view(),
                tasksg.take(jfin as int),
            ));
            assert((self.ready_view(), self.queued_view()) == wakes_applied(
                old(self).frames_view(),
                old(self).ready_view(),
                old(self).queued_view(),
                tasksg,
            ));
            assert(tasksg =~= Self::fired_fds(old(self).fd_view(), revs@).map_values(
                |reg: FdReg| reg.task,
            ));
            assert(self.frames_view() == old(self).frames_view());
            assert forall|k: int|
                0 <= k < old(self).fd_view().len() && revs@[k] != 0 && self.frames_view()[(
                #[trigger] old(self).fd_view()[k]).task as int] is Running implies self.queued_view()[old(self).fd_view()[k].task as int] by {
                Self::lemma_fired_fds_contains(old(self).fd_view(), revs@, k);
                let i = choose|i: int|
                    0 <= i < Self::fired_fds(old(self).fd_view(), revs@).len()
                        && Self::fired_fds(old(self).fd_view(), revs@)[i] == old(self).fd_view()[k];
                assert(fired@[i] == old(self).fd_view()[k]);
            }
        }
    }

    /// Every registration kept after a report still names a task that was
    /// already named before, so task bounds carry over.
    proof fn lemma_kept_fds_tasks(regs: Seq<FdReg>, revs: Seq<u8>, bound: int)
        requires
            forall|i: int| 0 <= i < regs.len() ==> (#[trigger] regs[i]).task < bound,
        ensures
            forall|k: int|
                0 <= k < Self::kept_fds(regs, revs).len() ==> (#[trigger] Self::kept_fds(
                    regs,
                    revs,
                )[k]).task < bound,
        decreases regs.len(),
    {
        if regs.len() > 0 {
            assert forall|i: int|
                0 <= i < regs.drop_last().len() implies (#[trigger] regs.drop_last()[i]).task
                < bound by {
                assert(regs.drop_last()[i] == regs[i]);
            }
            Self::lemma_kept_fds_tasks(regs.drop_last(), revs.drop_last(), bound);
            let sub = Self::kept_fds(regs.drop_last(), revs.drop_last());
            assert forall|k: int|
                0 <= k < Self::kept_fds(regs, revs).len() implies (#[trigger] Self::kept_fds(
                regs,
                revs,
            )[k]).task < bound by {
                if revs[regs.len() - 1] == 0 {
                    assert(Self::kept_fds(regs, revs) == sub.push(regs.last()));
                    if k < sub.len() {
                        assert(Self::kept_fds(regs, revs)[k] == sub[k]);
                    } else {
                        assert(Self::kept_fds(regs, revs)[k] == regs.last());
                    }
                } else {
                    assert(Self::kept_fds(regs, revs) == sub);
                }
            }
        }
    }

    /// Timers are sorted when deadlines never decrease along the sequence.
    pub open spec fn sorted_by_deadline(s: Seq<TimerReg>) -> bool {
        forall|i: int, j: int|
            0 <= i < j < s.len() ==> (#[trigger] s[i]).deadline_ms <= (#[trigger] s[j]).deadline_ms
    }

    /// Fires every timer whose deadline has passed: due timers are removed
    /// (one-shot, exactly the ones with `deadline_ms <= now`) and their
    /// tasks are woken in deadline order, earliest deadline first, appended
    /// behind whatever was already queued. So of two tasks suspended on
    /// distinct deadlines, the earlier one is enqueued, and hence resumed,
    /// first. Returns the fired registrations in firing order.
    fn fire_due_timers(&mut self) -> (fired: Vec<TimerReg>)
        requires
            old(self).wf(),
        ensures
            final(self).wf(),
            final(self).frames_view() == old(self).frames_view(),
            final(self).waiters_view() == old(self).waiters_view(),
            final(self).fd_view() == old(self).fd_view(),
            final(self).now_view() == old(self).now_view(),
            final(self).passes_view() == old(self).passes_view(),
            final(self).timer_view() == old(self).timer_view().filter(
                |r: TimerReg| r.deadline_ms > old(self).now_view(),
            ),
            fired@.to_multiset() == old(self).timer_view().filter(
                |r: TimerReg| r.deadline_ms <= old(self).now_view(),
            ).to_multiset(),
            Self::sorted_by_deadline(fired@),
            old(self).ready_view().is_prefix_of(final(self).ready_view()),
            forall|k: int|
                0 <= k < fired@.len() && final(self).frames_view()[(#[trigger] fired@[k]).task as int] is Running
                    ==> final(self).queued_view()[fired@[k].task as int],
            (final(self).ready_view(), final(self).queued_view()) == wakes_applied(
                final(self).frames_view(),
                old(self).ready_view(),
                old(self).queued_view(),
                fired@.map_values(|reg: TimerReg| reg.task),
            ),
    {
        let now = self.now_ms;
        let ghost keep_p = |r: TimerReg| r.deadline_ms > old(self).now_view();
        let ghost due_p = |r: TimerReg| r.deadline_ms <= old(self).now_view();
        let mut kept: Vec<TimerReg> = Vec::new();
        let mut due: Vec<TimerReg> = Vec::new();
        let mut i: usize = 0;
        while i < self.timer_regs.len()
            invariant
                *self == *old(self),
                self.wf(),
                i <= self.timer_view().len(),
                now == self.now_view(),
                keep_p == (|r: TimerReg| r.deadline_ms > self.now_view()),
                due_p == (|r: TimerReg| r.deadline_ms <= self.now_view()),
                kept@ == self.timer_view().take(i as int).filter(keep_p),
                due@ == self.timer_view().take(i as int).filter(due_p),
            decreases self.timer_view().len() - i,
        {
            let reg = self.timer_regs[i];
            proof {
                reveal(Seq::filter);
                let regs_i1 = self.timer_view().take(i + 1 as int);
                assert(regs_i1.drop_last() =~= self.timer_view().take(i as int));
                assert(regs_i1.last() == reg);
            }
            if reg.deadline_ms > now {
                kept.push(reg);
            } else {
                due.push(reg);
            }
            i += 1;
        }
        proof {
            assert(self.timer_view().take(self.timer_view().len() as int) =~= self.timer_view());
        }
        let ghost pre = *self;
        self.timer_regs = kept;
        proof {
            broadcast use vstd::seq_lib::group_filter_ensures;
            assert forall|k: int|
                0 <= k < self.timer_view().len() implies (#[trigger] self.timer_view()[k]).task
                < self.frames_view().len() by {
                assert(pre.timer_view().filter(keep_p)[k] == self.timer_view()[k]);
                assert(pre.timer_view().contains(self.timer_view()[k])) by {
                    Seq::lemma_filter_contains_rev(pre.timer_view(), keep_p, self.timer_view()[k]);
                }
                let w = choose|w: int|
                    0 <= w < pre.timer_view().len() && pre.timer_view()[w] == self.timer_view()[k];
                assert(pre.timer_view()[w].task < pre.frames_view().len());
            }
            assert forall|k: int|
                0 <= k < self.fd_view().len() implies (#[trigger] self.fd_view()[k]).task
                < self.frames_view().len() by {
                assert(self.fd_view()[k] == pre.fd_view()[k]);
            }
            Self::lemma_regs_changed(pre, *self, None);
        }
        let ghost dueg = due@;
        let sorted = Self::sort_by_deadline(due);
        proof {
            assert forall|k: int|
                0 <= k < sorted@.len() implies (#[trigger] sorted@[k]).task
                < self.frames_view().len() by {
                assert(dueg.contains(sorted@[k]));
                assert(pre.timer_view().contains(sorted@[k])) by {
                    Seq::lemma_filter_contains_rev(pre.timer_view(), due_p, sorted@[k]);
                }
                let u = choose|u: int|
                    0 <= u < pre.timer_view().len() && pre.timer_view()[u] == sorted@[k];
                assert(pre.timer_view()[u].task < pre.frames_view().len());
            }
        }
        let ghost pre_wakes = *self;
        let ghost tasksg = sorted@.map_values(|reg: TimerReg| reg.task);
        proof {
            assert(tasksg.take(0) =~= Seq::<usize>::empty());
        }
        let mut j: usize = 0;
        while j < sorted.len()
            invariant
                j <= sorted@.len(),
                self.wf(),
                tasksg == sorted@.map_values(|reg: TimerReg| reg.task),
                self.frames_view() == pre_wakes.frames_view(),
                self.waiters_view() == pre_wakes.waiters_view(),
                self.fd_view() == pre_wakes.fd_view(),
                self.timer_view() == pre_wakes.timer_view(),
                self.now_view() == pre_wakes.now_view(),
                self.passes_view() == pre_wakes.passes_view(),
                pre_wakes.ready_view().is_prefix_of(self.ready_view()),
                (self.ready_view(), self.queued_view()) == wakes_applied(
                    pre_wakes.frames_view(),
                    pre_wakes.ready_view(),
                    pre_wakes.queued_view(),
                    tasksg.take(j as int),
                ),
                forall|k: int|
                    0 <= k < sorted@.len() ==> (#[trigger] sorted@[k]).task
                        < self.frames_view().len(),
                forall|k: int|
                    0 <= k < j && self.frames_view()[(#[trigger] sorted@[k]).task as int] is Running
                        ==> self.queued_view()[sorted@[k].task as int],
            decreases sorted@.len() - j,
        {
            let ghost prew = *self;
            self.wake(sorted[j].task);
            proof {
                if prew.wakeable(sorted@[j as int].task as int) {
                    Self::lemma_prefix_push(
                        pre_wakes.ready_view(),
                        prew.ready_view(),
                        sorted@[j as int].task,
                    );
                }
                assert(tasksg.take(j + 1).drop_last() =~= tasksg.take(j as int));
                assert(tasksg.take(j + 1).last() == sorted@[j as int].task);
                assert((self.ready_view(), self.queued_view()) =~~= wakes_applied(
                    pre_wakes.frames_view(),
                    pre_wakes.ready_view(),
                    pre_wakes.queued_view(),
                    tasksg.take(j + 1),
                ));
                assert forall|k: int|
                    0 <= k < j + 1 && self.frames_view()[(#[trigger] sorted@[k]).task as int] is Running
                        implies self.queued_view()[sorted@[k].task as int] by {
                    let t = sorted@[k].task as int;
                    if k < j {
                        assert(prew.queued_view()[t] ==> self.queued_view()[t]);
                    } else {
                        if !prew.queued_view()[t] {
                            assert(prew.wakeable(t));
                        }
                    }
                }
            }
            j += 1;
        }
        proof {
            assert(tasksg.take(sorted@.len() as int) =~= tasksg);
        }
        sorted
    }

    /// A prefix stays a prefix when the longer sequence grows at the back.
    proof fn lemma_prefix_push<T>(a: Seq<T>, b: Seq<T>, x: T)
        requires
            a.is_prefix_of(b),
        ensures
            a.is_prefix_of(b.push(x)),
    {
        assert(b.push(x).subrange(0, a.len() as int) =~= b.subrange(0, a.len() as int));
    }

    /// Prefix order is transitive.
    proof fn lemma_prefix_trans<T>(a: Seq<T>, b: Seq<T>, c: Seq<T>)
        requires
            a.is_prefix_of(b),
            b.is_prefix_of(c),
        ensures
            a.is_prefix_of(c),
    {
        assert(c.subrange(0, a.len() as int) =~= b.subrange(0, a.len() as int));
    }

    /// Sorts timer registrations by deadline, keeping exactly the same
    /// registrations (as a multiset), by insertion into place.
    fn sort_by_deadline(v: Vec<TimerReg>) -> (out: Vec<TimerReg>)
        ensures
            Self::sorted_by_deadline(out@),
            out@.to_multiset() == v@.to_multiset(),
            out@.len() == v@.len(),
            forall|k: int| 0 <= k < out@.len() ==> #[trigger] v@.contains(out@[k]),
    {
        let mut out: Vec<TimerReg> = Vec::new();
        let mut i: usize = 0;
        proof {
            v@.take(0).to_multiset_ensures();
            assert(v@.take(0) =~= Seq::<TimerReg>::empty());
            assert(v@.take(0).to_multiset() =~= Multiset::<TimerReg>::empty());
        }
        while i < v.len()
            invariant
                i <= v@.len(),
                out@.len() == i,
                Self::sorted_by_deadline(out@),
                out@.to_multiset() == v@.take(i as int).to_multiset(),
            decreases v@.len() - i,
        {
            let reg = v[i];
            let mut pos: usize = 0;
            while pos < out.len() && out[pos].deadline_ms <= reg.deadline_ms
                invariant
                    pos <= out@.len(),
                    forall|k: int|
                        0 <= k < pos ==> (#[trigger] out@[k]).deadline_ms <= reg.deadline_ms,
                decreases out@.len() - pos,
            {
                pos += 1;
            }
            let ghost out0 = out@;
            out.insert(pos, reg);
            proof {
                Self::lemma_sorted_insert(out0, pos as int, reg);
                Self::lemma_insert_multiset(out0, pos as int, reg);
                out0.to_multiset_ensures();
                let t1 = v@.take(i + 1 as int);
                assert(t1.drop_last() =~= v@.take(i as int));
                assert(t1.last() == reg);
                assert(t1 =~= v@.take(i as int).push(reg));
                v@.take(i as int).to_multiset_ensures();
            }
            i += 1;
        }
        proof {
            assert(v@.take(v@.len() as int) =~= v@);
            out@.to_multiset_ensures();
            v@.to_multiset_ensures();
            assert forall|k: int| 0 <= k < out@.len() implies #[trigger] v@.contains(out@[k]) by {
                assert(out@.contains(out@[k]));
                assert(out@.to_multiset().count(out@[k]) > 0);
            }
        }
        out
    }

    /// Inserting at the first position whose deadline is larger keeps the
    /// sequence sorted.
    #[verifier::rlimit(30)]
    proof fn lemma_sorted_insert(s: Seq<TimerReg>, pos: int, x: TimerReg)
        requires
            Self::sorted_by_deadline(s),
            0 <= pos <= s.len(),
            forall|k: int| 0 <= k < pos ==> (#[trigger] s[k]).deadline_ms <= x.deadline_ms,
            pos < s.len() ==> s[pos].deadline_ms > x.deadline_ms,
        ensures
            Self::sorted_by_deadline(s.insert(pos, x)),
    {
        let t = s.insert(pos, x);
        s.insert_ensures(pos, x);
        assert forall|i: int, j: int|
            0 <= i < j < t.len() implies (#[trigger] t[i]).deadline_ms
            <= (#[trigger] t[j]).deadline_ms by {
            if i < pos && j < pos {
                assert(t[i] == s[i] && t[j] == s[j]);
            } else if i < pos && j == pos {
                assert(t[i] == s[i] && t[j] == x);
            } else if i < pos && j > pos {
                assert(t[i] == s[i] && t[j] == s[j - 1]);
                if j - 1 >= pos {
                    assert(s[pos].deadline_ms > x.deadline_ms);
                    assert(s[pos].deadline_ms <= s[j - 1].deadline_ms || pos == j - 1);
                }
            } else if i == pos {
                assert(t[i] == x && t[j] == s[j - 1]);
                assert(s[j - 1].deadline_ms > x.deadline_ms || j - 1 == pos);
                assert(j - 1 >= pos);
                if j - 1 > pos {
                    assert(s[pos].deadline_ms <= s[j - 1].deadline_ms);
                }
            } else {
                assert(t[i] == s[i - 1] && t[j] == s[j - 1]);
            }
        }
    }

    /// Absorbs one multiplex report: a failure is surfaced as the system
    /// error with nothing else done, never swallowed; a successful report
    /// counts the pass, removes and wakes exactly the fired descriptor
    /// registrations, advances the clock, and fires the due timers.
    fn absorb_poll_outcome(&mut self, outcome: Result<Vec<u8>, i32>) -> (r: Result<(), RunError>)
        requires
            old(self).wf(),
            outcome matches Ok(revs) ==> revs@.len() == old(self).fd_view().len(),
        ensures
            final(self).wf(),
            final(self).frames_view() == old(self).frames_view(),
            final(self).waiters_view() == old(self).waiters_view(),
            old(self).ready_view().is_prefix_of(final(self).ready_view()),
            final(self).now_view() >= old(self).now_view(),
            outcome matches Err(e) ==> r == Err::<(), RunError>(RunError::Sys(e)) && *final(self)
                == *old(self),
            outcome matches Ok(revs) ==> ({
                &&& r == Ok::<(), RunError>(())
                &&& final(self).passes_view() == if old(self).passes_view() + 1 > u64::MAX {
                    u64::MAX as int
                } else {
                    old(self).passes_view() + 1
                }
                &&& final(self).fd_view() == Self::kept_fds(old(self).fd_view(), revs@)
                &&& (forall|k: int|
                    0 <= k < old(self).fd_view().len() && revs@[k] != 0 && final(self).frames_view()[(#[trigger] old(self).fd_view()[k]).task as int] is Running
                        ==> final(self).queued_view()[old(self).fd_view()[k].task as int])
                &&& final(self).timer_view() == old(self).timer_view().filter(
                    |reg: TimerReg| reg.deadline_ms > final(self).now_view(),
                )
                &&& (forall|i: int|
                    0 <= i < old(self).timer_view().len() && (#[trigger] old(self).timer_view()[i]).deadline_ms <= final(self).now_view() && final(self).frames_view()[old(self).timer_view()[i].task as int] is Running ==> final(self).queued_view()[old(self).timer_view()[i].task as int])
            }),
    {
        let revs = match outcome {
            Ok(revs) => revs,
            Err(e) => {
                return Err(RunError::Sys(e));
            }
        };
        let ghost before_bump = *self;
        self.reactor_passes = self.reactor_passes.saturating_add(1);
        proof {
            Self::lemma_wf_views(before_bump, *self, None);
        }
        let ghost before_fds = *self;
        self.fire_fd_events(&revs);
        proof {
            assert forall|k: int|
                0 <= k < old(self).fd_view().len() && revs@[k] != 0 && self.frames_view()[(
                #[trigger] old(self).fd_view()[k]).task as int] is Running implies self.queued_view()[old(self).fd_view()[k].task as int] by {
                assert(before_fds.fd_view()[k] == old(self).fd_view()[k]);
            }
        }
        let ghost after_fds = *self;
        let _ = self.now_ms();
        let ghost before_timers = *self;
        let fired = self.fire_due_timers();
        proof {
            Self::lemma_prefix_trans(
                old(self).ready_view(),
                before_timers.ready_view(),
                final(self).ready_view(),
            );
            // the fd wakes survive the timer wakes: queued flags only grow
            assert forall|k: int|
                0 <= k < old(self).fd_view().len() && revs@[k] != 0 && final(self).frames_view()[(
                #[trigger] old(self).fd_view()[k]).task as int] is Running implies final(self).queued_view()[old(self).fd_view()[k].task as int] by {
                let t = old(self).fd_view()[k].task as int;
                assert(after_fds.queued_view()[t]);
                lemma_wakes_queued(
                    before_timers.frames_view(),
                    before_timers.ready_view(),
                    before_timers.queued_view(),
                    fired@.map_values(|reg: TimerReg| reg.task),
                );
            }
            let due_p = |reg: TimerReg| reg.deadline_ms <= before_timers.now_view();
            fired@.to_multiset_ensures();
            before_timers.timer_view().filter(due_p).to_multiset_ensures();
            assert forall|i: int|
                0 <= i < old(self).timer_view().len() && (#[trigger] old(self).timer_view()[i]).deadline_ms <= final(self).now_view() && final(self).frames_view()[old(self).timer_view()[i].task as int] is Running implies final(self).queued_view()[old(self).timer_view()[i].task as int] by {
                let reg = old(self).timer_view()[i];
                assert(before_timers.timer_view()[i] == reg);
                assert(before_timers.timer_view().filter(due_p).contains(reg)) by {
                    broadcast use vstd::seq_lib::group_filter_ensures;
                }
                assert(fired@.to_multiset().count(reg) > 0);
                assert(fired@.contains(reg));
                let k = choose|k: int| 0 <= k < fired@.len() && fired@[k] == reg;
            }
        }
        Ok(())
    }

    /// Blocks the whole process on one OS multiplex call until a registered
    /// descriptor event or timer deadline is ready, then wakes the tasks
    /// whose registrations fired and removes those registrations (one-shot:
    /// a consumer re-registers explicitly). The wait's timeout is the
    /// smallest pending deadline, or unbounded when only descriptors are
    /// registered. A failing multiplex call is surfaced, never retried
    /// silently, and leaves every queue and table untouched.
    pub fn reactor_pass(&mut self) -> (r: Result<(), RunError>)
        requires
            old(self).wf(),
            old(self).fd_view().len() + old(self).timer_view().len() > 0,
        ensures
            final(self).wf(),
            final(self).frames_view() == old(self).frames_view(),
            final(self).waiters_view() == old(self).waiters_view(),
            final(self).now_view() >= old(self).now_view(),
            old(self).ready_view().is_prefix_of(final(self).ready_view()),
            r matches Err(e) ==> e is Sys && final(self).queued_view() == old(self).queued_view()
                && final(self).ready_view() == old(self).ready_view() && final(self).fd_view()
                == old(self).fd_view() && final(self).timer_view() == old(self).timer_view()
                && final(self).passes_view() == old(self).passes_view(),
            r is Ok ==> ({
                // exactly one blocking wait happened
                &&& final(self).passes_view() == if old(self).passes_view() + 1 > u64::MAX {
                    u64::MAX as int
                } else {
                    old(self).passes_view() + 1
                }
                // one-shot descriptors: against the report the kernel
                // chose, what fired is gone (the rest stay in order) and
                // every fired registration's task that can still run is
                // queued
                &&& (exists|revs: Seq<u8>|
                    revs.len() == old(self).fd_view().len() && final(self).fd_view()
                        == Self::kept_fds(old(self).fd_view(), revs) && (forall|k: int|
                        0 <= k < old(self).fd_view().len() && revs[k] != 0 && final(self).frames_view()[(#[trigger] old(self).fd_view()[k]).task as int] is Running
                            ==> final(self).queued_view()[old(self).fd_view()[k].task as int]))
                // one-shot timers: every deadline at or before the observed
                // time fired; later ones all remain
                &&& final(self).timer_view() == old(self).timer_view().filter(
                    |reg: TimerReg| reg.deadline_ms > final(self).now_view(),
                )
                // and every fired timer's task that can still run sits in
                // the ready queue
                &&& (forall|i: int|
                    0 <= i < old(self).timer_view().len() && (#[trigger] old(self).timer_view()[i]).deadline_ms <= final(self).now_view() && final(self).frames_view()[old(self).timer_view()[i].task as int] is Running ==> final(self).queued_view()[old(self).timer_view()[i].task as int])
            }),
    {
        let now = self.now_ms();
        let timeout_ms: i32 = match self.min_deadline() {
            None => -1,
            Some(d) => {
                if d <= now {
                    0
                } else {
                    let diff = d - now;
                    if diff > i32::MAX as u64 {
                        i32::MAX
                    } else {
                        diff as i32
                    }
                }
            }
        };
        let mut fds: Vec<(i32, u8)> = Vec::new();
        let mut i: usize = 0;
        while i < self.fd_regs.len()
            invariant
                self.wf(),
                self.frames_view() == old(self).frames_view(),
                self.waiters_view() == old(self).waiters_view(),
                self.queued_view() == old(self).queued_view(),
                self.ready_view() == old(self).ready_view(),
                self.fd_view() == old(self).fd_view(),
                self.timer_view() == old(self).timer_view(),
                self.passes_view() == old(self).passes_view(),
                self.now_view() >= old(self).now_view(),
                i <= self.fd_view().len(),
                fds@.len() == i,
                // exactly the registered interests go to the multiplex call
                forall|k: int|
                    0 <= k < i ==> #[trigger] fds@[k] == (
                        self.fd_view()[k].fd,
                        self.fd_view()[k].mask,
                    ),
            decreases self.fd_view().len() - i,
        {
            let reg = self.fd_regs[i];
            fds.push((reg.fd, reg.mask));
            i += 1;
        }
        let outcome = crate::sys::sys_poll(&fds, timeout_ms);
        let ghost outg = outcome;
        let ghost before_absorb = *self;
        let r = self.absorb_poll_outcome(outcome);
        proof {
            Self::lemma_prefix_trans(
                old(self).ready_view(),
                before_absorb.ready_view(),
                final(self).ready_view(),
            );
            match outg {
                Ok(revs) => {
                    assert(revs@.len() == old(self).fd_view().len() && final(self).fd_view()
                        == Self::kept_fds(old(self).fd_view(), revs@) && (forall|k: int|
                        0 <= k < old(self).fd_view().len() && revs@[k] != 0 && final(self).frames_view()[(#[trigger] old(self).fd_view()[k]).task as int] is Running
                            ==> final(self).queued_view()[old(self).fd_view()[k].task as int]));
                },
                Err(_) => {},
            }
        }
        r
    }

    /// Spawns `c`, then runs tasks until it finishes, and returns its
    /// value. The front of the ready queue is resumed repeatedly; when the
    /// queue empties with reactor registrations pending, the runtime blocks
    /// on the multiplex call; with nothing registered and the target still
    /// incomplete the run has stalled, which is reported rather than hung.
    ///
    /// When every running task is immediately ready and none awaits
    /// another, the call returns `c`'s value by pure queue draining, with
    /// no reactor wait: the count of blocking multiplex calls is unchanged.
    #[verifier::loop_isolation(false)]
    pub fn block_on(&mut self, c: C) -> (r: Result<C::Output, RunError>)
        requires
            old(self).wf(),
        ensures
            final(self).wf(),
            old(self).all_immediate_idle() && c.immediate() ==> r == Ok::<C::Output, RunError>(
                c.immediate_value(),
            ) && final(self).passes_view() == old(self).passes_view(),
            // success means the spawned target completed and this call
            // consumed its value, exactly once
            r is Ok ==> final(self).frames_view()[old(self).frames_view().len() as int] is Taken,
            // each error comes with its circumstances: a stalled run has
            // nothing queued and nothing registered while the target still
            // runs; a consumed result means someone else took the value;
            // an exhausted budget leaves the target running; a system
            // error can only arise while something is registered
            r == Err::<C::Output, RunError>(RunError::Stalled) ==> final(self).ready_view().len()
                == 0 && final(self).fd_view().len() == 0 && final(self).timer_view().len() == 0
                && final(self).frames_view()[old(self).frames_view().len() as int] is Running,
            r == Err::<C::Output, RunError>(RunError::ResultTaken) ==> final(self).frames_view()[old(self).frames_view().len() as int] is Taken,
            r == Err::<C::Output, RunError>(RunError::Exhausted) ==> final(self).frames_view()[old(self).frames_view().len() as int] is Running,
            (r matches Err(e) && e matches RunError::Sys(errno)) ==> final(self).fd_view().len()
                + final(self).timer_view().len() > 0,
            // and conversely: ending with empty queue, empty tables and a
            // still-running target can only be the stalled report (or the
            // practically unreachable exhausted budget)
            (final(self).ready_view().len() == 0 && final(self).fd_view().len() == 0 && final(self).timer_view().len() == 0 && final(self).frames_view()[old(self).frames_view().len() as int] is Running) ==> (r == Err::<C::Output, RunError>(
                RunError::Stalled,
            ) || r == Err::<C::Output, RunError>(RunError::Exhausted)),
    {
        let ghost rt0 = *self;
        let ghost pre_imm = rt0.all_immediate_idle() && c.immediate();
        let ghost cc = c;
        let ghost cval = c.immediate_value();
        let h = self.spawn(c);
        let task = h.task_id();
        proof {
            if pre_imm {
                assert forall|t: int|
                    0 <= t < self.frames_view().len() implies ((#[trigger] self.frames_view()[t]) matches Slot::Running(rc)
                        ==> rc.immediate()) by {
                    if t < rt0.frames_view().len() {
                        assert(self.frames_view()[t] == rt0.frames_view()[t]);
                    } else {
                        assert(self.frames_view()[t] == Slot::<C>::Running(cc));
                    }
                }
                assert forall|t: int|
                    0 <= t < self.waiters_view().len() implies (#[trigger] self.waiters_view()[t]) is None by {
                    if t < rt0.waiters_view().len() {
                        assert(self.waiters_view()[t] == rt0.waiters_view()[t]);
                    }
                }
                assert(self.ready_view().last() == task);
            }
        }
        let mut fuel: u64 = u64::MAX;
        let rl = self.ready.len();
        proof {
            assert(self.ready_view().len() == rl);
            assert(fuel >= rl);
        }
        loop
            invariant
                self.wf(),
                task == h.spec_task(),
                task < self.frames_view().len(),
                pre_imm ==> ({
                    &&& self.all_immediate_idle()
                    &&& self.passes_view() == rt0.passes_view()
                    &&& fuel >= self.ready_view().len()
                    &&& (self.frames_view()[task as int] matches Slot::Running(rc) ==> rc == cc
                        && self.ready_view().contains(task))
                    &&& (self.frames_view()[task as int] matches Slot::Done(v) ==> v == cval)
                    &&& !(self.frames_view()[task as int] is Taken)
                }),
            decreases fuel,
        {
            let ghost at_head = *self;
            match self.try_join(&h) {
                JoinPoll::Ready(v) => {
                    return Ok(v);
                }
                JoinPoll::Gone => {
                    proof {
                        if pre_imm {
                            assert(!(at_head.frames_view()[task as int] is Stepping));
                            assert(false);
                        }
                    }
                    return Err(RunError::ResultTaken);
                }
                JoinPoll::Pending => {}
            }
            proof {
                if pre_imm {
                    Self::lemma_imm_views(at_head, *self);
                    assert(self.frames_view()[task as int] == at_head.frames_view()[task as int]);
                    assert(self.frames_view()[task as int] is Running);
                    assert(at_head.ready_view().contains(task));
                    let j = choose|j: int|
                        0 <= j < at_head.ready_view().len() && at_head.ready_view()[j] == task;
                    assert(self.ready_view()[j] == task);
                    assert(self.ready_view().contains(task));
                    assert(self.ready_view().len() > 0);
                }
            }
            if fuel == 0 {
                return Err(RunError::Exhausted);
            }
            fuel = fuel - 1;
            if self.ready.len() > 0 {
                let ghost prestep = *self;
                self.step_one();
                proof {
                    if pre_imm {
                        let t0 = prestep.ready_view()[0] as int;
                        assert(self.frames_view() == prestep.frames_view().update(
                            t0,
                            Slot::Done(prestep.frames_view()[t0]->Running_0.immediate_value()),
                        ));
                        if t0 == task as int {
                            assert(prestep.frames_view()[t0]->Running_0 == cc);
                            assert(self.frames_view()[task as int] == Slot::<C>::Done(
                                cc.immediate_value(),
                            ));
                        } else {
                            assert(self.frames_view()[task as int]
                                == prestep.frames_view()[task as int]);
                            if self.frames_view()[task as int] is Running {
                                let j = choose|j: int|
                                    0 <= j < prestep.ready_view().len() && prestep.ready_view()[j]
                                        == task;
                                assert(j != 0);
                                assert(self.ready_view()[j - 1] == task);
                            }
                        }
                    }
                }
            } else if self.fd_regs.len() == 0 && self.timer_regs.len() == 0 {
                return Err(RunError::Stalled);
            } else {
                proof {
                    if pre_imm {
                        assert(self.frames_view()[task as int] is Running);
                        let j = choose|j: int|
                            0 <= j < self.ready_view().len() && self.ready_view()[j] == task;
                        assert(false);
                    }
                }
                match self.reactor_pass() {
                    Ok(()) => {}
                    Err(e) => {
                        return Err(e);
                    }
                }
            }
        }
    }

    /// The pure queue-draining regime only reads frames and waiters, so it
    /// carries over between states whose views agree.
    proof fn lemma_imm_views(pre: Self, post: Self)
        requires
            pre.all_immediate_idle(),
            post.frames_view() == pre.frames_view(),
            post.waiters_view() == pre.waiters_view(),
        ensures
            post.all_immediate_idle(),
    {
        assert forall|t: int|
            0 <= t < post.frames_view().len() implies ((#[trigger] post.frames_view()[t]) matches Slot::Running(rc)
                ==> rc.immediate()) by {
            assert(post.frames_view()[t] == pre.frames_view()[t]);
        }
        assert forall|t: int|
            0 <= t < post.waiters_view().len() implies (#[trigger] post.waiters_view()[t]) is None by {
            assert(post.waiters_view()[t] == pre.waiters_view()[t]);
        }
    }

    /// Inserting anywhere adds exactly one occurrence to the multiset.
    proof fn lemma_insert_multiset(s: Seq<TimerReg>, pos: int, x: TimerReg)
        requires
            0 <= pos <= s.len(),
        ensures
            s.insert(pos, x).to_multiset() == s.to_multiset().insert(x),
    {
        let a = s.subrange(0, pos);
        let b = s.subrange(pos, s.len() as int);
        assert(s.insert(pos, x) == a.push(x) + b);
        vstd::seq_lib::lemma_multiset_commutative(a.push(x), b);
        a.to_multiset_ensures();
        assert(s =~= a + b);
        vstd::seq_lib::lemma_multiset_commutative(a, b);
        assert(a.push(x).to_multiset() =~= a.to_multiset().insert(x));
        assert(s.insert(pos, x).to_multiset() =~= s.to_multiset().insert(x));
    }
}

} // verus!
