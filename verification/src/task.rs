//! The suspendable-computation interface driven by the scheduler.
//!
//! A computation is advanced one step at a time. Each step either finishes
//! with a value or suspends. While stepping, the computation talks to the
//! scheduler only through a [`StepCtx`]: it may ask to be woken on a file
//! descriptor event, a timer deadline or another task's completion, and it
//! may spawn further tasks. The scheduler applies those requests after the
//! step returns.

use vstd::prelude::*;

verus! {

/// Outcome of driving a computation one step.
pub enum Step<V> {
    /// The computation finished with this value.
    Done(V),
    /// The computation suspended; it runs again only after a wake.
    Pending,
}

/// A wake condition or scheduler effect requested during one step.
pub enum WakeRequest<C> {
    /// Create a new task running this computation.
    Spawn(C),
    /// Wake the stepped task when the descriptor reports one of the
    /// events in the mask (or an error/hang-up condition).
    Fd(i32, u8),
    /// Wake the stepped task once the monotonic clock reaches this
    /// deadline, in milliseconds.
    Deadline(u64),
    /// Wake the stepped task when the named task completes, delivering
    /// its value; or deliver at once if it has already completed.
    TaskDone(usize),
}

/// What one step of a computation may see and request.
///
/// The scheduler builds one per step and applies the collected requests
/// when the step returns, so a computation can never touch scheduler
/// state directly.
pub struct StepCtx<C> {
    /// Identity of the task being stepped.
    pub(crate) me: usize,
    /// Latest observed monotonic time, in milliseconds.
    pub(crate) now_ms: u64,
    /// Task id the next `spawn` request will receive.
    pub(crate) next_task: usize,
    /// The stepped task's file-descriptor registrations still pending
    /// with the reactor, as (descriptor, event mask) pairs.
    pub(crate) my_fds: Vec<(i32, u8)>,
    /// Requests collected during this step, applied in order afterwards.
    pub(crate) requests: Vec<WakeRequest<C>>,
}

impl<C> StepCtx<C> {
    /// Identity of the task being stepped, as the contracts see it.
    pub closed spec fn spec_me(&self) -> usize {
        self.me
    }

    /// The time snapshot, as the contracts see it.
    pub closed spec fn spec_now(&self) -> u64 {
        self.now_ms
    }

    /// The task id the next spawn request receives, as the contracts see it.
    pub closed spec fn spec_next(&self) -> usize {
        self.next_task
    }

    /// The pending (descriptor, mask) registrations of the stepped task.
    pub closed spec fn spec_fds(&self) -> Seq<(i32, u8)> {
        self.my_fds@
    }

    /// The requests collected so far, in order.
    pub closed spec fn spec_requests(&self) -> Seq<WakeRequest<C>> {
        self.requests@
    }

    /// Builds the context handed to one step of task `me`.
    pub(crate) fn new_ctx(me: usize, now_ms: u64, next_task: usize, my_fds: Vec<(i32, u8)>) -> (c:
        Self)
        ensures
            c.spec_me() == me,
            c.spec_now() == now_ms,
            c.spec_next() == next_task,
            c.spec_fds() == my_fds@,
            c.spec_requests() == Seq::<WakeRequest<C>>::empty(),
    {
        StepCtx { me, now_ms, next_task, my_fds, requests: Vec::new() }
    }

    /// Hands the collected requests to the scheduler.
    pub(crate) fn into_requests(self) -> (r: Vec<WakeRequest<C>>)
        ensures
            r@ == self.spec_requests(),
    {
        self.requests
    }

    /// Identity of the task being stepped.
    pub fn me(&self) -> (t: usize)
        ensures
            t == self.spec_me(),
    {
        self.me
    }

    /// Latest observed monotonic time, in milliseconds.
    pub fn now_ms(&self) -> (t: u64)
        ensures
            t == self.spec_now(),
    {
        self.now_ms
    }

    /// Ask the scheduler to create a new task running `c`, and return the
    /// task id it will receive.
    pub fn spawn(&mut self, c: C) -> (t: usize)
        ensures
            t == old(self).spec_next(),
            final(self).spec_requests() == old(self).spec_requests().push(WakeRequest::Spawn(c)),
            final(self).spec_next() == if old(self).spec_next() + 1 > usize::MAX {
                usize::MAX as int
            } else {
                old(self).spec_next() + 1
            },
            final(self).spec_me() == old(self).spec_me(),
            final(self).spec_now() == old(self).spec_now(),
            final(self).spec_fds() == old(self).spec_fds(),
    {
        let t = self.next_task;
        self.next_task = self.next_task.saturating_add(1);
        self.requests.push(WakeRequest::Spawn(c));
        t
    }

    /// Ask to be woken when `fd` reports an event in `mask`.
    pub fn wait_fd(&mut self, fd: i32, mask: u8)
        ensures
            final(self).spec_requests() == old(self).spec_requests().push(WakeRequest::Fd(fd, mask)),
            final(self).spec_me() == old(self).spec_me(),
            final(self).spec_now() == old(self).spec_now(),
            final(self).spec_next() == old(self).spec_next(),
            final(self).spec_fds() == old(self).spec_fds(),
    {
        self.requests.push(WakeRequest::Fd(fd, mask));
    }

    /// Ask to be woken once the monotonic clock reaches `deadline_ms`.
    pub fn wait_deadline(&mut self, deadline_ms: u64)
        ensures
            final(self).spec_requests() == old(self).spec_requests().push(WakeRequest::Deadline(deadline_ms)),
            final(self).spec_me() == old(self).spec_me(),
            final(self).spec_now() == old(self).spec_now(),
            final(self).spec_next() == old(self).spec_next(),
            final(self).spec_fds() == old(self).spec_fds(),
    {
        self.requests.push(WakeRequest::Deadline(deadline_ms));
    }

    /// Ask to be woken when task `t` completes, receiving its value
    /// through [`Compute::on_task_done`].
    pub fn wait_task(&mut self, t: usize)
        ensures
            final(self).spec_requests() == old(self).spec_requests().push(WakeRequest::TaskDone(t)),
            final(self).spec_me() == old(self).spec_me(),
            final(self).spec_now() == old(self).spec_now(),
            final(self).spec_next() == old(self).spec_next(),
            final(self).spec_fds() == old(self).spec_fds(),
    {
        self.requests.push(WakeRequest::TaskDone(t));
    }

    /// True when the stepped task still has a pending reactor registration
    /// for exactly this descriptor and mask. A registration disappears when
    /// it fires, so a suspension primitive can tell "woken by my event"
    /// from "woken for another reason".
    pub fn fd_registered(&self, fd: i32, mask: u8) -> (r: bool)
        ensures
            r == self.spec_fds().contains((fd, mask)),
    {
        let mut i: usize = 0;
        while i < self.my_fds.len()
            invariant
                i <= self.my_fds@.len(),
                forall|k: int| 0 <= k < i ==> self.my_fds@[k] != (fd, mask),
            decreases self.my_fds@.len() - i,
        {
            let (f, m) = self.my_fds[i];
            if f == fd && m == mask {
                return true;
            }
            i += 1;
        }
        false
    }
}

/// A suspendable computation: the unit of work a task runs.
///
/// The scheduler drives it through [`Compute::step`]; values of awaited
/// tasks arrive through [`Compute::on_task_done`] before the next step.
pub trait Compute: Sized {
    /// The value the computation finishes with.
    type Output;

    /// True when a single step finishes the computation without touching
    /// the context (no suspension, no spawn). Immediately-ready
    /// computations let the scheduler promise pure queue draining.
    open spec fn immediate(&self) -> bool {
        false
    }

    /// The value an immediate computation finishes with.
    open spec fn immediate_value(&self) -> Self::Output {
        arbitrary()
    }

    /// Drive the computation one step as a whole task: finish with a
    /// value, or record wake conditions in `ctx` and suspend. Only here is
    /// the context's own type available, so only a whole task can spawn.
    fn step(&mut self, ctx: &mut StepCtx<Self>) -> (r: Step<Self::Output>)
        ensures
            old(self).immediate() ==> r == Step::Done(old(self).immediate_value())
                && *final(ctx) == *old(ctx),
    ;

    /// Drive the computation one step as part of a larger task whose
    /// computation type is `R`: the composite hands its own context down.
    fn poll<R>(&mut self, ctx: &mut StepCtx<R>) -> (r: Step<Self::Output>)
        ensures
            old(self).immediate() ==> r == Step::Done(old(self).immediate_value())
                && *final(ctx) == *old(ctx),
    ;

    /// Receive the value of awaited task `task`, requested earlier through
    /// [`StepCtx::wait_task`]. Runs before the next `step`.
    fn on_task_done(&mut self, task: usize, value: Self::Output);

    /// True when the computation awaits the named task, letting a
    /// composite hand one delivered value to the part that awaits it.
    fn wants_task(&self, task: usize) -> bool;
}

} // verus!
