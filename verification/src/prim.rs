//! The basic computations: an immediately-ready value, awaiting another
//! task's result, and the two suspension primitives that register interest
//! with the reactor (descriptor events and timer deadlines).

use vstd::prelude::*;

use crate::runtime::JoinHandle;
use crate::task::{Compute, Step, StepCtx, WakeRequest};

verus! {

/// Event mask bit: the descriptor has data to read.
pub const FD_IN: u8 = 0x1;

/// Event mask bit: the descriptor accepts writes.
pub const FD_OUT: u8 = 0x4;

/// Event mask bit: error condition; reported even when not requested, as
/// is hang-up (the peer closed its end).
pub const FD_ERR: u8 = 0x8;

/// A computation that finishes on its first step with a prepared value.
pub struct Ready<V> {
    value: Option<V>,
}

impl<V> Ready<V> {
    /// The value still to be handed out, as the contracts see it.
    pub closed spec fn spec_value(&self) -> Option<V> {
        self.value
    }

    /// Wraps a value into an immediately-ready computation.
    pub fn new(value: V) -> (r: Ready<V>)
        ensures
            r.spec_value() == Some(value),
            r.immediate(),
            r.immediate_value() == value,
    {
        Ready { value: Some(value) }
    }
}

impl<V> Compute for Ready<V> {
    type Output = V;

    open spec fn immediate(&self) -> bool {
        self.spec_value() is Some
    }

    open spec fn immediate_value(&self) -> V {
        self.spec_value()->0
    }

    fn step(&mut self, ctx: &mut StepCtx<Self>) -> (r: Step<V>) {
        self.poll(ctx)
    }

    fn poll<R>(&mut self, ctx: &mut StepCtx<R>) -> (r: Step<V>) {
        match self.value.take() {
            Some(v) => Step::Done(v),
            None => Step::Pending,
        }
    }

    fn on_task_done(&mut self, task: usize, value: V) {
    }

    fn wants_task(&self, task: usize) -> bool {
        false
    }
}

/// Where an await of another task's value stands.
pub enum JoinState<V> {
    /// Not yet subscribed to the target's completion.
    Idle,
    /// Subscribed; the value has not arrived yet.
    Waiting,
    /// The value arrived and waits to be handed out.
    Got(V),
    /// The value was handed out; polling again suspends for good, so a
    /// double await shows up as a stalled run, never as a stale value.
    Finished,
}

/// A computation that awaits another task's value: the awaitable side of a
/// [`JoinHandle`]. Each poll before completion re-stores the subscription,
/// so only the most recent awaiter is notified.
pub struct JoinWait<V> {
    target: usize,
    state: JoinState<V>,
}

impl<V> JoinWait<V> {
    /// The awaited task's id, as the contracts see it.
    pub closed spec fn spec_target(&self) -> usize {
        self.target
    }

    /// The await's progress, as the contracts see it.
    pub closed spec fn spec_state(&self) -> JoinState<V> {
        self.state
    }

    /// Starts an await of the task behind `h`.
    pub fn new(h: &JoinHandle) -> (r: JoinWait<V>)
        ensures
            r.spec_target() == h.spec_task(),
            r.spec_state() is Idle,
    {
        JoinWait { target: h.task_id(), state: JoinState::Idle }
    }

    /// Starts an await of the task with id `t`, as handed out by
    /// [`StepCtx::spawn`].
    pub fn for_task(t: usize) -> (r: JoinWait<V>)
        ensures
            r.spec_target() == t,
            r.spec_state() is Idle,
    {
        JoinWait { target: t, state: JoinState::Idle }
    }

    /// Drives the await one step: subscribe (or re-subscribe) to the
    /// target's completion while the value is outstanding; hand the value
    /// out exactly once when it has arrived. An await polled again after
    /// its value was handed out can never be given anything: it suspends
    /// for good, so the run ends in the scheduler's stalled report - the
    /// loud failure - rather than in a stale or default value.
    pub fn poll_value<R>(&mut self, ctx: &mut StepCtx<R>) -> (r: Step<V>)
        ensures
            final(self).spec_target() == old(self).spec_target(),
            old(self).spec_state() is Idle || old(self).spec_state() is Waiting ==> r is Pending
                && final(self).spec_state() is Waiting && final(ctx).spec_requests() == old(ctx).spec_requests().push(WakeRequest::TaskDone(old(self).spec_target()))
                && final(ctx).spec_me() == old(ctx).spec_me() && final(ctx).spec_now() == old(ctx).spec_now() && final(ctx).spec_next() == old(ctx).spec_next() && final(ctx).spec_fds() == old(ctx).spec_fds(),
            old(self).spec_state() matches JoinState::Got(v) ==> r == Step::<V>::Done(v) && final(self).spec_state() is Finished && *final(ctx) == *old(ctx),
            old(self).spec_state() is Finished ==> r is Pending && *final(self) == *old(self)
                && *final(ctx) == *old(ctx),
    {
        let waiting = match &self.state {
            JoinState::Idle => true,
            JoinState::Waiting => true,
            _ => false,
        };
        if waiting {
            self.state = JoinState::Waiting;
            ctx.wait_task(self.target);
            return Step::Pending;
        }
        let got = match &self.state {
            JoinState::Got(_) => true,
            _ => false,
        };
        if got {
            let mut taken = JoinState::Finished;
            core::mem::swap(&mut self.state, &mut taken);
            match taken {
                JoinState::Got(v) => Step::Done(v),
                _ => vstd::pervasive::unreached(),
            }
        } else {
            Step::Pending
        }
    }

    /// Records the awaited value when the scheduler delivers it.
    pub fn accept(&mut self, task: usize, value: V)
        ensures
            final(self).spec_target() == old(self).spec_target(),
            task == old(self).spec_target() && old(self).spec_state() is Waiting ==> final(self).spec_state() == JoinState::Got(value),
            task != old(self).spec_target() || !(old(self).spec_state() is Waiting) ==> *final(self) == *old(self),
    {
        let waiting = match &self.state {
            JoinState::Waiting => true,
            _ => false,
        };
        if task == self.target && waiting {
            self.state = JoinState::Got(value);
        }
    }

    /// True while the await is subscribed to `task`'s completion.
    pub fn awaiting(&self, task: usize) -> (r: bool)
        ensures
            r == (task == self.spec_target() && self.spec_state() is Waiting),
    {
        let waiting = match &self.state {
            JoinState::Waiting => true,
            _ => false,
        };
        task == self.target && waiting
    }
}

impl<V> Compute for JoinWait<V> {
    type Output = V;

    fn step(&mut self, ctx: &mut StepCtx<Self>) -> (r: Step<V>) {
        self.poll_value(ctx)
    }

    fn poll<R>(&mut self, ctx: &mut StepCtx<R>) -> (r: Step<V>) {
        self.poll_value(ctx)
    }

    fn on_task_done(&mut self, task: usize, value: V) {
        self.accept(task, value);
    }

    fn wants_task(&self, task: usize) -> bool {
        self.awaiting(task)
    }
}

/// A computation that suspends until a descriptor reports one of the
/// events in its mask (or an error/hang-up). One registration fires at
/// most once: after it fires, waiting again takes a fresh registration,
/// which this computation makes on its next first step.
pub struct WaitFdEvent {
    fd: i32,
    mask: u8,
    registered: bool,
}

impl WaitFdEvent {
    /// The watched descriptor, as the contracts see it.
    pub closed spec fn spec_fd(&self) -> i32 {
        self.fd
    }

    /// The requested event mask, as the contracts see it.
    pub closed spec fn spec_mask(&self) -> u8 {
        self.mask
    }

    /// Whether interest is currently recorded with the reactor.
    pub closed spec fn spec_registered(&self) -> bool {
        self.registered
    }

    /// Starts an unregistered wait for `mask` events on `fd`.
    pub fn new(fd: i32, mask: u8) -> (r: WaitFdEvent)
        ensures
            r.spec_fd() == fd,
            r.spec_mask() == mask,
            !r.spec_registered(),
    {
        WaitFdEvent { fd, mask, registered: false }
    }

    /// Drives the wait one step. Unregistered: record the interest and
    /// suspend. Registered with the registration still pending: suspend
    /// again (the wake came from elsewhere). Registered with the
    /// registration gone: it fired, so the wait is over; a later wait must
    /// register anew.
    pub fn poll_event<R>(&mut self, ctx: &mut StepCtx<R>) -> (r: Step<()>)
        ensures
            final(self).spec_fd() == old(self).spec_fd(),
            final(self).spec_mask() == old(self).spec_mask(),
            !old(self).spec_registered() ==> r is Pending && final(self).spec_registered() && final(ctx).spec_requests() == old(ctx).spec_requests().push(
                WakeRequest::Fd(old(self).spec_fd(), old(self).spec_mask()),
            ) && final(ctx).spec_me() == old(ctx).spec_me() && final(ctx).spec_now() == old(ctx).spec_now() && final(ctx).spec_next() == old(ctx).spec_next() && final(ctx).spec_fds() == old(ctx).spec_fds(),
            old(self).spec_registered() && old(ctx).spec_fds().contains(
                (old(self).spec_fd(), old(self).spec_mask()),
            ) ==> r is Pending && *final(self) == *old(self) && *final(ctx) == *old(ctx),
            old(self).spec_registered() && !old(ctx).spec_fds().contains(
                (old(self).spec_fd(), old(self).spec_mask()),
            ) ==> r == Step::<()>::Done(()) && !final(self).spec_registered() && *final(ctx)
                == *old(ctx),
    {
        if !self.registered {
            self.registered = true;
            ctx.wait_fd(self.fd, self.mask);
            Step::Pending
        } else if ctx.fd_registered(self.fd, self.mask) {
            Step::Pending
        } else {
            self.registered = false;
            Step::Done(())
        }
    }
}

impl Compute for WaitFdEvent {
    type Output = ();

    fn step(&mut self, ctx: &mut StepCtx<Self>) -> (r: Step<()>) {
        self.poll_event(ctx)
    }

    fn poll<R>(&mut self, ctx: &mut StepCtx<R>) -> (r: Step<()>) {
        self.poll_event(ctx)
    }

    fn on_task_done(&mut self, task: usize, value: ()) {
    }

    fn wants_task(&self, task: usize) -> bool {
        false
    }
}

/// A computation that suspends until the monotonic clock reaches an
/// absolute deadline in milliseconds. The one-shot registered state lives
/// in the runtime's timer table; re-registration while pending is the
/// idempotent waker re-store.
pub struct WaitDeadline {
    deadline_ms: u64,
}

impl WaitDeadline {
    /// The deadline, as the contracts see it.
    pub closed spec fn spec_deadline(&self) -> u64 {
        self.deadline_ms
    }

    /// Starts a wait until `deadline_ms` on the runtime's clock.
    pub fn new(deadline_ms: u64) -> (r: WaitDeadline)
        ensures
            r.spec_deadline() == deadline_ms,
    {
        WaitDeadline { deadline_ms }
    }

    /// Drives the wait one step: done exactly when the observed time has
    /// reached the deadline; otherwise keep the timer registered.
    pub fn poll_deadline<R>(&mut self, ctx: &mut StepCtx<R>) -> (r: Step<()>)
        ensures
            *final(self) == *old(self),
            old(ctx).spec_now() >= old(self).spec_deadline() ==> r == Step::<()>::Done(()) && *final(ctx) == *old(ctx),
            old(ctx).spec_now() < old(self).spec_deadline() ==> r is Pending && final(ctx).spec_requests() == old(ctx).spec_requests().push(
                WakeRequest::Deadline(old(self).spec_deadline()),
            ) && final(ctx).spec_me() == old(ctx).spec_me() && final(ctx).spec_now() == old(ctx).spec_now() && final(ctx).spec_next() == old(ctx).spec_next() && final(ctx).spec_fds() == old(ctx).spec_fds(),
    {
        if ctx.now_ms() >= self.deadline_ms {
            Step::Done(())
        } else {
            ctx.wait_deadline(self.deadline_ms);
            Step::Pending
        }
    }
}

impl Compute for WaitDeadline {
    type Output = ();

    fn step(&mut self, ctx: &mut StepCtx<Self>) -> (r: Step<()>) {
        self.poll_deadline(ctx)
    }

    fn poll<R>(&mut self, ctx: &mut StepCtx<R>) -> (r: Step<()>) {
        self.poll_deadline(ctx)
    }

    fn on_task_done(&mut self, task: usize, value: ()) {
    }

    fn wants_task(&self, task: usize) -> bool {
        false
    }
}

/// The suspension primitive for descriptor readiness: wait until `fd`
/// reports an event in `interest_mask` (or an error/hang-up condition).
pub fn wait_for_fd_event(fd: i32, interest_mask: u8) -> (r: WaitFdEvent)
    ensures
        r.spec_fd() == fd,
        r.spec_mask() == interest_mask,
        !r.spec_registered(),
{
    WaitFdEvent::new(fd, interest_mask)
}

/// The suspension primitive for timers: wait until the monotonic clock
/// reaches `deadline_ms`.
pub fn wait_for_deadline(deadline_ms: u64) -> (r: WaitDeadline)
    ensures
        r.spec_deadline() == deadline_ms,
{
    WaitDeadline::new(deadline_ms)
}

} // verus!
