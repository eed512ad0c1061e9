//! Scheduler tests: pure queue draining, spawning and awaiting, result
//! retrieval, and handle lifetime.

use star::{
    Compute, JoinPoll, JoinWait, Ready, RunError, RuntimeHandle, Step, StepCtx, WaitFdEvent,
};

/// A task graph for the classic two-spawns-and-sum scenario: leaves finish
/// at once with their number; the driver spawns two leaves, awaits both,
/// and returns the sum.
enum SumTwo {
    Leaf(Ready<i64>),
    Driver {
        spawned: bool,
        a: Option<JoinWait<i64>>,
        b: Option<JoinWait<i64>>,
        got_a: Option<i64>,
        got_b: Option<i64>,
    },
}

impl SumTwo {
    fn driver() -> SumTwo {
        SumTwo::Driver {
            spawned: false,
            a: None,
            b: None,
            got_a: None,
            got_b: None,
        }
    }
}

impl Compute for SumTwo {
    type Output = i64;

    fn step(&mut self, ctx: &mut StepCtx<Self>) -> Step<i64> {
        match self {
            SumTwo::Leaf(r) => r.poll(ctx),
            SumTwo::Driver {
                spawned,
                a,
                b,
                got_a,
                got_b,
            } => {
                if !*spawned {
                    *spawned = true;
                    let ta = ctx.spawn(SumTwo::Leaf(Ready::new(21)));
                    let tb = ctx.spawn(SumTwo::Leaf(Ready::new(21)));
                    *a = Some(JoinWait::for_task(ta));
                    *b = Some(JoinWait::for_task(tb));
                }
                if got_a.is_none() {
                    if let Some(ja) = a.as_mut() {
                        match ja.poll(ctx) {
                            Step::Done(v) => *got_a = Some(v),
                            Step::Pending => {}
                        }
                    }
                }
                if got_b.is_none() {
                    if let Some(jb) = b.as_mut() {
                        match jb.poll(ctx) {
                            Step::Done(v) => *got_b = Some(v),
                            Step::Pending => {}
                        }
                    }
                }
                match (&got_a, &got_b) {
                    (Some(x), Some(y)) => Step::Done(*x + *y),
                    _ => Step::Pending,
                }
            }
        }
    }

    fn poll<R>(&mut self, ctx: &mut StepCtx<R>) -> Step<i64> {
        match self {
            SumTwo::Leaf(r) => r.poll(ctx),
            // a nested driver cannot spawn, so it never progresses; the
            // tests only drive it as a whole task
            SumTwo::Driver { .. } => Step::Pending,
        }
    }

    fn on_task_done(&mut self, task: usize, value: i64) {
        if let SumTwo::Driver { a, b, .. } = self {
            if a.as_ref().map_or(false, |j| j.awaiting(task)) {
                if let Some(ja) = a.as_mut() {
                    ja.accept(task, value);
                }
            } else if let Some(jb) = b.as_mut() {
                jb.accept(task, value);
            }
        }
    }

    fn wants_task(&self, task: usize) -> bool {
        match self {
            SumTwo::Leaf(_) => false,
            SumTwo::Driver { a, b, .. } => {
                a.as_ref().map_or(false, |j| j.awaiting(task))
                    || b.as_ref().map_or(false, |j| j.awaiting(task))
            }
        }
    }
}

#[test]
fn test() {
    let mut runtime: RuntimeHandle<SumTwo> = RuntimeHandle::new();

    assert_eq!(
        runtime
            .block_on(SumTwo::Leaf(Ready::new(42)))
            .expect("no sys error"),
        42
    );

    assert_eq!(runtime.block_on(SumTwo::driver()).expect("no sys error"), 42);
}

#[test]
fn ready_tasks_drain_without_reactor() {
    let mut runtime: RuntimeHandle<Ready<u32>> = RuntimeHandle::new();
    let h1 = runtime.spawn(Ready::new(1));
    let h2 = runtime.spawn(Ready::new(2));
    let h3 = runtime.spawn(Ready::new(3));
    let got = runtime.block_on(Ready::new(9)).expect("runs");
    assert_eq!(got, 9);
    assert_eq!(runtime.reactor_passes(), 0);
    // the earlier-spawned tasks were drained along the way
    assert!(matches!(runtime.try_join(&h1), JoinPoll::Ready(1)));
    assert!(matches!(runtime.try_join(&h2), JoinPoll::Ready(2)));
    assert!(matches!(runtime.try_join(&h3), JoinPoll::Ready(3)));
}

#[test]
fn second_retrieval_fails_loudly() {
    let mut runtime: RuntimeHandle<Ready<i64>> = RuntimeHandle::new();
    let h = runtime.spawn(Ready::new(7));
    let _ = runtime.block_on(Ready::new(0)).expect("runs");
    match runtime.try_join(&h) {
        JoinPoll::Ready(v) => assert_eq!(v, 7),
        _ => panic!("first retrieval must hand the value out"),
    }
    // a second poll reports the value gone instead of a stale value
    assert!(matches!(runtime.try_join(&h), JoinPoll::Gone));
    assert!(matches!(runtime.try_join(&h), JoinPoll::Gone));
}

#[test]
fn block_on_empty_runtime_returns_value() {
    let mut runtime: RuntimeHandle<Ready<&'static str>> = RuntimeHandle::new();
    assert_eq!(runtime.block_on(Ready::new("hello")).expect("runs"), "hello");
}

/// Dropping a handle neither crashes nor disturbs other tasks; the frame
/// of a never-woken suspended task just stays in the runtime until the
/// runtime itself is dropped.
#[test]
fn dropped_handle_leaves_task_undisturbed() {
    let mut runtime: RuntimeHandle<Waiting> = RuntimeHandle::new();
    let (rfd, wfd) = nix::unistd::pipe().expect("pipe");
    let h = runtime.spawn(Waiting::Fd(WaitFdEvent::new(rfd, star::FD_IN)));
    drop(h);
    // other work proceeds; the suspended task is simply never woken
    let got = runtime.block_on(Waiting::Now(Ready::new(5))).expect("runs");
    assert_eq!(got, 5);
    drop(runtime);
    nix::unistd::close(rfd).expect("close read end");
    nix::unistd::close(wfd).expect("close write end");
}

/// Releasing a suspended task frees its computation and its reactor
/// registrations: nothing is left registered, and the released task's
/// value is reported gone.
#[test]
fn release_frees_registrations_and_value() {
    let mut runtime: RuntimeHandle<Waiting> = RuntimeHandle::new();
    let (rfd, wfd) = nix::unistd::pipe().expect("pipe");
    let h = runtime.spawn(Waiting::Fd(WaitFdEvent::new(rfd, star::FD_IN)));
    // drive the task once so it registers its descriptor interest
    let got = runtime.block_on(Waiting::Now(Ready::new(1))).expect("runs");
    assert_eq!(got, 1);
    assert_eq!(runtime.pending_fd_count(), 1);
    runtime.release(h);
    assert_eq!(runtime.pending_fd_count(), 0);
    // the released task is gone for good; other work is undisturbed
    let got = runtime.block_on(Waiting::Now(Ready::new(2))).expect("runs");
    assert_eq!(got, 2);
    nix::unistd::close(rfd).expect("close read end");
    nix::unistd::close(wfd).expect("close write end");
}

/// Waking nothing ever again stalls loudly instead of hanging: a task that
/// suspends with no registration can never complete.
#[test]
fn stalled_run_is_reported() {
    struct Never;
    impl Compute for Never {
        type Output = ();
        fn step(&mut self, _ctx: &mut StepCtx<Self>) -> Step<()> {
            Step::Pending
        }
        fn poll<R>(&mut self, _ctx: &mut StepCtx<R>) -> Step<()> {
            Step::Pending
        }
        fn on_task_done(&mut self, _task: usize, _value: ()) {}
        fn wants_task(&self, _task: usize) -> bool {
            false
        }
    }
    let mut runtime: RuntimeHandle<Never> = RuntimeHandle::new();
    assert_eq!(runtime.block_on(Never), Err(RunError::Stalled));
}

/// A computation that waits for a descriptor event, or immediately
/// finishes with a number. Used for the handle-dropping test.
enum Waiting {
    Fd(WaitFdEvent),
    Now(Ready<i64>),
}

impl Compute for Waiting {
    type Output = i64;
    fn step(&mut self, ctx: &mut StepCtx<Self>) -> Step<i64> {
        self.poll(ctx)
    }
    fn poll<R>(&mut self, ctx: &mut StepCtx<R>) -> Step<i64> {
        match self {
            Waiting::Fd(w) => match w.poll(ctx) {
                Step::Done(()) => Step::Done(0),
                Step::Pending => Step::Pending,
            },
            Waiting::Now(r) => r.poll(ctx),
        }
    }
    fn on_task_done(&mut self, _task: usize, _value: i64) {}
    fn wants_task(&self, _task: usize) -> bool {
        false
    }
}
