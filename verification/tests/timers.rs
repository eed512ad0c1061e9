//! Timer tests: deadline waits block for at least the asked-for time, and
//! distinct deadlines resume in deadline order.

use star::{Compute, JoinPoll, RuntimeHandle, Step, StepCtx, WaitDeadline};

/// Waits for a deadline, then finishes with the observed time (or with a
/// fixed text for the wall-clock scenario).
enum Timed {
    Until(WaitDeadline),
    UntilText(WaitDeadline),
}

impl Compute for Timed {
    type Output = (u64, String);

    fn step(&mut self, ctx: &mut StepCtx<Self>) -> Step<(u64, String)> {
        self.poll(ctx)
    }

    fn poll<R>(&mut self, ctx: &mut StepCtx<R>) -> Step<(u64, String)> {
        match self {
            Timed::Until(w) => match w.poll(ctx) {
                Step::Done(()) => Step::Done((ctx.now_ms(), String::new())),
                Step::Pending => Step::Pending,
            },
            Timed::UntilText(w) => match w.poll(ctx) {
                Step::Done(()) => Step::Done((ctx.now_ms(), String::from("done"))),
                Step::Pending => Step::Pending,
            },
        }
    }

    fn on_task_done(&mut self, _task: usize, _value: (u64, String)) {}

    fn wants_task(&self, _task: usize) -> bool {
        false
    }
}

#[test]
fn deadline_wait_takes_at_least_that_long() {
    let mut runtime: RuntimeHandle<Timed> = RuntimeHandle::new();
    let start_wall = std::time::Instant::now();
    let start = runtime.now_ms();
    let (_at, text) = runtime
        .block_on(Timed::UntilText(WaitDeadline::new(start + 50)))
        .expect("no sys error");
    let elapsed = start_wall.elapsed();
    assert!(elapsed >= std::time::Duration::from_millis(50));
    assert_eq!(text, "done");
    assert!(runtime.reactor_passes() >= 1);
}

#[test]
fn distinct_deadlines_resume_in_deadline_order() {
    let mut runtime: RuntimeHandle<Timed> = RuntimeHandle::new();
    let start = runtime.now_ms();
    // spawn the later deadline first: resumption order must follow the
    // deadlines, not the spawn order
    let later = runtime.spawn(Timed::Until(WaitDeadline::new(start + 60)));
    let earlier = runtime.spawn(Timed::Until(WaitDeadline::new(start + 30)));
    let (done_at, _) = runtime
        .block_on(Timed::Until(WaitDeadline::new(start + 60)))
        .expect("no sys error");
    assert!(done_at >= start + 60);
    // by the time the 60ms target finished, the 30ms task had long
    // resumed, strictly before the other 60ms task was popped
    let early_at = match runtime.try_join(&earlier) {
        JoinPoll::Ready((at, _)) => at,
        _ => panic!("the earlier deadline must have fired"),
    };
    let later_at = match runtime.try_join(&later) {
        JoinPoll::Ready((at, _)) => at,
        _ => panic!("the later deadline must have fired"),
    };
    assert!(early_at <= later_at);
    assert!(early_at >= start + 30);
    assert!(later_at >= start + 60);
}
