//! Descriptor-event tests: one-shot registrations on a pipe, and hang-up
//! of a closed pipe firing as an event rather than hanging.

use star::{Compute, RuntimeHandle, Step, StepCtx, WaitFdEvent, FD_ERR, FD_IN};

/// Waits for one event on a descriptor, then finishes with how many
/// registrations the wait used (always one: a fired registration is gone
/// and a new wait registers afresh).
struct OneEvent(WaitFdEvent);

impl Compute for OneEvent {
    type Output = u32;

    fn step(&mut self, ctx: &mut StepCtx<Self>) -> Step<u32> {
        self.poll(ctx)
    }

    fn poll<R>(&mut self, ctx: &mut StepCtx<R>) -> Step<u32> {
        match self.0.poll(ctx) {
            Step::Done(()) => Step::Done(1),
            Step::Pending => Step::Pending,
        }
    }

    fn on_task_done(&mut self, _task: usize, _value: u32) {}

    fn wants_task(&self, _task: usize) -> bool {
        false
    }
}

#[test]
fn readable_pipe_fires_once_per_registration() {
    let (rfd, wfd) = nix::unistd::pipe().expect("pipe");
    nix::unistd::write(wfd, b"x").expect("write a byte");

    let mut runtime: RuntimeHandle<OneEvent> = RuntimeHandle::new();
    let got = runtime
        .block_on(OneEvent(WaitFdEvent::new(rfd, FD_IN | FD_ERR)))
        .expect("no sys error");
    assert_eq!(got, 1);
    // the fired registration is gone even though the pipe stays readable
    assert_eq!(runtime.pending_fd_count(), 0);

    // waking again takes a fresh registration, which fires again because
    // the byte was never read
    let got = runtime
        .block_on(OneEvent(WaitFdEvent::new(rfd, FD_IN | FD_ERR)))
        .expect("no sys error");
    assert_eq!(got, 1);
    assert_eq!(runtime.pending_fd_count(), 0);

    nix::unistd::close(rfd).expect("close read end");
    nix::unistd::close(wfd).expect("close write end");
}

#[test]
fn closed_pipe_fires_instead_of_hanging() {
    let (rfd, wfd) = nix::unistd::pipe().expect("pipe");
    // close the write end with nothing written: the read side reports
    // end-of-file as an event
    nix::unistd::close(wfd).expect("close write end");

    let mut runtime: RuntimeHandle<OneEvent> = RuntimeHandle::new();
    let start = std::time::Instant::now();
    let got = runtime
        .block_on(OneEvent(WaitFdEvent::new(rfd, FD_IN | FD_ERR)))
        .expect("no sys error");
    assert_eq!(got, 1);
    // the event fired promptly; nothing blocked on a dead pipe
    assert!(start.elapsed() < std::time::Duration::from_secs(5));

    nix::unistd::close(rfd).expect("close read end");
}
