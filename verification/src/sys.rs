//! Trusted wrappers around the two OS facilities the reactor needs: the
//! blocking multiplex call and the monotonic clock. Everything else in the
//! runtime is verified against the contracts stated here.

use vstd::prelude::*;

verus! {

/// Relies on nix::poll::poll, the poll(2) syscall: on success the kernel
/// fills each entry's revents field with the events that occurred; the
/// result holds those revents bits, one per requested (descriptor, mask)
/// pair, in order. Per poll(2), the reported bits are among the requested
/// ones plus the error, hang-up and invalid-descriptor conditions (0x38),
/// which are reported even when not requested. A negative timeout blocks
/// without limit; the call returns once any entry has an event, the
/// timeout elapses, or a signal arrives. On failure the result carries the
/// errno value, which is never zero.
#[verifier::external_body]
pub(crate) fn sys_poll(fds: &Vec<(i32, u8)>, timeout_ms: i32) -> (r: Result<Vec<u8>, i32>)
    ensures
        r matches Ok(revs) ==> revs@.len() == fds@.len() && (forall|k: int|
            0 <= k < revs@.len() ==> (#[trigger] revs@[k]) & !((fds@[k].1 | 0x38) as u8) == 0),
        r matches Err(e) ==> e != 0,
{
    let mut pfds: Vec<nix::poll::PollFd> = fds
        .iter()
        .map(|&(fd, mask)| {
            nix::poll::PollFd::new(fd, nix::poll::PollFlags::from_bits_truncate(mask as i16))
        })
        .collect();
    match nix::poll::poll(&mut pfds, timeout_ms) {
        Ok(_) => Ok(pfds.iter().map(|p| p.revents().map_or(0u8, |f| f.bits() as u8)).collect()),
        Err(e) => Err(e as i32),
    }
}

/// Relies on nix::time::clock_gettime on CLOCK_MONOTONIC: per
/// clock_gettime(2) the reading is (seconds, nanoseconds) with seconds
/// nonnegative and nanoseconds in [0, 1_000_000_000), and the clock never
/// goes backwards. On failure the errno value is returned.
#[verifier::external_body]
pub(crate) fn sys_clock_monotonic() -> (r: Result<(i64, i64), i32>)
    ensures
        r matches Ok(t) ==> 0 <= t.0 && 0 <= t.1 < 1_000_000_000,
{
    match nix::time::clock_gettime(nix::time::ClockId::CLOCK_MONOTONIC) {
        Ok(ts) => Ok((ts.tv_sec(), ts.tv_nsec())),
        Err(e) => Err(e as i32),
    }
}

/// Relies on nix::fcntl::fcntl with F_SETFL: puts the descriptor into
/// non-blocking mode, so a read with nothing buffered reports it instead
/// of blocking the whole scheduler. On failure the errno value is
/// returned.
#[verifier::external_body]
pub fn set_nonblocking(fd: i32) -> (r: Result<(), i32>) {
    match nix::fcntl::fcntl(fd, nix::fcntl::FcntlArg::F_SETFL(nix::fcntl::OFlag::O_NONBLOCK)) {
        Ok(_) => Ok(()),
        Err(e) => Err(e as i32),
    }
}

} // verus!
