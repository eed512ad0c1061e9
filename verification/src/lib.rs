//! A single-threaded cooperative task executor with a readiness reactor.
//!
//! Tasks are suspendable computations driven by a FIFO scheduler. When no
//! task is runnable, the runtime blocks on one OS-level multiplexing call
//! until a registered file-descriptor event or timer deadline is ready,
//! then wakes the tasks that registered for it.

pub mod combine;
pub mod ledger;
pub mod metadata;
pub mod prim;
pub mod runtime;
pub mod sys;
pub mod task;
pub mod tracker;

pub use combine::{advance_to_completion, TryJoin};
pub use ledger::{format_entry_line, format_u64, parse_seconds, parse_u64, split_tabs, LineCounts};
pub use metadata::{classifier_line, escape_opt_str, ActiveWindowMetadata};
pub use prim::{
    wait_for_deadline, wait_for_fd_event, JoinState, JoinWait, Ready, WaitDeadline, WaitFdEvent,
    FD_ERR, FD_IN, FD_OUT,
};
pub use runtime::{FdReg, JoinHandle, JoinPoll, RunError, RuntimeHandle, Slot, TimerReg};
pub use task::{Compute, Step, StepCtx, WakeRequest};
pub use tracker::{CategoryDurationCounter, UniqueCategories};
