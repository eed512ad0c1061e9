//! Combinator for running two fallible computations concurrently within
//! one task: finish early with the first error, or with success once both
//! have succeeded.

use vstd::prelude::*;

use crate::task::{Compute, Step, StepCtx};

verus! {

/// Runs two computations; fails fast on the first error, succeeds when
/// both have completed without error. A completed part is dropped so it is
/// never driven again.
pub struct TryJoin<F0, F1> {
    f0: Option<F0>,
    f1: Option<F1>,
}

impl<F0, F1> TryJoin<F0, F1> {
    /// The first part, while it has not completed.
    pub closed spec fn spec_f0(&self) -> Option<F0> {
        self.f0
    }

    /// The second part, while it has not completed.
    pub closed spec fn spec_f1(&self) -> Option<F1> {
        self.f1
    }

    /// Combines two computations to be driven together.
    pub fn new(f0: F0, f1: F1) -> (r: TryJoin<F0, F1>)
        ensures
            r.spec_f0() == Some(f0),
            r.spec_f1() == Some(f1),
    {
        TryJoin { f0: Some(f0), f1: Some(f1) }
    }
}

/// Drives one possibly-completed part one step. Reports `Ok(true)` when
/// the part has completed successfully (now or earlier), `Ok(false)` when
/// it is still pending, and the error when it failed now; exactly the
/// pending case leaves a computation in the slot.
pub fn advance_to_completion<F, E, R>(slot: &mut Option<F>, ctx: &mut StepCtx<R>) -> (r: Result<
    bool,
    E,
>) where F: Compute<Output = Result<(), E>>
    ensures
        (*old(slot)) is None ==> r == Ok::<bool, E>(true) && *final(slot) == *old(slot) && *final(ctx)
            == *old(ctx),
        r == Ok::<bool, E>(false) <==> (*final(slot)) is Some,
        (*old(slot)) matches Some(f) ==> (f.immediate() ==> *final(ctx) == *old(ctx) && (match f.immediate_value() {
            Ok(u) => r == Ok::<bool, E>(true),
            Err(e) => r == Err::<bool, E>(e),
        })),
{
    let fut = match slot.take() {
        None => {
            return Ok(true);
        }
        Some(f) => f,
    };
    let mut fut = fut;
    match fut.poll(ctx) {
        Step::Done(res) => match res {
            Ok(()) => Ok(true),
            Err(e) => Err(e),
        },
        Step::Pending => {
            *slot = Some(fut);
            Ok(false)
        }
    }
}

impl<F0, F1, E> Compute for TryJoin<F0, F1> where
    F0: Compute<Output = Result<(), E>>,
    F1: Compute<Output = Result<(), E>>,
 {
    type Output = Result<(), E>;

    /// The pair finishes in one untouched step whenever both parts do.
    open spec fn immediate(&self) -> bool {
        &&& self.spec_f0() matches Some(f0) && f0.immediate()
        &&& self.spec_f1() matches Some(f1) && f1.immediate()
    }

    /// The first error among the parts' values, else success.
    open spec fn immediate_value(&self) -> Result<(), E> {
        if self.spec_f0()->0.immediate_value() is Err {
            self.spec_f0()->0.immediate_value()
        } else if self.spec_f1()->0.immediate_value() is Err {
            self.spec_f1()->0.immediate_value()
        } else {
            Ok(())
        }
    }

    /// One step drives both parts: the first error ends the whole
    /// computation with that error; once both parts have completed without
    /// error it ends with success; otherwise it suspends on whatever wake
    /// conditions the parts requested.
    fn step(&mut self, ctx: &mut StepCtx<Self>) -> (r: Step<Result<(), E>>) {
        self.poll(ctx)
    }

    /// See [`Compute::step`]: one step drives both parts; success is
    /// reported exactly when nothing is left stored, and a pending pair
    /// always keeps a part stored.
    fn poll<R>(&mut self, ctx: &mut StepCtx<R>) -> (r: Step<Result<(), E>>)
        ensures
            r matches Step::Done(v) && v is Ok ==> final(self).spec_f0() is None && final(self).spec_f1() is None,
            r is Pending ==> final(self).spec_f0() is Some || final(self).spec_f1() is Some,
    {
        let mut all_complete = true;
        match advance_to_completion(&mut self.f0, ctx) {
            Ok(complete) => {
                all_complete = all_complete && complete;
            }
            Err(e) => {
                return Step::Done(Err(e));
            }
        }
        match advance_to_completion(&mut self.f1, ctx) {
            Ok(complete) => {
                all_complete = all_complete && complete;
            }
            Err(e) => {
                return Step::Done(Err(e));
            }
        }
        if all_complete {
            Step::Done(Ok(()))
        } else {
            Step::Pending
        }
    }

    /// Routes a delivered value to whichever part awaits that task.
    fn on_task_done(&mut self, task: usize, value: Result<(), E>) {
        let f0_wants = match &self.f0 {
            Some(f) => f.wants_task(task),
            None => false,
        };
        if f0_wants {
            match &mut self.f0 {
                Some(f) => f.on_task_done(task, value),
                None => {}
            }
            return;
        }
        match &mut self.f1 {
            Some(f) => {
                if f.wants_task(task) {
                    f.on_task_done(task, value)
                }
            }
            None => {}
        }
    }

    fn wants_task(&self, task: usize) -> (r: bool) {
        let f0_wants = match &self.f0 {
            Some(f) => f.wants_task(task),
            None => false,
        };
        if f0_wants {
            return true;
        }
        match &self.f1 {
            Some(f) => f.wants_task(task),
            None => false,
        }
    }
}

} // verus!
