//! The call bridge: adapts a schema-synchronous exported operation to an
//! asynchronous scripting implementation.
//!
//! Each invocation marshals its arguments, dispatches into the engine,
//! drives the engine's cooperative scheduler until the deferred computation
//! settles, unmarshals the outcome, and only then — and only at the
//! outermost invocation — drains the pending drop queue. Nested invocations
//! re-enter the same state machine; the recursion-depth counter guarantees
//! that no handle is released while an enclosing frame may still hold a
//! reference into the resource table.

use vstd::prelude::*;

use crate::resource::spec_drain;
use crate::resource::ResourceTable;
use crate::value::EncodedValue;

verus! {

/// What the engine reports of the driven deferred computation.
pub enum PromiseState {
    /// Not yet settled.
    Pending,
    /// Settled with a success value.
    Resolved(EncodedValue),
    /// Settled with a failure value.
    Rejected(EncodedValue),
}

/// The bridge's decision after one look at the scheduler.
pub enum DriveOutcome {
    /// Run one more engine job and look again.
    Advance,
    /// The computation settled; unmarshal the carried success or failure.
    Settled(Result<EncodedValue, EncodedValue>),
    /// The computation is unsettled and the engine reports no further
    /// progress: fatal.
    Stalled,
}

/// What the drive step decides, given the promise state and whether the
/// engine's scheduler still has work queued.
pub open spec fn spec_drive_step(p: PromiseState, can_advance: bool) -> DriveOutcome {
    match p {
        PromiseState::Pending => {
            if can_advance {
                DriveOutcome::Advance
            } else {
                DriveOutcome::Stalled
            }
        },
        PromiseState::Resolved(e) => DriveOutcome::Settled(Ok(e)),
        PromiseState::Rejected(e) => DriveOutcome::Settled(Err(e)),
    }
}

/// One decision of the drive loop: keep pumping the scheduler while the
/// computation is pending and progress is possible, settle when it settles,
/// and fail as stalled when neither holds.
pub fn drive_step(p: PromiseState, can_advance: bool) -> (r: DriveOutcome)
    ensures
        r == spec_drive_step(p, can_advance),
{
    match p {
        PromiseState::Pending => {
            if can_advance {
                DriveOutcome::Advance
            } else {
                DriveOutcome::Stalled
            }
        },
        PromiseState::Resolved(e) => DriveOutcome::Settled(Ok(e)),
        PromiseState::Rejected(e) => DriveOutcome::Settled(Err(e)),
    }
}

/// The recursion-depth discipline of the call bridge.
pub struct CallBridge {
    depth: u64,
}

impl View for CallBridge {
    type V = int;

    closed spec fn view(&self) -> int {
        self.depth as int
    }
}

impl CallBridge {
    /// A bridge with no invocation in flight.
    pub fn new() -> (b: CallBridge)
        ensures
            b@ == 0,
    {
        CallBridge { depth: 0 }
    }

    /// How many invocations are in flight.
    pub fn depth(&self) -> (d: u64)
        ensures
            d as int == self@,
    {
        self.depth
    }

    /// Whether an invocation is between its marshal and unmarshal phase, so
    /// that no drop may be processed.
    pub fn in_flight(&self) -> (b: bool)
        ensures
            b == (self@ > 0),
    {
        self.depth > 0
    }

    /// Enter an invocation: marshal, dispatch and drive happen under this
    /// frame.
    pub fn begin_invocation(&mut self)
        requires
            old(self)@ < u64::MAX as int,
        ensures
            final(self)@ == old(self)@ + 1,
    {
        self.depth = self.depth + 1;
    }

    /// Leave an invocation after its result was captured. Only the
    /// outermost return drains the pending drop queue; a nested return
    /// leaves the table untouched, because the enclosing frame may still
    /// reference handles queued for release.
    pub fn finish_invocation(&mut self, table: &mut ResourceTable)
        requires
            old(self)@ > 0,
            old(table)@.wf(),
        ensures
            final(self)@ == old(self)@ - 1,
            final(table)@.wf(),
            old(self)@ == 1 ==> final(table)@ == spec_drain(old(table)@),
            old(self)@ > 1 ==> final(table)@ == old(table)@,
    {
        self.depth = self.depth - 1;
        if self.depth == 0 {
            table.drain_drops();
        }
    }
}

} // verus!
