//! The owner of one workspace's state.

use vstd::prelude::*;

use crate::action::{Action, ActionRejected};
use crate::reducer::{reduce, reduced};
use crate::state::{WorkspaceState, WorkspaceStateView};

verus! {

/// Owns one workspace's state; actions are applied one after another.
pub struct WorkspaceActor {
    state: WorkspaceState,
}

impl View for WorkspaceActor {
    type V = WorkspaceStateView;

    closed spec fn view(&self) -> WorkspaceStateView {
        self.state@
    }
}

impl WorkspaceActor {
    /// An actor that owns the given state.
    pub fn new(initial: WorkspaceState) -> (r: Self)
        ensures
            r@ == initial@,
    {
        WorkspaceActor { state: initial }
    }

    /// Applies an action. One that is refused leaves the state as it is.
    pub fn dispatch(&mut self, action: Action) -> (r: Result<(), ActionRejected>)
        ensures
            match reduced(old(self)@, action) {
                Ok(next) => r is Ok && final(self)@ == next,
                Err(e) => r == Err::<(), ActionRejected>(e) && final(self)@ == old(self)@,
            },
    {
        match reduce(&self.state, action) {
            Ok(next) => {
                self.state = next;
                Ok(())
            },
            Err(e) => Err(e),
        }
    }

    /// The state as it is now.
    pub fn current(&self) -> (r: &WorkspaceState)
        ensures
            r@ == self@,
    {
        &self.state
    }
}

/// The answer to an action whose actor is gone: it may be that the actor went
/// before it took the action, or before it answered.
pub fn reply_of_actor(reply: Option<Result<(), ActionRejected>>) -> (r: Result<(), ActionRejected>)
    ensures
        r == (match reply {
            Some(outcome) => outcome,
            None => Err(ActionRejected::RunNotFound),
        }),
{
    match reply {
        Some(outcome) => outcome,
        None => Err(ActionRejected::RunNotFound),
    }
}

} // verus!
