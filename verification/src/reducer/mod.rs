//! The one place where an action turns a state into the next one.

use vstd::prelude::*;

pub mod laws;
pub mod observation;
pub mod run;

use crate::action::{Action, ActionRejected};
use crate::reducer::observation::observed;
use crate::reducer::run::requested;
use crate::state::{WorkspaceState, WorkspaceStateView};

verus! {

/// What `action` makes of the state `s`.
pub open spec fn reduced(s: WorkspaceStateView, action: Action) -> Result<
    WorkspaceStateView,
    ActionRejected,
> {
    match action {
        Action::OwnerSet { owner } => Ok(
            WorkspaceStateView { owner: Some(owner@), ..s },
        ),
        _ => if action.is_run_request() {
            requested(s, action)
        } else {
            Ok(observed(s, action))
        },
    }
}

/// Applies `action` to `state`. The state itself is never changed.
pub fn reduce(state: &WorkspaceState, action: Action) -> (r: Result<WorkspaceState, ActionRejected>)
    ensures
        match r {
            Ok(next) => reduced(state@, action) == Ok::<WorkspaceStateView, ActionRejected>(next@),
            Err(e) => reduced(state@, action) == Err::<WorkspaceStateView, ActionRejected>(e),
        },
{
    match action {
        Action::OwnerSet { owner } => {
            let mut next = state.clone();
            next.owner = Some(owner);
            Ok(next)
        },
        Action::RunPlanned { .. } => run::reduce(state, action),
        Action::RunStopRequested { .. } => run::reduce(state, action),
        Action::RunNodeStartRequested { .. } => run::reduce(state, action),
        Action::RunNodeStopRequested { .. } => run::reduce(state, action),
        Action::RunNodeDeleteRequested { .. } => run::reduce(state, action),
        Action::ContainerObserved { .. } => Ok(observation::reduce(state, action)),
        Action::ContainerActionSettled { .. } => Ok(observation::reduce(state, action)),
        Action::RunCreateProgress { .. } => Ok(observation::reduce(state, action)),
        Action::RunCreateSettled { .. } => Ok(observation::reduce(state, action)),
        Action::RunTeardownSettled { .. } => Ok(observation::reduce(state, action)),
        Action::VolumeObserved { .. } => Ok(observation::reduce(state, action)),
        Action::ConfigDriftObserved { .. } => Ok(observation::reduce(state, action)),
    }
}

} // verus!
