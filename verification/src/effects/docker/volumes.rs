//! Reports the volumes that a run has.

use vstd::prelude::*;

use crate::action::Action;

verus! {

/// Whether an action reports that a run has a volume.
pub open spec fn reports_volume(a: Action, run_id: Seq<char>, name: Seq<char>) -> bool {
    match a {
        Action::VolumeObserved { run_id: r, volume_name, exists } => r@ == run_id && volume_name@
            == name && exists,
        _ => false,
    }
}

/// The reports that a run has each of the given volumes.
pub fn observed_volumes(run_id: &str, names: &Vec<String>) -> (r: Vec<Action>)
    ensures
        r@.len() == names@.len(),
        forall|i: int|
            0 <= i < names@.len() ==> reports_volume(#[trigger] r@[i], run_id@, names@[i]@),
{
    let mut r: Vec<Action> = Vec::new();
    let mut i: usize = 0;
    while i < names.len()
        invariant
            i <= names@.len(),
            r@.len() == i,
            forall|j: int| 0 <= j < i ==> reports_volume(#[trigger] r@[j], run_id@, names@[j]@),
        decreases names@.len() - i,
    {
        r.push(
            Action::VolumeObserved {
                run_id: run_id.to_owned(),
                volume_name: names[i].clone(),
                exists: true,
            },
        );
        i += 1;
    }
    r
}

} // verus!
