//! The steps of a node's last start and of its last stop.

use vstd::prelude::*;

verus! {

/// A step.
#[derive(Debug)]
pub struct EventEntry {
    pub seq: i64,
    pub ts: i64,
    pub step: String,
    pub status: String,
    pub detail: Option<String>,
}

/// The number of the next step, given the highest one of the same cycle.
pub open spec fn next_step(highest: Option<i64>) -> int {
    match highest {
        Some(n) => n + 1,
        None => 0,
    }
}

/// The number of the next step, given the highest one of the same cycle.
pub fn next_event_seq(highest: Option<i64>) -> (r: i64)
    requires
        highest matches Some(n) ==> n < i64::MAX,
    ensures
        r == next_step(highest),
{
    match highest {
        Some(n) => n + 1,
        None => 0,
    }
}

/// Steps are counted from 0, one by one.
pub proof fn law_steps_are_counted(n: i64)
    requires
        n < i64::MAX,
    ensures
        next_step(None) == 0,
        next_step(Some(n)) - n == 1,
{
}

} // verus!
