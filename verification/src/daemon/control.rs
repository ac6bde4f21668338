//! The daemon's switch: active or idle.

use vstd::prelude::*;

use crate::persistence::daemon_state::DaemonState;

verus! {

/// Whether the daemon serves names and ports, and whether it was told to stay
/// idle.
pub struct DaemonControl {
    active: bool,
    idle_requested: bool,
    last_reconcile_ms: Option<u64>,
}

/// Whether the daemon serves names and ports, and whether it was told to stay
/// idle.
pub struct DaemonControlView {
    pub active: bool,
    pub idle_requested: bool,
    pub last_reconcile_ms: Option<u64>,
}

impl View for DaemonControl {
    type V = DaemonControlView;

    closed spec fn view(&self) -> DaemonControlView {
        DaemonControlView {
            active: self.active,
            idle_requested: self.idle_requested,
            last_reconcile_ms: self.last_reconcile_ms,
        }
    }
}

impl DaemonControlView {
    /// The switch of a daemon that has just been started.
    pub open spec fn started(stored: DaemonState) -> DaemonControlView {
        DaemonControlView {
            active: false,
            idle_requested: stored.idle_requested,
            last_reconcile_ms: None,
        }
    }

    /// Whether the daemon becomes active on its own when it starts.
    pub open spec fn comes_up_active(self) -> bool {
        !self.idle_requested
    }

    /// After names and ports were to be taken.
    pub open spec fn activated(self, taken: bool) -> DaemonControlView {
        DaemonControlView { active: self.active || taken, ..self }
    }

    /// After names and ports were given up.
    pub open spec fn deactivated(self) -> DaemonControlView {
        DaemonControlView { active: false, ..self }
    }

    /// After the daemon was told whether to stay idle, given whether that could be
    /// stored.
    pub open spec fn told(self, idle_requested: bool, stored: bool) -> DaemonControlView {
        DaemonControlView {
            idle_requested: if stored {
                idle_requested
            } else {
                self.idle_requested
            },
            ..self
        }
    }

    /// After the containers were inspected.
    pub open spec fn inspected(self, now_ms: u64) -> DaemonControlView {
        DaemonControlView {
            last_reconcile_ms: if self.active {
                Some(now_ms)
            } else {
                self.last_reconcile_ms
            },
            ..self
        }
    }
}

impl DaemonControl {
    /// The switch of a daemon that has just been started: not yet active, and
    /// told to stay idle if the stored state says so.
    pub fn new(stored: &DaemonState) -> (r: Self)
        ensures
            r@ == DaemonControlView::started(*stored),
    {
        DaemonControl {
            active: false,
            idle_requested: stored.idle_requested,
            last_reconcile_ms: None,
        }
    }

    /// Whether the daemon becomes active on its own when it starts.
    pub fn starts_active(&self) -> (r: bool)
        ensures
            r == self@.comes_up_active(),
    {
        !self.idle_requested
    }

    pub fn is_active(&self) -> (r: bool)
        ensures
            r == self@.active,
    {
        self.active
    }

    pub fn is_idle_requested(&self) -> (r: bool)
        ensures
            r == self@.idle_requested,
    {
        self.idle_requested
    }

    /// When the containers were last inspected.
    pub fn last_reconcile_ms(&self) -> (r: Option<u64>)
        ensures
            r == self@.last_reconcile_ms,
    {
        self.last_reconcile_ms
    }

    /// Records whether names and ports could be taken. An active daemon has
    /// nothing to take.
    pub fn activate(&mut self, taken: bool)
        ensures
            final(self)@ == old(self)@.activated(taken),
    {
        if !self.active {
            self.active = taken;
        }
    }

    /// Gives names and ports up. Returns whether there were any to give up.
    pub fn deactivate(&mut self) -> (r: bool)
        ensures
            r == old(self)@.active,
            final(self)@ == old(self)@.deactivated(),
    {
        let was = self.active;
        self.active = false;
        was
    }

    /// Records what the daemon was told, given whether it could be stored: what
    /// is remembered never differs from what was last stored.
    pub fn set_idle_requested(&mut self, idle_requested: bool, stored: bool)
        ensures
            final(self)@ == old(self)@.told(idle_requested, stored),
    {
        if stored {
            self.idle_requested = idle_requested;
        }
    }

    /// Records that the containers were inspected; an idle daemon does not count
    /// that.
    pub fn reconciled(&mut self, now_ms: u64)
        ensures
            final(self)@ == old(self)@.inspected(now_ms),
    {
        if self.active {
            self.last_reconcile_ms = Some(now_ms);
        }
    }
}

/// The stored state after the daemon was told to start or to stop.
pub open spec fn stored_after(stored: DaemonState, idle_requested: bool) -> DaemonState {
    DaemonState { idle_requested, ..stored }
}

/// The stored state after the daemon was told to start or to stop.
pub fn state_to_store(stored: &DaemonState, idle_requested: bool) -> (r: DaemonState)
    ensures
        r == stored_after(*stored, idle_requested),
{
    DaemonState { idle_requested }
}

/// Whether a daemon that starts with a stored state becomes active.
pub open spec fn active_after_restart(stored: DaemonState) -> bool {
    !stored.idle_requested
}

/// What the daemon was last told holds across a restart: told to stop, it comes
/// back idle; told to start, it comes back active; never told anything, it is
/// active.
pub proof fn law_last_instruction_survives_a_restart(stored: DaemonState, stop: bool)
    ensures
        active_after_restart(DaemonState { idle_requested: stop, ..stored }) == !stop,
        active_after_restart(DaemonState::initial()),
{
}

/// What is remembered is what was last stored: a daemon that is started again with
/// it comes up as one that was told so, and what could not be stored was not told.
pub proof fn law_switch_follows_what_is_stored(
    c: DaemonControlView,
    stored: DaemonState,
    stop: bool,
)
    ensures
        DaemonControlView::started(stored_after(stored, stop)).idle_requested == stop,
        DaemonControlView::started(stored_after(stored, stop)).comes_up_active() == !stop,
        !DaemonControlView::started(stored).active,
        DaemonControlView::started(stored).last_reconcile_ms is None,
        c.told(stop, true).idle_requested == stop,
        c.told(stop, false) == c,
        c.told(stop, true).active == c.active,
        c.told(stop, true).last_reconcile_ms == c.last_reconcile_ms,
        c.comes_up_active() <==> !c.idle_requested,
{
}

/// Only names and ports that were taken make the daemon active, and giving them up
/// undoes that; an active daemon stays so when it is told to be. Neither changes
/// what it was told.
pub proof fn law_active_means_taken(c: DaemonControlView, taken: bool)
    ensures
        !c.active ==> (c.activated(taken).active <==> taken),
        c.active ==> c.activated(taken) == c,
        !c.activated(taken).deactivated().active,
        c.activated(taken).idle_requested == c.idle_requested,
        c.deactivated().idle_requested == c.idle_requested,
        c.deactivated().last_reconcile_ms == c.last_reconcile_ms,
        c.activated(taken).last_reconcile_ms == c.last_reconcile_ms,
{
}

/// An inspection counts while the daemon is active, and changes nothing else.
pub proof fn law_inspections_count_while_active(c: DaemonControlView, now_ms: u64)
    ensures
        c.active ==> c.inspected(now_ms).last_reconcile_ms == Some(now_ms),
        !c.active ==> c.inspected(now_ms) == c,
        c.inspected(now_ms).active == c.active,
        c.inspected(now_ms).idle_requested == c.idle_requested,
{
}

} // verus!
