//! The viewer between two frames: what it holds, what can happen to it, and
//! what it then has to do.

use vstd::prelude::*;
use crate::record::{ProcessInfo, ProcessInfoView, SortKey};

verus! {

/// The time in milliseconds that has to pass before the rows are refreshed
/// unasked.
pub const POLL_INTERVAL_MS: u128 = 500;

/// What the viewer holds between two frames.
#[derive(Clone, Copy, Debug, PartialEq, Eq, Structural)]
pub struct ViewState {
    /// Whether the rows are refreshed as time passes.
    pub live_refresh: bool,
    /// The pid of the row that is selected.
    pub selected_pid: Option<u32>,
    pub sort: SortKey,
}

/// What can happen to the viewer.
#[derive(Clone, Copy, Debug, PartialEq, Eq, Structural)]
pub enum Event {
    /// A frame begins, this many milliseconds after the last refresh.
    Tick(u128),
    /// The filter text has been edited.
    FilterChanged,
    /// Ordering by this key has been asked for.
    SortRequested(SortKey),
    LiveRefreshToggled,
    RefreshRequested,
    KillRequested,
    /// The row of this pid has been clicked.
    RowClicked(u32),
}

/// What the viewer has to do after an event.
#[derive(Clone, Copy, Debug, PartialEq, Eq, Structural)]
pub enum Action {
    Nothing,
    /// Take a new snapshot and reduce it.
    Refresh,
    /// End the process of this pid.
    Kill(u32),
}

impl ViewState {
    /// The state after `event`: a request to sort sets the key, the toggle
    /// flips, and a click selects the row or, on the selected row, unselects.
    pub open spec fn after(self, event: Event) -> ViewState {
        match event {
            Event::SortRequested(key) => ViewState { sort: key, ..self },
            Event::LiveRefreshToggled => ViewState { live_refresh: !self.live_refresh, ..self },
            Event::RowClicked(pid) => ViewState {
                selected_pid: if self.selected_pid == Some(pid) {
                    None
                } else {
                    Some(pid)
                },
                ..self
            },
            _ => self,
        }
    }

    /// What `event` asks for in this state.
    pub open spec fn action_on(self, event: Event) -> Action {
        match event {
            Event::Tick(elapsed_ms) => if self.live_refresh && elapsed_ms > POLL_INTERVAL_MS {
                Action::Refresh
            } else {
                Action::Nothing
            },
            Event::FilterChanged | Event::SortRequested(_) | Event::RefreshRequested => Action::Refresh,
            Event::KillRequested => match self.selected_pid {
                Some(pid) => Action::Kill(pid),
                None => Action::Nothing,
            },
            Event::LiveRefreshToggled | Event::RowClicked(_) => Action::Nothing,
        }
    }

    /// The state in which the viewer starts: live, nothing selected, by CPU.
    pub fn new() -> (state: ViewState)
        ensures
            state == (ViewState { live_refresh: true, selected_pid: None, sort: SortKey::Cpu }),
    {
        ViewState { live_refresh: true, selected_pid: None, sort: SortKey::Cpu }
    }

    /// Takes `event` in and says what is to be done.
    pub fn step(&mut self, event: Event) -> (action: Action)
        ensures
            *final(self) == old(self).after(event),
            action == old(self).action_on(event),
    {
        match event {
            Event::Tick(elapsed_ms) => {
                if self.live_refresh && elapsed_ms > POLL_INTERVAL_MS {
                    Action::Refresh
                } else {
                    Action::Nothing
                }
            },
            Event::FilterChanged => Action::Refresh,
            Event::SortRequested(key) => {
                self.sort = key;
                Action::Refresh
            },
            Event::LiveRefreshToggled => {
                self.live_refresh = !self.live_refresh;
                Action::Nothing
            },
            Event::RefreshRequested => Action::Refresh,
            Event::KillRequested => {
                match self.selected_pid {
                    Some(pid) => Action::Kill(pid),
                    None => Action::Nothing,
                }
            },
            Event::RowClicked(pid) => {
                let selected: bool = match self.selected_pid {
                    Some(current) => current == pid,
                    None => false,
                };
                self.selected_pid = if selected {
                    None
                } else {
                    Some(pid)
                };
                Action::Nothing
            },
        }
    }
}

/// Whether one of the rows is that of `pid`.
pub open spec fn shows(rows: Seq<ProcessInfoView>, pid: u32) -> bool {
    exists|at: int| 0 <= at < rows.len() && (#[trigger] rows[at]).pid == pid
}

/// The selection after a refresh: it stays where its row is still shown and
/// is dropped where the row has gone.
pub fn retain_selection(selected_pid: Option<u32>, rows: &Vec<ProcessInfo>) -> (kept: Option<u32>)
    ensures
        kept == match selected_pid {
            Some(pid) => if shows(rows.deep_view(), pid) {
                Some(pid)
            } else {
                None
            },
            None => None,
        },
{
    match selected_pid {
        None => None,
        Some(pid) => {
            let mut at: usize = 0;
            while at < rows.len()
                invariant
                    at <= rows.len(),
                    selected_pid == Some(pid),
                    forall|i: int| 0 <= i < at ==> (#[trigger] rows.deep_view()[i]).pid != pid,
                decreases rows.len() - at,
            {
                if rows[at].pid == pid {
                    assert(rows.deep_view()[at as int].pid == pid);
                    return Some(pid);
                }
                assert(rows.deep_view()[at as int].pid != pid);
                at = at + 1;
            }
            None
        },
    }
}

} // verus!
