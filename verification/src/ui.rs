//! Control-surface state: the selection, log visibility and scroll state,
//! and what each key-driven action does — which command it sends to the
//! orchestrator and which settings record it persists. The rendering and
//! key-decoding layer around it lives outside the library.

use vstd::prelude::*;

use crate::settings::{enabled_names_spec, Settings};
use crate::types::{BotEntry, Command, RunState};

verus! {

/// The control surface's own state. The bot table and the run state are
/// shared with the orchestrator and are passed into the methods that read
/// or change them.
pub struct App {
    /// Index of the selected entry.
    pub selected: usize,
    /// Whether the log panel is shown.
    pub log_visible: bool,
    /// The log lines received so far, oldest first.
    pub log_messages: Vec<String>,
    /// Scroll offset from the bottom of the log (0 shows the latest).
    pub log_scroll: usize,
    /// Set once `quit` was requested.
    pub should_quit: bool,
}

impl App {
    /// A fresh control surface: first entry selected, log visible.
    pub fn new() -> (r: App)
        ensures
            r.selected == 0,
            r.log_visible == true,
            r.log_messages@ == Seq::<String>::empty(),
            r.log_scroll == 0,
            r.should_quit == false,
    {
        App {
            selected: 0,
            log_visible: true,
            log_messages: Vec::new(),
            log_scroll: 0,
            should_quit: false,
        }
    }

    /// Take in the log lines drained from the logging service.
    pub fn drain_logs(&mut self, msgs: Vec<String>)
        ensures
            final(self).log_messages@ == old(self).log_messages@ + msgs@,
            final(self).selected == old(self).selected,
            final(self).log_visible == old(self).log_visible,
            final(self).log_scroll == old(self).log_scroll,
            final(self).should_quit == old(self).should_quit,
    {
        let mut msgs = msgs;
        self.log_messages.append(&mut msgs);
    }

    /// Scroll the log up (towards older lines) by `n`.
    pub fn scroll_log_up(&mut self, n: usize)
        ensures
            final(self).log_scroll == (if old(self).log_scroll + n <= usize::MAX {
                old(self).log_scroll + n
            } else {
                usize::MAX as int
            }),
            final(self).selected == old(self).selected,
            final(self).log_visible == old(self).log_visible,
            final(self).log_messages == old(self).log_messages,
            final(self).should_quit == old(self).should_quit,
    {
        self.log_scroll = if self.log_scroll <= usize::MAX - n {
            self.log_scroll + n
        } else {
            usize::MAX
        };
    }

    /// Scroll the log down (towards the latest lines) by `n`.
    pub fn scroll_log_down(&mut self, n: usize)
        ensures
            final(self).log_scroll == (if old(self).log_scroll >= n {
                old(self).log_scroll - n
            } else {
                0int
            }),
            final(self).selected == old(self).selected,
            final(self).log_visible == old(self).log_visible,
            final(self).log_messages == old(self).log_messages,
            final(self).should_quit == old(self).should_quit,
    {
        self.log_scroll = if self.log_scroll >= n {
            self.log_scroll - n
        } else {
            0
        };
    }

    /// Move the selection up one entry, stopping at the top.
    pub fn move_up(&mut self)
        ensures
            final(self).selected == (if old(self).selected > 0 {
                old(self).selected - 1
            } else {
                0int
            }),
            final(self).log_visible == old(self).log_visible,
            final(self).log_messages == old(self).log_messages,
            final(self).log_scroll == old(self).log_scroll,
            final(self).should_quit == old(self).should_quit,
    {
        if self.selected > 0 {
            self.selected = self.selected - 1;
        }
    }

    /// Move the selection down one entry, stopping at the last of `len`
    /// entries.
    pub fn move_down(&mut self, len: usize)
        ensures
            final(self).selected == (if old(self).selected + 1 < len {
                old(self).selected + 1
            } else {
                old(self).selected as int
            }),
            final(self).log_visible == old(self).log_visible,
            final(self).log_messages == old(self).log_messages,
            final(self).log_scroll == old(self).log_scroll,
            final(self).should_quit == old(self).should_quit,
    {
        if len > 0 && self.selected < len - 1 {
            self.selected = self.selected + 1;
        }
    }

    /// Flip the selected entry's enabled flag (when the selection is
    /// valid), and hand back the settings record to persist and the
    /// command to send to the orchestrator.
    pub fn toggle_selected(&mut self, entries: &mut Vec<BotEntry>) -> (r: (Settings, Command))
        ensures
            *final(self) == *old(self),
            final(entries)@.len() == old(entries)@.len(),
            forall|i: int|
                0 <= i < old(entries)@.len() && i != old(self).selected ==> final(entries)@[i]
                    == old(entries)@[i],
            old(self).selected < old(entries)@.len() ==> {
                let oe = old(entries)@[old(self).selected as int];
                &&& final(entries)@[old(self).selected as int].name == oe.name
                &&& final(entries)@[old(self).selected as int].window_pattern == oe.window_pattern
                &&& final(entries)@[old(self).selected as int].description == oe.description
                &&& final(entries)@[old(self).selected as int].instances == oe.instances
                &&& final(entries)@[old(self).selected as int].error == oe.error
                &&& final(entries)@[old(self).selected as int].script_path == oe.script_path
                &&& final(entries)@[old(self).selected as int].enabled == !oe.enabled
            },
            r.0.enabled_bots@ == enabled_names_spec(final(entries)@),
            r.1 == Command::Toggle(old(self).selected),
    {
        if self.selected < entries.len() {
            let ghost pre = entries@;
            let sel = self.selected;
            let mut e = entries.remove(sel);
            e.enabled = !e.enabled;
            entries.insert(sel, e);
            proof {
                let si = sel as int;
                let mid = pre.remove(si);
                assert(entries@[si] == mid.insert(si, entries@[si])[si]);
                assert forall|i: int|
                    0 <= i < pre.len() && i != si implies entries@[i] == pre[i] by {
                    if i < si {
                        assert(entries@[i] == mid.insert(si, entries@[si])[i]);
                        assert(mid.insert(si, entries@[si])[i] == mid[i]);
                        assert(mid[i] == pre[i]);
                    } else {
                        assert(entries@[i] == mid.insert(si, entries@[si])[i]);
                        assert(mid.insert(si, entries@[si])[i] == mid[i - 1]);
                        assert(mid[i - 1] == pre[i]);
                    }
                }
            }
        }
        let settings = Settings::from_entries(entries);
        (settings, Command::Toggle(self.selected))
    }

    /// Move the run state one step — `Stopped` to `Running`, `Running` to
    /// `Stopping` — and hand back the command to send; while already
    /// `Stopping`, nothing happens.
    pub fn start_stop(&mut self, run_state: &mut RunState) -> (r: Option<Command>)
        ensures
            *final(self) == *old(self),
            *old(run_state) == RunState::Running ==> *final(run_state) == RunState::Stopping && r
                == Some(Command::StartStop),
            *old(run_state) == RunState::Stopped ==> *final(run_state) == RunState::Running && r
                == Some(Command::StartStop),
            *old(run_state) == RunState::Stopping ==> *final(run_state) == RunState::Stopping && r
                is None,
    {
        match *run_state {
            RunState::Running => {
                *run_state = RunState::Stopping;
                Some(Command::StartStop)
            },
            RunState::Stopped => {
                *run_state = RunState::Running;
                Some(Command::StartStop)
            },
            RunState::Stopping => None,
        }
    }

    /// The command that asks the orchestrator to restart the selected
    /// entry's agents.
    pub fn restart_selected(&self) -> (r: Command)
        ensures
            r == Command::Restart(self.selected),
    {
        Command::Restart(self.selected)
    }

    /// Show or hide the log panel.
    pub fn toggle_log(&mut self)
        ensures
            final(self).log_visible == !old(self).log_visible,
            final(self).selected == old(self).selected,
            final(self).log_messages == old(self).log_messages,
            final(self).log_scroll == old(self).log_scroll,
            final(self).should_quit == old(self).should_quit,
    {
        self.log_visible = !self.log_visible;
    }

    /// Ask to quit: marks the surface as done and hands back the command
    /// that shuts the orchestrator down.
    pub fn quit(&mut self) -> (r: Command)
        ensures
            final(self).should_quit == true,
            final(self).selected == old(self).selected,
            final(self).log_visible == old(self).log_visible,
            final(self).log_messages == old(self).log_messages,
            final(self).log_scroll == old(self).log_scroll,
            r == Command::Quit,
    {
        self.should_quit = true;
        Command::Quit
    }
}

/// A yes/no confirmation dialog.
pub struct ConfirmDialog {
    /// The question shown.
    pub message: String,
    /// True when "Yes" is selected; a fresh dialog defaults to "No".
    pub selected: bool,
}

impl ConfirmDialog {
    /// A fresh dialog with "No" selected.
    pub fn new(message: String) -> (r: ConfirmDialog)
        ensures
            r.message == message,
            r.selected == false,
    {
        ConfirmDialog { message, selected: false }
    }

    /// Move between "Yes" and "No".
    pub fn toggle(&mut self)
        ensures
            final(self).selected == !old(self).selected,
            final(self).message == old(self).message,
    {
        self.selected = !self.selected;
    }
}

} // verus!
