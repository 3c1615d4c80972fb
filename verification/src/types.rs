//! Data model: window geometry, captured pixel buffers, bot definitions and
//! their live window instances, and the control-surface command set.

use vstd::prelude::*;

use crate::strutil::{dec_str, u64_to_string};

verus! {

/// Window identifier, as the platform reports it.
pub type WindowId = u64;

/// Screen-coordinate bounding box of a window.
#[derive(Debug, Clone, Copy)]
pub struct Region {
    pub l: i32,
    pub t: i32,
    pub r: i32,
    pub b: i32,
    pub w: i32,
    pub h: i32,
    pub cx: i32,
    pub cy: i32,
}

/// Sub-region for partial capture, relative to the window origin.
#[derive(Debug, Clone, Copy)]
pub struct CaptureRect {
    pub l: i32,
    pub t: i32,
    pub w: i32,
    pub h: i32,
}

/// Raw screenshot pixel data, four bytes per pixel in BGRA order, row-major
/// with a stride (`bytes_per_row`) that may exceed `width * 4`.
#[derive(Debug)]
pub struct Capture {
    pub data: Vec<u8>,
    pub width: u32,
    pub height: u32,
    pub bytes_per_row: u32,
}

impl Capture {
    /// The buffer holds every row the header promises.
    pub open spec fn wf(&self) -> bool {
        (self.height as int) * (self.bytes_per_row as int) <= self.data@.len()
    }
}

/// Global run state of the orchestrator.
/// `Stopped`: no agents run even if enabled. `Running`: enabled entries'
/// instances are ticked. `Stopping`: in-flight teardown; no new ticks start,
/// and the next scheduler pass stops every live agent and reaches `Stopped`.
#[derive(Debug, Clone, Copy, PartialEq, Eq, Structural)]
pub enum RunState {
    Stopped,
    Running,
    Stopping,
}

/// Command from the control surface to the orchestrator.
#[derive(Debug, Clone, Copy, PartialEq, Eq, Structural)]
pub enum Command {
    Toggle(usize),
    StartStop,
    Restart(usize),
    Quit,
}

/// One bot instance bound to a specific window.
pub struct Instance {
    pub id: String,
    pub window_id: WindowId,
    pub window_title: String,
    pub status: String,
    pub error: Option<String>,
}

/// The id an instance of bot `name` on window `wid` carries:
/// the bot name, a dash, and the window id in decimal.
pub open spec fn instance_id(name: Seq<char>, wid: WindowId) -> Seq<char> {
    name + seq!['-'] + dec_str(wid as nat)
}

impl Instance {
    /// The instance `inst` is exactly a fresh one for this name, window and title.
    pub open spec fn is_fresh(&self, name: Seq<char>, wid: WindowId, title: Seq<char>) -> bool {
        &&& self.id@ == instance_id(name, wid)
        &&& self.window_id == wid
        &&& self.window_title@ == title
        &&& self.status@ == Seq::<char>::empty()
        &&& self.error is None
    }

    pub fn new(bot_name: &str, window_id: WindowId, window_title: String) -> (r: Instance)
        ensures
            r.is_fresh(bot_name@, window_id, window_title@),
    {
        let mut id = bot_name.to_owned();
        id.append("-");
        let num = u64_to_string(window_id);
        id.append(num.as_str());
        proof {
            reveal_strlit("-");
            assert(id@ =~= instance_id(bot_name@, window_id));
        }
        Instance { id, window_id, window_title, status: String::new(), error: None }
    }
}

/// One discovered bot script and its runtime state.
pub struct BotEntry {
    pub name: String,
    pub window_pattern: String,
    pub description: String,
    pub enabled: bool,
    pub instances: Vec<Instance>,
    pub error: Option<String>,
    pub script_path: String,
}

} // verus!
