//! Orchestration engine for window-bound scripted agents: a registry of bot
//! definitions and their live window instances, a run-state machine with a
//! cooldown scheduler, a visual hint decoder that reads a color-coded pixel
//! strip out of a captured image, a logging service, and the control-surface
//! state that drives it all.

pub mod hint;
pub mod logger;
pub mod orch;
pub mod settings;
pub mod strutil;
pub mod stub;
pub mod types;
pub mod ui;
