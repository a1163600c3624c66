//! A daily recurring task scheduler.
//!
//! A schedule is a list of times of day, each carrying commands to run, sounds
//! to play or reminders to raise. The library holds the clock arithmetic, the
//! pass that adds the reminders ahead of their commands, and the cursor that
//! walks the schedule round the clock.

pub mod add_command;
pub mod clock;
pub mod config;
pub mod dispatch;
pub mod expansion;
pub mod item;
pub mod time;
pub mod timeline;
pub mod validation;
