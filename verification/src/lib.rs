//! A small cooperative scheduling library built around two pieces:
//!
//! * [`list::List`], a verified double-ended list, and
//! * a poll-based timer executor ([`sched::MiniTokio`]) that drives
//!   [`task::Task`] values holding [`delay::Delay`] timers through a
//!   FIFO run queue until every spawned computation has completed.

pub mod delay;
pub mod laws;
pub mod list;
pub mod sched;
pub mod task;
