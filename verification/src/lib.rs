//! Core of a match collector: hero masks, range collectors, the checkpoint
//! of collected ranges, the request pacing and the query planner.

pub mod client;
pub mod collector;
pub mod database;
pub mod dota2;
pub mod mask;
pub mod ranges;
pub mod rate;
pub mod scheduler;
pub mod service;
pub mod text;
