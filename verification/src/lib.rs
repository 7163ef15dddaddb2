//! A batch experiment-runner core: an external worker, fed a random seed,
//! writes an artifact file ending in a numeric score; of many such runs
//! only a bounded top-K archive survives on disk. This crate holds the
//! verified logic of that harness — seed freshness, score extraction,
//! configuration defaults, the capacity-bounded retention set and the
//! attempt-loop state machine — while process launching and file handling
//! stay with the caller.

pub mod config;
pub mod numbers;
pub mod orchestrator;
pub mod report;
pub mod retention;
pub mod run;
pub mod score;
pub mod seed;
