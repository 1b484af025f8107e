//! The decisions behind a small container CI runner: which containers are set
//! up, in which order, with which commands, and what is reported meanwhile.
//!
//! Nothing here touches the file system, the network or a process. A program
//! that does so hands in what it found and carries out what it is told.

pub mod circular;
pub mod config;
pub mod dispatch;
pub mod execution;
pub mod grounded;
pub mod job;
pub mod paths;
pub mod plan;
pub mod progress;
pub mod repositories;
pub mod schedule;
pub mod script;
pub mod text;
