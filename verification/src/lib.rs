//! A system cleaner that shows its plan before it touches anything.
//!
//! The crate holds every decision the program takes: which rules apply, what
//! a scan offers, what may be deleted, which commands are run, what the
//! journal says about it. What reads the disk, starts a process or draws the
//! screen lives outside and hands plain values in.

pub mod analyze;
pub mod commands;
pub mod config;
pub mod ctx;
pub mod exec;
pub mod host;
pub mod item;
pub mod json;
pub mod labels;
pub mod offline;
pub mod order;
pub mod output;
pub mod paths;
pub mod pkg;
pub mod privilege;
pub mod purge;
pub mod ratio;
pub mod rules;
pub mod runner;
pub mod safety;
pub mod scan;
pub mod snapper;
pub mod sys;
pub mod text;
pub mod util;
