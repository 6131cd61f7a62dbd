//! Finding, listing and restarting the agent sessions that run in tmux panes.
use vstd::prelude::*;

pub mod act;
pub mod agents;
pub mod ansi;
pub mod conv;
pub mod env;
pub mod handoff;
pub mod hook;
pub mod index;
pub mod install;
pub mod json;
pub mod log;
pub mod order;
pub mod panes;
pub mod paths;
pub mod proc;
pub mod remote;
pub mod restart;
pub mod resurrect;
pub mod rows;
pub mod sha256;
pub mod sqlite;
pub mod stat;
pub mod state;
pub mod table;
pub mod text;
pub mod tmux;
pub mod transcript;
pub mod tui;
pub mod turn;

verus! {

} // verus!
