//! The open workspace.

pub mod state;
