//! The decisions that keep an IRE workspace in step with its `.ire/` directory.
//!
//! - [`experiments`]: the numbered, git-tracked folder and record of each
//!   experiment;
//! - [`ire`]: the checkpoint pass that finds what changed in `.ire/` outside the
//!   app;
//! - [`workspace`]: the open workspace and its snapshot of `.ire/`;
//! - [`text`]: the text operations the others share.
//!
//! Nothing here touches the disk. A caller lists directories, reads files and
//! emits events; the crate says which, and what follows from them.

pub mod experiments;
pub mod ire;
pub mod text;
pub mod workspace;
