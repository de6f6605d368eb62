//! The `.ire/` directory: what `ire.json` holds ([`content`]), what was last seen
//! of the files ([`snapshot`]), the pass that finds changes ([`reconcile`]), and
//! what holds of whole passes ([`laws`]).

pub mod content;
pub mod json;
pub mod laws;
pub mod reconcile;
pub mod snapshot;
