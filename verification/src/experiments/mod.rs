//! Experiment records: numbering, naming and text ([`record`]), and what holds of
//! them as a whole ([`laws`]).

pub mod laws;
pub mod record;
