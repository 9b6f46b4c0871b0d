//! The effect of a change of firewall rules: which packets are newly allowed or
//! denied, and which rules can be reached.

pub mod laws;
pub mod meaning;
pub mod model;
pub mod analyze;
pub mod blocks;
pub mod grid;
pub mod publication;
pub mod random;
pub mod runs;
pub mod samples;
pub mod reach;
pub mod trial;
pub mod validate;
pub mod verify;
pub mod workload;
