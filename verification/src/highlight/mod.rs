//! Incremental syntax highlighting: an edit relexes no more lines than it must.

pub mod digest;
pub mod edit;
pub mod grammar;
pub mod incremental;
pub mod laws;
pub mod lex;
pub mod lines;
pub mod scan;
pub mod workload;
