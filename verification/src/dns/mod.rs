//! A gate for changes of DNS zones: what two snapshots of a zone hold, what
//! changed between them, and whether a policy lets the change through.

pub mod laws;
pub mod name;
pub mod parser;
pub mod path;
pub mod policy;
pub mod problem;
pub mod publication;
pub mod rdata;
pub mod reading;
pub mod data;
pub mod changes;
pub mod findings;
pub mod fixture;
pub mod report;
pub mod ruling;
pub mod scanning;
pub mod table;
pub mod token;
pub mod verdicts;
pub mod zone;
