//! The lending desk of a repair café: what may happen to an item, what is told of
//! it, and how it is found.

pub mod finding;
pub mod fixture;
pub mod histories;
pub mod import;
pub mod laws;
pub mod model;
pub mod search;
pub mod store;
