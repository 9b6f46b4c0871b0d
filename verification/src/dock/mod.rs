//! Admission of truck arrivals to the receiving doors of a warehouse.

pub mod admission;
pub mod authority;
pub mod fixture;
pub mod inspect;
pub mod laws;
pub mod model;
