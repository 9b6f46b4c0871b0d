//! Repair of freezer incident histories from late and corrected readings.

pub mod archives;
pub mod excursions;
pub mod fixture;
pub mod laws;
pub mod model;
pub mod reduce;
pub mod validate;
pub mod wire;
