//! Finding a resolved support case: the order of hits, what is shown of them, and
//! how many searches were useful.

pub mod cases;
pub mod fixture;
pub mod laws;
pub mod recall;
pub mod refresh;
pub mod search;
