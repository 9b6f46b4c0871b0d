//! Fixed-capacity MIDI callback scheduling: plans prepared off the callback
//! thread, the callback scheduler itself, the two-slot publication of plans,
//! and a slow rational oracle that the scheduler is measured against.

pub mod handoff;
pub mod laws;
pub mod oracle;
pub mod plan;
pub mod scheduler;
pub mod timing;
