//! A workshop of small verified tools: each module is one self-contained
//! decision engine, with the algorithms they share in `sorting` and `text`.

pub mod chars;
pub mod coldchain;
pub mod dns;
pub mod dock;
pub mod fields;
pub mod firewall;
pub mod highlight;
pub mod ip;
pub mod ip_laws;
pub mod kiosk;
pub mod midi;
pub mod number;
pub mod refund;
pub mod seqs;
pub mod sorting;
pub mod support;
pub mod text;
