//! Real-time retuning of a MIDI performance to just intonation.
//!
//! Every one of the twelve pitch classes is bound to its own output channel
//! and bent, over time, to an exact frequency ratio taken from a schedule.

pub mod bend;
pub mod factor;
pub mod fundamental;
pub mod interval;
pub mod midi;
pub mod monzo;
pub mod playback;
pub mod prime_table;
pub mod tuner;
pub mod visualizer;
