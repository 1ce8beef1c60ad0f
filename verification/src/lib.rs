//! Verified core of a real-time musical accompanist.
//!
//! The library recognizes the chord a player is holding from a stream of
//! MIDI note messages, models looping accompaniment patterns of timed note
//! events (including a small textual notation for chord changes), and
//! schedules those events into timestamped MIDI packet slices ahead of
//! wall-clock time.
#![verifier::loop_isolation(false)]

pub mod chord;
pub mod detect;
pub mod key;
pub mod pattern;
pub mod play;
pub mod tracker;
