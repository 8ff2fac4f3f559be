//! Music sequencing building blocks: musical units, MIDI message encoding, Euclidean rhythms and
//! a tick-based MIDI sequencer.

pub mod midi;
pub mod text;
pub mod units;
pub mod sequencer;
pub mod player;
pub mod config;
pub mod clipfile;
pub mod mutation;
pub mod commands;

use vstd::prelude::*;

verus! {

/// Results of the library carry an error message.
pub type Result<T> = std::result::Result<T, String>;

} // verus!
