//! Playback engine for short note recordings: sample-rate conversion of the
//! note tables, and the per-callback renderer driven by commands.

pub mod play;
pub mod quiz;
pub mod resample;

pub use play::{command_accepted, PlayData, PlayState, PlayView, ToFrontMsg, ToPlayMsg, NANOS_PER_MILLI};
pub use quiz::{available, fixed_range, Direction, DistinguishIntervalState, INTERVAL_NOTE_MILLIS};
pub use resample::{frames_of, get_sample, prepare_note, trans_sample};
