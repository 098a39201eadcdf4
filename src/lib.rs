//! A global-hotkey soundboard: sounds held in memory, a map from hotkey
//! identifiers to sounds, and the rules that turn hotkey events into playback.
pub mod config;
pub mod dispatch;
pub mod sound;
