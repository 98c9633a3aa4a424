//! Ternary views of room sensor state: every reading is reduced to a trit in
//! {-1, 0, +1}, a room becomes a vector of trits, and the library evaluates
//! alarms, fleet votes and compressed histories over those vectors.
//!
//! - [`threshold`]: the decision rules that turn a reading's position
//!   relative to its bounds into a trit
//! - [`room_state`]: a room as a ternary vector, packed into a `u32`
//! - [`fleet_vote`]: ternary voting across rooms
//! - [`alarm_ternary`]: alarm evaluation over a room's trits
//! - [`compression`]: delta and run-length encoding of tick histories

pub mod alarm_ternary;
pub mod compression;
pub mod fleet_vote;
pub mod room_state;
pub mod threshold;
