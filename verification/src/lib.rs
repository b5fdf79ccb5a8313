//! A user-space TCP endpoint: the per-connection protocol engine and the
//! connection table that multiplexes segments, ticks and stream calls onto it.
//!
//! Everything here is a function from plain values to plain values. Time is a
//! count of nanoseconds handed in by the caller, and every segment that the
//! engine wants on the wire is handed back as the bytes of one frame.

pub mod seqnum;

pub mod state;
pub mod available;
pub mod wire;
pub mod frame;
pub mod keys;
pub mod timers;
pub mod bytes;
pub mod model;
pub mod connection;
pub mod table;
pub mod manager;
pub mod laws;
