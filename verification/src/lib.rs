//! Core engine of a desktop foreground-usage tracker.
//!
//! The engine has three parts:
//!
//! * a poller state machine that debounces foreground-window changes and
//!   detects machine sleep through a heartbeat gap ([`poller`]),
//! * an append-only, newline-delimited event-log format with a verified
//!   encoder and parser ([`event`]),
//! * an aggregator that replays logged events over a queried time range and
//!   reconstructs per-application usage intervals and totals ([`aggregate`]).
//!
//! Everything operating-system specific (window enumeration, file and process
//! handling) stays outside; the engine works on plain values.

pub mod aggregate;
pub mod app_name;
pub mod bytes;
pub mod days;
pub mod digits;
pub mod event;
pub mod poller;
