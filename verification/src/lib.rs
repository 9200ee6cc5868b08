//! Listening-activity aggregation and memoization engine.
//!
//! The library partitions a one-year scrobble history into day and month
//! windows, resolves per-track durations and per-artist genres through a
//! cache-first strategy with live-lookup fallbacks, and ranks artists by
//! play count.  External collaborators (the scrobble history provider, the
//! catalog search provider, persistence I/O) hand plain values in and take
//! plain values back; every rule that decides what those values mean is
//! verified here.

pub mod aggregate;
pub mod cache;
pub mod codec;
pub mod months;
pub mod numtext;
pub mod provider;
pub mod ranking;
pub mod resolve;
pub mod strutil;
pub mod textutil;
pub mod timeapi;
