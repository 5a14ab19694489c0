//! Verified core of a channel-monitoring tool.
//!
//! The library holds the logic of four subsystems: a rotating credential
//! pool for a quota-limited remote catalogue, a sync orchestrator with a
//! circuit breaker, a download supervisor that drives an external
//! downloader and parses its text output, and a metrics engine that
//! computes channel baselines and per-item virality rankings.  All I/O
//! (database, network, processes) lives outside the library; callers hand
//! in plain values and get plain values back.

pub mod catalogue;
pub mod credential;
pub mod download;
pub mod duration;
pub mod metrics;
pub mod progress;
pub mod sanitize;
pub mod sync;
pub mod text;
