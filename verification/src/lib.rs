//! Flight-activity ledger built from periodic network snapshots.
//!
//! The library ingests timestamped snapshots of connected pilots and
//! reconstructs per-flight departure and arrival events from groundspeed
//! threshold crossings.  It holds the ledger's state-transition logic, the
//! chronological import planner for historical archives and live downloads,
//! the mirror-fallback fetch policy, and the archival compaction policy.
//! All I/O (network, filesystem, subprocess collaborators) lives outside the
//! library and hands in plain values.

pub mod datafeed;
pub mod importer;
pub mod server;
pub mod storage;
pub mod timefmt;
pub mod vatdl;
