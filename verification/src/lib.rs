//! Verified core of a feature-override synchronization backend.
//!
//! The library models the two persisted tables — issued API credentials and
//! feature-override records — as in-memory stores with explicit invariants,
//! and verifies the logic that the service runs over them: credential
//! issuance and verification, request authentication and permission
//! checking, streamed ingestion with per-record upsert and partial-failure
//! accounting, and cursor-based ordered export.

pub mod auth;
pub mod clock;
pub mod laws;
pub mod overrides;
pub mod push;
pub mod server;
