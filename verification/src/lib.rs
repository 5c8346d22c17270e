//! Duplication and verification of backup snapshot trees produced by the
//! burp backup agent.
//!
//! The crate decodes the agent's binary manifest format, plans the cloning of
//! one snapshot into a destination store with content-addressed deduplication
//! against a base snapshot, and classifies the outcome of per-file integrity
//! checks.  All decision logic lives here and carries contracts; reading and
//! writing the actual files is left to the surrounding application.

pub mod backup;
pub mod checksums;
pub mod client;
pub mod digits;
pub mod manifest;
