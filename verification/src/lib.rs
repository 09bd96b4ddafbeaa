//! Verified core of a directory transfer engine.
//!
//! The engine copies or moves a tree of files to one or more destinations,
//! optionally verifying contents byte for byte, resuming interrupted
//! transfers from durably recorded byte offsets, and mirroring deletions.
//! This crate holds the decision logic and the data formats of that engine,
//! specified and proved: buffer-size parsing, the overwrite gate, the
//! chunked copy and its resume invariant, lock-step content verification,
//! the persisted progress records and completed log, the retry protocol,
//! move safety, and the mirror purge. The surrounding process performs the
//! actual file input and output and drives these functions.

pub mod bytesize;
pub mod decimal;
pub mod config;
pub mod jobline;
pub mod ledger;
pub mod log;
pub mod orchestrator;
pub mod paths;
pub mod progress;
pub mod records;
pub mod unit;
