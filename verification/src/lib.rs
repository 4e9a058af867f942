//! Verified core of a multi-endpoint file-synchronization engine.
//!
//! The crate models synchronization endpoints (local folders, FTP servers,
//! read-only zip archives) by the plain data they expose: listings of file
//! and directory records.  The reconciliation kernel turns such listings
//! into a plan of actions (copy, delete, create, remove) under a
//! last-writer-wins policy; an unverified driver executes the plan against
//! the real backends.

pub mod errors;
pub mod hashing;
pub mod locations;
pub mod strutil;
pub mod sync_logic;
