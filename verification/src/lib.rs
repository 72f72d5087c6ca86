//! Process-local structured-log writer with size-based file rotation and
//! bounded retention.
//!
//! The crate verifies the logic of the writer: byte accounting for the active
//! file, the rotation trigger, the order in which rotated files are shifted,
//! retention of at most `max_files` rotated files, construction of one
//! ordered JSON record per log call, and the configuration fallbacks.
//! Reading and writing the real files, the console streams and the process
//! environment are left to the thin unverified shell around the crate.

pub mod bash;
pub mod config;
pub mod logger;
pub mod paths;
pub mod record;
pub mod sink;
