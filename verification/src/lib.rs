//! Verified core of an interactive branch-switching tool.
//!
//! The library parses the textual output of the version-control tool's
//! branch listing into typed `Branch` records, correlates local branches
//! with the remote branches they track, filters redundant remote entries,
//! and decides which checkout command a chosen branch requires.  All I/O
//! (spawning the tool, the interactive prompt) lives outside the library;
//! callers hand in the captured listing text and receive plain values.

pub mod branch;
pub mod checkout;
pub mod text;
