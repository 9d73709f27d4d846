//! The two sorting layers: the in-memory merge sorter and the staged-file
//! orchestrator built on top of it.

pub mod file;
pub mod ram;
