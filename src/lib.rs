//! Bulk renaming of files and directories as one reversible operation.
//!
//! The rename engine is a state machine: it asks for one filesystem action at
//! a time and decides from the answer what comes next. A driver performs the
//! actions; `disk` describes a well-behaved filesystem against which the
//! engine's laws are proved.

pub mod error;
pub mod path;
pub mod resolve;
pub mod rename;
pub mod disk;
pub mod laws;
pub mod observer;
pub mod resource;
