//! Runs: whatever a harness in front of the in-memory lock service may go through.
//!
//! [`model`] says what one step does to the harness, to the lock service and to the content of the
//! resource, for every reading of the clocks, every answer of the file system and every fault.
//! [`exclusion`] proves that no run breaks mutual exclusion. [`content`] proves that no
//! accepted write is lost and nothing else reaches the resource. [`kept`] proves that nothing changes
//! under a lock that is kept, and [`ceiling`] that none is kept for ever. [`whole`] proves the other properties of the runs in which each write
//! goes through in one piece, and [`report`] what the checker reports of them. [`round_trip`]
//! goes from the answer of a write to the next read. [`laws`] is about single operations.

pub mod agents;
pub mod ceiling;
pub mod content;
pub mod exclusion;
pub mod kept;
pub mod laws;
pub mod logs;
pub mod model;
pub mod report;
pub mod round_trip;
pub mod steps;
pub mod tables;
pub mod whole;
