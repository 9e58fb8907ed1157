//! Harness-enforced locking for multi-agent coordination.
//!
//! One shared resource, one gatekeeper in front of it, and a lock service that says whose turn it
//! is. Agents read and write through the [`harness`] alone and never see a ticket, so there is
//! nothing about lock discipline for them to get wrong. Everything that happens is written to a
//! totally ordered [`history`], and the [`checker`] decides eight properties over that history.

pub mod checker;
pub mod clock;
pub mod harness;
pub mod history;
pub mod lock;
pub mod properties;
pub mod reports;
pub mod run;
pub mod store;
pub mod text;
pub mod timing;
pub mod types;
pub mod watch;
