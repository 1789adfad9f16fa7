//! Verified core of an agentless configuration runner.
//!
//! An operator describes a fleet of hosts (`hosts.yml`) and an ordered list
//! of task bundles called scrolls (`scrolls/<name>/main.yml`).  The runner
//! connects to every host over SSH and walks each host through the scrolls.
//! This crate holds the data model and the decision logic of that runner:
//! which task runs next on a host, in what order scrolls are taken up, how a
//! script's exit statuses fold into one status, how a pushed file is cut into
//! chunks, and when a run as a whole counts as successful.  The surrounding
//! binary performs the SSH, SFTP, packet-capture and file I/O that these
//! decisions ask for, and feeds the observed outcomes back in as events.

pub mod args;
pub mod capture;
pub mod engine;
pub mod hosts;
pub mod script;
pub mod scrolls;
pub mod sync;
pub mod tasks;
