//! Watches a prioritized list of target processes and decides what a rich
//! presence service should show: the first running target wins, its display
//! name is laid out on two lines, and redundant re-announcements are
//! suppressed. The configuration holding the target list is edited with
//! index-clamping semantics and persisted as a JSON document.

pub mod codec;
pub mod config;
pub mod presence;
pub mod resolver;
pub mod textfmt;
