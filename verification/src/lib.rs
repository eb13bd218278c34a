//! Introspects `tracing` spans and events in plain text: a timeline of an
//! examined span and all its descendants, one-line summaries as spans close,
//! machine-readable timing records, and the resident memory of spans and of
//! process trees.
//!
//! The library does no I/O. Times, status texts and fields are handed in, and
//! the text to be written is handed back.

pub mod accuracy;
pub mod chart;
pub mod double;
pub mod dump;
pub mod fields;
pub mod format;
pub mod interest;
pub mod json_sink;
pub mod laws;
pub mod order;
pub mod proc_status;
pub mod root;
pub mod rss_sampler;
pub mod span;
pub mod text;
pub mod time;
