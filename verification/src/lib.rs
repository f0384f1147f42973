//! Traffic accounting per ordered address pair: classification of captured
//! link-layer frames, the aggregation table, and the textual form in which
//! the table is persisted and served.
//!
//! A frame is classified by [`frame::proc_packet`] and recorded in the table
//! by [`data::update_db`]; [`capture::capture_step`] does both for one turn
//! of a capture loop. The table is written as a document of entries by
//! `Stats::serialize` and read back by `Stats::deserialize`;
//! [`persist::read_db`] and [`persist::save_db`] decide what is loaded at
//! startup and what is stored after an update. Capturing frames, the lock
//! around the table, files and the HTTP server are the caller's part.

pub mod capture;
pub mod data;
pub mod document;
pub mod frame;
pub mod ipv4;
pub mod ipv6;
pub mod key;
pub mod laws;
pub mod persist;
pub mod show;
pub mod text;
