//! A minimal in-memory credential store mapping usernames to passwords,
//! with a verified colon-delimited text codec.
//!
//! The store keeps one password per username, preserves insertion order,
//! and serializes as one `<username>:<password>` line per entry.  Parsing
//! splits each line at its first colon and skips lines without one.

mod imap;

pub mod model;

pub mod store;

pub use store::Creds;
pub use store::CredsError;
