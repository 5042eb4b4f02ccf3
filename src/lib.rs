//! A per-mailbox, append-only transaction-log state engine for a mail store,
//! with snapshot ("rollup") consolidation, together with the small SMTP and
//! IMAP wire helpers that sit around it.

pub mod ids;
pub mod rollup;
pub mod flags;
pub mod state;
pub mod mailbox;
pub mod text;
pub mod smtp;
pub mod client;
pub mod envelope;
