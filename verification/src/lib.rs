//! Verified core of a terminal viewer for authentication logs.
//!
//! The crate classifies log lines into privilege-escalation events, keeps a
//! frequency table of the invoked commands, paginates the selected sequence of
//! lines for display, and splits each displayed line into styled spans that
//! mark the escalation keyword and privileged usernames.  Terminal rendering
//! and keyboard handling live outside the library and exchange plain values
//! with it.

pub mod app;
pub mod classify;
pub mod freq;
pub mod pagination;
pub mod sudoers;
pub mod text;
pub mod tokenize;
