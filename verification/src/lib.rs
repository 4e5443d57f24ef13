//! Core of a line-oriented chat relay: a registry of connected peers keyed by
//! unique usernames, bounded per-peer outbound mailboxes, and the hub logic
//! that serializes membership changes and fans each message out to every
//! registered mailbox.

pub mod client;
pub mod laws;
pub mod mailbox;
pub mod server;
