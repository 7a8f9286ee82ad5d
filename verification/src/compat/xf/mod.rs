//! The chat tables of the forum database.
pub mod message;
