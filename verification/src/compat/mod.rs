//! Compatibility with the forum database.
pub mod xf;
