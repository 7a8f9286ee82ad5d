//! BbCode tokenization with a verified state machine, and the chat history order.
pub mod bbcode2;
pub mod compat;
