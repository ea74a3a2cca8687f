//! The speed-enforcement daemon: the binary wire format, the shared state of
//! cameras, dispatchers and observations, and the ticketing rule.
pub mod codec;
pub mod errors;
pub mod handlers;
pub mod message;
pub mod message_types;
pub mod parsers;
pub mod sample_messages;
pub mod state;
pub mod types;
