//! The line-reversal session protocol (LRCP): its textual message format,
//! the session table and what the server does with each message.
pub mod codec;
pub mod errors;
pub mod handlers;
pub mod message;
pub mod parser;
pub mod state;
pub mod types;
