//! Verified core logic of a family of small network services: a chat room,
//! a line-reversal session protocol, a price database, a crypto-address
//! rewriting proxy, a primality service, a speed-enforcement daemon and a
//! key/value database. Sockets, tasks and timers live outside this crate;
//! the functions here decide what those services answer.
pub mod assoc;
pub mod budget_chat;
pub mod decimal;
pub mod line_reversal;
pub mod means_to_an_end;
pub mod mob_in_the_middle;
pub mod parsing;
pub mod prime_time;
pub mod speed_daemon;
pub mod text;
pub mod unusual_database;
