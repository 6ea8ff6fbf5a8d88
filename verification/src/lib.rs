//! Price-time priority matching engine for a limit order book.

pub mod models;
pub mod levels;
pub mod book;
pub mod matcher;
pub mod clock;
pub mod laws;
pub mod requests;
pub mod worker;
