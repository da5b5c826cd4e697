//! A limit order book matching core.
//!
//! The book holds resting entries on two sides (bids and asks) and an
//! append-only tape of executions. `OrderBook::execute` matches an incoming
//! order against the opposite side under price-time priority, supports
//! partial fills, and rests the remainder of a limit order on the book.

pub mod book;
pub mod laws;
pub mod matching;
pub mod types;
