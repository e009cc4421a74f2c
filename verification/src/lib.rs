//! A central limit order book (CLOB) matching engine.
//!
//! The engine keeps one order book per symbol; each book holds two price
//! ladders (bids descending, asks ascending) of resting limit orders with
//! price-time priority. Commands enter through [`engine::MatchEngine`] and are
//! dispatched to the book of the named symbol.

pub mod book;
pub mod engine;
pub mod ladder;
pub mod matching;
pub mod order;
pub mod types;
