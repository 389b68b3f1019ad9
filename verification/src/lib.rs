//! Price-time-priority order matching for a prediction market.
//!
//! The book keeps one ladder of price levels per side; each level is a FIFO
//! queue of resting orders. `book::match_order` sweeps the opposite side of
//! an incoming order best price first and queue order within a price, and
//! rests whatever quantity is left.
pub mod types;
pub mod book;
pub mod laws;
pub mod engine;
