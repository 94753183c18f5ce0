//! A verified limit order book.
//!
//! The book keeps resting buy and sell limit orders indexed by price, with
//! strict time priority (FIFO) within a price level. An incoming aggressive
//! order matches against the best opposite-side price first and drains each
//! level oldest-order-first; any remainder of a limit order rests in the book.
//!
//! All cross-entity state is held in plain vectors: each side is a vector of
//! price levels ordered best-price-first, and each level owns the FIFO queue
//! of its resting orders. Contracts are stated over a sequence-of-levels
//! model, and the matching, insertion and cancellation functions are proved
//! against recursive specification functions on that model.

pub mod book;
pub mod laws;
pub mod level;
pub mod order;
