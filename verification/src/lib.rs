//! Tallying of weighted delegation graphs.
//!
//! A graph of delegates, intermediaries and policies, joined by weighted
//! votes, is tallied under four rules: approval, Borda, majority and the
//! liquid-democracy power method. Weights and scores are fixed-point numbers
//! (see [`weight::UNIT`]), and every collection is kept in the order of its
//! addresses, so that each result is a function of the graph alone. Where
//! shares are rounded, what one loses the next one gets (see [`rounding`]):
//! normalized weights add up to exactly one whole, and the liquid rule
//! neither loses weight nor makes any.

pub mod address;
pub mod address_map;
pub mod address_set;
pub mod conservation;
pub mod error;
pub mod matrix;
pub mod node;
pub mod reach;
pub mod rounding;
pub mod rules;
pub mod simple;
pub mod vote_data;
pub mod weight;
