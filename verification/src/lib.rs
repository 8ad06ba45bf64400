//! Exact-probability engine for the blackjack hit-or-stand decision.
//!
//! Given the player's hand, the dealer's up-card and the exact composition of
//! the remaining shoe, the library computes the player's win probability for
//! standing now and for taking exactly one more card and then standing.  All
//! probabilities are kept as exact integer fractions: a numerator over a
//! falling-factorial denominator, so every stated property holds exactly
//! rather than up to rounding.

pub mod arith;
pub mod deck;
pub mod hand;
pub mod models;
pub mod probs;
