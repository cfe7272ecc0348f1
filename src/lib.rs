//! Scoring of cribbage-style card combinations: fifteens, cards of a kind,
//! flushes and runs, together with the card notation and the enumeration
//! helpers that the scoring engine is built from.

pub mod card;
pub mod combo;
pub mod deck;
pub mod game;
pub mod hand;
pub mod ui;
pub mod util;
