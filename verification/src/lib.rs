//! Poker equity engine: a card and hand model with notation parsing, a
//! totally ordered 5-to-7-card hand evaluator, a seeded deck with lazy
//! shuffling, and a Monte Carlo equity simulator built on top of them.

pub mod card;
pub mod deck;
pub mod deck_util;
pub mod eval;
pub mod hand;
pub mod rng;
pub mod sim;
