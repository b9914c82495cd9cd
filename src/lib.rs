//! Texas Hold'em hand analysis: a card model, a hand classifier with poker
//! ordering, a linear congruential generator, and a Monte Carlo simulation of
//! one-opponent play.

pub mod card;
pub mod hand;
pub mod random;
pub mod texas;

pub use card::{Card, ParseError, Suit, Value};
pub use hand::{Category, Hand};
pub use random::Random;
pub use texas::{Counters, Simulation};
