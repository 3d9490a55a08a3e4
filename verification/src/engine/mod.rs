//! The turn-resolution engine.

pub mod event_deck;
pub mod game_state;
pub mod rng;
pub mod stat_calculator;
pub mod turn_runner;
