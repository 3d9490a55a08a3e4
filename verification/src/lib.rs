//! Turn-resolution engine of a single-player life-progression game.
//!
//! A player moves through four life stages. Every turn runs four phases (plan,
//! commit, event, feedback) that change a handful of bounded resources and a set
//! of credential tags.
//!
//! Every executable function states its result over a mathematical model: the
//! views of the data types in [`models`] and [`engine::game_state`], and the
//! spec functions that sit beside each operation.

pub mod data_loader;
pub mod engine;
pub mod models;
pub mod session;
pub mod text;
pub mod timeline;
