//! The static content of a game.

use crate::models::{Action, Decision, Ending, EventCard, Job};
use vstd::prelude::*;

verus! {

/// All static game content. It is read, never changed, by the engine.
#[derive(Debug, Clone)]
pub struct GameData {
    pub events: Vec<EventCard>,
    pub actions: Vec<Action>,
    pub decisions: Vec<Decision>,
    pub jobs: Vec<Job>,
    pub endings: Vec<Ending>,
}

} // verus!
