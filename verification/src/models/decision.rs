//! Decisions the player makes during the commit phase.

use super::event::StatEffect;
use super::Stage;
use vstd::prelude::*;

verus! {

/// A decision the player makes during the commit phase.
#[derive(Debug, Clone)]
pub struct Decision {
    pub id: String,
    pub stage: Stage,
    pub turn: u32,
    pub prompt: String,
    pub options: Vec<DecisionOption>,
}

/// One option within a decision.
#[derive(Debug, Clone)]
pub struct DecisionOption {
    pub label: String,
    pub description: String,
    pub effects: Vec<StatEffect>,
    pub grants_tag: Option<String>,
    /// If set, the player's monthly bills become this value.
    pub sets_bills: Option<i32>,
    /// If set, the player's current job becomes the job with this id.
    pub sets_job: Option<String>,
    /// If set, the option is only offered to a player who holds this credential.
    pub requires_tag: Option<String>,
}

} // verus!
