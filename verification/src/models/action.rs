//! Actions the player can select during the plan phase.

use super::event::StatEffect;
use super::Stage;
use vstd::prelude::*;

verus! {

/// An action the player can select during the plan phase.
#[derive(Debug, Clone)]
pub struct Action {
    pub id: String,
    pub label: String,
    pub description: String,
    pub stages: Vec<Stage>,
    pub effects: Vec<StatEffect>,
    pub time_cost: u32,
    /// Engine hook: `emergency_fund_deposit` or `reduce_bills`; any other value is ignored.
    pub special_effect: Option<String>,
}

} // verus!
