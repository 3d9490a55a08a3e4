//! Endings and the conditions under which each applies.

use vstd::prelude::*;

verus! {

/// An ending the player can reach at the end of the game.
#[derive(Debug, Clone)]
pub struct Ending {
    pub id: String,
    pub title: String,
    pub conditions: EndingConditions,
    pub narrative: String,
    pub reflection: String,
}

/// Threshold conditions that determine which ending applies.
#[derive(Debug, Clone, Copy)]
pub struct EndingConditions {
    pub money: Option<ThresholdCondition>,
    pub stress: Option<ThresholdCondition>,
    pub support: Option<ThresholdCondition>,
    pub credentials: Option<CountCondition>,
}

/// An inclusive numeric range; each bound may be absent.
#[derive(Debug, Clone, Copy)]
pub struct ThresholdCondition {
    pub min: Option<i32>,
    pub max: Option<i32>,
}

/// A count-based condition: a minimum number of credentials.
#[derive(Debug, Clone, Copy)]
pub struct CountCondition {
    pub min_count: Option<u32>,
}

} // verus!
