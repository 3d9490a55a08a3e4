//! The mutable snapshot of a game in progress.

use crate::models::job::{opt_job_view, JobView};
use crate::models::{clone_strings, seq_view, Job, Stage};
use vstd::prelude::*;

verus! {

/// The turn on which the last stage, and with it the game, ends.
pub const TOTAL_TURNS: u32 = 19;

/// An entry in the player's decision log, kept for the end-of-game timeline.
#[derive(Debug)]
pub struct DecisionEntry {
    pub turn: u32,
    pub stage: Stage,
    pub description: String,
    pub impact: String,
}

/// The mathematical value of a [`DecisionEntry`].
pub struct DecisionEntryView {
    pub turn: int,
    pub stage: Stage,
    pub description: Seq<char>,
    pub impact: Seq<char>,
}

impl View for DecisionEntry {
    type V = DecisionEntryView;

    open spec fn view(&self) -> DecisionEntryView {
        DecisionEntryView {
            turn: self.turn as int,
            stage: self.stage,
            description: self.description@,
            impact: self.impact@,
        }
    }
}

impl Clone for DecisionEntry {
    fn clone(&self) -> (r: Self)
        ensures
            r@ == self@,
    {
        DecisionEntry {
            turn: self.turn,
            stage: self.stage,
            description: self.description.clone(),
            impact: self.impact.clone(),
        }
    }
}

/// The complete state of one game.
#[derive(Debug)]
pub struct GameState {
    pub current_stage: Stage,
    pub current_turn: u32,
    pub total_turns: u32,
    pub money: i32,
    pub stress: i32,
    pub support: i32,
    pub time_slots: u32,
    pub credentials: Vec<String>,
    pub current_job: Option<Job>,
    pub monthly_bills: i32,
    pub emergency_fund: i32,
    pub decision_log: Vec<DecisionEntry>,
    pub used_event_ids: Vec<String>,
    pub seed: String,
}

/// The mathematical value of a [`GameState`]: unbounded integers, and sequences
/// of characters for strings.
pub struct GameStateView {
    pub current_stage: Stage,
    pub current_turn: int,
    pub total_turns: int,
    pub money: int,
    pub stress: int,
    pub support: int,
    pub time_slots: int,
    pub credentials: Seq<Seq<char>>,
    pub current_job: Option<JobView>,
    pub monthly_bills: int,
    pub emergency_fund: int,
    pub decision_log: Seq<DecisionEntryView>,
    pub used_event_ids: Seq<Seq<char>>,
    pub seed: Seq<char>,
}

impl GameStateView {
    /// The invariant of a game state: the bounded resources are within their
    /// bounds, and no credential and no used event id is listed twice.
    pub open spec fn wf(self) -> bool {
        &&& 0 <= self.stress <= 100
        &&& 0 <= self.support <= 10
        &&& 0 <= self.time_slots <= 4
        &&& self.credentials.no_duplicates()
        &&& self.used_event_ids.no_duplicates()
    }

    /// The state a new game with the given seed starts in.
    pub open spec fn initial(seed: Seq<char>) -> GameStateView {
        GameStateView {
            current_stage: Stage::MiddleSchool,
            current_turn: 1,
            total_turns: 19,
            money: 100,
            stress: 20,
            support: 5,
            time_slots: 3,
            credentials: Seq::empty(),
            current_job: None,
            monthly_bills: 0,
            emergency_fund: 0,
            decision_log: Seq::empty(),
            used_event_ids: Seq::empty(),
            seed,
        }
    }
}

impl View for GameState {
    type V = GameStateView;

    open spec fn view(&self) -> GameStateView {
        GameStateView {
            current_stage: self.current_stage,
            current_turn: self.current_turn as int,
            total_turns: self.total_turns as int,
            money: self.money as int,
            stress: self.stress as int,
            support: self.support as int,
            time_slots: self.time_slots as int,
            credentials: seq_view(self.credentials@),
            current_job: opt_job_view(self.current_job),
            monthly_bills: self.monthly_bills as int,
            emergency_fund: self.emergency_fund as int,
            decision_log: seq_view(self.decision_log@),
            used_event_ids: seq_view(self.used_event_ids@),
            seed: self.seed@,
        }
    }
}

impl Clone for GameState {
    fn clone(&self) -> (r: Self)
        ensures
            r@ == self@,
    {
        let decision_log = self.decision_log.clone();
        assert forall|i: int| 0 <= i < self.decision_log@.len() implies decision_log@[i]@
            == self.decision_log@[i]@ by {
            assert(cloned::<DecisionEntry>(self.decision_log@[i], decision_log@[i]));
        }
        assert(seq_view(decision_log@) =~= seq_view(self.decision_log@));
        let current_job = match &self.current_job {
            Some(j) => Some(j.clone()),
            None => None,
        };
        GameState {
            current_stage: self.current_stage,
            current_turn: self.current_turn,
            total_turns: self.total_turns,
            money: self.money,
            stress: self.stress,
            support: self.support,
            time_slots: self.time_slots,
            credentials: clone_strings(&self.credentials),
            current_job,
            monthly_bills: self.monthly_bills,
            emergency_fund: self.emergency_fund,
            decision_log,
            used_event_ids: clone_strings(&self.used_event_ids),
            seed: self.seed.clone(),
        }
    }
}

impl GameState {
    /// A new game: first stage, first turn, and the fixed starting resources.
    pub fn new(seed: String) -> (state: GameState)
        ensures
            state@ == GameStateView::initial(seed@),
            state@.wf(),
    {
        let state = GameState {
            current_stage: Stage::MiddleSchool,
            current_turn: 1,
            total_turns: TOTAL_TURNS,
            money: 100,
            stress: 20,
            support: 5,
            time_slots: 3,
            credentials: Vec::new(),
            current_job: None,
            monthly_bills: 0,
            emergency_fund: 0,
            decision_log: Vec::new(),
            used_event_ids: Vec::new(),
            seed,
        };
        assert(state@.credentials =~= Seq::empty());
        assert(state@.decision_log =~= Seq::empty());
        assert(state@.used_event_ids =~= Seq::empty());
        state
    }
}

} // verus!
