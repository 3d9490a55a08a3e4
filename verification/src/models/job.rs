//! Jobs the player can hold for income.

use super::{clone_opt_string, clone_stages, clone_strings, opt_view, seq_view, Stage};
use vstd::prelude::*;

verus! {

/// A job the player can hold for income and growth.
#[derive(Debug)]
pub struct Job {
    pub id: String,
    pub title: String,
    pub required_tags: Vec<String>,
    pub recommended_tags: Vec<String>,
    pub pay_per_turn: i32,
    pub stress_per_turn: i32,
    pub growth_rate: u32,
    pub growth_tag: Option<String>,
    pub stages: Vec<Stage>,
    pub description: String,
}

/// The mathematical value of a [`Job`].
pub struct JobView {
    pub id: Seq<char>,
    pub title: Seq<char>,
    pub required_tags: Seq<Seq<char>>,
    pub recommended_tags: Seq<Seq<char>>,
    pub pay_per_turn: int,
    pub stress_per_turn: int,
    pub growth_rate: int,
    pub growth_tag: Option<Seq<char>>,
    pub stages: Seq<Stage>,
    pub description: Seq<char>,
}

impl View for Job {
    type V = JobView;

    open spec fn view(&self) -> JobView {
        JobView {
            id: self.id@,
            title: self.title@,
            required_tags: seq_view(self.required_tags@),
            recommended_tags: seq_view(self.recommended_tags@),
            pay_per_turn: self.pay_per_turn as int,
            stress_per_turn: self.stress_per_turn as int,
            growth_rate: self.growth_rate as int,
            growth_tag: opt_view(self.growth_tag),
            stages: self.stages@,
            description: self.description@,
        }
    }
}

impl Clone for Job {
    fn clone(&self) -> (r: Self)
        ensures
            r@ == self@,
    {
        Job {
            id: self.id.clone(),
            title: self.title.clone(),
            required_tags: clone_strings(&self.required_tags),
            recommended_tags: clone_strings(&self.recommended_tags),
            pay_per_turn: self.pay_per_turn,
            stress_per_turn: self.stress_per_turn,
            growth_rate: self.growth_rate,
            growth_tag: clone_opt_string(&self.growth_tag),
            stages: clone_stages(&self.stages),
            description: self.description.clone(),
        }
    }
}

/// The view of an optional job.
pub open spec fn opt_job_view(o: Option<Job>) -> Option<JobView> {
    match o {
        Some(j) => Some(j@),
        None => None,
    }
}

} // verus!
