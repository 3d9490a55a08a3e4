//! Static content definitions and the life-stage enumeration.

pub mod action;
pub mod decision;
pub mod ending;
pub mod event;
pub mod job;

pub use action::Action;
pub use decision::Decision;
pub use ending::Ending;
pub use event::{EventCard, Rarity};
pub use job::Job;

use vstd::prelude::*;
use vstd::string::StringExecFns;

verus! {

/// The four life stages of the game, in the order in which they are played.
#[derive(Debug, Clone, Copy, PartialEq, Eq, Hash, Structural)]
pub enum Stage {
    MiddleSchool,
    HighSchool,
    PostHigh,
    EarlyAdult,
}

impl Stage {
    /// Position of the stage in play order, from 0.
    pub open spec fn rank(self) -> int {
        match self {
            Stage::MiddleSchool => 0,
            Stage::HighSchool => 1,
            Stage::PostHigh => 2,
            Stage::EarlyAdult => 3,
        }
    }

    /// The display name of the stage, as a sequence of characters.
    pub open spec fn name_spec(self) -> Seq<char> {
        match self {
            Stage::MiddleSchool => "Middle School"@,
            Stage::HighSchool => "High School"@,
            Stage::PostHigh => "Post-High"@,
            Stage::EarlyAdult => "Early Adult"@,
        }
    }

    /// The display name of the stage.
    pub fn name(&self) -> (s: &'static str)
        ensures
            s@ == self.name_spec(),
    {
        match self {
            Stage::MiddleSchool => "Middle School",
            Stage::HighSchool => "High School",
            Stage::PostHigh => "Post-High",
            Stage::EarlyAdult => "Early Adult",
        }
    }

    /// The display name of the stage as an owned string.
    pub fn to_string(&self) -> (s: String)
        ensures
            s@ == self.name_spec(),
    {
        String::from_str(self.name())
    }
}

/// The views of the elements of a sequence, in order.
pub open spec fn seq_view<T: View>(s: Seq<T>) -> Seq<T::V> {
    s.map_values(|t: T| t@)
}

/// The view of an optional string.
pub open spec fn opt_view(o: Option<String>) -> Option<Seq<char>> {
    match o {
        Some(s) => Some(s@),
        None => None,
    }
}

/// Pushing an element and taking views commute.
pub proof fn lemma_seq_view_push<T: View>(s: Seq<T>, x: T)
    ensures
        seq_view(s.push(x)) == seq_view(s).push(x@),
{
    assert(seq_view(s.push(x)) =~= seq_view(s).push(x@));
}

/// A copy of a list of strings.
pub fn clone_strings(v: &Vec<String>) -> (r: Vec<String>)
    ensures
        r@ == v@,
{
    let r = v.clone();
    assert forall|i: int| 0 <= i < v@.len() implies r@[i] == v@[i] by {
        assert(cloned::<String>(v@[i], r@[i]));
    }
    assert(r@ =~= v@);
    r
}

/// A copy of a list of stages.
pub fn clone_stages(v: &Vec<Stage>) -> (r: Vec<Stage>)
    ensures
        r@ == v@,
{
    let mut r: Vec<Stage> = Vec::new();
    let mut i: usize = 0;
    while i < v.len()
        invariant
            i <= v@.len(),
            r@ == v@.take(i as int),
        decreases v@.len() - i,
    {
        r.push(v[i]);
        assert(v@.take(i + 1) =~= v@.take(i as int).push(v@[i as int]));
        i += 1;
    }
    assert(v@.take(v@.len() as int) =~= v@);
    r
}

/// A copy of an optional string.
pub fn clone_opt_string(o: &Option<String>) -> (r: Option<String>)
    ensures
        r == *o,
{
    match o {
        Some(s) => Some(s.clone()),
        None => None,
    }
}

/// Whether `stage` occurs in `stages`.
pub fn stages_contain(stages: &Vec<Stage>, stage: Stage) -> (r: bool)
    ensures
        r == stages@.contains(stage),
{
    let mut i: usize = 0;
    while i < stages.len()
        invariant
            i <= stages@.len(),
            forall|j: int| 0 <= j < i ==> stages@[j] != stage,
        decreases stages@.len() - i,
    {
        if stages[i] == stage {
            return true;
        }
        i += 1;
    }
    false
}

/// Whether a string with the characters of `s` occurs in `v`.
pub fn strings_contain(v: &[String], s: &String) -> (r: bool)
    ensures
        r == seq_view(v@).contains(s@),
{
    let mut i: usize = 0;
    while i < v.len()
        invariant
            i <= v@.len(),
            forall|j: int| 0 <= j < i ==> seq_view(v@)[j] != s@,
        decreases v@.len() - i,
    {
        if v[i] == *s {
            assert(seq_view(v@)[i as int] == s@);
            return true;
        }
        i += 1;
    }
    false
}

} // verus!
