//! What the calling layer asks of a game beside running a turn: a new game,
//! the content on offer in the current turn, the ending, and the jobs a player
//! can take.

use crate::engine::game_state::{GameState, GameStateView};
use crate::engine::rng::{create_rng, generate_seed, is_seed_char, seed_of, GameRng};
use crate::engine::stat_calculator::{lemma_push_no_duplicates, missing_from, missing_tags};
use crate::engine::turn_runner::{
    next_stage, next_stage_spec, stage_end, stage_end_turn, STAGE_TIME_SLOTS,
};
use crate::models::action::Action;
use crate::models::decision::Decision;
use crate::models::ending::{CountCondition, ThresholdCondition};
use crate::models::{
    lemma_seq_view_push, seq_view, stages_contain, strings_contain, Ending, Job, Stage,
};
use vstd::prelude::*;
use vstd::utf8::encode_utf8;

verus! {

/// A new game and its random stream, both made from the seed. Without a seed a
/// fresh one is generated: eight characters, each a digit or a capital letter.
pub fn new_game(seed: Option<String>) -> (game: (GameState, GameRng))
    ensures
        game.0@ == GameStateView::initial(game.0@.seed),
        game.0@.wf(),
        game.1@.seed == seed_of(encode_utf8(game.0@.seed)),
        game.1@.word_pos == 0,
        match seed {
            Some(s) => game.0@.seed == s@,
            None => game.0@.seed.len() == 8 && forall|i: int|
                0 <= i < 8 ==> is_seed_char(#[trigger] game.0@.seed[i]),
        },
{
    let seed = match seed {
        Some(s) => s,
        None => generate_seed(),
    };
    let rng = create_rng(seed.as_str());
    (GameState::new(seed), rng)
}

/// The position of the first `true` among the flags, if there is one.
pub open spec fn first_true(flags: Seq<bool>) -> Option<int>
    decreases flags.len(),
{
    if flags.len() == 0 {
        None
    } else if flags[0] {
        Some(0)
    } else {
        match first_true(flags.skip(1)) {
            Some(i) => Some(i + 1),
            None => None,
        }
    }
}

/// The first `true` is a `true` with none before it; there is none exactly if
/// no flag is `true`.
pub proof fn lemma_first_true(flags: Seq<bool>)
    ensures
        match first_true(flags) {
            Some(i) => 0 <= i < flags.len() && flags[i] && forall|j: int| 0 <= j < i ==> !flags[j],
            None => forall|j: int| 0 <= j < flags.len() ==> !flags[j],
        },
    decreases flags.len(),
{
    if flags.len() > 0 && !flags[0] {
        let rest = flags.skip(1);
        lemma_first_true(rest);
        match first_true(rest) {
            Some(i) => {
                assert forall|j: int| 0 <= j < i + 1 implies !flags[j] by {
                    if j > 0 {
                        assert(rest[j - 1] == flags[j]);
                    }
                }
            },
            None => {
                assert forall|j: int| 0 <= j < flags.len() implies !flags[j] by {
                    if j > 0 {
                        assert(rest[j - 1] == flags[j]);
                    }
                }
            },
        }
    }
}

/// A position found in what follows the first `k` flags, as a position of all flags.
pub open spec fn moved(found: Option<int>, k: int) -> Option<int> {
    match found {
        Some(i) => Some(i + k),
        None => None,
    }
}

/// The positions of the flags that are `true`, in rising order.
pub open spec fn true_positions(flags: Seq<bool>) -> Seq<int>
    decreases flags.len(),
{
    if flags.len() == 0 {
        Seq::empty()
    } else if flags.last() {
        true_positions(flags.drop_last()).push(flags.len() - 1)
    } else {
        true_positions(flags.drop_last())
    }
}

/// The positions listed are exactly those of the flags that are `true`, each
/// once and in rising order.
pub proof fn lemma_true_positions(flags: Seq<bool>)
    ensures
        forall|k: int|
            0 <= k < true_positions(flags).len() ==> 0 <= #[trigger] true_positions(flags)[k]
                < flags.len() && flags[true_positions(flags)[k]],
        forall|j: int, k: int|
            0 <= j < k < true_positions(flags).len() ==> true_positions(flags)[j] < true_positions(
                flags,
            )[k],
        forall|i: int|
            0 <= i < flags.len() && #[trigger] flags[i] ==> true_positions(flags).contains(i),
    decreases flags.len(),
{
    if flags.len() > 0 {
        let front = flags.drop_last();
        let rest = true_positions(front);
        let all = true_positions(flags);
        lemma_true_positions(front);
        assert forall|k: int| 0 <= k < all.len() implies 0 <= #[trigger] all[k] < flags.len()
            && flags[all[k]] by {
            if k < rest.len() {
                assert(all[k] == rest[k]);
                assert(front[rest[k]] == flags[rest[k]]);
            }
        }
        assert forall|j: int, k: int| 0 <= j < k < all.len() implies all[j] < all[k] by {
            assert(all[j] == rest[j]);
            if k < rest.len() {
                assert(all[k] == rest[k]);
            }
        }
        assert forall|i: int| 0 <= i < flags.len() && #[trigger] flags[i] implies all.contains(
            i,
        ) by {
            if i < front.len() {
                assert(front[i] == flags[i]);
                let k = choose|k: int| 0 <= k < rest.len() && rest[k] == i;
                assert(all[k] == i);
            } else {
                assert(all[all.len() - 1] == i);
            }
        }
    }
}

/// For each action, whether it is on offer in the stage.
pub open spec fn action_flags(actions: Seq<Action>, stage: Stage) -> Seq<bool> {
    actions.map_values(|a: Action| a.stages@.contains(stage))
}

/// Whether `items` are the elements of `all` at the positions `idx`.
pub open spec fn picked<T>(items: Seq<&T>, all: Seq<T>, idx: Seq<int>) -> bool {
    &&& items.len() == idx.len()
    &&& forall|k: int| 0 <= k < idx.len() ==> 0 <= #[trigger] idx[k] < all.len()
    &&& forall|k: int| 0 <= k < idx.len() ==> *(#[trigger] items[k]) == all[idx[k]]
}

/// The actions on offer in the stage, in the order of the list.
pub fn stage_actions<'a>(actions: &'a [Action], stage: &Stage) -> (offered: Vec<&'a Action>)
    ensures
        picked(offered@, actions@, true_positions(action_flags(actions@, *stage))),
{
    let ghost flags = action_flags(actions@, *stage);
    let mut offered: Vec<&'a Action> = Vec::new();
    let mut i: usize = 0;
    assert(flags.take(0) =~= Seq::empty());
    while i < actions.len()
        invariant
            i <= actions@.len(),
            flags == action_flags(actions@, *stage),
            picked(offered@, actions@, true_positions(flags.take(i as int))),
        decreases actions@.len() - i,
    {
        let ghost before = true_positions(flags.take(i as int));
        assert(flags.take(i + 1).drop_last() =~= flags.take(i as int));
        assert(flags.take(i + 1).last() == flags[i as int]);
        if stages_contain(&actions[i].stages, *stage) {
            offered.push(&actions[i]);
            proof {
                let after = before.push(i as int);
                assert forall|k: int| 0 <= k < after.len() implies *(#[trigger] offered@[k])
                    == actions@[after[k]] by {
                    if k < before.len() {
                        assert(after[k] == before[k]);
                    }
                }
            }
        }
        i += 1;
    }
    assert(flags.take(actions@.len() as int) =~= flags);
    offered
}

/// For each decision, whether it belongs to the stage and the turn.
pub open spec fn exact_flags(decisions: Seq<Decision>, stage: Stage, turn: int) -> Seq<bool> {
    decisions.map_values(|d: Decision| d.stage == stage && d.turn == turn)
}

/// For each decision, whether it belongs to the stage.
pub open spec fn stage_flags(decisions: Seq<Decision>, stage: Stage) -> Seq<bool> {
    decisions.map_values(|d: Decision| d.stage == stage)
}

/// The position of the decision of a turn: the first decision of the stage and
/// the turn, or else the first decision of the stage.
pub open spec fn decision_position(decisions: Seq<Decision>, stage: Stage, turn: int) -> Option<
    int,
> {
    match first_true(exact_flags(decisions, stage, turn)) {
        Some(i) => Some(i),
        None => first_true(stage_flags(decisions, stage)),
    }
}

/// The decision of a turn: the first decision of the stage and the turn, or
/// else the first decision of the stage; none if the stage has no decision.
pub fn current_decision<'a>(decisions: &'a [Decision], stage: &Stage, turn: u32) -> (found: Option<
    &'a Decision,
>)
    ensures
        match found {
            Some(d) => decision_position(decisions@, *stage, turn as int) matches Some(i) && 0 <= i
                < decisions@.len() && *d == decisions@[i],
            None => decision_position(decisions@, *stage, turn as int) is None,
        },
{
    let ghost exact = exact_flags(decisions@, *stage, turn as int);
    let ghost staged = stage_flags(decisions@, *stage);
    let mut fallback: Option<usize> = None;
    let mut i: usize = 0;
    assert(exact.skip(0) =~= exact);
    assert(staged.skip(0) =~= staged);
    while i < decisions.len()
        invariant
            i <= decisions@.len(),
            exact == exact_flags(decisions@, *stage, turn as int),
            staged == stage_flags(decisions@, *stage),
            first_true(exact) == moved(first_true(exact.skip(i as int)), i as int),
            match fallback {
                Some(f) => first_true(staged) == Some(f as int) && f < i,
                None => first_true(staged) == moved(first_true(staged.skip(i as int)), i as int),
            },
        decreases decisions@.len() - i,
    {
        assert(exact.skip(i as int)[0] == exact[i as int]);
        assert(exact.skip(i as int).skip(1) =~= exact.skip(i + 1));
        assert(staged.skip(i as int)[0] == staged[i as int]);
        assert(staged.skip(i as int).skip(1) =~= staged.skip(i + 1));
        if decisions[i].stage == *stage {
            if decisions[i].turn == turn {
                return Some(&decisions[i]);
            }
            if fallback.is_none() {
                fallback = Some(i);
            }
        }
        i += 1;
    }
    match fallback {
        Some(f) => Some(&decisions[f]),
        None => None,
    }
}

/// Whether a value lies in a range; a bound that is not given does not limit it.
pub open spec fn in_threshold(v: int, c: Option<ThresholdCondition>) -> bool {
    match c {
        Some(t) => (t.min matches Some(lo) ==> v >= lo) && (t.max matches Some(hi) ==> v <= hi),
        None => true,
    }
}

/// Whether a count reaches a minimum count; a minimum that is not given is reached.
pub open spec fn reaches_count(n: int, c: Option<CountCondition>) -> bool {
    match c {
        Some(k) => k.min_count matches Some(m) ==> n >= m,
        None => true,
    }
}

/// Whether all conditions of the ending hold of the state.
pub open spec fn ending_matches(s: GameStateView, e: Ending) -> bool {
    &&& in_threshold(s.money, e.conditions.money)
    &&& in_threshold(s.stress, e.conditions.stress)
    &&& in_threshold(s.support, e.conditions.support)
    &&& reaches_count(s.credentials.len() as int, e.conditions.credentials)
}

/// For each ending, whether all its conditions hold of the state.
pub open spec fn ending_flags(s: GameStateView, endings: Seq<Ending>) -> Seq<bool> {
    endings.map_values(|e: Ending| ending_matches(s, e))
}

/// Whether a value lies in a range; a bound that is not given does not limit it.
pub fn within_threshold(v: i32, c: &Option<ThresholdCondition>) -> (r: bool)
    ensures
        r == in_threshold(v as int, *c),
{
    match c {
        Some(t) => {
            let above = match t.min {
                Some(lo) => v >= lo,
                None => true,
            };
            let below = match t.max {
                Some(hi) => v <= hi,
                None => true,
            };
            above && below
        },
        None => true,
    }
}

/// Whether all conditions of the ending hold of the state.
pub fn ending_applies(state: &GameState, ending: &Ending) -> (r: bool)
    ensures
        r == ending_matches(state@, *ending),
{
    let enough = match &ending.conditions.credentials {
        Some(k) => match k.min_count {
            Some(m) => state.credentials.len() as u64 >= m as u64,
            None => true,
        },
        None => true,
    };
    within_threshold(state.money, &ending.conditions.money) && within_threshold(
        state.stress,
        &ending.conditions.stress,
    ) && within_threshold(state.support, &ending.conditions.support) && enough
}

/// The ending of a game: the first ending of the list whose conditions all hold
/// of the state; none if no ending's conditions hold.
pub fn resolve_ending<'a>(state: &GameState, endings: &'a [Ending]) -> (found: Option<&'a Ending>)
    ensures
        match found {
            Some(e) => first_true(ending_flags(state@, endings@)) matches Some(i) && 0 <= i
                < endings@.len() && *e == endings@[i],
            None => first_true(ending_flags(state@, endings@)) is None,
        },
{
    let ghost flags = ending_flags(state@, endings@);
    let mut i: usize = 0;
    assert(flags.skip(0) =~= flags);
    while i < endings.len()
        invariant
            i <= endings@.len(),
            flags == ending_flags(state@, endings@),
            first_true(flags) == moved(first_true(flags.skip(i as int)), i as int),
        decreases endings@.len() - i,
    {
        assert(flags.skip(i as int)[0] == flags[i as int]);
        assert(flags.skip(i as int).skip(1) =~= flags.skip(i + 1));
        if ending_applies(state, &endings[i]) {
            return Some(&endings[i]);
        }
        i += 1;
    }
    None
}

/// What a job offers to the player in the current state.
#[derive(Debug, Clone)]
pub struct JobOffer {
    /// The position of the job in the list of jobs.
    pub job_index: usize,
    /// Whether the player holds every required tag.
    pub eligible: bool,
    /// Whether the job is the player's current job.
    pub is_current: bool,
    /// The required tags the player lacks.
    pub missing_required: Vec<String>,
    /// The recommended tags the player lacks.
    pub missing_recommended: Vec<String>,
}

/// For each job, whether it is on offer in the stage.
pub open spec fn job_flags(jobs: Seq<Job>, stage: Stage) -> Seq<bool> {
    jobs.map_values(|j: Job| j.stages@.contains(stage))
}

/// Whether the offer is what the job at its position offers in the state.
pub open spec fn offer_of(offer: JobOffer, s: GameStateView, jobs: Seq<Job>) -> bool {
    let job = jobs[offer.job_index as int]@;
    &&& seq_view(offer.missing_required@) == missing_tags(s.credentials, job.required_tags)
    &&& seq_view(offer.missing_recommended@) == missing_tags(s.credentials, job.recommended_tags)
    &&& offer.eligible == (missing_tags(s.credentials, job.required_tags).len() == 0)
    &&& offer.is_current == (s.current_job matches Some(c) && c.id == job.id)
}

/// Whether the offers are those of the jobs at the positions `idx`, in order.
pub open spec fn offers_at(
    offers: Seq<JobOffer>,
    s: GameStateView,
    jobs: Seq<Job>,
    idx: Seq<int>,
) -> bool {
    &&& offers.len() == idx.len()
    &&& forall|k: int|
        0 <= k < idx.len() ==> 0 <= #[trigger] idx[k] < jobs.len() && offers[k].job_index == idx[k]
    &&& forall|k: int| 0 <= k < idx.len() ==> offer_of(#[trigger] offers[k], s, jobs)
}

/// The jobs on offer in the current stage, in the order of the list, each with
/// the tags the player lacks, whether the player can take it and whether the
/// player holds it.
pub fn job_offers(state: &GameState, jobs: &[Job]) -> (offers: Vec<JobOffer>)
    ensures
        offers_at(
            offers@,
            state@,
            jobs@,
            true_positions(job_flags(jobs@, state@.current_stage)),
        ),
{
    let ghost flags = job_flags(jobs@, state@.current_stage);
    let mut offers: Vec<JobOffer> = Vec::new();
    let mut i: usize = 0;
    assert(flags.take(0) =~= Seq::empty());
    while i < jobs.len()
        invariant
            i <= jobs@.len(),
            flags == job_flags(jobs@, state@.current_stage),
            offers_at(offers@, state@, jobs@, true_positions(flags.take(i as int))),
        decreases jobs@.len() - i,
    {
        let ghost before = true_positions(flags.take(i as int));
        let ghost earlier = offers@;
        assert(flags.take(i + 1).drop_last() =~= flags.take(i as int));
        assert(flags.take(i + 1).last() == flags[i as int]);
        let job = &jobs[i];
        if stages_contain(&job.stages, state.current_stage) {
            let missing_required = missing_from(&state.credentials, &job.required_tags);
            let missing_recommended = missing_from(&state.credentials, &job.recommended_tags);
            let is_current = match &state.current_job {
                Some(current) => current.id == job.id,
                None => false,
            };
            let offer = JobOffer {
                job_index: i,
                eligible: missing_required.len() == 0,
                is_current,
                missing_required,
                missing_recommended,
            };
            offers.push(offer);
            proof {
                let after = before.push(i as int);
                assert forall|k: int| 0 <= k < after.len() implies 0 <= #[trigger] after[k]
                    < jobs@.len() && offers@[k].job_index == after[k] by {
                    if k < before.len() {
                        assert(after[k] == before[k]);
                        assert(offers@[k] == earlier[k]);
                    }
                }
                assert forall|k: int| 0 <= k < after.len() implies offer_of(
                    #[trigger] offers@[k],
                    state@,
                    jobs@,
                ) by {
                    if k < before.len() {
                        assert(offers@[k] == earlier[k]);
                    }
                }
            }
        }
        i += 1;
    }
    assert(flags.take(jobs@.len() as int) =~= flags);
    offers
}

/// The state moved to the start of the next stage: the turn after the end of
/// the current stage, the next stage, and the time slots set back to 3. In the
/// last stage only the turn moves, past the end of the game.
pub open spec fn skipped_state(s: GameStateView) -> GameStateView {
    match next_stage_spec(s.current_stage) {
        Some(next) => GameStateView {
            current_turn: stage_end(s.current_stage) + 1,
            current_stage: next,
            time_slots: 3,
            ..s
        },
        None => GameStateView { current_turn: stage_end(s.current_stage) + 1, ..s },
    }
}

/// Moves the state to the start of the next stage. In the last stage the game
/// is over afterwards.
pub fn skip_stage(state: &mut GameState)
    ensures
        final(state)@ == skipped_state(old(state)@),
        old(state)@.wf() ==> final(state)@.wf(),
{
    let end = stage_end_turn(&state.current_stage);
    state.current_turn = end + 1;
    if let Some(next) = next_stage(&state.current_stage) {
        state.current_stage = next;
        state.time_slots = STAGE_TIME_SLOTS;
    }
}

/// The credentials with the tag added, unless it is among them.
pub open spec fn granted(credentials: Seq<Seq<char>>, tag: Seq<char>) -> Seq<Seq<char>> {
    if credentials.contains(tag) {
        credentials
    } else {
        credentials.push(tag)
    }
}

/// Gives the player a credential, unless the player holds it already.
pub fn grant_tag(state: &mut GameState, tag: &str)
    ensures
        final(state)@ == (GameStateView {
            credentials: granted(old(state)@.credentials, tag@),
            ..old(state)@
        }),
        old(state)@.wf() ==> final(state)@.wf(),
{
    let owned = tag.to_owned();
    if !strings_contain(state.credentials.as_slice(), &owned) {
        proof {
            lemma_seq_view_push(state.credentials@, owned);
            if state@.credentials.no_duplicates() {
                lemma_push_no_duplicates(state@.credentials, tag@);
            }
        }
        state.credentials.push(owned);
    }
}

} // verus!
