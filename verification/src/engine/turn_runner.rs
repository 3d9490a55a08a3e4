//! The turn runner: the four phases of a turn, the stage transition and the
//! end of the game.

use crate::data_loader::GameData;
use crate::engine::event_deck::{
    draw_event, drawn_index, eligible_indices, lemma_drawn_index_eligible, lemma_pick_in_bounds,
    opt_deref, pick, roll_of, sum, weights_at,
};
use crate::engine::game_state::{DecisionEntry, DecisionEntryView, GameState, GameStateView};
use crate::engine::rng::{advanced, next_value, GameRng, GameRngView};
use crate::engine::stat_calculator::{
    apply_effect, apply_effects_into, bills_in_range, bills_lines, bills_state,
    check_stress_threshold, effect_line, effect_step, effects_fit, effects_in_range, effects_lines,
    effects_state, emergency_fund_into, fits_i32, fund_lines, fund_state, job_income_fits,
    job_income_in_range, job_income_into, job_income_lines, job_income_state,
    lemma_effect_step_wf, lemma_effects_state_wf, lemma_push_no_duplicates, monthly_bills_fit,
    monthly_bills_into, stress_warning, with_line,
};
use crate::models::action::Action;
use crate::models::decision::{Decision, DecisionOption};
use crate::models::event::{opt_card_view, EventCardView, StatEffect, StatEffectView, StatType};
use crate::models::{
    lemma_seq_view_push, opt_view, seq_view, strings_contain, EventCard, Job, Stage,
};
use crate::text::{join, joined, plain, push_plain, push_signed, signed};
use vstd::prelude::*;
use vstd::string::StringExecFns;

verus! {

/// The time slots a player has at the start of a stage.
pub const STAGE_TIME_SLOTS: u32 = 3;

/// What an emergency-fund deposit adds to the fund.
pub const FUND_DEPOSIT: i32 = 20;

/// The most that one bill reduction takes from the monthly bills.
pub const BILL_REDUCTION: i32 = 10;

/// Player choices submitted for a single turn.
#[derive(Debug, Clone)]
pub struct PlayerChoices {
    /// Ids of the actions selected in the plan phase.
    pub action_ids: Vec<String>,
    /// Id of the decision selected in the commit phase.
    pub decision_id: String,
    /// Index of the chosen option within the decision.
    pub decision_option_index: usize,
    /// Index of the chosen option of the event card, if any.
    pub event_option_index: Option<usize>,
}

/// Result of running a single turn.
#[derive(Debug, Clone)]
pub struct TurnResult {
    /// The event card resolved in the event phase, if any.
    pub event_drawn: Option<EventCard>,
    /// Feedback lines from all phases, in the order in which the phases ran.
    pub feedback: Vec<String>,
    /// Whether a stage transition occurred.
    pub stage_transitioned: bool,
    /// The new stage, if a transition occurred.
    pub new_stage: Option<Stage>,
    /// The previous stage, if a transition occurred.
    pub old_stage: Option<Stage>,
    /// The stress threshold warning, if stress is above the threshold.
    pub stress_warning: Option<String>,
}

/// The mathematical value of a [`TurnResult`].
pub struct TurnResultView {
    pub event_drawn: Option<EventCardView>,
    pub feedback: Seq<Seq<char>>,
    pub stage_transitioned: bool,
    pub new_stage: Option<Stage>,
    pub old_stage: Option<Stage>,
    pub stress_warning: Option<Seq<char>>,
}

impl View for TurnResult {
    type V = TurnResultView;

    open spec fn view(&self) -> TurnResultView {
        TurnResultView {
            event_drawn: opt_card_view(self.event_drawn),
            feedback: seq_view(self.feedback@),
            stage_transitioned: self.stage_transitioned,
            new_stage: self.new_stage,
            old_stage: self.old_stage,
            stress_warning: opt_view(self.stress_warning),
        }
    }
}

/// The last turn of a stage.
pub open spec fn stage_end(stage: Stage) -> int {
    match stage {
        Stage::MiddleSchool => 4,
        Stage::HighSchool => 10,
        Stage::PostHigh => 13,
        Stage::EarlyAdult => 19,
    }
}

/// The first turn of a stage.
pub open spec fn stage_start(stage: Stage) -> int {
    match stage {
        Stage::MiddleSchool => 1,
        Stage::HighSchool => 5,
        Stage::PostHigh => 11,
        Stage::EarlyAdult => 14,
    }
}

/// The stage that follows, if there is one.
pub open spec fn next_stage_spec(stage: Stage) -> Option<Stage> {
    match stage {
        Stage::MiddleSchool => Some(Stage::HighSchool),
        Stage::HighSchool => Some(Stage::PostHigh),
        Stage::PostHigh => Some(Stage::EarlyAdult),
        Stage::EarlyAdult => None,
    }
}

/// The last turn of a stage: 4, 10, 13 and 19.
pub fn stage_end_turn(stage: &Stage) -> (end: u32)
    ensures
        end == stage_end(*stage),
{
    match stage {
        Stage::MiddleSchool => 4,
        Stage::HighSchool => 10,
        Stage::PostHigh => 13,
        Stage::EarlyAdult => 19,
    }
}

/// The next stage in sequence, or nothing at the final stage.
pub fn next_stage(stage: &Stage) -> (next: Option<Stage>)
    ensures
        next == next_stage_spec(*stage),
{
    match stage {
        Stage::MiddleSchool => Some(Stage::HighSchool),
        Stage::HighSchool => Some(Stage::PostHigh),
        Stage::PostHigh => Some(Stage::EarlyAdult),
        Stage::EarlyAdult => None,
    }
}

/// The stages follow each other without a gap: each stage starts on the turn
/// after the one before it ends, the first on turn 1, and the last ends on turn 19.
pub proof fn lemma_stage_ranges(stage: Stage)
    ensures
        stage_start(stage) <= stage_end(stage),
        stage_start(Stage::MiddleSchool) == 1,
        stage_end(Stage::EarlyAdult) == 19,
        next_stage_spec(stage) matches Some(n) ==> stage_start(n) == stage_end(stage) + 1
            && n.rank() == stage.rank() + 1,
{
}

/// Whether the state is due for the next stage: its turn is past the end of its
/// stage, and a stage follows.
pub open spec fn transitions(s: GameStateView) -> bool {
    s.current_turn > stage_end(s.current_stage) && next_stage_spec(s.current_stage) is Some
}

/// The state after the stage transition, if one is due: the next stage, with
/// the time slots set back to 3.
pub open spec fn transition_state(s: GameStateView) -> GameStateView {
    if transitions(s) {
        GameStateView { current_stage: next_stage_spec(s.current_stage)->0, time_slots: 3, ..s }
    } else {
        s
    }
}

/// Moves the state to the next stage if its turn is past the end of its stage
/// and a stage follows; the time slots are then set back to 3. Says whether it did.
pub fn check_and_transition_stage(state: &mut GameState) -> (transitioned: bool)
    ensures
        transitioned == transitions(old(state)@),
        final(state)@ == transition_state(old(state)@),
        old(state)@.wf() ==> final(state)@.wf(),
        final(state)@.current_stage.rank() >= old(state)@.current_stage.rank(),
{
    let end = stage_end_turn(&state.current_stage);
    if state.current_turn > end {
        if let Some(next) = next_stage(&state.current_stage) {
            state.current_stage = next;
            state.time_slots = STAGE_TIME_SLOTS;
            return true;
        }
    }
    false
}

/// Whether the game is over: the turn is past 19, the end of the last stage.
pub fn is_game_over(state: &GameState) -> (over: bool)
    ensures
        over == (state@.current_turn > 19),
{
    state.current_turn > stage_end_turn(&Stage::EarlyAdult)
}

/// The position of the first of `ids` that equals `id`, if there is one.
pub open spec fn first_index(ids: Seq<Seq<char>>, id: Seq<char>) -> Option<int>
    decreases ids.len(),
{
    if ids.len() == 0 {
        None
    } else if ids[0] == id {
        Some(0)
    } else {
        match first_index(ids.skip(1), id) {
            Some(i) => Some(i + 1),
            None => None,
        }
    }
}

/// The first position is a position of `id`, and `id` does not occur before it;
/// there is none exactly if `id` does not occur.
pub proof fn lemma_first_index(ids: Seq<Seq<char>>, id: Seq<char>)
    ensures
        match first_index(ids, id) {
            Some(i) => 0 <= i < ids.len() && ids[i] == id && forall|j: int|
                0 <= j < i ==> ids[j] != id,
            None => !ids.contains(id),
        },
    decreases ids.len(),
{
    if ids.len() > 0 && ids[0] != id {
        let rest = ids.skip(1);
        lemma_first_index(rest, id);
        match first_index(rest, id) {
            Some(i) => {
                assert(rest[i] == ids[i + 1]);
                assert forall|j: int| 0 <= j < i + 1 implies ids[j] != id by {
                    if j > 0 {
                        assert(rest[j - 1] == ids[j]);
                    }
                }
            },
            None => {
                assert forall|j: int| 0 <= j < ids.len() implies ids[j] != id by {
                    if j > 0 {
                        assert(rest[j - 1] == ids[j]);
                        assert(rest.contains(rest[j - 1]));
                    }
                }
            },
        }
    }
}

/// The ids of the actions, in order.
pub open spec fn action_ids(actions: Seq<Action>) -> Seq<Seq<char>> {
    actions.map_values(|a: Action| a.id@)
}

/// The ids of the decisions, in order.
pub open spec fn decision_ids(decisions: Seq<Decision>) -> Seq<Seq<char>> {
    decisions.map_values(|d: Decision| d.id@)
}

/// The ids of the jobs, in order.
pub open spec fn job_ids(jobs: Seq<Job>) -> Seq<Seq<char>> {
    jobs.map_values(|j: Job| j.id@)
}

/// Shifts a position found in what follows the first `k` elements back to a
/// position of the whole sequence.
pub open spec fn shifted(found: Option<int>, k: int) -> Option<int> {
    match found {
        Some(i) => Some(i + k),
        None => None,
    }
}

/// The position of the first action with the id, if there is one.
pub fn find_action(actions: &[Action], id: &String) -> (found: Option<usize>)
    ensures
        match found {
            Some(i) => first_index(action_ids(actions@), id@) == Some(i as int) && i < actions@.len(),
            None => first_index(action_ids(actions@), id@) is None,
        },
{
    let ghost ids = action_ids(actions@);
    let mut i: usize = 0;
    assert(ids.skip(0) =~= ids);
    while i < actions.len()
        invariant
            i <= actions@.len(),
            ids == action_ids(actions@),
            first_index(ids, id@) == shifted(first_index(ids.skip(i as int), id@), i as int),
        decreases actions@.len() - i,
    {
        assert(ids.skip(i as int)[0] == actions@[i as int].id@);
        assert(ids.skip(i as int).skip(1) =~= ids.skip(i + 1));
        if actions[i].id == *id {
            return Some(i);
        }
        i += 1;
    }
    None
}

/// The position of the first decision with the id, if there is one.
pub fn find_decision(decisions: &[Decision], id: &String) -> (found: Option<usize>)
    ensures
        match found {
            Some(i) => first_index(decision_ids(decisions@), id@) == Some(i as int) && i
                < decisions@.len(),
            None => first_index(decision_ids(decisions@), id@) is None,
        },
{
    let ghost ids = decision_ids(decisions@);
    let mut i: usize = 0;
    assert(ids.skip(0) =~= ids);
    while i < decisions.len()
        invariant
            i <= decisions@.len(),
            ids == decision_ids(decisions@),
            first_index(ids, id@) == shifted(first_index(ids.skip(i as int), id@), i as int),
        decreases decisions@.len() - i,
    {
        assert(ids.skip(i as int)[0] == decisions@[i as int].id@);
        assert(ids.skip(i as int).skip(1) =~= ids.skip(i + 1));
        if decisions[i].id == *id {
            return Some(i);
        }
        i += 1;
    }
    None
}

/// The position of the first job with the id, if there is one.
pub fn find_job(jobs: &[Job], id: &String) -> (found: Option<usize>)
    ensures
        match found {
            Some(i) => first_index(job_ids(jobs@), id@) == Some(i as int) && i < jobs@.len(),
            None => first_index(job_ids(jobs@), id@) is None,
        },
{
    let ghost ids = job_ids(jobs@);
    let mut i: usize = 0;
    assert(ids.skip(0) =~= ids);
    while i < jobs.len()
        invariant
            i <= jobs@.len(),
            ids == job_ids(jobs@),
            first_index(ids, id@) == shifted(first_index(ids.skip(i as int), id@), i as int),
        decreases jobs@.len() - i,
    {
        assert(ids.skip(i as int)[0] == jobs@[i as int].id@);
        assert(ids.skip(i as int).skip(1) =~= ids.skip(i + 1));
        if jobs[i].id == *id {
            return Some(i);
        }
        i += 1;
    }
    None
}

/// The name of the hook that deposits into the emergency fund.
pub open spec fn deposit_hook() -> Seq<char> {
    "emergency_fund_deposit"@
}

/// The name of the hook that reduces the monthly bills.
pub open spec fn reduce_hook() -> Seq<char> {
    "reduce_bills"@
}

/// By how much a bill reduction lowers the monthly bills: by 10, or by all of
/// them where they are lower.
pub open spec fn bill_cut(bills: int) -> int {
    if bills < 10 {
        bills
    } else {
        10
    }
}

/// The state after an action's hook. A deposit adds 20 to the emergency fund;
/// a reduction lowers monthly bills above zero; any other hook does nothing.
pub open spec fn hook_state(s: GameStateView, hook: Option<Seq<char>>) -> GameStateView {
    if hook == Some(deposit_hook()) {
        GameStateView { emergency_fund: s.emergency_fund + 20, ..s }
    } else if hook == Some(reduce_hook()) && s.monthly_bills > 0 {
        GameStateView { monthly_bills: s.monthly_bills - bill_cut(s.monthly_bills), ..s }
    } else {
        s
    }
}

/// The line that reports a deposit, with the new total of the fund.
pub open spec fn deposit_line(total: int) -> Seq<char> {
    "🏦 Emergency fund: +$20 (total: $"@ + plain(total) + ")"@
}

/// The line that reports a bill reduction, with the new monthly bills.
pub open spec fn reduction_line(cut: int, bills: int) -> Seq<char> {
    "📉 Bills reduced by $"@ + plain(cut) + " (now $"@ + plain(bills) + ")"@
}

/// The feedback line of an action's hook in state `s`, if it does anything.
pub open spec fn hook_line(s: GameStateView, hook: Option<Seq<char>>) -> Option<Seq<char>> {
    if hook == Some(deposit_hook()) {
        Some(deposit_line(s.emergency_fund + 20))
    } else if hook == Some(reduce_hook()) && s.monthly_bills > 0 {
        Some(reduction_line(bill_cut(s.monthly_bills), s.monthly_bills - bill_cut(s.monthly_bills)))
    } else {
        None
    }
}

/// Whether the emergency fund stays within an `i32` after the hook.
pub open spec fn hook_in_range(s: GameStateView, hook: Option<Seq<char>>) -> bool {
    hook == Some(deposit_hook()) ==> fits_i32(s.emergency_fund + 20)
}

/// The state after an action: its effects, then its hook.
pub open spec fn action_state(s: GameStateView, a: Action) -> GameStateView {
    hook_state(effects_state(s, seq_view(a.effects@)), opt_view(a.special_effect))
}

/// The feedback lines of an action, after `lines`.
pub open spec fn action_lines(s: GameStateView, a: Action, lines: Seq<Seq<char>>) -> Seq<Seq<char>> {
    with_line(
        effects_lines(s, seq_view(a.effects@), lines),
        hook_line(effects_state(s, seq_view(a.effects@)), opt_view(a.special_effect)),
    )
}

/// Whether money and the emergency fund stay within an `i32` during an action.
pub open spec fn action_in_range(s: GameStateView, a: Action) -> bool {
    &&& effects_in_range(s.money, seq_view(a.effects@))
    &&& hook_in_range(effects_state(s, seq_view(a.effects@)), opt_view(a.special_effect))
}

/// The state after the action with the id; an id that no action has changes nothing.
pub open spec fn plan_step(s: GameStateView, id: Seq<char>, actions: Seq<Action>) -> GameStateView {
    match first_index(action_ids(actions), id) {
        Some(i) => action_state(s, actions[i]),
        None => s,
    }
}

/// The feedback lines of the action with the id, after `lines`.
pub open spec fn plan_step_lines(
    s: GameStateView,
    id: Seq<char>,
    actions: Seq<Action>,
    lines: Seq<Seq<char>>,
) -> Seq<Seq<char>> {
    match first_index(action_ids(actions), id) {
        Some(i) => action_lines(s, actions[i], lines),
        None => lines,
    }
}

/// Whether the action with the id keeps money and the fund within an `i32`.
pub open spec fn plan_step_in_range(s: GameStateView, id: Seq<char>, actions: Seq<Action>) -> bool {
    match first_index(action_ids(actions), id) {
        Some(i) => action_in_range(s, actions[i]),
        None => true,
    }
}

/// The state after the plan phase: the actions with the ids, in the order of the ids.
pub open spec fn plan_state(
    s: GameStateView,
    ids: Seq<Seq<char>>,
    actions: Seq<Action>,
) -> GameStateView
    decreases ids.len(),
{
    if ids.len() == 0 {
        s
    } else {
        plan_state(plan_step(s, ids[0], actions), ids.skip(1), actions)
    }
}

/// The feedback lines of the plan phase, after `lines`.
pub open spec fn plan_lines(
    s: GameStateView,
    ids: Seq<Seq<char>>,
    actions: Seq<Action>,
    lines: Seq<Seq<char>>,
) -> Seq<Seq<char>>
    decreases ids.len(),
{
    if ids.len() == 0 {
        lines
    } else {
        plan_lines(
            plan_step(s, ids[0], actions),
            ids.skip(1),
            actions,
            plan_step_lines(s, ids[0], actions, lines),
        )
    }
}

/// Whether money and the emergency fund stay within an `i32` during the plan phase.
pub open spec fn plan_in_range(s: GameStateView, ids: Seq<Seq<char>>, actions: Seq<Action>) -> bool
    decreases ids.len(),
{
    if ids.len() == 0 {
        true
    } else {
        plan_step_in_range(s, ids[0], actions) && plan_in_range(
            plan_step(s, ids[0], actions),
            ids.skip(1),
            actions,
        )
    }
}

/// The plan phase keeps a valid state valid.
pub proof fn lemma_plan_state_wf(s: GameStateView, ids: Seq<Seq<char>>, actions: Seq<Action>)
    requires
        s.wf(),
    ensures
        plan_state(s, ids, actions).wf(),
    decreases ids.len(),
{
    if ids.len() > 0 {
        match first_index(action_ids(actions), ids[0]) {
            Some(i) => {
                lemma_effects_state_wf(s, seq_view(actions[i].effects@));
            },
            None => {},
        }
        lemma_plan_state_wf(plan_step(s, ids[0], actions), ids.skip(1), actions);
    }
}

/// Runs an action's hook, if it can be run within an `i32`, and says whether it did.
fn run_hook(state: &mut GameState, hook: &Option<String>, feedback: &mut Vec<String>) -> (ok: bool)
    ensures
        ok == hook_in_range(old(state)@, opt_view(*hook)),
        ok ==> final(state)@ == hook_state(old(state)@, opt_view(*hook)),
        ok ==> seq_view(final(feedback)@) == with_line(
            seq_view(old(feedback)@),
            hook_line(old(state)@, opt_view(*hook)),
        ),
{
    if let Some(name) = hook {
        let deposit = String::from_str("emergency_fund_deposit");
        let reduce = String::from_str("reduce_bills");
        if *name == deposit {
            if state.emergency_fund > i32::MAX - FUND_DEPOSIT {
                return false;
            }
            state.emergency_fund = state.emergency_fund + FUND_DEPOSIT;
            let mut line = String::from_str("🏦 Emergency fund: +$20 (total: $");
            push_plain(&mut line, state.emergency_fund as i64);
            line.append(")");
            proof {
                lemma_seq_view_push(feedback@, line);
            }
            feedback.push(line);
        } else if *name == reduce {
            if state.monthly_bills > 0 {
                let cut = if state.monthly_bills < BILL_REDUCTION {
                    state.monthly_bills
                } else {
                    BILL_REDUCTION
                };
                state.monthly_bills = state.monthly_bills - cut;
                let mut line = String::from_str("📉 Bills reduced by $");
                push_plain(&mut line, cut as i64);
                line.append(" (now $");
                push_plain(&mut line, state.monthly_bills as i64);
                line.append(")");
                proof {
                    lemma_seq_view_push(feedback@, line);
                }
                feedback.push(line);
            }
        }
    }
    true
}

/// The plan phase: for each id the action that has it, if there is one, with
/// its effects and its hook. It stops and says so where money or the emergency
/// fund would leave an `i32`; the state is then of no use.
fn plan_phase(
    state: &mut GameState,
    ids: &Vec<String>,
    actions: &[Action],
    feedback: &mut Vec<String>,
) -> (ok: bool)
    ensures
        ok == plan_in_range(old(state)@, seq_view(ids@), actions@),
        ok ==> final(state)@ == plan_state(old(state)@, seq_view(ids@), actions@),
        ok ==> seq_view(final(feedback)@) == plan_lines(
            old(state)@,
            seq_view(ids@),
            actions@,
            seq_view(old(feedback)@),
        ),
{
    let ghost all = seq_view(ids@);
    let ghost start = state@;
    let ghost lines = seq_view(feedback@);
    let mut i: usize = 0;
    assert(all.skip(0) =~= all);
    while i < ids.len()
        invariant
            i <= ids@.len(),
            all == seq_view(ids@),
            start == old(state)@,
            plan_in_range(state@, all.skip(i as int), actions@) == plan_in_range(
                start,
                all,
                actions@,
            ),
            plan_state(state@, all.skip(i as int), actions@) == plan_state(start, all, actions@),
            plan_lines(state@, all.skip(i as int), actions@, seq_view(feedback@)) == plan_lines(
                start,
                all,
                actions@,
                lines,
            ),
        decreases ids@.len() - i,
    {
        assert(all.skip(i as int)[0] == ids@[i as int]@);
        assert(all.skip(i as int).skip(1) =~= all.skip(i + 1));
        let ghost cur = state@;
        if let Some(a) = find_action(actions, &ids[i]) {
            let action = &actions[a];
            if !effects_fit(state, action.effects.as_slice()) {
                assert(!plan_step_in_range(cur, all.skip(i as int)[0], actions@));
                assert(!plan_in_range(cur, all.skip(i as int), actions@));
                return false;
            }
            apply_effects_into(state, action.effects.as_slice(), feedback);
            if !run_hook(state, &action.special_effect, feedback) {
                assert(!plan_step_in_range(cur, all.skip(i as int)[0], actions@));
                assert(!plan_in_range(cur, all.skip(i as int), actions@));
                return false;
            }
        }
        i += 1;
    }
    true
}

/// The name of a stat as it stands in an impact summary.
pub open spec fn stat_name(stat: StatType) -> Seq<char> {
    match stat {
        StatType::Money => "Money"@,
        StatType::Stress => "Stress"@,
        StatType::Support => "Support"@,
        StatType::TimeSlots => "TimeSlots"@,
        StatType::Credentials => "Credentials"@,
    }
}

/// The summary of one effect: the stat's name, a space and the signed delta.
pub open spec fn impact_part(e: StatEffectView) -> Seq<char> {
    stat_name(e.stat) + " "@ + signed(e.delta)
}

/// The summaries of the effects, in order.
pub open spec fn impact_parts(es: Seq<StatEffectView>) -> Seq<Seq<char>> {
    es.map_values(|e: StatEffectView| impact_part(e))
}

/// The impact summary of the effects: their summaries, joined by a comma and a space.
pub open spec fn impact_text(es: Seq<StatEffectView>) -> Seq<char> {
    joined(impact_parts(es), ", "@)
}

/// The name of a stat as it stands in an impact summary.
pub fn stat_label(stat: StatType) -> (name: &'static str)
    ensures
        name@ == stat_name(stat),
{
    match stat {
        StatType::Money => "Money",
        StatType::Stress => "Stress",
        StatType::Support => "Support",
        StatType::TimeSlots => "TimeSlots",
        StatType::Credentials => "Credentials",
    }
}

/// The impact summary of the effects.
pub fn impact_string(effects: &[StatEffect]) -> (impact: String)
    ensures
        impact@ == impact_text(seq_view(effects@)),
{
    let ghost es = seq_view(effects@);
    let mut parts: Vec<String> = Vec::new();
    let mut i: usize = 0;
    assert(seq_view(parts@) =~= impact_parts(es).take(0));
    while i < effects.len()
        invariant
            i <= effects@.len(),
            es == seq_view(effects@),
            seq_view(parts@) == impact_parts(es).take(i as int),
        decreases effects@.len() - i,
    {
        let mut part = String::from_str(stat_label(effects[i].stat));
        part.append(" ");
        push_signed(&mut part, effects[i].delta as i64);
        proof {
            lemma_seq_view_push(parts@, part);
            assert(impact_parts(es).take(i + 1) =~= impact_parts(es).take(i as int).push(part@));
        }
        parts.push(part);
        i += 1;
    }
    assert(impact_parts(es).take(effects@.len() as int) =~= impact_parts(es));
    join(&parts, ", ")
}

/// The decision with the id and its option at the index, if both exist.
pub open spec fn chosen_option(decisions: Seq<Decision>, id: Seq<char>, index: int) -> Option<
    (Decision, DecisionOption),
> {
    match first_index(decision_ids(decisions), id) {
        Some(d) => if 0 <= index < decisions[d].options@.len() {
            Some((decisions[d], decisions[d].options@[index]))
        } else {
            None
        },
        None => None,
    }
}

/// The effect that grants a credential.
pub open spec fn grant_effect(tag: Seq<char>) -> StatEffectView {
    StatEffectView { stat: StatType::Credentials, delta: 0, tag: Some(tag) }
}

/// The state after an option's tag, if it has one, was granted.
pub open spec fn grant_state(s: GameStateView, tag: Option<Seq<char>>) -> GameStateView {
    match tag {
        Some(t) => effect_step(s, grant_effect(t)),
        None => s,
    }
}

/// The feedback line of an option's tag: present if the tag is new to the player.
pub open spec fn grant_line(s: GameStateView, tag: Option<Seq<char>>) -> Option<Seq<char>> {
    match tag {
        Some(t) => effect_line(s, grant_effect(t)),
        None => None,
    }
}

/// The state after an option's bills, if it sets them, have replaced the monthly bills.
pub open spec fn bills_set_state(s: GameStateView, bills: Option<i32>) -> GameStateView {
    match bills {
        Some(b) => GameStateView { monthly_bills: b as int, ..s },
        None => s,
    }
}

/// The feedback line of an option's bills: the new bills, or a rent-free line
/// when they are zero or below.
pub open spec fn bills_set_line(bills: Option<i32>) -> Option<Seq<char>> {
    match bills {
        Some(b) => if b > 0 {
            Some("🏠 Monthly bills set to $"@ + plain(b as int))
        } else {
            Some("🏠 Living rent-free with family"@)
        },
        None => None,
    }
}

/// The job that an option's job id names, if it names one that exists.
pub open spec fn hired(jobs: Seq<Job>, job_id: Option<Seq<char>>) -> Option<Job> {
    match job_id {
        Some(id) => match first_index(job_ids(jobs), id) {
            Some(i) => Some(jobs[i]),
            None => None,
        },
        None => None,
    }
}

/// The state after the job, if there is one, has become the current job.
pub open spec fn job_set_state(s: GameStateView, job: Option<Job>) -> GameStateView {
    match job {
        Some(j) => GameStateView { current_job: Some(j@), ..s },
        None => s,
    }
}

/// The feedback line of a new job: it names the job.
pub open spec fn job_set_line(job: Option<Job>) -> Option<Seq<char>> {
    match job {
        Some(j) => Some("💼 Started working as: "@ + j.title@),
        None => None,
    }
}

/// The log entry of a chosen option: the turn and stage it was chosen in, the
/// decision's prompt with the option's label, and the summary of the option's effects.
pub open spec fn log_entry(s: GameStateView, d: Decision, o: DecisionOption) -> DecisionEntryView {
    DecisionEntryView {
        turn: s.current_turn,
        stage: s.current_stage,
        description: d.prompt@ + ": "@ + o.label@,
        impact: impact_text(seq_view(o.effects@)),
    }
}

/// The state after a chosen option: its effects, its tag, its bills, its job,
/// and the entry in the decision log.
pub open spec fn option_state(
    s: GameStateView,
    d: Decision,
    o: DecisionOption,
    jobs: Seq<Job>,
) -> GameStateView {
    let s1 = effects_state(s, seq_view(o.effects@));
    let s2 = grant_state(s1, opt_view(o.grants_tag));
    let s3 = bills_set_state(s2, o.sets_bills);
    let s4 = job_set_state(s3, hired(jobs, opt_view(o.sets_job)));
    GameStateView { decision_log: s4.decision_log.push(log_entry(s4, d, o)), ..s4 }
}

/// The feedback lines of a chosen option, after `lines`.
pub open spec fn option_lines(
    s: GameStateView,
    o: DecisionOption,
    jobs: Seq<Job>,
    lines: Seq<Seq<char>>,
) -> Seq<Seq<char>> {
    let s1 = effects_state(s, seq_view(o.effects@));
    let l1 = effects_lines(s, seq_view(o.effects@), lines);
    let l2 = with_line(l1, grant_line(s1, opt_view(o.grants_tag)));
    let l3 = with_line(l2, bills_set_line(o.sets_bills));
    with_line(l3, job_set_line(hired(jobs, opt_view(o.sets_job))))
}

/// The state after the commit phase. A decision id that no decision has, or an
/// index that is no option of the decision, changes nothing.
pub open spec fn commit_state(
    s: GameStateView,
    decisions: Seq<Decision>,
    jobs: Seq<Job>,
    id: Seq<char>,
    index: int,
) -> GameStateView {
    match chosen_option(decisions, id, index) {
        Some((d, o)) => option_state(s, d, o, jobs),
        None => s,
    }
}

/// The feedback lines of the commit phase, after `lines`.
pub open spec fn commit_lines(
    s: GameStateView,
    decisions: Seq<Decision>,
    jobs: Seq<Job>,
    id: Seq<char>,
    index: int,
    lines: Seq<Seq<char>>,
) -> Seq<Seq<char>> {
    match chosen_option(decisions, id, index) {
        Some((d, o)) => option_lines(s, o, jobs, lines),
        None => lines,
    }
}

/// Whether money stays within an `i32` during the commit phase.
pub open spec fn commit_in_range(
    s: GameStateView,
    decisions: Seq<Decision>,
    id: Seq<char>,
    index: int,
) -> bool {
    match chosen_option(decisions, id, index) {
        Some((d, o)) => effects_in_range(s.money, seq_view(o.effects@)),
        None => true,
    }
}

/// The commit phase keeps a valid state valid.
pub proof fn lemma_commit_state_wf(
    s: GameStateView,
    decisions: Seq<Decision>,
    jobs: Seq<Job>,
    id: Seq<char>,
    index: int,
)
    requires
        s.wf(),
    ensures
        commit_state(s, decisions, jobs, id, index).wf(),
{
    match chosen_option(decisions, id, index) {
        Some((d, o)) => {
            lemma_effects_state_wf(s, seq_view(o.effects@));
            let s1 = effects_state(s, seq_view(o.effects@));
            match opt_view(o.grants_tag) {
                Some(t) => {
                    lemma_effect_step_wf(s1, grant_effect(t));
                },
                None => {},
            }
        },
        None => {},
    }
}

/// The commit phase: the chosen option of the decision with the id, if both
/// exist. It stops and says so where money would leave an `i32`; the state is
/// then unchanged.
fn commit_phase(
    state: &mut GameState,
    decisions: &[Decision],
    jobs: &[Job],
    id: &String,
    index: usize,
    feedback: &mut Vec<String>,
) -> (ok: bool)
    ensures
        ok == commit_in_range(old(state)@, decisions@, id@, index as int),
        ok ==> final(state)@ == commit_state(old(state)@, decisions@, jobs@, id@, index as int),
        ok ==> seq_view(final(feedback)@) == commit_lines(
            old(state)@,
            decisions@,
            jobs@,
            id@,
            index as int,
            seq_view(old(feedback)@),
        ),
{
    let found = find_decision(decisions, id);
    if found.is_none() {
        return true;
    }
    let decision = &decisions[found.unwrap()];
    if index >= decision.options.len() {
        return true;
    }
    let option = &decision.options[index];
    if !effects_fit(state, option.effects.as_slice()) {
        return false;
    }
    apply_effects_into(state, option.effects.as_slice(), feedback);
    if let Some(tag) = &option.grants_tag {
        let grant = StatEffect { stat: StatType::Credentials, delta: 0, tag: Some(tag.clone()) };
        apply_effect(state, &grant, feedback);
    }
    if let Some(bills) = option.sets_bills {
        state.monthly_bills = bills;
        let line = if bills > 0 {
            let mut line = String::from_str("🏠 Monthly bills set to $");
            push_plain(&mut line, bills as i64);
            line
        } else {
            String::from_str("🏠 Living rent-free with family")
        };
        proof {
            lemma_seq_view_push(feedback@, line);
        }
        feedback.push(line);
    }
    if let Some(job_id) = &option.sets_job {
        if let Some(j) = find_job(jobs, job_id) {
            let job = &jobs[j];
            let mut line = String::from_str("💼 Started working as: ");
            line.append(job.title.as_str());
            proof {
                lemma_seq_view_push(feedback@, line);
            }
            feedback.push(line);
            state.current_job = Some(job.clone());
        }
    }
    let mut description = decision.prompt.clone();
    description.append(": ");
    description.append(option.label.as_str());
    let entry = DecisionEntry {
        turn: state.current_turn,
        stage: state.current_stage,
        description,
        impact: impact_string(option.effects.as_slice()),
    };
    proof {
        lemma_seq_view_push(state.decision_log@, entry);
    }
    state.decision_log.push(entry);
    true
}

/// An optional index as a whole number.
pub open spec fn opt_index(o: Option<usize>) -> Option<int> {
    match o {
        Some(i) => Some(i as int),
        None => None,
    }
}

/// The state after the card id was noted as used, unless it was noted before.
pub open spec fn mark_used(s: GameStateView, id: Seq<char>) -> GameStateView {
    if s.used_event_ids.contains(id) {
        s
    } else {
        GameStateView { used_event_ids: s.used_event_ids.push(id), ..s }
    }
}

/// The effects of the card's option at the chosen index; none without a choice
/// or with an index that is no option of the card.
pub open spec fn card_effects(card: EventCardView, choice: Option<int>) -> Seq<StatEffectView> {
    match choice {
        Some(i) => if 0 <= i < card.options.len() {
            card.options[i].effects
        } else {
            Seq::empty()
        },
        None => Seq::empty(),
    }
}

/// The state after the event phase. Without a card nothing changes.
pub open spec fn event_state(
    s: GameStateView,
    card: Option<EventCardView>,
    choice: Option<int>,
) -> GameStateView {
    match card {
        Some(c) => effects_state(mark_used(s, c.id), card_effects(c, choice)),
        None => s,
    }
}

/// The feedback lines of the event phase, after `lines`.
pub open spec fn event_lines(
    s: GameStateView,
    card: Option<EventCardView>,
    choice: Option<int>,
    lines: Seq<Seq<char>>,
) -> Seq<Seq<char>> {
    match card {
        Some(c) => effects_lines(mark_used(s, c.id), card_effects(c, choice), lines),
        None => lines,
    }
}

/// Whether money stays within an `i32` during the event phase.
pub open spec fn event_in_range(
    s: GameStateView,
    card: Option<EventCardView>,
    choice: Option<int>,
) -> bool {
    match card {
        Some(c) => effects_in_range(s.money, card_effects(c, choice)),
        None => true,
    }
}

/// The event phase keeps a valid state valid, the used ids only grow, and by
/// one id at most.
pub proof fn lemma_event_state(s: GameStateView, card: Option<EventCardView>, choice: Option<int>)
    requires
        s.wf(),
    ensures
        event_state(s, card, choice).wf(),
        s.used_event_ids.is_prefix_of(event_state(s, card, choice).used_event_ids),
        event_state(s, card, choice).used_event_ids.len() <= s.used_event_ids.len() + 1,
        card matches Some(c) ==> event_state(s, card, choice).used_event_ids.contains(c.id),
{
    match card {
        Some(c) => {
            let m = mark_used(s, c.id);
            if !s.used_event_ids.contains(c.id) {
                lemma_push_no_duplicates(s.used_event_ids, c.id);
                assert(m.used_event_ids[s.used_event_ids.len() as int] == c.id);
            }
            lemma_effects_state_wf(m, card_effects(c, choice));
            lemma_effects_keep_used(m, card_effects(c, choice));
        },
        None => {},
    }
}

/// Effects change neither the used event ids, nor the stage, nor the turn,
/// nor the decision log.
pub proof fn lemma_effects_keep_used(s: GameStateView, es: Seq<StatEffectView>)
    ensures
        effects_state(s, es).used_event_ids == s.used_event_ids,
        effects_state(s, es).current_stage == s.current_stage,
        effects_state(s, es).current_turn == s.current_turn,
        effects_state(s, es).decision_log == s.decision_log,
    decreases es.len(),
{
    if es.len() > 0 {
        lemma_effects_keep_used(effect_step(s, es[0]), es.skip(1));
    }
}

/// The event phase: the card, if there is one, is noted as used, and the
/// effects of its chosen option are applied. It stops and says so where money
/// would leave an `i32`; the state is then unchanged.
fn event_phase(
    state: &mut GameState,
    card: Option<&EventCard>,
    choice: Option<usize>,
    feedback: &mut Vec<String>,
) -> (ok: bool)
    ensures
        ok == event_in_range(old(state)@, opt_card_view(opt_deref(card)), opt_index(choice)),
        ok ==> final(state)@ == event_state(
            old(state)@,
            opt_card_view(opt_deref(card)),
            opt_index(choice),
        ),
        ok ==> seq_view(final(feedback)@) == event_lines(
            old(state)@,
            opt_card_view(opt_deref(card)),
            opt_index(choice),
            seq_view(old(feedback)@),
        ),
{
    if let Some(event) = card {
        let ghost es = card_effects(event@, opt_index(choice));
        let chosen: Option<&Vec<StatEffect>> = match choice {
            Some(i) => if i < event.options.len() {
                Some(&event.options[i].effects)
            } else {
                None
            },
            None => None,
        };
        if let Some(effects) = chosen {
            assert(seq_view(effects@) == es);
            if !effects_fit(state, effects.as_slice()) {
                return false;
            }
        }
        if !strings_contain(state.used_event_ids.as_slice(), &event.id) {
            proof {
                lemma_seq_view_push(state.used_event_ids@, event.id);
            }
            state.used_event_ids.push(event.id.clone());
        }
        if let Some(effects) = chosen {
            apply_effects_into(state, effects.as_slice(), feedback);
        }
    }
    true
}

/// The state after job income and, in the last stage, the monthly bills and
/// then the emergency fund.
pub open spec fn upkeep_state(s: GameStateView) -> GameStateView {
    let s1 = job_income_state(s);
    if s1.current_stage == Stage::EarlyAdult {
        fund_state(bills_state(s1))
    } else {
        s1
    }
}

/// The feedback lines of job income, bills and emergency fund, after `lines`.
pub open spec fn upkeep_lines(s: GameStateView, lines: Seq<Seq<char>>) -> Seq<Seq<char>> {
    let s1 = job_income_state(s);
    let l1 = job_income_lines(s, lines);
    if s1.current_stage == Stage::EarlyAdult {
        fund_lines(bills_state(s1), bills_lines(s1, l1))
    } else {
        l1
    }
}

/// Whether money stays within an `i32` during job income and bills.
pub open spec fn upkeep_in_range(s: GameStateView) -> bool {
    &&& job_income_in_range(s)
    &&& job_income_state(s).current_stage == Stage::EarlyAdult ==> bills_in_range(
        job_income_state(s),
    )
}

/// The state with the turn counted on by one.
pub open spec fn turn_counted(s: GameStateView) -> GameStateView {
    GameStateView { current_turn: s.current_turn + 1, ..s }
}

/// The state after the feedback phase: income, bills and fund, the turn counted
/// on by one, and the stage transition if it is due.
pub open spec fn closing_state(s: GameStateView) -> GameStateView {
    transition_state(turn_counted(upkeep_state(s)))
}

/// The line that announces a new stage.
pub open spec fn advance_line(stage: Stage) -> Seq<char> {
    "🎓 Advancing to "@ + stage.name_spec() + "!"@
}

/// The feedback lines of the feedback phase, after `lines`: those of income,
/// bills and fund, the stress warning if there is one, and the announcement of
/// the new stage at a transition.
pub open spec fn closing_lines(s: GameStateView, lines: Seq<Seq<char>>) -> Seq<Seq<char>> {
    let u = upkeep_state(s);
    let l1 = with_line(upkeep_lines(s, lines), stress_warning(u));
    if transitions(turn_counted(u)) {
        l1.push(advance_line(closing_state(s).current_stage))
    } else {
        l1
    }
}

/// Whether money stays within an `i32`, and the turn within a `u32`, during the
/// feedback phase.
pub open spec fn closing_in_range(s: GameStateView) -> bool {
    upkeep_in_range(s) && s.current_turn + 1 <= u32::MAX
}

/// The feedback phase keeps a valid state valid, counts the turn on by one,
/// never goes back a stage, and leaves the used event ids and the decision log
/// as they are.
pub proof fn lemma_closing_state(s: GameStateView)
    requires
        s.wf(),
    ensures
        closing_state(s).wf(),
        closing_state(s).current_turn == s.current_turn + 1,
        closing_state(s).current_stage.rank() >= s.current_stage.rank(),
        closing_state(s).used_event_ids == s.used_event_ids,
        closing_state(s).decision_log == s.decision_log,
{
}

/// What the feedback phase hands back beside the feedback lines.
struct Closing {
    ok: bool,
    stress_warning: Option<String>,
    transitioned: bool,
    old_stage: Stage,
}

/// The feedback phase. It stops and says so where money would leave an `i32`
/// or the turn a `u32`; the state is then of no use.
fn closing_phase(state: &mut GameState, feedback: &mut Vec<String>) -> (r: Closing)
    ensures
        r.ok == closing_in_range(old(state)@),
        r.ok ==> final(state)@ == closing_state(old(state)@),
        r.ok ==> seq_view(final(feedback)@) == closing_lines(
            old(state)@,
            seq_view(old(feedback)@),
        ),
        r.ok ==> opt_view(r.stress_warning) == stress_warning(upkeep_state(old(state)@)),
        r.ok ==> r.transitioned == transitions(turn_counted(upkeep_state(old(state)@))),
        r.ok ==> r.old_stage == old(state)@.current_stage,
{
    let old_stage = state.current_stage;
    if !job_income_fits(state) {
        return Closing { ok: false, stress_warning: None, transitioned: false, old_stage };
    }
    job_income_into(state, feedback);
    if state.current_stage == Stage::EarlyAdult {
        if !monthly_bills_fit(state) {
            return Closing { ok: false, stress_warning: None, transitioned: false, old_stage };
        }
        monthly_bills_into(state, feedback);
        emergency_fund_into(state, feedback);
    }
    let stress_warning = check_stress_threshold(state);
    if let Some(warning) = &stress_warning {
        proof {
            lemma_seq_view_push(feedback@, *warning);
        }
        feedback.push(warning.clone());
    }
    if state.current_turn == u32::MAX {
        return Closing { ok: false, stress_warning: None, transitioned: false, old_stage };
    }
    state.current_turn = state.current_turn + 1;
    let transitioned = check_and_transition_stage(state);
    if transitioned {
        let mut line = String::from_str("🎓 Advancing to ");
        line.append(state.current_stage.name());
        line.append("!");
        proof {
            lemma_seq_view_push(feedback@, line);
        }
        feedback.push(line);
    }
    Closing { ok: true, stress_warning, transitioned, old_stage }
}

/// The state after the plan and commit phases of a turn.
pub open spec fn before_event(
    s: GameStateView,
    choices: PlayerChoices,
    data: GameData,
) -> GameStateView {
    commit_state(
        plan_state(s, seq_view(choices.action_ids@), data.actions@),
        data.decisions@,
        data.jobs@,
        choices.decision_id@,
        choices.decision_option_index as int,
    )
}

/// The feedback lines of the plan and commit phases of a turn.
pub open spec fn before_event_lines(
    s: GameStateView,
    choices: PlayerChoices,
    data: GameData,
) -> Seq<Seq<char>> {
    commit_lines(
        plan_state(s, seq_view(choices.action_ids@), data.actions@),
        data.decisions@,
        data.jobs@,
        choices.decision_id@,
        choices.decision_option_index as int,
        plan_lines(s, seq_view(choices.action_ids@), data.actions@, Seq::empty()),
    )
}

/// Whether the plan and commit phases of a turn stay within the machine's numbers.
pub open spec fn before_event_in_range(
    s: GameStateView,
    choices: PlayerChoices,
    data: GameData,
) -> bool {
    &&& plan_in_range(s, seq_view(choices.action_ids@), data.actions@)
    &&& commit_in_range(
        plan_state(s, seq_view(choices.action_ids@), data.actions@),
        data.decisions@,
        choices.decision_id@,
        choices.decision_option_index as int,
    )
}

/// The state after a turn in which `card` is the event card: the plan, commit,
/// event and feedback phases, in this order.
pub open spec fn turn_state(
    s: GameStateView,
    choices: PlayerChoices,
    data: GameData,
    card: Option<EventCardView>,
) -> GameStateView {
    closing_state(
        event_state(before_event(s, choices, data), card, opt_index(choices.event_option_index)),
    )
}

/// The feedback lines of a turn in which `card` is the event card, in the order
/// in which the phases ran.
pub open spec fn turn_lines(
    s: GameStateView,
    choices: PlayerChoices,
    data: GameData,
    card: Option<EventCardView>,
) -> Seq<Seq<char>> {
    let s2 = before_event(s, choices, data);
    let choice = opt_index(choices.event_option_index);
    closing_lines(
        event_state(s2, card, choice),
        event_lines(s2, card, choice, before_event_lines(s, choices, data)),
    )
}

/// Whether a turn in which `card` is the event card stays within the machine's
/// numbers: money and the emergency fund within an `i32` after each change,
/// the turn within a `u32`.
pub open spec fn turn_in_range(
    s: GameStateView,
    choices: PlayerChoices,
    data: GameData,
    card: Option<EventCardView>,
) -> bool {
    let s2 = before_event(s, choices, data);
    let choice = opt_index(choices.event_option_index);
    &&& before_event_in_range(s, choices, data)
    &&& event_in_range(s2, card, choice)
    &&& closing_in_range(event_state(s2, card, choice))
}

/// The result of a turn in which `card` is the event card.
pub open spec fn turn_result(
    s: GameStateView,
    choices: PlayerChoices,
    data: GameData,
    card: Option<EventCardView>,
) -> TurnResultView {
    let s3 = event_state(
        before_event(s, choices, data),
        card,
        opt_index(choices.event_option_index),
    );
    let moved = transitions(turn_counted(upkeep_state(s3)));
    TurnResultView {
        event_drawn: card,
        feedback: turn_lines(s, choices, data, card),
        stage_transitioned: moved,
        new_stage: if moved {
            Some(closing_state(s3).current_stage)
        } else {
            None
        },
        old_stage: if moved {
            Some(s3.current_stage)
        } else {
            None
        },
        stress_warning: stress_warning(upkeep_state(s3)),
    }
}

/// The position in the deck of the card that a turn draws from the stream, if
/// it draws one: after the plan and commit phases, for the stage and the used
/// ids of that moment.
pub open spec fn deck_draw(
    s: GameStateView,
    choices: PlayerChoices,
    data: GameData,
    rng: GameRngView,
) -> Option<int> {
    let s2 = before_event(s, choices, data);
    drawn_index(seq_view(data.events@), s2.current_stage, s2.used_event_ids, next_value(rng))
}

/// The event card of a turn: the card handed in, or else the card drawn from
/// the deck, if one can be drawn.
pub open spec fn resolved_card(
    s: GameStateView,
    choices: PlayerChoices,
    data: GameData,
    pre_drawn: Option<EventCard>,
    rng: GameRngView,
) -> Option<EventCardView> {
    match pre_drawn {
        Some(c) => Some(c@),
        None => match deck_draw(s, choices, data, rng) {
            Some(i) => Some(data.events@[i]@),
            None => None,
        },
    }
}

/// The random stream after a turn: moved on by one draw if a card was drawn
/// from the deck, else as it was.
pub open spec fn rng_after(
    s: GameStateView,
    choices: PlayerChoices,
    data: GameData,
    pre_drawn: Option<EventCard>,
    rng: GameRngView,
) -> GameRngView {
    if pre_drawn is None && deck_draw(s, choices, data, rng) is Some {
        advanced(rng)
    } else {
        rng
    }
}

/// Whether a turn stays within the machine's numbers whichever card the deck
/// gives: with a card handed in, for that card; else for each card that can be
/// drawn, or for no card where none can be drawn.
pub open spec fn turn_safe(
    s: GameStateView,
    choices: PlayerChoices,
    data: GameData,
    pre_drawn: Option<EventCard>,
) -> bool {
    let s2 = before_event(s, choices, data);
    let idx = eligible_indices(seq_view(data.events@), s2.current_stage, s2.used_event_ids);
    match pre_drawn {
        Some(c) => turn_in_range(s, choices, data, Some(c@)),
        None => if idx.len() == 0 {
            turn_in_range(s, choices, data, None)
        } else {
            forall|k: int|
                0 <= k < idx.len() ==> turn_in_range(
                    s,
                    choices,
                    data,
                    Some(#[trigger] seq_view(data.events@)[idx[k]]),
                )
        },
    }
}

/// A turn that is safe for every card the deck can give is within range for
/// the card that the stream draws.
pub proof fn lemma_turn_safe(
    s: GameStateView,
    choices: PlayerChoices,
    data: GameData,
    pre_drawn: Option<EventCard>,
    rng: GameRngView,
)
    requires
        turn_safe(s, choices, data, pre_drawn),
    ensures
        turn_in_range(s, choices, data, resolved_card(s, choices, data, pre_drawn, rng)),
{
    if pre_drawn is None {
        let s2 = before_event(s, choices, data);
        let events = seq_view(data.events@);
        let idx = eligible_indices(events, s2.current_stage, s2.used_event_ids);
        if idx.len() > 0 {
            let ws = weights_at(events, idx);
            let k = pick(ws, roll_of(next_value(rng), sum(ws)));
            lemma_pick_in_bounds(ws, roll_of(next_value(rng), sum(ws)));
            assert(turn_in_range(s, choices, data, Some(seq_view(data.events@)[idx[k]])));
            lemma_drawn_index_eligible(events, s2.current_stage, s2.used_event_ids, next_value(rng));
        }
    }
}

/// A turn keeps a valid state valid. It counts the turn on by one and never
/// goes back a stage. The used event ids only grow, by one id at most, and the
/// id of the turn's card is among them afterwards. The decision log only
/// grows, by one entry at most.
pub proof fn lemma_turn_state(
    s: GameStateView,
    choices: PlayerChoices,
    data: GameData,
    card: Option<EventCardView>,
)
    requires
        s.wf(),
    ensures
        turn_state(s, choices, data, card).wf(),
        turn_state(s, choices, data, card).current_turn == s.current_turn + 1,
        turn_state(s, choices, data, card).current_stage.rank() >= s.current_stage.rank(),
        s.used_event_ids.is_prefix_of(turn_state(s, choices, data, card).used_event_ids),
        turn_state(s, choices, data, card).used_event_ids.len() <= s.used_event_ids.len() + 1,
        card matches Some(c) ==> turn_state(s, choices, data, card).used_event_ids.contains(c.id),
        s.decision_log.is_prefix_of(turn_state(s, choices, data, card).decision_log),
        turn_state(s, choices, data, card).decision_log.len() <= s.decision_log.len() + 1,
{
    let ids = seq_view(choices.action_ids@);
    let s1 = plan_state(s, ids, data.actions@);
    lemma_plan_state_wf(s, ids, data.actions@);
    lemma_plan_keeps(s, ids, data.actions@);
    let s2 = before_event(s, choices, data);
    lemma_commit_state_wf(
        s1,
        data.decisions@,
        data.jobs@,
        choices.decision_id@,
        choices.decision_option_index as int,
    );
    lemma_commit_keeps(
        s1,
        data.decisions@,
        data.jobs@,
        choices.decision_id@,
        choices.decision_option_index as int,
    );
    let choice = opt_index(choices.event_option_index);
    lemma_event_state(s2, card, choice);
    match card {
        Some(c) => {
            lemma_effects_keep_used(mark_used(s2, c.id), card_effects(c, choice));
        },
        None => {},
    }
    lemma_closing_state(event_state(s2, card, choice));
}

/// The plan phase changes neither the used event ids, nor the stage, nor the
/// turn, nor the decision log.
pub proof fn lemma_plan_keeps(s: GameStateView, ids: Seq<Seq<char>>, actions: Seq<Action>)
    ensures
        plan_state(s, ids, actions).used_event_ids == s.used_event_ids,
        plan_state(s, ids, actions).current_stage == s.current_stage,
        plan_state(s, ids, actions).current_turn == s.current_turn,
        plan_state(s, ids, actions).decision_log == s.decision_log,
    decreases ids.len(),
{
    if ids.len() > 0 {
        match first_index(action_ids(actions), ids[0]) {
            Some(i) => {
                lemma_effects_keep_used(s, seq_view(actions[i].effects@));
            },
            None => {},
        }
        lemma_plan_keeps(plan_step(s, ids[0], actions), ids.skip(1), actions);
    }
}

/// The commit phase changes neither the used event ids, nor the stage, nor the
/// turn; the decision log only grows, by one entry at most.
pub proof fn lemma_commit_keeps(
    s: GameStateView,
    decisions: Seq<Decision>,
    jobs: Seq<Job>,
    id: Seq<char>,
    index: int,
)
    ensures
        commit_state(s, decisions, jobs, id, index).used_event_ids == s.used_event_ids,
        commit_state(s, decisions, jobs, id, index).current_stage == s.current_stage,
        commit_state(s, decisions, jobs, id, index).current_turn == s.current_turn,
        s.decision_log.is_prefix_of(commit_state(s, decisions, jobs, id, index).decision_log),
        commit_state(s, decisions, jobs, id, index).decision_log.len() <= s.decision_log.len() + 1,
{
    match chosen_option(decisions, id, index) {
        Some((d, o)) => {
            lemma_effects_keep_used(s, seq_view(o.effects@));
        },
        None => {},
    }
}

/// Runs one turn through its four phases, unless a number would leave the
/// machine's range on the way: then nothing is changed and nothing is returned.
///
/// The event card is the one handed in; without one, a card is drawn from the
/// deck for the current stage, which takes one value from the random stream if
/// a card can be drawn.
pub fn try_run_turn_with_event(
    state: &mut GameState,
    choices: &PlayerChoices,
    data: &GameData,
    rng: &mut GameRng,
    pre_drawn_event: Option<EventCard>,
) -> (result: Option<TurnResult>)
    ensures
        ({
            let card = resolved_card(old(state)@, *choices, *data, pre_drawn_event, old(rng)@);
            match result {
                Some(r) => {
                    &&& turn_in_range(old(state)@, *choices, *data, card)
                    &&& final(state)@ == turn_state(old(state)@, *choices, *data, card)
                    &&& r@ == turn_result(old(state)@, *choices, *data, card)
                    &&& final(rng)@ == rng_after(
                        old(state)@,
                        *choices,
                        *data,
                        pre_drawn_event,
                        old(rng)@,
                    )
                },
                None => {
                    &&& !turn_in_range(old(state)@, *choices, *data, card)
                    &&& final(state)@ == old(state)@
                    &&& *final(rng) == *old(rng)
                },
            }
        }),
        old(state)@.wf() ==> final(state)@.wf(),
{
    let saved = state.clone();
    let saved_rng = *rng;
    let ghost start = state@;
    let mut feedback: Vec<String> = Vec::new();
    assert(seq_view(feedback@) =~= Seq::empty());
    if !plan_phase(state, &choices.action_ids, data.actions.as_slice(), &mut feedback) {
        *state = saved;
        return None;
    }
    if !commit_phase(
        state,
        data.decisions.as_slice(),
        data.jobs.as_slice(),
        &choices.decision_id,
        choices.decision_option_index,
        &mut feedback,
    ) {
        *state = saved;
        return None;
    }
    let drawn: Option<&EventCard> = match &pre_drawn_event {
        Some(c) => Some(c),
        None => draw_event(
            data.events.as_slice(),
            &state.current_stage,
            state.used_event_ids.as_slice(),
            rng,
        ),
    };
    let ghost card = resolved_card(start, *choices, *data, pre_drawn_event, saved_rng@);
    assert(opt_card_view(opt_deref(drawn)) == card);
    if !event_phase(state, drawn, choices.event_option_index, &mut feedback) {
        *state = saved;
        *rng = saved_rng;
        return None;
    }
    let closing = closing_phase(state, &mut feedback);
    if !closing.ok {
        *state = saved;
        *rng = saved_rng;
        return None;
    }
    let event_drawn: Option<EventCard> = match drawn {
        Some(c) => Some(c.clone()),
        None => None,
    };
    proof {
        if start.wf() {
            lemma_turn_state(start, *choices, *data, card);
        }
    }
    let (new_stage, old_stage) = if closing.transitioned {
        (Some(state.current_stage), Some(closing.old_stage))
    } else {
        (None, None)
    };
    Some(
        TurnResult {
            event_drawn,
            feedback,
            stage_transitioned: closing.transitioned,
            new_stage,
            old_stage,
            stress_warning: closing.stress_warning,
        },
    )
}

/// Runs one turn through its four phases: plan, commit, event and feedback.
///
/// The event card is the one handed in; without one, a card is drawn from the
/// deck for the current stage, which takes one value from the random stream if
/// a card can be drawn. An action id, a decision id, an option index or a job
/// id that names nothing is passed over in silence.
pub fn run_turn_with_event(
    state: &mut GameState,
    choices: &PlayerChoices,
    data: &GameData,
    rng: &mut GameRng,
    pre_drawn_event: Option<EventCard>,
) -> (result: TurnResult)
    requires
        turn_safe(old(state)@, *choices, *data, pre_drawn_event),
    ensures
        ({
            let card = resolved_card(old(state)@, *choices, *data, pre_drawn_event, old(rng)@);
            &&& final(state)@ == turn_state(old(state)@, *choices, *data, card)
            &&& result@ == turn_result(old(state)@, *choices, *data, card)
            &&& final(rng)@ == rng_after(old(state)@, *choices, *data, pre_drawn_event, old(rng)@)
        }),
        old(state)@.wf() ==> final(state)@.wf(),
{
    proof {
        lemma_turn_safe(state@, *choices, *data, pre_drawn_event, rng@);
    }
    match try_run_turn_with_event(state, choices, data, rng, pre_drawn_event) {
        Some(result) => result,
        None => vstd::pervasive::unreached(),
    }
}

/// Runs one turn with a card drawn from the deck.
pub fn run_turn(
    state: &mut GameState,
    choices: &PlayerChoices,
    data: &GameData,
    rng: &mut GameRng,
) -> (result: TurnResult)
    requires
        turn_safe(old(state)@, *choices, *data, None),
    ensures
        ({
            let card = resolved_card(old(state)@, *choices, *data, None, old(rng)@);
            &&& final(state)@ == turn_state(old(state)@, *choices, *data, card)
            &&& result@ == turn_result(old(state)@, *choices, *data, card)
            &&& final(rng)@ == rng_after(old(state)@, *choices, *data, None, old(rng)@)
        }),
        old(state)@.wf() ==> final(state)@.wf(),
{
    run_turn_with_event(state, choices, data, rng, None)
}

/// The state after the turns, in order. Each turn has its choices and its event card.
pub open spec fn turns_state(
    s: GameStateView,
    turns: Seq<(PlayerChoices, Option<EventCardView>)>,
    data: GameData,
) -> GameStateView
    decreases turns.len(),
{
    if turns.len() == 0 {
        s
    } else {
        turn_state(turns_state(s, turns.drop_last(), data), turns.last().0, data, turns.last().1)
    }
}

/// No repeat, turn after turn: after any number of turns a valid state is
/// valid, so no used event id is listed twice; the used ids have only grown, by
/// no more than one id a turn; the turn has moved on by the number of turns,
/// and the stage has not gone back.
pub proof fn lemma_turns_state(
    s: GameStateView,
    turns: Seq<(PlayerChoices, Option<EventCardView>)>,
    data: GameData,
)
    requires
        s.wf(),
    ensures
        turns_state(s, turns, data).wf(),
        turns_state(s, turns, data).used_event_ids.no_duplicates(),
        s.used_event_ids.is_prefix_of(turns_state(s, turns, data).used_event_ids),
        turns_state(s, turns, data).used_event_ids.len() <= s.used_event_ids.len() + turns.len(),
        turns_state(s, turns, data).current_turn == s.current_turn + turns.len(),
        turns_state(s, turns, data).current_stage.rank() >= s.current_stage.rank(),
    decreases turns.len(),
{
    if turns.len() > 0 {
        let before = turns_state(s, turns.drop_last(), data);
        lemma_turns_state(s, turns.drop_last(), data);
        lemma_turn_state(before, turns.last().0, data, turns.last().1);
    }
}

/// Effects change neither the emergency fund nor the monthly bills.
pub proof fn lemma_effects_keep_funds(s: GameStateView, es: Seq<StatEffectView>)
    ensures
        effects_state(s, es).emergency_fund == s.emergency_fund,
        effects_state(s, es).monthly_bills == s.monthly_bills,
    decreases es.len(),
{
    if es.len() > 0 {
        lemma_effects_keep_funds(effect_step(s, es[0]), es.skip(1));
    }
}

/// The plan phase leaves an emergency fund and monthly bills that are not
/// below zero not below zero.
pub proof fn lemma_plan_keeps_funds(s: GameStateView, ids: Seq<Seq<char>>, actions: Seq<Action>)
    ensures
        s.emergency_fund >= 0 ==> plan_state(s, ids, actions).emergency_fund >= 0,
        s.monthly_bills >= 0 ==> plan_state(s, ids, actions).monthly_bills >= 0,
    decreases ids.len(),
{
    if ids.len() > 0 {
        match first_index(action_ids(actions), ids[0]) {
            Some(i) => {
                lemma_effects_keep_funds(s, seq_view(actions[i].effects@));
            },
            None => {},
        }
        lemma_plan_keeps_funds(plan_step(s, ids[0], actions), ids.skip(1), actions);
    }
}

/// Whether the option that the choices pick, if they pick one, sets no bills below zero.
pub open spec fn sets_no_negative_bills(choices: PlayerChoices, data: GameData) -> bool {
    match chosen_option(
        data.decisions@,
        choices.decision_id@,
        choices.decision_option_index as int,
    ) {
        Some((d, o)) => o.sets_bills matches Some(b) ==> b >= 0,
        None => true,
    }
}

/// A turn never takes more from the emergency fund than it holds: a fund that
/// is not below zero stays so. Monthly bills that are not below zero stay so,
/// unless the chosen option sets bills below zero.
pub proof fn lemma_turn_keeps_funds(
    s: GameStateView,
    choices: PlayerChoices,
    data: GameData,
    card: Option<EventCardView>,
)
    ensures
        s.emergency_fund >= 0 ==> turn_state(s, choices, data, card).emergency_fund >= 0,
        s.monthly_bills >= 0 && sets_no_negative_bills(choices, data) ==> turn_state(
            s,
            choices,
            data,
            card,
        ).monthly_bills >= 0,
{
    let ids = seq_view(choices.action_ids@);
    let s1 = plan_state(s, ids, data.actions@);
    lemma_plan_keeps_funds(s, ids, data.actions@);
    match chosen_option(
        data.decisions@,
        choices.decision_id@,
        choices.decision_option_index as int,
    ) {
        Some((d, o)) => {
            lemma_effects_keep_funds(s1, seq_view(o.effects@));
        },
        None => {},
    }
    let s2 = before_event(s, choices, data);
    let choice = opt_index(choices.event_option_index);
    match card {
        Some(c) => {
            lemma_effects_keep_funds(mark_used(s2, c.id), card_effects(c, choice));
        },
        None => {},
    }
}

} // verus!
