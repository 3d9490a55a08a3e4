//! Effect application with per-stat clamping, job income, bills, the emergency
//! fund and the stress threshold.

use crate::engine::game_state::{GameState, GameStateView};
use crate::models::event::{StatEffect, StatEffectView, StatType};
use crate::models::job::JobView;
use crate::models::{lemma_seq_view_push, opt_view, seq_view, strings_contain};
use crate::text::{join, joined, plain, push_plain, push_signed, signed};
use vstd::prelude::*;
use vstd::string::StringExecFns;

verus! {

/// The least stress.
pub const STRESS_MIN: i32 = 0;

/// The greatest stress.
pub const STRESS_MAX: i32 = 100;

/// The least support.
pub const SUPPORT_MIN: i32 = 0;

/// The greatest support.
pub const SUPPORT_MAX: i32 = 10;

/// The least number of time slots.
pub const TIME_SLOTS_MIN: u32 = 0;

/// The greatest number of time slots.
pub const TIME_SLOTS_MAX: u32 = 4;

/// Stress above this value is dangerous.
pub const STRESS_DANGER: i32 = 75;

/// Support above this value gives free mitigation.
pub const SUPPORT_BONUS: i32 = 7;

/// Money at or below this value counts as debt.
pub const MONEY_DANGER: i32 = 0;

/// Extra stress per turn in a job whose recommended tags the player lacks.
pub const MISALIGN_STRESS: i32 = 3;

/// `v` limited to the range from `lo` to `hi`.
pub open spec fn clamp(v: int, lo: int, hi: int) -> int {
    if v < lo {
        lo
    } else if v > hi {
        hi
    } else {
        v
    }
}

/// Whether `v` can be held in an `i32`.
pub open spec fn fits_i32(v: int) -> bool {
    i32::MIN <= v <= i32::MAX
}

/// The state after one effect.
pub open spec fn effect_step(s: GameStateView, e: StatEffectView) -> GameStateView {
    match e.stat {
        StatType::Money => GameStateView { money: s.money + e.delta, ..s },
        StatType::Stress => GameStateView { stress: clamp(s.stress + e.delta, 0, 100), ..s },
        StatType::Support => GameStateView { support: clamp(s.support + e.delta, 0, 10), ..s },
        StatType::TimeSlots => GameStateView {
            time_slots: clamp(s.time_slots + e.delta, 0, 4),
            ..s
        },
        StatType::Credentials => match e.tag {
            Some(tag) => if s.credentials.contains(tag) {
                s
            } else {
                GameStateView { credentials: s.credentials.push(tag), ..s }
            },
            None => s,
        },
    }
}

/// The feedback line of a changed scalar stat: the stat's label and the change
/// that was really applied.
pub open spec fn change_line(stat: StatType, actual: int) -> Seq<char> {
    match stat {
        StatType::Money => "💰 Money "@ + signed(actual),
        StatType::Stress => "😰 Stress "@ + signed(actual),
        StatType::Support => "🤝 Support "@ + signed(actual),
        _ => "⏰ Time "@ + signed(actual),
    }
}

/// The feedback line of a newly earned credential.
pub open spec fn earned_line(tag: Seq<char>) -> Seq<char> {
    "📚 Earned: "@ + tag
}

/// The feedback line of one effect applied in state `s`, if it changes anything.
pub open spec fn effect_line(s: GameStateView, e: StatEffectView) -> Option<Seq<char>> {
    let t = effect_step(s, e);
    match e.stat {
        StatType::Money => if t.money != s.money {
            Some(change_line(e.stat, t.money - s.money))
        } else {
            None
        },
        StatType::Stress => if t.stress != s.stress {
            Some(change_line(e.stat, t.stress - s.stress))
        } else {
            None
        },
        StatType::Support => if t.support != s.support {
            Some(change_line(e.stat, t.support - s.support))
        } else {
            None
        },
        StatType::TimeSlots => if t.time_slots != s.time_slots {
            Some(change_line(e.stat, t.time_slots - s.time_slots))
        } else {
            None
        },
        StatType::Credentials => match e.tag {
            Some(tag) => if s.credentials.contains(tag) {
                None
            } else {
                Some(earned_line(tag))
            },
            None => None,
        },
    }
}

/// `lines` with the line added, if there is one.
pub open spec fn with_line(lines: Seq<Seq<char>>, line: Option<Seq<char>>) -> Seq<Seq<char>> {
    match line {
        Some(l) => lines.push(l),
        None => lines,
    }
}

/// The state after the effects, applied in order.
pub open spec fn effects_state(s: GameStateView, es: Seq<StatEffectView>) -> GameStateView
    decreases es.len(),
{
    if es.len() == 0 {
        s
    } else {
        effects_state(effect_step(s, es[0]), es.skip(1))
    }
}

/// The feedback lines of the effects applied in order to `s`, after `lines`.
pub open spec fn effects_lines(
    s: GameStateView,
    es: Seq<StatEffectView>,
    lines: Seq<Seq<char>>,
) -> Seq<Seq<char>>
    decreases es.len(),
{
    if es.len() == 0 {
        lines
    } else {
        effects_lines(effect_step(s, es[0]), es.skip(1), with_line(lines, effect_line(s, es[0])))
    }
}

/// Whether money, starting at `money`, stays within an `i32` after each of the effects.
pub open spec fn effects_in_range(money: int, es: Seq<StatEffectView>) -> bool
    decreases es.len(),
{
    if es.len() == 0 {
        true
    } else if es[0].stat == StatType::Money {
        fits_i32(money + es[0].delta) && effects_in_range(money + es[0].delta, es.skip(1))
    } else {
        effects_in_range(money, es.skip(1))
    }
}

/// Whether [`apply_effects`] can apply the effects to the state: money stays
/// within an `i32` after each of them.
pub fn effects_fit(state: &GameState, effects: &[StatEffect]) -> (ok: bool)
    ensures
        ok == effects_in_range(state@.money, seq_view(effects@)),
{
    let ghost es = seq_view(effects@);
    let mut money: i32 = state.money;
    let mut i: usize = 0;
    assert(es.skip(0) =~= es);
    while i < effects.len()
        invariant
            i <= effects@.len(),
            es == seq_view(effects@),
            effects_in_range(money as int, es.skip(i as int)) == effects_in_range(
                state@.money,
                es,
            ),
        decreases effects@.len() - i,
    {
        let ghost rest = es.skip(i as int);
        assert(rest[0] == effects@[i as int]@);
        assert(rest.skip(1) =~= es.skip(i + 1));
        if effects[i].stat == StatType::Money {
            let sum: i64 = money as i64 + effects[i].delta as i64;
            if sum < i32::MIN as i64 || sum > i32::MAX as i64 {
                return false;
            }
            money = sum as i32;
        }
        i += 1;
    }
    true
}


/// Adding a new element to a sequence without duplicates gives one without duplicates.
pub proof fn lemma_push_no_duplicates<T>(s: Seq<T>, x: T)
    requires
        s.no_duplicates(),
        !s.contains(x),
    ensures
        s.push(x).no_duplicates(),
{
    let t = s.push(x);
    assert forall|i: int, j: int| 0 <= i < t.len() && 0 <= j < t.len() && i != j implies t[i]
        != t[j] by {
        if i < s.len() && j < s.len() {
            assert(t[i] == s[i] && t[j] == s[j]);
        } else if i < s.len() {
            assert(s.contains(s[i]));
        } else {
            assert(s.contains(s[j]));
        }
    }
}

/// One effect keeps the bounded resources within their bounds and the
/// credentials free of duplicates, whatever its delta; money is not restricted.
pub proof fn lemma_effect_step_wf(s: GameStateView, e: StatEffectView)
    requires
        s.wf(),
    ensures
        effect_step(s, e).wf(),
{
    if e.stat == StatType::Credentials && e.tag is Some && !s.credentials.contains(e.tag->0) {
        lemma_push_no_duplicates(s.credentials, e.tag->0);
    }
}

/// Any sequence of effects keeps the bounded resources within their bounds:
/// stress from 0 to 100, support from 0 to 10, time slots from 0 to 4, and the
/// credentials free of duplicates.
pub proof fn lemma_effects_state_wf(s: GameStateView, es: Seq<StatEffectView>)
    requires
        s.wf(),
    ensures
        effects_state(s, es).wf(),
    decreases es.len(),
{
    if es.len() > 0 {
        lemma_effect_step_wf(s, es[0]);
        lemma_effects_state_wf(effect_step(s, es[0]), es.skip(1));
    }
}

/// Granting a credential is idempotent: the second grant of the same tag
/// changes nothing and emits no feedback line, and the tag is held once.
pub proof fn lemma_credential_grant_idempotent(s: GameStateView, tag: Seq<char>)
    requires
        s.credentials.no_duplicates(),
    ensures
        ({
            let e = StatEffectView { stat: StatType::Credentials, delta: 0, tag: Some(tag) };
            let once = effect_step(s, e);
            &&& once.credentials.contains(tag)
            &&& once.credentials.no_duplicates()
            &&& effect_step(once, e) == once
            &&& effect_line(once, e) is None
            &&& once.credentials.filter(|t: Seq<char>| t == tag).len() == 1
        }),
{
    let e = StatEffectView { stat: StatType::Credentials, delta: 0, tag: Some(tag) };
    let once = effect_step(s, e);
    if !s.credentials.contains(tag) {
        lemma_push_no_duplicates(s.credentials, tag);
        assert(once.credentials[s.credentials.len() as int] == tag);
    }
    lemma_single_occurrence(once.credentials, tag);
}

/// In a sequence without duplicates an element that occurs in it occurs once.
pub proof fn lemma_single_occurrence(s: Seq<Seq<char>>, x: Seq<char>)
    requires
        s.no_duplicates(),
        s.contains(x),
    ensures
        s.filter(|t: Seq<char>| t == x).len() == 1,
    decreases s.len(),
{
    let pred = |t: Seq<char>| t == x;
    reveal(Seq::filter);
    if s.len() > 0 {
        let front = s.drop_last();
        if s.last() == x {
            assert forall|i: int| 0 <= i < front.len() implies !pred(front[i]) by {
                assert(front[i] == s[i]);
            }
            lemma_filter_none(front, x);
        } else {
            let i = choose|i: int| 0 <= i < s.len() && s[i] == x;
            assert(front[i] == x);
            assert(front.no_duplicates()) by {
                assert forall|a: int, b: int|
                    0 <= a < front.len() && 0 <= b < front.len() && a != b implies front[a]
                    != front[b] by {
                    assert(front[a] == s[a] && front[b] == s[b]);
                }
            }
            lemma_single_occurrence(front, x);
        }
    }
}

/// Filtering for an element that does not occur gives the empty sequence.
pub proof fn lemma_filter_none(s: Seq<Seq<char>>, x: Seq<char>)
    requires
        forall|i: int| 0 <= i < s.len() ==> s[i] != x,
    ensures
        s.filter(|t: Seq<char>| t == x).len() == 0,
    decreases s.len(),
{
    reveal(Seq::filter);
    if s.len() > 0 {
        let front = s.drop_last();
        assert forall|i: int| 0 <= i < front.len() implies front[i] != x by {
            assert(front[i] == s[i]);
        }
        lemma_filter_none(front, x);
    }
}

/// The feedback line of a changed scalar stat.
fn change_line_string(stat: StatType, actual: i64) -> (r: String)
    ensures
        r@ == change_line(stat, actual as int),
{
    let mut r = match stat {
        StatType::Money => String::from_str("💰 Money "),
        StatType::Stress => String::from_str("😰 Stress "),
        StatType::Support => String::from_str("🤝 Support "),
        _ => String::from_str("⏰ Time "),
    };
    push_signed(&mut r, actual);
    r
}

/// `v` limited to the range from `lo` to `hi`.
fn clamp_i64(v: i64, lo: i64, hi: i64) -> (r: i64)
    requires
        lo <= hi,
    ensures
        r == clamp(v as int, lo as int, hi as int),
{
    if v < lo {
        lo
    } else if v > hi {
        hi
    } else {
        v
    }
}

/// Applies one effect and appends its feedback line, if it changes anything.
pub(crate) fn apply_effect(
    state: &mut GameState,
    effect: &StatEffect,
    feedback: &mut Vec<String>,
)
    requires
        effect.stat == StatType::Money ==> fits_i32(old(state)@.money + effect.delta),
    ensures
        final(state)@ == effect_step(old(state)@, effect@),
        seq_view(final(feedback)@) == with_line(
            seq_view(old(feedback)@),
            effect_line(old(state)@, effect@),
        ),
{
    let ghost lines = seq_view(feedback@);
    match effect.stat {
        StatType::Money => {
            state.money = state.money + effect.delta;
            if effect.delta != 0 {
                let line = change_line_string(StatType::Money, effect.delta as i64);
                proof {
                    lemma_seq_view_push(feedback@, line);
                }
                feedback.push(line);
            }
        },
        StatType::Stress => {
            let before = state.stress;
            let after = clamp_i64(
                before as i64 + effect.delta as i64,
                STRESS_MIN as i64,
                STRESS_MAX as i64,
            );
            state.stress = after as i32;
            let actual = after - before as i64;
            if actual != 0 {
                let line = change_line_string(StatType::Stress, actual);
                proof {
                    lemma_seq_view_push(feedback@, line);
                }
                feedback.push(line);
            }
        },
        StatType::Support => {
            let before = state.support;
            let after = clamp_i64(
                before as i64 + effect.delta as i64,
                SUPPORT_MIN as i64,
                SUPPORT_MAX as i64,
            );
            state.support = after as i32;
            let actual = after - before as i64;
            if actual != 0 {
                let line = change_line_string(StatType::Support, actual);
                proof {
                    lemma_seq_view_push(feedback@, line);
                }
                feedback.push(line);
            }
        },
        StatType::TimeSlots => {
            let before = state.time_slots;
            let after = clamp_i64(
                before as i64 + effect.delta as i64,
                TIME_SLOTS_MIN as i64,
                TIME_SLOTS_MAX as i64,
            );
            state.time_slots = after as u32;
            let actual = after - before as i64;
            if actual != 0 {
                let line = change_line_string(StatType::TimeSlots, actual);
                proof {
                    lemma_seq_view_push(feedback@, line);
                }
                feedback.push(line);
            }
        },
        StatType::Credentials => {
            if let Some(tag) = &effect.tag {
                if !strings_contain(state.credentials.as_slice(), tag) {
                    let mut line = String::from_str("📚 Earned: ");
                    line.append(tag.as_str());
                    proof {
                        lemma_seq_view_push(state.credentials@, *tag);
                        lemma_seq_view_push(feedback@, line);
                    }
                    state.credentials.push(tag.clone());
                    feedback.push(line);
                }
            }
        },
    }
}

/// Applies the effects in order and appends their feedback lines to `feedback`.
pub(crate) fn apply_effects_into(
    state: &mut GameState,
    effects: &[StatEffect],
    feedback: &mut Vec<String>,
)
    requires
        effects_in_range(old(state)@.money, seq_view(effects@)),
    ensures
        final(state)@ == effects_state(old(state)@, seq_view(effects@)),
        seq_view(final(feedback)@) == effects_lines(
            old(state)@,
            seq_view(effects@),
            seq_view(old(feedback)@),
        ),
        old(state)@.wf() ==> final(state)@.wf(),
{
    let ghost es = seq_view(effects@);
    let ghost start = state@;
    let ghost lines = seq_view(feedback@);
    let mut i: usize = 0;
    assert(es.skip(0) =~= es);
    while i < effects.len()
        invariant
            i <= effects@.len(),
            es == seq_view(effects@),
            effects_in_range(state@.money, es.skip(i as int)),
            effects_state(state@, es.skip(i as int)) == effects_state(start, es),
            effects_lines(state@, es.skip(i as int), seq_view(feedback@)) == effects_lines(
                start,
                es,
                lines,
            ),
        decreases effects@.len() - i,
    {
        let ghost rest = es.skip(i as int);
        assert(rest[0] == effects@[i as int]@);
        assert(rest.skip(1) =~= es.skip(i + 1));
        apply_effect(state, &effects[i], feedback);
        i += 1;
    }
    proof {
        if start.wf() {
            lemma_effects_state_wf(start, es);
        }
    }
}

/// Applies the effects to the state in order. Money takes the raw delta and may
/// go negative; stress, support and time slots are limited to their bounds; a
/// credential is added unless it is held already. The result lists one line for
/// each effect that changed something, with the change that was really applied.
pub fn apply_effects(state: &mut GameState, effects: &[StatEffect]) -> (feedback: Vec<String>)
    requires
        effects_in_range(old(state)@.money, seq_view(effects@)),
    ensures
        final(state)@ == effects_state(old(state)@, seq_view(effects@)),
        seq_view(feedback@) == effects_lines(old(state)@, seq_view(effects@), Seq::empty()),
        old(state)@.wf() ==> final(state)@.wf(),
{
    let mut feedback: Vec<String> = Vec::new();
    assert(seq_view(feedback@) =~= Seq::empty());
    apply_effects_into(state, effects, &mut feedback);
    feedback
}

/// The tags of `tags`, in order, that do not occur in `creds`.
pub open spec fn missing_tags(creds: Seq<Seq<char>>, tags: Seq<Seq<char>>) -> Seq<Seq<char>>
    decreases tags.len(),
{
    if tags.len() == 0 {
        Seq::empty()
    } else {
        let rest = missing_tags(creds, tags.drop_last());
        if creds.contains(tags.last()) {
            rest
        } else {
            rest.push(tags.last())
        }
    }
}

/// A tag is missing exactly if it is one of `tags` and not one of `creds`.
pub proof fn lemma_missing_tags_members(creds: Seq<Seq<char>>, tags: Seq<Seq<char>>, t: Seq<char>)
    ensures
        missing_tags(creds, tags).contains(t) <==> tags.contains(t) && !creds.contains(t),
    decreases tags.len(),
{
    if tags.len() > 0 {
        let front = tags.drop_last();
        let rest = missing_tags(creds, front);
        lemma_missing_tags_members(creds, front, t);
        if tags.contains(t) {
            let i = choose|i: int| 0 <= i < tags.len() && tags[i] == t;
            if i < front.len() {
                assert(front[i] == t);
            }
        }
        if front.contains(t) {
            let i = choose|i: int| 0 <= i < front.len() && front[i] == t;
            assert(tags[i] == t);
        }
        assert(tags[tags.len() - 1] == tags.last());
        if !creds.contains(tags.last()) {
            let m = rest.push(tags.last());
            if m.contains(t) {
                let i = choose|i: int| 0 <= i < m.len() && m[i] == t;
                if i < rest.len() {
                    assert(rest[i] == t);
                }
            }
            if rest.contains(t) {
                let i = choose|i: int| 0 <= i < rest.len() && rest[i] == t;
                assert(m[i] == t);
            }
            assert(m[rest.len() as int] == tags.last());
        }
    }
}

/// Whether the holder of `creds` lacks a recommended tag of the job.
pub open spec fn misaligned(creds: Seq<Seq<char>>, job: JobView) -> bool {
    missing_tags(creds, job.recommended_tags).len() > 0
}

/// Three quarters of `pay`, rounded toward zero.
pub open spec fn three_quarters(pay: int) -> int {
    if pay >= 0 {
        (3 * pay) / 4
    } else {
        -((3 * -pay) / 4)
    }
}

/// What the job pays this turn: the full pay, or three quarters of it when misaligned.
pub open spec fn job_pay(creds: Seq<Seq<char>>, job: JobView) -> int {
    if misaligned(creds, job) {
        three_quarters(job.pay_per_turn)
    } else {
        job.pay_per_turn
    }
}

/// The stress the job adds this turn: its own, and three more when misaligned.
pub open spec fn job_stress(creds: Seq<Seq<char>>, job: JobView) -> int {
    if misaligned(creds, job) {
        job.stress_per_turn + 3
    } else {
        job.stress_per_turn
    }
}

/// The state after job income.
pub open spec fn job_income_state(s: GameStateView) -> GameStateView {
    match s.current_job {
        Some(job) => GameStateView {
            money: s.money + job_pay(s.credentials, job),
            stress: clamp(s.stress + job_stress(s.credentials, job), 0, 100),
            ..s
        },
        None => s,
    }
}

/// The pay line of a job.
pub open spec fn pay_line(title: Seq<char>, pay: int) -> Seq<char> {
    "💼 "@ + title + " pay: +$"@ + plain(pay)
}

/// The line that reports the stress a job added.
pub open spec fn work_stress_line(stress: int) -> Seq<char> {
    "😰 Work stress: +"@ + plain(stress)
}

/// The line that lists the recommended tags the player lacks.
pub open spec fn misaligned_line(missing: Seq<Seq<char>>) -> Seq<char> {
    "⚠️ Misaligned — missing: "@ + joined(missing, ", "@)
}

/// The feedback lines of job income, after `lines`: the pay line, a stress line
/// if stress was added, and a line that lists the missing tags if there are any.
pub open spec fn job_income_lines(s: GameStateView, lines: Seq<Seq<char>>) -> Seq<Seq<char>> {
    match s.current_job {
        Some(job) => {
            let l1 = lines.push(pay_line(job.title, job_pay(s.credentials, job)));
            let l2 = if job_stress(s.credentials, job) > 0 {
                l1.push(work_stress_line(job_stress(s.credentials, job)))
            } else {
                l1
            };
            if misaligned(s.credentials, job) {
                l2.push(misaligned_line(missing_tags(s.credentials, job.recommended_tags)))
            } else {
                l2
            }
        },
        None => lines,
    }
}

/// Whether money stays within an `i32` after job income.
pub open spec fn job_income_in_range(s: GameStateView) -> bool {
    match s.current_job {
        Some(job) => fits_i32(s.money + job_pay(s.credentials, job)),
        None => true,
    }
}

/// The tags of `tags`, in order, that do not occur in `creds`.
pub fn missing_from(creds: &Vec<String>, tags: &Vec<String>) -> (missing: Vec<String>)
    ensures
        seq_view(missing@) == missing_tags(seq_view(creds@), seq_view(tags@)),
{
    let ghost all = seq_view(tags@);
    let mut missing: Vec<String> = Vec::new();
    let mut i: usize = 0;
    assert(seq_view(missing@) =~= Seq::empty());
    while i < tags.len()
        invariant
            i <= tags@.len(),
            all == seq_view(tags@),
            seq_view(missing@) == missing_tags(seq_view(creds@), all.take(i as int)),
        decreases tags@.len() - i,
    {
        assert(all.take(i + 1).drop_last() =~= all.take(i as int));
        assert(all.take(i + 1).last() == tags@[i as int]@);
        if !strings_contain(creds.as_slice(), &tags[i]) {
            proof {
                lemma_seq_view_push(missing@, tags@[i as int]);
            }
            missing.push(tags[i].clone());
        }
        i += 1;
    }
    assert(all.take(tags@.len() as int) =~= all);
    missing
}

/// What a job that pays `pay` a turn pays this turn.
fn pay_this_turn(pay: i32, is_misaligned: bool) -> (r: i64)
    ensures
        r == if is_misaligned { three_quarters(pay as int) } else { pay as int },
{
    if !is_misaligned {
        pay as i64
    } else if pay >= 0 {
        ((3 * (pay as u64)) / 4) as i64
    } else {
        let m: u64 = (-(pay as i64)) as u64;
        -(((3 * m) / 4) as i64)
    }
}

/// Whether [`apply_job_income`] can be applied to the state: money stays within an `i32`.
pub fn job_income_fits(state: &GameState) -> (ok: bool)
    ensures
        ok == job_income_in_range(state@),
{
    match &state.current_job {
        Some(job) => {
            let missing = missing_from(&state.credentials, &job.recommended_tags);
            let pay = pay_this_turn(job.pay_per_turn, missing.len() > 0);
            let sum = state.money as i64 + pay;
            i32::MIN as i64 <= sum && sum <= i32::MAX as i64
        },
        None => true,
    }
}

/// Pays the job income and appends its feedback lines to `feedback`.
pub(crate) fn job_income_into(state: &mut GameState, feedback: &mut Vec<String>)
    requires
        job_income_in_range(old(state)@),
    ensures
        final(state)@ == job_income_state(old(state)@),
        seq_view(final(feedback)@) == job_income_lines(old(state)@, seq_view(old(feedback)@)),
        old(state)@.wf() ==> final(state)@.wf(),
{
    let (pay, stress) = match &state.current_job {
        Some(job) => {
            let missing = missing_from(&state.credentials, &job.recommended_tags);
            let is_misaligned = missing.len() > 0;
            let pay = pay_this_turn(job.pay_per_turn, is_misaligned);
            let stress: i64 = if is_misaligned {
                job.stress_per_turn as i64 + MISALIGN_STRESS as i64
            } else {
                job.stress_per_turn as i64
            };
            let mut line = String::from_str("💼 ");
            line.append(job.title.as_str());
            line.append(" pay: +$");
            push_plain(&mut line, pay);
            proof {
                lemma_seq_view_push(feedback@, line);
            }
            feedback.push(line);
            if stress > 0 {
                let mut line = String::from_str("😰 Work stress: +");
                push_plain(&mut line, stress);
                proof {
                    lemma_seq_view_push(feedback@, line);
                }
                feedback.push(line);
            }
            if is_misaligned {
                let mut line = String::from_str("⚠️ Misaligned — missing: ");
                let tags = join(&missing, ", ");
                line.append(tags.as_str());
                proof {
                    lemma_seq_view_push(feedback@, line);
                }
                feedback.push(line);
            }
            (pay, stress)
        },
        None => {
            return ;
        },
    };
    state.money = (state.money as i64 + pay) as i32;
    state.stress = clamp_i64(state.stress as i64 + stress, STRESS_MIN as i64, STRESS_MAX as i64) as i32;
}

/// Pays the current job's income and adds its stress. A job is misaligned when
/// the player lacks one of its recommended tags: it then pays three quarters,
/// rounded toward zero, and adds three more stress. Without a job nothing happens.
pub fn apply_job_income(state: &mut GameState) -> (feedback: Vec<String>)
    requires
        job_income_in_range(old(state)@),
    ensures
        final(state)@ == job_income_state(old(state)@),
        seq_view(feedback@) == job_income_lines(old(state)@, Seq::empty()),
        old(state)@.wf() ==> final(state)@.wf(),
{
    let mut feedback: Vec<String> = Vec::new();
    assert(seq_view(feedback@) =~= Seq::empty());
    job_income_into(state, &mut feedback);
    feedback
}

/// The state after the monthly bills: they are taken from money, which may go negative.
pub open spec fn bills_state(s: GameStateView) -> GameStateView {
    if s.monthly_bills > 0 {
        GameStateView { money: s.money - s.monthly_bills, ..s }
    } else {
        s
    }
}

/// The line that reports the bills paid.
pub open spec fn bills_line(bills: int) -> Seq<char> {
    "🏠 Bills: -$"@ + plain(bills)
}

/// The line that warns of debt after the bills.
pub open spec fn debt_line() -> Seq<char> {
    "⚠️ You're in debt! Bills exceeded your cash."@
}

/// The feedback lines of the monthly bills, after `lines`.
pub open spec fn bills_lines(s: GameStateView, lines: Seq<Seq<char>>) -> Seq<Seq<char>> {
    if s.monthly_bills > 0 {
        let l1 = lines.push(bills_line(s.monthly_bills));
        if s.money - s.monthly_bills < 0 {
            l1.push(debt_line())
        } else {
            l1
        }
    } else {
        lines
    }
}

/// Whether money stays within an `i32` after the monthly bills.
pub open spec fn bills_in_range(s: GameStateView) -> bool {
    s.monthly_bills > 0 ==> fits_i32(s.money - s.monthly_bills)
}

/// Whether [`apply_monthly_bills`] can be applied to the state: money stays within an `i32`.
pub fn monthly_bills_fit(state: &GameState) -> (ok: bool)
    ensures
        ok == bills_in_range(state@),
{
    state.monthly_bills <= 0 || state.money as i64 - state.monthly_bills as i64 >= i32::MIN as i64
}

/// Takes the monthly bills from money and appends the feedback lines to `feedback`.
pub(crate) fn monthly_bills_into(state: &mut GameState, feedback: &mut Vec<String>)
    requires
        bills_in_range(old(state)@),
    ensures
        final(state)@ == bills_state(old(state)@),
        seq_view(final(feedback)@) == bills_lines(old(state)@, seq_view(old(feedback)@)),
        old(state)@.wf() ==> final(state)@.wf(),
{
    if state.monthly_bills > 0 {
        state.money = state.money - state.monthly_bills;
        let mut line = String::from_str("🏠 Bills: -$");
        push_plain(&mut line, state.monthly_bills as i64);
        proof {
            lemma_seq_view_push(feedback@, line);
        }
        feedback.push(line);
        if state.money < 0 {
            let line = String::from_str("⚠️ You're in debt! Bills exceeded your cash.");
            proof {
                lemma_seq_view_push(feedback@, line);
            }
            feedback.push(line);
        }
    }
}

/// Takes the monthly bills from money. Nothing happens when the bills are zero
/// or below. Money may go negative; a debt warning is then added.
pub fn apply_monthly_bills(state: &mut GameState) -> (feedback: Vec<String>)
    requires
        bills_in_range(old(state)@),
    ensures
        final(state)@ == bills_state(old(state)@),
        seq_view(feedback@) == bills_lines(old(state)@, Seq::empty()),
        old(state)@.wf() ==> final(state)@.wf(),
{
    let mut feedback: Vec<String> = Vec::new();
    assert(seq_view(feedback@) =~= Seq::empty());
    monthly_bills_into(state, &mut feedback);
    feedback
}

/// How much of a debt the emergency fund covers: the whole shortfall, or the
/// whole fund where the fund is smaller.
pub open spec fn fund_cover(s: GameStateView) -> int {
    if -s.money <= s.emergency_fund {
        -s.money
    } else {
        s.emergency_fund
    }
}

/// The state after the emergency fund has covered what it can of a debt.
pub open spec fn fund_state(s: GameStateView) -> GameStateView {
    if s.money < 0 && s.emergency_fund > 0 {
        GameStateView {
            money: s.money + fund_cover(s),
            emergency_fund: s.emergency_fund - fund_cover(s),
            ..s
        }
    } else {
        s
    }
}

/// The line that reports what the emergency fund covered and what is left of it.
pub open spec fn fund_line(covered: int, remaining: int) -> Seq<char> {
    "🏦 Emergency fund covered $"@ + plain(covered) + " (remaining: $"@ + plain(remaining) + ")"@
}

/// The line that reports a debt fully covered.
pub open spec fn debt_cleared_line() -> Seq<char> {
    "✅ Debt cleared by emergency fund!"@
}

/// The feedback lines of the emergency fund, after `lines`.
pub open spec fn fund_lines(s: GameStateView, lines: Seq<Seq<char>>) -> Seq<Seq<char>> {
    if s.money < 0 && s.emergency_fund > 0 {
        let l1 = lines.push(fund_line(fund_cover(s), s.emergency_fund - fund_cover(s)));
        if s.money + fund_cover(s) >= 0 {
            l1.push(debt_cleared_line())
        } else {
            l1
        }
    } else {
        lines
    }
}

/// Covers a debt from the emergency fund and appends the feedback lines to `feedback`.
pub(crate) fn emergency_fund_into(state: &mut GameState, feedback: &mut Vec<String>)
    ensures
        final(state)@ == fund_state(old(state)@),
        seq_view(final(feedback)@) == fund_lines(old(state)@, seq_view(old(feedback)@)),
        old(state)@.wf() ==> final(state)@.wf(),
{
    if state.money < 0 && state.emergency_fund > 0 {
        let shortfall: i64 = -(state.money as i64);
        let covered: i64 = if shortfall <= state.emergency_fund as i64 {
            shortfall
        } else {
            state.emergency_fund as i64
        };
        state.money = (state.money as i64 + covered) as i32;
        state.emergency_fund = (state.emergency_fund as i64 - covered) as i32;
        let mut line = String::from_str("🏦 Emergency fund covered $");
        push_plain(&mut line, covered);
        line.append(" (remaining: $");
        push_plain(&mut line, state.emergency_fund as i64);
        line.append(")");
        proof {
            lemma_seq_view_push(feedback@, line);
        }
        feedback.push(line);
        if state.money >= 0 {
            let line = String::from_str("✅ Debt cleared by emergency fund!");
            proof {
                lemma_seq_view_push(feedback@, line);
            }
            feedback.push(line);
        }
    }
}

/// Covers a debt from the emergency fund, as far as the fund reaches. Nothing
/// happens unless money is negative and the fund holds something.
pub fn apply_emergency_fund(state: &mut GameState) -> (feedback: Vec<String>)
    ensures
        final(state)@ == fund_state(old(state)@),
        seq_view(feedback@) == fund_lines(old(state)@, Seq::empty()),
        old(state)@.wf() ==> final(state)@.wf(),
{
    let mut feedback: Vec<String> = Vec::new();
    assert(seq_view(feedback@) =~= Seq::empty());
    emergency_fund_into(state, &mut feedback);
    feedback
}

/// The warning given when stress is above the danger threshold.
pub open spec fn stress_warning_text() -> Seq<char> {
    "⚠️ Stress is dangerously high! Risk of missed day and degraded outcomes."@
}

/// The stress warning of a state: present exactly if stress is above 75.
pub open spec fn stress_warning(s: GameStateView) -> Option<Seq<char>> {
    if s.stress > 75 {
        Some(stress_warning_text())
    } else {
        None
    }
}

/// The fixed warning if stress is above the danger threshold, else nothing.
pub fn check_stress_threshold(state: &GameState) -> (warning: Option<String>)
    ensures
        opt_view(warning) == stress_warning(state@),
{
    if state.stress > STRESS_DANGER {
        Some(
            String::from_str(
                "⚠️ Stress is dangerously high! Risk of missed day and degraded outcomes.",
            ),
        )
    } else {
        None
    }
}

/// Whether support is high enough for bonus mitigation: above 7.
pub fn has_support_bonus(state: &GameState) -> (r: bool)
    ensures
        r == (state@.support > 7),
{
    state.support > SUPPORT_BONUS
}

/// Whether the player is in debt: money at or below zero.
pub fn is_in_debt(state: &GameState) -> (r: bool)
    ensures
        r == (state@.money <= 0),
{
    state.money <= MONEY_DANGER
}

} // verus!
