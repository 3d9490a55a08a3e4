use life_roguelite::engine::game_state::GameState;
use life_roguelite::engine::stat_calculator::{
    apply_effects, apply_emergency_fund, apply_job_income, apply_monthly_bills,
    check_stress_threshold, effects_fit, job_income_fits, monthly_bills_fit,
};
use life_roguelite::models::event::{StatEffect, StatType};
use life_roguelite::models::Job;
use life_roguelite::text::{join, magnitude, push_decimal, push_plain, push_signed};

fn fresh() -> GameState {
    GameState::new("LINES".to_string())
}

fn scalar(stat: StatType, delta: i32) -> StatEffect {
    StatEffect { stat, delta, tag: None }
}

fn grant(tag: &str) -> StatEffect {
    StatEffect { stat: StatType::Credentials, delta: 7, tag: Some(tag.to_string()) }
}

fn job(title: &str, recommended: Vec<&str>, pay: i32, stress: i32) -> Job {
    Job {
        id: "job".to_string(),
        title: title.to_string(),
        required_tags: vec![],
        recommended_tags: recommended.into_iter().map(|t| t.to_string()).collect(),
        pay_per_turn: pay,
        stress_per_turn: stress,
        growth_rate: 0,
        growth_tag: None,
        stages: vec![],
        description: "A job".to_string(),
    }
}

#[test]
fn decimal_rendering_is_exact() {
    let mut s = String::new();
    push_decimal(&mut s, 0);
    s.push(' ');
    push_decimal(&mut s, 9);
    s.push(' ');
    push_decimal(&mut s, 10);
    s.push(' ');
    push_decimal(&mut s, 1234567890);
    s.push(' ');
    push_decimal(&mut s, u64::MAX);
    assert_eq!(s, "0 9 10 1234567890 18446744073709551615");
}

#[test]
fn signed_rendering_always_has_a_sign() {
    let mut s = String::from("x");
    push_signed(&mut s, 0);
    push_signed(&mut s, 50);
    push_signed(&mut s, -80);
    push_signed(&mut s, i64::MIN);
    push_signed(&mut s, i64::MAX);
    assert_eq!(s, "x+0+50-80-9223372036854775808+9223372036854775807");
}

#[test]
fn plain_rendering_has_a_sign_only_below_zero() {
    let mut s = String::new();
    push_plain(&mut s, 0);
    s.push(',');
    push_plain(&mut s, 30);
    s.push(',');
    push_plain(&mut s, -3);
    s.push(',');
    push_plain(&mut s, i64::MIN);
    assert_eq!(s, "0,30,-3,-9223372036854775808");
}

#[test]
fn magnitude_of_extremes() {
    assert_eq!(magnitude(0), 0);
    assert_eq!(magnitude(-1), 1);
    assert_eq!(magnitude(i64::MIN), 9223372036854775808);
    assert_eq!(magnitude(i64::MAX), 9223372036854775807);
}

#[test]
fn join_puts_the_separator_between_parts() {
    assert_eq!(join(&vec![], ", "), "");
    assert_eq!(join(&vec!["a".to_string()], ", "), "a");
    assert_eq!(join(&vec!["a".to_string(), "".to_string(), "c".to_string()], ", "), "a, , c");
}

#[test]
fn effect_lines_report_the_applied_change() {
    let mut state = fresh();
    let fb = apply_effects(
        &mut state,
        &[
            scalar(StatType::Money, 50),
            scalar(StatType::Stress, 90),
            scalar(StatType::Support, -10),
            scalar(StatType::TimeSlots, -10),
            grant("CPR"),
        ],
    );
    assert_eq!(
        fb,
        vec![
            "💰 Money +50",
            "😰 Stress +80",
            "🤝 Support -5",
            "⏰ Time -3",
            "📚 Earned: CPR",
        ]
    );
    assert_eq!(state.money, 150);
    assert_eq!(state.stress, 100);
    assert_eq!(state.support, 0);
    assert_eq!(state.time_slots, 0);
    assert_eq!(state.credentials, vec!["CPR"]);
}

#[test]
fn effects_without_change_give_no_line() {
    let mut state = fresh();
    state.stress = 100;
    state.support = 0;
    state.time_slots = 4;
    let fb = apply_effects(
        &mut state,
        &[
            scalar(StatType::Money, 0),
            scalar(StatType::Stress, 5),
            scalar(StatType::Support, -1),
            scalar(StatType::TimeSlots, 2),
            StatEffect { stat: StatType::Credentials, delta: 3, tag: None },
        ],
    );
    assert!(fb.is_empty());
    assert_eq!(state.money, 100);
    assert_eq!(state.stress, 100);
    assert_eq!(state.support, 0);
    assert_eq!(state.time_slots, 4);
    assert!(state.credentials.is_empty());
}

#[test]
fn extreme_deltas_are_clamped_without_overflow() {
    let mut state = fresh();
    let fb = apply_effects(
        &mut state,
        &[
            scalar(StatType::Stress, i32::MAX),
            scalar(StatType::Support, i32::MIN),
            scalar(StatType::TimeSlots, i32::MAX),
            scalar(StatType::TimeSlots, i32::MIN),
        ],
    );
    assert_eq!(state.stress, 100);
    assert_eq!(state.support, 0);
    assert_eq!(state.time_slots, 0);
    assert_eq!(fb, vec!["😰 Stress +80", "🤝 Support -5", "⏰ Time +1", "⏰ Time -4"]);
}

#[test]
fn effects_fit_tells_when_money_leaves_the_range() {
    let mut state = fresh();
    state.money = i32::MAX - 10;
    assert!(effects_fit(&state, &[scalar(StatType::Money, 10)]));
    assert!(!effects_fit(&state, &[scalar(StatType::Money, 11)]));
    assert!(!effects_fit(
        &state,
        &[scalar(StatType::Money, 11), scalar(StatType::Money, -11)]
    ));
    assert!(effects_fit(
        &state,
        &[scalar(StatType::Money, -11), scalar(StatType::Money, 11)]
    ));
    assert!(effects_fit(&state, &[scalar(StatType::Stress, i32::MAX)]));
    state.money = i32::MIN;
    assert!(!effects_fit(&state, &[scalar(StatType::Money, -1)]));
    assert!(effects_fit(&state, &[]));
}

#[test]
fn job_income_lines_for_a_misaligned_job() {
    let mut state = fresh();
    state.credentials.push("Teamwork".to_string());
    state.current_job =
        Some(job("Barista", vec!["Customer Service", "Teamwork", "Food Safety"], 40, 4));
    let fb = apply_job_income(&mut state);
    assert_eq!(
        fb,
        vec![
            "💼 Barista pay: +$30",
            "😰 Work stress: +7",
            "⚠️ Misaligned — missing: Customer Service, Food Safety",
        ]
    );
    assert_eq!(state.money, 130);
    assert_eq!(state.stress, 27);
}

#[test]
fn job_income_lines_for_an_aligned_job_without_stress() {
    let mut state = fresh();
    state.current_job = Some(job("Gardener", vec![], 25, 0));
    let fb = apply_job_income(&mut state);
    assert_eq!(fb, vec!["💼 Gardener pay: +$25"]);
    assert_eq!(state.money, 125);
    assert_eq!(state.stress, 20);
}

#[test]
fn job_income_without_a_job_does_nothing() {
    let mut state = fresh();
    let fb = apply_job_income(&mut state);
    assert!(fb.is_empty());
    assert_eq!(state.money, 100);
    assert_eq!(state.stress, 20);
}

#[test]
fn misaligned_pay_is_rounded_toward_zero() {
    for (pay, expected) in [(0, 0), (1, 0), (2, 1), (3, 2), (5, 3), (41, 30), (-1, 0), (-5, -3), (-8, -6)]
    {
        let mut state = fresh();
        state.current_job = Some(job("Odd", vec!["Missing"], pay, -3));
        let fb = apply_job_income(&mut state);
        assert_eq!(state.money, 100 + expected, "pay {}", pay);
        assert_eq!(state.stress, 20);
        assert_eq!(fb.len(), 2);
    }
}

#[test]
fn job_stress_is_clamped() {
    let mut state = fresh();
    state.current_job = Some(job("Hard", vec![], 1, i32::MAX));
    apply_job_income(&mut state);
    assert_eq!(state.stress, 100);
    let mut state = fresh();
    state.current_job = Some(job("Easy", vec![], 1, i32::MIN));
    let fb = apply_job_income(&mut state);
    assert_eq!(state.stress, 0);
    assert_eq!(fb.len(), 1);
}

#[test]
fn job_income_fits_tells_when_money_leaves_the_range() {
    let mut state = fresh();
    state.current_job = Some(job("Rich", vec![], 100, 0));
    state.money = i32::MAX - 100;
    assert!(job_income_fits(&state));
    state.money = i32::MAX - 99;
    assert!(!job_income_fits(&state));
    state.current_job = Some(job("Rich", vec!["Missing"], 100, 0));
    assert!(job_income_fits(&state));
    state.current_job = None;
    state.money = i32::MAX;
    assert!(job_income_fits(&state));
}

#[test]
fn bills_lines_with_and_without_debt() {
    let mut state = fresh();
    state.monthly_bills = 75;
    assert_eq!(apply_monthly_bills(&mut state), vec!["🏠 Bills: -$75"]);
    assert_eq!(state.money, 25);
    state.monthly_bills = 26;
    assert_eq!(
        apply_monthly_bills(&mut state),
        vec!["🏠 Bills: -$26", "⚠️ You're in debt! Bills exceeded your cash."]
    );
    assert_eq!(state.money, -1);
}

#[test]
fn bills_to_exactly_zero_give_no_debt_warning() {
    let mut state = fresh();
    state.monthly_bills = 100;
    assert_eq!(apply_monthly_bills(&mut state), vec!["🏠 Bills: -$100"]);
    assert_eq!(state.money, 0);
}

#[test]
fn bills_of_zero_or_below_do_nothing() {
    let mut state = fresh();
    state.monthly_bills = 0;
    assert!(apply_monthly_bills(&mut state).is_empty());
    state.monthly_bills = -5;
    assert!(apply_monthly_bills(&mut state).is_empty());
    assert_eq!(state.money, 100);
}

#[test]
fn monthly_bills_fit_tells_when_money_leaves_the_range() {
    let mut state = fresh();
    state.money = i32::MIN + 5;
    state.monthly_bills = 5;
    assert!(monthly_bills_fit(&state));
    state.monthly_bills = 6;
    assert!(!monthly_bills_fit(&state));
    state.monthly_bills = -6;
    assert!(monthly_bills_fit(&state));
}

#[test]
fn emergency_fund_covers_the_whole_debt() {
    let mut state = fresh();
    state.money = -20;
    state.emergency_fund = 50;
    let fb = apply_emergency_fund(&mut state);
    assert_eq!(
        fb,
        vec![
            "🏦 Emergency fund covered $20 (remaining: $30)",
            "✅ Debt cleared by emergency fund!",
        ]
    );
    assert_eq!(state.money, 0);
    assert_eq!(state.emergency_fund, 30);
}

#[test]
fn emergency_fund_covers_what_it_can() {
    let mut state = fresh();
    state.money = -70;
    state.emergency_fund = 50;
    let fb = apply_emergency_fund(&mut state);
    assert_eq!(fb, vec!["🏦 Emergency fund covered $50 (remaining: $0)"]);
    assert_eq!(state.money, -20);
    assert_eq!(state.emergency_fund, 0);
}

#[test]
fn emergency_fund_is_left_alone_without_debt_or_fund() {
    let mut state = fresh();
    state.money = 0;
    state.emergency_fund = 50;
    assert!(apply_emergency_fund(&mut state).is_empty());
    state.money = -10;
    state.emergency_fund = 0;
    assert!(apply_emergency_fund(&mut state).is_empty());
    assert_eq!(state.money, -10);
    state.money = i32::MIN;
    state.emergency_fund = i32::MAX;
    let fb = apply_emergency_fund(&mut state);
    assert_eq!(state.money, -1);
    assert_eq!(state.emergency_fund, 0);
    assert_eq!(fb.len(), 1);
}

#[test]
fn stress_warning_is_strictly_above_the_threshold() {
    let mut state = fresh();
    state.stress = 75;
    assert_eq!(check_stress_threshold(&state), None);
    state.stress = 76;
    assert_eq!(
        check_stress_threshold(&state),
        Some(
            "⚠️ Stress is dangerously high! Risk of missed day and degraded outcomes.".to_string()
        )
    );
}
