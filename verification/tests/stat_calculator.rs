use life_roguelite::engine::game_state::GameState;
use life_roguelite::engine::stat_calculator::{
    apply_effects, apply_job_income, apply_monthly_bills, check_stress_threshold,
    has_support_bonus, is_in_debt,
};
use life_roguelite::models::event::{StatEffect, StatType};
use life_roguelite::models::Job;

fn make_state() -> GameState {
    GameState::new("TEST".to_string())
}

fn money_effect(delta: i32) -> StatEffect {
    StatEffect { stat: StatType::Money, delta, tag: None }
}

fn stress_effect(delta: i32) -> StatEffect {
    StatEffect { stat: StatType::Stress, delta, tag: None }
}

fn support_effect(delta: i32) -> StatEffect {
    StatEffect { stat: StatType::Support, delta, tag: None }
}

fn time_effect(delta: i32) -> StatEffect {
    StatEffect { stat: StatType::TimeSlots, delta, tag: None }
}

fn credential_effect(tag: &str) -> StatEffect {
    StatEffect { stat: StatType::Credentials, delta: 0, tag: Some(tag.to_string()) }
}

fn test_job(recommended_tags: Vec<String>, pay_per_turn: i32, stress_per_turn: i32) -> Job {
    Job {
        id: "test".to_string(),
        title: "Test Job".to_string(),
        required_tags: vec![],
        recommended_tags,
        pay_per_turn,
        stress_per_turn,
        growth_rate: 0,
        growth_tag: None,
        stages: vec![],
        description: "Test".to_string(),
    }
}

#[test]
fn test_apply_money_positive() {
    let mut state = make_state();
    let fb = apply_effects(&mut state, &[money_effect(50)]);
    assert_eq!(state.money, 150);
    assert!(fb[0].contains("+50"));
}

#[test]
fn test_apply_money_negative() {
    let mut state = make_state();
    let fb = apply_effects(&mut state, &[money_effect(-80)]);
    assert_eq!(state.money, 20);
    assert!(fb[0].contains("-80"));
}

#[test]
fn test_money_can_go_negative() {
    let mut state = make_state();
    apply_effects(&mut state, &[money_effect(-200)]);
    assert_eq!(state.money, -100, "Money should be able to go negative (debt)");
}

#[test]
fn test_stress_clamps_at_100() {
    let mut state = make_state();
    apply_effects(&mut state, &[stress_effect(90)]);
    assert_eq!(state.stress, 100, "Stress should clamp at 100");
}

#[test]
fn test_stress_clamps_at_zero() {
    let mut state = make_state();
    apply_effects(&mut state, &[stress_effect(-50)]);
    assert_eq!(state.stress, 0, "Stress should clamp at 0");
}

#[test]
fn test_support_clamps_at_10() {
    let mut state = make_state();
    apply_effects(&mut state, &[support_effect(8)]);
    assert_eq!(state.support, 10, "Support should clamp at 10");
}

#[test]
fn test_support_clamps_at_zero() {
    let mut state = make_state();
    apply_effects(&mut state, &[support_effect(-10)]);
    assert_eq!(state.support, 0, "Support should clamp at 0");
}

#[test]
fn test_time_slots_clamp_at_4() {
    let mut state = make_state();
    apply_effects(&mut state, &[time_effect(5)]);
    assert_eq!(state.time_slots, 4, "Time should clamp at 4");
}

#[test]
fn test_time_slots_clamp_at_zero() {
    let mut state = make_state();
    apply_effects(&mut state, &[time_effect(-10)]);
    assert_eq!(state.time_slots, 0, "Time should clamp at 0");
}

#[test]
fn test_credential_added() {
    let mut state = make_state();
    let fb = apply_effects(&mut state, &[credential_effect("IT Fundamentals")]);
    assert_eq!(state.credentials, vec!["IT Fundamentals"]);
    assert!(fb[0].contains("IT Fundamentals"));
}

#[test]
fn test_credential_no_duplicate() {
    let mut state = make_state();
    apply_effects(&mut state, &[credential_effect("CPR")]);
    let fb = apply_effects(&mut state, &[credential_effect("CPR")]);
    assert_eq!(state.credentials.len(), 1, "Should not add duplicate credential");
    assert!(fb.is_empty(), "No feedback for duplicate credential");
}

#[test]
fn test_multiple_effects() {
    let mut state = make_state();
    let effects = vec![money_effect(-25), stress_effect(5), support_effect(-1)];
    let fb = apply_effects(&mut state, &effects);
    assert_eq!(state.money, 75);
    assert_eq!(state.stress, 25);
    assert_eq!(state.support, 4);
    assert_eq!(fb.len(), 3);
}

#[test]
fn test_stress_threshold_warning() {
    let mut state = make_state();
    state.stress = 76;
    assert!(check_stress_threshold(&state).is_some());
}

#[test]
fn test_stress_threshold_ok() {
    let mut state = make_state();
    state.stress = 50;
    assert!(check_stress_threshold(&state).is_none());
}

#[test]
fn test_support_bonus() {
    let mut state = make_state();
    state.support = 8;
    assert!(has_support_bonus(&state));
    state.support = 7;
    assert!(!has_support_bonus(&state));
}

#[test]
fn test_debt_detection() {
    let mut state = make_state();
    assert!(!is_in_debt(&state));
    state.money = 0;
    assert!(is_in_debt(&state));
}

#[test]
fn test_job_income() {
    let mut state = make_state();
    state.current_job = Some(test_job(vec![], 50, 3));
    let fb = apply_job_income(&mut state);
    assert_eq!(state.money, 150);
    assert_eq!(state.stress, 23);
    assert!(!fb.is_empty());
}

#[test]
fn test_monthly_bills() {
    let mut state = make_state();
    state.monthly_bills = 75;
    let fb = apply_monthly_bills(&mut state);
    assert_eq!(state.money, 25);
    assert!(fb[0].contains("75"));
}

#[test]
fn test_monthly_bills_triggers_debt() {
    let mut state = make_state();
    state.monthly_bills = 200;
    let fb = apply_monthly_bills(&mut state);
    assert!(state.money < 0 || state.money == 0);
    assert!(fb.iter().any(|f| f.contains("debt")));
}

#[test]
fn test_misalignment_penalty() {
    let mut state = make_state();
    state.current_job = Some(test_job(vec!["Customer Service".to_string()], 40, 4));
    let fb = apply_job_income(&mut state);
    assert_eq!(state.money, 130);
    assert_eq!(state.stress, 27);
    assert!(fb.iter().any(|f| f.contains("Misaligned")));
}

#[test]
fn test_aligned_job_no_penalty() {
    let mut state = make_state();
    state.credentials.push("Customer Service".to_string());
    state.current_job = Some(test_job(vec!["Customer Service".to_string()], 40, 4));
    let fb = apply_job_income(&mut state);
    assert_eq!(state.money, 140);
    assert_eq!(state.stress, 24);
    assert!(!fb.iter().any(|f| f.contains("Misaligned")));
}
