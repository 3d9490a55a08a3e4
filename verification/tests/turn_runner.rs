use life_roguelite::data_loader::GameData;
use life_roguelite::engine::game_state::GameState;
use life_roguelite::engine::rng::create_rng;
use life_roguelite::engine::stat_calculator::apply_emergency_fund;
use life_roguelite::engine::turn_runner::{
    check_and_transition_stage, is_game_over, run_turn, PlayerChoices,
};
use life_roguelite::models::action::Action;
use life_roguelite::models::decision::{Decision, DecisionOption};
use life_roguelite::models::event::{EventOption, StatEffect, StatType};
use life_roguelite::models::{EventCard, Job, Rarity, Stage};

fn effect(stat: StatType, delta: i32) -> StatEffect {
    StatEffect { stat, delta, tag: None }
}

fn action(id: &str, effects: Vec<StatEffect>, special_effect: Option<&str>) -> Action {
    Action {
        id: id.to_string(),
        label: id.to_string(),
        description: "An action".to_string(),
        stages: vec![Stage::MiddleSchool, Stage::HighSchool, Stage::PostHigh, Stage::EarlyAdult],
        effects,
        time_cost: 1,
        special_effect: special_effect.map(|s| s.to_string()),
    }
}

fn option(label: &str, effects: Vec<StatEffect>) -> DecisionOption {
    DecisionOption {
        label: label.to_string(),
        description: "An option".to_string(),
        effects,
        grants_tag: None,
        sets_bills: None,
        sets_job: None,
        requires_tag: None,
    }
}

fn decision(id: &str, stage: Stage, turn: u32, options: Vec<DecisionOption>) -> Decision {
    Decision { id: id.to_string(), stage, turn, prompt: "Choose".to_string(), options }
}

fn event(id: &str, stage: Stage, rarity: Rarity) -> EventCard {
    EventCard {
        id: id.to_string(),
        title: id.to_string(),
        flavor_text: "Something happens".to_string(),
        stages: vec![stage],
        rarity,
        options: vec![
            EventOption {
                label: "Deal with it".to_string(),
                description: "Costs a little".to_string(),
                effects: vec![effect(StatType::Money, -5), effect(StatType::Stress, 2)],
                delayed_effects: None,
                requires_support: None,
            },
            EventOption {
                label: "Ask for help".to_string(),
                description: "Needs support".to_string(),
                effects: vec![effect(StatType::Support, -1)],
                delayed_effects: None,
                requires_support: Some(3),
            },
        ],
    }
}

fn load_test_data() -> GameData {
    let mut tech_club = option("Tech Club", vec![effect(StatType::Stress, 2)]);
    tech_club.grants_tag = Some("IT Fundamentals".to_string());
    let mut fast_food = option("Fast Food Crew", vec![]);
    fast_food.sets_job = Some("job_fast_food".to_string());
    let mut solo = option("Rent alone", vec![]);
    solo.sets_bills = Some(75);
    let mut roommates = option("Get roommates", vec![]);
    roommates.sets_bills = Some(40);
    let mut family = option("Stay with family", vec![]);
    family.sets_bills = Some(0);
    GameData {
        events: vec![
            event("evt_ms_1", Stage::MiddleSchool, Rarity::Common),
            event("evt_ms_2", Stage::MiddleSchool, Rarity::Common),
            event("evt_ms_3", Stage::MiddleSchool, Rarity::Uncommon),
            event("evt_ms_4", Stage::MiddleSchool, Rarity::Rare),
            event("evt_hs_1", Stage::HighSchool, Rarity::Common),
            event("evt_ph_1", Stage::PostHigh, Rarity::Common),
            event("evt_ea_1", Stage::EarlyAdult, Rarity::Common),
        ],
        actions: vec![
            action("act_study", vec![effect(StatType::Stress, 3)], None),
            action("act_rest", vec![effect(StatType::Stress, -5)], None),
            action(
                "act_clubs",
                vec![effect(StatType::Support, 1), effect(StatType::Stress, 2)],
                None,
            ),
            action("act_save", vec![effect(StatType::Money, -20)], Some("emergency_fund_deposit")),
            action("act_budget", vec![], Some("reduce_bills")),
        ],
        decisions: vec![
            decision(
                "dec_club_choice_a",
                Stage::MiddleSchool,
                1,
                vec![
                    tech_club,
                    option("Sports", vec![effect(StatType::Support, 1)]),
                ],
            ),
            decision(
                "dec_effort_a",
                Stage::MiddleSchool,
                2,
                vec![
                    option("All in", vec![effect(StatType::Stress, 10)]),
                    option("Balanced", vec![effect(StatType::Stress, 3)]),
                ],
            ),
            decision("dec_housing_c", Stage::PostHigh, 12, vec![solo, roommates, family]),
            decision("dec_first_job_d", Stage::EarlyAdult, 14, vec![fast_food]),
        ],
        jobs: vec![Job {
            id: "job_fast_food".to_string(),
            title: "Fast Food Crew".to_string(),
            required_tags: vec![],
            recommended_tags: vec!["Customer Service".to_string()],
            pay_per_turn: 40,
            stress_per_turn: 4,
            growth_rate: 0,
            growth_tag: None,
            stages: vec![Stage::EarlyAdult],
            description: "Flipping burgers".to_string(),
        }],
        endings: vec![],
    }
}

#[test]
fn test_run_single_turn() {
    let data = load_test_data();
    let mut state = GameState::new("TURN_TEST".to_string());
    let mut rng = create_rng("TURN_TEST");

    let choices = PlayerChoices {
        action_ids: vec!["act_study".to_string(), "act_rest".to_string()],
        decision_id: "dec_club_choice_a".to_string(),
        decision_option_index: 0,
        event_option_index: Some(0),
    };

    let result = run_turn(&mut state, &choices, &data, &mut rng);

    assert_eq!(state.current_turn, 2);
    assert!(!result.feedback.is_empty(), "Should have feedback messages");
    assert!(result.event_drawn.is_some(), "Should have drawn an event card");
    assert!(!state.used_event_ids.is_empty(), "Should track used event");
    assert!(
        state.credentials.contains(&"IT Fundamentals".to_string()),
        "Tech Club should grant IT Fundamentals"
    );
}

#[test]
fn test_run_three_turns() {
    let data = load_test_data();
    let mut state = GameState::new("THREE_TURNS".to_string());
    let mut rng = create_rng("THREE_TURNS");

    for turn in 0..3 {
        let choices = PlayerChoices {
            action_ids: vec!["act_study".to_string()],
            decision_id: if turn == 0 { "dec_club_choice_a" } else { "dec_effort_a" }.to_string(),
            decision_option_index: 1,
            event_option_index: Some(0),
        };

        let result = run_turn(&mut state, &choices, &data, &mut rng);
        assert!(!result.feedback.is_empty(), "Turn {} should produce feedback", turn + 1);
    }

    assert_eq!(state.current_turn, 4, "Should be on turn 4 after 3 turns");
    assert_eq!(state.used_event_ids.len(), 3, "Should have used 3 event cards");
    let mut unique = state.used_event_ids.clone();
    unique.sort();
    unique.dedup();
    assert_eq!(unique.len(), state.used_event_ids.len(), "No event should repeat");
}

#[test]
fn test_stage_transition() {
    let mut state = GameState::new("STAGE".to_string());
    state.current_turn = 5;
    let transitioned = check_and_transition_stage(&mut state);
    assert!(transitioned, "Should transition from Middle School");
    assert_eq!(state.current_stage, Stage::HighSchool);
}

#[test]
fn test_game_over() {
    let mut state = GameState::new("OVER".to_string());
    state.current_turn = 20;
    assert!(is_game_over(&state));

    state.current_turn = 19;
    assert!(!is_game_over(&state));
}

#[test]
fn test_stats_clamp_during_turn() {
    let data = load_test_data();
    let mut state = GameState::new("CLAMP".to_string());
    let mut rng = create_rng("CLAMP");

    state.stress = 95;

    let choices = PlayerChoices {
        action_ids: vec!["act_clubs".to_string()],
        decision_id: "dec_effort_a".to_string(),
        decision_option_index: 0,
        event_option_index: Some(0),
    };

    let result = run_turn(&mut state, &choices, &data, &mut rng);

    assert!(state.stress <= 100, "Stress should clamp at 100, got {}", state.stress);
    assert!(result.stress_warning.is_some(), "Should have stress warning at > 75");
}

#[test]
fn test_decision_sets_job() {
    let data = load_test_data();
    let mut state = GameState::new("JOB_TEST".to_string());
    let mut rng = create_rng("JOB_TEST");

    state.current_stage = Stage::EarlyAdult;
    state.current_turn = 14;

    let choices = PlayerChoices {
        action_ids: vec!["act_rest".to_string()],
        decision_id: "dec_first_job_d".to_string(),
        decision_option_index: 0,
        event_option_index: Some(0),
    };

    let result = run_turn(&mut state, &choices, &data, &mut rng);

    assert!(state.current_job.is_some(), "Should have a job assigned");
    assert_eq!(state.current_job.as_ref().unwrap().id, "job_fast_food");
    assert!(result.feedback.iter().any(|f| f.contains("Fast Food")));
}

#[test]
fn test_decision_sets_bills() {
    let data = load_test_data();
    let mut state = GameState::new("BILLS_TEST".to_string());
    let mut rng = create_rng("BILLS_TEST");

    state.current_stage = Stage::PostHigh;
    state.current_turn = 12;

    let choices = PlayerChoices {
        action_ids: vec!["act_rest".to_string()],
        decision_id: "dec_housing_c".to_string(),
        decision_option_index: 1,
        event_option_index: Some(0),
    };

    run_turn(&mut state, &choices, &data, &mut rng);

    assert_eq!(state.monthly_bills, 40, "Monthly bills should be set to $40");
}

#[test]
fn test_emergency_fund() {
    let mut state = GameState::new("EFUND_TEST".to_string());
    state.current_stage = Stage::EarlyAdult;
    state.money = -20;
    state.emergency_fund = 50;

    let msgs = apply_emergency_fund(&mut state);

    assert!(state.money >= 0, "Emergency fund should cover debt");
    assert_eq!(state.emergency_fund, 30, "Fund should be reduced by $20");
    assert!(!msgs.is_empty(), "Should produce feedback");
}
