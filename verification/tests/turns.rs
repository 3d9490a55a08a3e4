use life_roguelite::data_loader::GameData;
use life_roguelite::engine::game_state::GameState;
use life_roguelite::engine::rng::create_rng;
use life_roguelite::engine::turn_runner::{
    check_and_transition_stage, find_action, find_decision, find_job, impact_string, is_game_over,
    next_stage, run_turn, run_turn_with_event, stage_end_turn, stat_label,
    try_run_turn_with_event, PlayerChoices,
};
use life_roguelite::models::action::Action;
use life_roguelite::models::decision::{Decision, DecisionOption};
use life_roguelite::models::event::{EventOption, StatEffect, StatType};
use life_roguelite::models::{EventCard, Job, Rarity, Stage};

fn eff(stat: StatType, delta: i32) -> StatEffect {
    StatEffect { stat, delta, tag: None }
}

fn act(id: &str, effects: Vec<StatEffect>, hook: Option<&str>) -> Action {
    Action {
        id: id.to_string(),
        label: id.to_string(),
        description: String::new(),
        stages: vec![Stage::MiddleSchool],
        effects,
        time_cost: 1,
        special_effect: hook.map(|h| h.to_string()),
    }
}

fn opt(label: &str, effects: Vec<StatEffect>) -> DecisionOption {
    DecisionOption {
        label: label.to_string(),
        description: String::new(),
        effects,
        grants_tag: None,
        sets_bills: None,
        sets_job: None,
        requires_tag: None,
    }
}

fn card(id: &str, stage: Stage, effects: Vec<StatEffect>) -> EventCard {
    EventCard {
        id: id.to_string(),
        title: id.to_string(),
        flavor_text: String::new(),
        stages: vec![stage],
        rarity: Rarity::Common,
        options: vec![EventOption {
            label: "Only".to_string(),
            description: String::new(),
            effects,
            delayed_effects: None,
            requires_support: None,
        }],
    }
}

fn waiter() -> Job {
    Job {
        id: "job_waiter".to_string(),
        title: "Waiter".to_string(),
        required_tags: vec![],
        recommended_tags: vec!["Customer Service".to_string()],
        pay_per_turn: 40,
        stress_per_turn: 4,
        growth_rate: 0,
        growth_tag: None,
        stages: vec![Stage::EarlyAdult],
        description: String::new(),
    }
}

fn content() -> GameData {
    let mut career = opt("Take the job", vec![eff(StatType::Money, -10), eff(StatType::Stress, 1)]);
    career.grants_tag = Some("Customer Service".to_string());
    career.sets_bills = Some(60);
    career.sets_job = Some("job_waiter".to_string());
    let mut home = opt("Stay home", vec![]);
    home.sets_bills = Some(0);
    home.sets_job = Some("job_unknown".to_string());
    GameData {
        events: vec![
            card("evt_a", Stage::MiddleSchool, vec![eff(StatType::Money, -5)]),
            card("evt_b", Stage::MiddleSchool, vec![eff(StatType::Support, 1)]),
            card("evt_z", Stage::EarlyAdult, vec![eff(StatType::Stress, 3)]),
        ],
        actions: vec![
            act("act_study", vec![eff(StatType::Stress, 3), eff(StatType::TimeSlots, -1)], None),
            act("act_save", vec![eff(StatType::Money, -20)], Some("emergency_fund_deposit")),
            act("act_budget", vec![], Some("reduce_bills")),
            act("act_odd", vec![eff(StatType::Support, 1)], Some("no_such_hook")),
            act("act_study", vec![eff(StatType::Money, 1000)], None),
        ],
        decisions: vec![
            Decision {
                id: "dec_career".to_string(),
                stage: Stage::EarlyAdult,
                turn: 14,
                prompt: "Your first job".to_string(),
                options: vec![career, home],
            },
            Decision {
                id: "dec_career".to_string(),
                stage: Stage::EarlyAdult,
                turn: 15,
                prompt: "Shadowed".to_string(),
                options: vec![],
            },
        ],
        jobs: vec![waiter()],
        endings: vec![],
    }
}

fn choices(actions: Vec<&str>, decision: &str, index: usize, event: Option<usize>) -> PlayerChoices {
    PlayerChoices {
        action_ids: actions.into_iter().map(|a| a.to_string()).collect(),
        decision_id: decision.to_string(),
        decision_option_index: index,
        event_option_index: event,
    }
}

#[test]
fn stage_boundaries_are_closed_ranges() {
    assert_eq!(stage_end_turn(&Stage::MiddleSchool), 4);
    assert_eq!(stage_end_turn(&Stage::HighSchool), 10);
    assert_eq!(stage_end_turn(&Stage::PostHigh), 13);
    assert_eq!(stage_end_turn(&Stage::EarlyAdult), 19);
    assert_eq!(next_stage(&Stage::MiddleSchool), Some(Stage::HighSchool));
    assert_eq!(next_stage(&Stage::HighSchool), Some(Stage::PostHigh));
    assert_eq!(next_stage(&Stage::PostHigh), Some(Stage::EarlyAdult));
    assert_eq!(next_stage(&Stage::EarlyAdult), None);
}

#[test]
fn stage_names() {
    assert_eq!(Stage::MiddleSchool.to_string(), "Middle School");
    assert_eq!(Stage::HighSchool.to_string(), "High School");
    assert_eq!(Stage::PostHigh.to_string(), "Post-High");
    assert_eq!(Stage::EarlyAdult.name(), "Early Adult");
}

#[test]
fn transition_resets_time_slots() {
    let mut state = GameState::new("T".to_string());
    state.current_turn = 5;
    state.time_slots = 0;
    assert!(check_and_transition_stage(&mut state));
    assert_eq!(state.current_stage, Stage::HighSchool);
    assert_eq!(state.time_slots, 3);
    assert_eq!(state.current_turn, 5);
}

#[test]
fn no_transition_on_the_last_turn_of_a_stage() {
    let mut state = GameState::new("T".to_string());
    state.current_turn = 4;
    state.time_slots = 1;
    assert!(!check_and_transition_stage(&mut state));
    assert_eq!(state.current_stage, Stage::MiddleSchool);
    assert_eq!(state.time_slots, 1);
}

#[test]
fn no_stage_after_the_last() {
    let mut state = GameState::new("T".to_string());
    state.current_stage = Stage::EarlyAdult;
    state.current_turn = 20;
    state.time_slots = 1;
    assert!(!check_and_transition_stage(&mut state));
    assert_eq!(state.current_stage, Stage::EarlyAdult);
    assert_eq!(state.time_slots, 1);
    assert!(is_game_over(&state));
}

#[test]
fn game_ends_after_turn_19() {
    let mut state = GameState::new("T".to_string());
    state.current_stage = Stage::EarlyAdult;
    state.current_turn = 19;
    assert!(!is_game_over(&state));
    state.current_turn = 20;
    assert!(is_game_over(&state));
    assert_eq!(state.total_turns, 19);
}

#[test]
fn lookups_take_the_first_match() {
    let data = content();
    assert_eq!(find_action(&data.actions, &"act_study".to_string()), Some(0));
    assert_eq!(find_action(&data.actions, &"act_odd".to_string()), Some(3));
    assert_eq!(find_action(&data.actions, &"act_none".to_string()), None);
    assert_eq!(find_decision(&data.decisions, &"dec_career".to_string()), Some(0));
    assert_eq!(find_decision(&data.decisions, &"".to_string()), None);
    assert_eq!(find_job(&data.jobs, &"job_waiter".to_string()), Some(0));
    assert_eq!(find_job(&[], &"job_waiter".to_string()), None);
}

#[test]
fn impact_summary_names_each_effect() {
    assert_eq!(stat_label(StatType::TimeSlots), "TimeSlots");
    assert_eq!(impact_string(&[]), "");
    assert_eq!(impact_string(&[eff(StatType::Money, -10)]), "Money -10");
    assert_eq!(
        impact_string(&[
            eff(StatType::Money, 5),
            eff(StatType::Stress, 0),
            eff(StatType::Support, -1),
            eff(StatType::TimeSlots, 2),
            StatEffect { stat: StatType::Credentials, delta: 0, tag: Some("CPR".to_string()) },
        ]),
        "Money +5, Stress +0, Support -1, TimeSlots +2, Credentials +0"
    );
}

#[test]
fn full_turn_in_the_last_stage() {
    let data = content();
    let mut state = GameState::new("FULL".to_string());
    state.current_stage = Stage::EarlyAdult;
    state.current_turn = 14;
    state.monthly_bills = 15;
    let mut rng = create_rng("FULL");
    let result = run_turn(
        &mut state,
        &choices(
            vec!["act_study", "act_none", "act_save", "act_budget", "act_odd"],
            "dec_career",
            0,
            Some(0),
        ),
        &data,
        &mut rng,
    );
    assert_eq!(
        result.feedback,
        vec![
            "😰 Stress +3",
            "⏰ Time -1",
            "💰 Money -20",
            "🏦 Emergency fund: +$20 (total: $20)",
            "📉 Bills reduced by $10 (now $5)",
            "🤝 Support +1",
            "💰 Money -10",
            "😰 Stress +1",
            "📚 Earned: Customer Service",
            "🏠 Monthly bills set to $60",
            "💼 Started working as: Waiter",
            "😰 Stress +3",
            "💼 Waiter pay: +$40",
            "😰 Work stress: +4",
            "🏠 Bills: -$60",
        ]
    );
    assert_eq!(result.event_drawn.as_ref().unwrap().id, "evt_z");
    assert!(!result.stage_transitioned);
    assert_eq!(result.new_stage, None);
    assert_eq!(result.old_stage, None);
    assert_eq!(result.stress_warning, None);
    assert_eq!(state.money, 100 - 20 - 10 + 40 - 60);
    assert_eq!(state.stress, 20 + 3 + 1 + 3 + 4);
    assert_eq!(state.support, 6);
    assert_eq!(state.time_slots, 2);
    assert_eq!(state.emergency_fund, 20);
    assert_eq!(state.monthly_bills, 60);
    assert_eq!(state.credentials, vec!["Customer Service"]);
    assert_eq!(state.current_job.as_ref().unwrap().id, "job_waiter");
    assert_eq!(state.used_event_ids, vec!["evt_z"]);
    assert_eq!(state.current_turn, 15);
    assert_eq!(state.decision_log.len(), 1);
    assert_eq!(state.decision_log[0].turn, 14);
    assert_eq!(state.decision_log[0].stage, Stage::EarlyAdult);
    assert_eq!(state.decision_log[0].description, "Your first job: Take the job");
    assert_eq!(state.decision_log[0].impact, "Money -10, Stress +1");
    assert_eq!(rng.word_pos, 2);
}

#[test]
fn debt_is_covered_by_the_fund_after_the_bills() {
    let data = content();
    let mut state = GameState::new("DEBT".to_string());
    state.current_stage = Stage::EarlyAdult;
    state.current_turn = 15;
    state.money = 30;
    state.monthly_bills = 50;
    state.emergency_fund = 25;
    state.stress = 80;
    let mut rng = create_rng("DEBT");
    let result =
        run_turn_with_event(&mut state, &choices(vec![], "none", 0, None), &data, &mut rng, None);
    assert_eq!(
        result.feedback,
        vec![
            "🏠 Bills: -$50",
            "⚠️ You're in debt! Bills exceeded your cash.",
            "🏦 Emergency fund covered $20 (remaining: $5)",
            "✅ Debt cleared by emergency fund!",
            "⚠️ Stress is dangerously high! Risk of missed day and degraded outcomes.",
        ]
    );
    assert_eq!(state.money, 0);
    assert_eq!(state.emergency_fund, 5);
    assert!(result.stress_warning.is_some());
    assert_eq!(state.used_event_ids, vec!["evt_z"]);
}

#[test]
fn bills_are_not_taken_before_the_last_stage() {
    let data = content();
    let mut state = GameState::new("EARLY".to_string());
    state.monthly_bills = 50;
    state.current_job = Some(waiter());
    let mut rng = create_rng("EARLY");
    let pre = card("evt_pre", Stage::PostHigh, vec![eff(StatType::Money, 7)]);
    let result = run_turn_with_event(
        &mut state,
        &choices(vec![], "none", 0, Some(0)),
        &data,
        &mut rng,
        Some(pre),
    );
    assert_eq!(
        result.feedback,
        vec![
            "💰 Money +7",
            "💼 Waiter pay: +$30",
            "😰 Work stress: +7",
            "⚠️ Misaligned — missing: Customer Service",
        ]
    );
    assert_eq!(state.money, 137);
    assert_eq!(result.event_drawn.unwrap().id, "evt_pre");
    assert_eq!(state.used_event_ids, vec!["evt_pre"]);
    assert_eq!(rng.word_pos, 0);
}

#[test]
fn stage_advances_after_its_last_turn() {
    let data = content();
    let mut state = GameState::new("ADV".to_string());
    state.current_turn = 4;
    state.time_slots = 0;
    let mut rng = create_rng("ADV");
    let result = run_turn(&mut state, &choices(vec![], "none", 0, None), &data, &mut rng);
    assert_eq!(result.feedback, vec!["🎓 Advancing to High School!"]);
    assert!(result.stage_transitioned);
    assert_eq!(result.old_stage, Some(Stage::MiddleSchool));
    assert_eq!(result.new_stage, Some(Stage::HighSchool));
    assert_eq!(state.current_stage, Stage::HighSchool);
    assert_eq!(state.current_turn, 5);
    assert_eq!(state.time_slots, 3);
    assert_eq!(state.used_event_ids.len(), 1);
}

#[test]
fn unknown_ids_and_indices_are_passed_over() {
    let data = content();
    let mut state = GameState::new("SKIP".to_string());
    state.current_stage = Stage::PostHigh;
    state.current_turn = 11;
    let mut rng = create_rng("SKIP");
    let result = run_turn(
        &mut state,
        &choices(vec!["nothing", ""], "dec_career", 2, Some(0)),
        &data,
        &mut rng,
    );
    assert!(result.feedback.is_empty());
    assert!(result.event_drawn.is_none());
    assert!(state.decision_log.is_empty());
    assert!(state.used_event_ids.is_empty());
    assert_eq!(state.current_turn, 12);
    assert_eq!(state.money, 100);
    assert_eq!(rng.word_pos, 0);
}

#[test]
fn option_without_a_known_job_sets_no_job() {
    let data = content();
    let mut state = GameState::new("HOME".to_string());
    state.current_stage = Stage::PostHigh;
    state.current_turn = 12;
    state.monthly_bills = 30;
    let mut rng = create_rng("HOME");
    let result = run_turn(&mut state, &choices(vec![], "dec_career", 1, None), &data, &mut rng);
    assert_eq!(result.feedback, vec!["🏠 Living rent-free with family"]);
    assert_eq!(state.monthly_bills, 0);
    assert!(state.current_job.is_none());
    assert_eq!(state.decision_log[0].description, "Your first job: Stay home");
    assert_eq!(state.decision_log[0].impact, "");
}

#[test]
fn event_option_out_of_range_still_marks_the_card() {
    let data = content();
    let mut state = GameState::new("RANGE".to_string());
    let mut rng = create_rng("RANGE");
    let result = run_turn(&mut state, &choices(vec![], "none", 0, Some(1)), &data, &mut rng);
    assert!(result.feedback.is_empty());
    assert!(result.event_drawn.is_some());
    assert_eq!(state.used_event_ids.len(), 1);
    assert_eq!(state.money, 100);
    assert_eq!(state.support, 5);
}

#[test]
fn a_card_handed_in_twice_is_listed_once() {
    let data = content();
    let mut state = GameState::new("TWICE".to_string());
    let mut rng = create_rng("TWICE");
    let pre = card("evt_pre", Stage::MiddleSchool, vec![]);
    run_turn_with_event(&mut state, &choices(vec![], "none", 0, None), &data, &mut rng, Some(pre.clone()));
    run_turn_with_event(&mut state, &choices(vec![], "none", 0, None), &data, &mut rng, Some(pre));
    assert_eq!(state.used_event_ids, vec!["evt_pre"]);
    assert_eq!(state.current_turn, 3);
}

#[test]
fn cards_do_not_repeat_and_the_deck_runs_out() {
    let data = content();
    let mut state = GameState::new("DECK".to_string());
    let mut rng = create_rng("DECK");
    let mut drawn = Vec::new();
    for _ in 0..4 {
        let result = run_turn(&mut state, &choices(vec![], "none", 0, None), &data, &mut rng);
        drawn.push(result.event_drawn.map(|c| c.id));
    }
    assert!(drawn[0].is_some());
    assert!(drawn[1].is_some());
    assert_ne!(drawn[0], drawn[1]);
    assert_eq!(drawn[2], None);
    assert_eq!(drawn[3], None);
    assert_eq!(state.used_event_ids.len(), 2);
    assert_eq!(rng.word_pos, 4);
}

#[test]
fn same_seed_same_game() {
    let data = content();
    let mut logs = Vec::new();
    for _ in 0..2 {
        let mut state = GameState::new("REPLAY".to_string());
        let mut rng = create_rng("REPLAY");
        let mut ids = Vec::new();
        for _ in 0..3 {
            let result =
                run_turn(&mut state, &choices(vec!["act_study"], "none", 0, Some(0)), &data, &mut rng);
            ids.push(result.event_drawn.map(|c| c.id));
        }
        logs.push((ids, state.money, state.stress, state.support));
    }
    assert_eq!(logs[0], logs[1]);
}

#[test]
fn a_whole_game_runs_to_its_end() {
    let data = content();
    let mut state = GameState::new("WHOLE".to_string());
    let mut rng = create_rng("WHOLE");
    let mut stages = vec![state.current_stage];
    let mut turns = 0;
    while !is_game_over(&state) {
        let before = state.used_event_ids.len();
        let result = run_turn(&mut state, &choices(vec!["act_study"], "none", 0, Some(0)), &data, &mut rng);
        turns += 1;
        assert!(state.used_event_ids.len() <= before + 1);
        assert!((0..=100).contains(&state.stress));
        assert!((0..=10).contains(&state.support));
        assert!(state.time_slots <= 4);
        if result.stage_transitioned {
            stages.push(state.current_stage);
            assert_eq!(result.new_stage, Some(state.current_stage));
        }
    }
    assert_eq!(turns, 19);
    assert_eq!(state.current_turn, 20);
    assert_eq!(
        stages,
        vec![Stage::MiddleSchool, Stage::HighSchool, Stage::PostHigh, Stage::EarlyAdult]
    );
    let mut unique = state.used_event_ids.clone();
    unique.sort();
    unique.dedup();
    assert_eq!(unique.len(), state.used_event_ids.len());
    assert!(state.used_event_ids.len() <= 19);
}

#[test]
fn a_turn_that_leaves_the_range_changes_nothing() {
    let data = content();
    let mut state = GameState::new("OVER".to_string());
    state.money = i32::MAX - 500;
    let mut rng = create_rng("OVER");
    let result = try_run_turn_with_event(
        &mut state,
        &choices(vec!["act_odd"], "none", 0, None),
        &data,
        &mut rng,
        Some(card("evt_big", Stage::MiddleSchool, vec![eff(StatType::Money, 501)])),
    );
    assert!(result.is_some());
    assert_eq!(state.money, i32::MAX - 500);
    let result = try_run_turn_with_event(
        &mut state,
        &choices(vec!["act_odd"], "none", 0, Some(0)),
        &data,
        &mut rng,
        Some(card("evt_big2", Stage::MiddleSchool, vec![eff(StatType::Money, 501)])),
    );
    assert!(result.is_none());
    assert_eq!(state.money, i32::MAX - 500);
    assert_eq!(state.support, 6);
    assert_eq!(state.current_turn, 2);
    assert_eq!(state.used_event_ids, vec!["evt_big"]);
    assert_eq!(rng.word_pos, 0);
}

#[test]
fn a_drawn_card_that_leaves_the_range_gives_the_stream_back() {
    let mut data = content();
    data.events = vec![card("evt_huge", Stage::MiddleSchool, vec![eff(StatType::Money, i32::MAX)])];
    let mut state = GameState::new("BACK".to_string());
    let mut rng = create_rng("BACK");
    rng.next_u64();
    let result = try_run_turn_with_event(
        &mut state,
        &choices(vec!["act_save"], "none", 0, Some(0)),
        &data,
        &mut rng,
        None,
    );
    assert!(result.is_none());
    assert_eq!(rng.word_pos, 2);
    assert_eq!(state.money, 100);
    assert_eq!(state.emergency_fund, 0);
    assert!(state.used_event_ids.is_empty());
    let result = try_run_turn_with_event(
        &mut state,
        &choices(vec!["act_save"], "none", 0, None),
        &data,
        &mut rng,
        None,
    );
    assert!(result.is_some());
    assert_eq!(rng.word_pos, 4);
    assert_eq!(state.emergency_fund, 20);
}

#[test]
fn fund_and_turn_at_the_edge_of_the_range() {
    let data = content();
    let mut state = GameState::new("EDGE".to_string());
    state.emergency_fund = i32::MAX - 19;
    let mut rng = create_rng("EDGE");
    assert!(try_run_turn_with_event(
        &mut state,
        &choices(vec!["act_save"], "none", 0, None),
        &data,
        &mut rng,
        None
    )
    .is_none());
    state.emergency_fund = i32::MAX - 20;
    assert!(try_run_turn_with_event(
        &mut state,
        &choices(vec!["act_save"], "none", 0, None),
        &data,
        &mut rng,
        None
    )
    .is_some());
    assert_eq!(state.emergency_fund, i32::MAX);
    state.current_turn = u32::MAX;
    assert!(try_run_turn_with_event(
        &mut state,
        &choices(vec![], "none", 0, None),
        &data,
        &mut rng,
        None
    )
    .is_none());
    assert_eq!(state.current_turn, u32::MAX);
}
