use life_roguelite::engine::event_deck::{available_events, draw_event};
use life_roguelite::engine::rng::create_rng;
use life_roguelite::models::{EventCard, Rarity, Stage};

fn card(id: &str, title: &str, stages: Vec<Stage>, rarity: Rarity) -> EventCard {
    EventCard {
        id: id.to_string(),
        title: title.to_string(),
        flavor_text: "Test".to_string(),
        stages,
        rarity,
        options: vec![],
    }
}

fn make_test_events() -> Vec<EventCard> {
    vec![
        card("evt_1", "Event 1", vec![Stage::MiddleSchool], Rarity::Common),
        card("evt_2", "Event 2", vec![Stage::MiddleSchool, Stage::HighSchool], Rarity::Uncommon),
        card("evt_3", "Event 3", vec![Stage::HighSchool], Rarity::Rare),
        card("evt_4", "Event 4", vec![Stage::MiddleSchool], Rarity::Common),
    ]
}

#[test]
fn test_filter_by_stage() {
    let events = make_test_events();
    let available = available_events(&events, &Stage::MiddleSchool, &[]);
    assert_eq!(available.len(), 3, "Should find 3 middle school events");

    let available = available_events(&events, &Stage::HighSchool, &[]);
    assert_eq!(available.len(), 2, "Should find 2 high school events");
}

#[test]
fn test_no_repeat_draw() {
    let events = make_test_events();
    let mut rng = create_rng("TESTDRAW");
    let used = vec!["evt_1".to_string()];

    for _ in 0..20 {
        let card = draw_event(&events, &Stage::MiddleSchool, &used, &mut rng);
        assert!(card.is_some());
        assert_ne!(card.unwrap().id, "evt_1", "Used card should never be drawn");
    }
}

#[test]
fn test_empty_deck_returns_none() {
    let events = make_test_events();
    let mut rng = create_rng("EMPTY");
    let used = vec!["evt_1".to_string(), "evt_2".to_string(), "evt_4".to_string()];
    let card = draw_event(&events, &Stage::MiddleSchool, &used, &mut rng);
    assert!(card.is_none(), "Should return None when all cards used");
}

#[test]
fn test_deterministic_draw() {
    let events = make_test_events();
    let mut rng1 = create_rng("SAME_SEED");
    let mut rng2 = create_rng("SAME_SEED");

    let card1 = draw_event(&events, &Stage::MiddleSchool, &[], &mut rng1);
    let card2 = draw_event(&events, &Stage::MiddleSchool, &[], &mut rng2);

    assert_eq!(card1.unwrap().id, card2.unwrap().id, "Same seed should draw same card");
}

#[test]
fn test_rarity_weighting() {
    let events = make_test_events();
    let mut common_count = 0;
    let mut uncommon_count = 0;

    for i in 0..100 {
        let mut rng_iter = create_rng(&format!("RARITY{}", i));
        if let Some(card) = draw_event(&events, &Stage::MiddleSchool, &[], &mut rng_iter) {
            match card.rarity {
                Rarity::Common => common_count += 1,
                Rarity::Uncommon => uncommon_count += 1,
                Rarity::Rare => {}
            }
        }
    }

    assert!(
        common_count > uncommon_count,
        "Common cards ({}) should be drawn more often than uncommon ({})",
        common_count,
        uncommon_count
    );
}
