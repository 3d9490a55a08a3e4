use life_roguelite::engine::game_state::GameState;
use life_roguelite::models::Stage;

#[test]
fn test_new_game_defaults() {
    let state = GameState::new("TEST".to_string());
    assert_eq!(state.current_stage, Stage::MiddleSchool);
    assert_eq!(state.current_turn, 1);
    assert_eq!(state.money, 100);
    assert_eq!(state.stress, 20);
    assert_eq!(state.support, 5);
    assert_eq!(state.time_slots, 3);
    assert!(state.credentials.is_empty());
    assert!(state.current_job.is_none());
    assert_eq!(state.seed, "TEST");
}
