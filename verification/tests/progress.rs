use b2048::moving::Merged;
use b2048::{
    finish_game_state, reset_score, score_from_merge, trigger_congrats_menu, AppState,
    Congratulation, FinishGame, Score,
};

#[test]
fn merged_carries_its_power_and_value() {
    let m = Merged::from_power(11);
    assert_eq!(m.exponent(), 11);
    assert_eq!(m.power(), 2048);
    assert_eq!(Merged::from_power(1).power(), 2);
    assert_eq!(Merged::from_power(5).power(), 32);
}

#[test]
fn score_accumulates_displayed_values() {
    let mut score = Score::default();
    assert_eq!(score.0, 0);
    let merges = vec![Merged::from_power(1), Merged::from_power(2), Merged::from_power(3)];
    score_from_merge(&mut score, &merges);
    assert_eq!(score.0, 2 + 4 + 8);
    score_from_merge(&mut score, &vec![Merged::from_power(10)]);
    assert_eq!(score.0, 14 + 1024);
    reset_score(&mut score);
    assert_eq!(score.0, 0);
}

#[test]
fn has_won_means_any_merge_ever() {
    assert!(!Score(0).has_won());
    assert!(Score(4).has_won());
}

#[test]
fn finished_game_routing() {
    assert_eq!(finish_game_state(FinishGame::Quit, &Score(99)), AppState::MainMenu);
    assert_eq!(finish_game_state(FinishGame::GameOver, &Score(8)), AppState::WonMenu);
    assert_eq!(finish_game_state(FinishGame::GameOver, &Score(0)), AppState::LostMenu);
}

#[test]
fn win_trigger_needs_fresh_flag_and_winning_power() {
    let winning = vec![Merged::from_power(3), Merged::from_power(11)];
    let ordinary = vec![Merged::from_power(3), Merged::from_power(10)];
    assert!(trigger_congrats_menu(Congratulation::NotYet, &winning));
    assert!(!trigger_congrats_menu(Congratulation::NotYet, &ordinary));
    assert!(!trigger_congrats_menu(Congratulation::Congratulated, &winning));
    assert!(!trigger_congrats_menu(Congratulation::NotYet, &Vec::new()));
}

#[test]
fn default_flag_is_not_yet() {
    assert_eq!(Congratulation::default(), Congratulation::NotYet);
    assert_eq!(AppState::default(), AppState::Loading);
}
