use pumpkin::execute::{
    score_condition_matches, score_condition_passes, store_score, ExecuteError, IntRange,
    ScoreComparison, ScoreTest,
};
use pumpkin::display_slot::DisplaySlot;
use pumpkin::packets::RenderType;
use pumpkin::scoreboard::{Scoreboard, ScoreboardObjective, ScoreboardScore};
use pumpkin::text_component::TextComponent;

fn board() -> Scoreboard {
    let mut scoreboard = Scoreboard::new();
    for name in ["points", "limit"] {
        scoreboard.add_objective(ScoreboardObjective::new(
            name.to_string(),
            TextComponent::text(name.to_string()),
            RenderType::Integer,
            None,
            "dummy".to_string(),
        ));
    }
    scoreboard.update_score(ScoreboardScore::new("Alex".to_string(), "points".to_string(), 5, None, None));
    scoreboard.update_score(ScoreboardScore::new("#max".to_string(), "limit".to_string(), 10, None, None));
    scoreboard
}

#[test]
fn range_bounds_are_inclusive() {
    let range = IntRange { min: Some(1), max: Some(5) };
    assert!(range.matches(1));
    assert!(range.matches(5));
    assert!(!range.matches(6));
    assert!(IntRange { min: None, max: None }.matches(i32::MIN));
}

#[test]
fn score_tests_compare_and_match_ranges() {
    let scoreboard = board();
    let less = ScoreTest::Compare {
        comparison: ScoreComparison::LessThan,
        source: "#max".to_string(),
        source_objective: "limit".to_string(),
    };
    assert_eq!(score_condition_matches(&scoreboard, "Alex", "points", &less), Ok(true));
    assert_eq!(score_condition_passes(&scoreboard, "Alex", "points", &less, true), Ok(false));
    let range = ScoreTest::Matches(IntRange { min: Some(6), max: None });
    assert_eq!(score_condition_matches(&scoreboard, "Alex", "points", &range), Ok(false));
    assert_eq!(score_condition_passes(&scoreboard, "Alex", "points", &range, true), Ok(true));
}

#[test]
fn missing_scores_fail_and_missing_objectives_are_errors() {
    let scoreboard = board();
    let any = ScoreTest::Matches(IntRange { min: None, max: None });
    assert_eq!(score_condition_matches(&scoreboard, "Steve", "points", &any), Ok(false));
    assert_eq!(
        score_condition_matches(&scoreboard, "Alex", "nothing", &any),
        Err(ExecuteError::ObjectiveNotFound)
    );
    let to_missing = ScoreTest::Compare {
        comparison: ScoreComparison::Equal,
        source: "#max".to_string(),
        source_objective: "nothing".to_string(),
    };
    assert_eq!(
        score_condition_matches(&scoreboard, "Alex", "points", &to_missing),
        Err(ExecuteError::ObjectiveNotFound)
    );
}

#[test]
fn storing_writes_result_or_success() {
    let mut scoreboard = board();
    scoreboard.set_display_objective(DisplaySlot::Sidebar, Some("points"));
    let targets = vec!["Alex".to_string(), "Steve".to_string()];
    let packets = store_score(&mut scoreboard, &targets, "points", false, true, 42);
    assert_eq!(packets.len(), 2);
    assert_eq!(scoreboard.get_player_score_info("Alex", "points").unwrap().value, 42);
    assert_eq!(scoreboard.get_player_score_info("Steve", "points").unwrap().value, 42);
    store_score(&mut scoreboard, &targets, "points", true, false, 42);
    assert_eq!(scoreboard.get_player_score_info("Alex", "points").unwrap().value, 0);
    store_score(&mut scoreboard, &targets, "points", true, true, 42);
    assert_eq!(scoreboard.get_player_score_info("Steve", "points").unwrap().value, 1);
    let mut hidden = board();
    assert!(store_score(&mut hidden, &targets, "points", false, true, 1).is_empty());
    assert_eq!(hidden.get_player_score_info("Steve", "points").unwrap().value, 1);
    let none = store_score(&mut scoreboard, &targets, "nothing", false, true, 3);
    assert!(none.is_empty());
    assert!(scoreboard.get_player_score_info("Alex", "nothing").is_none());
}
