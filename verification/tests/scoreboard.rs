use pumpkin::criteria::{
    default_render_type_for_criterion, is_valid_criterion, statistic_criterion, NamedColor,
    StatisticCategory,
};
use pumpkin::display_slot::{display_slot_from_name, display_slot_name, DisplaySlot};
use pumpkin::packets::RenderType;
use pumpkin::scoreboard::{Scoreboard, ScoreboardObjective, ScoreboardScore};
use pumpkin::scoreboard_data::ScoreboardData;
use pumpkin::team::{CollisionRule, NameTagVisibility, Team};
use pumpkin::text_component::{NumberFormat, TextComponent};

#[test]
fn accepts_modern_statistic_criteria() {
    assert!(is_valid_criterion("minecraft.custom:minecraft.sneak_time"));
    assert!(is_valid_criterion("minecraft.custom:minecraft.boat_one_cm"));
    assert!(is_valid_criterion(
        "minecraft.custom:minecraft.interact_with_anvil"
    ));
    assert!(!is_valid_criterion("stat.custom.sneakTime"));
    assert!(!is_valid_criterion("minecraft.custom:"));
}

#[test]
fn maps_custom_statistics_to_vanilla_criteria() {
    assert_eq!(
        statistic_criterion(StatisticCategory::Custom, Some("InteractWithAnvil")).as_deref(),
        Some("minecraft.custom:minecraft.interact_with_anvil")
    );
    assert_eq!(statistic_criterion(StatisticCategory::Mined, Some("Stone")), None);
}

#[test]
fn health_renders_as_hearts() {
    assert_eq!(default_render_type_for_criterion("health"), RenderType::Hearts);
    assert_eq!(default_render_type_for_criterion("dummy"), RenderType::Integer);
}

#[test]
fn display_slot_names_round_trip() {
    for slot in [DisplaySlot::List, DisplaySlot::Sidebar, DisplaySlot::BelowName, DisplaySlot::TeamRed] {
        assert_eq!(display_slot_from_name(&display_slot_name(slot)), Some(slot));
    }
    assert_eq!(display_slot_name(DisplaySlot::TeamLightPurple), "sidebar.team.light_purple");
    assert_eq!(display_slot_from_name("nowhere"), None);
}

#[test]
fn team_rule_names_round_trip() {
    for v in [
        NameTagVisibility::Always,
        NameTagVisibility::Never,
        NameTagVisibility::HideForOtherTeams,
        NameTagVisibility::HideForOwnTeam,
    ] {
        assert_eq!(NameTagVisibility::from_name(v.to_str()), v);
    }
    for r in [
        CollisionRule::Always,
        CollisionRule::Never,
        CollisionRule::PushOtherTeams,
        CollisionRule::PushOwnTeam,
    ] {
        assert_eq!(CollisionRule::from_name(r.to_str()), r);
    }
    assert_eq!(NameTagVisibility::from_name("bogus"), NameTagVisibility::Always);
}

fn sample_team(options: i8) -> Team {
    Team {
        name: "green".to_string(),
        display_name: TextComponent::text("Green Team".to_string()),
        options,
        nametag_visibility: NameTagVisibility::Always,
        death_message_visibility: NameTagVisibility::Never,
        collision_rule: CollisionRule::PushOtherTeams,
        color: NamedColor::Green,
        player_prefix: TextComponent::text("[G] ".to_string()),
        player_suffix: TextComponent::empty(),
        players: vec!["Player".to_string()],
    }
}

fn sample_scoreboard() -> Scoreboard {
    let mut scoreboard = Scoreboard::new();
    let mut objective = ScoreboardObjective::new(
        "test".to_string(),
        TextComponent::text("Test".to_string()),
        RenderType::Hearts,
        Some(NumberFormat::Blank),
        "dummy".to_string(),
    );
    objective.display_auto_update = true;
    scoreboard.add_objective(objective);
    scoreboard.update_score(ScoreboardScore::new(
        "#constant".to_string(),
        "test".to_string(),
        7,
        Some(TextComponent::text("Seven".to_string())),
        None,
    ));
    scoreboard.add_team(sample_team(7));
    scoreboard.set_display_objective(DisplaySlot::Sidebar, Some("test"));
    scoreboard
}

#[test]
fn saved_scoreboard_uses_vanilla_names() {
    let data = sample_scoreboard().to_data();
    assert_eq!(data.objectives.len(), 1);
    assert_eq!(data.objectives[0].render_type, "hearts");
    assert_eq!(data.objectives[0].criteria_name, "dummy");
    assert_eq!(data.scores[0].entity_name, "#constant");
    assert_eq!(data.scores[0].value, 7);
    assert!(data.teams[0].allow_friendly_fire);
    assert!(data.teams[0].see_friendly_invisibles);
    assert_eq!(data.teams[0].collision_rule, "pushOtherTeams");
    assert_eq!(data.teams[0].death_message_visibility, "never");
    assert_eq!(data.display_slots, vec![("sidebar".to_string(), "test".to_string())]);
}

#[test]
fn saving_and_loading_restores_the_scoreboard() {
    let original = sample_scoreboard();
    let data = original.to_data();
    let mut loaded = Scoreboard::new();
    loaded.load_from_data(&data);
    assert_eq!(loaded.get_objectives(), original.get_objectives());
    assert_eq!(loaded.get_scores(), original.get_scores());
    assert_eq!(loaded.get_teams()[0].options, 7 & 3);
    assert_eq!(loaded.get_teams()[0].name, "green");
    assert_eq!(loaded.get_display_objective(&DisplaySlot::Sidebar), Some("test"));
    assert_eq!(loaded.get_display_objective(&DisplaySlot::List), None);
    assert!(loaded.is_tracked("test"));
    assert_eq!(loaded.to_data(), {
        let mut expected = data.clone();
        expected.teams[0].allow_friendly_fire = true;
        expected
    });
}

#[test]
fn loading_skips_unknown_slots_and_replaces_repeated_entries() {
    let mut data = sample_scoreboard().to_data();
    data.display_slots.push(("nowhere".to_string(), "test".to_string()));
    let mut second = data.objectives[0].clone();
    second.render_type = "bogus".to_string();
    data.objectives.push(second);
    let mut scoreboard = Scoreboard::new();
    scoreboard.load_from_data(&data);
    assert_eq!(scoreboard.get_objectives().len(), 1);
    assert_eq!(scoreboard.get_objectives()[0].render_type, RenderType::Integer);
    assert_eq!(scoreboard.get_display_objective(&DisplaySlot::Sidebar), Some("test"));
    let empty = ScoreboardData::new();
    scoreboard.load_from_data(&empty);
    assert!(scoreboard.get_objectives().is_empty());
    assert!(!scoreboard.is_tracked("test"));
}

#[test]
fn loading_then_saving_gives_the_data_back() {
    let mut data = sample_scoreboard().to_data();
    data.display_slots.push(("list".to_string(), "test".to_string()));
    let mut occupied = Scoreboard::new();
    occupied.add_objective(ScoreboardObjective::new(
        "stale".to_string(),
        TextComponent::text("Stale".to_string()),
        RenderType::Integer,
        None,
        "dummy".to_string(),
    ));
    occupied.load_from_data(&data);
    assert!(occupied.get_objective("stale").is_none());
    assert_eq!(occupied.get_display_objective(&DisplaySlot::List), Some("test"));
    assert_eq!(occupied.to_data(), data);
}

#[test]
fn single_operations_change_only_what_they_name() {
    let mut scoreboard = sample_scoreboard();
    scoreboard.update_score(ScoreboardScore::new("alice".to_string(), "test".to_string(), 3, None, None));
    scoreboard.update_score(ScoreboardScore::new("alice".to_string(), "missing".to_string(), 9, None, None));
    assert!(scoreboard.get_player_score_info("alice", "missing").is_none());
    assert_eq!(scoreboard.get_player_score_info("alice", "test").map(|s| s.value), Some(3));
    assert_eq!(scoreboard.get_player_score_info("#constant", "test").map(|s| s.value), Some(7));
    let packets = scoreboard.reset_all_player_scores("alice");
    assert!(!packets.is_empty());
    assert!(scoreboard.get_player_score_info("alice", "test").is_none());
    assert_eq!(scoreboard.get_player_score_info("#constant", "test").map(|s| s.value), Some(7));
    assert!(scoreboard.reset_all_player_scores("nobody").is_empty());
    scoreboard.set_display_objective(DisplaySlot::List, Some("test"));
    scoreboard.set_display_objective(DisplaySlot::Sidebar, None);
    assert_eq!(scoreboard.get_display_objective(&DisplaySlot::List), Some("test"));
    assert_eq!(scoreboard.get_display_objective(&DisplaySlot::Sidebar), None);
    assert!(scoreboard.is_tracked("test"));
    scoreboard.set_display_objective(DisplaySlot::List, None);
    assert!(!scoreboard.is_tracked("test"));
}
