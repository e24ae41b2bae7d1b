//! The form in which a scoreboard is saved to `data/minecraft/scoreboard.dat`.
use vstd::prelude::*;

use crate::criteria::NamedColor;
use crate::team::{names_view, Team, TeamView, visibility_from_name, collision_rule_from_name};
use crate::text_component::{format_view, text_view, NumberFormat, NumberFormatView, TextComponent};

verus! {

/// A saved objective.
#[derive(Debug, Clone, PartialEq, Eq)]
pub struct SerializableObjective {
    pub name: String,
    pub display_name: TextComponent,
    /// `integer` or `hearts`.
    pub render_type: String,
    pub criteria_name: String,
    pub display_auto_update: bool,
    pub number_format: Option<NumberFormat>,
}

pub struct ObjectiveDataView {
    pub name: Seq<char>,
    pub display_name: Seq<char>,
    pub render_type: Seq<char>,
    pub criteria_name: Seq<char>,
    pub display_auto_update: bool,
    pub number_format: Option<NumberFormatView>,
}

impl View for SerializableObjective {
    type V = ObjectiveDataView;

    open spec fn view(&self) -> ObjectiveDataView {
        ObjectiveDataView {
            name: self.name@,
            display_name: self.display_name@,
            render_type: self.render_type@,
            criteria_name: self.criteria_name@,
            display_auto_update: self.display_auto_update,
            number_format: format_view(self.number_format),
        }
    }
}

/// A saved score.
#[derive(Debug, Clone, PartialEq, Eq)]
pub struct SerializableScore {
    pub entity_name: String,
    pub objective_name: String,
    pub value: i32,
    pub locked: bool,
    pub display: Option<TextComponent>,
    pub number_format: Option<NumberFormat>,
}

pub struct ScoreDataView {
    pub entity_name: Seq<char>,
    pub objective_name: Seq<char>,
    pub value: i32,
    pub locked: bool,
    pub display: Option<Seq<char>>,
    pub number_format: Option<NumberFormatView>,
}

impl View for SerializableScore {
    type V = ScoreDataView;

    open spec fn view(&self) -> ScoreDataView {
        ScoreDataView {
            entity_name: self.entity_name@,
            objective_name: self.objective_name@,
            value: self.value,
            locked: self.locked,
            display: text_view(self.display),
            number_format: format_view(self.number_format),
        }
    }
}

/// A saved team.
#[derive(Debug, Clone, PartialEq, Eq)]
pub struct SerializableTeam {
    pub name: String,
    pub display_name: TextComponent,
    pub color: NamedColor,
    pub allow_friendly_fire: bool,
    pub see_friendly_invisibles: bool,
    pub player_prefix: TextComponent,
    pub player_suffix: TextComponent,
    pub nametag_visibility: String,
    pub death_message_visibility: String,
    pub collision_rule: String,
    pub players: Vec<String>,
}

pub struct TeamDataView {
    pub name: Seq<char>,
    pub display_name: Seq<char>,
    pub color: NamedColor,
    pub allow_friendly_fire: bool,
    pub see_friendly_invisibles: bool,
    pub player_prefix: Seq<char>,
    pub player_suffix: Seq<char>,
    pub nametag_visibility: Seq<char>,
    pub death_message_visibility: Seq<char>,
    pub collision_rule: Seq<char>,
    pub players: Seq<Seq<char>>,
}

impl View for SerializableTeam {
    type V = TeamDataView;

    open spec fn view(&self) -> TeamDataView {
        TeamDataView {
            name: self.name@,
            display_name: self.display_name@,
            color: self.color,
            allow_friendly_fire: self.allow_friendly_fire,
            see_friendly_invisibles: self.see_friendly_invisibles,
            player_prefix: self.player_prefix@,
            player_suffix: self.player_suffix@,
            nametag_visibility: self.nametag_visibility@,
            death_message_visibility: self.death_message_visibility@,
            collision_rule: self.collision_rule@,
            players: names_view(self.players@),
        }
    }
}

/// A saved scoreboard.
#[derive(Debug, Clone, PartialEq, Eq)]
pub struct ScoreboardData {
    pub objectives: Vec<SerializableObjective>,
    pub scores: Vec<SerializableScore>,
    pub teams: Vec<SerializableTeam>,
    /// Slot name (such as `sidebar`) and the objective it shows.
    pub display_slots: Vec<(String, String)>,
}

pub struct ScoreboardDataView {
    pub objectives: Seq<ObjectiveDataView>,
    pub scores: Seq<ScoreDataView>,
    pub teams: Seq<TeamDataView>,
    pub display_slots: Seq<(Seq<char>, Seq<char>)>,
}

impl ScoreboardDataView {
    /// Each key occurs once: objective names, team names, the objective and
    /// holder of each score, and the slot names of the bindings, as the
    /// saved file's maps hold them.
    pub open spec fn keys_unique(self) -> bool {
        &&& forall|i: int, j: int|
            0 <= i < j < self.objectives.len() ==> self.objectives[i].name != self.objectives[j].name
        &&& forall|i: int, j: int| 0 <= i < j < self.teams.len() ==> self.teams[i].name != self.teams[j].name
        &&& forall|i: int, j: int|
            0 <= i < j < self.scores.len() ==> !(self.scores[i].objective_name == self.scores[j].objective_name
                && self.scores[i].entity_name == self.scores[j].entity_name)
        &&& forall|i: int, j: int|
            0 <= i < j < self.display_slots.len() ==> self.display_slots[i].0 != self.display_slots[j].0
    }
}

impl View for ScoreboardData {
    type V = ScoreboardDataView;

    open spec fn view(&self) -> ScoreboardDataView {
        ScoreboardDataView {
            objectives: self.objectives@.map_values(|o: SerializableObjective| o@),
            scores: self.scores@.map_values(|s: SerializableScore| s@),
            teams: self.teams@.map_values(|t: SerializableTeam| t@),
            display_slots: self.display_slots@.map_values(|e: (String, String)| (e.0@, e.1@)),
        }
    }
}

impl ScoreboardData {
    /// The data of an empty scoreboard.
    pub fn new() -> (r: ScoreboardData)
        ensures
            r@.objectives.len() == 0,
            r@.scores.len() == 0,
            r@.teams.len() == 0,
            r@.display_slots.len() == 0,
    {
        ScoreboardData {
            objectives: Vec::new(),
            scores: Vec::new(),
            teams: Vec::new(),
            display_slots: Vec::new(),
        }
    }
}

/// The team options byte as saved: bit 0 allows friendly fire, bit 1 shows
/// invisible team mates.
pub open spec fn options_from_flags(allow_friendly_fire: bool, see_friendly_invisibles: bool) -> i8 {
    if allow_friendly_fire && see_friendly_invisibles {
        3
    } else if allow_friendly_fire {
        1
    } else if see_friendly_invisibles {
        2
    } else {
        0
    }
}

/// The team a saved team loads as.
pub open spec fn team_from_data(t: TeamDataView) -> TeamView {
    TeamView {
        name: t.name,
        display_name: t.display_name,
        options: options_from_flags(t.allow_friendly_fire, t.see_friendly_invisibles),
        nametag_visibility: visibility_from_name(t.nametag_visibility),
        death_message_visibility: visibility_from_name(t.death_message_visibility),
        collision_rule: collision_rule_from_name(t.collision_rule),
        color: t.color,
        player_prefix: t.player_prefix,
        player_suffix: t.player_suffix,
        players: t.players,
    }
}

impl SerializableTeam {
    /// The team this saved team loads as.
    pub fn to_team(&self) -> (r: Team)
        ensures
            r@ == team_from_data(self@),
    {
        let mut options: i8 = 0;
        if self.allow_friendly_fire {
            options = options | 1;
        }
        if self.see_friendly_invisibles {
            options = options | 2;
        }
        proof {
            assert((0i8 | 1i8) == 1i8) by (bit_vector);
            assert((0i8 | 2i8) == 2i8) by (bit_vector);
            assert((1i8 | 2i8) == 3i8) by (bit_vector);
            assert((0i8 | 0i8) == 0i8) by (bit_vector);
        }
        Team {
            name: self.name.clone(),
            display_name: self.display_name.copy(),
            options,
            nametag_visibility: crate::team::NameTagVisibility::from_name(
                self.nametag_visibility.as_str(),
            ),
            death_message_visibility: crate::team::NameTagVisibility::from_name(
                self.death_message_visibility.as_str(),
            ),
            collision_rule: crate::team::CollisionRule::from_name(self.collision_rule.as_str()),
            color: self.color,
            player_prefix: self.player_prefix.copy(),
            player_suffix: self.player_suffix.copy(),
            players: crate::team::copy_names(&self.players),
        }
    }
}

} // verus!
