//! Scoreboard teams and the rules they are persisted and sent with.
use vstd::prelude::*;

use crate::criteria::{color_id, NamedColor};
use crate::text::str_eq;
use crate::text_component::TextComponent;

verus! {

/// Who sees the name tags of a team's members.
#[derive(Clone, Copy, Debug, PartialEq, Eq, Structural)]
pub enum NameTagVisibility {
    Always,
    Never,
    HideForOtherTeams,
    HideForOwnTeam,
}

pub open spec fn visibility_name(v: NameTagVisibility) -> Seq<char> {
    match v {
        NameTagVisibility::Always => "always"@,
        NameTagVisibility::Never => "never"@,
        NameTagVisibility::HideForOtherTeams => "hideForOtherTeams"@,
        NameTagVisibility::HideForOwnTeam => "hideForOwnTeam"@,
    }
}

/// The visibility a name stands for; unknown names mean `Always`.
pub open spec fn visibility_from_name(name: Seq<char>) -> NameTagVisibility {
    if name == "never"@ {
        NameTagVisibility::Never
    } else if name == "hideForOtherTeams"@ {
        NameTagVisibility::HideForOtherTeams
    } else if name == "hideForOwnTeam"@ {
        NameTagVisibility::HideForOwnTeam
    } else {
        NameTagVisibility::Always
    }
}

impl NameTagVisibility {
    pub fn to_str(&self) -> (r: &'static str)
        ensures
            r@ == visibility_name(*self),
    {
        match self {
            NameTagVisibility::Always => "always",
            NameTagVisibility::Never => "never",
            NameTagVisibility::HideForOtherTeams => "hideForOtherTeams",
            NameTagVisibility::HideForOwnTeam => "hideForOwnTeam",
        }
    }

    pub fn from_name(value: &str) -> (r: NameTagVisibility)
        ensures
            r == visibility_from_name(value@),
    {
        if str_eq(value, "never") {
            NameTagVisibility::Never
        } else if str_eq(value, "hideForOtherTeams") {
            NameTagVisibility::HideForOtherTeams
        } else if str_eq(value, "hideForOwnTeam") {
            NameTagVisibility::HideForOwnTeam
        } else {
            NameTagVisibility::Always
        }
    }
}

/// Which entities push the members of a team.
#[derive(Clone, Copy, Debug, PartialEq, Eq, Structural)]
pub enum CollisionRule {
    Always,
    Never,
    PushOtherTeams,
    PushOwnTeam,
}

pub open spec fn collision_rule_name(r: CollisionRule) -> Seq<char> {
    match r {
        CollisionRule::Always => "always"@,
        CollisionRule::Never => "never"@,
        CollisionRule::PushOtherTeams => "pushOtherTeams"@,
        CollisionRule::PushOwnTeam => "pushOwnTeam"@,
    }
}

/// The rule a name stands for; unknown names mean `Always`.
pub open spec fn collision_rule_from_name(name: Seq<char>) -> CollisionRule {
    if name == "never"@ {
        CollisionRule::Never
    } else if name == "pushOtherTeams"@ {
        CollisionRule::PushOtherTeams
    } else if name == "pushOwnTeam"@ {
        CollisionRule::PushOwnTeam
    } else {
        CollisionRule::Always
    }
}

impl CollisionRule {
    pub fn to_str(&self) -> (r: &'static str)
        ensures
            r@ == collision_rule_name(*self),
    {
        match self {
            CollisionRule::Always => "always",
            CollisionRule::Never => "never",
            CollisionRule::PushOtherTeams => "pushOtherTeams",
            CollisionRule::PushOwnTeam => "pushOwnTeam",
        }
    }

    pub fn from_name(value: &str) -> (r: CollisionRule)
        ensures
            r == collision_rule_from_name(value@),
    {
        if str_eq(value, "never") {
            CollisionRule::Never
        } else if str_eq(value, "pushOtherTeams") {
            CollisionRule::PushOtherTeams
        } else if str_eq(value, "pushOwnTeam") {
            CollisionRule::PushOwnTeam
        } else {
            CollisionRule::Always
        }
    }
}

/// Reading back the name of a visibility or a collision rule gives the same
/// value.
pub proof fn lemma_team_rule_names_round_trip(v: NameTagVisibility, r: CollisionRule)
    ensures
        visibility_from_name(visibility_name(v)) == v,
        collision_rule_from_name(collision_rule_name(r)) == r,
{
    reveal_strlit("always");
    reveal_strlit("never");
    reveal_strlit("hideForOtherTeams");
    reveal_strlit("hideForOwnTeam");
    reveal_strlit("pushOtherTeams");
    reveal_strlit("pushOwnTeam");
    assert("always"@.len() != "never"@.len());
    assert("always"@.len() != "hideForOtherTeams"@.len());
    assert("always"@.len() != "hideForOwnTeam"@.len());
    assert("never"@.len() != "hideForOtherTeams"@.len());
    assert("never"@.len() != "hideForOwnTeam"@.len());
    assert("hideForOtherTeams"@.len() != "hideForOwnTeam"@.len());
    assert("always"@.len() != "pushOtherTeams"@.len());
    assert("always"@.len() != "pushOwnTeam"@.len());
    assert("never"@.len() != "pushOtherTeams"@.len());
    assert("never"@.len() != "pushOwnTeam"@.len());
    assert("pushOtherTeams"@.len() != "pushOwnTeam"@.len());
}

/// A team of score holders.
#[derive(Debug, Clone, PartialEq, Eq)]
pub struct Team {
    pub name: String,
    pub display_name: TextComponent,
    pub options: i8,
    pub nametag_visibility: NameTagVisibility,
    pub death_message_visibility: NameTagVisibility,
    pub collision_rule: CollisionRule,
    pub color: NamedColor,
    pub player_prefix: TextComponent,
    pub player_suffix: TextComponent,
    pub players: Vec<String>,
}

/// The mathematical value of a [`Team`].
pub struct TeamView {
    pub name: Seq<char>,
    pub display_name: Seq<char>,
    pub options: i8,
    pub nametag_visibility: NameTagVisibility,
    pub death_message_visibility: NameTagVisibility,
    pub collision_rule: CollisionRule,
    pub color: NamedColor,
    pub player_prefix: Seq<char>,
    pub player_suffix: Seq<char>,
    pub players: Seq<Seq<char>>,
}

pub open spec fn names_view(names: Seq<String>) -> Seq<Seq<char>> {
    names.map_values(|s: String| s@)
}

impl View for Team {
    type V = TeamView;

    open spec fn view(&self) -> TeamView {
        TeamView {
            name: self.name@,
            display_name: self.display_name@,
            options: self.options,
            nametag_visibility: self.nametag_visibility,
            death_message_visibility: self.death_message_visibility,
            collision_rule: self.collision_rule,
            color: self.color,
            player_prefix: self.player_prefix@,
            player_suffix: self.player_suffix@,
            players: names_view(self.players@),
        }
    }
}

/// A copy of a list of names.
pub fn copy_names(names: &Vec<String>) -> (r: Vec<String>)
    ensures
        names_view(r@) == names_view(names@),
{
    let mut r: Vec<String> = Vec::new();
    let mut i: usize = 0;
    while i < names.len()
        invariant
            i <= names@.len(),
            r@.len() == i,
            forall|j: int| 0 <= j < i ==> #[trigger] r@[j]@ == names@[j]@,
        decreases names@.len() - i,
    {
        let name = names[i].clone();
        r.push(name);
        i = i + 1;
    }
    assert(names_view(r@) =~= names_view(names@));
    r
}

impl Team {
    /// A team equal to this one.
    pub fn copy(&self) -> (r: Team)
        ensures
            r@ == self@,
    {
        Team {
            name: self.name.clone(),
            display_name: self.display_name.copy(),
            options: self.options,
            nametag_visibility: self.nametag_visibility,
            death_message_visibility: self.death_message_visibility,
            collision_rule: self.collision_rule,
            color: self.color,
            player_prefix: self.player_prefix.copy(),
            player_suffix: self.player_suffix.copy(),
            players: copy_names(&self.players),
        }
    }
}

/// The team settings that a create or update packet carries.
#[derive(Debug, Clone, PartialEq, Eq)]
pub struct TeamParameters {
    pub display_name: TextComponent,
    pub options: i8,
    pub nametag_visibility: String,
    pub collision_rule: String,
    pub color: i32,
    pub player_prefix: TextComponent,
    pub player_suffix: TextComponent,
}

pub struct TeamParametersView {
    pub display_name: Seq<char>,
    pub options: i8,
    pub nametag_visibility: Seq<char>,
    pub collision_rule: Seq<char>,
    pub color: i32,
    pub player_prefix: Seq<char>,
    pub player_suffix: Seq<char>,
}

impl View for TeamParameters {
    type V = TeamParametersView;

    open spec fn view(&self) -> TeamParametersView {
        TeamParametersView {
            display_name: self.display_name@,
            options: self.options,
            nametag_visibility: self.nametag_visibility@,
            collision_rule: self.collision_rule@,
            color: self.color,
            player_prefix: self.player_prefix@,
            player_suffix: self.player_suffix@,
        }
    }
}

/// The parameters a packet carries for a team with the given settings.
pub open spec fn team_parameters(team: TeamView) -> TeamParametersView {
    TeamParametersView {
        display_name: team.display_name,
        options: team.options,
        nametag_visibility: visibility_name(team.nametag_visibility),
        collision_rule: collision_rule_name(team.collision_rule),
        color: color_id(team.color) as i32,
        player_prefix: team.player_prefix,
        player_suffix: team.player_suffix,
    }
}

impl Team {
    /// The packet parameters for this team's settings.
    pub fn parameters(&self) -> (r: TeamParameters)
        ensures
            r@ == team_parameters(self@),
    {
        TeamParameters {
            display_name: self.display_name.copy(),
            options: self.options,
            nametag_visibility: self.nametag_visibility.to_str().to_owned(),
            collision_rule: self.collision_rule.to_str().to_owned(),
            color: self.color.id(),
            player_prefix: self.player_prefix.copy(),
            player_suffix: self.player_suffix.copy(),
        }
    }
}

} // verus!
