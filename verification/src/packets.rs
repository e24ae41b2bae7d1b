//! The protocol enums and identifiers that the scoreboard sends to clients.
use vstd::prelude::*;

use crate::text::str_eq;

verus! {

/// What a set-player-team packet does to the team.
#[derive(Clone, Copy, Debug, PartialEq, Eq, Structural)]
pub enum TeamMethod {
    Create,
    Remove,
    Update,
    AddPlayers,
    RemovePlayers,
}

pub open spec fn team_method_id(method: TeamMethod) -> int {
    match method {
        TeamMethod::Create => 0,
        TeamMethod::Remove => 1,
        TeamMethod::Update => 2,
        TeamMethod::AddPlayers => 3,
        TeamMethod::RemovePlayers => 4,
    }
}

impl TeamMethod {
    /// The byte that identifies the method on the wire.
    pub fn id(self) -> (r: i8)
        ensures
            r == team_method_id(self),
    {
        match self {
            TeamMethod::Create => 0,
            TeamMethod::Remove => 1,
            TeamMethod::Update => 2,
            TeamMethod::AddPlayers => 3,
            TeamMethod::RemovePlayers => 4,
        }
    }
}

/// What an update-objectives packet does to the objective.
#[derive(Clone, Copy, Debug, PartialEq, Eq, Structural)]
pub enum Mode {
    Add,
    Remove,
    Update,
}

pub open spec fn mode_id(mode: Mode) -> int {
    match mode {
        Mode::Add => 0,
        Mode::Remove => 1,
        Mode::Update => 2,
    }
}

impl Mode {
    /// The byte that identifies the mode on the wire.
    pub fn id(self) -> (r: u8)
        ensures
            r == mode_id(self),
    {
        match self {
            Mode::Add => 0,
            Mode::Remove => 1,
            Mode::Update => 2,
        }
    }
}

/// How a client renders the scores of an objective.
#[derive(Clone, Copy, Debug, PartialEq, Eq, Structural)]
pub enum RenderType {
    Integer,
    Hearts,
}

pub open spec fn render_type_id(render_type: RenderType) -> int {
    match render_type {
        RenderType::Integer => 0,
        RenderType::Hearts => 1,
    }
}

impl RenderType {
    /// The var-int that identifies the render type on the wire.
    pub fn id(self) -> (r: i32)
        ensures
            r == render_type_id(self),
    {
        match self {
            RenderType::Integer => 0,
            RenderType::Hearts => 1,
        }
    }
}

/// The protocol id of a name-tag visibility given by its name: `never` 1,
/// `hideForOtherTeams` 2, `hideForOwnTeam` 3, anything else 0.
pub open spec fn spec_visibility_id(visibility: Seq<char>) -> int {
    if visibility == "never"@ {
        1
    } else if visibility == "hideForOtherTeams"@ {
        2
    } else if visibility == "hideForOwnTeam"@ {
        3
    } else {
        0
    }
}

/// The protocol id of a collision rule given by its name: `never` 1,
/// `pushOtherTeams` 2, `pushOwnTeam` 3, anything else 0.
pub open spec fn spec_collision_rule_id(rule: Seq<char>) -> int {
    if rule == "never"@ {
        1
    } else if rule == "pushOtherTeams"@ {
        2
    } else if rule == "pushOwnTeam"@ {
        3
    } else {
        0
    }
}

pub fn visibility_id(visibility: &str) -> (r: i32)
    ensures
        r == spec_visibility_id(visibility@),
{
    if str_eq(visibility, "never") {
        1
    } else if str_eq(visibility, "hideForOtherTeams") {
        2
    } else if str_eq(visibility, "hideForOwnTeam") {
        3
    } else {
        0
    }
}

pub fn collision_rule_id(rule: &str) -> (r: i32)
    ensures
        r == spec_collision_rule_id(rule@),
{
    if str_eq(rule, "never") {
        1
    } else if str_eq(rule, "pushOtherTeams") {
        2
    } else if str_eq(rule, "pushOwnTeam") {
        3
    } else {
        0
    }
}

} // verus!
