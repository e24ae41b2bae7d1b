//! The scoreboard: objectives, scores, teams and display slots, with the
//! packets each change sends to the players.
//!
//! Every operation that changes what players see returns the packets to
//! broadcast, in order; the caller delivers them.
use vstd::prelude::*;

use crate::display_slot::DisplaySlot;
use crate::order::{insert_sorted, sorted_strictly};
use crate::packets::{Mode, RenderType, TeamMethod};
use crate::team::{copy_names, names_view, team_parameters, Team, TeamParameters, TeamParametersView, TeamView};
use crate::text::{
    first_where, is_first_where, lemma_first_where, lemma_first_where_push,
    lemma_first_where_some, lemma_first_where_remove, lemma_first_where_remove_only,
    lemma_filter_unique_keys, lemma_first_where_same, lemma_filter_elements, lemma_filter_take_step,
    lemma_first_where_update, lemma_first_where_none, string_eq,
};
use crate::text_component::{
    copy_format_option, copy_text_option, format_view, text_view, NumberFormat, NumberFormatView,
    TextComponent,
};
use crate::display_slot::{display_slot_name, slot_name};
use crate::scoreboard_data::{
    ObjectiveDataView, ScoreDataView, ScoreboardData, ScoreboardDataView, SerializableObjective,
    SerializableScore, SerializableTeam, TeamDataView,
};
use crate::team::{collision_rule_name, lemma_team_rule_names_round_trip, visibility_name};
use crate::text::{owned, str_eq};
use crate::display_slot::{display_slot_from_name, slot_from_name, lemma_display_slot_name_round_trip};
use crate::scoreboard_data::{team_from_data, options_from_flags};

verus! {

/// An objective: a named set of scores with a criterion.
#[derive(Debug, Clone, PartialEq, Eq)]
pub struct ScoreboardObjective {
    pub name: String,
    pub display_name: TextComponent,
    pub render_type: RenderType,
    pub number_format: Option<NumberFormat>,
    pub criterion: String,
    pub display_auto_update: bool,
}

pub struct ObjectiveView {
    pub name: Seq<char>,
    pub display_name: Seq<char>,
    pub render_type: RenderType,
    pub number_format: Option<NumberFormatView>,
    pub criterion: Seq<char>,
    pub display_auto_update: bool,
}

impl View for ScoreboardObjective {
    type V = ObjectiveView;

    open spec fn view(&self) -> ObjectiveView {
        ObjectiveView {
            name: self.name@,
            display_name: self.display_name@,
            render_type: self.render_type,
            number_format: format_view(self.number_format),
            criterion: self.criterion@,
            display_auto_update: self.display_auto_update,
        }
    }
}

impl ScoreboardObjective {
    /// A new objective; its scores' display names are not auto-updated.
    pub fn new(
        name: String,
        display_name: TextComponent,
        render_type: RenderType,
        number_format: Option<NumberFormat>,
        criterion: String,
    ) -> (r: Self)
        ensures
            r@ == (ObjectiveView {
                name: name@,
                display_name: display_name@,
                render_type,
                number_format: format_view(number_format),
                criterion: criterion@,
                display_auto_update: false,
            }),
    {
        ScoreboardObjective {
            name,
            display_name,
            render_type,
            number_format,
            criterion,
            display_auto_update: false,
        }
    }

    /// An objective equal to this one.
    pub fn copy(&self) -> (r: Self)
        ensures
            r@ == self@,
    {
        ScoreboardObjective {
            name: self.name.clone(),
            display_name: self.display_name.copy(),
            render_type: self.render_type,
            number_format: copy_format_option(&self.number_format),
            criterion: self.criterion.clone(),
            display_auto_update: self.display_auto_update,
        }
    }
}

/// The score of one holder in one objective.
#[derive(Debug, Clone, PartialEq, Eq)]
pub struct ScoreboardScore {
    pub entity_name: String,
    pub objective_name: String,
    pub value: i32,
    pub display_name: Option<TextComponent>,
    pub number_format: Option<NumberFormat>,
    pub locked: bool,
}

pub struct ScoreView {
    pub entity_name: Seq<char>,
    pub objective_name: Seq<char>,
    pub value: i32,
    pub display_name: Option<Seq<char>>,
    pub number_format: Option<NumberFormatView>,
    pub locked: bool,
}

impl View for ScoreboardScore {
    type V = ScoreView;

    open spec fn view(&self) -> ScoreView {
        ScoreView {
            entity_name: self.entity_name@,
            objective_name: self.objective_name@,
            value: self.value,
            display_name: text_view(self.display_name),
            number_format: format_view(self.number_format),
            locked: self.locked,
        }
    }
}

impl ScoreboardScore {
    /// A new score; it is locked.
    pub fn new(
        entity_name: String,
        objective_name: String,
        value: i32,
        display_name: Option<TextComponent>,
        number_format: Option<NumberFormat>,
    ) -> (r: Self)
        ensures
            r@ == (ScoreView {
                entity_name: entity_name@,
                objective_name: objective_name@,
                value,
                display_name: text_view(display_name),
                number_format: format_view(number_format),
                locked: true,
            }),
    {
        ScoreboardScore { entity_name, objective_name, value, display_name, number_format, locked: true }
    }

    /// A score equal to this one.
    pub fn copy(&self) -> (r: Self)
        ensures
            r@ == self@,
    {
        ScoreboardScore {
            entity_name: self.entity_name.clone(),
            objective_name: self.objective_name.clone(),
            value: self.value,
            display_name: copy_text_option(&self.display_name),
            number_format: copy_format_option(&self.number_format),
            locked: self.locked,
        }
    }
}

/// A packet the scoreboard asks to broadcast.
#[derive(Debug, Clone, PartialEq, Eq)]
#[allow(inconsistent_fields)]
pub enum ScoreboardPacket {
    /// Creates, removes or updates an objective on the client.
    UpdateObjective {
        objective_name: String,
        mode: Mode,
        display_name: TextComponent,
        render_type: RenderType,
        number_format: Option<NumberFormat>,
    },
    /// Shows an objective in a slot; an empty name clears the slot.
    DisplayObjective { slot: DisplaySlot, objective_name: String },
    /// Sets a score on the client; `to_bedrock` also sends it to Bedrock
    /// clients.
    UpdateScore {
        entity_name: String,
        objective_name: String,
        value: i32,
        display_name: Option<TextComponent>,
        number_format: Option<NumberFormat>,
        to_bedrock: bool,
    },
    /// Removes a score on Java and Bedrock clients.
    RemoveScore { entity_name: String, objective_name: String },
    /// Resets a holder's score in one objective, or in all when `None`.
    ResetScore { entity_name: String, objective_name: Option<String> },
    /// Creates, updates or removes a team, or changes its members.
    SetPlayerTeam {
        team_name: String,
        method: TeamMethod,
        parameters: Option<TeamParameters>,
        players: Vec<String>,
    },
}

#[allow(inconsistent_fields)]
pub enum PacketView {
    UpdateObjective {
        objective_name: Seq<char>,
        mode: Mode,
        display_name: Seq<char>,
        render_type: RenderType,
        number_format: Option<NumberFormatView>,
    },
    DisplayObjective { slot: DisplaySlot, objective_name: Seq<char> },
    UpdateScore {
        entity_name: Seq<char>,
        objective_name: Seq<char>,
        value: i32,
        display_name: Option<Seq<char>>,
        number_format: Option<NumberFormatView>,
        to_bedrock: bool,
    },
    RemoveScore { entity_name: Seq<char>, objective_name: Seq<char> },
    ResetScore { entity_name: Seq<char>, objective_name: Option<Seq<char>> },
    SetPlayerTeam {
        team_name: Seq<char>,
        method: TeamMethod,
        parameters: Option<TeamParametersView>,
        players: Seq<Seq<char>>,
    },
}

impl View for ScoreboardPacket {
    type V = PacketView;

    open spec fn view(&self) -> PacketView {
        match self {
            ScoreboardPacket::UpdateObjective {
                objective_name,
                mode,
                display_name,
                render_type,
                number_format,
            } => PacketView::UpdateObjective {
                objective_name: objective_name@,
                mode: *mode,
                display_name: display_name@,
                render_type: *render_type,
                number_format: format_view(*number_format),
            },
            ScoreboardPacket::DisplayObjective { slot, objective_name } => PacketView::DisplayObjective {
                slot: *slot,
                objective_name: objective_name@,
            },
            ScoreboardPacket::UpdateScore {
                entity_name,
                objective_name,
                value,
                display_name,
                number_format,
                to_bedrock,
            } => PacketView::UpdateScore {
                entity_name: entity_name@,
                objective_name: objective_name@,
                value: *value,
                display_name: text_view(*display_name),
                number_format: format_view(*number_format),
                to_bedrock: *to_bedrock,
            },
            ScoreboardPacket::RemoveScore { entity_name, objective_name } => PacketView::RemoveScore {
                entity_name: entity_name@,
                objective_name: objective_name@,
            },
            ScoreboardPacket::ResetScore { entity_name, objective_name } => PacketView::ResetScore {
                entity_name: entity_name@,
                objective_name: match objective_name {
                    Some(o) => Some(o@),
                    None => None,
                },
            },
            ScoreboardPacket::SetPlayerTeam { team_name, method, parameters, players } =>
                PacketView::SetPlayerTeam {
                team_name: team_name@,
                method: *method,
                parameters: match parameters {
                    Some(p) => Some(p@),
                    None => None,
                },
                players: names_view(players@),
            },
        }
    }
}

pub open spec fn packets_view(packets: Seq<ScoreboardPacket>) -> Seq<PacketView> {
    packets.map_values(|p: ScoreboardPacket| p@)
}

/// The mathematical state of a scoreboard.
#[verifier::ext_equal]
pub struct ScoreboardView {
    pub objectives: Seq<ObjectiveView>,
    pub teams: Seq<TeamView>,
    pub scores: Seq<ScoreView>,
    /// The objective shown in each slot that was ever set; `None` when cleared.
    pub display_objectives: Seq<(DisplaySlot, Option<Seq<char>>)>,
    /// The objectives that clients know about, because a slot shows them.
    pub tracked_names: Seq<Seq<char>>,
    /// For each criterion, the objectives that use it.
    pub by_criterion: Seq<(Seq<char>, Seq<Seq<char>>)>,
}

pub open spec fn objective_named(name: Seq<char>) -> spec_fn(ObjectiveView) -> bool {
    |o: ObjectiveView| o.name == name
}

pub open spec fn team_named(name: Seq<char>) -> spec_fn(TeamView) -> bool {
    |t: TeamView| t.name == name
}

pub open spec fn score_of(objective: Seq<char>, entity: Seq<char>) -> spec_fn(ScoreView) -> bool {
    |s: ScoreView| s.objective_name == objective && s.entity_name == entity
}

pub open spec fn slot_is(slot: DisplaySlot) -> spec_fn((DisplaySlot, Option<Seq<char>>)) -> bool {
    |d: (DisplaySlot, Option<Seq<char>>)| d.0 == slot
}

pub open spec fn name_is(name: Seq<char>) -> spec_fn(Seq<char>) -> bool {
    |n: Seq<char>| n == name
}

pub open spec fn criterion_is(criterion: Seq<char>) -> spec_fn((Seq<char>, Seq<Seq<char>>)) -> bool {
    |e: (Seq<char>, Seq<Seq<char>>)| e.0 == criterion
}

/// No two elements of `s` satisfy the same key test.
pub open spec fn unique_names(s: Seq<Seq<char>>) -> bool {
    forall|i: int, j: int| 0 <= i < j < s.len() ==> s[i] != s[j]
}

impl ScoreboardView {
    pub open spec fn objective_index(self, name: Seq<char>) -> Option<int> {
        first_where(self.objectives, objective_named(name))
    }

    pub open spec fn has_objective(self, name: Seq<char>) -> bool {
        self.objective_index(name) is Some
    }

    pub open spec fn objective(self, name: Seq<char>) -> ObjectiveView {
        self.objectives[self.objective_index(name)->0]
    }

    pub open spec fn team_index(self, name: Seq<char>) -> Option<int> {
        first_where(self.teams, team_named(name))
    }

    pub open spec fn has_team(self, name: Seq<char>) -> bool {
        self.team_index(name) is Some
    }

    pub open spec fn team(self, name: Seq<char>) -> TeamView {
        self.teams[self.team_index(name)->0]
    }

    pub open spec fn score_index(self, objective: Seq<char>, entity: Seq<char>) -> Option<int> {
        first_where(self.scores, score_of(objective, entity))
    }

    pub open spec fn has_score(self, objective: Seq<char>, entity: Seq<char>) -> bool {
        self.score_index(objective, entity) is Some
    }

    pub open spec fn score(self, objective: Seq<char>, entity: Seq<char>) -> ScoreView {
        self.scores[self.score_index(objective, entity)->0]
    }

    pub open spec fn slot_index(self, slot: DisplaySlot) -> Option<int> {
        first_where(self.display_objectives, slot_is(slot))
    }

    /// The objective shown in `slot`, if any.
    pub open spec fn display_objective(self, slot: DisplaySlot) -> Option<Seq<char>> {
        match self.slot_index(slot) {
            Some(i) => self.display_objectives[i].1,
            None => None,
        }
    }

    pub open spec fn is_tracked(self, name: Seq<char>) -> bool {
        self.tracked_names.contains(name)
    }

    pub open spec fn tracked_index(self, name: Seq<char>) -> Option<int> {
        first_where(self.tracked_names, name_is(name))
    }

    pub open spec fn criterion_index(self, criterion: Seq<char>) -> Option<int> {
        first_where(self.by_criterion, criterion_is(criterion))
    }

    /// The keys of every table are unique.
    pub open spec fn wf(self) -> bool {
        &&& forall|i: int, j: int|
            0 <= i < j < self.objectives.len() ==> self.objectives[i].name
                != self.objectives[j].name
        &&& forall|i: int, j: int|
            0 <= i < j < self.teams.len() ==> self.teams[i].name != self.teams[j].name
        &&& forall|i: int, j: int|
            0 <= i < j < self.scores.len() ==> !(self.scores[i].objective_name
                == self.scores[j].objective_name && self.scores[i].entity_name
                == self.scores[j].entity_name)
        &&& forall|i: int, j: int|
            0 <= i < j < self.display_objectives.len() ==> self.display_objectives[i].0
                != self.display_objectives[j].0
        &&& unique_names(self.tracked_names)
        &&& forall|i: int, j: int|
            0 <= i < j < self.by_criterion.len() ==> self.by_criterion[i].0
                != self.by_criterion[j].0
    }

    /// The criterion index lists exactly the objectives of each criterion,
    /// each once, and holds no empty entry.
    pub open spec fn index_consistent(self) -> bool {
        &&& forall|i: int|
            0 <= i < self.by_criterion.len() ==> {
                let entry = #[trigger] self.by_criterion[i];
                &&& entry.1.len() > 0
                &&& unique_names(entry.1)
                &&& forall|k: int|
                    0 <= k < entry.1.len() ==> self.has_objective(#[trigger] entry.1[k])
                        && self.objective(entry.1[k]).criterion == entry.0
            }
        &&& forall|i: int|
            0 <= i < self.objectives.len() ==> {
                let o = #[trigger] self.objectives[i];
                &&& self.criterion_index(o.criterion) is Some
                &&& self.by_criterion[self.criterion_index(o.criterion)->0].1.contains(o.name)
            }
    }
}

/// The scoreboard of a world.
pub struct Scoreboard {
    objectives: Vec<ScoreboardObjective>,
    teams: Vec<Team>,
    scores: Vec<ScoreboardScore>,
    display_objectives: Vec<(DisplaySlot, Option<String>)>,
    tracked_objectives: Vec<String>,
    objectives_by_criterion: Vec<(String, Vec<String>)>,
}

pub open spec fn display_entry_view(e: (DisplaySlot, Option<String>)) -> (
    DisplaySlot,
    Option<Seq<char>>,
) {
    (
        e.0,
        match e.1 {
            Some(n) => Some(n@),
            None => None,
        },
    )
}

pub open spec fn criterion_entry_view(e: (String, Vec<String>)) -> (Seq<char>, Seq<Seq<char>>) {
    (e.0@, names_view(e.1@))
}

impl View for Scoreboard {
    type V = ScoreboardView;

    closed spec fn view(&self) -> ScoreboardView {
        ScoreboardView {
            objectives: self.objectives@.map_values(|o: ScoreboardObjective| o@),
            teams: self.teams@.map_values(|t: Team| t@),
            scores: self.scores@.map_values(|s: ScoreboardScore| s@),
            display_objectives: self.display_objectives@.map_values(
                |e: (DisplaySlot, Option<String>)| display_entry_view(e),
            ),
            tracked_names: names_view(self.tracked_objectives@),
            by_criterion: self.objectives_by_criterion@.map_values(
                |e: (String, Vec<String>)| criterion_entry_view(e),
            ),
        }
    }
}

/// The empty scoreboard.
pub open spec fn empty_scoreboard() -> ScoreboardView {
    ScoreboardView {
        objectives: Seq::empty(),
        teams: Seq::empty(),
        scores: Seq::empty(),
        display_objectives: Seq::empty(),
        tracked_names: Seq::empty(),
        by_criterion: Seq::empty(),
    }
}

impl Scoreboard {
    /// An empty scoreboard.
    pub fn new() -> (r: Scoreboard)
        ensures
            r@ == empty_scoreboard(),
            r@.wf(),
            r@.index_consistent(),
    {
        let r = Scoreboard {
            objectives: Vec::new(),
            teams: Vec::new(),
            scores: Vec::new(),
            display_objectives: Vec::new(),
            tracked_objectives: Vec::new(),
            objectives_by_criterion: Vec::new(),
        };
        assert(r@ =~= empty_scoreboard());
        r
    }

    fn find_objective(&self, name: &String) -> (r: Option<usize>)
        ensures
            match r {
                Some(i) => self@.objective_index(name@) == Some(i as int) && i < self.objectives@.len()
                    && self.objectives@[i as int].name@ == name@,
                None => self@.objective_index(name@) is None,
            },
    {
        let mut i: usize = 0;
        while i < self.objectives.len()
            invariant
                i <= self.objectives@.len(),
                forall|j: int| 0 <= j < i ==> self.objectives@[j].name@ != name@,
            decreases self.objectives@.len() - i,
        {
            if string_eq(&self.objectives[i].name, name) {
                proof {
                    lemma_first_where(self@.objectives, objective_named(name@), i as int);
                }
                return Some(i);
            }
            i = i + 1;
        }
        assert forall|j: int| 0 <= j < self@.objectives.len() implies !objective_named(name@)(
            #[trigger] self@.objectives[j],
        ) by {
            assert(self@.objectives[j] == self.objectives@[j]@);
        }
        None
    }
}


impl ScoreboardView {
    /// The state after adding `o` as a new objective: it is appended, and its
    /// name joins the index entry of its criterion.
    pub open spec fn with_objective(self, o: ObjectiveView) -> ScoreboardView {
        ScoreboardView {
            objectives: self.objectives.push(o),
            by_criterion: match self.criterion_index(o.criterion) {
                Some(i) => self.by_criterion.update(
                    i,
                    (o.criterion, self.by_criterion[i].1.push(o.name)),
                ),
                None => self.by_criterion.push((o.criterion, seq![o.name])),
            },
            ..self
        }
    }

    /// The state with the objective at `i` replaced by `o`.
    pub open spec fn with_objective_at(self, i: int, o: ObjectiveView) -> ScoreboardView {
        ScoreboardView { objectives: self.objectives.update(i, o), ..self }
    }
}

/// The update-objective packet that announces `o` with the given mode.
pub open spec fn objective_packet(o: ObjectiveView, mode: Mode) -> PacketView {
    PacketView::UpdateObjective {
        objective_name: o.name,
        mode,
        display_name: o.display_name,
        render_type: o.render_type,
        number_format: o.number_format,
    }
}

/// The packets that send `o`'s changed settings, when clients know about it.
pub open spec fn update_packets(v: ScoreboardView, o: ObjectiveView) -> Seq<PacketView> {
    if v.is_tracked(o.name) {
        seq![objective_packet(o, Mode::Update)]
    } else {
        Seq::empty()
    }
}

impl Scoreboard {
    fn find_team(&self, name: &String) -> (r: Option<usize>)
        ensures
            match r {
                Some(i) => self@.team_index(name@) == Some(i as int) && i < self.teams@.len()
                    && self.teams@[i as int].name@ == name@,
                None => self@.team_index(name@) is None,
            },
    {
        let mut i: usize = 0;
        while i < self.teams.len()
            invariant
                i <= self.teams@.len(),
                forall|j: int| 0 <= j < i ==> self.teams@[j].name@ != name@,
            decreases self.teams@.len() - i,
        {
            if string_eq(&self.teams[i].name, name) {
                proof {
                    lemma_first_where(self@.teams, team_named(name@), i as int);
                }
                return Some(i);
            }
            i = i + 1;
        }
        assert forall|j: int| 0 <= j < self@.teams.len() implies !team_named(name@)(
            #[trigger] self@.teams[j],
        ) by {
            assert(self@.teams[j] == self.teams@[j]@);
        }
        None
    }

    fn find_score(&self, objective: &String, entity: &String) -> (r: Option<usize>)
        ensures
            match r {
                Some(i) => self@.score_index(objective@, entity@) == Some(i as int) && i < self.scores@.len()
                    && self.scores@[i as int].objective_name@ == objective@
                    && self.scores@[i as int].entity_name@ == entity@,
                None => self@.score_index(objective@, entity@) is None,
            },
    {
        let mut i: usize = 0;
        while i < self.scores.len()
            invariant
                i <= self.scores@.len(),
                forall|j: int|
                    0 <= j < i ==> !(self.scores@[j].objective_name@ == objective@
                        && self.scores@[j].entity_name@ == entity@),
            decreases self.scores@.len() - i,
        {
            if string_eq(&self.scores[i].objective_name, objective) && string_eq(
                &self.scores[i].entity_name,
                entity,
            ) {
                proof {
                    lemma_first_where(self@.scores, score_of(objective@, entity@), i as int);
                }
                return Some(i);
            }
            i = i + 1;
        }
        assert forall|j: int| 0 <= j < self@.scores.len() implies !score_of(objective@, entity@)(
            #[trigger] self@.scores[j],
        ) by {
            assert(self@.scores[j] == self.scores@[j]@);
        }
        None
    }

    fn find_slot(&self, slot: DisplaySlot) -> (r: Option<usize>)
        ensures
            match r {
                Some(i) => self@.slot_index(slot) == Some(i as int) && i < self.display_objectives@.len()
                    && self.display_objectives@[i as int].0 == slot,
                None => self@.slot_index(slot) is None,
            },
    {
        let mut i: usize = 0;
        while i < self.display_objectives.len()
            invariant
                i <= self.display_objectives@.len(),
                forall|j: int| 0 <= j < i ==> self.display_objectives@[j].0 != slot,
            decreases self.display_objectives@.len() - i,
        {
            if self.display_objectives[i].0 == slot {
                proof {
                    assert(self@.display_objectives[i as int] == display_entry_view(
                        self.display_objectives@[i as int],
                    ));
                    lemma_first_where(self@.display_objectives, slot_is(slot), i as int);
                }
                return Some(i);
            }
            i = i + 1;
        }
        assert forall|j: int| 0 <= j < self@.display_objectives.len() implies !slot_is(slot)(
            #[trigger] self@.display_objectives[j],
        ) by {
            assert(self@.display_objectives[j] == display_entry_view(self.display_objectives@[j]));
        }
        None
    }

    fn find_tracked(&self, name: &String) -> (r: Option<usize>)
        ensures
            match r {
                Some(i) => i < self@.tracked_names.len() && self@.tracked_names[i as int] == name@
                    && self@.tracked_index(name@) == Some(i as int) && self@.is_tracked(name@),
                None => !self@.is_tracked(name@) && self@.tracked_index(name@) is None,
            },
    {
        let mut i: usize = 0;
        while i < self.tracked_objectives.len()
            invariant
                i <= self.tracked_objectives@.len(),
                forall|j: int| 0 <= j < i ==> self.tracked_objectives@[j]@ != name@,
            decreases self.tracked_objectives@.len() - i,
        {
            if string_eq(&self.tracked_objectives[i], name) {
                proof {
                    assert(self@.tracked_names[i as int] == self.tracked_objectives@[i as int]@);
                    lemma_first_where(self@.tracked_names, name_is(name@), i as int);
                }
                return Some(i);
            }
            i = i + 1;
        }
        assert forall|j: int| 0 <= j < self@.tracked_names.len() implies self@.tracked_names[j]
            != name@ by {
            assert(self@.tracked_names[j] == self.tracked_objectives@[j]@);
        }
        None
    }

    fn find_criterion(&self, criterion: &String) -> (r: Option<usize>)
        ensures
            match r {
                Some(i) => self@.criterion_index(criterion@) == Some(i as int)
                    && i < self.objectives_by_criterion@.len()
                    && self.objectives_by_criterion@[i as int].0@ == criterion@,
                None => self@.criterion_index(criterion@) is None,
            },
    {
        let mut i: usize = 0;
        while i < self.objectives_by_criterion.len()
            invariant
                i <= self.objectives_by_criterion@.len(),
                forall|j: int| 0 <= j < i ==> self.objectives_by_criterion@[j].0@ != criterion@,
            decreases self.objectives_by_criterion@.len() - i,
        {
            if string_eq(&self.objectives_by_criterion[i].0, criterion) {
                proof {
                    assert(self@.by_criterion[i as int] == criterion_entry_view(
                        self.objectives_by_criterion@[i as int],
                    ));
                    lemma_first_where(self@.by_criterion, criterion_is(criterion@), i as int);
                }
                return Some(i);
            }
            i = i + 1;
        }
        assert forall|j: int| 0 <= j < self@.by_criterion.len() implies !criterion_is(criterion@)(
            #[trigger] self@.by_criterion[j],
        ) by {
            assert(self@.by_criterion[j] == criterion_entry_view(self.objectives_by_criterion@[j]));
        }
        None
    }

    /// Whether clients know about the objective, because a slot shows it.
    pub fn is_tracked(&self, objective_name: &str) -> (r: bool)
        ensures
            r == self@.is_tracked(objective_name@),
    {
        let name = objective_name.to_owned();
        self.find_tracked(&name).is_some()
    }

    /// The objective with the given name, if any.
    pub fn get_objective(&self, name: &str) -> (r: Option<&ScoreboardObjective>)
        ensures
            match r {
                Some(o) => self@.has_objective(name@) && o@ == self@.objective(name@),
                None => !self@.has_objective(name@),
            },
    {
        let key = name.to_owned();
        match self.find_objective(&key) {
            Some(i) => Some(&self.objectives[i]),
            None => None,
        }
    }

    /// The name of the objective shown in the given slot, if any.
    pub fn get_display_objective(&self, slot: &DisplaySlot) -> (r: Option<&str>)
        ensures
            match r {
                Some(n) => self@.display_objective(*slot) == Some(n@),
                None => self@.display_objective(*slot) is None,
            },
    {
        match self.find_slot(*slot) {
            Some(i) => {
                proof {
                    assert(self@.display_objectives[i as int] == display_entry_view(
                        self.display_objectives@[i as int],
                    ));
                }
                match &self.display_objectives[i].1 {
                    Some(n) => Some(n.as_str()),
                    None => None,
                }
            },
            None => None,
        }
    }

    /// The score of `entity_name` in `objective_name`, if any.
    pub fn get_player_score_info(&self, entity_name: &str, objective_name: &str) -> (r: Option<
        &ScoreboardScore,
    >)
        ensures
            match r {
                Some(s) => self@.has_score(objective_name@, entity_name@) && s@ == self@.score(
                    objective_name@,
                    entity_name@,
                ),
                None => !self@.has_score(objective_name@, entity_name@),
            },
    {
        let objective = objective_name.to_owned();
        let entity = entity_name.to_owned();
        match self.find_score(&objective, &entity) {
            Some(i) => Some(&self.scores[i]),
            None => None,
        }
    }

    /// Every objective, in creation order.
    pub fn get_objectives(&self) -> (r: &Vec<ScoreboardObjective>)
        ensures
            r@.map_values(|o: ScoreboardObjective| o@) == self@.objectives,
    {
        &self.objectives
    }

    /// Every score, in the order they were first set.
    pub fn get_scores(&self) -> (r: &Vec<ScoreboardScore>)
        ensures
            r@.map_values(|s: ScoreboardScore| s@) == self@.scores,
    {
        &self.scores
    }

    /// Every team, in creation order.
    pub fn get_teams(&self) -> (r: &Vec<Team>)
        ensures
            r@.map_values(|t: Team| t@) == self@.teams,
    {
        &self.teams
    }

    /// Adds an objective without sending any packets. An objective whose name
    /// is taken is ignored.
    pub fn add_objective(&mut self, objective: ScoreboardObjective)
        requires
            old(self)@.wf(),
        ensures
            final(self)@.wf(),
            old(self)@.has_objective(objective@.name) ==> final(self)@ == old(self)@,
            !old(self)@.has_objective(objective@.name) ==> final(self)@ == old(self)@.with_objective(
                objective@,
            ),
            old(self)@.index_consistent() ==> final(self)@.index_consistent(),
    {
        if self.find_objective(&objective.name).is_some() {
            return;
        }
        let ghost old_view = self@;
        let ghost o = objective@;
        match self.find_criterion(&objective.criterion) {
            Some(i) => {
                let mut names = copy_names(&self.objectives_by_criterion[i].1);
                let ghost before = names@;
                names.push(objective.name.clone());
                assert(names_view(names@) =~= names_view(before).push(o.name));
                let criterion = self.objectives_by_criterion[i].0.clone();
                self.objectives_by_criterion.set(i, (criterion, names));
                assert(self@.by_criterion =~= old_view.by_criterion.update(
                    i as int,
                    (o.criterion, old_view.by_criterion[i as int].1.push(o.name)),
                ));
            },
            None => {
                let criterion = objective.criterion.clone();
                let mut names: Vec<String> = Vec::new();
                names.push(objective.name.clone());
                assert(names_view(names@) =~= seq![o.name]);
                self.objectives_by_criterion.push((criterion, names));
                assert(self@.by_criterion =~= old_view.by_criterion.push((o.criterion, seq![o.name])));
            },
        }
        self.objectives.push(objective);
        proof {
            let new_view = old_view.with_objective(o);
            assert(self@.objectives =~= new_view.objectives);
            assert(self@.by_criterion =~= new_view.by_criterion);
            assert(self@ =~= new_view);
            lemma_with_objective_wf(old_view, o);
        }
    }
}

/// Adding an objective with a fresh name keeps the keys unique and the
/// criterion index consistent.
proof fn lemma_with_objective_wf(v: ScoreboardView, o: ObjectiveView)
    requires
        v.wf(),
        !v.has_objective(o.name),
    ensures
        v.with_objective(o).wf(),
        v.index_consistent() ==> v.with_objective(o).index_consistent(),
{
    let w = v.with_objective(o);
    let ci = v.criterion_index(o.criterion);
    assert forall|j: int| 0 <= j < v.objectives.len() implies v.objectives[j].name != o.name by {
        assert(!objective_named(o.name)(v.objectives[j]));
    }
    match ci {
        Some(i) => {
            lemma_first_where_some(v.by_criterion, criterion_is(o.criterion));
        },
        None => {
            assert forall|j: int| 0 <= j < v.by_criterion.len() implies v.by_criterion[j].0
                != o.criterion by {
                assert(!criterion_is(o.criterion)(v.by_criterion[j]));
            }
        },
    }
    if v.index_consistent() {
        assert forall|name: Seq<char>| v.has_objective(name) implies w.has_objective(name)
            && w.objective(name) == v.objective(name) by {
            lemma_first_where_push(v.objectives, objective_named(name), o);
        }
        lemma_first_where_push(v.objectives, objective_named(o.name), o);
        assert(w.has_objective(o.name) && w.objective(o.name) == o);
        match ci {
            Some(i) => {
                lemma_first_where_update(
                    v.by_criterion,
                    criterion_is(o.criterion),
                    i,
                    (o.criterion, v.by_criterion[i].1.push(o.name)),
                );
            },
            None => {},
        }
        assert forall|c: Seq<char>| #[trigger] v.criterion_index(c) is Some implies w.criterion_index(c)
            == v.criterion_index(c) by {
            match ci {
                Some(i) => {
                    let e = v.by_criterion[i];
                    lemma_first_where_some(v.by_criterion, criterion_is(c));
                    if c == o.criterion {
                    } else {
                        lemma_first_where_update(
                            v.by_criterion,
                            criterion_is(c),
                            i,
                            (o.criterion, e.1.push(o.name)),
                        );
                    }
                },
                None => {
                    lemma_first_where_push(
                        v.by_criterion,
                        criterion_is(c),
                        (o.criterion, seq![o.name]),
                    );
                },
            }
        }
        assert forall|k: int| 0 <= k < w.by_criterion.len() implies {
            let entry = #[trigger] w.by_criterion[k];
            &&& entry.1.len() > 0
            &&& unique_names(entry.1)
            &&& forall|m: int|
                0 <= m < entry.1.len() ==> w.has_objective(#[trigger] entry.1[m])
                    && w.objective(entry.1[m]).criterion == entry.0
        } by {
            let entry = w.by_criterion[k];
            if k < v.by_criterion.len() {
                let old_entry = v.by_criterion[k];
                assert(old_entry.1.len() > 0);
                assert(forall|m: int|
                    0 <= m < old_entry.1.len() ==> v.has_objective(#[trigger] old_entry.1[m])
                        && v.objective(old_entry.1[m]).criterion == old_entry.0);
                if ci == Some(k) {
                    assert(entry.1 == old_entry.1.push(o.name));
                    assert forall|m: int| 0 <= m < old_entry.1.len() implies old_entry.1[m]
                        != o.name by {
                        assert(v.has_objective(old_entry.1[m]));
                    }
                    assert forall|m: int|
                        0 <= m < entry.1.len() implies w.has_objective(#[trigger] entry.1[m])
                        && w.objective(entry.1[m]).criterion == entry.0 by {
                        if m < old_entry.1.len() {
                            assert(entry.1[m] == old_entry.1[m]);
                        }
                    }
                } else {
                    assert(entry == old_entry);
                }
            } else {
                assert(ci is None);
                assert(entry == (o.criterion, seq![o.name]));
            }
        }
        assert forall|k: int| 0 <= k < w.objectives.len() implies {
            let ob = #[trigger] w.objectives[k];
            &&& w.criterion_index(ob.criterion) is Some
            &&& w.by_criterion[w.criterion_index(ob.criterion)->0].1.contains(ob.name)
        } by {
            let ob = w.objectives[k];
            if k < v.objectives.len() {
                assert(ob == v.objectives[k]);
                let oi = v.criterion_index(ob.criterion)->0;
                assert(v.by_criterion[oi].1.contains(ob.name));
                if ci == Some(oi) {
                    let mi = choose|mi: int|
                        0 <= mi < v.by_criterion[oi].1.len() && v.by_criterion[oi].1[mi]
                            == ob.name;
                    assert(w.by_criterion[oi].1[mi] == ob.name);
                }
            } else {
                assert(ob == o);
                match ci {
                    Some(i) => {
                        assert(w.by_criterion[i].1[v.by_criterion[i].1.len() as int] == o.name);
                    },
                    None => {
                        lemma_first_where_push(
                            v.by_criterion,
                            criterion_is(o.criterion),
                            (o.criterion, seq![o.name]),
                        );
                        assert(w.by_criterion[v.by_criterion.len() as int].1[0] == o.name);
                    },
                }
            }
        }
    }
}


/// The update-score packet that shows `s` to Java clients, and to Bedrock
/// clients too when `to_bedrock` is set.
pub open spec fn score_packet(s: ScoreView, to_bedrock: bool) -> PacketView {
    PacketView::UpdateScore {
        entity_name: s.entity_name,
        objective_name: s.objective_name,
        value: s.value,
        display_name: s.display_name,
        number_format: s.number_format,
        to_bedrock,
    }
}

pub open spec fn in_objective(name: Seq<char>) -> spec_fn(ScoreView) -> bool {
    |s: ScoreView| s.objective_name == name
}

/// The packets that send every score of objective `name`, in order.
pub open spec fn score_packets(scores: Seq<ScoreView>, name: Seq<char>) -> Seq<PacketView> {
    scores.filter(in_objective(name)).map_values(|s: ScoreView| score_packet(s, false))
}

/// The packet that removes objective `name` from the clients.
pub open spec fn remove_objective_packet(name: Seq<char>) -> PacketView {
    PacketView::UpdateObjective {
        objective_name: name,
        mode: Mode::Remove,
        display_name: Seq::empty(),
        render_type: RenderType::Integer,
        number_format: None,
    }
}

impl ScoreboardView {
    /// Starts sending objective `name` to clients: its create packet and all
    /// its scores. Nothing happens if it is already sent or does not exist.
    pub open spec fn track(self, name: Seq<char>) -> (ScoreboardView, Seq<PacketView>) {
        if self.is_tracked(name) || !self.has_objective(name) {
            (self, Seq::empty())
        } else {
            (
                ScoreboardView { tracked_names: self.tracked_names.push(name), ..self },
                seq![objective_packet(self.objective(name), Mode::Add)] + score_packets(
                    self.scores,
                    name,
                ),
            )
        }
    }

    /// Stops sending objective `name` to clients and removes it from them.
    pub open spec fn untrack(self, name: Seq<char>) -> (ScoreboardView, Seq<PacketView>) {
        match self.tracked_index(name) {
            Some(i) => (
                ScoreboardView { tracked_names: self.tracked_names.remove(i), ..self },
                seq![remove_objective_packet(name)],
            ),
            None => (self, Seq::empty()),
        }
    }
}

pub open spec fn objective_changed(
    old_view: ScoreboardView,
    new_view: ScoreboardView,
    name: Seq<char>,
    o: ObjectiveView,
) -> bool {
    &&& o.name == name
    &&& o.criterion == old_view.objective(name).criterion
    &&& new_view == old_view.with_objective_at(old_view.objective_index(name)->0, o)
}

/// Replacing an objective by one with the same name and criterion keeps the
/// keys unique and the index consistent.
proof fn lemma_with_objective_at(v: ScoreboardView, i: int, o: ObjectiveView)
    requires
        v.wf(),
        0 <= i < v.objectives.len(),
        v.objectives[i].name == o.name,
        v.objectives[i].criterion == o.criterion,
    ensures
        v.with_objective_at(i, o).wf(),
        v.index_consistent() ==> v.with_objective_at(i, o).index_consistent(),
{
    let w = v.with_objective_at(i, o);
    assert forall|name: Seq<char>| #[trigger] w.objective_index(name) == v.objective_index(name) by {
        lemma_first_where_update(v.objectives, objective_named(name), i, o);
    }
    assert forall|name: Seq<char>| v.has_objective(name) implies #[trigger] w.objective(name).criterion
        == v.objective(name).criterion by {
        lemma_first_where_some(v.objectives, objective_named(name));
        let k = v.objective_index(name)->0;
        if k == i {
        } else {
            assert(w.objectives[k] == v.objectives[k]);
        }
    }
    if v.index_consistent() {
        assert forall|k: int| 0 <= k < w.by_criterion.len() implies {
            let entry = #[trigger] w.by_criterion[k];
            &&& entry.1.len() > 0
            &&& unique_names(entry.1)
            &&& forall|m: int|
                0 <= m < entry.1.len() ==> w.has_objective(#[trigger] entry.1[m])
                    && w.objective(entry.1[m]).criterion == entry.0
        } by {
            let entry = w.by_criterion[k];
            assert forall|m: int| 0 <= m < entry.1.len() implies w.has_objective(
                #[trigger] entry.1[m],
            ) && w.objective(entry.1[m]).criterion == entry.0 by {
                assert(v.has_objective(entry.1[m]));
            }
        }
        assert forall|k: int| 0 <= k < w.objectives.len() implies {
            let ob = #[trigger] w.objectives[k];
            &&& w.criterion_index(ob.criterion) is Some
            &&& w.by_criterion[w.criterion_index(ob.criterion)->0].1.contains(ob.name)
        } by {
            if k == i {
                assert(v.objectives[i].name == o.name);
            } else {
                assert(w.objectives[k] == v.objectives[k]);
            }
        }
    }
}

fn objective_packet_of(o: &ScoreboardObjective, mode: Mode) -> (r: ScoreboardPacket)
    ensures
        r@ == objective_packet(o@, mode),
{
    ScoreboardPacket::UpdateObjective {
        objective_name: o.name.clone(),
        mode,
        display_name: o.display_name.copy(),
        render_type: o.render_type,
        number_format: copy_format_option(&o.number_format),
    }
}

fn score_packet_of(s: &ScoreboardScore, to_bedrock: bool) -> (r: ScoreboardPacket)
    ensures
        r@ == score_packet(s@, to_bedrock),
{
    ScoreboardPacket::UpdateScore {
        entity_name: s.entity_name.clone(),
        objective_name: s.objective_name.clone(),
        value: s.value,
        display_name: copy_text_option(&s.display_name),
        number_format: copy_format_option(&s.number_format),
        to_bedrock,
    }
}

impl Scoreboard {
    /// Replaces the objective at `i` by `o`, which has its name and criterion.
    fn replace_objective(&mut self, i: usize, o: ScoreboardObjective)
        requires
            old(self)@.wf(),
            i < old(self)@.objectives.len(),
            old(self)@.objectives[i as int].name == o@.name,
            old(self)@.objectives[i as int].criterion == o@.criterion,
        ensures
            final(self)@ == old(self)@.with_objective_at(i as int, o@),
            final(self)@.wf(),
            old(self)@.index_consistent() ==> final(self)@.index_consistent(),
    {
        let ghost v = self@;
        let ghost ov = o@;
        self.objectives.set(i, o);
        proof {
            assert(self@.objectives =~= v.objectives.update(i as int, ov));
            assert(self@ =~= v.with_objective_at(i as int, ov));
            lemma_with_objective_at(v, i as int, ov);
        }
    }

    /// Updates the display name, render type and number format of an existing
    /// objective. Returns whether it exists, and the update packet when
    /// clients know about it.
    pub fn modify_objective(
        &mut self,
        objective_name: &str,
        display_name: TextComponent,
        render_type: RenderType,
        number_format: Option<NumberFormat>,
    ) -> (r: (bool, Vec<ScoreboardPacket>))
        requires
            old(self)@.wf(),
        ensures
            final(self)@.wf(),
            old(self)@.index_consistent() ==> final(self)@.index_consistent(),
            r.0 == old(self)@.has_objective(objective_name@),
            !r.0 ==> final(self)@ == old(self)@ && r.1@.len() == 0,
            r.0 ==> {
                let o = ObjectiveView {
                    display_name: display_name@,
                    render_type,
                    number_format: format_view(number_format),
                    ..old(self)@.objective(objective_name@)
                };
                &&& objective_changed(old(self)@, final(self)@, objective_name@, o)
                &&& packets_view(r.1@) == update_packets(old(self)@, o)
            },
    {
        let key = objective_name.to_owned();
        let mut packets: Vec<ScoreboardPacket> = Vec::new();
        let i = match self.find_objective(&key) {
            Some(i) => i,
            None => {
                return (false, packets);
            },
        };
        let current = &self.objectives[i];
        let updated = ScoreboardObjective {
            name: current.name.clone(),
            display_name,
            render_type,
            number_format,
            criterion: current.criterion.clone(),
            display_auto_update: current.display_auto_update,
        };
        if self.find_tracked(&key).is_some() {
            packets.push(objective_packet_of(&updated, Mode::Update));
        }
        proof {
            assert(self@.objectives[i as int] == self.objectives@[i as int]@);
        }
        self.replace_objective(i, updated);
        assert(packets_view(packets@) =~= update_packets(old(self)@, self@.objectives[i as int]));
        (true, packets)
    }

    /// Sets whether the display names of an objective's scores follow their
    /// holders. Returns whether the objective exists, and the update packet
    /// when the flag changed and clients know about the objective.
    pub fn set_display_auto_update(&mut self, objective_name: &str, display_auto_update: bool) -> (r: (
        bool,
        Vec<ScoreboardPacket>,
    ))
        requires
            old(self)@.wf(),
        ensures
            final(self)@.wf(),
            old(self)@.index_consistent() ==> final(self)@.index_consistent(),
            r.0 == old(self)@.has_objective(objective_name@),
            !r.0 || old(self)@.objective(objective_name@).display_auto_update == display_auto_update
                ==> final(self)@ == old(self)@ && r.1@.len() == 0,
            r.0 && old(self)@.objective(objective_name@).display_auto_update != display_auto_update
                ==> {
                let o = ObjectiveView {
                    display_auto_update,
                    ..old(self)@.objective(objective_name@)
                };
                &&& objective_changed(old(self)@, final(self)@, objective_name@, o)
                &&& packets_view(r.1@) == update_packets(old(self)@, o)
            },
    {
        let key = objective_name.to_owned();
        let mut packets: Vec<ScoreboardPacket> = Vec::new();
        let i = match self.find_objective(&key) {
            Some(i) => i,
            None => {
                return (false, packets);
            },
        };
        proof {
            assert(self@.objectives[i as int] == self.objectives@[i as int]@);
        }
        if self.objectives[i].display_auto_update == display_auto_update {
            return (true, packets);
        }
        let mut updated = self.objectives[i].copy();
        updated.display_auto_update = display_auto_update;
        if self.find_tracked(&key).is_some() {
            packets.push(objective_packet_of(&updated, Mode::Update));
        }
        self.replace_objective(i, updated);
        assert(packets_view(packets@) =~= update_packets(old(self)@, self@.objectives[i as int]));
        (true, packets)
    }

    /// Sets the number format of an existing objective. Returns whether it
    /// exists, and the update packet when clients know about it.
    pub fn set_objective_number_format(
        &mut self,
        objective_name: &str,
        number_format: Option<NumberFormat>,
    ) -> (r: (bool, Vec<ScoreboardPacket>))
        requires
            old(self)@.wf(),
        ensures
            final(self)@.wf(),
            old(self)@.index_consistent() ==> final(self)@.index_consistent(),
            r.0 == old(self)@.has_objective(objective_name@),
            !r.0 ==> final(self)@ == old(self)@ && r.1@.len() == 0,
            r.0 ==> {
                let o = ObjectiveView {
                    number_format: format_view(number_format),
                    ..old(self)@.objective(objective_name@)
                };
                &&& objective_changed(old(self)@, final(self)@, objective_name@, o)
                &&& packets_view(r.1@) == update_packets(old(self)@, o)
            },
    {
        let key = objective_name.to_owned();
        let mut packets: Vec<ScoreboardPacket> = Vec::new();
        let i = match self.find_objective(&key) {
            Some(i) => i,
            None => {
                return (false, packets);
            },
        };
        proof {
            assert(self@.objectives[i as int] == self.objectives@[i as int]@);
        }
        let mut updated = self.objectives[i].copy();
        updated.number_format = number_format;
        if self.find_tracked(&key).is_some() {
            packets.push(objective_packet_of(&updated, Mode::Update));
        }
        self.replace_objective(i, updated);
        assert(packets_view(packets@) =~= update_packets(old(self)@, self@.objectives[i as int]));
        (true, packets)
    }
}


pub open spec fn shows(name: Seq<char>) -> spec_fn((DisplaySlot, Option<Seq<char>>)) -> bool {
    |e: (DisplaySlot, Option<Seq<char>>)| e.1 == Some(name)
}

pub open spec fn not_shows(name: Seq<char>) -> spec_fn((DisplaySlot, Option<Seq<char>>)) -> bool {
    |e: (DisplaySlot, Option<Seq<char>>)| e.1 != Some(name)
}

pub open spec fn not_in_objective(name: Seq<char>) -> spec_fn(ScoreView) -> bool {
    |s: ScoreView| s.objective_name != name
}

pub open spec fn name_is_not(name: Seq<char>) -> spec_fn(Seq<char>) -> bool {
    |n: Seq<char>| n != name
}

/// The packets that clear every slot showing objective `name`.
pub open spec fn clear_slot_packets(
    display: Seq<(DisplaySlot, Option<Seq<char>>)>,
    name: Seq<char>,
) -> Seq<PacketView> {
    display.filter(shows(name)).map_values(
        |e: (DisplaySlot, Option<Seq<char>>)|
            PacketView::DisplayObjective { slot: e.0, objective_name: Seq::empty() },
    )
}

impl ScoreboardView {
    /// The criterion index with objective `name` of criterion `criterion`
    /// taken out; an entry left empty is dropped.
    pub open spec fn unindex(self, criterion: Seq<char>, name: Seq<char>) -> Seq<
        (Seq<char>, Seq<Seq<char>>),
    > {
        match self.criterion_index(criterion) {
            Some(i) => {
                let rest = self.by_criterion[i].1.filter(name_is_not(name));
                if rest.len() == 0 {
                    self.by_criterion.remove(i)
                } else {
                    self.by_criterion.update(i, (criterion, rest))
                }
            },
            None => self.by_criterion,
        }
    }

    /// The state after deleting objective `name` once clients no longer know
    /// about it: its slots are cleared, its index entry, the objective and
    /// its scores are gone.
    pub open spec fn without_objective(self, name: Seq<char>) -> ScoreboardView {
        ScoreboardView {
            objectives: self.objectives.remove(self.objective_index(name)->0),
            scores: self.scores.filter(not_in_objective(name)),
            display_objectives: self.display_objectives.filter(not_shows(name)),
            by_criterion: self.unindex(self.objective(name).criterion, name),
            ..self
        }
    }
}

impl Scoreboard {
    /// The update-score packets for every score of objective `name`.
    fn objective_score_packets(&self, name: &String) -> (r: Vec<ScoreboardPacket>)
        ensures
            packets_view(r@) == score_packets(self@.scores, name@),
    {
        let mut packets: Vec<ScoreboardPacket> = Vec::new();
        let mut i: usize = 0;
        while i < self.scores.len()
            invariant
                i <= self.scores@.len(),
                packets_view(packets@) == score_packets(self@.scores.take(i as int), name@),
            decreases self.scores@.len() - i,
        {
            let ghost before = packets@;
            proof {
                assert(self@.scores.take(i + 1) =~= self@.scores.take(i as int).push(
                    self@.scores[i as int],
                ));
                self@.scores.take(i as int).lemma_filter_push(
                    self@.scores[i as int],
                    in_objective(name@),
                );
                assert(self@.scores[i as int] == self.scores@[i as int]@);
            }
            if string_eq(&self.scores[i].objective_name, name) {
                let packet = score_packet_of(&self.scores[i], false);
                packets.push(packet);
                assert(packets_view(packets@) =~= packets_view(before).push(packet@));
            }
            i = i + 1;
        }
        assert(self@.scores.take(self@.scores.len() as int) =~= self@.scores);
        packets
    }

    /// Sends the create packet and all existing scores of objective `name`,
    /// and remembers that clients know it.
    fn start_tracking_objective(&mut self, name: &String) -> (r: Vec<ScoreboardPacket>)
        requires
            old(self)@.wf(),
        ensures
            (final(self)@, packets_view(r@)) == old(self)@.track(name@),
            final(self)@.wf(),
            old(self)@.index_consistent() ==> final(self)@.index_consistent(),
    {
        let mut packets: Vec<ScoreboardPacket> = Vec::new();
        if self.find_tracked(name).is_some() {
            return packets;
        }
        let i = match self.find_objective(name) {
            Some(i) => i,
            None => {
                return packets;
            },
        };
        proof {
            assert(self@.objectives[i as int] == self.objectives@[i as int]@);
        }
        packets.push(objective_packet_of(&self.objectives[i], Mode::Add));
        let scores = self.objective_score_packets(name);
        let ghost first = packets@;
        let mut scores = scores;
        packets.append(&mut scores);
        let ghost v = self@;
        self.tracked_objectives.push(name.clone());
        proof {
            assert(packets_view(packets@) =~= packets_view(first) + score_packets(v.scores, name@));
            assert(self@.tracked_names =~= v.tracked_names.push(name@));
            assert(self@ =~= v.track(name@).0);
            assert forall|a: int, b: int|
                0 <= a < b < self@.tracked_names.len() implies self@.tracked_names[a]
                != self@.tracked_names[b] by {
                if b == v.tracked_names.len() {
                    assert(v.tracked_names[a] != name@);
                }
            }
        }
        packets
    }

    /// Sends the remove packet of objective `name` and forgets that clients
    /// know it.
    fn stop_tracking_objective(&mut self, name: &String) -> (r: Vec<ScoreboardPacket>)
        requires
            old(self)@.wf(),
        ensures
            (final(self)@, packets_view(r@)) == old(self)@.untrack(name@),
            final(self)@.wf(),
            old(self)@.index_consistent() ==> final(self)@.index_consistent(),
    {
        let mut packets: Vec<ScoreboardPacket> = Vec::new();
        let i = match self.find_tracked(name) {
            Some(i) => i,
            None => {
                return packets;
            },
        };
        let ghost v = self@;
        self.tracked_objectives.remove(i);
        packets.push(
            ScoreboardPacket::UpdateObjective {
                objective_name: name.clone(),
                mode: Mode::Remove,
                display_name: TextComponent::empty(),
                render_type: RenderType::Integer,
                number_format: None,
            },
        );
        proof {
            assert(self@.tracked_names =~= v.tracked_names.remove(i as int));
            assert(self@ =~= v.untrack(name@).0);
            assert(packets_view(packets@) =~= seq![remove_objective_packet(name@)]);
            v.tracked_names.remove_ensures(i as int);
        }
        packets
    }
}


/// Deleting an existing objective keeps the keys unique and the criterion
/// index consistent.
#[verifier::spinoff_prover]
#[verifier::rlimit(60)]
proof fn lemma_without_objective(v: ScoreboardView, n: Seq<char>)
    requires
        v.wf(),
        v.has_objective(n),
    ensures
        v.without_objective(n).wf(),
        v.index_consistent() ==> v.without_objective(n).index_consistent(),
        !v.without_objective(n).has_objective(n),
{
    let w = v.without_objective(n);
    lemma_first_where_some(v.objectives, objective_named(n));
    let oi = v.objective_index(n)->0;
    let c = v.objective(n).criterion;
    v.objectives.remove_ensures(oi);
    lemma_filter_unique_keys(
        v.scores,
        not_in_objective(n),
        |s: ScoreView| (s.objective_name, s.entity_name),
    );
    lemma_filter_unique_keys(
        v.display_objectives,
        not_shows(n),
        |e: (DisplaySlot, Option<Seq<char>>)| e.0,
    );
    lemma_first_where_remove_only(v.objectives, objective_named(n), oi);
    assert forall|m: Seq<char>| m != n implies #[trigger] w.has_objective(m) == v.has_objective(m)
        && (v.has_objective(m) ==> w.objective(m) == v.objective(m)) by {
        lemma_first_where_remove(v.objectives, objective_named(m), oi);
        lemma_first_where_some(v.objectives, objective_named(m));
    }
    lemma_first_where_some(v.by_criterion, criterion_is(c));
    match v.criterion_index(c) {
        Some(ci) => {
            let rest = v.by_criterion[ci].1.filter(name_is_not(n));
            lemma_filter_elements(v.by_criterion[ci].1, name_is_not(n));
            if rest.len() == 0 {
                v.by_criterion.remove_ensures(ci);
            }
        },
        None => {},
    }
    if v.index_consistent() {
        let ci = v.criterion_index(c)->0;
        let entry = v.by_criterion[ci];
        let rest = entry.1.filter(name_is_not(n));
        lemma_filter_unique_keys(entry.1, name_is_not(n), |x: Seq<char>| x);
        // An entry other than the one of `c` never lists `n`.
        assert forall|k: int, m: int|
            0 <= k < v.by_criterion.len() && k != ci && 0 <= m < v.by_criterion[k].1.len()
                implies v.by_criterion[k].1[m] != n by {
            let e = v.by_criterion[k];
            assert(v.has_objective(e.1[m]) && v.objective(e.1[m]).criterion == e.0);
            assert(e.0 != c);
        }
        assert forall|k: int| 0 <= k < w.by_criterion.len() implies {
            let e = #[trigger] w.by_criterion[k];
            &&& e.1.len() > 0
            &&& unique_names(e.1)
            &&& forall|m: int|
                0 <= m < e.1.len() ==> w.has_objective(#[trigger] e.1[m]) && w.objective(
                    e.1[m],
                ).criterion == e.0
        } by {
            let e = w.by_criterion[k];
            let ok = if rest.len() == 0 {
                if k < ci {
                    k
                } else {
                    k + 1
                }
            } else {
                k
            };
            if ok == ci {
                assert(e == (c, rest));
                assert forall|m: int| 0 <= m < e.1.len() implies w.has_objective(
                    #[trigger] e.1[m],
                ) && w.objective(e.1[m]).criterion == e.0 by {
                    let x = rest[m];
                    assert(name_is_not(n)(x));
                    assert(entry.1.contains(x));
                    let j = choose|j: int| 0 <= j < entry.1.len() && entry.1[j] == x;
                    assert(v.has_objective(entry.1[j]) && v.objective(entry.1[j]).criterion
                        == entry.0);
                    assert(w.has_objective(x) == v.has_objective(x));
                    assert(w.objective(x) == v.objective(x));
                }
            } else {
                assert(e == v.by_criterion[ok]);
                assert forall|m: int| 0 <= m < e.1.len() implies w.has_objective(
                    #[trigger] e.1[m],
                ) && w.objective(e.1[m]).criterion == e.0 by {
                    let x = v.by_criterion[ok].1[m];
                    assert(v.has_objective(x) && v.objective(x).criterion == v.by_criterion[ok].0);
                    assert(x != n);
                    assert(w.has_objective(x) == v.has_objective(x));
                    assert(w.objective(x) == v.objective(x));
                }
            }
        }
        assert forall|k: int| 0 <= k < w.objectives.len() implies {
            let ob = #[trigger] w.objectives[k];
            &&& w.criterion_index(ob.criterion) is Some
            &&& w.by_criterion[w.criterion_index(ob.criterion)->0].1.contains(ob.name)
        } by {
            let j = if k < oi {
                k
            } else {
                k + 1
            };
            let ob = w.objectives[k];
            assert(ob == v.objectives[j]);
            assert(ob.name != n) by {
                assert(v.objectives[oi].name == n);
            }
            let vk = v.criterion_index(ob.criterion)->0;
            lemma_first_where_some(v.by_criterion, criterion_is(ob.criterion));
            assert(v.by_criterion[vk].1.contains(ob.name));
            if ob.criterion == c {
                assert(vk == ci);
                let mi = choose|mi: int| 0 <= mi < entry.1.len() && entry.1[mi] == ob.name;
                assert(name_is_not(n)(entry.1[mi]));
                assert(rest.contains(ob.name));
                lemma_first_where_update(v.by_criterion, criterion_is(c), ci, (c, rest));
            } else if rest.len() == 0 {
                lemma_first_where_remove(v.by_criterion, criterion_is(ob.criterion), ci);
                let nk = if vk < ci {
                    vk
                } else {
                    vk - 1
                };
                assert(w.by_criterion[nk] == v.by_criterion[vk]);
            } else {
                lemma_first_where_update(v.by_criterion, criterion_is(ob.criterion), ci, (c, rest));
            }
        }
    }
}

fn copy_entry(e: &(DisplaySlot, Option<String>)) -> (r: (DisplaySlot, Option<String>))
    ensures
        display_entry_view(r) == display_entry_view(*e),
{
    (
        e.0,
        match &e.1 {
            Some(n) => Some(n.clone()),
            None => None,
        },
    )
}

fn shows_name(e: &(DisplaySlot, Option<String>), name: &String) -> (r: bool)
    ensures
        r == shows(name@)(display_entry_view(*e)),
{
    match &e.1 {
        Some(n) => string_eq(n, name),
        None => false,
    }
}

impl Scoreboard {
    /// Drops every score of objective `name`.
    fn retain_scores_outside(&mut self, name: &String)
        ensures
            final(self)@ == (ScoreboardView {
                scores: old(self)@.scores.filter(not_in_objective(name@)),
                ..old(self)@
            }),
    {
        let ghost v = self@;
        let mut kept: Vec<ScoreboardScore> = Vec::new();
        let mut i: usize = 0;
        while i < self.scores.len()
            invariant
                self@ == v,
                i <= self.scores@.len(),
                kept@.map_values(|s: ScoreboardScore| s@) == v.scores.take(i as int).filter(
                    not_in_objective(name@),
                ),
            decreases self.scores@.len() - i,
        {
            proof {
                lemma_filter_take_step(v.scores, not_in_objective(name@), i as int);
                assert(v.scores[i as int] == self.scores@[i as int]@);
            }
            if !string_eq(&self.scores[i].objective_name, name) {
                let ghost before = kept@;
                let score = self.scores[i].copy();
                kept.push(score);
                assert(kept@.map_values(|s: ScoreboardScore| s@) =~= before.map_values(
                    |s: ScoreboardScore| s@,
                ).push(score@));
            }
            i = i + 1;
        }
        self.scores = kept;
        proof {
            assert(v.scores.take(v.scores.len() as int) =~= v.scores);
            assert(self@ =~= ScoreboardView {
                scores: v.scores.filter(not_in_objective(name@)),
                ..v
            });
        }
    }

    /// Clears every slot that shows objective `name`, returning the packets
    /// that clear them on the clients.
    fn clear_slots_showing(&mut self, name: &String) -> (r: Vec<ScoreboardPacket>)
        ensures
            final(self)@ == (ScoreboardView {
                display_objectives: old(self)@.display_objectives.filter(not_shows(name@)),
                ..old(self)@
            }),
            packets_view(r@) == clear_slot_packets(old(self)@.display_objectives, name@),
    {
        let ghost v = self@;
        let mut kept: Vec<(DisplaySlot, Option<String>)> = Vec::new();
        let mut packets: Vec<ScoreboardPacket> = Vec::new();
        let mut i: usize = 0;
        while i < self.display_objectives.len()
            invariant
                self@ == v,
                i <= self.display_objectives@.len(),
                kept@.map_values(|e: (DisplaySlot, Option<String>)| display_entry_view(e))
                    == v.display_objectives.take(i as int).filter(not_shows(name@)),
                packets_view(packets@) == clear_slot_packets(
                    v.display_objectives.take(i as int),
                    name@,
                ),
            decreases self.display_objectives@.len() - i,
        {
            proof {
                lemma_filter_take_step(v.display_objectives, not_shows(name@), i as int);
                lemma_filter_take_step(v.display_objectives, shows(name@), i as int);
                assert(v.display_objectives[i as int] == display_entry_view(
                    self.display_objectives@[i as int],
                ));
            }
            if shows_name(&self.display_objectives[i], name) {
                let ghost before = packets@;
                let packet = ScoreboardPacket::DisplayObjective {
                    slot: self.display_objectives[i].0,
                    objective_name: String::new(),
                };
                packets.push(packet);
                assert(packets_view(packets@) =~= packets_view(before).push(packet@));
            } else {
                let ghost before = kept@;
                let entry = copy_entry(&self.display_objectives[i]);
                kept.push(entry);
                assert(kept@.map_values(|e: (DisplaySlot, Option<String>)| display_entry_view(e))
                    =~= before.map_values(
                    |e: (DisplaySlot, Option<String>)| display_entry_view(e),
                ).push(display_entry_view(entry)));
            }
            i = i + 1;
        }
        self.display_objectives = kept;
        proof {
            assert(v.display_objectives.take(v.display_objectives.len() as int)
                =~= v.display_objectives);
            assert(self@ =~= ScoreboardView {
                display_objectives: v.display_objectives.filter(not_shows(name@)),
                ..v
            });
        }
        packets
    }

    /// Takes objective `name` out of the index entry of `criterion`.
    fn unindex_objective(&mut self, criterion: &String, name: &String)
        ensures
            final(self)@ == (ScoreboardView {
                by_criterion: old(self)@.unindex(criterion@, name@),
                ..old(self)@
            }),
    {
        let ghost v = self@;
        let ci = match self.find_criterion(criterion) {
            Some(ci) => ci,
            None => {
                return ;
            },
        };
        let ghost entry = v.by_criterion[ci as int];
        proof {
            assert(entry == criterion_entry_view(self.objectives_by_criterion@[ci as int]));
        }
        let mut rest: Vec<String> = Vec::new();
        let mut i: usize = 0;
        while i < self.objectives_by_criterion[ci].1.len()
            invariant
                self@ == v,
                ci < self.objectives_by_criterion@.len(),
                entry.1 == names_view(self.objectives_by_criterion@[ci as int].1@),
                i <= entry.1.len(),
                names_view(rest@) == entry.1.take(i as int).filter(name_is_not(name@)),
            decreases entry.1.len() - i,
        {
            proof {
                lemma_filter_take_step(entry.1, name_is_not(name@), i as int);
            }
            if !string_eq(&self.objectives_by_criterion[ci].1[i], name) {
                let ghost before = rest@;
                let n = self.objectives_by_criterion[ci].1[i].clone();
                rest.push(n);
                assert(names_view(rest@) =~= names_view(before).push(n@));
            }
            i = i + 1;
        }
        proof {
            assert(entry.1.take(entry.1.len() as int) =~= entry.1);
        }
        if rest.len() == 0 {
            self.objectives_by_criterion.remove(ci);
            proof {
                assert(self@.by_criterion =~= v.by_criterion.remove(ci as int));
            }
        } else {
            let key = self.objectives_by_criterion[ci].0.clone();
            self.objectives_by_criterion.set(ci, (key, rest));
            proof {
                assert(self@.by_criterion =~= v.by_criterion.update(
                    ci as int,
                    (criterion@, entry.1.filter(name_is_not(name@))),
                ));
            }
        }
        proof {
            assert(self@ =~= ScoreboardView { by_criterion: v.unindex(criterion@, name@), ..v });
        }
    }

    /// Removes an objective: clients forget it, the slots that show it are
    /// cleared, and its scores are deleted. A missing objective is ignored.
    pub fn remove_objective(&mut self, name: &str) -> (r: Vec<ScoreboardPacket>)
        requires
            old(self)@.wf(),
        ensures
            final(self)@.wf(),
            old(self)@.index_consistent() ==> final(self)@.index_consistent(),
            !old(self)@.has_objective(name@) ==> final(self)@ == old(self)@ && r@.len() == 0,
            old(self)@.has_objective(name@) ==> {
                let (untracked, removed) = old(self)@.untrack(name@);
                &&& final(self)@ == untracked.without_objective(name@)
                &&& packets_view(r@) == removed + clear_slot_packets(
                    old(self)@.display_objectives,
                    name@,
                )
            },
    {
        let key = name.to_owned();
        let i = match self.find_objective(&key) {
            Some(i) => i,
            None => {
                return Vec::new();
            },
        };
        let ghost v = self@;
        let criterion = self.objectives[i].criterion.clone();
        proof {
            assert(v.objectives[i as int] == self.objectives@[i as int]@);
        }
        let mut packets = self.stop_tracking_objective(&key);
        let ghost v1 = self@;
        let ghost p1 = packets@;
        let mut cleared = self.clear_slots_showing(&key);
        packets.append(&mut cleared);
        self.unindex_objective(&criterion, &key);
        self.objectives.remove(i);
        self.retain_scores_outside(&key);
        proof {
            assert(packets_view(packets@) =~= packets_view(p1) + clear_slot_packets(
                v.display_objectives,
                name@,
            ));
            assert(self@.objectives =~= v1.objectives.remove(i as int));
            assert(self@ =~= v1.without_objective(name@));
            lemma_without_objective(v1, name@);
        }
        packets
    }
}


impl ScoreboardView {
    /// The state with `slot` showing `name` (or cleared when `None`).
    pub open spec fn with_slot(self, slot: DisplaySlot, name: Option<Seq<char>>) -> ScoreboardView {
        ScoreboardView {
            display_objectives: match self.slot_index(slot) {
                Some(i) => self.display_objectives.update(i, (slot, name)),
                None => self.display_objectives.push((slot, name)),
            },
            ..self
        }
    }

    /// Some slot shows objective `name`.
    pub open spec fn is_displayed(self, name: Seq<char>) -> bool {
        exists|i: int|
            0 <= i < self.display_objectives.len() && #[trigger] self.display_objectives[i].1
                == Some(name)
    }
}

/// The packets and state of showing `name` in `slot`: objective `name` is
/// first sent to clients if they do not know it yet, the slot packet follows,
/// and the objective the slot showed before is removed from the clients when
/// no slot shows it any more.
pub open spec fn set_display_result(
    v: ScoreboardView,
    slot: DisplaySlot,
    name: Option<Seq<char>>,
) -> (ScoreboardView, Seq<PacketView>) {
    let (v1, p1) = match name {
        Some(n) => v.track(n),
        None => (v, Seq::empty()),
    };
    let v2 = v1.with_slot(slot, name);
    let shown = PacketView::DisplayObjective {
        slot,
        objective_name: match name {
            Some(n) => n,
            None => Seq::empty(),
        },
    };
    let (v3, p3) = match v.display_objective(slot) {
        Some(o) => if name != Some(o) && !v2.is_displayed(o) {
            v2.untrack(o)
        } else {
            (v2, Seq::empty())
        },
        None => (v2, Seq::empty()),
    };
    (v3, p1 + seq![shown] + p3)
}

/// The view of an optional name.
pub open spec fn option_view(name: Option<String>) -> Option<Seq<char>> {
    match name {
        Some(n) => Some(n@),
        None => None,
    }
}

/// Binding a slot keeps the keys unique and the criterion index as it was.
proof fn lemma_with_slot_wf(v: ScoreboardView, slot: DisplaySlot, name: Option<Seq<char>>)
    requires
        v.wf(),
    ensures
        v.with_slot(slot, name).wf(),
        v.index_consistent() ==> v.with_slot(slot, name).index_consistent(),
{
    let w = v.with_slot(slot, name);
    lemma_first_where_some(v.display_objectives, slot_is(slot));
    assert forall|a: int, b: int|
        0 <= a < b < w.display_objectives.len() implies w.display_objectives[a].0
        != w.display_objectives[b].0 by {
        if v.slot_index(slot) is None {
            if b == v.display_objectives.len() {
                assert(!slot_is(slot)(v.display_objectives[a]));
            }
        }
    }
}

impl Scoreboard {
    /// Binds `slot` to `name` (or clears it), replacing its earlier binding.
    fn bind_slot(&mut self, slot: DisplaySlot, name: Option<String>)
        requires
            old(self)@.wf(),
        ensures
            final(self)@ == old(self)@.with_slot(slot, option_view(name)),
            final(self)@.wf(),
            old(self)@.index_consistent() ==> final(self)@.index_consistent(),
    {
        let ghost v = self@;
        let ghost name_view = option_view(name);
        match self.find_slot(slot) {
            Some(i) => {
                self.display_objectives.set(i, (slot, name));
                proof {
                    assert(self@.display_objectives =~= v.display_objectives.update(
                        i as int,
                        (slot, name_view),
                    ));
                }
            },
            None => {
                self.display_objectives.push((slot, name));
                proof {
                    assert(self@.display_objectives =~= v.display_objectives.push(
                        (slot, name_view),
                    ));
                }
            },
        }
        proof {
            assert(self@ =~= v.with_slot(slot, name_view));
            lemma_with_slot_wf(v, slot, name_view);
        }
    }
}

impl Scoreboard {
    fn any_slot_shows(&self, name: &String) -> (r: bool)
        ensures
            r == self@.is_displayed(name@),
    {
        let mut i: usize = 0;
        while i < self.display_objectives.len()
            invariant
                i <= self.display_objectives@.len(),
                forall|j: int| 0 <= j < i ==> self@.display_objectives[j].1 != Some(name@),
            decreases self.display_objectives@.len() - i,
        {
            proof {
                assert(self@.display_objectives[i as int] == display_entry_view(
                    self.display_objectives@[i as int],
                ));
            }
            if shows_name(&self.display_objectives[i], name) {
                return true;
            }
            i = i + 1;
        }
        false
    }

    /// Shows objective `objective_name` in `slot`, or clears the slot when
    /// `None`, and returns the packets that tell the clients.
    pub fn set_display_objective(&mut self, slot: DisplaySlot, objective_name: Option<&str>) -> (r:
        Vec<ScoreboardPacket>)
        requires
            old(self)@.wf(),
        ensures
            final(self)@.wf(),
            old(self)@.index_consistent() ==> final(self)@.index_consistent(),
            (final(self)@, packets_view(r@)) == set_display_result(
                old(self)@,
                slot,
                match objective_name {
                    Some(n) => Some(n@),
                    None => None,
                },
            ),
    {
        let ghost v = self@;
        let ghost name_view: Option<Seq<char>> = match objective_name {
            Some(n) => Some(n@),
            None => None,
        };
        let old_objective: Option<String> = match self.get_display_objective(&slot) {
            Some(n) => Some(n.to_owned()),
            None => None,
        };
        let owned_name: Option<String> = match objective_name {
            Some(n) => Some(n.to_owned()),
            None => None,
        };
        let mut packets: Vec<ScoreboardPacket> = match &owned_name {
            Some(n) => self.start_tracking_objective(n),
            None => Vec::new(),
        };
        let ghost v1 = self@;
        let ghost p1 = packets@;
        let shown = match &owned_name {
            Some(n) => n.clone(),
            None => String::new(),
        };
        let shown_packet = ScoreboardPacket::DisplayObjective { slot, objective_name: shown };
        packets.push(shown_packet);
        let stored = match &owned_name {
            Some(n) => Some(n.clone()),
            None => None,
        };
        self.bind_slot(slot, stored);
        let ghost p2 = packets@;
        if let Some(old_name) = old_objective {
            let same = match &owned_name {
                Some(n) => string_eq(n, &old_name),
                None => false,
            };
            if !same && !self.any_slot_shows(&old_name) {
                let mut removed = self.stop_tracking_objective(&old_name);
                packets.append(&mut removed);
            }
        }
        proof {
            assert(packets_view(p2) =~= packets_view(p1).push(shown_packet@));
            assert(packets_view(packets@) =~= set_display_result(v, slot, name_view).1);
        }
        packets
    }
}


impl ScoreboardView {
    /// The state with score `s` stored under its objective and holder: an
    /// existing score is replaced in place, a new one is appended.
    pub open spec fn with_score(self, s: ScoreView) -> ScoreboardView {
        ScoreboardView {
            scores: match self.score_index(s.objective_name, s.entity_name) {
                Some(i) => self.scores.update(i, s),
                None => self.scores.push(s),
            },
            ..self
        }
    }
}

/// The score as stored: when its objective auto-updates display names, the
/// display name becomes the holder's name.
pub open spec fn stored_score(v: ScoreboardView, s: ScoreView) -> ScoreView {
    if v.objective(s.objective_name).display_auto_update {
        ScoreView { display_name: Some(s.entity_name), ..s }
    } else {
        s
    }
}

/// Setting score `s`: ignored when its objective does not exist; otherwise
/// stored, and sent to Java and Bedrock clients when they know the objective.
pub open spec fn update_score_result(v: ScoreboardView, s: ScoreView) -> (
    ScoreboardView,
    Seq<PacketView>,
) {
    if !v.has_objective(s.objective_name) {
        (v, Seq::empty())
    } else {
        let t = stored_score(v, s);
        (
            v.with_score(t),
            if v.is_tracked(s.objective_name) {
                seq![score_packet(t, true)]
            } else {
                Seq::empty()
            },
        )
    }
}

/// Keeps the score keys unique after storing `s`.
proof fn lemma_with_score_wf(v: ScoreboardView, s: ScoreView)
    requires
        v.wf(),
    ensures
        v.with_score(s).wf(),
        v.index_consistent() ==> v.with_score(s).index_consistent(),
{
    lemma_first_where_some(v.scores, score_of(s.objective_name, s.entity_name));
    match v.score_index(s.objective_name, s.entity_name) {
        Some(i) => {},
        None => {
            assert forall|j: int| 0 <= j < v.scores.len() implies !score_of(
                s.objective_name,
                s.entity_name,
            )(#[trigger] v.scores[j]) by {}
        },
    }
}

impl Scoreboard {
    /// Stores `score`, replacing the one with the same objective and holder.
    fn put_score(&mut self, score: ScoreboardScore)
        requires
            old(self)@.wf(),
        ensures
            final(self)@ == old(self)@.with_score(score@),
            final(self)@.wf(),
            old(self)@.index_consistent() ==> final(self)@.index_consistent(),
    {
        let ghost v = self@;
        let ghost sv = score@;
        match self.find_score(&score.objective_name, &score.entity_name) {
            Some(i) => {
                self.scores.set(i, score);
                proof {
                    assert(self@.scores =~= v.scores.update(i as int, sv));
                }
            },
            None => {
                self.scores.push(score);
                proof {
                    assert(self@.scores =~= v.scores.push(sv));
                }
            },
        }
        proof {
            assert(self@ =~= v.with_score(sv));
            lemma_with_score_wf(v, sv);
        }
    }

    /// Sets a score. A score for a missing objective is ignored; when the
    /// objective auto-updates display names, the score shows its holder's
    /// name; clients that know the objective are sent the new score.
    pub fn update_score(&mut self, score: ScoreboardScore) -> (r: Vec<ScoreboardPacket>)
        requires
            old(self)@.wf(),
        ensures
            final(self)@.wf(),
            old(self)@.index_consistent() ==> final(self)@.index_consistent(),
            (final(self)@, packets_view(r@)) == update_score_result(old(self)@, score@),
    {
        let ghost given = score@;
        let mut score = score;
        let mut packets: Vec<ScoreboardPacket> = Vec::new();
        let i = match self.find_objective(&score.objective_name) {
            Some(i) => i,
            None => {
                return packets;
            },
        };
        proof {
            assert(self@.objectives[i as int] == self.objectives@[i as int]@);
        }
        if self.objectives[i].display_auto_update {
            let entity_display = TextComponent::text(score.entity_name.clone());
            score.display_name = Some(entity_display);
        }
        if self.find_tracked(&score.objective_name).is_some() {
            packets.push(score_packet_of(&score, true));
        }
        self.put_score(score);
        assert(packets_view(packets@) =~= update_score_result(old(self)@, given).1);
        packets
    }

    /// Removes a score; clients that know the objective are told.
    pub fn remove_score(&mut self, entity_name: &str, objective_name: &str) -> (r: Vec<
        ScoreboardPacket,
    >)
        requires
            old(self)@.wf(),
        ensures
            final(self)@.wf(),
            old(self)@.index_consistent() ==> final(self)@.index_consistent(),
            packets_view(r@) == if old(self)@.is_tracked(objective_name@) {
                seq![
                    PacketView::RemoveScore {
                        entity_name: entity_name@,
                        objective_name: objective_name@,
                    },
                ]
            } else {
                Seq::empty()
            },
            final(self)@ == match old(self)@.score_index(objective_name@, entity_name@) {
                Some(i) => ScoreboardView { scores: old(self)@.scores.remove(i), ..old(self)@ },
                None => old(self)@,
            },
    {
        let objective = objective_name.to_owned();
        let entity = entity_name.to_owned();
        let mut packets: Vec<ScoreboardPacket> = Vec::new();
        if self.find_tracked(&objective).is_some() {
            packets.push(
                ScoreboardPacket::RemoveScore {
                    entity_name: entity.clone(),
                    objective_name: objective.clone(),
                },
            );
        }
        let ghost v = self@;
        if let Some(i) = self.find_score(&objective, &entity) {
            self.scores.remove(i);
            proof {
                assert(self@.scores =~= v.scores.remove(i as int));
                assert(self@ =~= ScoreboardView { scores: v.scores.remove(i as int), ..v });
                v.scores.remove_ensures(i as int);
            }
        }
        assert(packets_view(packets@) =~= (if v.is_tracked(objective_name@) {
            seq![
                PacketView::RemoveScore {
                    entity_name: entity_name@,
                    objective_name: objective_name@,
                },
            ]
        } else {
            Seq::empty()
        }));
        packets
    }

    /// Resets one score of a holder; clients that know the objective are
    /// told when a score was removed.
    pub fn reset_single_player_score(&mut self, entity_name: &str, objective_name: &str) -> (r:
        Vec<ScoreboardPacket>)
        requires
            old(self)@.wf(),
        ensures
            final(self)@.wf(),
            old(self)@.index_consistent() ==> final(self)@.index_consistent(),
            final(self)@ == match old(self)@.score_index(objective_name@, entity_name@) {
                Some(i) => ScoreboardView { scores: old(self)@.scores.remove(i), ..old(self)@ },
                None => old(self)@,
            },
            packets_view(r@) == if old(self)@.has_score(objective_name@, entity_name@)
                && old(self)@.is_tracked(objective_name@) {
                seq![
                    PacketView::ResetScore {
                        entity_name: entity_name@,
                        objective_name: Some(objective_name@),
                    },
                ]
            } else {
                Seq::empty()
            },
    {
        let objective = objective_name.to_owned();
        let entity = entity_name.to_owned();
        let mut packets: Vec<ScoreboardPacket> = Vec::new();
        let ghost v = self@;
        if let Some(i) = self.find_score(&objective, &entity) {
            self.scores.remove(i);
            proof {
                assert(self@.scores =~= v.scores.remove(i as int));
                assert(self@ =~= ScoreboardView { scores: v.scores.remove(i as int), ..v });
                v.scores.remove_ensures(i as int);
            }
            if self.find_tracked(&objective).is_some() {
                packets.push(
                    ScoreboardPacket::ResetScore {
                        entity_name: entity.clone(),
                        objective_name: Some(objective.clone()),
                    },
                );
                assert(packets_view(packets@) =~= seq![
                    PacketView::ResetScore {
                        entity_name: entity_name@,
                        objective_name: Some(objective_name@),
                    },
                ]);
            }
        }
        packets
    }

    /// Replaces the score at `i` by `s`, which has its objective and holder.
    fn replace_score(&mut self, i: usize, s: ScoreboardScore)
        requires
            old(self)@.wf(),
            i < old(self)@.scores.len(),
            old(self)@.scores[i as int].objective_name == s@.objective_name,
            old(self)@.scores[i as int].entity_name == s@.entity_name,
        ensures
            final(self)@ == (ScoreboardView {
                scores: old(self)@.scores.update(i as int, s@),
                ..old(self)@
            }),
            final(self)@.wf(),
            old(self)@.index_consistent() ==> final(self)@.index_consistent(),
    {
        let ghost v = self@;
        let ghost sv = s@;
        self.scores.set(i, s);
        proof {
            assert(self@.scores =~= v.scores.update(i as int, sv));
            assert(self@ =~= ScoreboardView { scores: v.scores.update(i as int, sv), ..v });
        }
    }

    /// Sets the number format of an existing score. Returns whether the score
    /// exists, and the packet that shows it when clients know the objective.
    pub fn set_score_number_format(
        &mut self,
        entity_name: &str,
        objective_name: &str,
        number_format: Option<NumberFormat>,
    ) -> (r: (bool, Vec<ScoreboardPacket>))
        requires
            old(self)@.wf(),
        ensures
            final(self)@.wf(),
            old(self)@.index_consistent() ==> final(self)@.index_consistent(),
            r.0 == old(self)@.has_score(objective_name@, entity_name@),
            !r.0 ==> final(self)@ == old(self)@ && r.1@.len() == 0,
            r.0 ==> {
                let i = old(self)@.score_index(objective_name@, entity_name@)->0;
                let s = ScoreView {
                    number_format: format_view(number_format),
                    ..old(self)@.scores[i]
                };
                &&& final(self)@ == (ScoreboardView {
                    scores: old(self)@.scores.update(i, s),
                    ..old(self)@
                })
                &&& packets_view(r.1@) == if old(self)@.is_tracked(objective_name@) {
                    seq![score_packet(s, false)]
                } else {
                    Seq::empty()
                }
            },
    {
        let objective = objective_name.to_owned();
        let entity = entity_name.to_owned();
        let mut packets: Vec<ScoreboardPacket> = Vec::new();
        let i = match self.find_score(&objective, &entity) {
            Some(i) => i,
            None => {
                return (false, packets);
            },
        };
        proof {
            assert(self@.scores[i as int] == self.scores@[i as int]@);
        }
        let mut updated = self.scores[i].copy();
        updated.number_format = number_format;
        if self.find_tracked(&objective).is_some() {
            packets.push(score_packet_of(&updated, false));
        }
        self.replace_score(i, updated);
        assert(packets_view(packets@) =~= (if old(self)@.is_tracked(objective_name@) {
            seq![score_packet(self@.scores[i as int], false)]
        } else {
            Seq::empty()
        }));
        (true, packets)
    }

    /// Sets the display name of an existing score. Returns whether the score
    /// exists, and the packet that shows it when clients know the objective.
    pub fn set_score_display_name(
        &mut self,
        entity_name: &str,
        objective_name: &str,
        display_name: Option<TextComponent>,
    ) -> (r: (bool, Vec<ScoreboardPacket>))
        requires
            old(self)@.wf(),
        ensures
            final(self)@.wf(),
            old(self)@.index_consistent() ==> final(self)@.index_consistent(),
            r.0 == old(self)@.has_score(objective_name@, entity_name@),
            !r.0 ==> final(self)@ == old(self)@ && r.1@.len() == 0,
            r.0 ==> {
                let i = old(self)@.score_index(objective_name@, entity_name@)->0;
                let s = ScoreView { display_name: text_view(display_name), ..old(self)@.scores[i] };
                &&& final(self)@ == (ScoreboardView {
                    scores: old(self)@.scores.update(i, s),
                    ..old(self)@
                })
                &&& packets_view(r.1@) == if old(self)@.is_tracked(objective_name@) {
                    seq![score_packet(s, false)]
                } else {
                    Seq::empty()
                }
            },
    {
        let objective = objective_name.to_owned();
        let entity = entity_name.to_owned();
        let mut packets: Vec<ScoreboardPacket> = Vec::new();
        let i = match self.find_score(&objective, &entity) {
            Some(i) => i,
            None => {
                return (false, packets);
            },
        };
        proof {
            assert(self@.scores[i as int] == self.scores@[i as int]@);
        }
        let mut updated = self.scores[i].copy();
        updated.display_name = display_name;
        if self.find_tracked(&objective).is_some() {
            packets.push(score_packet_of(&updated, false));
        }
        self.replace_score(i, updated);
        assert(packets_view(packets@) =~= (if old(self)@.is_tracked(objective_name@) {
            seq![score_packet(self@.scores[i as int], false)]
        } else {
            Seq::empty()
        }));
        (true, packets)
    }
}


pub open spec fn held_by(entity: Seq<char>) -> spec_fn(ScoreView) -> bool {
    |s: ScoreView| s.entity_name == entity
}

pub open spec fn not_held_by(entity: Seq<char>) -> spec_fn(ScoreView) -> bool {
    |s: ScoreView| s.entity_name != entity
}

pub open spec fn tracked_in(v: ScoreboardView) -> spec_fn(ScoreView) -> bool {
    |s: ScoreView| v.is_tracked(s.objective_name)
}

pub open spec fn reset_packet(entity: Seq<char>) -> spec_fn(ScoreView) -> PacketView {
    |s: ScoreView| PacketView::ResetScore { entity_name: entity, objective_name: Some(s.objective_name) }
}

/// The packets that reset every score of `entity`: one per objective that
/// clients know, then one for all objectives when any score was removed.
pub open spec fn reset_all_packets(v: ScoreboardView, entity: Seq<char>) -> Seq<PacketView> {
    let removed = v.scores.filter(held_by(entity));
    removed.filter(tracked_in(v)).map_values(reset_packet(entity)) + if removed.len() > 0 {
        seq![PacketView::ResetScore { entity_name: entity, objective_name: None }]
    } else {
        Seq::empty()
    }
}

impl Scoreboard {
    /// Resets every score of a holder across all objectives.
    #[verifier::spinoff_prover]
    #[verifier::rlimit(40)]
    pub fn reset_all_player_scores(&mut self, entity_name: &str) -> (r: Vec<ScoreboardPacket>)
        requires
            old(self)@.wf(),
        ensures
            final(self)@.wf(),
            old(self)@.index_consistent() ==> final(self)@.index_consistent(),
            final(self)@ == (ScoreboardView {
                scores: old(self)@.scores.filter(not_held_by(entity_name@)),
                ..old(self)@
            }),
            packets_view(r@) == reset_all_packets(old(self)@, entity_name@),
    {
        let ghost v = self@;
        let entity = entity_name.to_owned();
        let mut kept: Vec<ScoreboardScore> = Vec::new();
        let mut packets: Vec<ScoreboardPacket> = Vec::new();
        let mut any_removed = false;
        let mut i: usize = 0;
        while i < self.scores.len()
            invariant
                self@ == v,
                i <= self.scores@.len(),
                kept@.map_values(|s: ScoreboardScore| s@) == v.scores.take(i as int).filter(
                    not_held_by(entity@),
                ),
                packets_view(packets@) == v.scores.take(i as int).filter(held_by(entity@)).filter(
                    tracked_in(v),
                ).map_values(reset_packet(entity@)),
                any_removed == (v.scores.take(i as int).filter(held_by(entity@)).len() > 0),
            decreases self.scores@.len() - i,
        {
            let ghost x = v.scores[i as int];
            let ghost held = v.scores.take(i as int).filter(held_by(entity@));
            proof {
                lemma_filter_take_step(v.scores, not_held_by(entity@), i as int);
                lemma_filter_take_step(v.scores, held_by(entity@), i as int);
                held.lemma_filter_push(x, tracked_in(v));
                assert(x == self.scores@[i as int]@);
            }
            if string_eq(&self.scores[i].entity_name, &entity) {
                any_removed = true;
                if self.find_tracked(&self.scores[i].objective_name).is_some() {
                    let ghost before = packets@;
                    let packet = ScoreboardPacket::ResetScore {
                        entity_name: entity.clone(),
                        objective_name: Some(self.scores[i].objective_name.clone()),
                    };
                    packets.push(packet);
                    proof {
                        let tracked_held = held.filter(tracked_in(v));
                        assert(packet@ == reset_packet(entity@)(x));
                        assert(tracked_held.push(x).map_values(reset_packet(entity@))
                            =~= tracked_held.map_values(reset_packet(entity@)).push(packet@));
                        assert(packets_view(packets@) =~= packets_view(before).push(packet@));
                    }
                }
            } else {
                let ghost before = kept@;
                let score = self.scores[i].copy();
                kept.push(score);
                assert(kept@.map_values(|s: ScoreboardScore| s@) =~= before.map_values(
                    |s: ScoreboardScore| s@,
                ).push(score@));
            }
            i = i + 1;
        }
        proof {
            assert(v.scores.take(v.scores.len() as int) =~= v.scores);
        }
        let ghost p1 = packets@;
        if any_removed {
            packets.push(ScoreboardPacket::ResetScore { entity_name: entity, objective_name: None });
        }
        self.scores = kept;
        proof {
            assert(self@ =~= ScoreboardView { scores: v.scores.filter(not_held_by(entity_name@)), ..v });
            assert(packets_view(packets@) =~= reset_all_packets(v, entity_name@));
            lemma_filter_unique_keys(
                v.scores,
                not_held_by(entity_name@),
                |s: ScoreView| (s.objective_name, s.entity_name),
            );
        }
        packets
    }

    /// Every score in objective `objective_name`, in order.
    pub fn list_scores_for_objective(&self, objective_name: &str) -> (r: Vec<ScoreboardScore>)
        ensures
            r@.map_values(|s: ScoreboardScore| s@) == self@.scores.filter(
                in_objective(objective_name@),
            ),
    {
        let name = objective_name.to_owned();
        let mut found: Vec<ScoreboardScore> = Vec::new();
        let mut i: usize = 0;
        while i < self.scores.len()
            invariant
                i <= self.scores@.len(),
                found@.map_values(|s: ScoreboardScore| s@) == self@.scores.take(i as int).filter(
                    in_objective(name@),
                ),
            decreases self.scores@.len() - i,
        {
            proof {
                lemma_filter_take_step(self@.scores, in_objective(name@), i as int);
                assert(self@.scores[i as int] == self.scores@[i as int]@);
            }
            if string_eq(&self.scores[i].objective_name, &name) {
                let ghost before = found@;
                let score = self.scores[i].copy();
                found.push(score);
                assert(found@.map_values(|s: ScoreboardScore| s@) =~= before.map_values(
                    |s: ScoreboardScore| s@,
                ).push(score@));
            }
            i = i + 1;
        }
        proof {
            assert(self@.scores.take(self@.scores.len() as int) =~= self@.scores);
        }
        found
    }

    /// The objective and value of every score of holder `entity_name`.
    pub fn list_scores_for_player(&self, entity_name: &str) -> (r: Vec<(String, i32)>)
        ensures
            r@.map_values(|e: (String, i32)| (e.0@, e.1)) == self@.scores.filter(
                held_by(entity_name@),
            ).map_values(|s: ScoreView| (s.objective_name, s.value)),
    {
        let entity = entity_name.to_owned();
        let mut found: Vec<(String, i32)> = Vec::new();
        let mut i: usize = 0;
        while i < self.scores.len()
            invariant
                i <= self.scores@.len(),
                found@.map_values(|e: (String, i32)| (e.0@, e.1)) == self@.scores.take(
                    i as int,
                ).filter(held_by(entity@)).map_values(
                    |s: ScoreView| (s.objective_name, s.value),
                ),
            decreases self.scores@.len() - i,
        {
            proof {
                lemma_filter_take_step(self@.scores, held_by(entity@), i as int);
                assert(self@.scores[i as int] == self.scores@[i as int]@);
            }
            if string_eq(&self.scores[i].entity_name, &entity) {
                let ghost before = found@;
                let entry = (self.scores[i].objective_name.clone(), self.scores[i].value);
                found.push(entry);
                assert(found@.map_values(|e: (String, i32)| (e.0@, e.1)) =~= before.map_values(
                    |e: (String, i32)| (e.0@, e.1),
                ).push((entry.0@, entry.1)));
            }
            i = i + 1;
        }
        proof {
            assert(self@.scores.take(self@.scores.len() as int) =~= self@.scores);
        }
        found
    }
}


/// A set-player-team packet.
pub open spec fn team_packet(
    name: Seq<char>,
    method: TeamMethod,
    parameters: Option<TeamParametersView>,
    players: Seq<Seq<char>>,
) -> PacketView {
    PacketView::SetPlayerTeam { team_name: name, method, parameters, players }
}

/// The team `t` with `player` no longer among its members.
pub open spec fn without_member(t: TeamView, player: Seq<char>) -> TeamView {
    TeamView { players: t.players.filter(name_is_not(player)), ..t }
}

/// Whether `t` is another team than `team_name` that lists `player`.
pub open spec fn other_team_with(team_name: Seq<char>, player: Seq<char>) -> spec_fn(TeamView) -> bool {
    |t: TeamView| t.name != team_name && t.players.contains(player)
}

/// Every team but `team_name`, with `player` taken out of it.
pub open spec fn leave_other_teams(teams: Seq<TeamView>, team_name: Seq<char>, player: Seq<char>) -> Seq<
    TeamView,
> {
    teams.map_values(|t: TeamView| leave_team(t, team_name, player))
}

/// Team `t` after `player` joined team `team_name`.
pub open spec fn leave_team(t: TeamView, team_name: Seq<char>, player: Seq<char>) -> TeamView {
    if other_team_with(team_name, player)(t) {
        without_member(t, player)
    } else {
        t
    }
}

/// The packets that take `player` out of every other team that lists them.
pub open spec fn leave_packets(teams: Seq<TeamView>, team_name: Seq<char>, player: Seq<char>) -> Seq<
    PacketView,
> {
    teams.filter(other_team_with(team_name, player)).map_values(
        |t: TeamView| team_packet(t.name, TeamMethod::RemovePlayers, None, seq![player]),
    )
}

/// The teams after `player` joins team `team_name`: every other team
/// without the player, and the team listing the player (appended when it
/// did not list them).
pub open spec fn joined_teams(v: ScoreboardView, team_name: Seq<char>, player: Seq<char>) -> Seq<TeamView> {
    let left = leave_other_teams(v.teams, team_name, player);
    let t = v.team_index(team_name)->0;
    let target = v.teams[t];
    if target.players.contains(player) {
        left
    } else {
        left.update(t, TeamView { players: target.players.push(player), ..target })
    }
}

/// Changing the players of the team at `i` keeps the keys unique.
proof fn lemma_teams_update_wf(v: ScoreboardView, i: int, t: TeamView)
    requires
        v.wf(),
        0 <= i < v.teams.len(),
        t.name == v.teams[i].name,
    ensures
        (ScoreboardView { teams: v.teams.update(i, t), ..v }).wf(),
        v.index_consistent() ==> (ScoreboardView { teams: v.teams.update(i, t), ..v }).index_consistent(),
{
}

impl Scoreboard {
    /// Creates a team and tells the clients; a taken name is ignored.
    pub fn add_team(&mut self, team: Team) -> (r: Vec<ScoreboardPacket>)
        requires
            old(self)@.wf(),
        ensures
            final(self)@.wf(),
            old(self)@.index_consistent() ==> final(self)@.index_consistent(),
            old(self)@.has_team(team@.name) ==> final(self)@ == old(self)@ && r@.len() == 0,
            !old(self)@.has_team(team@.name) ==> {
                &&& final(self)@ == (ScoreboardView {
                    teams: old(self)@.teams.push(team@),
                    ..old(self)@
                })
                &&& packets_view(r@) == seq![
                    team_packet(
                        team@.name,
                        TeamMethod::Create,
                        Some(team_parameters(team@)),
                        team@.players,
                    ),
                ]
            },
    {
        let mut packets: Vec<ScoreboardPacket> = Vec::new();
        if self.find_team(&team.name).is_some() {
            return packets;
        }
        let ghost v = self@;
        let ghost tv = team@;
        packets.push(
            ScoreboardPacket::SetPlayerTeam {
                team_name: team.name.clone(),
                method: TeamMethod::Create,
                parameters: Some(team.parameters()),
                players: copy_names(&team.players),
            },
        );
        self.teams.push(team);
        proof {
            assert(self@.teams =~= v.teams.push(tv));
            assert(self@ =~= ScoreboardView { teams: v.teams.push(tv), ..v });
            assert(packets_view(packets@) =~= seq![
                team_packet(tv.name, TeamMethod::Create, Some(team_parameters(tv)), tv.players),
            ]);
            assert forall|j: int| 0 <= j < v.teams.len() implies v.teams[j].name != tv.name by {
                assert(!team_named(tv.name)(v.teams[j]));
            }
        }
        packets
    }

    /// Replaces the settings of an existing team and tells the clients; a
    /// missing team is ignored.
    pub fn update_team(&mut self, team: Team) -> (r: Vec<ScoreboardPacket>)
        requires
            old(self)@.wf(),
        ensures
            final(self)@.wf(),
            old(self)@.index_consistent() ==> final(self)@.index_consistent(),
            !old(self)@.has_team(team@.name) ==> final(self)@ == old(self)@ && r@.len() == 0,
            old(self)@.has_team(team@.name) ==> {
                &&& final(self)@ == (ScoreboardView {
                    teams: old(self)@.teams.update(old(self)@.team_index(team@.name)->0, team@),
                    ..old(self)@
                })
                &&& packets_view(r@) == seq![
                    team_packet(
                        team@.name,
                        TeamMethod::Update,
                        Some(team_parameters(team@)),
                        Seq::empty(),
                    ),
                ]
            },
    {
        let mut packets: Vec<ScoreboardPacket> = Vec::new();
        let i = match self.find_team(&team.name) {
            Some(i) => i,
            None => {
                return packets;
            },
        };
        let ghost v = self@;
        let ghost tv = team@;
        proof {
            assert(v.teams[i as int] == self.teams@[i as int]@);
        }
        let no_players: Vec<String> = Vec::new();
        assert(names_view(no_players@) =~= Seq::empty());
        packets.push(
            ScoreboardPacket::SetPlayerTeam {
                team_name: team.name.clone(),
                method: TeamMethod::Update,
                parameters: Some(team.parameters()),
                players: no_players,
            },
        );
        self.teams.set(i, team);
        proof {
            assert(self@.teams =~= v.teams.update(i as int, tv));
            assert(self@ =~= ScoreboardView { teams: v.teams.update(i as int, tv), ..v });
            assert(packets_view(packets@) =~= seq![
                team_packet(tv.name, TeamMethod::Update, Some(team_parameters(tv)), Seq::empty()),
            ]);
            lemma_teams_update_wf(v, i as int, tv);
        }
        packets
    }

    /// Deletes a team and tells the clients; a missing team is ignored.
    pub fn remove_team(&mut self, name: &str) -> (r: Vec<ScoreboardPacket>)
        requires
            old(self)@.wf(),
        ensures
            final(self)@.wf(),
            old(self)@.index_consistent() ==> final(self)@.index_consistent(),
            !old(self)@.has_team(name@) ==> final(self)@ == old(self)@ && r@.len() == 0,
            old(self)@.has_team(name@) ==> {
                &&& final(self)@ == (ScoreboardView {
                    teams: old(self)@.teams.remove(old(self)@.team_index(name@)->0),
                    ..old(self)@
                })
                &&& packets_view(r@) == seq![
                    team_packet(name@, TeamMethod::Remove, None, Seq::empty()),
                ]
            },
    {
        let key = name.to_owned();
        let mut packets: Vec<ScoreboardPacket> = Vec::new();
        let i = match self.find_team(&key) {
            Some(i) => i,
            None => {
                return packets;
            },
        };
        let ghost v = self@;
        let no_players: Vec<String> = Vec::new();
        assert(names_view(no_players@) =~= Seq::empty());
        packets.push(
            ScoreboardPacket::SetPlayerTeam {
                team_name: key,
                method: TeamMethod::Remove,
                parameters: None,
                players: no_players,
            },
        );
        self.teams.remove(i);
        proof {
            assert(self@.teams =~= v.teams.remove(i as int));
            assert(self@ =~= ScoreboardView { teams: v.teams.remove(i as int), ..v });
            assert(packets_view(packets@) =~= seq![
                team_packet(name@, TeamMethod::Remove, None, Seq::empty()),
            ]);
            v.teams.remove_ensures(i as int);
        }
        packets
    }

    /// Whether the team at `i` lists `player`.
    fn team_has_member(&self, i: usize, player: &String) -> (r: bool)
        requires
            i < self@.teams.len(),
        ensures
            r == self@.teams[i as int].players.contains(player@),
    {
        let players = &self.teams[i].players;
        proof {
            assert(self@.teams[i as int] == self.teams@[i as int]@);
        }
        let mut k: usize = 0;
        while k < players.len()
            invariant
                k <= players@.len(),
                self@.teams[i as int].players == names_view(players@),
                forall|j: int| 0 <= j < k ==> players@[j]@ != player@,
            decreases players@.len() - k,
        {
            if string_eq(&players[k], player) {
                assert(self@.teams[i as int].players[k as int] == player@);
                return true;
            }
            k = k + 1;
        }
        assert forall|j: int| 0 <= j < self@.teams[i as int].players.len() implies self@.teams[i as int].players[j]
            != player@ by {
            assert(self@.teams[i as int].players[j] == players@[j]@);
        }
        false
    }

    /// Takes `player` out of the team at `i`.
    fn drop_member(&mut self, i: usize, player: &String)
        requires
            old(self)@.wf(),
            i < old(self)@.teams.len(),
        ensures
            final(self)@ == (ScoreboardView {
                teams: old(self)@.teams.update(i as int, without_member(old(self)@.teams[i as int], player@)),
                ..old(self)@
            }),
            final(self)@.wf(),
            old(self)@.index_consistent() ==> final(self)@.index_consistent(),
    {
        let ghost v = self@;
        let ghost tv = v.teams[i as int];
        proof {
            assert(tv == self.teams@[i as int]@);
        }
        let mut kept: Vec<String> = Vec::new();
        let mut k: usize = 0;
        while k < self.teams[i].players.len()
            invariant
                self@ == v,
                i < self.teams@.len(),
                tv.players == names_view(self.teams@[i as int].players@),
                k <= tv.players.len(),
                names_view(kept@) == tv.players.take(k as int).filter(name_is_not(player@)),
            decreases tv.players.len() - k,
        {
            proof {
                lemma_filter_take_step(tv.players, name_is_not(player@), k as int);
            }
            if !string_eq(&self.teams[i].players[k], player) {
                let ghost before = kept@;
                let name = self.teams[i].players[k].clone();
                kept.push(name);
                assert(names_view(kept@) =~= names_view(before).push(name@));
            }
            k = k + 1;
        }
        proof {
            assert(tv.players.take(tv.players.len() as int) =~= tv.players);
        }
        let mut updated = self.teams[i].copy();
        updated.players = kept;
        let ghost uv = updated@;
        self.teams.set(i, updated);
        proof {
            assert(uv =~= without_member(tv, player@));
            assert(self@.teams =~= v.teams.update(i as int, uv));
            assert(self@ =~= ScoreboardView { teams: v.teams.update(i as int, uv), ..v });
            lemma_teams_update_wf(v, i as int, uv);
        }
    }

    /// Takes `player` out of team `team_name` and tells the clients; nothing
    /// happens when the team is missing or does not list the player.
    pub fn remove_player_from_team(&mut self, team_name: &str, player: &str) -> (r: Vec<
        ScoreboardPacket,
    >)
        requires
            old(self)@.wf(),
        ensures
            final(self)@.wf(),
            old(self)@.index_consistent() ==> final(self)@.index_consistent(),
            !(old(self)@.has_team(team_name@) && old(self)@.team(team_name@).players.contains(
                player@,
            )) ==> final(self)@ == old(self)@ && r@.len() == 0,
            old(self)@.has_team(team_name@) && old(self)@.team(team_name@).players.contains(player@)
                ==> {
                let i = old(self)@.team_index(team_name@)->0;
                &&& final(self)@ == (ScoreboardView {
                    teams: old(self)@.teams.update(i, without_member(old(self)@.teams[i], player@)),
                    ..old(self)@
                })
                &&& packets_view(r@) == seq![
                    team_packet(team_name@, TeamMethod::RemovePlayers, None, seq![player@]),
                ]
            },
    {
        let key = team_name.to_owned();
        let member = player.to_owned();
        let mut packets: Vec<ScoreboardPacket> = Vec::new();
        let i = match self.find_team(&key) {
            Some(i) => i,
            None => {
                return packets;
            },
        };
        if !self.team_has_member(i, &member) {
            return packets;
        }
        let mut players: Vec<String> = Vec::new();
        players.push(member.clone());
        assert(names_view(players@) =~= seq![player@]);
        packets.push(
            ScoreboardPacket::SetPlayerTeam {
                team_name: key,
                method: TeamMethod::RemovePlayers,
                parameters: None,
                players,
            },
        );
        self.drop_member(i, &member);
        assert(packets_view(packets@) =~= seq![
            team_packet(team_name@, TeamMethod::RemovePlayers, None, seq![player@]),
        ]);
        packets
    }
}


impl Scoreboard {
    /// Adds `player` to the team at `i`.
    fn add_member(&mut self, i: usize, player: String)
        requires
            old(self)@.wf(),
            i < old(self)@.teams.len(),
        ensures
            final(self)@ == (ScoreboardView {
                teams: old(self)@.teams.update(
                    i as int,
                    TeamView { players: old(self)@.teams[i as int].players.push(player@), ..old(self)@.teams[i as int] },
                ),
                ..old(self)@
            }),
            final(self)@.wf(),
            old(self)@.index_consistent() ==> final(self)@.index_consistent(),
    {
        let ghost v = self@;
        let ghost tv = v.teams[i as int];
        proof {
            assert(tv == self.teams@[i as int]@);
        }
        let mut updated = self.teams[i].copy();
        let ghost before = updated.players@;
        let ghost pv = player@;
        updated.players.push(player);
        let ghost uv = updated@;
        proof {
            assert(names_view(updated.players@) =~= names_view(before).push(pv));
            assert(uv =~= TeamView { players: tv.players.push(pv), ..tv });
        }
        self.teams.set(i, updated);
        proof {
            assert(self@.teams =~= v.teams.update(i as int, uv));
            assert(self@ =~= ScoreboardView { teams: v.teams.update(i as int, uv), ..v });
            lemma_teams_update_wf(v, i as int, uv);
        }
    }

    /// Makes `player` a member of team `team_name`, taking them out of every
    /// other team first, and returns the packets that tell the clients. A
    /// missing team is ignored. Afterwards the team lists the player and no
    /// other team does.
    pub fn add_player_to_team(&mut self, team_name: &str, player: String) -> (r: Vec<
        ScoreboardPacket,
    >)
        requires
            old(self)@.wf(),
        ensures
            final(self)@.wf(),
            old(self)@.index_consistent() ==> final(self)@.index_consistent(),
            !old(self)@.has_team(team_name@) ==> final(self)@ == old(self)@ && r@.len() == 0,
            old(self)@.has_team(team_name@) ==> {
                let left = leave_other_teams(old(self)@.teams, team_name@, player@);
                let t = old(self)@.team_index(team_name@)->0;
                let target = old(self)@.teams[t];
                &&& target.players.contains(player@) ==> {
                    &&& final(self)@ == (ScoreboardView { teams: left, ..old(self)@ })
                    &&& packets_view(r@) == leave_packets(old(self)@.teams, team_name@, player@)
                }
                &&& !target.players.contains(player@) ==> {
                    &&& final(self)@ == (ScoreboardView {
                        teams: left.update(t, TeamView { players: target.players.push(player@), ..target }),
                        ..old(self)@
                    })
                    &&& packets_view(r@) == leave_packets(old(self)@.teams, team_name@, player@)
                        + seq![team_packet(team_name@, TeamMethod::AddPlayers, None, seq![player@])]
                }
            },
            old(self)@.has_team(team_name@) ==> final(self)@ == (ScoreboardView {
                teams: joined_teams(old(self)@, team_name@, player@),
                ..old(self)@
            }),
            old(self)@.has_team(team_name@) ==> final(self)@.has_team(team_name@) && final(self)@.team(
                team_name@,
            ).players.contains(player@),
            old(self)@.has_team(team_name@) ==> forall|k: int|
                0 <= k < final(self)@.teams.len() && final(self)@.teams[k].name != team_name@
                    ==> !(#[trigger] final(self)@.teams[k]).players.contains(player@),
    {
        let key = team_name.to_owned();
        let mut packets: Vec<ScoreboardPacket> = Vec::new();
        let t = match self.find_team(&key) {
            Some(t) => t,
            None => {
                return packets;
            },
        };
        let ghost v = self@;
        let mut i: usize = 0;
        while i < self.teams.len()
            invariant
                self@.wf(),
                v.wf(),
                v.index_consistent() ==> self@.index_consistent(),
                self@ == (ScoreboardView { teams: self@.teams, ..v }),
                self@.teams.len() == v.teams.len(),
                i <= v.teams.len(),
                forall|j: int| 0 <= j < i ==> #[trigger] self@.teams[j] == leave_team(v.teams[j], key@, player@),
                forall|j: int| i <= j < v.teams.len() ==> #[trigger] self@.teams[j] == v.teams[j],
                packets_view(packets@) == leave_packets(v.teams.take(i as int), key@, player@),
            decreases v.teams.len() - i,
        {
            let ghost x = v.teams[i as int];
            proof {
                lemma_filter_take_step(v.teams, other_team_with(key@, player@), i as int);
                assert(self@.teams[i as int] == self.teams@[i as int]@);
            }
            let ghost before_teams = self@.teams;
            if !string_eq(&self.teams[i].name, &key) && self.team_has_member(i, &player) {
                let ghost before = packets@;
                let mut players: Vec<String> = Vec::new();
                players.push(player.clone());
                assert(names_view(players@) =~= seq![player@]);
                let packet = ScoreboardPacket::SetPlayerTeam {
                    team_name: self.teams[i].name.clone(),
                    method: TeamMethod::RemovePlayers,
                    parameters: None,
                    players,
                };
                packets.push(packet);
                proof {
                    let g = |u: TeamView| team_packet(u.name, TeamMethod::RemovePlayers, None, seq![player@]);
                    let prefix = v.teams.take(i as int).filter(other_team_with(key@, player@));
                    assert(prefix.push(x).map_values(g) =~= prefix.map_values(g).push(packet@));
                    assert(packets_view(packets@) =~= packets_view(before).push(packet@));
                }
                self.drop_member(i, &player);
                proof {
                    assert(other_team_with(key@, player@)(x));
                    assert(self@.teams[i as int] == leave_team(x, key@, player@));
                }
            } else {
                proof {
                    assert(!other_team_with(key@, player@)(x));
                    assert(self@.teams[i as int] == leave_team(x, key@, player@));
                }
            }
            proof {
                assert forall|j: int| 0 <= j < v.teams.len() && j != i implies #[trigger] self@.teams[j]
                    == before_teams[j] by {}
            }
            i = i + 1;
        }
        proof {
            assert(self@.teams =~= leave_other_teams(v.teams, key@, player@));
            assert(v.teams.take(v.teams.len() as int) =~= v.teams);
            assert(self@.teams[t as int] == v.teams[t as int]);
        }
        let ghost left_view = self@;
        let ghost target = v.teams[t as int];
        if self.team_has_member(t, &player) {
            proof {
                lemma_first_where_same(left_view.teams, v.teams, team_named(key@));
                assert(left_view =~= ScoreboardView { teams: leave_other_teams(v.teams, key@, player@), ..v });
                lemma_left_teams(v.teams, key@, player@);
            }
            return packets;
        }
        let mut players: Vec<String> = Vec::new();
        players.push(player.clone());
        assert(names_view(players@) =~= seq![player@]);
        let ghost before = packets@;
        let packet = ScoreboardPacket::SetPlayerTeam {
            team_name: key,
            method: TeamMethod::AddPlayers,
            parameters: None,
            players,
        };
        packets.push(packet);
        self.add_member(t, player);
        proof {
            assert(packets_view(packets@) =~= packets_view(before).push(packet@));
            let upd = TeamView { players: target.players.push(player@), ..target };
            assert(self@ =~= ScoreboardView {
                teams: leave_other_teams(v.teams, key@, player@).update(t as int, upd),
                ..v
            });
            lemma_first_where_same(self@.teams, v.teams, team_named(key@));
            lemma_left_teams(v.teams, key@, player@);
            assert(upd.players[target.players.len() as int] == player@);
            assert forall|k: int|
                0 <= k < self@.teams.len() && self@.teams[k].name != key@ implies !(
                #[trigger] self@.teams[k]).players.contains(player@) by {
                assert(k != t);
                assert(self@.teams[k] == leave_other_teams(v.teams, key@, player@)[k]);
            }
        }
        packets
    }
}

/// After leaving the other teams, no team but `team_name` lists `player`, and
/// every name stays in place.
proof fn lemma_left_teams(teams: Seq<TeamView>, team_name: Seq<char>, player: Seq<char>)
    ensures
        leave_other_teams(teams, team_name, player).len() == teams.len(),
        forall|k: int|
            0 <= k < teams.len() ==> (#[trigger] leave_other_teams(teams, team_name, player)[k]).name
                == teams[k].name,
        forall|k: int|
            0 <= k < teams.len() && teams[k].name != team_name ==> !(
            #[trigger] leave_other_teams(teams, team_name, player)[k]).players.contains(player),
        forall|k: int|
            0 <= k < teams.len() && teams[k].name == team_name ==> #[trigger] leave_other_teams(
                teams,
                team_name,
                player,
            )[k] == teams[k],
{
    assert forall|k: int|
        0 <= k < teams.len() && teams[k].name != team_name implies !(
        #[trigger] leave_other_teams(teams, team_name, player)[k]).players.contains(player) by {
        let t = teams[k];
        if t.players.contains(player) {
            lemma_filter_elements(t.players, name_is_not(player));
            let ps = t.players.filter(name_is_not(player));
            if ps.contains(player) {
                let m = choose|m: int| 0 <= m < ps.len() && ps[m] == player;
                assert(name_is_not(player)(ps[m]));
            }
        }
    }
}


/// The score that an automatic criterion sets for `entity` in `objective`.
pub open spec fn criterion_score(entity: Seq<char>, objective: Seq<char>, value: i32) -> ScoreView {
    ScoreView {
        entity_name: entity,
        objective_name: objective,
        value,
        display_name: None,
        number_format: None,
        locked: false,
    }
}

/// Setting `value` for `entity` in each objective of `names`, in order.
pub open spec fn update_all(v: ScoreboardView, names: Seq<Seq<char>>, entity: Seq<char>, value: i32) -> (
    ScoreboardView,
    Seq<PacketView>,
)
    decreases names.len(),
{
    if names.len() == 0 {
        (v, Seq::empty())
    } else {
        let (v1, p1) = update_all(v, names.drop_last(), entity, value);
        let (v2, p2) = update_score_result(v1, criterion_score(entity, names.last(), value));
        (v2, p1 + p2)
    }
}

/// The objectives listed under `criterion` in the index.
pub open spec fn criterion_objectives(v: ScoreboardView, criterion: Seq<char>) -> Seq<Seq<char>> {
    match v.criterion_index(criterion) {
        Some(i) => v.by_criterion[i].1,
        None => Seq::empty(),
    }
}

impl Scoreboard {
    /// Sets `value` for `entity_name` in every objective with the given
    /// criterion, creating the scores that are missing.
    pub fn for_all_objectives(&mut self, criterion: &str, entity_name: &str, value: i32) -> (r: Vec<
        ScoreboardPacket,
    >)
        requires
            old(self)@.wf(),
        ensures
            final(self)@.wf(),
            old(self)@.index_consistent() ==> final(self)@.index_consistent(),
            (final(self)@, packets_view(r@)) == update_all(
                old(self)@,
                criterion_objectives(old(self)@, criterion@),
                entity_name@,
                value,
            ),
    {
        let key = criterion.to_owned();
        let ghost v = self@;
        let names: Vec<String> = match self.find_criterion(&key) {
            Some(i) => {
                proof {
                    assert(v.by_criterion[i as int] == criterion_entry_view(
                        self.objectives_by_criterion@[i as int],
                    ));
                }
                copy_names(&self.objectives_by_criterion[i].1)
            },
            None => Vec::new(),
        };
        let ghost nv = names_view(names@);
        assert(nv =~= criterion_objectives(v, criterion@));
        let mut packets: Vec<ScoreboardPacket> = Vec::new();
        let mut i: usize = 0;
        while i < names.len()
            invariant
                i <= names@.len(),
                nv == names_view(names@),
                self@.wf(),
                v.index_consistent() ==> self@.index_consistent(),
                (self@, packets_view(packets@)) == update_all(v, nv.take(i as int), entity_name@, value),
            decreases names@.len() - i,
        {
            let score = ScoreboardScore {
                entity_name: entity_name.to_owned(),
                objective_name: names[i].clone(),
                value,
                display_name: None,
                number_format: None,
                locked: false,
            };
            let ghost before = packets@;
            let mut more = self.update_score(score);
            let ghost added = more@;
            packets.append(&mut more);
            proof {
                assert(nv.take(i + 1).drop_last() =~= nv.take(i as int));
                assert(packets_view(packets@) =~= packets_view(before) + packets_view(added));
            }
            i = i + 1;
        }
        proof {
            assert(nv.take(nv.len() as int) =~= nv);
        }
        packets
    }
}


/// Some score is held by `entity`.
pub open spec fn holds_score(v: ScoreboardView, entity: Seq<char>) -> bool {
    exists|i: int| 0 <= i < v.scores.len() && #[trigger] v.scores[i].entity_name == entity
}

/// The packets that bring a joining player up to date: every team, every
/// objective the clients know with its scores, then every slot binding.
pub open spec fn state_packets(v: ScoreboardView) -> Seq<PacketView> {
    v.teams.map_values(|t: TeamView| team_create_packet(t)) + tracked_objective_packets(
        v,
        v.tracked_names,
    ) + v.display_objectives.map_values(|e: (DisplaySlot, Option<Seq<char>>)| slot_packet(e))
}

/// The packet that creates team `t` on a client.
pub open spec fn team_create_packet(t: TeamView) -> PacketView {
    team_packet(t.name, TeamMethod::Create, Some(team_parameters(t)), t.players)
}

/// The packet that shows the slot binding `e` on a client.
pub open spec fn slot_packet(e: (DisplaySlot, Option<Seq<char>>)) -> PacketView {
    PacketView::DisplayObjective {
        slot: e.0,
        objective_name: match e.1 {
            Some(n) => n,
            None => Seq::empty(),
        },
    }
}

/// For each of `names` that is an objective: its create packet and its
/// scores.
pub open spec fn tracked_objective_packets(v: ScoreboardView, names: Seq<Seq<char>>) -> Seq<PacketView>
    decreases names.len(),
{
    if names.len() == 0 {
        Seq::empty()
    } else {
        let n = names.last();
        tracked_objective_packets(v, names.drop_last()) + if v.has_objective(n) {
            seq![objective_packet(v.objective(n), Mode::Add)] + score_packets(v.scores, n)
        } else {
            Seq::empty()
        }
    }
}

impl Scoreboard {
    /// Every score holder with at least one score, sorted, each once.
    pub fn get_tracked_players(&self) -> (r: Vec<String>)
        ensures
            sorted_strictly(names_view(r@)),
            forall|n: Seq<char>| #[trigger] names_view(r@).contains(n) <==> holds_score(self@, n),
    {
        let mut players: Vec<String> = Vec::new();
        let mut i: usize = 0;
        while i < self.scores.len()
            invariant
                i <= self.scores@.len(),
                sorted_strictly(names_view(players@)),
                forall|n: Seq<char>|
                    #[trigger] names_view(players@).contains(n) <==> exists|j: int|
                        0 <= j < i && #[trigger] self@.scores[j].entity_name == n,
            decreases self.scores@.len() - i,
        {
            proof {
                assert(self@.scores[i as int] == self.scores@[i as int]@);
            }
            let ghost before = names_view(players@);
            insert_sorted(&mut players, self.scores[i].entity_name.clone());
            proof {
                assert forall|n: Seq<char>| #[trigger] names_view(players@).contains(n) <==> exists|j: int|
                    0 <= j < i + 1 && #[trigger] self@.scores[j].entity_name == n by {
                    if n == self@.scores[i as int].entity_name {
                        assert(self@.scores[i as int].entity_name == n);
                    }
                    if exists|j: int| 0 <= j < i + 1 && #[trigger] self@.scores[j].entity_name == n {
                        let j = choose|j: int| 0 <= j < i + 1 && #[trigger] self@.scores[j].entity_name == n;
                        if j < i {
                            assert(before.contains(n));
                        }
                    }
                }
            }
            i = i + 1;
        }
        players
    }

    /// The packets that send the whole scoreboard to a player who joins.
    #[verifier::spinoff_prover]
    #[verifier::rlimit(40)]
    pub fn send_state_to_player(&self) -> (r: Vec<ScoreboardPacket>)
        ensures
            packets_view(r@) == state_packets(self@),
    {
        let mut packets: Vec<ScoreboardPacket> = Vec::new();
        let mut i: usize = 0;
        while i < self.teams.len()
            invariant
                i <= self.teams@.len(),
                packets_view(packets@) == self@.teams.take(i as int).map_values(|t: TeamView| team_create_packet(t)),
            decreases self.teams@.len() - i,
        {
            let ghost before = packets@;
            let team = &self.teams[i];
            proof {
                assert(self@.teams[i as int] == team@);
            }
            let packet = ScoreboardPacket::SetPlayerTeam {
                team_name: team.name.clone(),
                method: TeamMethod::Create,
                parameters: Some(team.parameters()),
                players: copy_names(&team.players),
            };
            packets.push(packet);
            proof {
                assert(self@.teams.take(i + 1) =~= self@.teams.take(i as int).push(team@));
                assert(packets_view(packets@) =~= packets_view(before).push(packet@));
                assert(self@.teams.take(i + 1).map_values(|t: TeamView| team_create_packet(t))
                    =~= self@.teams.take(i as int).map_values(|t: TeamView| team_create_packet(t)).push(
                    team_create_packet(team@),
                ));
            }
            i = i + 1;
        }
        proof {
            assert(self@.teams.take(self@.teams.len() as int) =~= self@.teams);
        }
        let ghost p1 = packets@;
        let mut k: usize = 0;
        while k < self.tracked_objectives.len()
            invariant
                k <= self.tracked_objectives@.len(),
                packets_view(packets@) == packets_view(p1) + tracked_objective_packets(
                    self@,
                    self@.tracked_names.take(k as int),
                ),
            decreases self.tracked_objectives@.len() - k,
        {
            let ghost before = packets@;
            let name = &self.tracked_objectives[k];
            proof {
                assert(self@.tracked_names[k as int] == name@);
                assert(self@.tracked_names.take(k + 1).drop_last() =~= self@.tracked_names.take(
                    k as int,
                ));
            }
            if let Some(j) = self.find_objective(name) {
                proof {
                    assert(self@.objectives[j as int] == self.objectives@[j as int]@);
                }
                packets.push(objective_packet_of(&self.objectives[j], Mode::Add));
                let mut scores = self.objective_score_packets(name);
                let ghost added = scores@;
                let ghost mid = packets@;
                packets.append(&mut scores);
                proof {
                    assert(packets_view(packets@) =~= packets_view(before) + (seq![
                        objective_packet(self@.objective(name@), Mode::Add),
                    ] + score_packets(self@.scores, name@)));
                }
            } else {
                proof {
                    assert(packets_view(packets@) =~= packets_view(before) + Seq::<PacketView>::empty());
                }
            }
            k = k + 1;
        }
        proof {
            assert(self@.tracked_names.take(self@.tracked_names.len() as int) =~= self@.tracked_names);
        }
        let ghost p2 = packets@;
        let mut m: usize = 0;
        while m < self.display_objectives.len()
            invariant
                m <= self.display_objectives@.len(),
                packets_view(packets@) == packets_view(p2) + self@.display_objectives.take(
                    m as int,
                ).map_values(|e: (DisplaySlot, Option<Seq<char>>)| slot_packet(e)),
            decreases self.display_objectives@.len() - m,
        {
            let ghost before = packets@;
            let entry = &self.display_objectives[m];
            proof {
                assert(self@.display_objectives[m as int] == display_entry_view(*entry));
            }
            let shown = match &entry.1 {
                Some(n) => n.clone(),
                None => String::new(),
            };
            let packet = ScoreboardPacket::DisplayObjective { slot: entry.0, objective_name: shown };
            packets.push(packet);
            proof {
                assert(packet@ == slot_packet(self@.display_objectives[m as int]));
                assert(self@.display_objectives.take(m + 1) =~= self@.display_objectives.take(
                    m as int,
                ).push(self@.display_objectives[m as int]));
                assert(self@.display_objectives.take(m + 1).map_values(
                    |e: (DisplaySlot, Option<Seq<char>>)| slot_packet(e),
                ) =~= self@.display_objectives.take(m as int).map_values(
                    |e: (DisplaySlot, Option<Seq<char>>)| slot_packet(e),
                ).push(packet@));
                assert(packets_view(packets@) =~= packets_view(before).push(packet@));
            }
            m = m + 1;
        }
        proof {
            assert(self@.display_objectives.take(self@.display_objectives.len() as int)
                =~= self@.display_objectives);
            assert(packets_view(packets@) =~= state_packets(self@));
        }
        packets
    }
}


/// The name a render type is saved under.
pub open spec fn render_type_name(r: RenderType) -> Seq<char> {
    match r {
        RenderType::Integer => "integer"@,
        RenderType::Hearts => "hearts"@,
    }
}

/// How an objective is saved.
pub open spec fn objective_data(o: ObjectiveView) -> ObjectiveDataView {
    ObjectiveDataView {
        name: o.name,
        display_name: o.display_name,
        render_type: render_type_name(o.render_type),
        criteria_name: o.criterion,
        display_auto_update: o.display_auto_update,
        number_format: o.number_format,
    }
}

/// How a score is saved.
pub open spec fn score_data(s: ScoreView) -> ScoreDataView {
    ScoreDataView {
        entity_name: s.entity_name,
        objective_name: s.objective_name,
        value: s.value,
        locked: s.locked,
        display: s.display_name,
        number_format: s.number_format,
    }
}

/// How a team is saved: of its options, bit 0 is saved as friendly fire and
/// bit 1 as seeing invisible team mates.
pub open spec fn team_data(t: TeamView) -> TeamDataView {
    TeamDataView {
        name: t.name,
        display_name: t.display_name,
        color: t.color,
        allow_friendly_fire: t.options & 1 != 0,
        see_friendly_invisibles: t.options & 2 != 0,
        player_prefix: t.player_prefix,
        player_suffix: t.player_suffix,
        nametag_visibility: visibility_name(t.nametag_visibility),
        death_message_visibility: visibility_name(t.death_message_visibility),
        collision_rule: collision_rule_name(t.collision_rule),
        players: t.players,
    }
}

/// The slot bindings as saved: each slot that shows an objective, by name,
/// in order; cleared slots are not saved.
pub open spec fn saved_slots(d: Seq<(DisplaySlot, Option<Seq<char>>)>) -> Seq<(Seq<char>, Seq<char>)>
    decreases d.len(),
{
    if d.len() == 0 {
        Seq::empty()
    } else {
        let rest = saved_slots(d.drop_last());
        match d.last().1 {
            Some(n) => rest.push((slot_name(d.last().0), n)),
            None => rest,
        }
    }
}

/// The saved form of a scoreboard.
pub open spec fn saved(v: ScoreboardView) -> ScoreboardDataView {
    ScoreboardDataView {
        objectives: v.objectives.map_values(|o: ObjectiveView| objective_data(o)),
        scores: v.scores.map_values(|s: ScoreView| score_data(s)),
        teams: v.teams.map_values(|t: TeamView| team_data(t)),
        display_slots: saved_slots(v.display_objectives),
    }
}

fn render_type_string(r: RenderType) -> (s: String)
    ensures
        s@ == render_type_name(r),
{
    match r {
        RenderType::Integer => owned("integer"),
        RenderType::Hearts => owned("hearts"),
    }
}

fn objective_to_data(o: &ScoreboardObjective) -> (r: SerializableObjective)
    ensures
        r@ == objective_data(o@),
{
    SerializableObjective {
        name: o.name.clone(),
        display_name: o.display_name.copy(),
        render_type: render_type_string(o.render_type),
        criteria_name: o.criterion.clone(),
        display_auto_update: o.display_auto_update,
        number_format: copy_format_option(&o.number_format),
    }
}

fn score_to_data(s: &ScoreboardScore) -> (r: SerializableScore)
    ensures
        r@ == score_data(s@),
{
    SerializableScore {
        entity_name: s.entity_name.clone(),
        objective_name: s.objective_name.clone(),
        value: s.value,
        locked: s.locked,
        display: copy_text_option(&s.display_name),
        number_format: copy_format_option(&s.number_format),
    }
}

fn team_to_data(t: &Team) -> (r: SerializableTeam)
    ensures
        r@ == team_data(t@),
{
    SerializableTeam {
        name: t.name.clone(),
        display_name: t.display_name.copy(),
        color: t.color,
        allow_friendly_fire: (t.options & 1) != 0,
        see_friendly_invisibles: (t.options & 2) != 0,
        player_prefix: t.player_prefix.copy(),
        player_suffix: t.player_suffix.copy(),
        nametag_visibility: owned(t.nametag_visibility.to_str()),
        death_message_visibility: owned(t.death_message_visibility.to_str()),
        collision_rule: owned(t.collision_rule.to_str()),
        players: copy_names(&t.players),
    }
}

impl Scoreboard {
    /// The scoreboard in the form it is saved to disk.
    pub fn to_data(&self) -> (r: ScoreboardData)
        ensures
            r@ == saved(self@),
            self@.wf() ==> r@.keys_unique(),
    {
        proof {
            if self@.wf() {
                lemma_saved_keys_unique(self@);
            }
        }
        let mut objectives: Vec<SerializableObjective> = Vec::new();
        let mut i: usize = 0;
        while i < self.objectives.len()
            invariant
                i <= self.objectives@.len(),
                objectives@.len() == i,
                forall|j: int|
                    0 <= j < i ==> #[trigger] objectives@[j]@ == objective_data(
                        self.objectives@[j]@,
                    ),
            decreases self.objectives@.len() - i,
        {
            objectives.push(objective_to_data(&self.objectives[i]));
            i = i + 1;
        }
        let mut scores: Vec<SerializableScore> = Vec::new();
        let mut i: usize = 0;
        while i < self.scores.len()
            invariant
                i <= self.scores@.len(),
                scores@.len() == i,
                forall|j: int| 0 <= j < i ==> #[trigger] scores@[j]@ == score_data(self.scores@[j]@),
            decreases self.scores@.len() - i,
        {
            scores.push(score_to_data(&self.scores[i]));
            i = i + 1;
        }
        let mut teams: Vec<SerializableTeam> = Vec::new();
        let mut i: usize = 0;
        while i < self.teams.len()
            invariant
                i <= self.teams@.len(),
                teams@.len() == i,
                forall|j: int| 0 <= j < i ==> #[trigger] teams@[j]@ == team_data(self.teams@[j]@),
            decreases self.teams@.len() - i,
        {
            teams.push(team_to_data(&self.teams[i]));
            i = i + 1;
        }
        let mut display_slots: Vec<(String, String)> = Vec::new();
        let mut i: usize = 0;
        while i < self.display_objectives.len()
            invariant
                i <= self.display_objectives@.len(),
                display_slots@.map_values(|e: (String, String)| (e.0@, e.1@)) == saved_slots(
                    self@.display_objectives.take(i as int),
                ),
            decreases self.display_objectives@.len() - i,
        {
            let ghost before = display_slots@;
            let entry = &self.display_objectives[i];
            proof {
                assert(self@.display_objectives[i as int] == display_entry_view(*entry));
                assert(self@.display_objectives.take(i + 1).drop_last() =~= self@.display_objectives.take(
                    i as int,
                ));
            }
            match &entry.1 {
                Some(name) => {
                    let e = (display_slot_name(entry.0), name.clone());
                    display_slots.push(e);
                    proof {
                        assert(display_slots@.map_values(|e: (String, String)| (e.0@, e.1@))
                            =~= before.map_values(|e: (String, String)| (e.0@, e.1@)).push(
                            (e.0@, e.1@),
                        ));
                    }
                },
                None => {},
            }
            i = i + 1;
        }
        let r = ScoreboardData { objectives, scores, teams, display_slots };
        proof {
            let v = self@;
            assert(v.display_objectives.take(v.display_objectives.len() as int) =~= v.display_objectives);
            assert(r@.objectives =~= saved(v).objectives) by {
                assert forall|j: int| 0 <= j < r@.objectives.len() implies r@.objectives[j]
                    == saved(v).objectives[j] by {
                    assert(v.objectives[j] == self.objectives@[j]@);
                }
            }
            assert(r@.scores =~= saved(v).scores) by {
                assert forall|j: int| 0 <= j < r@.scores.len() implies r@.scores[j]
                    == saved(v).scores[j] by {
                    assert(v.scores[j] == self.scores@[j]@);
                }
            }
            assert(r@.teams =~= saved(v).teams) by {
                assert forall|j: int| 0 <= j < r@.teams.len() implies r@.teams[j]
                    == saved(v).teams[j] by {
                    assert(v.teams[j] == self.teams@[j]@);
                }
            }
        }
        r
    }
}


/// Every saved binding comes from a binding of `d` that shows an objective,
/// keyed by that binding's slot name.
proof fn lemma_saved_slots_from(d: Seq<(DisplaySlot, Option<Seq<char>>)>)
    ensures
        forall|k: int|
            0 <= k < saved_slots(d).len() ==> exists|j: int|
                0 <= j < d.len() && d[j].1 == Some(#[trigger] saved_slots(d)[k].1) && saved_slots(d)[k].0 == slot_name(
                    d[j].0,
                ),
    decreases d.len(),
{
    if d.len() > 0 {
        let rest = d.drop_last();
        lemma_saved_slots_from(rest);
        assert forall|k: int| 0 <= k < saved_slots(d).len() implies exists|j: int|
            0 <= j < d.len() && d[j].1 == Some(#[trigger] saved_slots(d)[k].1) && saved_slots(d)[k].0 == slot_name(
                d[j].0,
            ) by {
            if k < saved_slots(rest).len() {
                let j = choose|j: int|
                    0 <= j < rest.len() && rest[j].1 == Some(#[trigger] saved_slots(rest)[k].1) && saved_slots(
                        rest,
                    )[k].0 == slot_name(rest[j].0);
                assert(d[j] == rest[j]);
            } else {
                assert(d[d.len() - 1] == d.last());
            }
        }
    }
}

/// With each slot bound once, the saved bindings have distinct slot names.
proof fn lemma_saved_slots_unique(d: Seq<(DisplaySlot, Option<Seq<char>>)>)
    requires
        forall|i: int, j: int| 0 <= i < j < d.len() ==> d[i].0 != d[j].0,
    ensures
        forall|i: int, j: int| 0 <= i < j < saved_slots(d).len() ==> saved_slots(d)[i].0 != saved_slots(d)[j].0,
    decreases d.len(),
{
    if d.len() > 0 {
        let rest = d.drop_last();
        lemma_saved_slots_unique(rest);
        lemma_saved_slots_from(rest);
        let r = saved_slots(rest);
        match d.last().1 {
            Some(n) => {
                let key = slot_name(d.last().0);
                assert forall|i: int| 0 <= i < r.len() implies r[i].0 != key by {
                    let j = choose|j: int| 0 <= j < rest.len() && rest[j].1 == Some(#[trigger] r[i].1) && r[i].0 == slot_name(
                        rest[j].0,
                    );
                    assert(rest[j] == d[j]);
                    assert(d[j].0 != d[d.len() - 1].0);
                    lemma_display_slot_name_round_trip(d[j].0, r[i].0);
                    lemma_display_slot_name_round_trip(d.last().0, key);
                }
                let s2 = r.push((key, n));
                assert forall|i: int, j: int| 0 <= i < j < s2.len() implies s2[i].0 != s2[j].0 by {
                    if j == s2.len() - 1 {
                        assert(s2[i] == r[i]);
                    } else {
                        assert(s2[i] == r[i] && s2[j] == r[j]);
                    }
                }
            },
            None => {},
        }
    }
}

/// What a well-formed scoreboard saves has each key once.
proof fn lemma_saved_keys_unique(v: ScoreboardView)
    requires
        v.wf(),
    ensures
        saved(v).keys_unique(),
{
    lemma_saved_slots_unique(v.display_objectives);
    let d = saved(v);
    assert forall|i: int, j: int| 0 <= i < j < d.objectives.len() implies d.objectives[i].name != d.objectives[j].name by {
        assert(d.objectives[i].name == v.objectives[i].name && d.objectives[j].name == v.objectives[j].name);
    }
    assert forall|i: int, j: int| 0 <= i < j < d.teams.len() implies d.teams[i].name != d.teams[j].name by {
        assert(d.teams[i].name == v.teams[i].name && d.teams[j].name == v.teams[j].name);
    }
    assert forall|i: int, j: int| 0 <= i < j < d.scores.len() implies !(d.scores[i].objective_name
        == d.scores[j].objective_name && d.scores[i].entity_name == d.scores[j].entity_name) by {
        assert(d.scores[i] == score_data(v.scores[i]) && d.scores[j] == score_data(v.scores[j]));
    }
}

/// The objective a saved objective loads as; any render type other than
/// `hearts` loads as integer.
pub open spec fn objective_from_data(o: ObjectiveDataView) -> ObjectiveView {
    ObjectiveView {
        name: o.name,
        display_name: o.display_name,
        render_type: if o.render_type == "hearts"@ {
            RenderType::Hearts
        } else {
            RenderType::Integer
        },
        number_format: o.number_format,
        criterion: o.criteria_name,
        display_auto_update: o.display_auto_update,
    }
}

/// The score a saved score loads as.
pub open spec fn score_from_data(s: ScoreDataView) -> ScoreView {
    ScoreView {
        entity_name: s.entity_name,
        objective_name: s.objective_name,
        value: s.value,
        display_name: s.display,
        number_format: s.number_format,
        locked: s.locked,
    }
}

impl ScoreboardView {
    /// The state after loading objective `o`: one of the same name is
    /// replaced in place, a new one is appended; either way its name joins
    /// the index entry of its criterion.
    pub open spec fn put_objective(self, o: ObjectiveView) -> ScoreboardView {
        match self.objective_index(o.name) {
            Some(i) => ScoreboardView {
                objectives: self.objectives.update(i, o),
                by_criterion: self.with_objective(o).by_criterion,
                ..self
            },
            None => self.with_objective(o),
        }
    }

    /// The state with team `t` stored under its name: a team of the same
    /// name is replaced in place, a new one is appended.
    pub open spec fn with_team(self, t: TeamView) -> ScoreboardView {
        ScoreboardView {
            teams: match self.team_index(t.name) {
                Some(i) => self.teams.update(i, t),
                None => self.teams.push(t),
            },
            ..self
        }
    }

    /// The state after loading the saved binding `e`; a slot name that is
    /// not known is skipped.
    pub open spec fn put_slot(self, e: (Seq<char>, Seq<char>)) -> ScoreboardView {
        match slot_from_name(e.0) {
            Some(slot) => self.with_slot(slot, Some(e.1)),
            None => self,
        }
    }
}

pub open spec fn load_objectives(v: ScoreboardView, objs: Seq<ObjectiveDataView>) -> ScoreboardView
    decreases objs.len(),
{
    if objs.len() == 0 {
        v
    } else {
        load_objectives(v, objs.drop_last()).put_objective(objective_from_data(objs.last()))
    }
}

pub open spec fn load_scores(v: ScoreboardView, scores: Seq<ScoreDataView>) -> ScoreboardView
    decreases scores.len(),
{
    if scores.len() == 0 {
        v
    } else {
        load_scores(v, scores.drop_last()).with_score(score_from_data(scores.last()))
    }
}

pub open spec fn load_teams(v: ScoreboardView, teams: Seq<TeamDataView>) -> ScoreboardView
    decreases teams.len(),
{
    if teams.len() == 0 {
        v
    } else {
        load_teams(v, teams.drop_last()).with_team(team_from_data(teams.last()))
    }
}

pub open spec fn load_slots(v: ScoreboardView, slots: Seq<(Seq<char>, Seq<char>)>) -> ScoreboardView
    decreases slots.len(),
{
    if slots.len() == 0 {
        v
    } else {
        load_slots(v, slots.drop_last()).put_slot(slots.last())
    }
}

/// `names` followed by each objective that the bindings `d` show and that
/// is not listed yet, in order.
pub open spec fn tracked_from(
    names: Seq<Seq<char>>,
    d: Seq<(DisplaySlot, Option<Seq<char>>)>,
) -> Seq<Seq<char>>
    decreases d.len(),
{
    if d.len() == 0 {
        names
    } else {
        let rest = tracked_from(names, d.drop_last());
        match d.last().1 {
            Some(n) => if rest.contains(n) {
                rest
            } else {
                rest.push(n)
            },
            None => rest,
        }
    }
}

/// The scoreboard that saved data loads as: objectives, then scores, teams
/// and slot bindings are stored one by one in the saved order, and every
/// objective that a slot shows is known to clients.
pub open spec fn loaded(d: ScoreboardDataView) -> ScoreboardView {
    let v = load_slots(
        load_teams(load_scores(load_objectives(empty_scoreboard(), d.objectives), d.scores), d.teams),
        d.display_slots,
    );
    ScoreboardView { tracked_names: tracked_from(Seq::empty(), v.display_objectives), ..v }
}

/// No two saved objectives share a name.
pub open spec fn unique_objective_names(objs: Seq<ObjectiveDataView>) -> bool {
    forall|i: int, j: int| 0 <= i < j < objs.len() ==> objs[i].name != objs[j].name
}

/// Loading an objective keeps the keys unique; when its name is new, the
/// criterion index stays consistent.
proof fn lemma_put_objective_wf(v: ScoreboardView, o: ObjectiveView)
    requires
        v.wf(),
    ensures
        v.put_objective(o).wf(),
        !v.has_objective(o.name) && v.index_consistent() ==> v.put_objective(o).index_consistent(),
{
    match v.objective_index(o.name) {
        Some(i) => {
            lemma_first_where_some(v.objectives, objective_named(o.name));
            let w = v.put_objective(o);
            match v.criterion_index(o.criterion) {
                Some(k) => {
                    lemma_first_where_some(v.by_criterion, criterion_is(o.criterion));
                },
                None => {
                    assert forall|j: int| 0 <= j < v.by_criterion.len() implies v.by_criterion[j].0
                        != o.criterion by {
                        assert(!criterion_is(o.criterion)(v.by_criterion[j]));
                    }
                },
            }
            assert forall|a: int, b: int| 0 <= a < b < w.objectives.len() implies w.objectives[a].name
                != w.objectives[b].name by {
                assert(v.objectives[i].name == o.name);
            }
        },
        None => {
            lemma_with_objective_wf(v, o);
        },
    }
}

/// Loading a team keeps the keys unique.
proof fn lemma_with_team_wf(v: ScoreboardView, t: TeamView)
    requires
        v.wf(),
    ensures
        v.with_team(t).wf(),
        v.index_consistent() ==> v.with_team(t).index_consistent(),
{
    match v.team_index(t.name) {
        Some(i) => {
            lemma_first_where_some(v.teams, team_named(t.name));
            lemma_teams_update_wf(v, i, t);
        },
        None => {
            assert forall|j: int| 0 <= j < v.teams.len() implies v.teams[j].name != t.name by {
                assert(!team_named(t.name)(v.teams[j]));
            }
        },
    }
}

/// Loading objectives with distinct names appends them all, in order, and
/// builds a consistent criterion index.
proof fn lemma_load_objectives_fresh(objs: Seq<ObjectiveDataView>)
    requires
        unique_objective_names(objs),
    ensures
        load_objectives(empty_scoreboard(), objs).wf(),
        load_objectives(empty_scoreboard(), objs).index_consistent(),
        load_objectives(empty_scoreboard(), objs).objectives == objs.map_values(
            |o: ObjectiveDataView| objective_from_data(o),
        ),
        load_objectives(empty_scoreboard(), objs).scores == Seq::<ScoreView>::empty(),
        load_objectives(empty_scoreboard(), objs).teams == Seq::<TeamView>::empty(),
        load_objectives(empty_scoreboard(), objs).display_objectives == Seq::<
            (DisplaySlot, Option<Seq<char>>),
        >::empty(),
    decreases objs.len(),
{
    if objs.len() > 0 {
        let rest = objs.drop_last();
        lemma_load_objectives_fresh(rest);
        let v = load_objectives(empty_scoreboard(), rest);
        let o = objective_from_data(objs.last());
        assert forall|j: int| 0 <= j < v.objectives.len() implies !objective_named(o.name)(
            #[trigger] v.objectives[j],
        ) by {
            assert(v.objectives[j] == objective_from_data(objs[j]));
        }
        lemma_with_objective_wf(v, o);
        assert(load_objectives(empty_scoreboard(), objs).objectives =~= objs.map_values(
            |o: ObjectiveDataView| objective_from_data(o),
        ));
    } else {
        assert(empty_scoreboard().wf());
    }
}

impl Scoreboard {
    /// Adds objective `o`'s name to the index entry of its criterion.
    fn index_objective(&mut self, o: &ScoreboardObjective)
        ensures
            final(self)@ == (ScoreboardView {
                by_criterion: old(self)@.with_objective(o@).by_criterion,
                ..old(self)@
            }),
    {
        let ghost old_view = self@;
        match self.find_criterion(&o.criterion) {
            Some(i) => {
                let mut names = copy_names(&self.objectives_by_criterion[i].1);
                let ghost before = names@;
                names.push(o.name.clone());
                assert(names_view(names@) =~= names_view(before).push(o@.name));
                let criterion = self.objectives_by_criterion[i].0.clone();
                self.objectives_by_criterion.set(i, (criterion, names));
                assert(self@.by_criterion =~= old_view.by_criterion.update(
                    i as int,
                    (o@.criterion, old_view.by_criterion[i as int].1.push(o@.name)),
                ));
            },
            None => {
                let criterion = o.criterion.clone();
                let mut names: Vec<String> = Vec::new();
                names.push(o.name.clone());
                assert(names_view(names@) =~= seq![o@.name]);
                self.objectives_by_criterion.push((criterion, names));
                assert(self@.by_criterion =~= old_view.by_criterion.push(
                    (o@.criterion, seq![o@.name]),
                ));
            },
        }
        proof {
            assert(self@ =~= ScoreboardView {
                by_criterion: old_view.with_objective(o@).by_criterion,
                ..old_view
            });
        }
    }

    /// Stores a loaded objective; see [`ScoreboardView::put_objective`].
    fn put_objective(&mut self, objective: ScoreboardObjective)
        requires
            old(self)@.wf(),
        ensures
            final(self)@ == old(self)@.put_objective(objective@),
            final(self)@.wf(),
    {
        let ghost v = self@;
        let ghost o = objective@;
        let found = self.find_objective(&objective.name);
        self.index_objective(&objective);
        match found {
            Some(i) => {
                self.objectives.set(i, objective);
                proof {
                    assert(self@.objectives =~= v.objectives.update(i as int, o));
                }
            },
            None => {
                self.objectives.push(objective);
                proof {
                    assert(self@.objectives =~= v.objectives.push(o));
                }
            },
        }
        proof {
            assert(self@ =~= v.put_objective(o));
            lemma_put_objective_wf(v, o);
        }
    }

    /// Stores a loaded team; see [`ScoreboardView::with_team`].
    fn put_team(&mut self, team: Team)
        requires
            old(self)@.wf(),
        ensures
            final(self)@ == old(self)@.with_team(team@),
            final(self)@.wf(),
            old(self)@.index_consistent() ==> final(self)@.index_consistent(),
    {
        let ghost v = self@;
        let ghost t = team@;
        match self.find_team(&team.name) {
            Some(i) => {
                self.teams.set(i, team);
                proof {
                    assert(self@.teams =~= v.teams.update(i as int, t));
                }
            },
            None => {
                self.teams.push(team);
                proof {
                    assert(self@.teams =~= v.teams.push(t));
                }
            },
        }
        proof {
            assert(self@ =~= v.with_team(t));
            lemma_with_team_wf(v, t);
        }
    }

    /// Lists `name` among the objectives clients know, unless it is listed.
    fn track_name(&mut self, name: &String)
        requires
            old(self)@.wf(),
        ensures
            final(self)@ == (ScoreboardView {
                tracked_names: if old(self)@.tracked_names.contains(name@) {
                    old(self)@.tracked_names
                } else {
                    old(self)@.tracked_names.push(name@)
                },
                ..old(self)@
            }),
            final(self)@.wf(),
            old(self)@.index_consistent() ==> final(self)@.index_consistent(),
    {
        let ghost v = self@;
        if self.find_tracked(name).is_none() {
            self.tracked_objectives.push(name.clone());
            proof {
                assert(self@.tracked_names =~= v.tracked_names.push(name@));
            }
        }
        proof {
            assert(self@ =~= ScoreboardView {
                tracked_names: if v.tracked_names.contains(name@) {
                    v.tracked_names
                } else {
                    v.tracked_names.push(name@)
                },
                ..v
            });
        }
    }

    /// Replaces the whole scoreboard by the saved data: objectives, then
    /// scores, teams and slot bindings are stored one by one in the saved
    /// order, a later entry replacing an earlier one with the same key, and
    /// every objective that a slot shows becomes known to clients.
    pub fn load_from_data(&mut self, data: &ScoreboardData)
        requires
            crate::scoreboard_laws::slot_keys_unique(data@.display_slots),
        ensures
            final(self)@ == loaded(data@),
            final(self)@.wf(),
            unique_objective_names(data@.objectives) ==> final(self)@.index_consistent(),
            forall|slot: DisplaySlot|
                #[trigger] final(self)@.display_objective(slot) == crate::scoreboard_laws::binding_for(
                    data@.display_slots,
                    slot_name(slot),
                ),
            forall|n: Seq<char>|
                #[trigger] final(self)@.is_tracked(n) <==> exists|i: int|
                    0 <= i < data@.display_slots.len() && #[trigger] data@.display_slots[i].1 == n
                        && slot_from_name(data@.display_slots[i].0) is Some,
    {
        self.objectives = Vec::new();
        self.teams = Vec::new();
        self.scores = Vec::new();
        self.display_objectives = Vec::new();
        self.tracked_objectives = Vec::new();
        self.objectives_by_criterion = Vec::new();
        proof {
            assert(self@ =~= empty_scoreboard());
        }
        let mut i: usize = 0;
        while i < data.objectives.len()
            invariant
                i <= data.objectives@.len(),
                self@ == load_objectives(empty_scoreboard(), data@.objectives.take(i as int)),
                self@.tracked_names == Seq::<Seq<char>>::empty(),
                self@.wf(),
            decreases data.objectives@.len() - i,
        {
            let o = &data.objectives[i];
            let render_type = if str_eq(o.render_type.as_str(), "hearts") {
                RenderType::Hearts
            } else {
                RenderType::Integer
            };
            let mut objective = ScoreboardObjective::new(
                o.name.clone(),
                o.display_name.copy(),
                render_type,
                copy_format_option(&o.number_format),
                o.criteria_name.clone(),
            );
            objective.display_auto_update = o.display_auto_update;
            proof {
                assert(objective@ == objective_from_data(data@.objectives[i as int]));
                assert(data@.objectives.take(i + 1).drop_last() =~= data@.objectives.take(i as int));
            }
            self.put_objective(objective);
            i = i + 1;
        }
        proof {
            assert(data@.objectives.take(data@.objectives.len() as int) =~= data@.objectives);
            if unique_objective_names(data@.objectives) {
                lemma_load_objectives_fresh(data@.objectives);
            }
        }
        let ghost v1 = self@;
        let mut i: usize = 0;
        while i < data.scores.len()
            invariant
                i <= data.scores@.len(),
                self@ == load_scores(v1, data@.scores.take(i as int)),
                self@.tracked_names == Seq::<Seq<char>>::empty(),
                self@.wf(),
                v1.index_consistent() ==> self@.index_consistent(),
            decreases data.scores@.len() - i,
        {
            let s = &data.scores[i];
            let score = ScoreboardScore {
                entity_name: s.entity_name.clone(),
                objective_name: s.objective_name.clone(),
                value: s.value,
                display_name: copy_text_option(&s.display),
                number_format: copy_format_option(&s.number_format),
                locked: s.locked,
            };
            proof {
                assert(score@ == score_from_data(data@.scores[i as int]));
                assert(data@.scores.take(i + 1).drop_last() =~= data@.scores.take(i as int));
            }
            self.put_score(score);
            i = i + 1;
        }
        proof {
            assert(data@.scores.take(data@.scores.len() as int) =~= data@.scores);
        }
        let ghost v2 = self@;
        let mut i: usize = 0;
        while i < data.teams.len()
            invariant
                i <= data.teams@.len(),
                self@ == load_teams(v2, data@.teams.take(i as int)),
                self@.tracked_names == Seq::<Seq<char>>::empty(),
                self@.wf(),
                v1.index_consistent() ==> self@.index_consistent(),
            decreases data.teams@.len() - i,
        {
            let team = data.teams[i].to_team();
            proof {
                assert(data@.teams.take(i + 1).drop_last() =~= data@.teams.take(i as int));
            }
            self.put_team(team);
            i = i + 1;
        }
        proof {
            assert(data@.teams.take(data@.teams.len() as int) =~= data@.teams);
        }
        let ghost v3 = self@;
        let mut i: usize = 0;
        while i < data.display_slots.len()
            invariant
                i <= data.display_slots@.len(),
                self@ == load_slots(v3, data@.display_slots.take(i as int)),
                self@.tracked_names == Seq::<Seq<char>>::empty(),
                self@.wf(),
                v1.index_consistent() ==> self@.index_consistent(),
            decreases data.display_slots@.len() - i,
        {
            let entry = &data.display_slots[i];
            proof {
                assert(data@.display_slots.take(i + 1).drop_last() =~= data@.display_slots.take(
                    i as int,
                ));
            }
            if let Some(slot) = display_slot_from_name(entry.0.as_str()) {
                self.bind_slot(slot, Some(entry.1.clone()));
            }
            i = i + 1;
        }
        proof {
            assert(data@.display_slots.take(data@.display_slots.len() as int) =~= data@.display_slots);
        }
        let ghost v4 = self@;
        let mut i: usize = 0;
        while i < self.display_objectives.len()
            invariant
                i <= self.display_objectives@.len(),
                self@ == (ScoreboardView {
                    tracked_names: tracked_from(Seq::empty(), v4.display_objectives.take(i as int)),
                    ..v4
                }),
                self@.wf(),
                v1.index_consistent() ==> self@.index_consistent(),
            decreases self.display_objectives@.len() - i,
        {
            proof {
                assert(v4.display_objectives.take(i + 1).drop_last() =~= v4.display_objectives.take(
                    i as int,
                ));
                assert(self@.display_objectives[i as int] == display_entry_view(
                    self.display_objectives@[i as int],
                ));
            }
            let name = match &self.display_objectives[i].1 {
                Some(n) => Some(n.clone()),
                None => None,
            };
            if let Some(n) = name {
                self.track_name(&n);
            }
            i = i + 1;
        }
        proof {
            assert(v4.display_objectives.take(v4.display_objectives.len() as int)
                =~= v4.display_objectives);
            assert(self@ =~= loaded(data@));
            crate::scoreboard_laws::lemma_load_keyed_data(data@);
        }
    }
}


/// A team as it loads back after saving: of its options only bits 0 and 1
/// are kept.
pub open spec fn reloaded_team(t: TeamView) -> TeamView {
    TeamView { options: t.options & 3, ..t }
}

/// The bindings of `d` that show an objective, in order.
pub open spec fn shown_bindings(d: Seq<(DisplaySlot, Option<Seq<char>>)>) -> Seq<
    (DisplaySlot, Option<Seq<char>>),
>
    decreases d.len(),
{
    if d.len() == 0 {
        Seq::empty()
    } else {
        let rest = shown_bindings(d.drop_last());
        if d.last().1 is Some {
            rest.push(d.last())
        } else {
            rest
        }
    }
}

/// The objective that the bindings `d` show in `slot`.
pub open spec fn slot_value(d: Seq<(DisplaySlot, Option<Seq<char>>)>, slot: DisplaySlot) -> Option<
    Seq<char>,
> {
    match first_where(d, slot_is(slot)) {
        Some(i) => d[i].1,
        None => None,
    }
}

/// No slot is bound twice in `d`.
pub open spec fn unique_slots(d: Seq<(DisplaySlot, Option<Seq<char>>)>) -> bool {
    forall|i: int, j: int| 0 <= i < j < d.len() ==> d[i].0 != d[j].0
}

proof fn lemma_objective_reloads(o: ObjectiveView)
    ensures
        objective_from_data(objective_data(o)) == o,
{
    reveal_strlit("integer");
    reveal_strlit("hearts");
    assert("integer"@.len() != "hearts"@.len());
}

proof fn lemma_options_bits(options: i8)
    ensures
        options_from_flags(options & 1 != 0, options & 2 != 0) == options & 3,
{
    assert(options & 1 != 0 && options & 2 != 0 ==> options & 3 == 3) by (bit_vector);
    assert(options & 1 != 0 && options & 2 == 0 ==> options & 3 == 1) by (bit_vector);
    assert(options & 1 == 0 && options & 2 != 0 ==> options & 3 == 2) by (bit_vector);
    assert(options & 1 == 0 && options & 2 == 0 ==> options & 3 == 0) by (bit_vector);
}

proof fn lemma_team_reloads(t: TeamView)
    ensures
        team_from_data(team_data(t)) == reloaded_team(t),
{
    lemma_team_rule_names_round_trip(t.nametag_visibility, t.collision_rule);
    lemma_team_rule_names_round_trip(t.death_message_visibility, t.collision_rule);
    lemma_options_bits(t.options);
}

/// Scores with distinct keys, loaded where there are none, are appended in
/// order.
proof fn lemma_load_scores_fresh(w: ScoreboardView, scores: Seq<ScoreDataView>)
    requires
        w.scores.len() == 0,
        forall|i: int, j: int|
            0 <= i < j < scores.len() ==> !(scores[i].objective_name == scores[j].objective_name
                && scores[i].entity_name == scores[j].entity_name),
    ensures
        load_scores(w, scores) == (ScoreboardView {
            scores: scores.map_values(|s: ScoreDataView| score_from_data(s)),
            ..w
        }),
    decreases scores.len(),
{
    if scores.len() > 0 {
        let rest = scores.drop_last();
        lemma_load_scores_fresh(w, rest);
        let u = load_scores(w, rest);
        let s = score_from_data(scores.last());
        assert forall|j: int| 0 <= j < u.scores.len() implies !score_of(s.objective_name, s.entity_name)(
            #[trigger] u.scores[j],
        ) by {
            assert(u.scores[j] == score_from_data(scores[j]));
        }
        lemma_first_where_none(u.scores, score_of(s.objective_name, s.entity_name));
        assert(load_scores(w, scores).scores =~= scores.map_values(
            |s: ScoreDataView| score_from_data(s),
        ));
    } else {
        assert(w.scores =~= scores.map_values(|s: ScoreDataView| score_from_data(s)));
    }
}

/// Teams with distinct names, loaded where there are none, are appended in
/// order.
proof fn lemma_load_teams_fresh(w: ScoreboardView, teams: Seq<TeamDataView>)
    requires
        w.teams.len() == 0,
        forall|i: int, j: int| 0 <= i < j < teams.len() ==> teams[i].name != teams[j].name,
    ensures
        load_teams(w, teams) == (ScoreboardView {
            teams: teams.map_values(|t: TeamDataView| team_from_data(t)),
            ..w
        }),
    decreases teams.len(),
{
    if teams.len() > 0 {
        let rest = teams.drop_last();
        lemma_load_teams_fresh(w, rest);
        let u = load_teams(w, rest);
        let t = team_from_data(teams.last());
        assert forall|j: int| 0 <= j < u.teams.len() implies !team_named(t.name)(
            #[trigger] u.teams[j],
        ) by {
            assert(u.teams[j] == team_from_data(teams[j]));
        }
        lemma_first_where_none(u.teams, team_named(t.name));
        assert(load_teams(w, teams).teams =~= teams.map_values(
            |t: TeamDataView| team_from_data(t),
        ));
    } else {
        assert(w.teams =~= teams.map_values(|t: TeamDataView| team_from_data(t)));
    }
}

/// Each binding kept by `shown_bindings` is a binding of `d`.
proof fn lemma_shown_bindings_from(d: Seq<(DisplaySlot, Option<Seq<char>>)>)
    ensures
        forall|k: int|
            0 <= k < shown_bindings(d).len() ==> exists|j: int|
                0 <= j < d.len() && #[trigger] shown_bindings(d)[k] == d[j],
    decreases d.len(),
{
    if d.len() > 0 {
        let rest = d.drop_last();
        lemma_shown_bindings_from(rest);
        assert forall|k: int| 0 <= k < shown_bindings(d).len() implies exists|j: int|
            0 <= j < d.len() && #[trigger] shown_bindings(d)[k] == d[j] by {
            if k < shown_bindings(rest).len() {
                let j = choose|j: int| 0 <= j < rest.len() && shown_bindings(rest)[k] == rest[j];
                assert(shown_bindings(d)[k] == d[j]);
            } else {
                assert(shown_bindings(d)[k] == d[d.len() - 1]);
            }
        }
    }
}

/// Loading the saved bindings of `d`, where no slot is bound, binds the
/// slots that `d` shows an objective in, in order.
proof fn lemma_load_slots_saved(w: ScoreboardView, d: Seq<(DisplaySlot, Option<Seq<char>>)>)
    requires
        w.display_objectives.len() == 0,
        unique_slots(d),
    ensures
        load_slots(w, saved_slots(d)) == (ScoreboardView {
            display_objectives: shown_bindings(d),
            ..w
        }),
    decreases d.len(),
{
    if d.len() > 0 {
        let rest = d.drop_last();
        lemma_load_slots_saved(w, rest);
        let e = d.last();
        match e.1 {
            Some(n) => {
                let saved_e = (slot_name(e.0), n);
                assert(saved_slots(d).drop_last() =~= saved_slots(rest));
                lemma_display_slot_name_round_trip(e.0, slot_name(e.0));
                let u = load_slots(w, saved_slots(rest));
                lemma_shown_bindings_from(rest);
                assert forall|k: int| 0 <= k < u.display_objectives.len() implies !slot_is(e.0)(
                    #[trigger] u.display_objectives[k],
                ) by {
                    let j = choose|j: int|
                        0 <= j < rest.len() && #[trigger] shown_bindings(rest)[k] == rest[j];
                    assert(rest[j] == d[j]);
                }
                lemma_first_where_none(u.display_objectives, slot_is(e.0));
                assert(load_slots(w, saved_slots(d)).display_objectives =~= shown_bindings(d));
            },
            None => {},
        }
    }
}

/// Dropping the bindings that show nothing leaves the objective shown in
/// every slot as it was.
proof fn lemma_shown_bindings_value(d: Seq<(DisplaySlot, Option<Seq<char>>)>, slot: DisplaySlot)
    requires
        unique_slots(d),
    ensures
        slot_value(shown_bindings(d), slot) == slot_value(d, slot),
    decreases d.len(),
{
    if d.len() > 0 {
        let rest = d.drop_last();
        let e = d.last();
        lemma_shown_bindings_value(rest, slot);
        lemma_shown_bindings_from(rest);
        assert(d =~= rest.push(e));
        lemma_first_where_push(rest, slot_is(slot), e);
        lemma_first_where_some(rest, slot_is(slot));
        lemma_first_where_some(shown_bindings(rest), slot_is(slot));
        if e.1 is Some {
            lemma_first_where_push(shown_bindings(rest), slot_is(slot), e);
        }
        if e.0 == slot {
            assert forall|k: int| 0 <= k < rest.len() implies !slot_is(slot)(#[trigger] rest[k]) by {
                assert(rest[k] == d[k]);
            }
            lemma_first_where_none(rest, slot_is(slot));
            assert forall|k: int| 0 <= k < shown_bindings(rest).len() implies !slot_is(slot)(
                #[trigger] shown_bindings(rest)[k],
            ) by {
                let j = choose|j: int|
                    0 <= j < rest.len() && #[trigger] shown_bindings(rest)[k] == rest[j];
                assert(rest[j] == d[j]);
            }
            lemma_first_where_none(shown_bindings(rest), slot_is(slot));
        }
    }
}

/// Saving a well-formed scoreboard and loading it back gives back its
/// objectives and scores, its teams with bits 0 and 1 of their options, the
/// slot bindings that show an objective, and the objective shown in every
/// slot; the rebuilt criterion index is consistent.
pub proof fn lemma_save_load_round_trip(v: ScoreboardView)
    requires
        v.wf(),
    ensures
        loaded(saved(v)).objectives == v.objectives,
        loaded(saved(v)).scores == v.scores,
        loaded(saved(v)).teams == v.teams.map_values(|t: TeamView| reloaded_team(t)),
        loaded(saved(v)).display_objectives == shown_bindings(v.display_objectives),
        forall|slot: DisplaySlot| #[trigger]
            loaded(saved(v)).display_objective(slot) == v.display_objective(slot),
        loaded(saved(v)).index_consistent(),
{
    let d = saved(v);
    assert(unique_objective_names(d.objectives));
    lemma_load_objectives_fresh(d.objectives);
    let v1 = load_objectives(empty_scoreboard(), d.objectives);
    assert forall|j: int| 0 <= j < v.objectives.len() implies v1.objectives[j] == v.objectives[j] by {
        lemma_objective_reloads(v.objectives[j]);
    }
    assert(v1.objectives =~= v.objectives);
    lemma_load_scores_fresh(v1, d.scores);
    let v2 = load_scores(v1, d.scores);
    assert forall|j: int| 0 <= j < v.scores.len() implies v2.scores[j] == v.scores[j] by {}
    assert(v2.scores =~= v.scores);
    lemma_load_teams_fresh(v2, d.teams);
    let v3 = load_teams(v2, d.teams);
    assert forall|j: int| 0 <= j < v.teams.len() implies v3.teams[j] == reloaded_team(v.teams[j]) by {
        lemma_team_reloads(v.teams[j]);
    }
    assert(v3.teams =~= v.teams.map_values(|t: TeamView| reloaded_team(t)));
    lemma_load_slots_saved(v3, v.display_objectives);
    let v4 = load_slots(v3, d.display_slots);
    assert forall|slot: DisplaySlot| #[trigger]
        loaded(d).display_objective(slot) == v.display_objective(slot) by {
        lemma_shown_bindings_value(v.display_objectives, slot);
    }
    assert(v4.objectives == v1.objectives && v4.by_criterion == v1.by_criterion);
}

} // verus!
