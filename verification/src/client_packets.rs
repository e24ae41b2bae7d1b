//! The bodies of the set-player-team, update-objectives and
//! update-advancements packets.
use vstd::prelude::*;

use crate::advancement::FrameType;
use crate::identifier::{id_text, Identifier};
use crate::packets::{
    collision_rule_id, mode_id, render_type_id, spec_collision_rule_id, spec_visibility_id, team_method_id,
    visibility_id, Mode, RenderType, TeamMethod,
};
use crate::team::names_view;
use crate::wire::{
    be_bytes, bool_bytes, len_var, signed_be, string_bytes, var_int, write_bool, write_i32_be, write_i64_be,
    write_i8, write_len, write_slice, write_string, write_u32_be, write_u8, write_var_int,
};

verus! {

/// The protocol versions whose team encodings differ: 26.2 and later
/// reordered the parameters; 26.1 sends rules by id; earlier ones by name.
#[derive(Clone, Copy, Debug, PartialEq, Eq, Structural)]
pub enum ProtocolVersion {
    Older,
    V26_1,
    V26_2,
}

/// The parameters of a team; text components come encoded.
pub struct EncodedTeamParameters {
    pub display_name: Vec<u8>,
    pub options: i8,
    pub nametag_visibility: String,
    pub collision_rule: String,
    pub color: i32,
    pub player_prefix: Vec<u8>,
    pub player_suffix: Vec<u8>,
}

/// Why a packet could not be written.
#[derive(Clone, Copy, Debug, PartialEq, Eq, Structural)]
pub enum WritingError {
    /// Creating or updating a team needs its parameters.
    MissingTeamParameters,
}

/// The strings one after the other.
pub open spec fn strings_bytes(s: Seq<Seq<char>>) -> Seq<u8>
    decreases s.len(),
{
    if s.len() == 0 {
        Seq::empty()
    } else {
        strings_bytes(s.drop_last()) + string_bytes(s.last())
    }
}

/// A count, then the strings.
pub open spec fn string_list_bytes(s: Seq<Seq<char>>) -> Seq<u8> {
    len_var(s.len()) + strings_bytes(s)
}

pub open spec fn team_parameters_bytes(p: EncodedTeamParameters, version: ProtocolVersion) -> Seq<u8> {
    if version == ProtocolVersion::V26_2 {
        p.display_name@ + p.player_prefix@ + p.player_suffix@ + var_int(
            spec_visibility_id(p.nametag_visibility@) as i32,
        ) + var_int(spec_collision_rule_id(p.collision_rule@) as i32) + bool_bytes(true) + var_int(p.color)
            + signed_be(p.options as int, 1)
    } else {
        p.display_name@ + signed_be(p.options as int, 1) + (if version == ProtocolVersion::V26_1 {
            var_int(spec_visibility_id(p.nametag_visibility@) as i32) + var_int(
                spec_collision_rule_id(p.collision_rule@) as i32,
            )
        } else {
            string_bytes(p.nametag_visibility@) + string_bytes(p.collision_rule@)
        }) + var_int(p.color) + p.player_prefix@ + p.player_suffix@
    }
}

/// The body of a set-player-team packet: the team's name and the method,
/// the parameters when creating or updating, and the players when creating,
/// adding or removing them. Without parameters, creating or updating cannot
/// be written.
pub open spec fn team_packet_bytes(
    team_name: Seq<char>,
    method: TeamMethod,
    parameters: Option<EncodedTeamParameters>,
    players: Seq<Seq<char>>,
    version: ProtocolVersion,
) -> Option<Seq<u8>> {
    let head = string_bytes(team_name) + signed_be(team_method_id(method), 1);
    let with_parameters = method == TeamMethod::Create || method == TeamMethod::Update;
    let with_players = method == TeamMethod::Create || method == TeamMethod::AddPlayers || method
        == TeamMethod::RemovePlayers;
    if with_parameters && parameters is None {
        None
    } else {
        Some(
            head + (if with_parameters {
                team_parameters_bytes(parameters->0, version)
            } else {
                Seq::empty()
            }) + (if with_players {
                string_list_bytes(players)
            } else {
                Seq::empty()
            }),
        )
    }
}

fn write_strings(out: &mut Vec<u8>, strings: &Vec<String>)
    ensures
        final(out)@ == old(out)@ + string_list_bytes(names_view(strings@)),
{
    write_len(out, strings.len());
    let ghost start = out@;
    let ghost names = names_view(strings@);
    let mut i: usize = 0;
    while i < strings.len()
        invariant
            i <= strings@.len(),
            names == names_view(strings@),
            out@ == start + strings_bytes(names.take(i as int)),
        decreases strings@.len() - i,
    {
        write_string(out, strings[i].as_str());
        proof {
            assert(names.take(i + 1).drop_last() =~= names.take(i as int));
            assert(names.take(i + 1).last() == strings@[i as int]@);
        }
        i = i + 1;
    }
    assert(names.take(names.len() as int) =~= names);
}

/// A set-player-team packet: a team created, removed or updated, or players
/// added to it or removed from it.
pub struct CSetPlayerTeam {
    pub team_name: String,
    pub method: TeamMethod,
    pub parameters: Option<EncodedTeamParameters>,
    pub players: Vec<String>,
}

impl CSetPlayerTeam {
    /// Writes the body of the packet for `version`; see
    /// [`team_packet_bytes`].
    pub fn write_packet_data(&self, version: ProtocolVersion) -> (r: Result<Vec<u8>, WritingError>)
        ensures
            match r {
                Ok(bytes) => team_packet_bytes(
                    self.team_name@,
                    self.method,
                    self.parameters,
                    names_view(self.players@),
                    version,
                ) == Some(bytes@),
                Err(_) => team_packet_bytes(
                    self.team_name@,
                    self.method,
                    self.parameters,
                    names_view(self.players@),
                    version,
                ) is None,
            },
    {
        let method = self.method;
        let mut out: Vec<u8> = Vec::new();
        write_string(&mut out, self.team_name.as_str());
        write_i8(&mut out, method.id());
        let ghost head = out@;
        let with_parameters = match method {
            TeamMethod::Create | TeamMethod::Update => true,
            _ => false,
        };
        if with_parameters {
            match &self.parameters {
                Some(p) => {
                    if version == ProtocolVersion::V26_2 {
                        write_slice(&mut out, &p.display_name);
                        write_slice(&mut out, &p.player_prefix);
                        write_slice(&mut out, &p.player_suffix);
                        write_var_int(&mut out, visibility_id(p.nametag_visibility.as_str()));
                        write_var_int(&mut out, collision_rule_id(p.collision_rule.as_str()));
                        write_bool(&mut out, true);
                        write_var_int(&mut out, p.color);
                        write_i8(&mut out, p.options);
                    } else {
                        write_slice(&mut out, &p.display_name);
                        write_i8(&mut out, p.options);
                        if version == ProtocolVersion::V26_1 {
                            write_var_int(&mut out, visibility_id(p.nametag_visibility.as_str()));
                            write_var_int(&mut out, collision_rule_id(p.collision_rule.as_str()));
                        } else {
                            write_string(&mut out, p.nametag_visibility.as_str());
                            write_string(&mut out, p.collision_rule.as_str());
                        }
                        write_var_int(&mut out, p.color);
                        write_slice(&mut out, &p.player_prefix);
                        write_slice(&mut out, &p.player_suffix);
                    }
                    assert(out@ =~= head + team_parameters_bytes(*p, version));
                },
                None => {
                    return Err(WritingError::MissingTeamParameters);
                },
            }
        }
        let with_players = match method {
            TeamMethod::Create | TeamMethod::AddPlayers | TeamMethod::RemovePlayers => true,
            _ => false,
        };
        if with_players {
            write_strings(&mut out, &self.players);
        }
        proof {
            let expected = team_packet_bytes(self.team_name@, method, self.parameters, names_view(self.players@), version);
            assert(expected->0 =~= out@);
        }
        Ok(out)
    }
}

/// The body of an update-objectives packet: the objective's name and the
/// mode, then, when adding or updating, its display name, render type and
/// optional number format, all already encoded where they are components.
pub open spec fn objectives_packet_bytes(
    name: Seq<char>,
    mode: Mode,
    display_name: Seq<u8>,
    render_type: RenderType,
    number_format: Option<Seq<u8>>,
) -> Seq<u8> {
    string_bytes(name) + be_bytes(mode_id(mode) as nat, 1) + if mode == Mode::Add || mode == Mode::Update {
        display_name + var_int(render_type_id(render_type) as i32) + match number_format {
            Some(f) => bool_bytes(true) + f,
            None => bool_bytes(false),
        }
    } else {
        Seq::empty()
    }
}

/// An update-objectives packet: an objective added, removed or updated; its
/// display name and number format come encoded.
pub struct CUpdateObjectives {
    pub objective_name: String,
    pub mode: Mode,
    pub display_name: Vec<u8>,
    pub render_type: RenderType,
    pub number_format: Option<Vec<u8>>,
}

pub open spec fn option_bytes_view(v: Option<Vec<u8>>) -> Option<Seq<u8>> {
    match v {
        Some(f) => Some(f@),
        None => None,
    }
}

impl CUpdateObjectives {
    /// The packet with these fields.
    pub fn new(
        objective_name: String,
        mode: Mode,
        display_name: Vec<u8>,
        render_type: RenderType,
        number_format: Option<Vec<u8>>,
    ) -> (r: CUpdateObjectives)
        ensures
            r.objective_name == objective_name,
            r.mode == mode,
            r.display_name == display_name,
            r.render_type == render_type,
            r.number_format == number_format,
    {
        CUpdateObjectives { objective_name, mode, display_name, render_type, number_format }
    }

    /// Writes the body of the packet; see [`objectives_packet_bytes`].
    pub fn write_packet_data(&self) -> (r: Vec<u8>)
        ensures
            r@ == objectives_packet_bytes(
                self.objective_name@,
                self.mode,
                self.display_name@,
                self.render_type,
                option_bytes_view(self.number_format),
            ),
    {
        let mode = self.mode;
        let mut out: Vec<u8> = Vec::new();
        write_string(&mut out, self.objective_name.as_str());
        write_u8(&mut out, mode.id());
        match mode {
            Mode::Add | Mode::Update => {
                write_slice(&mut out, &self.display_name);
                write_var_int(&mut out, self.render_type.id());
                match &self.number_format {
                    Some(f) => {
                        write_bool(&mut out, true);
                        write_slice(&mut out, f);
                    },
                    None => {
                        write_bool(&mut out, false);
                    },
                }
            },
            Mode::Remove => {},
        }
        proof {
            assert(out@ =~= objectives_packet_bytes(
                self.objective_name@,
                mode,
                self.display_name@,
                self.render_type,
                option_bytes_view(self.number_format),
            ));
        }
        out
    }
}

/// How an advancement is shown, as sent: its components and icon come
/// encoded, and its position as the bits of two 32-bit floating-point
/// numbers.
pub struct ClientAdvancementDisplay {
    pub title: Vec<u8>,
    pub description: Vec<u8>,
    pub icon: Vec<u8>,
    pub frame: FrameType,
    pub background: Option<String>,
    pub show_toast: bool,
    pub hidden: bool,
    pub x_bits: u32,
    pub y_bits: u32,
}

/// An advancement as sent.
pub struct ClientAdvancement {
    pub id: Identifier,
    pub parent: Option<Identifier>,
    pub display: Option<ClientAdvancementDisplay>,
    pub requirements: Vec<Vec<String>>,
    pub send_telemetry: bool,
}

/// The progress of one criterion: when it was achieved, if it was.
pub struct CriterionProgress {
    pub criterion: String,
    pub achieved_at: Option<i64>,
}

/// The progress of an advancement.
pub struct AdvancementProgress {
    pub id: Identifier,
    pub criteria: Vec<CriterionProgress>,
}

pub open spec fn frame_id(frame: FrameType) -> int {
    match frame {
        FrameType::Task => 0,
        FrameType::Challenge => 1,
        FrameType::Goal => 2,
    }
}

/// The flags of a display: a background, then a toast, then hidden.
pub open spec fn display_flags(d: ClientAdvancementDisplay) -> int {
    (if d.background is Some {
        1int
    } else {
        0
    }) + (if d.show_toast {
        2int
    } else {
        0
    }) + (if d.hidden {
        4int
    } else {
        0
    })
}

pub open spec fn display_bytes(d: ClientAdvancementDisplay) -> Seq<u8> {
    d.title@ + d.description@ + d.icon@ + var_int(frame_id(d.frame) as i32) + signed_be(display_flags(d), 4)
        + match d.background {
        Some(b) => string_bytes(b@),
        None => Seq::empty(),
    } + be_bytes(d.x_bits as nat, 4) + be_bytes(d.y_bits as nat, 4)
}

/// The requirement groups: their count, then each as a list of strings.
pub open spec fn groups_bytes(groups: Seq<Vec<String>>) -> Seq<u8>
    decreases groups.len(),
{
    if groups.len() == 0 {
        Seq::empty()
    } else {
        groups_bytes(groups.drop_last()) + string_list_bytes(names_view(groups.last()@))
    }
}

pub open spec fn parent_bytes(parent: Option<Identifier>) -> Seq<u8> {
    match parent {
        Some(p) => bool_bytes(true) + string_bytes(id_text(p@)),
        None => bool_bytes(false),
    }
}

pub open spec fn display_option_bytes(display: Option<ClientAdvancementDisplay>) -> Seq<u8> {
    match display {
        Some(d) => bool_bytes(true) + display_bytes(d),
        None => bool_bytes(false),
    }
}

pub open spec fn advancement_bytes(a: ClientAdvancement) -> Seq<u8> {
    string_bytes(id_text(a.id@)) + parent_bytes(a.parent) + display_option_bytes(a.display) + len_var(
        a.requirements@.len(),
    ) + groups_bytes(a.requirements@) + bool_bytes(a.send_telemetry)
}

pub open spec fn advancements_bytes(added: Seq<ClientAdvancement>) -> Seq<u8>
    decreases added.len(),
{
    if added.len() == 0 {
        Seq::empty()
    } else {
        advancements_bytes(added.drop_last()) + advancement_bytes(added.last())
    }
}

pub open spec fn ids_bytes(ids: Seq<Identifier>) -> Seq<u8>
    decreases ids.len(),
{
    if ids.len() == 0 {
        Seq::empty()
    } else {
        ids_bytes(ids.drop_last()) + string_bytes(id_text(ids.last()@))
    }
}

pub open spec fn criterion_bytes(c: CriterionProgress) -> Seq<u8> {
    string_bytes(c.criterion@) + match c.achieved_at {
        Some(t) => bool_bytes(true) + signed_be(t as int, 8),
        None => bool_bytes(false),
    }
}

pub open spec fn criteria_bytes(c: Seq<CriterionProgress>) -> Seq<u8>
    decreases c.len(),
{
    if c.len() == 0 {
        Seq::empty()
    } else {
        criteria_bytes(c.drop_last()) + criterion_bytes(c.last())
    }
}

pub open spec fn progress_bytes(p: Seq<AdvancementProgress>) -> Seq<u8>
    decreases p.len(),
{
    if p.len() == 0 {
        Seq::empty()
    } else {
        progress_bytes(p.drop_last()) + string_bytes(id_text(p.last().id@)) + len_var(p.last().criteria@.len())
            + criteria_bytes(p.last().criteria@)
    }
}

/// The body of an update-advancements packet: whether to reset, the
/// advancements added, the identifiers removed, the progress, and whether
/// to show the advancements.
pub open spec fn update_advancements_bytes(
    reset: bool,
    added: Seq<ClientAdvancement>,
    removed: Seq<Identifier>,
    progress: Seq<AdvancementProgress>,
    show_advancements: bool,
) -> Seq<u8> {
    bool_bytes(reset) + len_var(added.len()) + advancements_bytes(added) + len_var(removed.len()) + ids_bytes(
        removed,
    ) + len_var(progress.len()) + progress_bytes(progress) + bool_bytes(show_advancements)
}

fn write_display(out: &mut Vec<u8>, d: &ClientAdvancementDisplay)
    ensures
        final(out)@ == old(out)@ + display_bytes(*d),
{
    write_slice(out, &d.title);
    write_slice(out, &d.description);
    write_slice(out, &d.icon);
    let frame: i32 = match d.frame {
        FrameType::Task => 0,
        FrameType::Challenge => 1,
        FrameType::Goal => 2,
    };
    write_var_int(out, frame);
    let flags: i32 = (if d.background.is_some() {
        1i32
    } else {
        0
    }) + (if d.show_toast {
        2i32
    } else {
        0
    }) + (if d.hidden {
        4i32
    } else {
        0
    });
    write_i32_be(out, flags);
    match &d.background {
        Some(b) => write_string(out, b.as_str()),
        None => {},
    }
    write_u32_be(out, d.x_bits);
    write_u32_be(out, d.y_bits);
    assert(final(out)@ =~= old(out)@ + display_bytes(*d));
}

fn write_groups(out: &mut Vec<u8>, groups: &Vec<Vec<String>>)
    ensures
        final(out)@ == old(out)@ + len_var(groups@.len()) + groups_bytes(groups@),
{
    write_len(out, groups.len());
    let ghost start = out@;
    let mut i: usize = 0;
    while i < groups.len()
        invariant
            i <= groups@.len(),
            out@ == start + groups_bytes(groups@.take(i as int)),
        decreases groups@.len() - i,
    {
        write_strings(out, &groups[i]);
        proof {
            assert(groups@.take(i + 1).drop_last() =~= groups@.take(i as int));
        }
        i = i + 1;
    }
    assert(groups@.take(groups@.len() as int) =~= groups@);
    assert(final(out)@ =~= old(out)@ + len_var(groups@.len()) + groups_bytes(groups@));
}

fn write_head(out: &mut Vec<u8>, a: &ClientAdvancement)
    ensures
        final(out)@ == old(out)@ + string_bytes(id_text(a.id@)) + parent_bytes(a.parent) + display_option_bytes(
            a.display,
        ),
{
    write_string(out, a.id.to_string().as_str());
    let ghost s1 = out@;
    match &a.parent {
        Some(p) => {
            write_bool(out, true);
            write_string(out, p.to_string().as_str());
        },
        None => write_bool(out, false),
    }
    assert(out@ =~= s1 + parent_bytes(a.parent));
    let ghost s2 = out@;
    match &a.display {
        Some(d) => {
            write_bool(out, true);
            write_display(out, d);
        },
        None => write_bool(out, false),
    }
    assert(out@ =~= s2 + display_option_bytes(a.display));
}

fn write_advancement(out: &mut Vec<u8>, a: &ClientAdvancement)
    ensures
        final(out)@ == old(out)@ + advancement_bytes(*a),
{
    write_head(out, a);
    write_groups(out, &a.requirements);
    write_bool(out, a.send_telemetry);
    assert(final(out)@ =~= old(out)@ + advancement_bytes(*a));
}

fn write_progress(out: &mut Vec<u8>, p: &AdvancementProgress)
    ensures
        final(out)@ == old(out)@ + string_bytes(id_text(p.id@)) + len_var(p.criteria@.len()) + criteria_bytes(
            p.criteria@,
        ),
{
    write_string(out, p.id.to_string().as_str());
    write_len(out, p.criteria.len());
    let ghost start = out@;
    let mut i: usize = 0;
    while i < p.criteria.len()
        invariant
            i <= p.criteria@.len(),
            out@ == start + criteria_bytes(p.criteria@.take(i as int)),
        decreases p.criteria@.len() - i,
    {
        let c = &p.criteria[i];
        let ghost before = out@;
        write_string(out, c.criterion.as_str());
        match c.achieved_at {
            Some(t) => {
                write_bool(out, true);
                write_i64_be(out, t);
            },
            None => write_bool(out, false),
        }
        proof {
            assert(out@ =~= before + criterion_bytes(*c));
            assert(p.criteria@.take(i + 1).drop_last() =~= p.criteria@.take(i as int));
        }
        i = i + 1;
    }
    assert(p.criteria@.take(p.criteria@.len() as int) =~= p.criteria@);
    assert(final(out)@ =~= old(out)@ + string_bytes(id_text(p.id@)) + len_var(p.criteria@.len()) + criteria_bytes(
        p.criteria@,
    ));
}

/// An update-advancements packet: whether the client starts over, the
/// advancements added and removed, progress, and whether to show the
/// advancements screen.
pub struct CUpdateAdvancements {
    pub reset: bool,
    pub added: Vec<ClientAdvancement>,
    pub removed: Vec<Identifier>,
    pub progress: Vec<AdvancementProgress>,
    pub show_advancements: bool,
}

impl CUpdateAdvancements {
    /// The packet with these fields.
    pub fn new(
        reset: bool,
        added: Vec<ClientAdvancement>,
        progress: Vec<AdvancementProgress>,
        removed: Vec<Identifier>,
        show_advancements: bool,
    ) -> (r: CUpdateAdvancements)
        ensures
            r.reset == reset,
            r.added == added,
            r.removed == removed,
            r.progress == progress,
            r.show_advancements == show_advancements,
    {
        CUpdateAdvancements { reset, added, removed, progress, show_advancements }
    }

    /// Writes the body of the packet; see [`update_advancements_bytes`].
    pub fn write_packet_data(&self) -> (r: Vec<u8>)
        ensures
            r@ == update_advancements_bytes(
                self.reset,
                self.added@,
                self.removed@,
                self.progress@,
                self.show_advancements,
            ),
    {
        let reset = self.reset;
        let added = &self.added;
        let removed = &self.removed;
        let progress = &self.progress;
        let show_advancements = self.show_advancements;
        let mut out: Vec<u8> = Vec::new();
        write_bool(&mut out, reset);
        write_len(&mut out, added.len());
        let ghost s1 = out@;
        let mut i: usize = 0;
        while i < added.len()
            invariant
                i <= added@.len(),
                out@ == s1 + advancements_bytes(added@.take(i as int)),
            decreases added@.len() - i,
        {
            write_advancement(&mut out, &added[i]);
            proof {
                assert(added@.take(i + 1).drop_last() =~= added@.take(i as int));
            }
            i = i + 1;
        }
        assert(added@.take(added@.len() as int) =~= added@);
        write_len(&mut out, removed.len());
        let ghost s2 = out@;
        let mut i: usize = 0;
        while i < removed.len()
            invariant
                i <= removed@.len(),
                out@ == s2 + ids_bytes(removed@.take(i as int)),
            decreases removed@.len() - i,
        {
            write_string(&mut out, removed[i].to_string().as_str());
            proof {
                assert(removed@.take(i + 1).drop_last() =~= removed@.take(i as int));
            }
            i = i + 1;
        }
        assert(removed@.take(removed@.len() as int) =~= removed@);
        write_len(&mut out, progress.len());
        let ghost s3 = out@;
        let mut i: usize = 0;
        while i < progress.len()
            invariant
                i <= progress@.len(),
                out@ == s3 + progress_bytes(progress@.take(i as int)),
            decreases progress@.len() - i,
        {
            write_progress(&mut out, &progress[i]);
            proof {
                assert(progress@.take(i + 1).drop_last() =~= progress@.take(i as int));
            }
            i = i + 1;
        }
        assert(progress@.take(progress@.len() as int) =~= progress@);
        write_bool(&mut out, show_advancements);
        assert(out@ =~= update_advancements_bytes(reset, added@, removed@, progress@, show_advancements));
        out
    }
}

} // verus!
