use pumpkin::advancement::FrameType;
use pumpkin::client_packets::{
    ClientAdvancement, AdvancementProgress, CSetPlayerTeam, CUpdateAdvancements, CUpdateObjectives,
    CriterionProgress, ClientAdvancementDisplay, EncodedTeamParameters, ProtocolVersion, WritingError,
};
use pumpkin::identifier::Identifier;
use pumpkin::packets::{Mode, RenderType, TeamMethod};
use pumpkin::wire::{write_bool, write_i32_be, write_i8, write_slice, write_string, write_var_int};

// Stand-ins for the encoded text components.
fn encoded(text: &str) -> Vec<u8> {
    let mut out = vec![8u8];
    out.extend_from_slice(text.as_bytes());
    out
}

fn parameters() -> EncodedTeamParameters {
    EncodedTeamParameters {
        display_name: encoded("Codex Team"),
        options: 3,
        nametag_visibility: "hideForOwnTeam".to_string(),
        collision_rule: "pushOtherTeams".to_string(),
        color: 15,
        player_prefix: encoded("["),
        player_suffix: encoded("]"),
    }
}

fn team_packet(
    team_name: &str,
    method: TeamMethod,
    parameters: Option<EncodedTeamParameters>,
    players: Vec<String>,
    version: ProtocolVersion,
) -> Result<Vec<u8>, WritingError> {
    CSetPlayerTeam { team_name: team_name.to_string(), method, parameters, players }.write_packet_data(version)
}

#[test]
fn encodes_26_2_team_parameters_in_stream_codec_order() {
    let p = parameters();
    let actual = team_packet(
        "codex_team",
        TeamMethod::Create,
        Some(parameters()),
        vec!["Vaspyyy".to_string()],
        ProtocolVersion::V26_2,
    )
    .unwrap();

    let mut expected = Vec::new();
    write_string(&mut expected, "codex_team");
    write_i8(&mut expected, TeamMethod::Create.id());
    write_slice(&mut expected, &p.display_name);
    write_slice(&mut expected, &p.player_prefix);
    write_slice(&mut expected, &p.player_suffix);
    write_var_int(&mut expected, 3);
    write_var_int(&mut expected, 2);
    write_bool(&mut expected, true);
    write_var_int(&mut expected, 15);
    write_i8(&mut expected, 3);
    write_var_int(&mut expected, 1);
    write_string(&mut expected, "Vaspyyy");

    assert_eq!(actual, expected);
}

#[test]
fn encodes_26_1_enum_ids_without_26_2_reordering() {
    let p = parameters();
    let actual = team_packet(
        "codex_team",
        TeamMethod::Create,
        Some(parameters()),
        vec!["Vaspyyy".to_string()],
        ProtocolVersion::V26_1,
    )
    .unwrap();

    let mut expected = Vec::new();
    write_string(&mut expected, "codex_team");
    write_i8(&mut expected, TeamMethod::Create.id());
    write_slice(&mut expected, &p.display_name);
    write_i8(&mut expected, 3);
    write_var_int(&mut expected, 3);
    write_var_int(&mut expected, 2);
    write_var_int(&mut expected, 15);
    write_slice(&mut expected, &p.player_prefix);
    write_slice(&mut expected, &p.player_suffix);
    write_var_int(&mut expected, 1);
    write_string(&mut expected, "Vaspyyy");

    assert_eq!(actual, expected);
}

#[test]
fn older_versions_send_rule_names_and_updates_need_parameters() {
    let p = parameters();
    let actual = team_packet("t", TeamMethod::Update, Some(parameters()), Vec::new(), ProtocolVersion::Older).unwrap();
    let mut expected = Vec::new();
    write_string(&mut expected, "t");
    write_i8(&mut expected, 2);
    write_slice(&mut expected, &p.display_name);
    write_i8(&mut expected, 3);
    write_string(&mut expected, "hideForOwnTeam");
    write_string(&mut expected, "pushOtherTeams");
    write_var_int(&mut expected, 15);
    write_slice(&mut expected, &p.player_prefix);
    write_slice(&mut expected, &p.player_suffix);
    assert_eq!(actual, expected);
    assert_eq!(
        team_packet("t", TeamMethod::Create, None, Vec::new(), ProtocolVersion::V26_2),
        Err(WritingError::MissingTeamParameters)
    );
    let removed = team_packet("t", TeamMethod::Remove, None, Vec::new(), ProtocolVersion::V26_2).unwrap();
    assert_eq!(removed, vec![1, b't', 1]);
}

#[test]
fn var_ints_and_strings_have_their_wire_bytes() {
    let mut out = Vec::new();
    write_var_int(&mut out, 300);
    assert_eq!(out, vec![0xAC, 0x02]);
    let mut out = Vec::new();
    write_var_int(&mut out, -1);
    assert_eq!(out, vec![0xFF, 0xFF, 0xFF, 0xFF, 0x0F]);
    let mut out = Vec::new();
    write_string(&mut out, "é!");
    assert_eq!(out, vec![3, 0xC3, 0xA9, b'!']);
    let mut out = Vec::new();
    write_i32_be(&mut out, -2);
    assert_eq!(out, vec![0xFF, 0xFF, 0xFF, 0xFE]);
}

#[test]
fn objectives_packets_carry_display_only_when_adding_or_updating() {
    let name = encoded("Kills");
    let removed =
        CUpdateObjectives::new("kills".to_string(), Mode::Remove, name.clone(), RenderType::Hearts, None).write_packet_data();
    assert_eq!(removed, vec![5, b'k', b'i', b'l', b'l', b's', 1]);
    let added =
        CUpdateObjectives::new("k".to_string(), Mode::Add, name.clone(), RenderType::Hearts, Some(vec![0])).write_packet_data();
    let mut expected = vec![1, b'k', 0];
    expected.extend_from_slice(&name);
    expected.extend_from_slice(&[1, 1, 0]);
    assert_eq!(added, expected);
}

#[test]
fn advancement_packets_list_added_removed_and_progress() {
    let id = Identifier::parse("main:root").unwrap();
    let added = vec![ClientAdvancement {
        id: Identifier::parse("main:root").unwrap(),
        parent: None,
        display: Some(ClientAdvancementDisplay {
            title: vec![1],
            description: vec![2],
            icon: vec![3],
            frame: FrameType::Goal,
            background: None,
            show_toast: true,
            hidden: true,
            x_bits: 0x3F80_0000,
            y_bits: 0,
        }),
        requirements: vec![vec!["a".to_string()]],
        send_telemetry: false,
    }];
    let progress = vec![AdvancementProgress {
        id,
        criteria: vec![CriterionProgress { criterion: "a".to_string(), achieved_at: Some(5) }],
    }];
    let bytes = CUpdateAdvancements::new(true, added, progress, Vec::new(), false).write_packet_data();
    let mut expected = vec![1, 1];
    write_string(&mut expected, "main:root");
    expected.extend_from_slice(&[0, 1, 1, 2, 3, 2, 0, 0, 0, 6, 0x3F, 0x80, 0, 0, 0, 0, 0, 0]);
    expected.extend_from_slice(&[1, 1, 1, b'a', 0, 0, 1]);
    write_string(&mut expected, "main:root");
    expected.extend_from_slice(&[1, 1, b'a', 1, 0, 0, 0, 0, 0, 0, 0, 5, 0]);
    assert_eq!(bytes, expected);
}
