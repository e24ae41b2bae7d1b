//! The scoreboard's display slots and the names they are persisted under.
use vstd::prelude::*;

use crate::criteria::{color_from_name, color_name, lemma_color_name_round_trip, NamedColor};
use crate::text::{chars_of, owned, push_str, starts_with, starts_with_at, str_eq, string_of};

verus! {

/// A place on the client's screen where an objective can be shown.
#[derive(Clone, Copy, Debug, PartialEq, Eq, Hash, Structural)]
pub enum DisplaySlot {
    List,
    Sidebar,
    BelowName,
    TeamBlack,
    TeamDarkBlue,
    TeamDarkGreen,
    TeamDarkAqua,
    TeamDarkRed,
    TeamDarkPurple,
    TeamGold,
    TeamGray,
    TeamDarkGray,
    TeamBlue,
    TeamGreen,
    TeamAqua,
    TeamRed,
    TeamLightPurple,
    TeamYellow,
    TeamWhite,
}

/// The colour of a team sidebar slot; `None` for the other slots.
pub open spec fn slot_color(slot: DisplaySlot) -> Option<NamedColor> {
    match slot {
        DisplaySlot::List | DisplaySlot::Sidebar | DisplaySlot::BelowName => None,
        DisplaySlot::TeamBlack => Some(NamedColor::Black),
        DisplaySlot::TeamDarkBlue => Some(NamedColor::DarkBlue),
        DisplaySlot::TeamDarkGreen => Some(NamedColor::DarkGreen),
        DisplaySlot::TeamDarkAqua => Some(NamedColor::DarkAqua),
        DisplaySlot::TeamDarkRed => Some(NamedColor::DarkRed),
        DisplaySlot::TeamDarkPurple => Some(NamedColor::DarkPurple),
        DisplaySlot::TeamGold => Some(NamedColor::Gold),
        DisplaySlot::TeamGray => Some(NamedColor::Gray),
        DisplaySlot::TeamDarkGray => Some(NamedColor::DarkGray),
        DisplaySlot::TeamBlue => Some(NamedColor::Blue),
        DisplaySlot::TeamGreen => Some(NamedColor::Green),
        DisplaySlot::TeamAqua => Some(NamedColor::Aqua),
        DisplaySlot::TeamRed => Some(NamedColor::Red),
        DisplaySlot::TeamLightPurple => Some(NamedColor::LightPurple),
        DisplaySlot::TeamYellow => Some(NamedColor::Yellow),
        DisplaySlot::TeamWhite => Some(NamedColor::White),
    }
}

/// The sidebar slot shown to the members of teams of `color`.
pub open spec fn team_slot(color: NamedColor) -> DisplaySlot {
    match color {
        NamedColor::Black => DisplaySlot::TeamBlack,
        NamedColor::DarkBlue => DisplaySlot::TeamDarkBlue,
        NamedColor::DarkGreen => DisplaySlot::TeamDarkGreen,
        NamedColor::DarkAqua => DisplaySlot::TeamDarkAqua,
        NamedColor::DarkRed => DisplaySlot::TeamDarkRed,
        NamedColor::DarkPurple => DisplaySlot::TeamDarkPurple,
        NamedColor::Gold => DisplaySlot::TeamGold,
        NamedColor::Gray => DisplaySlot::TeamGray,
        NamedColor::DarkGray => DisplaySlot::TeamDarkGray,
        NamedColor::Blue => DisplaySlot::TeamBlue,
        NamedColor::Green => DisplaySlot::TeamGreen,
        NamedColor::Aqua => DisplaySlot::TeamAqua,
        NamedColor::Red => DisplaySlot::TeamRed,
        NamedColor::LightPurple => DisplaySlot::TeamLightPurple,
        NamedColor::Yellow => DisplaySlot::TeamYellow,
        NamedColor::White => DisplaySlot::TeamWhite,
    }
}

/// What the names of team sidebar slots begin with.
pub open spec fn team_slot_prefix() -> Seq<char> {
    "sidebar.team."@
}

/// The name of a display slot, its key in `scoreboard.dat`: `list`,
/// `sidebar`, `below_name`, or `sidebar.team.` and a colour name.
pub open spec fn slot_name(slot: DisplaySlot) -> Seq<char> {
    match slot_color(slot) {
        Some(color) => team_slot_prefix() + color_name(color),
        None => match slot {
            DisplaySlot::List => "list"@,
            DisplaySlot::Sidebar => "sidebar"@,
            _ => "below_name"@,
        },
    }
}

/// The display slot with the given name, if any.
pub open spec fn slot_from_name(name: Seq<char>) -> Option<DisplaySlot> {
    if name == "list"@ {
        Some(DisplaySlot::List)
    } else if name == "sidebar"@ {
        Some(DisplaySlot::Sidebar)
    } else if name == "below_name"@ {
        Some(DisplaySlot::BelowName)
    } else if starts_with(name, team_slot_prefix()) {
        match color_from_name(name.skip(team_slot_prefix().len() as int)) {
            Some(color) => Some(team_slot(color)),
            None => None,
        }
    } else {
        None
    }
}

fn color_of_slot(slot: DisplaySlot) -> (r: Option<NamedColor>)
    ensures
        r == slot_color(slot),
{
    match slot {
        DisplaySlot::List | DisplaySlot::Sidebar | DisplaySlot::BelowName => None,
        DisplaySlot::TeamBlack => Some(NamedColor::Black),
        DisplaySlot::TeamDarkBlue => Some(NamedColor::DarkBlue),
        DisplaySlot::TeamDarkGreen => Some(NamedColor::DarkGreen),
        DisplaySlot::TeamDarkAqua => Some(NamedColor::DarkAqua),
        DisplaySlot::TeamDarkRed => Some(NamedColor::DarkRed),
        DisplaySlot::TeamDarkPurple => Some(NamedColor::DarkPurple),
        DisplaySlot::TeamGold => Some(NamedColor::Gold),
        DisplaySlot::TeamGray => Some(NamedColor::Gray),
        DisplaySlot::TeamDarkGray => Some(NamedColor::DarkGray),
        DisplaySlot::TeamBlue => Some(NamedColor::Blue),
        DisplaySlot::TeamGreen => Some(NamedColor::Green),
        DisplaySlot::TeamAqua => Some(NamedColor::Aqua),
        DisplaySlot::TeamRed => Some(NamedColor::Red),
        DisplaySlot::TeamLightPurple => Some(NamedColor::LightPurple),
        DisplaySlot::TeamYellow => Some(NamedColor::Yellow),
        DisplaySlot::TeamWhite => Some(NamedColor::White),
    }
}

fn slot_of_color(color: NamedColor) -> (r: DisplaySlot)
    ensures
        r == team_slot(color),
{
    match color {
        NamedColor::Black => DisplaySlot::TeamBlack,
        NamedColor::DarkBlue => DisplaySlot::TeamDarkBlue,
        NamedColor::DarkGreen => DisplaySlot::TeamDarkGreen,
        NamedColor::DarkAqua => DisplaySlot::TeamDarkAqua,
        NamedColor::DarkRed => DisplaySlot::TeamDarkRed,
        NamedColor::DarkPurple => DisplaySlot::TeamDarkPurple,
        NamedColor::Gold => DisplaySlot::TeamGold,
        NamedColor::Gray => DisplaySlot::TeamGray,
        NamedColor::DarkGray => DisplaySlot::TeamDarkGray,
        NamedColor::Blue => DisplaySlot::TeamBlue,
        NamedColor::Green => DisplaySlot::TeamGreen,
        NamedColor::Aqua => DisplaySlot::TeamAqua,
        NamedColor::Red => DisplaySlot::TeamRed,
        NamedColor::LightPurple => DisplaySlot::TeamLightPurple,
        NamedColor::Yellow => DisplaySlot::TeamYellow,
        NamedColor::White => DisplaySlot::TeamWhite,
    }
}

/// The name of a display slot; see [`slot_name`].
pub fn display_slot_name(slot: DisplaySlot) -> (r: String)
    ensures
        r@ == slot_name(slot),
{
    match color_of_slot(slot) {
        Some(color) => {
            let mut name = owned("sidebar.team.");
            push_str(&mut name, color.name());
            name
        },
        None => match slot {
            DisplaySlot::List => owned("list"),
            DisplaySlot::Sidebar => owned("sidebar"),
            _ => owned("below_name"),
        },
    }
}

/// The display slot named `name`, if any; see [`slot_from_name`].
pub fn display_slot_from_name(name: &str) -> (r: Option<DisplaySlot>)
    ensures
        r == slot_from_name(name@),
{
    if str_eq(name, "list") {
        return Some(DisplaySlot::List);
    }
    if str_eq(name, "sidebar") {
        return Some(DisplaySlot::Sidebar);
    }
    if str_eq(name, "below_name") {
        return Some(DisplaySlot::BelowName);
    }
    let v = chars_of(name);
    proof {
        reveal_strlit("sidebar.team.");
        assert(v@.skip(0) =~= v@);
    }
    if !starts_with_at(v.as_slice(), 0, "sidebar.team.") {
        return None;
    }
    let rest = string_of(v.as_slice(), 13, v.len());
    proof {
        assert(rest@ =~= name@.skip(13));
    }
    match NamedColor::from_name(rest.as_str()) {
        Some(color) => Some(slot_of_color(color)),
        None => None,
    }
}

/// Every display slot is found again under its own name, and a name that
/// parses is the name of the slot it parses to.
pub proof fn lemma_display_slot_name_round_trip(slot: DisplaySlot, name: Seq<char>)
    ensures
        slot_from_name(slot_name(slot)) == Some(slot),
        slot_from_name(name) matches Some(s) ==> slot_name(s) == name,
{
    reveal_strlit("list");
    reveal_strlit("sidebar");
    reveal_strlit("below_name");
    reveal_strlit("sidebar.team.");
    let prefix = team_slot_prefix();
    assert(prefix.len() == 13);
    assert("list"@.len() == 4 && "sidebar"@.len() == 7 && "below_name"@.len() == 10);
    assert("list"@ != "sidebar"@);
    assert("list"@[0] != "below_name"@[0]);
    assert("sidebar"@ != "below_name"@);
    match slot_color(slot) {
        Some(color) => {
            let n = prefix + color_name(color);
            lemma_color_name_round_trip(color, color_name(color));
            assert(n.take(13) =~= prefix);
            assert(n.skip(13) =~= color_name(color));
        },
        None => {},
    }
    if slot_from_name(name) is Some && name != "list"@ && name != "sidebar"@ && name != "below_name"@ {
        let rest = name.skip(13);
        lemma_color_name_round_trip(NamedColor::Black, rest);
        assert(name =~= name.take(13) + rest);
    }
}

} // verus!
