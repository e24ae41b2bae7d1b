//! Objective criteria, statistic criterion names and the scoreboard enums that
//! are persisted by name.
use vstd::prelude::*;

use crate::packets::RenderType;
use crate::text::{
    chars_of, find_char, is_ascii_digit, is_ascii_lowercase, is_ascii_uppercase, owned,
    split_once, starts_with, starts_with_at, str_eq, string_of, first_index, is_first_index,
    lemma_first_index, lemma_first_index_some,
};

verus! {

/// The sixteen named chat colours, in their protocol order.
#[derive(Clone, Copy, Debug, PartialEq, Eq, Structural)]
pub enum NamedColor {
    Black,
    DarkBlue,
    DarkGreen,
    DarkAqua,
    DarkRed,
    DarkPurple,
    Gold,
    Gray,
    DarkGray,
    Blue,
    Green,
    Aqua,
    Red,
    LightPurple,
    Yellow,
    White,
}

pub open spec fn color_id(color: NamedColor) -> int {
    match color {
        NamedColor::Black => 0,
        NamedColor::DarkBlue => 1,
        NamedColor::DarkGreen => 2,
        NamedColor::DarkAqua => 3,
        NamedColor::DarkRed => 4,
        NamedColor::DarkPurple => 5,
        NamedColor::Gold => 6,
        NamedColor::Gray => 7,
        NamedColor::DarkGray => 8,
        NamedColor::Blue => 9,
        NamedColor::Green => 10,
        NamedColor::Aqua => 11,
        NamedColor::Red => 12,
        NamedColor::LightPurple => 13,
        NamedColor::Yellow => 14,
        NamedColor::White => 15,
    }
}

impl NamedColor {
    /// The colour's protocol id.
    pub fn id(self) -> (r: i32)
        ensures
            r == color_id(self),
    {
        match self {
            NamedColor::Black => 0,
            NamedColor::DarkBlue => 1,
            NamedColor::DarkGreen => 2,
            NamedColor::DarkAqua => 3,
            NamedColor::DarkRed => 4,
            NamedColor::DarkPurple => 5,
            NamedColor::Gold => 6,
            NamedColor::Gray => 7,
            NamedColor::DarkGray => 8,
            NamedColor::Blue => 9,
            NamedColor::Green => 10,
            NamedColor::Aqua => 11,
            NamedColor::Red => 12,
            NamedColor::LightPurple => 13,
            NamedColor::Yellow => 14,
            NamedColor::White => 15,
        }
    }
}

/// The criteria that every scoreboard knows without a statistic.
pub open spec fn is_builtin_criterion(c: Seq<char>) -> bool {
    ||| c == "dummy"@
    ||| c == "trigger"@
    ||| c == "deathCount"@
    ||| c == "playerKillCount"@
    ||| c == "totalKillCount"@
    ||| c == "health"@
    ||| c == "food"@
    ||| c == "air"@
    ||| c == "armor"@
    ||| c == "xp"@
    ||| c == "level"@
}

/// The lower-case names of the team colours.
pub open spec fn is_team_color_name(c: Seq<char>) -> bool {
    ||| c == "black"@
    ||| c == "dark_blue"@
    ||| c == "dark_green"@
    ||| c == "dark_aqua"@
    ||| c == "dark_red"@
    ||| c == "dark_purple"@
    ||| c == "gold"@
    ||| c == "gray"@
    ||| c == "dark_gray"@
    ||| c == "blue"@
    ||| c == "green"@
    ||| c == "aqua"@
    ||| c == "red"@
    ||| c == "light_purple"@
    ||| c == "yellow"@
    ||| c == "white"@
}

/// The statistic types that may prefix a modern statistic criterion.
pub open spec fn is_stat_type(c: Seq<char>) -> bool {
    ||| c == "minecraft.mined"@
    ||| c == "minecraft.crafted"@
    ||| c == "minecraft.used"@
    ||| c == "minecraft.broken"@
    ||| c == "minecraft.picked_up"@
    ||| c == "minecraft.dropped"@
    ||| c == "minecraft.killed"@
    ||| c == "minecraft.killed_by"@
    ||| c == "minecraft.custom"@
}

/// `teamkill.<colour>` or `killedByTeam.<colour>`.
pub open spec fn is_team_kill_criterion(c: Seq<char>) -> bool {
    ||| (starts_with(c, "teamkill."@) && is_team_color_name(c.skip("teamkill."@.len() as int)))
    ||| (starts_with(c, "killedByTeam."@) && is_team_color_name(
        c.skip("killedByTeam."@.len() as int),
    ))
}

pub open spec fn is_namespace_char(c: char) -> bool {
    is_ascii_lowercase(c) || is_ascii_digit(c) || c == '_' || c == '-'
}

pub open spec fn is_encoded_path_char(c: char) -> bool {
    is_ascii_lowercase(c) || is_ascii_digit(c) || c == '_' || c == '-' || c == '/' || c == '.'
}

/// A resource location written with `.` in place of `:`, as statistic names
/// are: a non-empty namespace and a non-empty path.
pub open spec fn encoded_resource_location(s: Seq<char>) -> bool {
    match split_once(s, '.') {
        Some((namespace, path)) => {
            &&& namespace.len() > 0
            &&& path.len() > 0
            &&& forall|i: int| 0 <= i < namespace.len() ==> is_namespace_char(#[trigger] namespace[i])
            &&& forall|i: int| 0 <= i < path.len() ==> is_encoded_path_char(#[trigger] path[i])
        },
        None => false,
    }
}

/// A criterion an objective may be created with.
pub open spec fn valid_criterion(c: Seq<char>) -> bool {
    ||| is_builtin_criterion(c)
    ||| is_team_kill_criterion(c)
    ||| match split_once(c, ':') {
        Some((stat_type, stat)) => is_stat_type(stat_type) && encoded_resource_location(stat),
        None => false,
    }
}

fn is_builtin_criterion_exec(c: &str) -> (r: bool)
    ensures
        r == is_builtin_criterion(c@),
{
    str_eq(c, "dummy") || str_eq(c, "trigger") || str_eq(c, "deathCount") || str_eq(
        c,
        "playerKillCount",
    ) || str_eq(c, "totalKillCount") || str_eq(c, "health") || str_eq(c, "food") || str_eq(
        c,
        "air",
    ) || str_eq(c, "armor") || str_eq(c, "xp") || str_eq(c, "level")
}

fn is_team_color_name_exec(c: &str) -> (r: bool)
    ensures
        r == is_team_color_name(c@),
{
    str_eq(c, "black") || str_eq(c, "dark_blue") || str_eq(c, "dark_green") || str_eq(
        c,
        "dark_aqua",
    ) || str_eq(c, "dark_red") || str_eq(c, "dark_purple") || str_eq(c, "gold") || str_eq(
        c,
        "gray",
    ) || str_eq(c, "dark_gray") || str_eq(c, "blue") || str_eq(c, "green") || str_eq(c, "aqua")
        || str_eq(c, "red") || str_eq(c, "light_purple") || str_eq(c, "yellow") || str_eq(
        c,
        "white",
    )
}

fn is_stat_type_exec(c: &str) -> (r: bool)
    ensures
        r == is_stat_type(c@),
{
    str_eq(c, "minecraft.mined") || str_eq(c, "minecraft.crafted") || str_eq(c, "minecraft.used")
        || str_eq(c, "minecraft.broken") || str_eq(c, "minecraft.picked_up") || str_eq(
        c,
        "minecraft.dropped",
    ) || str_eq(c, "minecraft.killed") || str_eq(c, "minecraft.killed_by") || str_eq(
        c,
        "minecraft.custom",
    )
}

/// The name of a colour, as team slots and team criteria spell it.
pub open spec fn color_name(color: NamedColor) -> Seq<char> {
    match color {
        NamedColor::Black => "black"@,
        NamedColor::DarkBlue => "dark_blue"@,
        NamedColor::DarkGreen => "dark_green"@,
        NamedColor::DarkAqua => "dark_aqua"@,
        NamedColor::DarkRed => "dark_red"@,
        NamedColor::DarkPurple => "dark_purple"@,
        NamedColor::Gold => "gold"@,
        NamedColor::Gray => "gray"@,
        NamedColor::DarkGray => "dark_gray"@,
        NamedColor::Blue => "blue"@,
        NamedColor::Green => "green"@,
        NamedColor::Aqua => "aqua"@,
        NamedColor::Red => "red"@,
        NamedColor::LightPurple => "light_purple"@,
        NamedColor::Yellow => "yellow"@,
        NamedColor::White => "white"@,
    }
}

/// The colour with the given name, if any.
pub open spec fn color_from_name(name: Seq<char>) -> Option<NamedColor> {
    if name == "black"@ {
        Some(NamedColor::Black)
    } else if name == "dark_blue"@ {
        Some(NamedColor::DarkBlue)
    } else if name == "dark_green"@ {
        Some(NamedColor::DarkGreen)
    } else if name == "dark_aqua"@ {
        Some(NamedColor::DarkAqua)
    } else if name == "dark_red"@ {
        Some(NamedColor::DarkRed)
    } else if name == "dark_purple"@ {
        Some(NamedColor::DarkPurple)
    } else if name == "gold"@ {
        Some(NamedColor::Gold)
    } else if name == "gray"@ {
        Some(NamedColor::Gray)
    } else if name == "dark_gray"@ {
        Some(NamedColor::DarkGray)
    } else if name == "blue"@ {
        Some(NamedColor::Blue)
    } else if name == "green"@ {
        Some(NamedColor::Green)
    } else if name == "aqua"@ {
        Some(NamedColor::Aqua)
    } else if name == "red"@ {
        Some(NamedColor::Red)
    } else if name == "light_purple"@ {
        Some(NamedColor::LightPurple)
    } else if name == "yellow"@ {
        Some(NamedColor::Yellow)
    } else if name == "white"@ {
        Some(NamedColor::White)
    } else {
        None
    }
}

impl NamedColor {
    /// The colour's name; see [`color_name`].
    pub fn name(self) -> (r: &'static str)
        ensures
            r@ == color_name(self),
    {
        match self {
            NamedColor::Black => "black",
            NamedColor::DarkBlue => "dark_blue",
            NamedColor::DarkGreen => "dark_green",
            NamedColor::DarkAqua => "dark_aqua",
            NamedColor::DarkRed => "dark_red",
            NamedColor::DarkPurple => "dark_purple",
            NamedColor::Gold => "gold",
            NamedColor::Gray => "gray",
            NamedColor::DarkGray => "dark_gray",
            NamedColor::Blue => "blue",
            NamedColor::Green => "green",
            NamedColor::Aqua => "aqua",
            NamedColor::Red => "red",
            NamedColor::LightPurple => "light_purple",
            NamedColor::Yellow => "yellow",
            NamedColor::White => "white",
        }
    }

    /// The colour named `name`; see [`color_from_name`].
    pub fn from_name(name: &str) -> (r: Option<NamedColor>)
        ensures
            r == color_from_name(name@),
    {
        if str_eq(name, "black") {
            Some(NamedColor::Black)
        } else if str_eq(name, "dark_blue") {
            Some(NamedColor::DarkBlue)
        } else if str_eq(name, "dark_green") {
            Some(NamedColor::DarkGreen)
        } else if str_eq(name, "dark_aqua") {
            Some(NamedColor::DarkAqua)
        } else if str_eq(name, "dark_red") {
            Some(NamedColor::DarkRed)
        } else if str_eq(name, "dark_purple") {
            Some(NamedColor::DarkPurple)
        } else if str_eq(name, "gold") {
            Some(NamedColor::Gold)
        } else if str_eq(name, "gray") {
            Some(NamedColor::Gray)
        } else if str_eq(name, "dark_gray") {
            Some(NamedColor::DarkGray)
        } else if str_eq(name, "blue") {
            Some(NamedColor::Blue)
        } else if str_eq(name, "green") {
            Some(NamedColor::Green)
        } else if str_eq(name, "aqua") {
            Some(NamedColor::Aqua)
        } else if str_eq(name, "red") {
            Some(NamedColor::Red)
        } else if str_eq(name, "light_purple") {
            Some(NamedColor::LightPurple)
        } else if str_eq(name, "yellow") {
            Some(NamedColor::Yellow)
        } else if str_eq(name, "white") {
            Some(NamedColor::White)
        } else {
            None
        }
    }
}

/// Every colour is found again under its name, and a name that parses is
/// the name of the colour it parses to.
pub proof fn lemma_color_name_round_trip(color: NamedColor, name: Seq<char>)
    ensures
        color_from_name(color_name(color)) == Some(color),
        color_from_name(name) matches Some(c) ==> color_name(c) == name,
{
    reveal_strlit("black");
    reveal_strlit("dark_blue");
    reveal_strlit("dark_green");
    reveal_strlit("dark_aqua");
    reveal_strlit("dark_red");
    reveal_strlit("dark_purple");
    reveal_strlit("gold");
    reveal_strlit("gray");
    reveal_strlit("dark_gray");
    reveal_strlit("blue");
    reveal_strlit("green");
    reveal_strlit("aqua");
    reveal_strlit("red");
    reveal_strlit("light_purple");
    reveal_strlit("yellow");
    reveal_strlit("white");
    assert("black"@.len() == 5);
    assert("dark_blue"@.len() == 9);
    assert("dark_green"@.len() == 10);
    assert("dark_aqua"@.len() == 9);
    assert("dark_red"@.len() == 8);
    assert("dark_purple"@.len() == 11);
    assert("gold"@.len() == 4);
    assert("gray"@.len() == 4);
    assert("dark_gray"@.len() == 9);
    assert("blue"@.len() == 4);
    assert("green"@.len() == 5);
    assert("aqua"@.len() == 4);
    assert("red"@.len() == 3);
    assert("light_purple"@.len() == 12);
    assert("yellow"@.len() == 6);
    assert("white"@.len() == 5);
    assert("gold"@[1] != "gray"@[1]);
    assert("gold"@[0] != "blue"@[0]);
    assert("gold"@[0] != "aqua"@[0]);
    assert("gray"@[0] != "blue"@[0]);
    assert("gray"@[0] != "aqua"@[0]);
    assert("blue"@[0] != "aqua"@[0]);
    assert("black"@[0] != "green"@[0]);
    assert("black"@[0] != "white"@[0]);
    assert("green"@[0] != "white"@[0]);
    assert("dark_blue"@[5] != "dark_aqua"@[5]);
    assert("dark_blue"@[5] != "dark_gray"@[5]);
    assert("dark_aqua"@[5] != "dark_gray"@[5]);
}

/// Whether `v[from..]`, all of it, names a team colour.
fn team_color_suffix(v: &Vec<char>, from: usize) -> (r: bool)
    requires
        from <= v@.len(),
    ensures
        r == is_team_color_name(v@.skip(from as int)),
{
    let rest = string_of(v.as_slice(), from, v.len());
    assert(rest@ =~= v@.skip(from as int));
    is_team_color_name_exec(rest.as_str())
}

fn is_team_kill_criterion_exec(v: &Vec<char>) -> (r: bool)
    ensures
        r == is_team_kill_criterion(v@),
{
    proof {
        reveal_strlit("teamkill.");
        reveal_strlit("killedByTeam.");
    }
    assert(v@.skip(0) =~= v@);
    if starts_with_at(v.as_slice(), 0, "teamkill.") && team_color_suffix(v, 9) {
        return true;
    }
    starts_with_at(v.as_slice(), 0, "killedByTeam.") && team_color_suffix(v, 13)
}

/// Whether every character of `v[from..to]` satisfies the namespace or, when
/// `path` is set, the encoded-path alphabet.
fn all_chars_in(v: &[char], from: usize, to: usize, path: bool) -> (r: bool)
    requires
        from <= to <= v@.len(),
    ensures
        r == (forall|i: int|
            0 <= i < to - from ==> if path {
                is_encoded_path_char(#[trigger] v@.subrange(from as int, to as int)[i])
            } else {
                is_namespace_char(v@.subrange(from as int, to as int)[i])
            }),
{
    let mut i = from;
    while i < to
        invariant
            from <= i <= to <= v@.len(),
            forall|j: int|
                from <= j < i ==> if path {
                    is_encoded_path_char(#[trigger] v@[j])
                } else {
                    is_namespace_char(v@[j])
                },
        decreases to - i,
    {
        let c = v[i];
        let ok = ('a' <= c && c <= 'z') || ('0' <= c && c <= '9') || c == '_' || c == '-' || (path
            && (c == '/' || c == '.'));
        if !ok {
            assert(v@.subrange(from as int, to as int)[i - from] == c);
            return false;
        }
        i = i + 1;
    }
    assert forall|k: int| 0 <= k < to - from implies if path {
        is_encoded_path_char(#[trigger] v@.subrange(from as int, to as int)[k])
    } else {
        is_namespace_char(v@.subrange(from as int, to as int)[k])
    } by {
        assert(v@.subrange(from as int, to as int)[k] == v@[from + k]);
    }
    true
}

fn is_encoded_resource_location(value: &[char]) -> (r: bool)
    ensures
        r == encoded_resource_location(value@),
{
    match find_char(value, '.') {
        None => false,
        Some(dot) => {
            let n = value.len();
            assert(value@.take(dot as int) =~= value@.subrange(0, dot as int));
            assert(value@.skip(dot + 1) =~= value@.subrange(dot + 1, n as int));
            dot > 0 && dot + 1 < n && all_chars_in(value, 0, dot, false) && all_chars_in(
                value,
                dot + 1,
                n,
                true,
            )
        },
    }
}

/// Returns `true` if the criterion name is valid: a built-in criterion, a
/// team-kill criterion, or a modern statistic criterion
/// (`<stat type>:<namespace>.<path>`).
pub fn is_valid_criterion(criterion: &str) -> (r: bool)
    ensures
        r == valid_criterion(criterion@),
{
    if is_builtin_criterion_exec(criterion) {
        return true;
    }
    let v = chars_of(criterion);
    if is_team_kill_criterion_exec(&v) {
        return true;
    }
    let n = v.len();
    match find_char(v.as_slice(), ':') {
        None => false,
        Some(colon) => {
            let stat_type = string_of(v.as_slice(), 0, colon);
            let stat = string_of(v.as_slice(), colon + 1, n);
            let stat_chars = chars_of(stat.as_str());
            assert(stat_type@ =~= v@.take(colon as int));
            assert(stat@ =~= v@.skip(colon + 1));
            is_stat_type_exec(stat_type.as_str()) && is_encoded_resource_location(
                stat_chars.as_slice(),
            )
        },
    }
}

pub open spec fn to_ascii_lowercase(c: char) -> char {
    if is_ascii_uppercase(c) {
        ((c as u32) + 32) as char
    } else {
        c
    }
}

/// The snake-case piece that the character `c` at position `index` becomes.
pub open spec fn snake_piece(c: char, index: int) -> Seq<char> {
    if is_ascii_uppercase(c) {
        if index != 0 {
            seq!['_', to_ascii_lowercase(c)]
        } else {
            seq![to_ascii_lowercase(c)]
        }
    } else {
        seq![c]
    }
}

/// `PascalCase` to `snake_case`: each ASCII capital becomes `_` and its
/// lower-case letter, without the `_` at the very start.
pub open spec fn snake_case(s: Seq<char>) -> Seq<char>
    decreases s.len(),
{
    if s.len() == 0 {
        Seq::empty()
    } else {
        snake_case(s.drop_last()) + snake_piece(s.last(), s.len() - 1)
    }
}

fn pascal_case_to_snake_case(value: &str) -> (r: String)
    ensures
        r@ == snake_case(value@),
{
    let v = chars_of(value);
    let mut result = String::new();
    let mut index: usize = 0;
    while index < v.len()
        invariant
            index <= v@.len(),
            v@ == value@,
            result@ == snake_case(v@.take(index as int)),
        decreases v@.len() - index,
    {
        let character = v[index];
        proof {
            assert(v@.take(index + 1).drop_last() =~= v@.take(index as int));
        }
        if 'A' <= character && character <= 'Z' {
            if index != 0 {
                result.push('_');
            }
            let lower = ((character as u8) + 32) as char;
            result.push(lower);
        } else {
            result.push(character);
        }
        index = index + 1;
        assert(result@ =~= snake_case(v@.take(index as int)));
    }
    assert(v@.take(v@.len() as int) =~= v@);
    result
}

/// The statistic categories whose updates may feed an objective.
#[derive(Clone, Copy, Debug, PartialEq, Eq, Structural)]
pub enum StatisticCategory {
    Mined,
    Crafted,
    Used,
    Broken,
    PickedUp,
    Dropped,
    Killed,
    KilledBy,
    Custom,
}

/// Converts a statistic update to the criterion name stored by vanilla.
///
/// `custom_statistic` is the `PascalCase` name of the custom statistic with the
/// updated id, or `None` when no custom statistic has that id. Only custom
/// statistics map to a criterion here: item, block and entity statistics need
/// their registry identifiers.
pub fn statistic_criterion(category: StatisticCategory, custom_statistic: Option<&str>) -> (r:
    Option<String>)
    ensures
        r matches Some(s) ==> category == StatisticCategory::Custom && custom_statistic is Some
            && s@ == "minecraft.custom:minecraft."@ + snake_case(custom_statistic->0@),
        r is None <==> (category != StatisticCategory::Custom || custom_statistic is None),
{
    if category != StatisticCategory::Custom {
        return None;
    }
    match custom_statistic {
        None => None,
        Some(name) => {
            let mut s = owned("minecraft.custom:minecraft.");
            let snake = pascal_case_to_snake_case(name);
            s.append(snake.as_str());
            Some(s)
        },
    }
}

/// The default render type for a criterion: hearts for `health`, an integer
/// for every other criterion.
pub fn default_render_type_for_criterion(criterion: &str) -> (r: RenderType)
    ensures
        r == (if criterion@ == "health"@ {
            RenderType::Hearts
        } else {
            RenderType::Integer
        }),
{
    if str_eq(criterion, "health") {
        RenderType::Hearts
    } else {
        RenderType::Integer
    }
}

proof fn lemma_stat_type_has_no_colon(t: Seq<char>)
    requires
        is_stat_type(t),
    ensures
        forall|i: int| 0 <= i < t.len() ==> t[i] != ':',
{
    reveal_strlit("minecraft.mined");
    reveal_strlit("minecraft.crafted");
    reveal_strlit("minecraft.used");
    reveal_strlit("minecraft.broken");
    reveal_strlit("minecraft.picked_up");
    reveal_strlit("minecraft.dropped");
    reveal_strlit("minecraft.killed");
    reveal_strlit("minecraft.killed_by");
    reveal_strlit("minecraft.custom");
}

proof fn lemma_prefixed(c: Seq<char>, p: Seq<char>)
    ensures
        starts_with(c, p) && is_team_color_name(c.skip(p.len() as int)) <==> exists|color: NamedColor|
            c == p + #[trigger] color_name(color),
{
    if starts_with(c, p) && is_team_color_name(c.skip(p.len() as int)) {
        let rest = c.skip(p.len() as int);
        assert(c =~= p + rest);
        let color = if rest == "black"@ {
            NamedColor::Black
        } else if rest == "dark_blue"@ {
            NamedColor::DarkBlue
        } else if rest == "dark_green"@ {
            NamedColor::DarkGreen
        } else if rest == "dark_aqua"@ {
            NamedColor::DarkAqua
        } else if rest == "dark_red"@ {
            NamedColor::DarkRed
        } else if rest == "dark_purple"@ {
            NamedColor::DarkPurple
        } else if rest == "gold"@ {
            NamedColor::Gold
        } else if rest == "gray"@ {
            NamedColor::Gray
        } else if rest == "dark_gray"@ {
            NamedColor::DarkGray
        } else if rest == "blue"@ {
            NamedColor::Blue
        } else if rest == "green"@ {
            NamedColor::Green
        } else if rest == "aqua"@ {
            NamedColor::Aqua
        } else if rest == "red"@ {
            NamedColor::Red
        } else if rest == "light_purple"@ {
            NamedColor::LightPurple
        } else if rest == "yellow"@ {
            NamedColor::Yellow
        } else {
            NamedColor::White
        };
        assert(c == p + color_name(color));
    }
    if exists|color: NamedColor| c == p + #[trigger] color_name(color) {
        let color = choose|color: NamedColor| c == p + #[trigger] color_name(color);
        assert(c.take(p.len() as int) =~= p);
        assert(c.skip(p.len() as int) =~= color_name(color));
    }
}

/// Each of the eleven built-in criteria is accepted by its name.
pub proof fn lemma_builtin_names_accepted()
    ensures
        valid_criterion("dummy"@),
        valid_criterion("trigger"@),
        valid_criterion("deathCount"@),
        valid_criterion("playerKillCount"@),
        valid_criterion("totalKillCount"@),
        valid_criterion("health"@),
        valid_criterion("food"@),
        valid_criterion("air"@),
        valid_criterion("armor"@),
        valid_criterion("xp"@),
        valid_criterion("level"@),
{
}

/// The criteria an objective may be created with, all of them: the
/// built-in ones; `teamkill.` or `killedByTeam.` followed by a team colour;
/// and a statistic type, a colon and a statistic name written as a
/// resource location with `.` for `:`.
pub proof fn lemma_accepted_criteria(c: Seq<char>)
    ensures
        valid_criterion(c) <==> {
            ||| is_builtin_criterion(c)
            ||| exists|color: NamedColor| c == "teamkill."@ + #[trigger] color_name(color)
            ||| exists|color: NamedColor| c == "killedByTeam."@ + #[trigger] color_name(color)
            ||| exists|t: Seq<char>, stat: Seq<char>|
                is_stat_type(t) && encoded_resource_location(stat) && c == #[trigger] (t + seq![':'] + stat)
        },
{
    lemma_prefixed(c, "teamkill."@);
    lemma_prefixed(c, "killedByTeam."@);
    lemma_first_index_some(c, ':');
    match split_once(c, ':') {
        Some((t, stat)) => {
            assert(c =~= t + seq![':'] + stat);
        },
        None => {},
    }
    if exists|t: Seq<char>, stat: Seq<char>|
        is_stat_type(t) && encoded_resource_location(stat) && c == #[trigger] (t + seq![':'] + stat) {
        let (t, stat) = choose|t: Seq<char>, stat: Seq<char>|
            is_stat_type(t) && encoded_resource_location(stat) && c == #[trigger] (t + seq![':'] + stat);
        lemma_stat_type_has_no_colon(t);
        assert(is_first_index(c, ':', t.len() as int)) by {
            assert(c[t.len() as int] == ':');
            assert forall|j: int| 0 <= j < t.len() implies c[j] != ':' by {
                assert(c[j] == t[j]);
            }
        }
        lemma_first_index(c, ':', t.len() as int);
        assert(c.take(t.len() as int) =~= t);
        assert(c.skip(t.len() as int + 1) =~= stat);
    }
}

} // verus!
