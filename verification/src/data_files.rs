//! The small data files of a world kept under `data/minecraft`, and where
//! they live.
use vstd::prelude::*;

use crate::nbt::{
    entry_index, entry_views, lemma_entry_index, lemma_entry_views, put_entry, NbtCompound, NbtTag, NbtView,
};
use crate::text::{chars_of, owned, push_str, string_eq};

verus! {

/// A saved file's contents, under the key `data`.
#[derive(Debug, PartialEq, Eq)]
pub struct DataFileRoot<T> {
    pub data: T,
}

/// The weather of a world.
#[derive(Debug, Clone, Copy, PartialEq, Eq, Structural)]
pub struct WeatherData {
    pub rain_time: i32,
    pub raining: bool,
    pub thundering: bool,
    pub thunder_time: i32,
    pub clear_weather_time: i32,
    pub data_version: i32,
}

impl Default for WeatherData {
    /// Clear weather with no timers running; the clear-weather timer is `-1`.
    fn default() -> (r: WeatherData)
        ensures
            r == (WeatherData {
                rain_time: 0,
                raining: false,
                thundering: false,
                thunder_time: 0,
                clear_weather_time: -1i32,
                data_version: 0,
            }),
    {
        WeatherData {
            rain_time: 0,
            raining: false,
            thundering: false,
            thunder_time: 0,
            clear_weather_time: -1,
            data_version: 0,
        }
    }
}

/// The world generation settings as saved, with the settings themselves
/// of type `S`.
#[derive(Debug, PartialEq, Eq)]
pub struct WorldGenSettingsData<S> {
    pub settings: S,
    pub data_version: i32,
    pub bonus_chest: bool,
    pub generate_structures: bool,
}

impl<S> WorldGenSettingsData<S> {
    /// Saved settings without a bonus chest and with structures.
    pub fn new(settings: S, data_version: i32) -> (r: WorldGenSettingsData<S>)
        ensures
            r.settings == settings,
            r.data_version == data_version,
            !r.bonus_chest,
            r.generate_structures,
    {
        WorldGenSettingsData { settings, data_version, bonus_chest: false, generate_structures: true }
    }
}

/// The clock of one dimension.
#[derive(Debug, Clone, Copy, PartialEq, Eq, Structural)]
pub struct DimensionClock {
    pub total_ticks: i64,
}

/// The clocks of all dimensions, by dimension name.
#[derive(Debug, PartialEq, Eq)]
pub struct WorldClocksData {
    pub clocks: Vec<(String, DimensionClock)>,
    pub data_version: i32,
}

impl Default for WorldClocksData {
    /// No clocks.
    fn default() -> (r: WorldClocksData)
        ensures
            r.clocks@.len() == 0,
            r.data_version == 0,
    {
        WorldClocksData { clocks: Vec::new(), data_version: 0 }
    }
}

/// The wandering trader's spawn timer.
#[derive(Debug, Clone, Copy, PartialEq, Eq, Structural)]
pub struct WanderingTraderData {
    pub spawn_delay: i32,
    pub spawn_chance: i32,
    pub data_version: i32,
}

impl Default for WanderingTraderData {
    /// A spawn delay of 24000 ticks and a spawn chance of 25.
    fn default() -> (r: WanderingTraderData)
        ensures
            r == (WanderingTraderData { spawn_delay: 24000, spawn_chance: 25, data_version: 0 }),
    {
        WanderingTraderData { spawn_delay: 24000, spawn_chance: 25, data_version: 0 }
    }
}

/// `base` joined with the relative path `tail`, `/` between them unless
/// `base` is empty or already ends with one.
pub open spec fn join_path(base: Seq<char>, tail: Seq<char>) -> Seq<char> {
    if base.len() == 0 {
        tail
    } else if base.last() == '/' {
        base + tail
    } else {
        base + seq!['/'] + tail
    }
}

/// Joins the relative path `tail` to `base`; see [`join_path`].
pub fn join(base: &str, tail: &str) -> (r: String)
    ensures
        r@ == join_path(base@, tail@),
{
    let v = chars_of(base);
    let mut r = owned(base);
    if v.len() > 0 && v[v.len() - 1] != '/' {
        r.push('/');
    }
    push_str(&mut r, tail);
    proof {
        if v@.len() == 0 {
            assert(r@ =~= tail@);
        }
    }
    r
}

/// The directory of a world's data files: `data/minecraft` in the world
/// folder.
pub fn minecraft_data_dir(level_folder: &str) -> (r: String)
    ensures
        r@ == join_path(join_path(level_folder@, "data"@), "minecraft"@),
{
    let data = join(level_folder, "data");
    join(data.as_str(), "minecraft")
}

// ---------------------------------------------------------------------------
// World clocks and game rules as NBT

/// The clocks in a `data` compound: every compound entry other than
/// `DataVersion`, with its `total_ticks` (zero when absent), in order.
pub open spec fn clocks_of(entries: Seq<(Seq<char>, NbtView)>) -> Seq<(Seq<char>, i64)>
    decreases entries.len(),
{
    if entries.len() == 0 {
        Seq::empty()
    } else {
        let rest = clocks_of(entries.drop_first());
        let (key, tag) = entries[0];
        if key == "DataVersion"@ {
            rest
        } else {
            match tag {
                NbtView::Compound(dim) => seq![(key, long_of(dim, "total_ticks"@))] + rest,
                _ => rest,
            }
        }
    }
}

/// The long value named `key`, or zero.
pub open spec fn long_of(entries: Seq<(Seq<char>, NbtView)>, key: Seq<char>) -> i64 {
    match entry_index(entries, key) {
        Some(i) => match entries[i].1 {
            NbtView::Long(v) => v,
            _ => 0,
        },
        None => 0,
    }
}

/// The int value named `key`, or zero.
pub open spec fn int_of(entries: Seq<(Seq<char>, NbtView)>, key: Seq<char>) -> i32 {
    match entry_index(entries, key) {
        Some(i) => match entries[i].1 {
            NbtView::Int(v) => v,
            _ => 0,
        },
        None => 0,
    }
}

/// The `data` compound of a file's root, if it has one.
pub open spec fn data_of(root: Seq<(Seq<char>, NbtView)>) -> Option<Seq<(Seq<char>, NbtView)>> {
    match entry_index(root, "data"@) {
        Some(i) => match root[i].1 {
            NbtView::Compound(inner) => Some(inner),
            _ => None,
        },
        None => None,
    }
}

pub open spec fn clocks_view(c: Seq<(String, DimensionClock)>) -> Seq<(Seq<char>, i64)> {
    c.map_values(|e: (String, DimensionClock)| (e.0@, e.1.total_ticks))
}

fn get_long(c: &NbtCompound, key: &String) -> (r: i64)
    ensures
        r == long_of(c@, key@),
{
    proof {
        lemma_entry_views(c.child_tags@);
        lemma_entry_index(c@, key@);
    }
    match c.get(key) {
        Some(NbtTag::Long(v)) => *v,
        _ => 0,
    }
}

fn get_int(c: &NbtCompound, key: &String) -> (r: i32)
    ensures
        r == int_of(c@, key@),
{
    match c.get(key) {
        Some(NbtTag::Int(v)) => *v,
        _ => 0,
    }
}

/// Reads the world clocks from the root of `world_clocks.dat`; without a
/// `data` compound there are none.
pub fn world_clocks_from_nbt(root: &NbtCompound) -> (r: WorldClocksData)
    ensures
        match data_of(root@) {
            Some(inner) => r.data_version == int_of(inner, "DataVersion"@) && clocks_view(r.clocks@) == clocks_of(
                inner,
            ),
            None => r.data_version == 0 && r.clocks@.len() == 0,
        },
{
    proof {
        lemma_entry_views(root.child_tags@);
        lemma_entry_index(root@, "data"@);
    }
    let inner = match root.get(&owned("data")) {
        Some(NbtTag::Compound(inner)) => inner,
        _ => {
            return WorldClocksData { clocks: Vec::new(), data_version: 0 };
        },
    };
    let data_version = get_int(inner, &owned("DataVersion"));
    let ghost entries = inner@;
    proof {
        lemma_entry_views(inner.child_tags@);
    }
    let mut clocks: Vec<(String, DimensionClock)> = Vec::new();
    let mut i: usize = 0;
    assert(entries.skip(0) =~= entries);
    while i < inner.child_tags.len()
        invariant
            i <= inner.child_tags@.len(),
            entries == inner@,
            entries.len() == inner.child_tags@.len(),
            forall|j: int|
                0 <= j < inner.child_tags@.len() ==> #[trigger] entries[j] == (
                    inner.child_tags@[j].0@,
                    crate::nbt::nbt_view(inner.child_tags@[j].1),
                ),
            clocks_of(entries) == clocks_view(clocks@) + clocks_of(entries.skip(i as int)),
        decreases inner.child_tags@.len() - i,
    {
        let ghost rest = entries.skip(i as int);
        proof {
            assert(rest[0] == entries[i as int]);
            assert(rest.drop_first() =~= entries.skip(i + 1));
        }
        let (key, tag) = &inner.child_tags[i];
        if !crate::text::str_eq(key.as_str(), "DataVersion") {
            if let NbtTag::Compound(dim) = tag {
                let total_ticks = get_long(dim, &owned("total_ticks"));
                let ghost before = clocks_view(clocks@);
                clocks.push((key.clone(), DimensionClock { total_ticks }));
                proof {
                    assert(clocks_view(clocks@) =~= before.push((key@, total_ticks)));
                    assert(clocks_view(clocks@) + clocks_of(entries.skip(i + 1)) =~= before + (seq![
                        (key@, total_ticks),
                    ] + clocks_of(entries.skip(i + 1))));
                }
            }
        }
        i = i + 1;
    }
    proof {
        assert(entries.skip(entries.len() as int) =~= Seq::<(Seq<char>, NbtView)>::empty());
        assert(clocks_view(clocks@) + Seq::<(Seq<char>, i64)>::empty() =~= clocks_view(clocks@));
    }
    WorldClocksData { clocks, data_version }
}

/// The compound saved for one dimension's clock.
pub open spec fn clock_entry(ticks: i64) -> NbtView {
    NbtView::Compound(seq![("total_ticks"@, NbtView::Long(ticks))])
}

/// The clocks put one after the other into an empty compound.
pub open spec fn clock_entries(c: Seq<(Seq<char>, i64)>) -> Seq<(Seq<char>, NbtView)>
    decreases c.len(),
{
    if c.len() == 0 {
        Seq::empty()
    } else {
        put_entry(clock_entries(c.drop_last()), c.last().0, clock_entry(c.last().1))
    }
}

/// The root of `world_clocks.dat`: a `data` compound with the clocks and
/// `DataVersion`.
pub open spec fn clocks_root(c: Seq<(Seq<char>, i64)>, data_version: i32) -> Seq<(Seq<char>, NbtView)> {
    seq![("data"@, NbtView::Compound(put_entry(clock_entries(c), "DataVersion"@, NbtView::Int(data_version))))]
}

fn named_compound(key: &str, value: NbtTag) -> (r: NbtCompound)
    ensures
        r@ == seq![(key@, value@)],
{
    let mut c = NbtCompound::new();
    c.put(owned(key), value);
    proof {
        assert(entry_index(Seq::<(Seq<char>, NbtView)>::empty(), key@) is None);
    }
    c
}

/// The root compound that `world_clocks.dat` holds for `clocks`.
pub fn world_clocks_to_nbt(clocks: &WorldClocksData) -> (r: NbtCompound)
    ensures
        r@ == clocks_root(clocks_view(clocks.clocks@), clocks.data_version),
{
    let ghost cv = clocks_view(clocks.clocks@);
    let mut inner = NbtCompound::new();
    let mut i: usize = 0;
    while i < clocks.clocks.len()
        invariant
            i <= clocks.clocks@.len(),
            cv == clocks_view(clocks.clocks@),
            inner@ == clock_entries(cv.take(i as int)),
        decreases clocks.clocks@.len() - i,
    {
        let (name, clock) = &clocks.clocks[i];
        let dim = named_compound("total_ticks", NbtTag::Long(clock.total_ticks));
        inner.put(name.clone(), NbtTag::Compound(dim));
        proof {
            assert(cv.take(i + 1).drop_last() =~= cv.take(i as int));
            assert(cv.take(i + 1).last() == (name@, clock.total_ticks));
        }
        i = i + 1;
    }
    assert(cv.take(cv.len() as int) =~= cv);
    inner.put(owned("DataVersion"), NbtTag::Int(clocks.data_version));
    named_compound("data", NbtTag::Compound(inner))
}

pub open spec fn names_unique(c: Seq<(Seq<char>, i64)>) -> bool {
    forall|i: int, j: int| 0 <= i < j < c.len() ==> c[i].0 != c[j].0
}

proof fn lemma_clock_entries(c: Seq<(Seq<char>, i64)>)
    requires
        names_unique(c),
    ensures
        clock_entries(c) == c.map_values(|e: (Seq<char>, i64)| (e.0, clock_entry(e.1))),
    decreases c.len(),
{
    if c.len() > 0 {
        let rest = c.drop_last();
        assert forall|i: int, j: int| 0 <= i < j < rest.len() implies rest[i].0 != rest[j].0 by {
            assert(rest[i] == c[i] && rest[j] == c[j]);
        }
        lemma_clock_entries(rest);
        let prev = clock_entries(rest);
        lemma_entry_index(prev, c.last().0);
        if entry_index(prev, c.last().0) is Some {
            let k = entry_index(prev, c.last().0)->0;
            assert(prev[k].0 == rest[k].0);
            assert(rest[k] == c[k]);
            assert(false);
        }
        assert(clock_entries(c) =~= c.map_values(|e: (Seq<char>, i64)| (e.0, clock_entry(e.1))));
    }
}

proof fn lemma_clocks_of_concat(a: Seq<(Seq<char>, NbtView)>, b: Seq<(Seq<char>, NbtView)>)
    ensures
        clocks_of(a + b) == clocks_of(a) + clocks_of(b),
    decreases a.len(),
{
    if a.len() == 0 {
        assert(a + b =~= b);
    } else {
        assert((a + b).drop_first() =~= a.drop_first() + b);
        lemma_clocks_of_concat(a.drop_first(), b);
        assert((a + b)[0] == a[0]);
    }
}

proof fn lemma_clocks_of_entries(c: Seq<(Seq<char>, i64)>)
    requires
        forall|i: int| 0 <= i < c.len() ==> #[trigger] c[i].0 != "DataVersion"@,
    ensures
        clocks_of(c.map_values(|e: (Seq<char>, i64)| (e.0, clock_entry(e.1)))) == c,
    decreases c.len(),
{
    if c.len() > 0 {
        let m = c.map_values(|e: (Seq<char>, i64)| (e.0, clock_entry(e.1)));
        let rest = c.drop_first();
        assert(m.drop_first() =~= rest.map_values(|e: (Seq<char>, i64)| (e.0, clock_entry(e.1))));
        assert forall|i: int| 0 <= i < rest.len() implies #[trigger] rest[i].0 != "DataVersion"@ by {
            assert(rest[i] == c[i + 1]);
        }
        lemma_clocks_of_entries(rest);
        assert(c[0].0 != "DataVersion"@);
        let dim = seq![("total_ticks"@, NbtView::Long(c[0].1))];
        assert(entry_index(dim, "total_ticks"@) == Some(0int)) by {
            assert(dim.last().0 == "total_ticks"@);
        }
        assert(long_of(dim, "total_ticks"@) == c[0].1);
        assert(clocks_of(m) =~= seq![(c[0].0, c[0].1)] + rest);
        assert(seq![(c[0].0, c[0].1)] + rest =~= c);
    }
}

/// Saving world clocks and reading them back gives the same clocks and data
/// version, when no two clocks share a name and none is named
/// `DataVersion`.
pub proof fn lemma_world_clocks_round_trip(c: Seq<(Seq<char>, i64)>, data_version: i32)
    requires
        names_unique(c),
        forall|i: int| 0 <= i < c.len() ==> #[trigger] c[i].0 != "DataVersion"@,
    ensures
        data_of(clocks_root(c, data_version)) matches Some(inner) && int_of(inner, "DataVersion"@) == data_version
            && clocks_of(inner) == c,
{
    let root = clocks_root(c, data_version);
    assert(entry_index(root, "data"@) == Some(0int)) by {
        assert(root.last().0 == "data"@);
    }
    lemma_clock_entries(c);
    let entries = clock_entries(c);
    lemma_entry_index(entries, "DataVersion"@);
    if entry_index(entries, "DataVersion"@) is Some {
        let k = entry_index(entries, "DataVersion"@)->0;
        assert(entries[k].0 == c[k].0);
        assert(false);
    }
    let dv = seq![("DataVersion"@, NbtView::Int(data_version))];
    let inner = entries.push(("DataVersion"@, NbtView::Int(data_version)));
    assert(data_of(root) == Some(inner));
    assert(entry_index(inner, "DataVersion"@) == Some(entries.len() as int)) by {
        assert(inner.last().0 == "DataVersion"@);
    }
    assert(inner =~= entries + dv);
    lemma_clocks_of_concat(entries, dv);
    lemma_clocks_of_entries(c);
    assert(clocks_of(dv) =~= Seq::<(Seq<char>, i64)>::empty()) by {
        assert(dv.drop_first() =~= Seq::<(Seq<char>, NbtView)>::empty());
        assert(clocks_of(dv.drop_first()) =~= Seq::<(Seq<char>, i64)>::empty());
        assert(dv[0].0 == "DataVersion"@);
    }
    assert(clocks_of(inner) =~= c);
}

/// The value of a game rule.
#[derive(Clone, Copy, Debug, PartialEq, Eq, Structural)]
pub enum GameRuleValue {
    Bool(bool),
    Int(i64),
}

/// The game rules, by name, in the order of the registry of rules.
#[derive(Debug, PartialEq, Eq)]
pub struct GameRules {
    pub rules: Vec<(String, GameRuleValue)>,
}

pub open spec fn rules_view(r: Seq<(String, GameRuleValue)>) -> Seq<(Seq<char>, GameRuleValue)> {
    r.map_values(|e: (String, GameRuleValue)| (e.0@, e.1))
}

/// The key a rule is saved under.
pub open spec fn rule_key(name: Seq<char>) -> Seq<char> {
    "minecraft:"@ + name
}

/// How a rule's value is saved: a flag as a byte, a number as an int.
pub open spec fn rule_tag(v: GameRuleValue) -> NbtView {
    match v {
        GameRuleValue::Bool(b) => NbtView::Byte(if b {
            1
        } else {
            0
        }),
        GameRuleValue::Int(i) => NbtView::Int(i as i32),
    }
}

/// The rules put one after the other into an empty compound.
pub open spec fn rule_entries(r: Seq<(Seq<char>, GameRuleValue)>) -> Seq<(Seq<char>, NbtView)>
    decreases r.len(),
{
    if r.len() == 0 {
        Seq::empty()
    } else {
        put_entry(rule_entries(r.drop_last()), rule_key(r.last().0), rule_tag(r.last().1))
    }
}

/// The root of `game_rules.dat`.
pub open spec fn rules_root(r: Seq<(Seq<char>, GameRuleValue)>, data_version: i32) -> Seq<(Seq<char>, NbtView)> {
    seq![("data"@, NbtView::Compound(put_entry(rule_entries(r), "DataVersion"@, NbtView::Int(data_version))))]
}

/// A rule's value read back: a flag from a byte, non-zero meaning true; a
/// number from an int; the value given when the entry is missing or of
/// another type.
pub open spec fn read_rule(inner: Seq<(Seq<char>, NbtView)>, name: Seq<char>, v: GameRuleValue) -> GameRuleValue {
    match entry_index(inner, rule_key(name)) {
        Some(i) => match (v, inner[i].1) {
            (GameRuleValue::Bool(_), NbtView::Byte(b)) => GameRuleValue::Bool(b != 0),
            (GameRuleValue::Int(_), NbtView::Int(n)) => GameRuleValue::Int(n as i64),
            _ => v,
        },
        None => v,
    }
}

/// The rules of `defaults`, each read back from the `data` compound of
/// `root`, or all left as they are without one.
pub open spec fn rules_from(root: Seq<(Seq<char>, NbtView)>, defaults: Seq<(Seq<char>, GameRuleValue)>) -> Seq<
    (Seq<char>, GameRuleValue),
> {
    match data_of(root) {
        Some(inner) => defaults.map_values(|e: (Seq<char>, GameRuleValue)| (e.0, read_rule(inner, e.0, e.1))),
        None => defaults,
    }
}

/// The root compound that `game_rules.dat` holds for `rules`.
pub fn game_rules_to_nbt(rules: &GameRules, data_version: i32) -> (r: NbtCompound)
    ensures
        r@ == rules_root(rules_view(rules.rules@), data_version),
{
    let ghost rv = rules_view(rules.rules@);
    let mut inner = NbtCompound::new();
    let mut i: usize = 0;
    while i < rules.rules.len()
        invariant
            i <= rules.rules@.len(),
            rv == rules_view(rules.rules@),
            inner@ == rule_entries(rv.take(i as int)),
        decreases rules.rules@.len() - i,
    {
        let (name, value) = &rules.rules[i];
        let mut key = owned("minecraft:");
        push_str(&mut key, name.as_str());
        let tag = match value {
            GameRuleValue::Bool(b) => NbtTag::Byte(if *b {
                1
            } else {
                0
            }),
            GameRuleValue::Int(n) => NbtTag::Int(*n as i32),
        };
        inner.put(key, tag);
        proof {
            assert(rv.take(i + 1).drop_last() =~= rv.take(i as int));
            assert(rv.take(i + 1).last() == (name@, *value));
        }
        i = i + 1;
    }
    assert(rv.take(rv.len() as int) =~= rv);
    inner.put(owned("DataVersion"), NbtTag::Int(data_version));
    named_compound("data", NbtTag::Compound(inner))
}

/// Reads the game rules from the root of `game_rules.dat`; `defaults` are
/// the rules of the registry with their default values.
pub fn game_rules_from_nbt(root: &NbtCompound, defaults: &GameRules) -> (r: GameRules)
    ensures
        rules_view(r.rules@) == rules_from(root@, rules_view(defaults.rules@)),
{
    let ghost dv = rules_view(defaults.rules@);
    proof {
        lemma_entry_views(root.child_tags@);
        lemma_entry_index(root@, "data"@);
    }
    let inner = match root.get(&owned("data")) {
        Some(NbtTag::Compound(inner)) => inner,
        _ => {
            let mut copy: Vec<(String, GameRuleValue)> = Vec::new();
            let mut i: usize = 0;
            while i < defaults.rules.len()
                invariant
                    i <= defaults.rules@.len(),
                    rules_view(copy@) == dv.take(i as int),
                    dv == rules_view(defaults.rules@),
                decreases defaults.rules@.len() - i,
            {
                let ghost before = rules_view(copy@);
                let name = defaults.rules[i].0.clone();
                let value = defaults.rules[i].1;
                copy.push((name, value));
                assert(dv[i as int] == (name@, value));
                assert(rules_view(copy@) =~= before.push(dv[i as int]));
                assert(dv.take(i + 1) =~= dv.take(i as int).push(dv[i as int]));
                i = i + 1;
            }
            assert(dv.take(dv.len() as int) =~= dv);
            return GameRules { rules: copy };
        },
    };
    let ghost entries = inner@;
    let mut out: Vec<(String, GameRuleValue)> = Vec::new();
    let mut i: usize = 0;
    while i < defaults.rules.len()
        invariant
            i <= defaults.rules@.len(),
            dv == rules_view(defaults.rules@),
            entries == inner@,
            data_of(root@) == Some(entries),
            rules_view(out@) == dv.take(i as int).map_values(
                |e: (Seq<char>, GameRuleValue)| (e.0, read_rule(entries, e.0, e.1)),
            ),
        decreases defaults.rules@.len() - i,
    {
        let (name, value) = &defaults.rules[i];
        let mut key = owned("minecraft:");
        push_str(&mut key, name.as_str());
        proof {
            lemma_entry_views(inner.child_tags@);
            lemma_entry_index(inner@, key@);
        }
        let read = match (value, inner.get(&key)) {
            (GameRuleValue::Bool(_), Some(NbtTag::Byte(b))) => GameRuleValue::Bool(*b != 0),
            (GameRuleValue::Int(_), Some(NbtTag::Int(n))) => GameRuleValue::Int(*n as i64),
            _ => *value,
        };
        let ghost before = rules_view(out@);
        out.push((name.clone(), read));
        proof {
            assert(read == read_rule(entries, name@, *value));
            assert(dv[i as int] == (name@, *value));
            assert(rules_view(out@) =~= before.push((name@, read)));
            assert(dv.take(i + 1) =~= dv.take(i as int).push(dv[i as int]));
            assert(rules_view(out@) =~= dv.take(i + 1).map_values(
                |e: (Seq<char>, GameRuleValue)| (e.0, read_rule(entries, e.0, e.1)),
            ));
        }
        i = i + 1;
    }
    assert(dv.take(dv.len() as int) =~= dv);
    GameRules { rules: out }
}

pub open spec fn rule_names_unique(r: Seq<(Seq<char>, GameRuleValue)>) -> bool {
    forall|i: int, j: int| 0 <= i < j < r.len() ==> r[i].0 != r[j].0
}

pub open spec fn same_kind(a: GameRuleValue, b: GameRuleValue) -> bool {
    (a is Bool && b is Bool) || (a is Int && b is Int)
}

proof fn lemma_rule_key_injective(a: Seq<char>, b: Seq<char>)
    requires
        rule_key(a) == rule_key(b),
    ensures
        a == b,
{
    let p = "minecraft:"@;
    assert(a =~= rule_key(a).skip(p.len() as int));
    assert(b =~= rule_key(b).skip(p.len() as int));
}

proof fn lemma_rule_entries(r: Seq<(Seq<char>, GameRuleValue)>)
    requires
        rule_names_unique(r),
    ensures
        rule_entries(r) == r.map_values(|e: (Seq<char>, GameRuleValue)| (rule_key(e.0), rule_tag(e.1))),
    decreases r.len(),
{
    if r.len() > 0 {
        let rest = r.drop_last();
        assert forall|i: int, j: int| 0 <= i < j < rest.len() implies rest[i].0 != rest[j].0 by {
            assert(rest[i] == r[i] && rest[j] == r[j]);
        }
        lemma_rule_entries(rest);
        let prev = rule_entries(rest);
        lemma_entry_index(prev, rule_key(r.last().0));
        if entry_index(prev, rule_key(r.last().0)) is Some {
            let k = entry_index(prev, rule_key(r.last().0))->0;
            assert(prev[k].0 == rule_key(rest[k].0));
            lemma_rule_key_injective(rest[k].0, r.last().0);
            assert(rest[k] == r[k]);
            assert(false);
        }
        assert(rule_entries(r) =~= r.map_values(|e: (Seq<char>, GameRuleValue)| (rule_key(e.0), rule_tag(e.1))));
    }
}

/// Saving game rules and reading them back over the registry's defaults
/// gives the saved values, when no two rules share a name, the defaults
/// name the same rules with values of the same kinds, and every number fits
/// in 32 bits.
pub proof fn lemma_game_rules_round_trip(
    r: Seq<(Seq<char>, GameRuleValue)>,
    defaults: Seq<(Seq<char>, GameRuleValue)>,
    data_version: i32,
)
    requires
        rule_names_unique(r),
        defaults.len() == r.len(),
        forall|i: int| 0 <= i < r.len() ==> #[trigger] defaults[i].0 == r[i].0 && same_kind(defaults[i].1, r[i].1),
        forall|i: int| 0 <= i < r.len() ==> (#[trigger] r[i].1 matches GameRuleValue::Int(n) ==> i32::MIN <= n
            <= i32::MAX),
    ensures
        rules_from(rules_root(r, data_version), defaults) == r,
{
    let root = rules_root(r, data_version);
    assert(entry_index(root, "data"@) == Some(0int)) by {
        assert(root.last().0 == "data"@);
    }
    lemma_rule_entries(r);
    let entries = rule_entries(r);
    reveal_strlit("DataVersion");
    reveal_strlit("minecraft:");
    lemma_entry_index(entries, "DataVersion"@);
    if entry_index(entries, "DataVersion"@) is Some {
        let k = entry_index(entries, "DataVersion"@)->0;
        assert(entries[k].0 == rule_key(r[k].0));
        assert(rule_key(r[k].0)[0] == 'm');
        assert("DataVersion"@[0] == 'D');
        assert(false);
    }
    let inner = entries.push(("DataVersion"@, NbtView::Int(data_version)));
    assert(data_of(root) == Some(inner));
    assert forall|i: int| 0 <= i < r.len() implies read_rule(inner, #[trigger] defaults[i].0, defaults[i].1) == r[i].1 by {
        let key = rule_key(r[i].0);
        assert(inner[i] == (key, rule_tag(r[i].1)));
        lemma_entry_index(inner, key);
        match entry_index(inner, key) {
            Some(j) => {
                if j != i {
                    if j == entries.len() {
                        assert(key[0] == 'm');
                        assert("DataVersion"@[0] == 'D');
                    } else {
                        assert(inner[j] == entries[j]);
                        lemma_rule_key_injective(r[j].0, r[i].0);
                    }
                }
            },
            None => {
                assert(inner[i].0 == key);
            },
        }
    }
    assert(rules_from(root, defaults) =~= r);
}

} // verus!
