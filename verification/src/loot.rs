//! Block loot tables of data packs: what a definition must hold, and which
//! items an entry drops for a given tool.
//!
//! The numbers of rolls are floating-point values; a pool carries them as
//! the JSON numbers it was given, and the caller turns them into rolls.
use vstd::prelude::*;

use crate::advancement::contains_name;
use crate::json::{
    as_i64, as_str, field_index, field_of, get_field, get_str, lemma_field_decreases, lemma_field_index,
    lemma_item_decreases, Json, JsonView,
};
use crate::recipe::{all_strings, is_str, opt_string_view, str_of};
use crate::team::names_view;
use crate::text::{owned, str_eq, strip_prefix, strip_prefix_str};

verus! {

/// The part of a loot table that an error is about.
#[derive(Clone, Copy, Debug, PartialEq, Eq, Structural)]
pub enum LootPart {
    Table,
    Pool,
    Entry,
    InvertedCondition,
    MatchToolCondition,
    MatchToolPredicate,
    ComponentPredicates,
    EnchantmentPredicate,
}

/// The integer fields of an entry.
#[derive(Clone, Copy, Debug, PartialEq, Eq, Structural)]
pub enum EntryField {
    Weight,
    Quality,
}

/// The number fields of a pool.
#[derive(Clone, Copy, Debug, PartialEq, Eq, Structural)]
pub enum RollsField {
    Rolls,
    BonusRolls,
}

/// Why a loot table definition was rejected.
#[derive(Debug, PartialEq, Eq)]
pub enum LootError {
    TableNotObject,
    /// A field that this part does not support.
    UnsupportedField(LootPart, String),
    NotBlockTable,
    MissingPools,
    PoolNotObject,
    /// Loot functions are not supported.
    FunctionsUnsupported(LootPart),
    MissingRolls,
    /// A number of rolls that is not a non-negative number.
    BadRolls(RollsField),
    MissingEntries,
    EntryNotObject,
    MissingEntryType,
    MissingItemName,
    /// An item outside the `minecraft` namespace.
    NotMinecraftItem(String),
    UnknownItem(String),
    MissingChildren,
    UnsupportedEntryType(String),
    BadEntryInteger(EntryField),
    ConditionsNotList,
    ConditionNotObject,
    MissingConditionKind,
    MissingTerm,
    MissingPredicate,
    UnsupportedCondition(String),
    PredicateNotObject,
    MissingPredicates,
    MissingEnchantmentList,
    EnchantmentPredicateNotObject,
    MissingEnchantmentNames,
    EnchantmentsNotStringOrList,
    EnchantmentNameNotString,
    UnknownEnchantment(String),
    EmptyEnchantments,
    LevelNotInteger,
    BadLevels,
    BadMinLevel,
    BadMaxLevel,
}

pub enum LootErrorView {
    TableNotObject,
    UnsupportedField(LootPart, Seq<char>),
    NotBlockTable,
    MissingPools,
    PoolNotObject,
    FunctionsUnsupported(LootPart),
    MissingRolls,
    BadRolls(RollsField),
    MissingEntries,
    EntryNotObject,
    MissingEntryType,
    MissingItemName,
    NotMinecraftItem(Seq<char>),
    UnknownItem(Seq<char>),
    MissingChildren,
    UnsupportedEntryType(Seq<char>),
    BadEntryInteger(EntryField),
    ConditionsNotList,
    ConditionNotObject,
    MissingConditionKind,
    MissingTerm,
    MissingPredicate,
    UnsupportedCondition(Seq<char>),
    PredicateNotObject,
    MissingPredicates,
    MissingEnchantmentList,
    EnchantmentPredicateNotObject,
    MissingEnchantmentNames,
    EnchantmentsNotStringOrList,
    EnchantmentNameNotString,
    UnknownEnchantment(Seq<char>),
    EmptyEnchantments,
    LevelNotInteger,
    BadLevels,
    BadMinLevel,
    BadMaxLevel,
}

impl View for LootError {
    type V = LootErrorView;

    open spec fn view(&self) -> LootErrorView {
        match self {
            LootError::TableNotObject => LootErrorView::TableNotObject,
            LootError::UnsupportedField(p, f) => LootErrorView::UnsupportedField(*p, f@),
            LootError::NotBlockTable => LootErrorView::NotBlockTable,
            LootError::MissingPools => LootErrorView::MissingPools,
            LootError::PoolNotObject => LootErrorView::PoolNotObject,
            LootError::FunctionsUnsupported(p) => LootErrorView::FunctionsUnsupported(*p),
            LootError::MissingRolls => LootErrorView::MissingRolls,
            LootError::BadRolls(f) => LootErrorView::BadRolls(*f),
            LootError::MissingEntries => LootErrorView::MissingEntries,
            LootError::EntryNotObject => LootErrorView::EntryNotObject,
            LootError::MissingEntryType => LootErrorView::MissingEntryType,
            LootError::MissingItemName => LootErrorView::MissingItemName,
            LootError::NotMinecraftItem(s) => LootErrorView::NotMinecraftItem(s@),
            LootError::UnknownItem(s) => LootErrorView::UnknownItem(s@),
            LootError::MissingChildren => LootErrorView::MissingChildren,
            LootError::UnsupportedEntryType(s) => LootErrorView::UnsupportedEntryType(s@),
            LootError::BadEntryInteger(f) => LootErrorView::BadEntryInteger(*f),
            LootError::ConditionsNotList => LootErrorView::ConditionsNotList,
            LootError::ConditionNotObject => LootErrorView::ConditionNotObject,
            LootError::MissingConditionKind => LootErrorView::MissingConditionKind,
            LootError::MissingTerm => LootErrorView::MissingTerm,
            LootError::MissingPredicate => LootErrorView::MissingPredicate,
            LootError::UnsupportedCondition(s) => LootErrorView::UnsupportedCondition(s@),
            LootError::PredicateNotObject => LootErrorView::PredicateNotObject,
            LootError::MissingPredicates => LootErrorView::MissingPredicates,
            LootError::MissingEnchantmentList => LootErrorView::MissingEnchantmentList,
            LootError::EnchantmentPredicateNotObject => LootErrorView::EnchantmentPredicateNotObject,
            LootError::MissingEnchantmentNames => LootErrorView::MissingEnchantmentNames,
            LootError::EnchantmentsNotStringOrList => LootErrorView::EnchantmentsNotStringOrList,
            LootError::EnchantmentNameNotString => LootErrorView::EnchantmentNameNotString,
            LootError::UnknownEnchantment(s) => LootErrorView::UnknownEnchantment(s@),
            LootError::EmptyEnchantments => LootErrorView::EmptyEnchantments,
            LootError::LevelNotInteger => LootErrorView::LevelNotInteger,
            LootError::BadLevels => LootErrorView::BadLevels,
            LootError::BadMinLevel => LootErrorView::BadMinLevel,
            LootError::BadMaxLevel => LootErrorView::BadMaxLevel,
        }
    }
}

pub open spec fn strs_view(v: Seq<&str>) -> Seq<Seq<char>> {
    v.map_values(|s: &str| s@)
}

/// The first field, in order, whose name is not allowed.
pub open spec fn first_unknown(fields: Seq<(String, Json)>, allowed: Seq<Seq<char>>) -> Option<Seq<char>>
    decreases fields.len(),
{
    if fields.len() == 0 {
        None
    } else if !allowed.contains(fields[0].0@) {
        Some(fields[0].0@)
    } else {
        first_unknown(fields.drop_first(), allowed)
    }
}

fn contains_str_in(allowed: &Vec<&str>, name: &str) -> (r: bool)
    ensures
        r == strs_view(allowed@).contains(name@),
{
    let ghost a = strs_view(allowed@);
    let mut i: usize = 0;
    while i < allowed.len()
        invariant
            i <= allowed@.len(),
            a == strs_view(allowed@),
            forall|j: int| 0 <= j < i ==> a[j] != name@,
        decreases allowed@.len() - i,
    {
        if str_eq(allowed[i], name) {
            assert(a[i as int] == name@);
            return true;
        }
        i = i + 1;
    }
    false
}

/// The first field whose name is not allowed.
fn unknown_field(fields: &Vec<(String, Json)>, allowed: &Vec<&str>) -> (r: Option<String>)
    ensures
        opt_string_view(r) == first_unknown(fields@, strs_view(allowed@)),
{
    let ghost a = strs_view(allowed@);
    let mut i: usize = 0;
    assert(fields@.skip(0) =~= fields@);
    while i < fields.len()
        invariant
            i <= fields@.len(),
            a == strs_view(allowed@),
            first_unknown(fields@, a) == first_unknown(fields@.skip(i as int), a),
        decreases fields@.len() - i,
    {
        let ghost rest = fields@.skip(i as int);
        proof {
            assert(rest[0] == fields@[i as int]);
            assert(rest.drop_first() =~= fields@.skip(i + 1));
        }
        if !contains_str_in(allowed, fields[i].0.as_str()) {
            return Some(fields[i].0.clone());
        }
        i = i + 1;
    }
    None
}

/// Loot functions are given and not an empty list.
pub open spec fn functions_given(fields: Seq<(String, Json)>) -> bool {
    match field_of(fields, "functions"@) {
        Some(Json::Array(list)) => list@.len() > 0,
        Some(_) => true,
        None => false,
    }
}

fn has_functions(fields: &Vec<(String, Json)>) -> (r: bool)
    ensures
        r == functions_given(fields@),
{
    match get_field(fields, "functions") {
        Some(Json::Array(list)) => list.len() > 0,
        Some(_) => true,
        None => false,
    }
}

/// The value as a 32-bit integer, when it is an integral number in range.
pub open spec fn as_i32(v: Json) -> Option<i32> {
    match as_i64(v) {
        Some(n) => if i32::MIN <= n <= i32::MAX {
            Some(n as i32)
        } else {
            None
        },
        None => None,
    }
}

fn json_i32(v: &Json) -> (r: Option<i32>)
    ensures
        r == as_i32(*v),
{
    match v {
        Json::Int(n) => if i32::MIN as i64 <= *n && *n <= i32::MAX as i64 {
            Some(*n as i32)
        } else {
            None
        },
        _ => None,
    }
}

// ---------------------------------------------------------------------------
// Conditions

/// A requirement on the tool's enchantments: one of `enchantments` at a
/// level from `min_level` up to `max_level`.
#[derive(Debug, PartialEq, Eq)]
pub struct EnchantmentRequirement {
    pub enchantments: Vec<String>,
    pub min_level: i32,
    pub max_level: Option<i32>,
}

pub struct RequirementView {
    pub enchantments: Seq<Seq<char>>,
    pub min_level: i32,
    pub max_level: Option<i32>,
}

impl View for EnchantmentRequirement {
    type V = RequirementView;

    open spec fn view(&self) -> RequirementView {
        RequirementView {
            enchantments: names_view(self.enchantments@),
            min_level: self.min_level,
            max_level: self.max_level,
        }
    }
}

pub open spec fn requirements_view(v: Seq<EnchantmentRequirement>) -> Seq<RequirementView> {
    v.map_values(|r: EnchantmentRequirement| r@)
}

/// When a pool or an entry applies.
#[derive(Debug, PartialEq, Eq)]
pub enum LootCondition {
    Inverted(Box<LootCondition>),
    MatchToolEnchantments(Vec<EnchantmentRequirement>),
}

pub enum ConditionView {
    Inverted(Box<ConditionView>),
    MatchTool(Seq<RequirementView>),
}

pub open spec fn condition_view(c: LootCondition) -> ConditionView
    decreases c,
{
    match c {
        LootCondition::Inverted(term) => ConditionView::Inverted(Box::new(condition_view(*term))),
        LootCondition::MatchToolEnchantments(reqs) => ConditionView::MatchTool(requirements_view(reqs@)),
    }
}

impl View for LootCondition {
    type V = ConditionView;

    open spec fn view(&self) -> ConditionView {
        condition_view(*self)
    }
}

pub open spec fn conditions_view(v: Seq<LootCondition>) -> Seq<ConditionView> {
    v.map_values(|c: LootCondition| c@)
}

/// The enchantment names of a requirement: one name or a list of names.
pub open spec fn names_of(raw: Json) -> Result<Seq<Seq<char>>, LootErrorView> {
    match raw {
        Json::Str(s) => Ok(seq![s@]),
        Json::Array(items) => if all_strings(items@) {
            Ok(items@.map_values(|j: Json| str_of(j)))
        } else {
            Err(LootErrorView::EnchantmentNameNotString)
        },
        _ => Err(LootErrorView::EnchantmentsNotStringOrList),
    }
}

/// The first name that is not registered.
pub open spec fn first_unregistered(names: Seq<Seq<char>>, registered: Seq<Seq<char>>) -> Option<Seq<char>>
    decreases names.len(),
{
    if names.len() == 0 {
        None
    } else if !registered.contains(names[0]) {
        Some(names[0])
    } else {
        first_unregistered(names.drop_first(), registered)
    }
}

/// An optional integer bound.
pub open spec fn bound_of(v: Option<Json>) -> Option<Option<i32>> {
    match v {
        None => Some(None),
        Some(j) => match as_i32(j) {
            Some(n) => Some(Some(n)),
            None => None,
        },
    }
}

/// The levels of a requirement: at least one when not given; one exact
/// level; or a range whose minimum defaults to zero.
pub open spec fn levels_of(v: Option<Json>) -> Result<(i32, Option<i32>), LootErrorView> {
    match v {
        None => Ok((1, None)),
        Some(Json::Int(n)) => match as_i32(Json::Int(n)) {
            Some(l) => Ok((l, Some(l))),
            None => Err(LootErrorView::LevelNotInteger),
        },
        Some(Json::Unsigned(..)) => Err(LootErrorView::LevelNotInteger),
        Some(Json::FloatBits(..)) => Err(LootErrorView::LevelNotInteger),
        Some(Json::Object(range)) => match bound_of(field_of(range@, "min"@)) {
            None => Err(LootErrorView::BadMinLevel),
            Some(min) => match bound_of(field_of(range@, "max"@)) {
                None => Err(LootErrorView::BadMaxLevel),
                Some(max) => Ok(
                    (
                        match min {
                            Some(m) => m,
                            None => 0,
                        },
                        max,
                    ),
                ),
            },
        },
        Some(_) => Err(LootErrorView::BadLevels),
    }
}

/// One enchantment requirement of a `match_tool` predicate.
pub open spec fn requirement_of(v: Json, enchantments: Seq<Seq<char>>) -> Result<RequirementView, LootErrorView> {
    match v {
        Json::Object(f) => match first_unknown(f@, seq!["enchantments"@, "levels"@]) {
            Some(x) => Err(LootErrorView::UnsupportedField(LootPart::EnchantmentPredicate, x)),
            None => match field_of(f@, "enchantments"@) {
                None => Err(LootErrorView::MissingEnchantmentNames),
                Some(raw) => match names_of(raw) {
                    Err(e) => Err(e),
                    Ok(names) => match first_unregistered(names, enchantments) {
                        Some(n) => Err(LootErrorView::UnknownEnchantment(n)),
                        None => if names.len() == 0 {
                            Err(LootErrorView::EmptyEnchantments)
                        } else {
                            match levels_of(field_of(f@, "levels"@)) {
                                Err(e) => Err(e),
                                Ok(levels) => Ok(
                                    RequirementView { enchantments: names, min_level: levels.0, max_level: levels.1 },
                                ),
                            }
                        },
                    },
                },
            },
        },
        _ => Err(LootErrorView::EnchantmentPredicateNotObject),
    }
}

/// The requirements of a list, the first that does not read being the
/// error.
pub open spec fn requirements_of(list: Seq<Json>, enchantments: Seq<Seq<char>>) -> Result<
    Seq<RequirementView>,
    LootErrorView,
>
    decreases list.len(),
{
    if list.len() == 0 {
        Ok(Seq::empty())
    } else {
        match requirement_of(list[0], enchantments) {
            Err(e) => Err(e),
            Ok(r) => match requirements_of(list.drop_first(), enchantments) {
                Err(e) => Err(e),
                Ok(rest) => Ok(seq![r] + rest),
            },
        }
    }
}

/// The enchantment requirements of a `match_tool` predicate.
pub open spec fn tool_requirements_of(p: Json, enchantments: Seq<Seq<char>>) -> Result<
    Seq<RequirementView>,
    LootErrorView,
> {
    match p {
        Json::Object(f) => match first_unknown(f@, seq!["predicates"@]) {
            Some(x) => Err(LootErrorView::UnsupportedField(LootPart::MatchToolPredicate, x)),
            None => match field_of(f@, "predicates"@) {
                Some(Json::Object(preds)) => match first_unknown(preds@, seq!["minecraft:enchantments"@]) {
                    Some(x) => Err(LootErrorView::UnsupportedField(LootPart::ComponentPredicates, x)),
                    None => match field_of(preds@, "minecraft:enchantments"@) {
                        Some(Json::Array(list)) => requirements_of(list@, enchantments),
                        _ => Err(LootErrorView::MissingEnchantmentList),
                    },
                },
                _ => Err(LootErrorView::MissingPredicates),
            },
        },
        _ => Err(LootErrorView::PredicateNotObject),
    }
}

/// A loot condition: `inverted` around another, or `match_tool` on the
/// tool's enchantments.
pub open spec fn condition_of(v: Json, enchantments: Seq<Seq<char>>) -> Result<ConditionView, LootErrorView>
    decreases v,
{
    match v {
        Json::Object(f) => match as_str(field_of(f@, "condition"@)) {
            None => Err(LootErrorView::MissingConditionKind),
            Some(kind) => if kind == "minecraft:inverted"@ {
                match first_unknown(f@, seq!["condition"@, "term"@]) {
                    Some(x) => Err(LootErrorView::UnsupportedField(LootPart::InvertedCondition, x)),
                    None => match field_index(f@, "term"@) {
                        None => Err(LootErrorView::MissingTerm),
                        Some(i) => {
                            proof {
                                lemma_field_decreases(v, f, "term"@);
                            }
                            if 0 <= i < f@.len() {
                                match condition_of(f@[i].1, enchantments) {
                                    Err(e) => Err(e),
                                    Ok(c) => Ok(ConditionView::Inverted(Box::new(c))),
                                }
                            } else {
                                Err(LootErrorView::MissingTerm)
                            }
                        },
                    },
                }
            } else if kind == "minecraft:match_tool"@ {
                match first_unknown(f@, seq!["condition"@, "predicate"@]) {
                    Some(x) => Err(LootErrorView::UnsupportedField(LootPart::MatchToolCondition, x)),
                    None => match field_of(f@, "predicate"@) {
                        None => Err(LootErrorView::MissingPredicate),
                        Some(p) => match tool_requirements_of(p, enchantments) {
                            Err(e) => Err(e),
                            Ok(reqs) => Ok(ConditionView::MatchTool(reqs)),
                        },
                    },
                }
            } else {
                Err(LootErrorView::UnsupportedCondition(kind))
            },
        },
        _ => Err(LootErrorView::ConditionNotObject),
    }
}

/// The conditions of a list, the first that does not read being the error.
pub open spec fn condition_list_of(list: Seq<Json>, enchantments: Seq<Seq<char>>) -> Result<
    Seq<ConditionView>,
    LootErrorView,
>
    decreases list.len(),
{
    if list.len() == 0 {
        Ok(Seq::empty())
    } else {
        match condition_of(list[0], enchantments) {
            Err(e) => Err(e),
            Ok(c) => match condition_list_of(list.drop_first(), enchantments) {
                Err(e) => Err(e),
                Ok(rest) => Ok(seq![c] + rest),
            },
        }
    }
}

/// The `conditions` field: none when absent, else a list of conditions.
pub open spec fn conditions_of(v: Option<Json>, enchantments: Seq<Seq<char>>) -> Result<
    Seq<ConditionView>,
    LootErrorView,
> {
    match v {
        None => Ok(Seq::empty()),
        Some(Json::Array(list)) => condition_list_of(list@, enchantments),
        Some(_) => Err(LootErrorView::ConditionsNotList),
    }
}

pub open spec fn lresult<T: View>(r: Result<T, LootError>) -> Result<T::V, LootErrorView> {
    match r {
        Ok(v) => Ok(v@),
        Err(e) => Err(e@),
    }
}

fn parse_optional_i32(v: Option<&Json>) -> (r: Option<Option<i32>>)
    ensures
        r == bound_of(match v {
            Some(j) => Some(*j),
            None => None,
        }),
{
    match v {
        None => Some(None),
        Some(j) => match json_i32(j) {
            Some(n) => Some(Some(n)),
            None => None,
        },
    }
}

fn parse_levels(v: Option<&Json>) -> (r: Result<(i32, Option<i32>), LootError>)
    ensures
        match r {
            Ok(l) => levels_of(match v {
                Some(j) => Some(*j),
                None => None,
            }) == Ok::<(i32, Option<i32>), LootErrorView>(l),
            Err(e) => levels_of(match v {
                Some(j) => Some(*j),
                None => None,
            }) == Err::<(i32, Option<i32>), LootErrorView>(e@),
        },
{
    match v {
        None => Ok((1, None)),
        Some(Json::Int(n)) => match json_i32(v.unwrap()) {
            Some(l) => Ok((l, Some(l))),
            None => Err(LootError::LevelNotInteger),
        },
        Some(Json::Unsigned(..)) => Err(LootError::LevelNotInteger),
        Some(Json::FloatBits(..)) => Err(LootError::LevelNotInteger),
        Some(Json::Object(range)) => {
            let min = match parse_optional_i32(get_field(range, "min")) {
                Some(min) => min,
                None => {
                    return Err(LootError::BadMinLevel);
                },
            };
            let max = match parse_optional_i32(get_field(range, "max")) {
                Some(max) => max,
                None => {
                    return Err(LootError::BadMaxLevel);
                },
            };
            Ok(
                (
                    match min {
                        Some(m) => m,
                        None => 0,
                    },
                    max,
                ),
            )
        },
        Some(_) => Err(LootError::BadLevels),
    }
}

fn parse_names(raw: &Json) -> (r: Result<Vec<String>, LootError>)
    ensures
        match r {
            Ok(names) => names_of(*raw) == Ok::<Seq<Seq<char>>, LootErrorView>(names_view(names@)),
            Err(e) => names_of(*raw) == Err::<Seq<Seq<char>>, LootErrorView>(e@),
        },
{
    match raw {
        Json::Str(s) => {
            let v = vec![s.clone()];
            assert(names_view(v@) =~= seq![s@]);
            Ok(v)
        },
        Json::Array(items) => {
            let mut names: Vec<String> = Vec::new();
            let mut i: usize = 0;
            while i < items.len()
                invariant
                    *raw == Json::Array(*items),
                    i <= items@.len(),
                    names@.len() == i,
                    forall|k: int| 0 <= k < i ==> is_str(#[trigger] items@[k]),
                    forall|k: int| 0 <= k < i ==> (#[trigger] names@[k])@ == str_of(items@[k]),
                decreases items@.len() - i,
            {
                match &items[i] {
                    Json::Str(s) => {
                        names.push(s.clone());
                    },
                    _ => {
                        assert(!is_str(items@[i as int]));
                        assert(!all_strings(items@));
                        return Err(LootError::EnchantmentNameNotString);
                    },
                }
                i = i + 1;
            }
            assert(all_strings(items@));
            assert(names_view(names@) =~= items@.map_values(|j: Json| str_of(j)));
            Ok(names)
        },
        _ => Err(LootError::EnchantmentsNotStringOrList),
    }
}

fn unregistered(names: &Vec<String>, registered: &Vec<String>) -> (r: Option<String>)
    ensures
        opt_string_view(r) == first_unregistered(names_view(names@), names_view(registered@)),
{
    let ghost n = names_view(names@);
    let ghost reg = names_view(registered@);
    let mut i: usize = 0;
    assert(n.skip(0) =~= n);
    while i < names.len()
        invariant
            i <= names@.len(),
            n == names_view(names@),
            reg == names_view(registered@),
            first_unregistered(n, reg) == first_unregistered(n.skip(i as int), reg),
        decreases names@.len() - i,
    {
        let ghost rest = n.skip(i as int);
        proof {
            assert(rest[0] == n[i as int]);
            assert(rest.drop_first() =~= n.skip(i + 1));
        }
        if !contains_name(registered, &names[i]) {
            return Some(names[i].clone());
        }
        i = i + 1;
    }
    None
}

fn parse_enchantment_requirement(v: &Json, enchantments: &Vec<String>) -> (r: Result<EnchantmentRequirement, LootError>)
    ensures
        lresult(r) == requirement_of(*v, names_view(enchantments@)),
{
    let f = match v {
        Json::Object(f) => f,
        _ => {
            return Err(LootError::EnchantmentPredicateNotObject);
        },
    };
    let allowed = vec!["enchantments", "levels"];
    assert(strs_view(allowed@) =~= seq!["enchantments"@, "levels"@]);
    if let Some(x) = unknown_field(f, &allowed) {
        return Err(LootError::UnsupportedField(LootPart::EnchantmentPredicate, x));
    }
    let raw = match get_field(f, "enchantments") {
        Some(raw) => raw,
        None => {
            return Err(LootError::MissingEnchantmentNames);
        },
    };
    let names = match parse_names(raw) {
        Ok(names) => names,
        Err(e) => {
            return Err(e);
        },
    };
    if let Some(n) = unregistered(&names, enchantments) {
        return Err(LootError::UnknownEnchantment(n));
    }
    if names.len() == 0 {
        return Err(LootError::EmptyEnchantments);
    }
    let levels = match parse_levels(get_field(f, "levels")) {
        Ok(levels) => levels,
        Err(e) => {
            return Err(e);
        },
    };
    Ok(EnchantmentRequirement { enchantments: names, min_level: levels.0, max_level: levels.1 })
}

fn parse_requirements(list: &Vec<Json>, enchantments: &Vec<String>) -> (r: Result<Vec<EnchantmentRequirement>, LootError>)
    ensures
        match r {
            Ok(v) => requirements_of(list@, names_view(enchantments@)) == Ok::<
                Seq<RequirementView>,
                LootErrorView,
            >(requirements_view(v@)),
            Err(e) => requirements_of(list@, names_view(enchantments@)) == Err::<
                Seq<RequirementView>,
                LootErrorView,
            >(e@),
        },
{
    let ghost en = names_view(enchantments@);
    let mut out: Vec<EnchantmentRequirement> = Vec::new();
    let mut i: usize = 0;
    assert(list@.skip(0) =~= list@);
    while i < list.len()
        invariant
            i <= list@.len(),
            en == names_view(enchantments@),
            requirements_of(list@, en) == match requirements_of(list@.skip(i as int), en) {
                Ok(rest) => Ok(requirements_view(out@) + rest),
                Err(e) => Err(e),
            },
        decreases list@.len() - i,
    {
        let ghost rest = list@.skip(i as int);
        proof {
            assert(rest[0] == list@[i as int]);
            assert(rest.drop_first() =~= list@.skip(i + 1));
        }
        let req = match parse_enchantment_requirement(&list[i], enchantments) {
            Ok(req) => req,
            Err(e) => {
                return Err(e);
            },
        };
        let ghost before = requirements_view(out@);
        let ghost rv = req@;
        out.push(req);
        proof {
            assert(requirements_view(out@) =~= before.push(rv));
            match requirements_of(list@.skip(i + 1), en) {
                Ok(r) => {
                    assert(requirements_view(out@) + r =~= before + (seq![rv] + r));
                },
                Err(e) => {},
            }
        }
        i = i + 1;
    }
    proof {
        assert(list@.skip(list@.len() as int) =~= Seq::<Json>::empty());
        assert(requirements_view(out@) + Seq::<RequirementView>::empty() =~= requirements_view(out@));
    }
    Ok(out)
}

fn parse_tool_enchantments(p: &Json, enchantments: &Vec<String>) -> (r: Result<Vec<EnchantmentRequirement>, LootError>)
    ensures
        match r {
            Ok(v) => tool_requirements_of(*p, names_view(enchantments@)) == Ok::<
                Seq<RequirementView>,
                LootErrorView,
            >(requirements_view(v@)),
            Err(e) => tool_requirements_of(*p, names_view(enchantments@)) == Err::<
                Seq<RequirementView>,
                LootErrorView,
            >(e@),
        },
{
    let f = match p {
        Json::Object(f) => f,
        _ => {
            return Err(LootError::PredicateNotObject);
        },
    };
    let allowed = vec!["predicates"];
    assert(strs_view(allowed@) =~= seq!["predicates"@]);
    if let Some(x) = unknown_field(f, &allowed) {
        return Err(LootError::UnsupportedField(LootPart::MatchToolPredicate, x));
    }
    let preds = match get_field(f, "predicates") {
        Some(Json::Object(preds)) => preds,
        _ => {
            return Err(LootError::MissingPredicates);
        },
    };
    let allowed = vec!["minecraft:enchantments"];
    assert(strs_view(allowed@) =~= seq!["minecraft:enchantments"@]);
    if let Some(x) = unknown_field(preds, &allowed) {
        return Err(LootError::UnsupportedField(LootPart::ComponentPredicates, x));
    }
    match get_field(preds, "minecraft:enchantments") {
        Some(Json::Array(list)) => parse_requirements(list, enchantments),
        _ => Err(LootError::MissingEnchantmentList),
    }
}

/// Reads a loot condition; see [`condition_of`]. `enchantments` are the
/// registered enchantment names.
pub fn parse_condition(v: &Json, enchantments: &Vec<String>) -> (r: Result<LootCondition, LootError>)
    ensures
        lresult(r) == condition_of(*v, names_view(enchantments@)),
    decreases v,
{
    let f = match v {
        Json::Object(f) => f,
        _ => {
            return Err(LootError::ConditionNotObject);
        },
    };
    let kind = match get_str(f, "condition") {
        Some(kind) => kind,
        None => {
            return Err(LootError::MissingConditionKind);
        },
    };
    if str_eq(kind.as_str(), "minecraft:inverted") {
        let allowed = vec!["condition", "term"];
        assert(strs_view(allowed@) =~= seq!["condition"@, "term"@]);
        if let Some(x) = unknown_field(f, &allowed) {
            return Err(LootError::UnsupportedField(LootPart::InvertedCondition, x));
        }
        proof {
            lemma_field_index(f@, "term"@);
        }
        let term = match get_field(f, "term") {
            Some(term) => term,
            None => {
                return Err(LootError::MissingTerm);
            },
        };
        proof {
            lemma_field_decreases(*v, *f, "term"@);
        }
        match parse_condition(term, enchantments) {
            Ok(c) => Ok(LootCondition::Inverted(Box::new(c))),
            Err(e) => Err(e),
        }
    } else if str_eq(kind.as_str(), "minecraft:match_tool") {
        let allowed = vec!["condition", "predicate"];
        assert(strs_view(allowed@) =~= seq!["condition"@, "predicate"@]);
        if let Some(x) = unknown_field(f, &allowed) {
            return Err(LootError::UnsupportedField(LootPart::MatchToolCondition, x));
        }
        let p = match get_field(f, "predicate") {
            Some(p) => p,
            None => {
                return Err(LootError::MissingPredicate);
            },
        };
        match parse_tool_enchantments(p, enchantments) {
            Ok(reqs) => Ok(LootCondition::MatchToolEnchantments(reqs)),
            Err(e) => Err(e),
        }
    } else {
        Err(LootError::UnsupportedCondition(kind.clone()))
    }
}

/// Reads the `conditions` field of a pool or an entry; see
/// [`conditions_of`].
pub fn parse_conditions(v: Option<&Json>, enchantments: &Vec<String>) -> (r: Result<Vec<LootCondition>, LootError>)
    ensures
        match r {
            Ok(c) => conditions_of(
                match v {
                    Some(j) => Some(*j),
                    None => None,
                },
                names_view(enchantments@),
            ) == Ok::<Seq<ConditionView>, LootErrorView>(conditions_view(c@)),
            Err(e) => conditions_of(
                match v {
                    Some(j) => Some(*j),
                    None => None,
                },
                names_view(enchantments@),
            ) == Err::<Seq<ConditionView>, LootErrorView>(e@),
        },
{
    let list = match v {
        None => {
            let empty: Vec<LootCondition> = Vec::new();
            assert(conditions_view(empty@) =~= Seq::<ConditionView>::empty());
            return Ok(empty);
        },
        Some(Json::Array(list)) => list,
        Some(_) => {
            return Err(LootError::ConditionsNotList);
        },
    };
    let ghost en = names_view(enchantments@);
    let mut out: Vec<LootCondition> = Vec::new();
    let mut i: usize = 0;
    assert(list@.skip(0) =~= list@);
    while i < list.len()
        invariant
            i <= list@.len(),
            en == names_view(enchantments@),
            conditions_of(
                match v {
                    Some(j) => Some(*j),
                    None => None,
                },
                en,
            ) == condition_list_of(list@, en),
            condition_list_of(list@, en) == match condition_list_of(list@.skip(i as int), en) {
                Ok(rest) => Ok(conditions_view(out@) + rest),
                Err(e) => Err(e),
            },
        decreases list@.len() - i,
    {
        let ghost rest = list@.skip(i as int);
        proof {
            assert(rest[0] == list@[i as int]);
            assert(rest.drop_first() =~= list@.skip(i + 1));
        }
        let c = match parse_condition(&list[i], enchantments) {
            Ok(c) => c,
            Err(e) => {
                return Err(e);
            },
        };
        let ghost before = conditions_view(out@);
        let ghost cv = c@;
        out.push(c);
        proof {
            assert(conditions_view(out@) =~= before.push(cv));
            match condition_list_of(list@.skip(i + 1), en) {
                Ok(r) => {
                    assert(conditions_view(out@) + r =~= before + (seq![cv] + r));
                },
                Err(e) => {},
            }
        }
        i = i + 1;
    }
    proof {
        assert(list@.skip(list@.len() as int) =~= Seq::<Json>::empty());
        assert(conditions_view(out@) + Seq::<ConditionView>::empty() =~= conditions_view(out@));
    }
    Ok(out)
}

// ---------------------------------------------------------------------------
// Entries, pools and tables

/// What an entry drops: an item, or the loot of the first of its children
/// that applies.
#[derive(Debug, PartialEq, Eq)]
pub enum LootEntryContent {
    Item(String),
    Alternatives(Vec<LootEntry>),
}

/// An entry of a pool, with its weight and quality for the pool's draw.
#[derive(Debug, PartialEq, Eq)]
pub struct LootEntry {
    pub content: LootEntryContent,
    pub weight: i32,
    pub quality: i32,
    pub conditions: Vec<LootCondition>,
}

pub enum ContentView {
    Item(Seq<char>),
    Alternatives(Seq<EntryView>),
}

pub struct EntryView {
    pub content: ContentView,
    pub weight: i32,
    pub quality: i32,
    pub conditions: Seq<ConditionView>,
}

pub open spec fn entry_view(e: LootEntry) -> EntryView
    decreases e, 0nat,
{
    EntryView {
        content: match e.content {
            LootEntryContent::Item(i) => ContentView::Item(i@),
            LootEntryContent::Alternatives(children) => {
                proof {
                    broadcast use vstd::std_specs::vec::axiom_vec_decreases_to_view;

                    assert(decreases_to!(e => e.content));
                    assert(decreases_to!(e.content => (e.content)->Alternatives_0));
                    assert(decreases_to!(children => children@));
                }
                ContentView::Alternatives(entry_views(children@))
            },
        },
        weight: e.weight,
        quality: e.quality,
        conditions: conditions_view(e.conditions@),
    }
}

pub open spec fn entry_views(s: Seq<LootEntry>) -> Seq<EntryView>
    decreases s, 1nat,
{
    if s.len() == 0 {
        Seq::empty()
    } else {
        proof {
            vstd::seq::axiom_seq_len_decreases(s, s.drop_first());
        }
        seq![entry_view(s[0])] + entry_views(s.drop_first())
    }
}

impl View for LootEntry {
    type V = EntryView;

    open spec fn view(&self) -> EntryView {
        entry_view(*self)
    }
}

/// An integer field: `default` when absent, else a 32-bit integer.
pub open spec fn int_field_of(f: Seq<(String, Json)>, key: Seq<char>, default: i32) -> Option<i32> {
    match field_of(f, key) {
        None => Some(default),
        Some(j) => as_i32(j),
    }
}

/// An item entry names a registered item of the `minecraft` namespace.
pub open spec fn item_content_of(f: Seq<(String, Json)>, items: Seq<Seq<char>>) -> Result<ContentView, LootErrorView> {
    match as_str(field_of(f, "name"@)) {
        None => Err(LootErrorView::MissingItemName),
        Some(raw) => match strip_prefix(raw, "minecraft:"@) {
            None => Err(LootErrorView::NotMinecraftItem(raw)),
            Some(name) => if items.contains(name) {
                Ok(ContentView::Item(name))
            } else {
                Err(LootErrorView::UnknownItem(raw))
            },
        },
    }
}

pub open spec fn entry_fields() -> Seq<Seq<char>> {
    seq!["type"@, "name"@, "children"@, "conditions"@, "functions"@, "weight"@, "quality"@]
}

/// A loot entry: an `item` or `alternatives` with children, with optional
/// weight, quality and conditions.
pub open spec fn entry_of(v: Json, items: Seq<Seq<char>>, enchantments: Seq<Seq<char>>) -> Result<
    EntryView,
    LootErrorView,
>
    decreases v, 0nat,
{
    match v {
        Json::Object(f) => match first_unknown(f@, entry_fields()) {
            Some(x) => Err(LootErrorView::UnsupportedField(LootPart::Entry, x)),
            None => if functions_given(f@) {
                Err(LootErrorView::FunctionsUnsupported(LootPart::Entry))
            } else {
                match as_str(field_of(f@, "type"@)) {
                    None => Err(LootErrorView::MissingEntryType),
                    Some(kind) => {
                        let content = if kind == "minecraft:item"@ {
                            item_content_of(f@, items)
                        } else if kind == "minecraft:alternatives"@ {
                            match field_index(f@, "children"@) {
                                Some(i) => if 0 <= i < f@.len() {
                                    match f@[i].1 {
                                        Json::Array(children) => {
                                            proof {
                                                broadcast use vstd::std_specs::vec::axiom_vec_decreases_to_view;

                                                lemma_field_decreases(v, f, "children"@);
                                                assert(decreases_to!(f@[i].1 => (f@[i].1)->Array_0));
                                                assert(decreases_to!(children => children@));
                                            }
                                            match entries_of(children@, items, enchantments) {
                                                Err(e) => Err(e),
                                                Ok(es) => Ok(ContentView::Alternatives(es)),
                                            }
                                        },
                                        _ => Err(LootErrorView::MissingChildren),
                                    }
                                } else {
                                    Err(LootErrorView::MissingChildren)
                                },
                                None => Err(LootErrorView::MissingChildren),
                            }
                        } else {
                            Err(LootErrorView::UnsupportedEntryType(kind))
                        };
                        match content {
                            Err(e) => Err(e),
                            Ok(c) => match int_field_of(f@, "weight"@, 1) {
                                None => Err(LootErrorView::BadEntryInteger(EntryField::Weight)),
                                Some(w) => match int_field_of(f@, "quality"@, 0) {
                                    None => Err(LootErrorView::BadEntryInteger(EntryField::Quality)),
                                    Some(q) => match conditions_of(field_of(f@, "conditions"@), enchantments) {
                                        Err(e) => Err(e),
                                        Ok(cs) => Ok(EntryView { content: c, weight: w, quality: q, conditions: cs }),
                                    },
                                },
                            },
                        }
                    },
                }
            },
        },
        _ => Err(LootErrorView::EntryNotObject),
    }
}

/// The entries of a list, the first that does not read being the error.
pub open spec fn entries_of(list: Seq<Json>, items: Seq<Seq<char>>, enchantments: Seq<Seq<char>>) -> Result<
    Seq<EntryView>,
    LootErrorView,
>
    decreases list, 1nat,
{
    if list.len() == 0 {
        Ok(Seq::empty())
    } else {
        proof {
            vstd::seq::axiom_seq_len_decreases(list, list.drop_first());
        }
        match entry_of(list[0], items, enchantments) {
            Err(e) => Err(e),
            Ok(e0) => match entries_of(list.drop_first(), items, enchantments) {
                Err(e) => Err(e),
                Ok(rest) => Ok(seq![e0] + rest),
            },
        }
    }
}

pub open spec fn entries_view(v: Seq<LootEntry>) -> Seq<EntryView> {
    v.map_values(|e: LootEntry| e@)
}

fn parse_item_content(f: &Vec<(String, Json)>, items: &Vec<String>) -> (r: Result<LootEntryContent, LootError>)
    ensures
        match r {
            Ok(LootEntryContent::Item(i)) => item_content_of(f@, names_view(items@)) == Ok::<
                ContentView,
                LootErrorView,
            >(ContentView::Item(i@)),
            Ok(_) => false,
            Err(e) => item_content_of(f@, names_view(items@)) == Err::<ContentView, LootErrorView>(e@),
        },
{
    let raw = match get_str(f, "name") {
        Some(raw) => raw,
        None => {
            return Err(LootError::MissingItemName);
        },
    };
    let name = match strip_prefix_str(raw.as_str(), "minecraft:") {
        Some(name) => name,
        None => {
            return Err(LootError::NotMinecraftItem(raw.clone()));
        },
    };
    if contains_name(items, &name) {
        Ok(LootEntryContent::Item(name))
    } else {
        Err(LootError::UnknownItem(raw.clone()))
    }
}

fn parse_i32_field(f: &Vec<(String, Json)>, key: &str, default: i32) -> (r: Option<i32>)
    ensures
        r == int_field_of(f@, key@, default),
{
    match get_field(f, key) {
        None => Some(default),
        Some(j) => json_i32(j),
    }
}

/// Reads a loot entry; see [`entry_of`]. `items` are the registered item
/// keys and `enchantments` the registered enchantment names.
pub fn parse_entry(v: &Json, items: &Vec<String>, enchantments: &Vec<String>) -> (r: Result<LootEntry, LootError>)
    ensures
        lresult(r) == entry_of(*v, names_view(items@), names_view(enchantments@)),
    decreases v,
{
    let f = match v {
        Json::Object(f) => f,
        _ => {
            return Err(LootError::EntryNotObject);
        },
    };
    let allowed = vec!["type", "name", "children", "conditions", "functions", "weight", "quality"];
    assert(strs_view(allowed@) =~= entry_fields());
    if let Some(x) = unknown_field(f, &allowed) {
        return Err(LootError::UnsupportedField(LootPart::Entry, x));
    }
    if has_functions(f) {
        return Err(LootError::FunctionsUnsupported(LootPart::Entry));
    }
    let kind = match get_str(f, "type") {
        Some(kind) => kind,
        None => {
            return Err(LootError::MissingEntryType);
        },
    };
    let ghost it = names_view(items@);
    let ghost en = names_view(enchantments@);
    let content = if str_eq(kind.as_str(), "minecraft:item") {
        match parse_item_content(f, items) {
            Ok(c) => c,
            Err(e) => {
                return Err(e);
            },
        }
    } else if str_eq(kind.as_str(), "minecraft:alternatives") {
        proof {
            lemma_field_index(f@, "children"@);
        }
        let children = match get_field(f, "children") {
            Some(Json::Array(children)) => children,
            _ => {
                return Err(LootError::MissingChildren);
            },
        };
        proof {
            lemma_field_decreases(*v, *f, "children"@);
        }
        let ghost cj = Json::Array(*children);
        let mut out: Vec<LootEntry> = Vec::new();
        let mut i: usize = 0;
        assert(children@.skip(0) =~= children@);
        while i < children.len()
            invariant
                i <= children@.len(),
                it == names_view(items@),
                en == names_view(enchantments@),
                cj == Json::Array(*children),
                decreases_to!(*v => cj),
                entries_of(children@, it, en) is Err ==> entry_of(*v, it, en) == Err::<EntryView, LootErrorView>(
                    entries_of(children@, it, en)->Err_0,
                ),
                entries_of(children@, it, en) == match entries_of(children@.skip(i as int), it, en) {
                    Ok(rest) => Ok(entries_view(out@) + rest),
                    Err(e) => Err(e),
                },
            decreases children@.len() - i,
        {
            let ghost rest = children@.skip(i as int);
            proof {
                assert(rest[0] == children@[i as int]);
                assert(rest.drop_first() =~= children@.skip(i + 1));
                lemma_item_decreases(cj, *children, i as int);
            }
            let e = match parse_entry(&children[i], items, enchantments) {
                Ok(e) => e,
                Err(err) => {
                    return Err(err);
                },
            };
            let ghost before = entries_view(out@);
            let ghost ev = e@;
            out.push(e);
            proof {
                assert(entries_view(out@) =~= before.push(ev));
                match entries_of(children@.skip(i + 1), it, en) {
                    Ok(r) => {
                        assert(entries_view(out@) + r =~= before + (seq![ev] + r));
                    },
                    Err(err) => {},
                }
            }
            i = i + 1;
        }
        proof {
            assert(children@.skip(children@.len() as int) =~= Seq::<Json>::empty());
            assert(entries_view(out@) + Seq::<EntryView>::empty() =~= entries_view(out@));
            lemma_entry_views(out@);
        }
        LootEntryContent::Alternatives(out)
    } else {
        return Err(LootError::UnsupportedEntryType(kind.clone()));
    };
    let weight = match parse_i32_field(f, "weight", 1) {
        Some(w) => w,
        None => {
            return Err(LootError::BadEntryInteger(EntryField::Weight));
        },
    };
    let quality = match parse_i32_field(f, "quality", 0) {
        Some(q) => q,
        None => {
            return Err(LootError::BadEntryInteger(EntryField::Quality));
        },
    };
    let conditions = match parse_conditions(get_field(f, "conditions"), enchantments) {
        Ok(c) => c,
        Err(e) => {
            return Err(e);
        },
    };
    Ok(LootEntry { content, weight, quality, conditions })
}

/// The views of a list of entries, one by one.
proof fn lemma_entry_views(s: Seq<LootEntry>)
    ensures
        entry_views(s) == entries_view(s),
    decreases s.len(),
{
    if s.len() > 0 {
        lemma_entry_views(s.drop_first());
        assert(entries_view(s) =~= seq![entry_view(s[0])] + entries_view(s.drop_first()));
    }
}

/// A pool of a loot table: its numbers of rolls, as the JSON numbers
/// given, its entries and its conditions.
#[derive(Debug, PartialEq)]
pub struct LootPool {
    pub rolls: Json,
    pub bonus_rolls: Option<Json>,
    pub entries: Vec<LootEntry>,
    pub conditions: Vec<LootCondition>,
}

pub struct PoolView {
    pub rolls: JsonView,
    pub bonus_rolls: Option<JsonView>,
    pub entries: Seq<EntryView>,
    pub conditions: Seq<ConditionView>,
}

impl View for LootPool {
    type V = PoolView;

    open spec fn view(&self) -> PoolView {
        PoolView {
            rolls: self.rolls@,
            bonus_rolls: match self.bonus_rolls {
                Some(b) => Some(b@),
                None => None,
            },
            entries: entries_view(self.entries@),
            conditions: conditions_view(self.conditions@),
        }
    }
}

/// A number that can be a number of rolls: a non-negative integer, or a
/// fractional number, whose sign and range the caller checks when it turns
/// it into a number of rolls.
pub open spec fn rolls_number(j: Json) -> bool {
    match j {
        Json::Int(n) => n >= 0,
        Json::Unsigned(..) => true,
        Json::FloatBits(..) => true,
        _ => false,
    }
}

fn is_rolls_number(j: &Json) -> (r: bool)
    ensures
        r == rolls_number(*j),
{
    match j {
        Json::Int(n) => *n >= 0,
        Json::Unsigned(..) => true,
        Json::FloatBits(..) => true,
        _ => false,
    }
}

pub open spec fn pool_fields() -> Seq<Seq<char>> {
    seq!["rolls"@, "bonus_rolls"@, "entries"@, "conditions"@, "functions"@]
}

/// A pool: `rolls`, optional `bonus_rolls`, `entries` and `conditions`.
pub open spec fn pool_of(v: Json, items: Seq<Seq<char>>, enchantments: Seq<Seq<char>>) -> Result<PoolView, LootErrorView> {
    match v {
        Json::Object(f) => match first_unknown(f@, pool_fields()) {
            Some(x) => Err(LootErrorView::UnsupportedField(LootPart::Pool, x)),
            None => if functions_given(f@) {
                Err(LootErrorView::FunctionsUnsupported(LootPart::Pool))
            } else {
                match field_of(f@, "rolls"@) {
                    None => Err(LootErrorView::MissingRolls),
                    Some(rolls) => if !rolls_number(rolls) {
                        Err(LootErrorView::BadRolls(RollsField::Rolls))
                    } else if field_of(f@, "bonus_rolls"@) matches Some(b) && !rolls_number(b) {
                        Err(LootErrorView::BadRolls(RollsField::BonusRolls))
                    } else {
                        match field_of(f@, "entries"@) {
                            Some(Json::Array(list)) => match entries_of(list@, items, enchantments) {
                                Err(e) => Err(e),
                                Ok(entries) => match conditions_of(field_of(f@, "conditions"@), enchantments) {
                                    Err(e) => Err(e),
                                    Ok(conditions) => Ok(
                                        PoolView {
                                            rolls: rolls@,
                                            bonus_rolls: match field_of(f@, "bonus_rolls"@) {
                                                Some(b) => Some(b@),
                                                None => None,
                                            },
                                            entries,
                                            conditions,
                                        },
                                    ),
                                },
                            },
                            _ => Err(LootErrorView::MissingEntries),
                        }
                    },
                }
            },
        },
        _ => Err(LootErrorView::PoolNotObject),
    }
}

fn parse_entries(list: &Vec<Json>, items: &Vec<String>, enchantments: &Vec<String>) -> (r: Result<Vec<LootEntry>, LootError>)
    ensures
        match r {
            Ok(v) => entries_of(list@, names_view(items@), names_view(enchantments@)) == Ok::<
                Seq<EntryView>,
                LootErrorView,
            >(entries_view(v@)),
            Err(e) => entries_of(list@, names_view(items@), names_view(enchantments@)) == Err::<
                Seq<EntryView>,
                LootErrorView,
            >(e@),
        },
{
    let ghost it = names_view(items@);
    let ghost en = names_view(enchantments@);
    let mut out: Vec<LootEntry> = Vec::new();
    let mut i: usize = 0;
    assert(list@.skip(0) =~= list@);
    while i < list.len()
        invariant
            i <= list@.len(),
            it == names_view(items@),
            en == names_view(enchantments@),
            entries_of(list@, it, en) == match entries_of(list@.skip(i as int), it, en) {
                Ok(rest) => Ok(entries_view(out@) + rest),
                Err(e) => Err(e),
            },
        decreases list@.len() - i,
    {
        let ghost rest = list@.skip(i as int);
        proof {
            assert(rest[0] == list@[i as int]);
            assert(rest.drop_first() =~= list@.skip(i + 1));
        }
        let e = match parse_entry(&list[i], items, enchantments) {
            Ok(e) => e,
            Err(err) => {
                return Err(err);
            },
        };
        let ghost before = entries_view(out@);
        let ghost ev = e@;
        out.push(e);
        proof {
            assert(entries_view(out@) =~= before.push(ev));
            match entries_of(list@.skip(i + 1), it, en) {
                Ok(r) => {
                    assert(entries_view(out@) + r =~= before + (seq![ev] + r));
                },
                Err(err) => {},
            }
        }
        i = i + 1;
    }
    proof {
        assert(list@.skip(list@.len() as int) =~= Seq::<Json>::empty());
        assert(entries_view(out@) + Seq::<EntryView>::empty() =~= entries_view(out@));
    }
    Ok(out)
}

/// Reads a loot pool; see [`pool_of`].
pub fn parse_pool(v: &Json, items: &Vec<String>, enchantments: &Vec<String>) -> (r: Result<LootPool, LootError>)
    ensures
        lresult(r) == pool_of(*v, names_view(items@), names_view(enchantments@)),
{
    let f = match v {
        Json::Object(f) => f,
        _ => {
            return Err(LootError::PoolNotObject);
        },
    };
    let allowed = vec!["rolls", "bonus_rolls", "entries", "conditions", "functions"];
    assert(strs_view(allowed@) =~= pool_fields());
    if let Some(x) = unknown_field(f, &allowed) {
        return Err(LootError::UnsupportedField(LootPart::Pool, x));
    }
    if has_functions(f) {
        return Err(LootError::FunctionsUnsupported(LootPart::Pool));
    }
    let rolls = match get_field(f, "rolls") {
        Some(rolls) => rolls,
        None => {
            return Err(LootError::MissingRolls);
        },
    };
    if !is_rolls_number(rolls) {
        return Err(LootError::BadRolls(RollsField::Rolls));
    }
    let bonus = get_field(f, "bonus_rolls");
    if let Some(b) = bonus {
        if !is_rolls_number(b) {
            return Err(LootError::BadRolls(RollsField::BonusRolls));
        }
    }
    let entries = match get_field(f, "entries") {
        Some(Json::Array(list)) => match parse_entries(list, items, enchantments) {
            Ok(entries) => entries,
            Err(e) => {
                return Err(e);
            },
        },
        _ => {
            return Err(LootError::MissingEntries);
        },
    };
    let conditions = match parse_conditions(get_field(f, "conditions"), enchantments) {
        Ok(c) => c,
        Err(e) => {
            return Err(e);
        },
    };
    let bonus_rolls = match bonus {
        Some(b) => Some(b.clone_json()),
        None => None,
    };
    Ok(LootPool { rolls: rolls.clone_json(), bonus_rolls, entries, conditions })
}

/// A block loot table.
#[derive(Debug, PartialEq)]
pub struct BlockLootTable {
    pub pools: Vec<LootPool>,
}

pub open spec fn pools_view(v: Seq<LootPool>) -> Seq<PoolView> {
    v.map_values(|p: LootPool| p@)
}

/// The pools of a list, the first that does not read being the error.
pub open spec fn pools_of(list: Seq<Json>, items: Seq<Seq<char>>, enchantments: Seq<Seq<char>>) -> Result<
    Seq<PoolView>,
    LootErrorView,
>
    decreases list.len(),
{
    if list.len() == 0 {
        Ok(Seq::empty())
    } else {
        match pool_of(list[0], items, enchantments) {
            Err(e) => Err(e),
            Ok(p) => match pools_of(list.drop_first(), items, enchantments) {
                Err(e) => Err(e),
                Ok(rest) => Ok(seq![p] + rest),
            },
        }
    }
}

/// A block loot table: an object whose `type`, when it is a string, is
/// `minecraft:block`, with a list of `pools`.
pub open spec fn table_of(root: Json, items: Seq<Seq<char>>, enchantments: Seq<Seq<char>>) -> Result<
    Seq<PoolView>,
    LootErrorView,
> {
    match root {
        Json::Object(f) => match first_unknown(f@, seq!["type"@, "pools"@, "random_sequence"@]) {
            Some(x) => Err(LootErrorView::UnsupportedField(LootPart::Table, x)),
            None => if as_str(field_of(f@, "type"@)) matches Some(k) && k != "minecraft:block"@ {
                Err(LootErrorView::NotBlockTable)
            } else {
                match field_of(f@, "pools"@) {
                    Some(Json::Array(list)) => pools_of(list@, items, enchantments),
                    _ => Err(LootErrorView::MissingPools),
                }
            },
        },
        _ => Err(LootErrorView::TableNotObject),
    }
}

/// Reads a block loot table; see [`table_of`].
pub fn parse_block_loot_table(root: &Json, items: &Vec<String>, enchantments: &Vec<String>) -> (r: Result<
    BlockLootTable,
    LootError,
>)
    ensures
        match r {
            Ok(t) => table_of(*root, names_view(items@), names_view(enchantments@)) == Ok::<
                Seq<PoolView>,
                LootErrorView,
            >(pools_view(t.pools@)),
            Err(e) => table_of(*root, names_view(items@), names_view(enchantments@)) == Err::<
                Seq<PoolView>,
                LootErrorView,
            >(e@),
        },
{
    let f = match root {
        Json::Object(f) => f,
        _ => {
            return Err(LootError::TableNotObject);
        },
    };
    let allowed = vec!["type", "pools", "random_sequence"];
    assert(strs_view(allowed@) =~= seq!["type"@, "pools"@, "random_sequence"@]);
    if let Some(x) = unknown_field(f, &allowed) {
        return Err(LootError::UnsupportedField(LootPart::Table, x));
    }
    if let Some(k) = get_str(f, "type") {
        if !str_eq(k.as_str(), "minecraft:block") {
            return Err(LootError::NotBlockTable);
        }
    }
    let list = match get_field(f, "pools") {
        Some(Json::Array(list)) => list,
        _ => {
            return Err(LootError::MissingPools);
        },
    };
    let ghost it = names_view(items@);
    let ghost en = names_view(enchantments@);
    let mut pools: Vec<LootPool> = Vec::new();
    let mut i: usize = 0;
    assert(list@.skip(0) =~= list@);
    while i < list.len()
        invariant
            i <= list@.len(),
            it == names_view(items@),
            en == names_view(enchantments@),
            table_of(*root, it, en) == pools_of(list@, it, en),
            pools_of(list@, it, en) == match pools_of(list@.skip(i as int), it, en) {
                Ok(rest) => Ok(pools_view(pools@) + rest),
                Err(e) => Err(e),
            },
        decreases list@.len() - i,
    {
        let ghost rest = list@.skip(i as int);
        proof {
            assert(rest[0] == list@[i as int]);
            assert(rest.drop_first() =~= list@.skip(i + 1));
        }
        let p = match parse_pool(&list[i], items, enchantments) {
            Ok(p) => p,
            Err(err) => {
                return Err(err);
            },
        };
        let ghost before = pools_view(pools@);
        let ghost pv = p@;
        pools.push(p);
        proof {
            assert(pools_view(pools@) =~= before.push(pv));
            match pools_of(list@.skip(i + 1), it, en) {
                Ok(r) => {
                    assert(pools_view(pools@) + r =~= before + (seq![pv] + r));
                },
                Err(err) => {},
            }
        }
        i = i + 1;
    }
    proof {
        assert(list@.skip(list@.len() as int) =~= Seq::<Json>::empty());
        assert(pools_view(pools@) + Seq::<PoolView>::empty() =~= pools_view(pools@));
    }
    Ok(BlockLootTable { pools })
}

// ---------------------------------------------------------------------------
// Drops

/// The tool used, by the levels of its enchantments.
pub struct LootTool {
    pub enchantments: Vec<(String, i32)>,
}

pub open spec fn levels_view(v: Seq<(String, i32)>) -> Seq<(Seq<char>, i32)> {
    v.map_values(|e: (String, i32)| (e.0@, e.1))
}

pub open spec fn tool_view(tool: Option<&LootTool>) -> Option<Seq<(Seq<char>, i32)>> {
    match tool {
        Some(t) => Some(levels_view(t.enchantments@)),
        None => None,
    }
}

/// The level of `name` on a tool: the first level given for it, else zero.
pub open spec fn level_of(levels: Seq<(Seq<char>, i32)>, name: Seq<char>) -> i32
    decreases levels.len(),
{
    if levels.len() == 0 {
        0
    } else if levels[0].0 == name {
        levels[0].1
    } else {
        level_of(levels.drop_first(), name)
    }
}

/// One of the requirement's enchantments is on the tool at a level in its
/// range.
pub open spec fn requirement_met(r: RequirementView, levels: Seq<(Seq<char>, i32)>) -> bool {
    exists|k: int|
        0 <= k < r.enchantments.len() && r.min_level <= #[trigger] level_of(levels, r.enchantments[k]) && (
        r.max_level matches Some(m) ==> level_of(levels, r.enchantments[k]) <= m)
}

/// The tool meets every requirement.
pub open spec fn all_met(reqs: Seq<RequirementView>, levels: Seq<(Seq<char>, i32)>) -> bool {
    forall|k: int| 0 <= k < reqs.len() ==> requirement_met(#[trigger] reqs[k], levels)
}

pub open spec fn condition_holds(c: ConditionView, tool: Option<Seq<(Seq<char>, i32)>>) -> bool
    decreases c,
{
    match c {
        ConditionView::Inverted(term) => !condition_holds(*term, tool),
        ConditionView::MatchTool(reqs) => match tool {
            Some(levels) => all_met(reqs, levels),
            None => false,
        },
    }
}

pub open spec fn conditions_hold(cs: Seq<ConditionView>, tool: Option<Seq<(Seq<char>, i32)>>) -> bool {
    forall|k: int| 0 <= k < cs.len() ==> condition_holds(#[trigger] cs[k], tool)
}

/// What an entry drops for a tool: nothing when its conditions fail;
/// otherwise its item, or the drop of the first child that drops anything,
/// or no items at all.
pub open spec fn entry_loot(e: EntryView, tool: Option<Seq<(Seq<char>, i32)>>) -> Option<Seq<Seq<char>>>
    decreases e, 0nat,
{
    if !conditions_hold(e.conditions, tool) {
        None
    } else {
        match e.content {
            ContentView::Item(i) => Some(seq![i]),
            ContentView::Alternatives(children) => {
                proof {
                    assert(decreases_to!(e => e.content));
                    assert(decreases_to!(e.content => (e.content)->Alternatives_0));
                }
                first_loot(children, tool)
            },
        }
    }
}

pub open spec fn first_loot(children: Seq<EntryView>, tool: Option<Seq<(Seq<char>, i32)>>) -> Option<Seq<Seq<char>>>
    decreases children, 1nat,
{
    if children.len() == 0 {
        Some(Seq::empty())
    } else {
        proof {
            vstd::seq::axiom_seq_len_decreases(children, children.drop_first());
        }
        match entry_loot(children[0], tool) {
            Some(l) => Some(l),
            None => first_loot(children.drop_first(), tool),
        }
    }
}

/// A tool's level of an enchantment is the level of its first entry for
/// that enchantment, and 0 when it has none.
pub proof fn lemma_level_of(levels: Seq<(Seq<char>, i32)>, name: Seq<char>)
    ensures
        (forall|i: int| 0 <= i < levels.len() ==> (#[trigger] levels[i]).0 != name) ==> level_of(levels, name) == 0,
        forall|j: int|
            0 <= j < levels.len() && (#[trigger] levels[j]).0 == name && (forall|i: int|
                0 <= i < j ==> (#[trigger] levels[i]).0 != name) ==> level_of(levels, name) == levels[j].1,
    decreases levels.len(),
{
    if levels.len() > 0 {
        let rest = levels.drop_first();
        lemma_level_of(rest, name);
        assert forall|i: int| 0 <= i < rest.len() implies rest[i] == levels[i + 1] by {}
        if levels[0].0 != name {
            if forall|i: int| 0 <= i < levels.len() ==> (#[trigger] levels[i]).0 != name {
                assert forall|i: int| 0 <= i < rest.len() implies (#[trigger] rest[i]).0 != name by {
                    assert(levels[i + 1].0 != name);
                }
            }
            assert forall|j: int|
                0 <= j < levels.len() && (#[trigger] levels[j]).0 == name && (forall|i: int|
                    0 <= i < j ==> (#[trigger] levels[i]).0 != name) implies level_of(levels, name) == levels[j].1 by {
                assert(rest[j - 1].0 == name);
                assert forall|i: int| 0 <= i < j - 1 implies (#[trigger] rest[i]).0 != name by {
                    assert(levels[i + 1].0 != name);
                }
            }
        } else {
            assert forall|j: int|
                0 <= j < levels.len() && (#[trigger] levels[j]).0 == name && (forall|i: int|
                    0 <= i < j ==> (#[trigger] levels[i]).0 != name) implies level_of(levels, name) == levels[j].1 by {
                if j > 0 {
                    assert(levels[0].0 != name);
                }
            }
        }
    }
}

/// A tool condition on one enchantment with a least level holds exactly
/// when the tool has that enchantment at that level or above; without a
/// tool it never holds; and an inverted condition holds exactly when the
/// inner one fails.
pub proof fn lemma_tool_condition(c: ConditionView, name: Seq<char>, min_level: i32, tool: Option<Seq<(Seq<char>, i32)>>)
    ensures
        condition_holds(ConditionView::Inverted(Box::new(c)), tool) <==> !condition_holds(c, tool),
        ({
            let one = ConditionView::MatchTool(seq![RequirementView { enchantments: seq![name], min_level, max_level: None }]);
            &&& tool is None ==> !condition_holds(one, tool)
            &&& tool matches Some(levels) ==> (condition_holds(one, tool) <==> min_level <= level_of(levels, name))
        }),
{
    let r = RequirementView { enchantments: seq![name], min_level, max_level: None };
    if let Some(levels) = tool {
        if min_level <= level_of(levels, name) {
            assert(r.enchantments[0] == name);
            assert(requirement_met(r, levels));
            assert(all_met(seq![r], levels));
        }
        if all_met(seq![r], levels) {
            assert(requirement_met(seq![r][0], levels));
        }
    }
}

/// What the children of an alternatives entry drop: the drop of the first
/// child that drops anything, every child before it dropping nothing; and
/// no items when every child drops nothing.
pub proof fn lemma_first_loot(children: Seq<EntryView>, tool: Option<Seq<(Seq<char>, i32)>>)
    ensures
        first_loot(children, tool) is Some,
        (forall|i: int| 0 <= i < children.len() ==> #[trigger] entry_loot(children[i], tool) is None) ==> first_loot(
            children,
            tool,
        ) == Some(Seq::<Seq<char>>::empty()),
        forall|k: int|
            0 <= k < children.len() && #[trigger] entry_loot(children[k], tool) is Some && (forall|i: int|
                0 <= i < k ==> #[trigger] entry_loot(children[i], tool) is None) ==> first_loot(children, tool)
                == entry_loot(children[k], tool),
    decreases children.len(),
{
    if children.len() > 0 {
        let rest = children.drop_first();
        lemma_first_loot(rest, tool);
        assert forall|i: int| 0 <= i < rest.len() implies rest[i] == children[i + 1] by {}
        if entry_loot(children[0], tool) is None {
            if forall|i: int| 0 <= i < children.len() ==> #[trigger] entry_loot(children[i], tool) is None {
                assert forall|i: int| 0 <= i < rest.len() implies #[trigger] entry_loot(rest[i], tool) is None by {
                    assert(entry_loot(children[i + 1], tool) is None);
                }
            }
            assert forall|k: int|
                0 <= k < children.len() && #[trigger] entry_loot(children[k], tool) is Some && (forall|i: int|
                    0 <= i < k ==> #[trigger] entry_loot(children[i], tool) is None) implies first_loot(children, tool)
                == entry_loot(children[k], tool) by {
                assert(k >= 1);
                assert(entry_loot(rest[k - 1], tool) is Some);
                assert forall|i: int| 0 <= i < k - 1 implies #[trigger] entry_loot(rest[i], tool) is None by {
                    assert(entry_loot(children[i + 1], tool) is None);
                }
            }
        } else {
            assert forall|k: int|
                0 <= k < children.len() && #[trigger] entry_loot(children[k], tool) is Some && (forall|i: int|
                    0 <= i < k ==> #[trigger] entry_loot(children[i], tool) is None) implies first_loot(children, tool)
                == entry_loot(children[k], tool) by {
                if k > 0 {
                    assert(entry_loot(children[0], tool) is None);
                }
            }
        }
    }
}

/// An alternatives entry whose conditions hold and whose first child drops
/// nothing drops what its other children, taken as an alternatives entry
/// with the same conditions, drop; an entry whose conditions fail drops
/// nothing, and an item entry whose conditions hold drops its one item.
pub proof fn lemma_entry_loot(e: EntryView, tool: Option<Seq<(Seq<char>, i32)>>)
    ensures
        !conditions_hold(e.conditions, tool) ==> entry_loot(e, tool) is None,
        conditions_hold(e.conditions, tool) ==> entry_loot(e, tool) is Some,
        conditions_hold(e.conditions, tool) && e.content is Item ==> entry_loot(e, tool) == Some(
            seq![e.content->Item_0],
        ),
        conditions_hold(e.conditions, tool) && e.content is Alternatives && e.content->Alternatives_0.len() > 0
            && entry_loot(e.content->Alternatives_0[0], tool) is None ==> entry_loot(e, tool) == entry_loot(
            EntryView { content: ContentView::Alternatives(e.content->Alternatives_0.drop_first()), ..e },
            tool,
        ),
{
    if let ContentView::Alternatives(children) = e.content {
        lemma_first_loot(children, tool);
    }
}

fn tool_level(tool: &LootTool, name: &String) -> (r: i32)
    ensures
        r == level_of(levels_view(tool.enchantments@), name@),
{
    let ghost lv = levels_view(tool.enchantments@);
    let mut i: usize = 0;
    assert(lv.skip(0) =~= lv);
    while i < tool.enchantments.len()
        invariant
            i <= tool.enchantments@.len(),
            lv == levels_view(tool.enchantments@),
            level_of(lv, name@) == level_of(lv.skip(i as int), name@),
        decreases tool.enchantments@.len() - i,
    {
        let ghost rest = lv.skip(i as int);
        proof {
            assert(rest[0] == lv[i as int]);
            assert(rest.drop_first() =~= lv.skip(i + 1));
        }
        if crate::text::string_eq(&tool.enchantments[i].0, name) {
            return tool.enchantments[i].1;
        }
        i = i + 1;
    }
    0
}

impl EnchantmentRequirement {
    /// Whether the tool meets the requirement.
    pub fn met_by(&self, tool: &LootTool) -> (r: bool)
        ensures
            r == requirement_met(self@, levels_view(tool.enchantments@)),
    {
        let ghost lv = levels_view(tool.enchantments@);
        let mut k: usize = 0;
        while k < self.enchantments.len()
            invariant
                k <= self.enchantments@.len(),
                lv == levels_view(tool.enchantments@),
                forall|j: int|
                    0 <= j < k ==> !(self.min_level <= #[trigger] level_of(lv, self@.enchantments[j]) && (
                    self.max_level matches Some(m) ==> level_of(lv, self@.enchantments[j]) <= m)),
            decreases self.enchantments@.len() - k,
        {
            let level = tool_level(tool, &self.enchantments[k]);
            assert(self@.enchantments[k as int] == self.enchantments@[k as int]@);
            let in_range = self.min_level <= level && match self.max_level {
                Some(m) => level <= m,
                None => true,
            };
            if in_range {
                return true;
            }
            k = k + 1;
        }
        false
    }
}

impl LootCondition {
    /// Whether the condition holds for the tool used, if any.
    pub fn matches(&self, tool: Option<&LootTool>) -> (r: bool)
        ensures
            r == condition_holds(self@, tool_view(tool)),
        decreases self,
    {
        match self {
            LootCondition::Inverted(term) => !term.matches(tool),
            LootCondition::MatchToolEnchantments(reqs) => match tool {
                Some(t) => {
                    let mut k: usize = 0;
                    while k < reqs.len()
                        invariant
                            *self == LootCondition::MatchToolEnchantments(*reqs),
                            k <= reqs@.len(),
                            tool == Some(t),
                            forall|j: int|
                                0 <= j < k ==> requirement_met(
                                    #[trigger] requirements_view(reqs@)[j],
                                    levels_view(t.enchantments@),
                                ),
                        decreases reqs@.len() - k,
                    {
                        if !reqs[k].met_by(t) {
                            assert(!requirement_met(requirements_view(reqs@)[k as int], levels_view(t.enchantments@)));
                            assert(self@ == ConditionView::MatchTool(requirements_view(reqs@)));
                            assert(tool_view(tool) == Some(levels_view(t.enchantments@)));
                            assert(!all_met(requirements_view(reqs@), levels_view(t.enchantments@)));
                            assert(!condition_holds(self@, tool_view(tool)));
                            return false;
                        }
                        k = k + 1;
                    }
                    true
                },
                None => false,
            },
        }
    }
}

/// Whether every condition holds for the tool used, if any.
pub fn conditions_match(conditions: &Vec<LootCondition>, tool: Option<&LootTool>) -> (r: bool)
    ensures
        r == conditions_hold(conditions_view(conditions@), tool_view(tool)),
{
    let ghost cv = conditions_view(conditions@);
    let mut k: usize = 0;
    while k < conditions.len()
        invariant
            k <= conditions@.len(),
            cv == conditions_view(conditions@),
            forall|j: int| 0 <= j < k ==> condition_holds(#[trigger] cv[j], tool_view(tool)),
        decreases conditions@.len() - k,
    {
        if !conditions[k].matches(tool) {
            assert(!condition_holds(cv[k as int], tool_view(tool)));
            return false;
        }
        k = k + 1;
    }
    true
}

pub open spec fn opt_names_view(v: Option<Vec<String>>) -> Option<Seq<Seq<char>>> {
    match v {
        Some(items) => Some(names_view(items@)),
        None => None,
    }
}

impl LootEntry {
    /// The items the entry drops for the tool used; see [`entry_loot`].
    pub fn get_loot(&self, tool: Option<&LootTool>) -> (r: Option<Vec<String>>)
        ensures
            opt_names_view(r) == entry_loot(self@, tool_view(tool)),
        decreases self,
    {
        if !conditions_match(&self.conditions, tool) {
            return None;
        }
        match &self.content {
            LootEntryContent::Item(item) => {
                let v = vec![item.clone()];
                assert(names_view(v@) =~= seq![item@]);
                Some(v)
            },
            LootEntryContent::Alternatives(children) => {
                let ghost cv = entries_view(children@);
                proof {
                    lemma_entry_views(children@);
                }
                let mut i: usize = 0;
                assert(cv.skip(0) =~= cv);
                while i < children.len()
                    invariant
                        self.content == LootEntryContent::Alternatives(*children),
                        i <= children@.len(),
                        cv == entries_view(children@),
                        entry_loot(self@, tool_view(tool)) == first_loot(cv, tool_view(tool)),
                        first_loot(cv, tool_view(tool)) == first_loot(cv.skip(i as int), tool_view(tool)),
                    decreases children@.len() - i,
                {
                    let ghost rest = cv.skip(i as int);
                    proof {
                        assert(rest[0] == cv[i as int]);
                        assert(rest.drop_first() =~= cv.skip(i + 1));
                        broadcast use vstd::std_specs::vec::axiom_vec_decreases_to_view;

                        assert(decreases_to!(*self => self.content));
                        assert(decreases_to!(self.content => (self.content)->Alternatives_0));
                        assert(decreases_to!(*children => children@));
                        assert(decreases_to!(children@ => children@[i as int]));
                    }
                    match children[i].get_loot(tool) {
                        Some(loot) => {
                            return Some(loot);
                        },
                        None => {},
                    }
                    i = i + 1;
                }
                proof {
                    assert(cv.skip(cv.len() as int) =~= Seq::<EntryView>::empty());
                }
                let empty: Vec<String> = Vec::new();
                assert(names_view(empty@) =~= Seq::<Seq<char>>::empty());
                Some(empty)
            },
        }
    }
}

/// The sum of the first `k` weights.
pub open spec fn weight_prefix(weights: Seq<i32>, k: int) -> int
    decreases k,
{
    if k <= 0 {
        0
    } else {
        weight_prefix(weights, k - 1) + weights[k - 1]
    }
}

proof fn lemma_weight_prefix_monotonic(weights: Seq<i32>, j: int, k: int)
    requires
        0 <= j <= k <= weights.len(),
        forall|i: int| 0 <= i < weights.len() ==> #[trigger] weights[i] > 0,
    ensures
        weight_prefix(weights, j) <= weight_prefix(weights, k),
        j < k ==> weight_prefix(weights, j) < weight_prefix(weights, k),
    decreases k - j,
{
    if j < k {
        lemma_weight_prefix_monotonic(weights, j, k - 1);
    }
}

/// The entry that a draw picks among entries of positive weights: the one
/// whose share of the total, laid end to end in order, holds `choice`.
pub fn pick_weighted(weights: &Vec<i32>, choice: i32) -> (r: usize)
    requires
        forall|i: int| 0 <= i < weights@.len() ==> #[trigger] weights@[i] > 0,
        0 <= choice < weight_prefix(weights@, weights@.len() as int),
        weight_prefix(weights@, weights@.len() as int) <= i32::MAX,
    ensures
        r < weights@.len(),
        weight_prefix(weights@, r as int) <= choice < weight_prefix(weights@, r + 1),
{
    let mut i: usize = 0;
    let mut rest: i32 = choice;
    loop
        invariant
            forall|k: int| 0 <= k < weights@.len() ==> #[trigger] weights@[k] > 0,
            0 <= choice < weight_prefix(weights@, weights@.len() as int),
            i <= weights@.len(),
            rest == choice - weight_prefix(weights@, i as int),
            0 <= rest,
        decreases weights@.len() - i,
    {
        proof {
            lemma_weight_prefix_monotonic(weights@, i as int, weights@.len() as int);
        }
        if i == weights.len() {
            assert(false);
        }
        if rest < weights[i] {
            return i;
        }
        rest = rest - weights[i];
        i = i + 1;
    }
}

/// The positions among the first `n` entries that one roll can draw: those
/// whose conditions hold for the tool used and whose weight (the entry's,
/// scaled by luck, one per entry in `weights`) is positive, in order.
pub open spec fn candidate_positions(
    entries: Seq<EntryView>,
    weights: Seq<i32>,
    tool: Option<Seq<(Seq<char>, i32)>>,
    n: int,
) -> Seq<int>
    decreases n,
{
    if n <= 0 {
        Seq::empty()
    } else {
        candidate_positions(entries, weights, tool, n - 1) + if conditions_hold(entries[n - 1].conditions, tool)
            && weights[n - 1] > 0 {
            seq![n - 1]
        } else {
            Seq::empty()
        }
    }
}

/// The entries that one roll of a pool can draw, with their weights; see
/// [`candidate_positions`]. `weights` holds each entry's weight as scaled by
/// luck.
pub fn roll_candidates(entries: &Vec<LootEntry>, weights: &Vec<i32>, tool: Option<&LootTool>) -> (r: (
    Vec<usize>,
    Vec<i32>,
))
    requires
        weights@.len() == entries@.len(),
    ensures
        r.0@.map_values(|i: usize| i as int) == candidate_positions(
            entries_view(entries@),
            weights@,
            tool_view(tool),
            entries@.len() as int,
        ),
        r.1@.len() == r.0@.len(),
        forall|k: int| 0 <= k < r.1@.len() ==> #[trigger] r.1@[k] == weights@[r.0@[k] as int] && r.1@[k] > 0,
        forall|k: int| 0 <= k < r.0@.len() ==> #[trigger] r.0@[k] < entries@.len(),
{
    let ghost ev = entries_view(entries@);
    let mut positions: Vec<usize> = Vec::new();
    let mut chosen: Vec<i32> = Vec::new();
    let mut i: usize = 0;
    while i < entries.len()
        invariant
            i <= entries@.len(),
            weights@.len() == entries@.len(),
            ev == entries_view(entries@),
            positions@.map_values(|i: usize| i as int) == candidate_positions(ev, weights@, tool_view(tool), i as int),
            chosen@.len() == positions@.len(),
            forall|k: int|
                0 <= k < chosen@.len() ==> #[trigger] chosen@[k] == weights@[positions@[k] as int] && chosen@[k] > 0,
            forall|k: int| 0 <= k < positions@.len() ==> #[trigger] positions@[k] < i,
        decreases entries@.len() - i,
    {
        let ghost before = positions@.map_values(|i: usize| i as int);
        proof {
            assert(ev[i as int] == entries@[i as int]@);
        }
        if weights[i] > 0 && conditions_match(&entries[i].conditions, tool) {
            positions.push(i);
            chosen.push(weights[i]);
            proof {
                assert(positions@.map_values(|i: usize| i as int) =~= before.push(i as int));
            }
        } else {
            proof {
                assert(positions@.map_values(|i: usize| i as int) =~= before + Seq::<int>::empty());
            }
        }
        i = i + 1;
    }
    (positions, chosen)
}

/// The total of positive weights, which a draw is taken below: none when
/// it is zero, and none when it passes the largest `i32`, where the sum of
/// the weights cannot be taken.
pub fn total_weight(weights: &Vec<i32>) -> (r: Option<i32>)
    requires
        forall|i: int| 0 <= i < weights@.len() ==> #[trigger] weights@[i] > 0,
    ensures
        match r {
            Some(t) => t == weight_prefix(weights@, weights@.len() as int) && 0 < t,
            None => weight_prefix(weights@, weights@.len() as int) == 0 || weight_prefix(
                weights@,
                weights@.len() as int,
            ) > i32::MAX,
        },
{
    let mut sum: i64 = 0;
    let mut i: usize = 0;
    while i < weights.len()
        invariant
            i <= weights@.len(),
            forall|k: int| 0 <= k < weights@.len() ==> #[trigger] weights@[k] > 0,
            sum == weight_prefix(weights@, i as int),
            0 <= sum <= i32::MAX,
        decreases weights@.len() - i,
    {
        sum = sum + weights[i] as i64;
        i = i + 1;
        if sum > i32::MAX as i64 {
            proof {
                lemma_weight_prefix_monotonic(weights@, i as int, weights@.len() as int);
            }
            return None;
        }
    }
    if sum == 0 {
        return None;
    }
    Some(sum as i32)
}

/// The weights of the entries that one roll of `pool` can draw, in order.
pub open spec fn chosen_weights(pool: PoolView, weights: Seq<i32>, tool: Option<Seq<(Seq<char>, i32)>>) -> Seq<i32> {
    candidate_positions(pool.entries, weights, tool, pool.entries.len() as int).map_values(|i: int| weights[i])
}

/// The total weight a roll of `pool` draws below: none when the pool's
/// conditions fail for the tool, when nothing can be drawn, or when the
/// total passes the largest `i32`.
pub open spec fn pool_total(pool: PoolView, weights: Seq<i32>, tool: Option<Seq<(Seq<char>, i32)>>) -> Option<i32> {
    let t = weight_prefix(chosen_weights(pool, weights, tool), chosen_weights(pool, weights, tool).len() as int);
    if conditions_hold(pool.conditions, tool) && 0 < t <= i32::MAX {
        Some(t as i32)
    } else {
        None
    }
}

/// The position among the drawable entries whose share holds `draw`.
pub open spec fn picked(chosen: Seq<i32>, draw: i32) -> int {
    choose|k: int| 0 <= k < chosen.len() && #[trigger] weight_prefix(chosen, k) <= draw < weight_prefix(chosen, k + 1)
}

/// What one roll of `pool` with draw `draw` drops: the items of the entry
/// the draw picks, or nothing.
pub open spec fn roll_loot(pool: PoolView, weights: Seq<i32>, tool: Option<Seq<(Seq<char>, i32)>>, draw: i32) -> Seq<
    Seq<char>,
> {
    let c = candidate_positions(pool.entries, weights, tool, pool.entries.len() as int);
    match entry_loot(pool.entries[c[picked(chosen_weights(pool, weights, tool), draw)]], tool) {
        Some(items) => items,
        None => Seq::empty(),
    }
}

/// What the rolls of `pool` with draws `draws` drop, in order.
pub open spec fn draws_loot(pool: PoolView, weights: Seq<i32>, tool: Option<Seq<(Seq<char>, i32)>>, draws: Seq<i32>) -> Seq<
    Seq<char>,
>
    decreases draws.len(),
{
    if draws.len() == 0 {
        Seq::empty()
    } else {
        draws_loot(pool, weights, tool, draws.drop_last()) + roll_loot(pool, weights, tool, draws.last())
    }
}

/// What a table drops: for each pool whose conditions hold and that has
/// something to draw, the drops of its rolls, one roll per draw given for
/// it; `weights` holds each pool's entry weights as scaled by luck.
pub open spec fn table_loot(
    pools: Seq<PoolView>,
    weights: Seq<Seq<i32>>,
    tool: Option<Seq<(Seq<char>, i32)>>,
    draws: Seq<Seq<i32>>,
) -> Seq<Seq<char>>
    decreases pools.len(),
{
    if pools.len() == 0 {
        Seq::empty()
    } else {
        let n = pools.len() - 1;
        table_loot(pools.drop_last(), weights.take(n), tool, draws.take(n)) + if pool_total(
            pools[n],
            weights[n],
            tool,
        ) is Some {
            draws_loot(pools[n], weights[n], tool, draws[n])
        } else {
            Seq::empty()
        }
    }
}

pub open spec fn weight_rows(v: Seq<Vec<i32>>) -> Seq<Seq<i32>> {
    v.map_values(|w: Vec<i32>| w@)
}

proof fn lemma_picked(chosen: Seq<i32>, draw: i32, k: int)
    requires
        forall|i: int| 0 <= i < chosen.len() ==> #[trigger] chosen[i] > 0,
        0 <= k < chosen.len(),
        weight_prefix(chosen, k) <= draw < weight_prefix(chosen, k + 1),
    ensures
        picked(chosen, draw) == k,
{
    let j = picked(chosen, draw);
    assert(0 <= j < chosen.len() && weight_prefix(chosen, j) <= draw < weight_prefix(chosen, j + 1));
    if j < k {
        lemma_weight_prefix_monotonic(chosen, j + 1, k);
    }
    if k < j {
        lemma_weight_prefix_monotonic(chosen, k + 1, j);
    }
}

/// The candidates of a roll as `roll_candidates` gives them, read back as
/// the chosen weights.
proof fn lemma_candidates_weights(positions: Seq<usize>, chosen: Seq<i32>, c: Seq<int>, weights: Seq<i32>)
    requires
        positions.map_values(|i: usize| i as int) == c,
        chosen.len() == positions.len(),
        forall|k: int| 0 <= k < chosen.len() ==> #[trigger] chosen[k] == weights[positions[k] as int] && chosen[k] > 0,
    ensures
        chosen == c.map_values(|i: int| weights[i]),
{
    assert(chosen =~= c.map_values(|i: int| weights[i])) by {
        assert forall|k: int| 0 <= k < chosen.len() implies chosen[k] == c.map_values(|i: int| weights[i])[k] by {
            assert(c[k] == positions[k] as int);
        }
    }
}

/// What the pools of `table` can draw below: [`pool_total`] of each pool,
/// for `weights`, each pool's entry weights as scaled by luck.
pub fn pool_totals(table: &BlockLootTable, tool: Option<&LootTool>, weights: &Vec<Vec<i32>>) -> (r: Vec<Option<i32>>)
    requires
        weights@.len() == table.pools@.len(),
        forall|p: int| 0 <= p < weights@.len() ==> (#[trigger] weights@[p])@.len() == table.pools@[p].entries@.len(),
    ensures
        r@.len() == table.pools@.len(),
        forall|p: int|
            0 <= p < r@.len() ==> #[trigger] r@[p] == pool_total(table.pools@[p]@, weights@[p]@, tool_view(tool)),
{
    let mut totals: Vec<Option<i32>> = Vec::new();
    let mut p: usize = 0;
    while p < table.pools.len()
        invariant
            p <= table.pools@.len(),
            weights@.len() == table.pools@.len(),
            forall|q: int| 0 <= q < weights@.len() ==> (#[trigger] weights@[q])@.len() == table.pools@[q].entries@.len(),
            totals@.len() == p,
            forall|q: int|
                0 <= q < p ==> #[trigger] totals@[q] == pool_total(table.pools@[q]@, weights@[q]@, tool_view(tool)),
        decreases table.pools@.len() - p,
    {
        let pool = &table.pools[p];
        let t = pool_total_of(pool, &weights[p], tool);
        totals.push(t);
        p = p + 1;
    }
    totals
}

fn pool_total_of(pool: &LootPool, weights: &Vec<i32>, tool: Option<&LootTool>) -> (r: Option<i32>)
    requires
        weights@.len() == pool.entries@.len(),
    ensures
        r == pool_total(pool@, weights@, tool_view(tool)),
{
    let (positions, chosen) = roll_candidates(&pool.entries, weights, tool);
    proof {
        lemma_candidates_weights(
            positions@,
            chosen@,
            candidate_positions(pool@.entries, weights@, tool_view(tool), pool@.entries.len() as int),
            weights@,
        );
    }
    if !conditions_match(&pool.conditions, tool) {
        return None;
    }
    total_weight(&chosen)
}

/// What `table` drops for the tool used, given for each pool its entry
/// weights as scaled by luck and the draws of its rolls, each below the
/// pool's total (see [`pool_totals`]); see [`table_loot`].
pub fn loot_from_draws(
    table: &BlockLootTable,
    tool: Option<&LootTool>,
    weights: &Vec<Vec<i32>>,
    draws: &Vec<Vec<i32>>,
) -> (r: Vec<String>)
    requires
        weights@.len() == table.pools@.len(),
        draws@.len() == table.pools@.len(),
        forall|p: int| 0 <= p < weights@.len() ==> (#[trigger] weights@[p])@.len() == table.pools@[p].entries@.len(),
        forall|p: int, k: int|
            0 <= p < draws@.len() && 0 <= k < draws@[p]@.len() ==> match pool_total(
                table.pools@[p]@,
                weights@[p]@,
                tool_view(tool),
            ) {
                Some(t) => 0 <= #[trigger] draws@[p]@[k] < t,
                None => true,
            },
    ensures
        names_view(r@) == table_loot(pools_view(table.pools@), weight_rows(weights@), tool_view(tool), weight_rows(draws@)),
{
    let ghost pv = pools_view(table.pools@);
    let ghost wv = weight_rows(weights@);
    let ghost dv = weight_rows(draws@);
    let mut out: Vec<String> = Vec::new();
    let mut p: usize = 0;
    while p < table.pools.len()
        invariant
            p <= table.pools@.len(),
            pv == pools_view(table.pools@),
            wv == weight_rows(weights@),
            dv == weight_rows(draws@),
            weights@.len() == table.pools@.len(),
            draws@.len() == table.pools@.len(),
            forall|q: int| 0 <= q < weights@.len() ==> (#[trigger] weights@[q])@.len() == table.pools@[q].entries@.len(),
            forall|q: int, k: int|
                0 <= q < draws@.len() && 0 <= k < draws@[q]@.len() ==> match pool_total(
                    table.pools@[q]@,
                    weights@[q]@,
                    tool_view(tool),
                ) {
                    Some(t) => 0 <= #[trigger] draws@[q]@[k] < t,
                    None => true,
                },
            names_view(out@) == table_loot(pv.take(p as int), wv.take(p as int), tool_view(tool), dv.take(p as int)),
        decreases table.pools@.len() - p,
    {
        let pool = &table.pools[p];
        let w = &weights[p];
        let ds = &draws[p];
        let ghost pw = pool@;
        proof {
            assert(pv.take(p + 1).drop_last() =~= pv.take(p as int));
            assert(wv.take(p + 1).take(p as int) =~= wv.take(p as int));
            assert(dv.take(p + 1).take(p as int) =~= dv.take(p as int));
            assert(pv.take(p + 1)[p as int] == pw);
            assert(wv.take(p + 1)[p as int] == w@);
            assert(dv.take(p + 1)[p as int] == ds@);
        }
        let total = pool_total_of(pool, w, tool);
        let ghost before = names_view(out@);
        match total {
            None => {
                proof {
                    assert(before + Seq::<Seq<char>>::empty() =~= before);
                }
            },
            Some(t) => {
                let (positions, chosen) = roll_candidates(&pool.entries, w, tool);
                let ghost c = candidate_positions(pw.entries, w@, tool_view(tool), pw.entries.len() as int);
                proof {
                    lemma_candidates_weights(positions@, chosen@, c, w@);
                }
                let mut k: usize = 0;
                while k < ds.len()
                    invariant
                        k <= ds@.len(),
                        pw == pool@,
                        c == candidate_positions(pw.entries, w@, tool_view(tool), pw.entries.len() as int),
                        positions@.map_values(|i: usize| i as int) == c,
                        chosen@ == chosen_weights(pw, w@, tool_view(tool)),
                        chosen@.len() == positions@.len(),
                        forall|j: int| 0 <= j < chosen@.len() ==> #[trigger] chosen@[j] > 0,
                        forall|j: int| 0 <= j < positions@.len() ==> #[trigger] positions@[j] < pool.entries@.len(),
                        pool_total(pw, w@, tool_view(tool)) == Some(t),
                        forall|j: int| 0 <= j < ds@.len() ==> 0 <= #[trigger] ds@[j] < t,
                        names_view(out@) == before + draws_loot(pw, w@, tool_view(tool), ds@.take(k as int)),
                    decreases ds@.len() - k,
                {
                    let draw = ds[k];
                    let i = pick_weighted(&chosen, draw);
                    proof {
                        lemma_picked(chosen@, draw, i as int);
                        assert(ds@.take(k + 1).drop_last() =~= ds@.take(k as int));
                        assert(ds@.take(k + 1).last() == draw);
                        assert(c[i as int] == positions@[i as int] as int);
                        assert(pw.entries[c[i as int]] == pool.entries@[positions@[i as int] as int]@);
                    }
                    let ghost mid = names_view(out@);
                    match pool.entries[positions[i]].get_loot(tool) {
                        Some(items) => {
                            let mut j: usize = 0;
                            while j < items.len()
                                invariant
                                    j <= items@.len(),
                                    names_view(out@) == mid + names_view(items@).take(j as int),
                                decreases items@.len() - j,
                            {
                                let ghost b = names_view(out@);
                                out.push(items[j].clone());
                                proof {
                                    assert(names_view(out@) =~= b.push(items@[j as int]@));
                                    assert(names_view(items@).take(j + 1) =~= names_view(items@).take(j as int).push(
                                        items@[j as int]@,
                                    ));
                                }
                                j = j + 1;
                            }
                            proof {
                                assert(names_view(items@).take(items@.len() as int) =~= names_view(items@));
                            }
                        },
                        None => {},
                    }
                    proof {
                        assert(names_view(out@) =~= before + draws_loot(pw, w@, tool_view(tool), ds@.take(k + 1)));
                    }
                    k = k + 1;
                }
                proof {
                    assert(ds@.take(ds@.len() as int) =~= ds@);
                }
            },
        }
        p = p + 1;
    }
    proof {
        assert(pv.take(pv.len() as int) =~= pv);
        assert(wv.take(wv.len() as int) =~= wv);
        assert(dv.take(dv.len() as int) =~= dv);
    }
    out
}

} // verus!
