//! Crafting recipes of data packs: the shape of their patterns and the
//! ingredients they name.
use vstd::prelude::*;

use crate::advancement::contains_name;
use crate::identifier::{id_text, Identifier};
use crate::json::{
    as_str, as_u64, field_of, field_views, get_field, get_str, json_u64, json_view, json_views, lemma_field_views,
    lemma_json_views, Json, JsonView,
};
use crate::nbt::{lemma_nbt_views, nbt_view, nbt_views, put_entry, NbtCompound, NbtTag, NbtView};
use crate::team::names_view;
use crate::text::{owned, strip_prefix, strip_prefix_str};

verus! {

/// The width of the widest row, in characters.
pub open spec fn max_width(pattern: Seq<Seq<char>>) -> int
    decreases pattern.len(),
{
    if pattern.len() == 0 {
        0
    } else {
        let w = max_width(pattern.drop_last());
        if pattern.last().len() > w {
            pattern.last().len() as int
        } else {
            w
        }
    }
}

/// `row` followed by spaces up to `width` characters.
pub open spec fn padded(row: Seq<char>, width: int) -> Seq<char> {
    row + Seq::new((width - row.len()) as nat, |i: int| ' ')
}

pub open spec fn rows_view(rows: Seq<String>) -> Seq<Seq<char>> {
    rows.map_values(|r: String| r@)
}

proof fn lemma_max_width(pattern: Seq<Seq<char>>)
    ensures
        forall|i: int| 0 <= i < pattern.len() ==> (#[trigger] pattern[i]).len() <= max_width(pattern),
        pattern.len() > 0 ==> exists|i: int|
            0 <= i < pattern.len() && (#[trigger] pattern[i]).len() == max_width(pattern),
        max_width(pattern) >= 0,
    decreases pattern.len(),
{
    if pattern.len() > 0 {
        let rest = pattern.drop_last();
        lemma_max_width(rest);
        assert forall|i: int| 0 <= i < pattern.len() implies (#[trigger] pattern[i]).len() <= max_width(pattern) by {
            if i < rest.len() {
                assert(pattern[i] == rest[i]);
            }
        }
        if pattern.last().len() > max_width(rest) || rest.len() == 0 {
            assert(pattern[pattern.len() - 1].len() == max_width(pattern));
        } else {
            let k = choose|k: int| 0 <= k < rest.len() && (#[trigger] rest[k]).len() == max_width(rest);
            assert(pattern[k] == rest[k]);
        }
    }
}

/// Pads every row of a shaped pattern with spaces to the width of the widest
/// row. The pattern must have at least one row, at most three, and a width of
/// one to three characters.
pub fn normalize_pattern(pattern: Vec<String>) -> (r: Result<Vec<String>, String>)
    ensures
        match r {
            Ok(rows) => normalized(rows_view(pattern@)) == Ok::<Seq<Seq<char>>, Seq<char>>(rows_view(rows@)),
            Err(e) => normalized(rows_view(pattern@)) == Err::<Seq<Seq<char>>, Seq<char>>(e@),
        },
{
    if pattern.len() == 0 {
        return Err(owned("shaped recipe pattern may not be empty"));
    }
    let ghost p = rows_view(pattern@);
    let mut width: usize = 0;
    let mut i: usize = 0;
    while i < pattern.len()
        invariant
            i <= pattern@.len(),
            p == rows_view(pattern@),
            width == max_width(p.take(i as int)),
        decreases pattern@.len() - i,
    {
        let n = pattern[i].as_str().unicode_len();
        proof {
            assert(p.take(i + 1).drop_last() =~= p.take(i as int));
            assert(p.take(i + 1).last() == pattern@[i as int]@);
        }
        if n > width {
            width = n;
        }
        i = i + 1;
    }
    proof {
        assert(p.take(p.len() as int) =~= p);
    }
    if width == 0 || width > 3 || pattern.len() > 3 {
        return Err(owned("shaped recipe pattern must fit a 3x3 crafting grid"));
    }
    proof {
        lemma_max_width(p);
    }
    let mut rows: Vec<String> = Vec::new();
    let mut i: usize = 0;
    while i < pattern.len()
        invariant
            i <= pattern@.len(),
            p == rows_view(pattern@),
            width == max_width(p),
            forall|k: int| 0 <= k < p.len() ==> (#[trigger] p[k]).len() <= width,
            rows@.len() == i,
            forall|k: int| 0 <= k < i ==> (#[trigger] rows@[k])@ == padded(p[k], width as int),
        decreases pattern@.len() - i,
    {
        let mut row = pattern[i].clone();
        let n = row.as_str().unicode_len();
        let ghost base = row@;
        assert(base == p[i as int]);
        assert(n <= width);
        let mut k = n;
        while k < width
            invariant
                n <= k <= width,
                n == base.len(),
                row@ == base + Seq::new((k - n) as nat, |j: int| ' '),
            decreases width - k,
        {
            row.push(' ');
            k = k + 1;
            assert(row@ =~= base + Seq::new((k - n) as nat, |j: int| ' '));
        }
        proof {
            assert(p[i as int] == base);
            assert(row@ =~= padded(p[i as int], width as int));
        }
        rows.push(row);
        i = i + 1;
    }
    proof {
        assert(rows_view(rows@) =~= p.map_values(|row: Seq<char>| padded(row, max_width(p))));
    }
    Ok(rows)
}

/// The shape of a pattern once normalized: its rows padded to the widest,
/// or why it does not fit the crafting grid.
pub open spec fn normalized(p: Seq<Seq<char>>) -> Result<Seq<Seq<char>>, Seq<char>> {
    if p.len() == 0 {
        Err("shaped recipe pattern may not be empty"@)
    } else if max_width(p) == 0 || max_width(p) > 3 || p.len() > 3 {
        Err("shaped recipe pattern must fit a 3x3 crafting grid"@)
    } else {
        Ok(p.map_values(|row: Seq<char>| padded(row, max_width(p))))
    }
}

/// A normalized pattern keeps its rows, each padded to the same width, the
/// width of the widest row.
pub proof fn lemma_normalized_rows_equal_width(p: Seq<Seq<char>>)
    requires
        normalized(p) is Ok,
    ensures
        normalized(p)->Ok_0.len() == p.len(),
        forall|i: int|
            0 <= i < p.len() ==> (#[trigger] normalized(p)->Ok_0[i]).len() == max_width(p)
                && normalized(p)->Ok_0[i].subrange(0, p[i].len() as int) == p[i],
{
    lemma_max_width(p);
    let rows = normalized(p)->Ok_0;
    assert forall|i: int| 0 <= i < p.len() implies (#[trigger] rows[i]).len() == max_width(p) && rows[i].subrange(
        0,
        p[i].len() as int,
    ) == p[i] by {
        assert(rows[i] == padded(p[i], max_width(p)));
        assert(rows[i].subrange(0, p[i].len() as int) =~= p[i]);
    }
}

/// The recipe-book tab a recipe is shown under.
#[derive(Clone, Copy, Debug, PartialEq, Eq, Structural)]
pub enum RecipeCategory {
    Equipment,
    Building,
    Redstone,
    Food,
    Blocks,
    Misc,
}

/// What fills one slot of a recipe: an item, any item of a tag, or any of a
/// list of items.
#[derive(Debug, PartialEq, Eq)]
pub enum OwnedRecipeIngredient {
    Simple(String),
    Tagged(String),
    OneOf(Vec<String>),
}

pub enum IngredientView {
    Simple(Seq<char>),
    Tagged(Seq<char>),
    OneOf(Seq<Seq<char>>),
}

impl View for OwnedRecipeIngredient {
    type V = IngredientView;

    open spec fn view(&self) -> IngredientView {
        match self {
            OwnedRecipeIngredient::Simple(s) => IngredientView::Simple(s@),
            OwnedRecipeIngredient::Tagged(s) => IngredientView::Tagged(s@),
            OwnedRecipeIngredient::OneOf(v) => IngredientView::OneOf(names_view(v@)),
        }
    }
}

/// An item stack that a recipe makes: the item's registry key, how many,
/// and the data components given for it, each by name with its data as
/// NBT, or none where the component is removed.
#[derive(Debug, PartialEq)]
pub struct ItemStackTemplate {
    pub item: String,
    pub count: u8,
    pub components: Vec<(String, Option<NbtTag>)>,
}

pub struct StackView {
    pub item: Seq<char>,
    pub count: u8,
    pub components: Seq<(Seq<char>, Option<NbtView>)>,
}

pub open spec fn option_nbt_view(v: Option<NbtTag>) -> Option<NbtView> {
    match v {
        Some(t) => Some(t@),
        None => None,
    }
}

pub open spec fn components_view(c: Seq<(String, Option<NbtTag>)>) -> Seq<(Seq<char>, Option<NbtView>)> {
    c.map_values(|e: (String, Option<NbtTag>)| (e.0@, option_nbt_view(e.1)))
}

/// The NBT value that JSON data of a component stands for: `null` is the
/// end tag, a boolean a byte, an integer an int where it fits and a long
/// otherwise, any other number the nearest float, a string a string, an
/// array a list of its items, and an object a compound of its fields.
pub open spec fn json_nbt(j: JsonView) -> NbtView
    decreases j, 0nat,
{
    match j {
        JsonView::Null => NbtView::End,
        JsonView::Bool(b) => NbtView::Byte(
            if b {
                1
            } else {
                0
            },
        ),
        JsonView::Int(n) => if i32::MIN <= n <= i32::MAX {
            NbtView::Int(n as i32)
        } else {
            NbtView::Long(n)
        },
        JsonView::Unsigned(_, f) => NbtView::Float(f),
        JsonView::FloatBits(_, f) => NbtView::Float(f),
        JsonView::Str(s) => NbtView::Str(s),
        JsonView::Array(items) => NbtView::List(json_nbt_list(items)),
        JsonView::Object(fields) => NbtView::Compound(json_nbt_fields(fields, Seq::empty())),
    }
}

/// The NBT values of JSON items, in order.
pub open spec fn json_nbt_list(items: Seq<JsonView>) -> Seq<NbtView>
    decreases items, 1nat,
{
    if items.len() == 0 {
        Seq::empty()
    } else {
        proof {
            vstd::seq::axiom_seq_len_decreases(items, items.drop_first());
        }
        seq![json_nbt(items[0])] + json_nbt_list(items.drop_first())
    }
}

/// The compound `entries` with each field's value put under its name in
/// turn, as [`NbtCompound::put`] puts it.
pub open spec fn json_nbt_fields(fields: Seq<(Seq<char>, JsonView)>, entries: Seq<(Seq<char>, NbtView)>) -> Seq<
    (Seq<char>, NbtView),
>
    decreases fields, 1nat,
{
    if fields.len() == 0 {
        entries
    } else {
        proof {
            vstd::seq::axiom_seq_len_decreases(fields, fields.drop_first());
            assert(decreases_to!(fields => fields[0]));
        }
        json_nbt_fields(fields.drop_first(), put_entry(entries, fields[0].0, json_nbt(fields[0].1)))
    }
}

proof fn lemma_json_nbt_list(items: Seq<JsonView>)
    ensures
        json_nbt_list(items).len() == items.len(),
        forall|i: int| 0 <= i < items.len() ==> #[trigger] json_nbt_list(items)[i] == json_nbt(items[i]),
    decreases items.len(),
{
    if items.len() > 0 {
        lemma_json_nbt_list(items.drop_first());
        assert forall|i: int| 0 <= i < items.len() implies #[trigger] json_nbt_list(items)[i] == json_nbt(items[i]) by {
            if i > 0 {
                assert(json_nbt_list(items)[i] == json_nbt_list(items.drop_first())[i - 1]);
                assert(items.drop_first()[i - 1] == items[i]);
            }
        }
    }
}

/// The NBT value of JSON component data; see [`json_nbt`].
pub fn json_to_nbt(value: &Json) -> (r: NbtTag)
    ensures
        r@ == json_nbt(value@),
    decreases value,
{
    broadcast use vstd::std_specs::vec::axiom_vec_decreases_to_view;

    match value {
        Json::Null => NbtTag::End,
        Json::Bool(b) => NbtTag::Byte(
            if *b {
                1
            } else {
                0
            },
        ),
        Json::Int(n) => if -2147483648i64 <= *n && *n <= 2147483647i64 {
            NbtTag::Int(*n as i32)
        } else {
            NbtTag::Long(*n)
        },
        Json::Unsigned(_, f) => NbtTag::Float(*f),
        Json::FloatBits(_, f) => NbtTag::Float(*f),
        Json::Str(s) => NbtTag::Str(s.clone()),
        Json::Array(items) => {
            let mut out: Vec<NbtTag> = Vec::new();
            let mut i: usize = 0;
            while i < items.len()
                invariant
                    *value == Json::Array(*items),
                    i <= items@.len(),
                    out@.len() == i,
                    forall|k: int| 0 <= k < i ==> nbt_view(#[trigger] out@[k]) == json_nbt(json_view(items@[k])),
                decreases items@.len() - i,
            {
                proof {
                    assert(decreases_to!(*value => (*value)->Array_0));
                    assert(decreases_to!(*items => items@));
                    assert(decreases_to!(items@ => items@[i as int]));
                }
                let t = json_to_nbt(&items[i]);
                out.push(t);
                i = i + 1;
            }
            proof {
                lemma_nbt_views(out@);
                lemma_json_views(items@);
                lemma_json_nbt_list(json_views(items@));
                assert(nbt_views(out@) =~= json_nbt_list(json_views(items@)));
            }
            NbtTag::List(out)
        },
        Json::Object(fields) => {
            let ghost all = field_views(fields@);
            proof {
                lemma_field_views(fields@);
                assert(all.skip(0) =~= all);
            }
            let mut compound = NbtCompound::new();
            let mut i: usize = 0;
            while i < fields.len()
                invariant
                    *value == Json::Object(*fields),
                    i <= fields@.len(),
                    all == field_views(fields@),
                    all.len() == fields@.len(),
                    forall|k: int| 0 <= k < fields@.len() ==> #[trigger] all[k] == (fields@[k].0@, json_view(fields@[k].1)),
                    json_nbt_fields(all, Seq::empty()) == json_nbt_fields(all.skip(i as int), compound@),
                decreases fields@.len() - i,
            {
                proof {
                    assert(decreases_to!(*value => (*value)->Object_0));
                    assert(decreases_to!(*fields => fields@));
                    assert(decreases_to!(fields@ => fields@[i as int]));
                    assert(decreases_to!(fields@[i as int] => fields@[i as int].1));
                    let rest = all.skip(i as int);
                    assert(rest[0] == all[i as int]);
                    assert(rest.drop_first() =~= all.skip(i + 1));
                }
                let t = json_to_nbt(&fields[i].1);
                compound.put(fields[i].0.clone(), t);
                i = i + 1;
            }
            proof {
                assert(all.skip(fields@.len() as int) =~= Seq::<(Seq<char>, JsonView)>::empty());
            }
            NbtTag::Compound(compound)
        },
    }
}

impl View for ItemStackTemplate {
    type V = StackView;

    open spec fn view(&self) -> StackView {
        StackView { item: self.item@, count: self.count, components: components_view(self.components@) }
    }
}

/// Why a recipe definition was rejected.
#[derive(Debug, PartialEq, Eq)]
pub enum RecipeError {
    /// The definition is not a JSON object.
    NotAnObject,
    /// A field that must be a string is missing or is not one.
    MissingStringField(String),
    /// The recipe type is not one of the crafting types handled.
    UnsupportedType(String),
    MissingResult,
    ResultNotAnObject,
    /// The result names an item that is not registered.
    UnknownItem(String),
    ZeroCount,
    MissingPattern,
    PatternRowNotString,
    /// The pattern does not fit the crafting grid; the reason.
    Pattern(String),
    MissingKey,
    KeyNotOneCharacter,
    KeyIsSpace,
    /// The pattern uses a symbol that the key does not define.
    UndefinedKey(char),
    MissingIngredients,
    /// A shapeless recipe must have one to nine ingredients.
    IngredientCount,
    /// An ingredient is neither a string nor a list.
    BadIngredient,
    AlternativeNotString,
    EmptyAlternatives,
}

pub enum RecipeErrorView {
    NotAnObject,
    MissingStringField(Seq<char>),
    UnsupportedType(Seq<char>),
    MissingResult,
    ResultNotAnObject,
    UnknownItem(Seq<char>),
    ZeroCount,
    MissingPattern,
    PatternRowNotString,
    Pattern(Seq<char>),
    MissingKey,
    KeyNotOneCharacter,
    KeyIsSpace,
    UndefinedKey(char),
    MissingIngredients,
    IngredientCount,
    BadIngredient,
    AlternativeNotString,
    EmptyAlternatives,
}

impl View for RecipeError {
    type V = RecipeErrorView;

    open spec fn view(&self) -> RecipeErrorView {
        match self {
            RecipeError::NotAnObject => RecipeErrorView::NotAnObject,
            RecipeError::MissingStringField(s) => RecipeErrorView::MissingStringField(s@),
            RecipeError::UnsupportedType(s) => RecipeErrorView::UnsupportedType(s@),
            RecipeError::MissingResult => RecipeErrorView::MissingResult,
            RecipeError::ResultNotAnObject => RecipeErrorView::ResultNotAnObject,
            RecipeError::UnknownItem(s) => RecipeErrorView::UnknownItem(s@),
            RecipeError::ZeroCount => RecipeErrorView::ZeroCount,
            RecipeError::MissingPattern => RecipeErrorView::MissingPattern,
            RecipeError::PatternRowNotString => RecipeErrorView::PatternRowNotString,
            RecipeError::Pattern(s) => RecipeErrorView::Pattern(s@),
            RecipeError::MissingKey => RecipeErrorView::MissingKey,
            RecipeError::KeyNotOneCharacter => RecipeErrorView::KeyNotOneCharacter,
            RecipeError::KeyIsSpace => RecipeErrorView::KeyIsSpace,
            RecipeError::UndefinedKey(c) => RecipeErrorView::UndefinedKey(*c),
            RecipeError::MissingIngredients => RecipeErrorView::MissingIngredients,
            RecipeError::IngredientCount => RecipeErrorView::IngredientCount,
            RecipeError::BadIngredient => RecipeErrorView::BadIngredient,
            RecipeError::AlternativeNotString => RecipeErrorView::AlternativeNotString,
            RecipeError::EmptyAlternatives => RecipeErrorView::EmptyAlternatives,
        }
    }
}

/// The category named by a recipe; anything else is `Misc`.
pub open spec fn category_of(name: Option<Seq<char>>) -> RecipeCategory {
    match name {
        Some(n) => if n == "equipment"@ {
            RecipeCategory::Equipment
        } else if n == "building"@ {
            RecipeCategory::Building
        } else if n == "redstone"@ {
            RecipeCategory::Redstone
        } else if n == "food"@ {
            RecipeCategory::Food
        } else if n == "blocks"@ {
            RecipeCategory::Blocks
        } else {
            RecipeCategory::Misc
        },
        None => RecipeCategory::Misc,
    }
}

/// The recipe category named `name`; anything else is `Misc`.
pub fn parse_category(name: Option<&str>) -> (r: RecipeCategory)
    ensures
        r == category_of(match name {
            Some(n) => Some(n@),
            None => None,
        }),
{
    match name {
        Some(n) => if crate::text::str_eq(n, "equipment") {
            RecipeCategory::Equipment
        } else if crate::text::str_eq(n, "building") {
            RecipeCategory::Building
        } else if crate::text::str_eq(n, "redstone") {
            RecipeCategory::Redstone
        } else if crate::text::str_eq(n, "food") {
            RecipeCategory::Food
        } else if crate::text::str_eq(n, "blocks") {
            RecipeCategory::Blocks
        } else {
            RecipeCategory::Misc
        },
        None => RecipeCategory::Misc,
    }
}

pub open spec fn is_str(j: Json) -> bool {
    j is Str
}

pub open spec fn str_of(j: Json) -> Seq<char> {
    match j {
        Json::Str(s) => s@,
        _ => Seq::empty(),
    }
}

/// Whether every value is a string.
pub open spec fn all_strings(items: Seq<Json>) -> bool {
    forall|i: int| 0 <= i < items.len() ==> is_str(#[trigger] items[i])
}

/// An ingredient: an item, `#` and a tag, or a non-empty list of items.
pub open spec fn ingredient_of(v: Json) -> Result<IngredientView, RecipeErrorView> {
    match v {
        Json::Str(s) => Ok(
            match strip_prefix(s@, seq!['#']) {
                Some(tag) => IngredientView::Tagged(tag),
                None => IngredientView::Simple(s@),
            },
        ),
        Json::Array(items) => if !all_strings(items@) {
            Err(RecipeErrorView::AlternativeNotString)
        } else if items@.len() == 0 {
            Err(RecipeErrorView::EmptyAlternatives)
        } else {
            Ok(IngredientView::OneOf(items@.map_values(|j: Json| str_of(j))))
        },
        _ => Err(RecipeErrorView::BadIngredient),
    }
}

pub open spec fn result_view<T: View>(r: Result<T, RecipeError>) -> Result<T::V, RecipeErrorView> {
    match r {
        Ok(v) => Ok(v@),
        Err(e) => Err(e@),
    }
}

/// Reads an ingredient; see [`ingredient_of`].
pub fn parse_ingredient(value: &Json) -> (r: Result<OwnedRecipeIngredient, RecipeError>)
    ensures
        result_view(r) == ingredient_of(*value),
{
    match value {
        Json::Str(s) => {
            proof {
                reveal_strlit("#");
                assert("#"@ =~= seq!['#']);
            }
            match strip_prefix_str(s.as_str(), "#") {
                Some(tag) => Ok(OwnedRecipeIngredient::Tagged(tag)),
                None => Ok(OwnedRecipeIngredient::Simple(s.clone())),
            }
        },
        Json::Array(items) => {
            let mut names: Vec<String> = Vec::new();
            let mut i: usize = 0;
            while i < items.len()
                invariant
                    *value == Json::Array(*items),
                    i <= items@.len(),
                    names@.len() == i,
                    forall|k: int| 0 <= k < i ==> is_str(#[trigger] items@[k]),
                    forall|k: int| 0 <= k < i ==> (#[trigger] names@[k])@ == str_of(items@[k]),
                decreases items@.len() - i,
            {
                match &items[i] {
                    Json::Str(s) => {
                        names.push(s.clone());
                    },
                    _ => {
                        assert(!is_str(items@[i as int]));
                        assert(!all_strings(items@));
                        return Err(RecipeError::AlternativeNotString);
                    },
                }
                i = i + 1;
            }
            if names.len() == 0 {
                return Err(RecipeError::EmptyAlternatives);
            }
            proof {
                assert(all_strings(items@));
                assert(names_view(names@) =~= items@.map_values(|j: Json| str_of(j)));
            }
            Ok(OwnedRecipeIngredient::OneOf(names))
        },
        _ => Err(RecipeError::BadIngredient),
    }
}

/// The data components of a stack: each field of the `components` object
/// whose name, without a leading `!`, is a known component, in order; a
/// leading `!` removes the component.
pub open spec fn components_of(fields: Seq<(String, Json)>, known: Seq<Seq<char>>) -> Seq<(Seq<char>, Option<NbtView>)>
    decreases fields.len(),
{
    if fields.len() == 0 {
        Seq::empty()
    } else {
        let raw = fields[0].0@;
        let rest = components_of(fields.drop_first(), known);
        match strip_prefix(raw, seq!['!']) {
            Some(name) => if known.contains(name) {
                seq![(name, None::<NbtView>)] + rest
            } else {
                rest
            },
            None => if known.contains(raw) {
                seq![(raw, Some(json_nbt(fields[0].1@)))] + rest
            } else {
                rest
            },
        }
    }
}

/// The count of a stack: a non-negative integer up to 255, or else one.
pub open spec fn count_of(v: Option<Json>) -> u8 {
    match v {
        Some(j) => match as_u64(j) {
            Some(n) => if n <= 255 {
                n as u8
            } else {
                1
            },
            None => 1,
        },
        None => 1,
    }
}

/// An item stack: an object with a string `id` naming a registered item,
/// with or without `minecraft:`, a positive `count`, and `components`.
pub open spec fn stack_of(v: Json, items: Seq<Seq<char>>, known: Seq<Seq<char>>) -> Result<StackView, RecipeErrorView> {
    match v {
        Json::Object(fields) => match as_str(field_of(fields@, "id"@)) {
            None => Err(RecipeErrorView::MissingStringField("id"@)),
            Some(raw) => {
                let item = match strip_prefix(raw, "minecraft:"@) {
                    Some(key) => key,
                    None => raw,
                };
                let count = count_of(field_of(fields@, "count"@));
                if !items.contains(item) {
                    Err(RecipeErrorView::UnknownItem(raw))
                } else if count == 0 {
                    Err(RecipeErrorView::ZeroCount)
                } else {
                    Ok(
                        StackView {
                            item,
                            count,
                            components: match field_of(fields@, "components"@) {
                                Some(Json::Object(c)) => components_of(c@, known),
                                _ => Seq::empty(),
                            },
                        },
                    )
                }
            },
        },
        _ => Err(RecipeErrorView::ResultNotAnObject),
    }
}

fn parse_components(fields: &Vec<(String, Json)>, known: &Vec<String>) -> (r: Vec<(String, Option<NbtTag>)>)
    ensures
        components_view(r@) == components_of(fields@, names_view(known@)),
{
    let ghost kn = names_view(known@);
    let mut out: Vec<(String, Option<NbtTag>)> = Vec::new();
    let mut i: usize = 0;
    assert(fields@.skip(0) =~= fields@);
    proof {
        reveal_strlit("!");
        assert("!"@ =~= seq!['!']);
    }
    while i < fields.len()
        invariant
            i <= fields@.len(),
            kn == names_view(known@),
            "!"@ == seq!['!'],
            components_of(fields@, kn) == components_view(out@) + components_of(fields@.skip(i as int), kn),
        decreases fields@.len() - i,
    {
        let ghost rest = fields@.skip(i as int);
        proof {
            assert(rest[0] == fields@[i as int]);
            assert(rest.drop_first() =~= fields@.skip(i + 1));
        }
        let ghost before = out@;
        let raw = &fields[i].0;
        match strip_prefix_str(raw.as_str(), "!") {
            Some(name) => {
                if contains_name(known, &name) {
                    out.push((name, None));
                    proof {
                        assert(components_view(out@) =~= components_view(before).push((name@, None::<NbtView>)));
                    }
                }
            },
            None => {
                if contains_name(known, raw) {
                    out.push((raw.clone(), Some(json_to_nbt(&fields[i].1))));
                    proof {
                        assert(components_view(out@) =~= components_view(before).push((raw@, Some(json_nbt(fields@[i as int].1@)))));
                    }
                }
            },
        }
        proof {
            assert(components_of(fields@, kn) == components_view(out@) + components_of(fields@.skip(i + 1), kn));
        }
        i = i + 1;
    }
    proof {
        assert(fields@.skip(fields@.len() as int) =~= Seq::<(String, Json)>::empty());
        assert(components_view(out@) + Seq::<(Seq<char>, Option<NbtView>)>::empty() =~= components_view(out@));
    }
    out
}

/// Reads an item stack; see [`stack_of`]. `items` are the registered item
/// keys and `known` the names of the data components.
pub fn parse_item_stack(value: &Json, items: &Vec<String>, known: &Vec<String>) -> (r: Result<ItemStackTemplate, RecipeError>)
    ensures
        result_view(r) == stack_of(*value, names_view(items@), names_view(known@)),
{
    let fields = match value {
        Json::Object(fields) => fields,
        _ => {
            return Err(RecipeError::ResultNotAnObject);
        },
    };
    let raw = match get_str(fields, "id") {
        Some(raw) => raw,
        None => {
            return Err(RecipeError::MissingStringField(owned("id")));
        },
    };
    let item = match strip_prefix_str(raw.as_str(), "minecraft:") {
        Some(key) => key,
        None => raw.clone(),
    };
    let count: u8 = match get_field(fields, "count") {
        Some(c) => match json_u64(c) {
            Some(n) => if n <= 255 {
                n as u8
            } else {
                1
            },
            None => 1,
        },
        None => 1,
    };
    if !contains_name(items, &item) {
        return Err(RecipeError::UnknownItem(raw.clone()));
    }
    if count == 0 {
        return Err(RecipeError::ZeroCount);
    }
    let components = match get_field(fields, "components") {
        Some(Json::Object(c)) => parse_components(c, known),
        _ => Vec::new(),
    };
    proof {
        assert(components_view(components@) =~= match field_of(fields@, "components"@) {
            Some(Json::Object(c)) => components_of(c@, names_view(known@)),
            _ => Seq::empty(),
        });
    }
    Ok(ItemStackTemplate { item, count, components })
}

/// A crafting recipe of a data pack.
#[derive(Debug, PartialEq)]
pub enum OwnedCraftingRecipe {
    Shaped {
        recipe_id: String,
        category: RecipeCategory,
        group: Option<String>,
        show_notification: bool,
        key: Vec<(char, OwnedRecipeIngredient)>,
        pattern: Vec<String>,
        result: ItemStackTemplate,
    },
    Shapeless {
        recipe_id: String,
        category: RecipeCategory,
        group: Option<String>,
        ingredients: Vec<OwnedRecipeIngredient>,
        result: ItemStackTemplate,
    },
}

pub enum RecipeView {
    Shaped {
        recipe_id: Seq<char>,
        category: RecipeCategory,
        group: Option<Seq<char>>,
        show_notification: bool,
        key: Seq<(char, IngredientView)>,
        pattern: Seq<Seq<char>>,
        result: StackView,
    },
    Shapeless {
        recipe_id: Seq<char>,
        category: RecipeCategory,
        group: Option<Seq<char>>,
        ingredients: Seq<IngredientView>,
        result: StackView,
    },
}

pub open spec fn opt_string_view(s: Option<String>) -> Option<Seq<char>> {
    match s {
        Some(t) => Some(t@),
        None => None,
    }
}

pub open spec fn key_view(key: Seq<(char, OwnedRecipeIngredient)>) -> Seq<(char, IngredientView)> {
    key.map_values(|e: (char, OwnedRecipeIngredient)| (e.0, e.1@))
}

pub open spec fn ingredients_view(v: Seq<OwnedRecipeIngredient>) -> Seq<IngredientView> {
    v.map_values(|e: OwnedRecipeIngredient| e@)
}

impl View for OwnedCraftingRecipe {
    type V = RecipeView;

    open spec fn view(&self) -> RecipeView {
        match self {
            OwnedCraftingRecipe::Shaped { recipe_id, category, group, show_notification, key, pattern, result } => RecipeView::Shaped {
                recipe_id: recipe_id@,
                category: *category,
                group: opt_string_view(*group),
                show_notification: *show_notification,
                key: key_view(key@),
                pattern: rows_view(pattern@),
                result: result@,
            },
            OwnedCraftingRecipe::Shapeless { recipe_id, category, group, ingredients, result } => RecipeView::Shapeless {
                recipe_id: recipe_id@,
                category: *category,
                group: opt_string_view(*group),
                ingredients: ingredients_view(ingredients@),
                result: result@,
            },
        }
    }
}

/// The rows of a pattern, when every one is a string.
pub open spec fn rows_of(items: Seq<Json>) -> Option<Seq<Seq<char>>> {
    if all_strings(items) {
        Some(items.map_values(|j: Json| str_of(j)))
    } else {
        None
    }
}

/// The key of a shaped recipe: each field names a symbol of one character,
/// not a space, and gives its ingredient; the first problem in field order
/// is the error.
pub open spec fn key_of(fields: Seq<(String, Json)>) -> Result<Seq<(char, IngredientView)>, RecipeErrorView>
    decreases fields.len(),
{
    if fields.len() == 0 {
        Ok(Seq::empty())
    } else {
        let symbol = fields[0].0@;
        if symbol.len() != 1 {
            Err(RecipeErrorView::KeyNotOneCharacter)
        } else if symbol[0] == ' ' {
            Err(RecipeErrorView::KeyIsSpace)
        } else {
            match ingredient_of(fields[0].1) {
                Err(e) => Err(e),
                Ok(i) => match key_of(fields.drop_first()) {
                    Err(e) => Err(e),
                    Ok(rest) => Ok(seq![(symbol[0], i)] + rest),
                },
            }
        }
    }
}

/// The ingredients of a shapeless recipe; the first that does not read is
/// the error.
pub open spec fn ingredients_of(items: Seq<Json>) -> Result<Seq<IngredientView>, RecipeErrorView>
    decreases items.len(),
{
    if items.len() == 0 {
        Ok(Seq::empty())
    } else {
        match ingredient_of(items[0]) {
            Err(e) => Err(e),
            Ok(i) => match ingredients_of(items.drop_first()) {
                Err(e) => Err(e),
                Ok(rest) => Ok(seq![i] + rest),
            },
        }
    }
}

/// The first symbol of `row` that is neither a space nor a key.
pub open spec fn undefined_in_row(row: Seq<char>, keys: Seq<char>) -> Option<char>
    decreases row.len(),
{
    if row.len() == 0 {
        None
    } else if row[0] != ' ' && !keys.contains(row[0]) {
        Some(row[0])
    } else {
        undefined_in_row(row.drop_first(), keys)
    }
}

/// The first symbol of the pattern, row by row, that is neither a space nor
/// a key.
pub open spec fn undefined_in_rows(rows: Seq<Seq<char>>, keys: Seq<char>) -> Option<char>
    decreases rows.len(),
{
    if rows.len() == 0 {
        None
    } else {
        match undefined_in_row(rows[0], keys) {
            Some(c) => Some(c),
            None => undefined_in_rows(rows.drop_first(), keys),
        }
    }
}

/// The result stack of a recipe.
pub open spec fn result_of(fields: Seq<(String, Json)>, items: Seq<Seq<char>>, known: Seq<Seq<char>>) -> Result<
    StackView,
    RecipeErrorView,
> {
    match field_of(fields, "result"@) {
        Some(v) => stack_of(v, items, known),
        None => Err(RecipeErrorView::MissingResult),
    }
}

/// A non-empty `group` string, if there is one.
pub open spec fn group_of(fields: Seq<(String, Json)>) -> Option<Seq<char>> {
    match as_str(field_of(fields, "group"@)) {
        Some(g) => if g.len() > 0 {
            Some(g)
        } else {
            None
        },
        None => None,
    }
}

pub open spec fn shaped_of(
    id: Seq<char>,
    fields: Seq<(String, Json)>,
    items: Seq<Seq<char>>,
    known: Seq<Seq<char>>,
) -> Result<RecipeView, RecipeErrorView> {
    match result_of(fields, items, known) {
        Err(e) => Err(e),
        Ok(result) => match field_of(fields, "pattern"@) {
            Some(Json::Array(rows)) => match rows_of(rows@) {
                None => Err(RecipeErrorView::PatternRowNotString),
                Some(raw) => match normalized(raw) {
                    Err(message) => Err(RecipeErrorView::Pattern(message)),
                    Ok(pattern) => match field_of(fields, "key"@) {
                        Some(Json::Object(key_fields)) => match key_of(key_fields@) {
                            Err(e) => Err(e),
                            Ok(key) => match undefined_in_rows(
                                pattern,
                                key.map_values(|e: (char, IngredientView)| e.0),
                            ) {
                                Some(c) => Err(RecipeErrorView::UndefinedKey(c)),
                                None => Ok(
                                    RecipeView::Shaped {
                                        recipe_id: id,
                                        category: category_of(as_str(field_of(fields, "category"@))),
                                        group: group_of(fields),
                                        show_notification: match field_of(fields, "show_notification"@) {
                                            Some(Json::Bool(b)) => b,
                                            _ => true,
                                        },
                                        key,
                                        pattern,
                                        result,
                                    },
                                ),
                            },
                        },
                        _ => Err(RecipeErrorView::MissingKey),
                    },
                },
            },
            _ => Err(RecipeErrorView::MissingPattern),
        },
    }
}

pub open spec fn shapeless_of(
    id: Seq<char>,
    fields: Seq<(String, Json)>,
    items: Seq<Seq<char>>,
    known: Seq<Seq<char>>,
) -> Result<RecipeView, RecipeErrorView> {
    match result_of(fields, items, known) {
        Err(e) => Err(e),
        Ok(result) => match field_of(fields, "ingredients"@) {
            Some(Json::Array(list)) => match ingredients_of(list@) {
                Err(e) => Err(e),
                Ok(ingredients) => if ingredients.len() == 0 || ingredients.len() > 9 {
                    Err(RecipeErrorView::IngredientCount)
                } else {
                    Ok(
                        RecipeView::Shapeless {
                            recipe_id: id,
                            category: category_of(as_str(field_of(fields, "category"@))),
                            group: group_of(fields),
                            ingredients,
                            result,
                        },
                    )
                },
            },
            _ => Err(RecipeErrorView::MissingIngredients),
        },
    }
}

/// A recipe definition: an object with a string `type`, shaped or
/// shapeless crafting.
pub open spec fn recipe_of(id: Seq<char>, root: Json, items: Seq<Seq<char>>, known: Seq<Seq<char>>) -> Result<
    RecipeView,
    RecipeErrorView,
> {
    match root {
        Json::Object(fields) => match as_str(field_of(fields@, "type"@)) {
            None => Err(RecipeErrorView::MissingStringField("type"@)),
            Some(kind) => if kind == "minecraft:crafting_shaped"@ {
                shaped_of(id, fields@, items, known)
            } else if kind == "minecraft:crafting_shapeless"@ {
                shapeless_of(id, fields@, items, known)
            } else {
                Err(RecipeErrorView::UnsupportedType(kind))
            },
        },
        _ => Err(RecipeErrorView::NotAnObject),
    }
}

fn parse_rows(items: &Vec<Json>) -> (r: Option<Vec<String>>)
    ensures
        match r {
            Some(rows) => rows_of(items@) == Some(rows_view(rows@)),
            None => rows_of(items@) is None,
        },
{
    let mut rows: Vec<String> = Vec::new();
    let mut i: usize = 0;
    while i < items.len()
        invariant
            i <= items@.len(),
            rows@.len() == i,
            forall|k: int| 0 <= k < i ==> is_str(#[trigger] items@[k]),
            forall|k: int| 0 <= k < i ==> (#[trigger] rows@[k])@ == str_of(items@[k]),
        decreases items@.len() - i,
    {
        match &items[i] {
            Json::Str(s) => {
                rows.push(s.clone());
            },
            _ => {
                assert(!is_str(items@[i as int]));
                return None;
            },
        }
        i = i + 1;
    }
    assert(rows_view(rows@) =~= items@.map_values(|j: Json| str_of(j)));
    Some(rows)
}

fn parse_key(fields: &Vec<(String, Json)>) -> (r: Result<Vec<(char, OwnedRecipeIngredient)>, RecipeError>)
    ensures
        match r {
            Ok(key) => key_of(fields@) == Ok::<Seq<(char, IngredientView)>, RecipeErrorView>(key_view(key@)),
            Err(e) => key_of(fields@) == Err::<Seq<(char, IngredientView)>, RecipeErrorView>(e@),
        },
{
    let mut key: Vec<(char, OwnedRecipeIngredient)> = Vec::new();
    let mut i: usize = 0;
    assert(fields@.skip(0) =~= fields@);
    while i < fields.len()
        invariant
            i <= fields@.len(),
            key_of(fields@) == match key_of(fields@.skip(i as int)) {
                Ok(rest) => Ok(key_view(key@) + rest),
                Err(e) => Err(e),
            },
        decreases fields@.len() - i,
    {
        let ghost rest = fields@.skip(i as int);
        proof {
            assert(rest[0] == fields@[i as int]);
            assert(rest.drop_first() =~= fields@.skip(i + 1));
        }
        let symbol = crate::text::chars_of(fields[i].0.as_str());
        if symbol.len() != 1 {
            return Err(RecipeError::KeyNotOneCharacter);
        }
        if symbol[0] == ' ' {
            return Err(RecipeError::KeyIsSpace);
        }
        let ingredient = match parse_ingredient(&fields[i].1) {
            Ok(ingredient) => ingredient,
            Err(e) => {
                return Err(e);
            },
        };
        let ghost before = key_view(key@);
        key.push((symbol[0], ingredient));
        proof {
            assert(key_view(key@) =~= before.push((symbol@[0], ingredient_of(fields@[i as int].1)->Ok_0)));
            match key_of(fields@.skip(i + 1)) {
                Ok(r) => {
                    assert(key_view(key@) + r =~= before + (seq![(symbol@[0], ingredient_of(fields@[i as int].1)->Ok_0)] + r));
                },
                Err(e) => {},
            }
        }
        i = i + 1;
    }
    proof {
        assert(fields@.skip(fields@.len() as int) =~= Seq::<(String, Json)>::empty());
        assert(key_view(key@) + Seq::<(char, IngredientView)>::empty() =~= key_view(key@));
    }
    Ok(key)
}

fn parse_ingredients(items: &Vec<Json>) -> (r: Result<Vec<OwnedRecipeIngredient>, RecipeError>)
    ensures
        match r {
            Ok(v) => ingredients_of(items@) == Ok::<Seq<IngredientView>, RecipeErrorView>(ingredients_view(v@)),
            Err(e) => ingredients_of(items@) == Err::<Seq<IngredientView>, RecipeErrorView>(e@),
        },
{
    let mut out: Vec<OwnedRecipeIngredient> = Vec::new();
    let mut i: usize = 0;
    assert(items@.skip(0) =~= items@);
    while i < items.len()
        invariant
            i <= items@.len(),
            ingredients_of(items@) == match ingredients_of(items@.skip(i as int)) {
                Ok(rest) => Ok(ingredients_view(out@) + rest),
                Err(e) => Err(e),
            },
        decreases items@.len() - i,
    {
        let ghost rest = items@.skip(i as int);
        proof {
            assert(rest[0] == items@[i as int]);
            assert(rest.drop_first() =~= items@.skip(i + 1));
        }
        let ingredient = match parse_ingredient(&items[i]) {
            Ok(ingredient) => ingredient,
            Err(e) => {
                return Err(e);
            },
        };
        let ghost before = ingredients_view(out@);
        let ghost iv = ingredient@;
        out.push(ingredient);
        proof {
            assert(ingredients_view(out@) =~= before.push(iv));
            match ingredients_of(items@.skip(i + 1)) {
                Ok(r) => {
                    assert(ingredients_view(out@) + r =~= before + (seq![iv] + r));
                },
                Err(e) => {},
            }
        }
        i = i + 1;
    }
    proof {
        assert(items@.skip(items@.len() as int) =~= Seq::<Json>::empty());
        assert(ingredients_view(out@) + Seq::<IngredientView>::empty() =~= ingredients_view(out@));
    }
    Ok(out)
}

fn undefined_symbol(pattern: &Vec<String>, key: &Vec<(char, OwnedRecipeIngredient)>) -> (r: Option<char>)
    ensures
        r == undefined_in_rows(rows_view(pattern@), key_view(key@).map_values(|e: (char, IngredientView)| e.0)),
{
    let ghost keys = key_view(key@).map_values(|e: (char, IngredientView)| e.0);
    let ghost rows = rows_view(pattern@);
    let mut i: usize = 0;
    assert(rows.skip(0) =~= rows);
    while i < pattern.len()
        invariant
            i <= pattern@.len(),
            rows == rows_view(pattern@),
            keys == key_view(key@).map_values(|e: (char, IngredientView)| e.0),
            undefined_in_rows(rows, keys) == undefined_in_rows(rows.skip(i as int), keys),
        decreases pattern@.len() - i,
    {
        let ghost rest = rows.skip(i as int);
        proof {
            assert(rest[0] == rows[i as int]);
            assert(rest.drop_first() =~= rows.skip(i + 1));
        }
        let row = crate::text::chars_of(pattern[i].as_str());
        assert(undefined_in_rows(rows.skip(i as int), keys) == match undefined_in_row(rows[i as int], keys) {
            Some(c) => Some(c),
            None => undefined_in_rows(rows.skip(i + 1), keys),
        });
        let mut j: usize = 0;
        assert(row@.skip(0) =~= row@);
        while j < row.len()
            invariant
                j <= row@.len(),
                i < pattern@.len(),
                rows == rows_view(pattern@),
                row@ == rows[i as int],
                keys == key_view(key@).map_values(|e: (char, IngredientView)| e.0),
                undefined_in_row(row@, keys) == undefined_in_row(row@.skip(j as int), keys),
                undefined_in_rows(rows, keys) == match undefined_in_row(rows[i as int], keys) {
                    Some(c) => Some(c),
                    None => undefined_in_rows(rows.skip(i + 1), keys),
                },
            decreases row@.len() - j,
        {
            let ghost rrest = row@.skip(j as int);
            proof {
                assert(rrest[0] == row@[j as int]);
                assert(rrest.drop_first() =~= row@.skip(j + 1));
            }
            let c = row[j];
            if c != ' ' {
                let mut k: usize = 0;
                let mut found = false;
                while k < key.len()
                    invariant
                        k <= key@.len(),
                        keys == key_view(key@).map_values(|e: (char, IngredientView)| e.0),
                        found == exists|q: int| 0 <= q < k && keys[q] == c,
                    decreases key@.len() - k,
                {
                    assert(keys[k as int] == key@[k as int].0);
                    if key[k].0 == c {
                        found = true;
                    }
                    k = k + 1;
                }
                if !found {
                    proof {
                        assert(!keys.contains(c));
                    }
                    return Some(c);
                }
                proof {
                    let q = choose|q: int| 0 <= q < k && keys[q] == c;
                    assert(keys.contains(c));
                }
            }
            j = j + 1;
        }
        proof {
            assert(row@.skip(row@.len() as int) =~= Seq::<char>::empty());
        }
        i = i + 1;
    }
    proof {
        assert(rows.skip(rows.len() as int) =~= Seq::<Seq<char>>::empty());
    }
    None
}

/// Reads the recipe `id` from its JSON definition; see [`recipe_of`].
/// `items` are the registered item keys and `known` the names of the data
/// components.
pub fn parse_recipe(id: &Identifier, root: &Json, items: &Vec<String>, known: &Vec<String>) -> (r: Result<
    OwnedCraftingRecipe,
    RecipeError,
>)
    ensures
        result_view(r) == recipe_of(id_text(id@), *root, names_view(items@), names_view(known@)),
{
    let fields = match root {
        Json::Object(fields) => fields,
        _ => {
            return Err(RecipeError::NotAnObject);
        },
    };
    let kind = match get_str(fields, "type") {
        Some(kind) => kind,
        None => {
            return Err(RecipeError::MissingStringField(owned("type")));
        },
    };
    let category = parse_category(
        match get_str(fields, "category") {
            Some(c) => Some(c.as_str()),
            None => None,
        },
    );
    let group = match get_str(fields, "group") {
        Some(g) => if g.as_str().unicode_len() > 0 {
            Some(g.clone())
        } else {
            None
        },
        None => None,
    };
    let recipe_id = id.to_string();
    let shaped = crate::text::str_eq(kind.as_str(), "minecraft:crafting_shaped");
    let shapeless = crate::text::str_eq(kind.as_str(), "minecraft:crafting_shapeless");
    if !shaped && !shapeless {
        return Err(RecipeError::UnsupportedType(kind.clone()));
    }
    let result = match get_field(fields, "result") {
        Some(v) => match parse_item_stack(v, items, known) {
            Ok(result) => result,
            Err(e) => {
                return Err(e);
            },
        },
        None => {
            return Err(RecipeError::MissingResult);
        },
    };
    if shaped {
        let raw_rows = match get_field(fields, "pattern") {
            Some(Json::Array(rows)) => match parse_rows(rows) {
                Some(raw) => raw,
                None => {
                    return Err(RecipeError::PatternRowNotString);
                },
            },
            _ => {
                return Err(RecipeError::MissingPattern);
            },
        };
        let pattern = match normalize_pattern(raw_rows) {
            Ok(pattern) => pattern,
            Err(message) => {
                return Err(RecipeError::Pattern(message));
            },
        };
        let key = match get_field(fields, "key") {
            Some(Json::Object(key_fields)) => match parse_key(key_fields) {
                Ok(key) => key,
                Err(e) => {
                    return Err(e);
                },
            },
            _ => {
                return Err(RecipeError::MissingKey);
            },
        };
        if let Some(c) = undefined_symbol(&pattern, &key) {
            return Err(RecipeError::UndefinedKey(c));
        }
        let show_notification = match get_field(fields, "show_notification") {
            Some(Json::Bool(b)) => *b,
            _ => true,
        };
        proof {
            assert(key_view(key@).map_values(|e: (char, IngredientView)| e.0) =~= key_view(key@).map_values(
                |e: (char, IngredientView)| e.0,
            ));
        }
        Ok(OwnedCraftingRecipe::Shaped { recipe_id, category, group, show_notification, key, pattern, result })
    } else {
        let ingredients = match get_field(fields, "ingredients") {
            Some(Json::Array(list)) => match parse_ingredients(list) {
                Ok(v) => v,
                Err(e) => {
                    return Err(e);
                },
            },
            _ => {
                return Err(RecipeError::MissingIngredients);
            },
        };
        if ingredients.len() == 0 || ingredients.len() > 9 {
            return Err(RecipeError::IngredientCount);
        }
        Ok(OwnedCraftingRecipe::Shapeless { recipe_id, category, group, ingredients, result })
    }
}

/// The items of each item tag, by tag name.
pub open spec fn tag_items(tags: Seq<(String, Vec<String>)>, tag: Seq<char>) -> Option<Seq<Seq<char>>>
    decreases tags.len(),
{
    if tags.len() == 0 {
        None
    } else if tags[0].0@ == tag {
        Some(names_view(tags[0].1@))
    } else {
        tag_items(tags.drop_first(), tag)
    }
}

/// Whether an ingredient accepts the item with registry key `key`: by its
/// `minecraft:` identifier, or as a member of its tag.
pub open spec fn ingredient_accepts(i: IngredientView, key: Seq<char>, tags: Seq<(String, Vec<String>)>) -> bool {
    match i {
        IngredientView::Simple(id) => "minecraft:"@ + key == id,
        IngredientView::Tagged(tag) => tag_items(tags, tag) matches Some(items) && items.contains(key),
        IngredientView::OneOf(ids) => ids.contains("minecraft:"@ + key),
    }
}

/// A tag ingredient accepts exactly the items listed under the first entry
/// of `tags` named like its tag, whatever their place in that list; an
/// ingredient of several ids accepts each of them.
pub proof fn lemma_ingredient_members(tags: Seq<(String, Vec<String>)>, tag: Seq<char>, j: int, key: Seq<char>)
    requires
        0 <= j < tags.len(),
        tags[j].0@ == tag,
        forall|i: int| 0 <= i < j ==> (#[trigger] tags[i]).0@ != tag,
    ensures
        forall|k: int|
            0 <= k < tags[j].1@.len() ==> ingredient_accepts(IngredientView::Tagged(tag), #[trigger] tags[j].1@[k]@, tags),
        ingredient_accepts(IngredientView::Tagged(tag), key, tags) <==> exists|k: int|
            0 <= k < tags[j].1@.len() && #[trigger] tags[j].1@[k]@ == key,
    decreases j,
{
    if j > 0 {
        let rest = tags.drop_first();
        assert(tags[0].0@ != tag);
        assert forall|i: int| 0 <= i < j - 1 implies (#[trigger] rest[i]).0@ != tag by {
            assert(rest[i] == tags[i + 1]);
        }
        assert(rest[j - 1] == tags[j]);
        lemma_ingredient_members(rest, tag, j - 1, key);
        assert forall|k: int| 0 <= k < tags[j].1@.len() implies ingredient_accepts(
            IngredientView::Tagged(tag),
            #[trigger] tags[j].1@[k]@,
            tags,
        ) by {
            assert(ingredient_accepts(IngredientView::Tagged(tag), rest[j - 1].1@[k]@, rest));
        }
    } else {
        let items = names_view(tags[0].1@);
        assert forall|k: int| 0 <= k < tags[j].1@.len() implies ingredient_accepts(
            IngredientView::Tagged(tag),
            #[trigger] tags[j].1@[k]@,
            tags,
        ) by {
            assert(items[k] == tags[0].1@[k]@);
        }
        if ingredient_accepts(IngredientView::Tagged(tag), key, tags) {
            let k = choose|k: int| 0 <= k < items.len() && items[k] == key;
            assert(tags[j].1@[k]@ == key);
        }
        if exists|k: int| 0 <= k < tags[j].1@.len() && #[trigger] tags[j].1@[k]@ == key {
            let k = choose|k: int| 0 <= k < tags[j].1@.len() && #[trigger] tags[j].1@[k]@ == key;
            assert(items[k] == key);
        }
    }
}

/// An ingredient of several ids accepts the item of each of them.
pub proof fn lemma_one_of_members(ids: Seq<Seq<char>>, tags: Seq<(String, Vec<String>)>, key: Seq<char>)
    ensures
        ingredient_accepts(IngredientView::OneOf(ids), key, tags) <==> exists|k: int|
            0 <= k < ids.len() && #[trigger] ids[k] == "minecraft:"@ + key,
{
}

fn find_tag_items<'a>(tags: &'a Vec<(String, Vec<String>)>, tag: &String) -> (r: Option<&'a Vec<String>>)
    ensures
        match r {
            Some(items) => tag_items(tags@, tag@) == Some(names_view(items@)),
            None => tag_items(tags@, tag@) is None,
        },
{
    let mut i: usize = 0;
    assert(tags@.skip(0) =~= tags@);
    while i < tags.len()
        invariant
            i <= tags@.len(),
            tag_items(tags@, tag@) == tag_items(tags@.skip(i as int), tag@),
        decreases tags@.len() - i,
    {
        let ghost rest = tags@.skip(i as int);
        proof {
            assert(rest[0] == tags@[i as int]);
            assert(rest.drop_first() =~= tags@.skip(i + 1));
        }
        if crate::text::string_eq(&tags[i].0, tag) {
            return Some(&tags[i].1);
        }
        i = i + 1;
    }
    None
}

impl OwnedRecipeIngredient {
    /// Whether the ingredient accepts the item with registry key `key`;
    /// `tags` lists the items of each item tag. A tag must be known.
    pub fn match_item(&self, key: &str, tags: &Vec<(String, Vec<String>)>) -> (r: bool)
        requires
            self matches OwnedRecipeIngredient::Tagged(t) ==> tag_items(tags@, t@) is Some,
        ensures
            r == ingredient_accepts(self@, key@, tags@),
    {
        let mut name = owned("minecraft:");
        crate::text::push_str(&mut name, key);
        match self {
            OwnedRecipeIngredient::Simple(id) => crate::text::string_eq(&name, id),
            OwnedRecipeIngredient::Tagged(tag) => match find_tag_items(tags, tag) {
                Some(items) => contains_name(items, &owned(key)),
                None => false,
            },
            OwnedRecipeIngredient::OneOf(ids) => contains_name(ids, &name),
        }
    }
}

} // verus!
