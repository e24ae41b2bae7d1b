use pumpkin::recipe::normalize_pattern;

#[test]
fn normalizes_matcha_unicode_and_ragged_patterns() {
    let unicode = normalize_pattern(vec!["££".to_string(), "££".to_string()]).unwrap();
    assert_eq!(unicode, ["££", "££"]);

    let ragged = normalize_pattern(vec![" ~".to_string(), "O".to_string()]).unwrap();
    assert_eq!(ragged, [" ~", "O "]);
}

#[test]
fn pattern_must_fit_the_crafting_grid() {
    assert_eq!(
        normalize_pattern(Vec::new()),
        Err("shaped recipe pattern may not be empty".to_string())
    );
    assert_eq!(
        normalize_pattern(vec!["ABCD".to_string()]),
        Err("shaped recipe pattern must fit a 3x3 crafting grid".to_string())
    );
    assert_eq!(
        normalize_pattern(vec!["".to_string()]),
        Err("shaped recipe pattern must fit a 3x3 crafting grid".to_string())
    );
    let four_rows = vec!["A".to_string(); 4];
    assert!(normalize_pattern(four_rows).is_err());
}

use pumpkin::identifier::Identifier;
use pumpkin::json::Json;
use pumpkin::nbt::{NbtCompound, NbtTag};
use pumpkin::recipe::{
    json_to_nbt, parse_category, parse_ingredient, parse_item_stack, parse_recipe, OwnedCraftingRecipe,
    RecipeCategory, RecipeError, OwnedRecipeIngredient,
};

fn s(text: &str) -> Json {
    Json::Str(text.to_string())
}

fn obj(fields: Vec<(&str, Json)>) -> Json {
    Json::Object(fields.into_iter().map(|(k, v)| (k.to_string(), v)).collect())
}

fn registry() -> (Vec<String>, Vec<String>) {
    (
        vec!["campfire".to_string(), "stick".to_string(), "oak_log".to_string()],
        vec!["minecraft:block_state".to_string(), "minecraft:custom_name".to_string()],
    )
}

fn kindling() -> Json {
    // Fields in the sorted order in which the JSON reader hands them over.
    obj(vec![
        ("category", s("misc")),
        ("group", s("campfire")),
        ("key", obj(vec![("L", s("#minecraft:logs")), ("S", s("minecraft:stick"))])),
        ("pattern", Json::Array(vec![s("SS"), s("LL")])),
        (
            "result",
            obj(vec![
                ("components", obj(vec![("minecraft:block_state", obj(vec![("lit", s("false"))]))])),
                ("count", Json::Int(1)),
                ("id", s("minecraft:campfire")),
            ]),
        ),
        ("type", s("minecraft:crafting_shaped")),
    ])
}

#[test]
fn parses_matcha_kindling_recipe_with_unlit_component() {
    let (items, known) = registry();
    let recipe = parse_recipe(&Identifier::parse("crafting:campfire").unwrap(), &kindling(), &items, &known)
        .unwrap();
    let OwnedCraftingRecipe::Shaped { result, recipe_id, key, group, .. } = recipe else {
        panic!("expected shaped recipe");
    };
    assert_eq!(recipe_id, "crafting:campfire");
    assert_eq!(group, Some("campfire".to_string()));
    assert_eq!(key[0], ('L', OwnedRecipeIngredient::Tagged("minecraft:logs".to_string())));
    assert_eq!(result.item, "campfire");
    let (name, data) = &result.components[0];
    assert_eq!(name, "minecraft:block_state");
    let Some(NbtTag::Compound(properties)) = data else {
        panic!("block state component should be retained");
    };
    assert_eq!(properties.child_tags[0].0, "lit");
    assert_eq!(properties.child_tags[0].1, NbtTag::Str("false".to_string()));
}

#[test]
fn component_data_becomes_nbt() {
    assert_eq!(json_to_nbt(&Json::Null), NbtTag::End);
    assert_eq!(json_to_nbt(&Json::Bool(true)), NbtTag::Byte(1));
    assert_eq!(json_to_nbt(&Json::Bool(false)), NbtTag::Byte(0));
    assert_eq!(json_to_nbt(&Json::Int(-7)), NbtTag::Int(-7));
    assert_eq!(json_to_nbt(&Json::Int(2147483647)), NbtTag::Int(2147483647));
    assert_eq!(json_to_nbt(&Json::Int(2147483648)), NbtTag::Long(2147483648));
    assert_eq!(json_to_nbt(&Json::Int(-2147483649)), NbtTag::Long(-2147483649));
    let half = 0.5f64;
    assert_eq!(
        json_to_nbt(&Json::FloatBits(half.to_bits(), (half as f32).to_bits())),
        NbtTag::Float(0.5f32.to_bits())
    );
    assert_eq!(json_to_nbt(&Json::Unsigned(u64::MAX, (u64::MAX as f32).to_bits())), NbtTag::Float((u64::MAX as f32).to_bits()));
    assert_eq!(
        json_to_nbt(&Json::Array(vec![s("a"), Json::Int(1)])),
        NbtTag::List(vec![NbtTag::Str("a".to_string()), NbtTag::Int(1)])
    );
    // A name given twice keeps its first place and its last value.
    let nested = json_to_nbt(&obj(vec![("x", Json::Int(1)), ("y", obj(vec![])), ("x", Json::Int(2))]));
    assert_eq!(
        nested,
        NbtTag::Compound(NbtCompound {
            child_tags: vec![
                ("x".to_string(), NbtTag::Int(2)),
                ("y".to_string(), NbtTag::Compound(NbtCompound { child_tags: vec![] })),
            ],
        })
    );
}

#[test]
fn categories_default_to_misc() {
    assert_eq!(parse_category(Some("food")), RecipeCategory::Food);
    assert_eq!(parse_category(Some("redstone")), RecipeCategory::Redstone);
    assert_eq!(parse_category(Some("weird")), RecipeCategory::Misc);
    assert_eq!(parse_category(None), RecipeCategory::Misc);
}

#[test]
fn ingredients_are_items_tags_or_lists() {
    assert_eq!(parse_ingredient(&s("minecraft:stick")), Ok(OwnedRecipeIngredient::Simple("minecraft:stick".to_string())));
    assert_eq!(parse_ingredient(&s("#minecraft:logs")), Ok(OwnedRecipeIngredient::Tagged("minecraft:logs".to_string())));
    assert_eq!(
        parse_ingredient(&Json::Array(vec![s("a"), s("b")])),
        Ok(OwnedRecipeIngredient::OneOf(vec!["a".to_string(), "b".to_string()]))
    );
    assert_eq!(parse_ingredient(&Json::Array(vec![])), Err(RecipeError::EmptyAlternatives));
    assert_eq!(parse_ingredient(&Json::Array(vec![Json::Int(1)])), Err(RecipeError::AlternativeNotString));
    assert_eq!(parse_ingredient(&Json::Null), Err(RecipeError::BadIngredient));
}

#[test]
fn item_stacks_need_a_registered_item_and_a_positive_count() {
    let (items, known) = registry();
    let stack = parse_item_stack(&obj(vec![("id", s("stick"))]), &items, &known).unwrap();
    assert_eq!(stack.count, 1);
    assert_eq!(stack.item, "stick");
    let big = parse_item_stack(&obj(vec![("count", Json::Int(300)), ("id", s("stick"))]), &items, &known).unwrap();
    assert_eq!(big.count, 1);
    assert_eq!(
        parse_item_stack(&obj(vec![("count", Json::Int(0)), ("id", s("stick"))]), &items, &known),
        Err(RecipeError::ZeroCount)
    );
    assert_eq!(
        parse_item_stack(&obj(vec![("id", s("minecraft:diamond"))]), &items, &known),
        Err(RecipeError::UnknownItem("minecraft:diamond".to_string()))
    );
    assert_eq!(parse_item_stack(&s("stick"), &items, &known), Err(RecipeError::ResultNotAnObject));
    let removed = parse_item_stack(
        &obj(vec![
            ("components", obj(vec![("!minecraft:custom_name", Json::Null), ("minecraft:unknown", Json::Null)])),
            ("id", s("stick")),
        ]),
        &items,
        &known,
    )
    .unwrap();
    assert_eq!(removed.components, vec![("minecraft:custom_name".to_string(), None)]);
}

#[test]
fn recipe_errors_follow_the_definition() {
    let (items, known) = registry();
    let id = Identifier::parse("test:r").unwrap();
    assert_eq!(parse_recipe(&id, &s("x"), &items, &known), Err(RecipeError::NotAnObject));
    assert_eq!(
        parse_recipe(&id, &obj(vec![("type", s("minecraft:smelting"))]), &items, &known),
        Err(RecipeError::UnsupportedType("minecraft:smelting".to_string()))
    );
    assert_eq!(
        parse_recipe(&id, &obj(vec![]), &items, &known),
        Err(RecipeError::MissingStringField("type".to_string()))
    );
    let stick = obj(vec![("id", s("stick"))]);
    let shapeless = |ingredients: Vec<Json>| {
        obj(vec![
            ("ingredients", Json::Array(ingredients)),
            ("result", stick_copy()),
            ("type", s("minecraft:crafting_shapeless")),
        ])
    };
    assert_eq!(parse_recipe(&id, &shapeless(vec![]), &items, &known), Err(RecipeError::IngredientCount));
    let ten: Vec<Json> = (0..10).map(|_| s("minecraft:stick")).collect();
    assert_eq!(parse_recipe(&id, &shapeless(ten), &items, &known), Err(RecipeError::IngredientCount));
    let ok = parse_recipe(&id, &shapeless(vec![s("minecraft:stick")]), &items, &known).unwrap();
    assert!(matches!(ok, OwnedCraftingRecipe::Shapeless { ref ingredients, .. } if ingredients.len() == 1));
    let undefined = obj(vec![
        ("key", obj(vec![("S", s("minecraft:stick"))])),
        ("pattern", Json::Array(vec![s("S "), s(" X")])),
        ("result", stick),
        ("type", s("minecraft:crafting_shaped")),
    ]);
    assert_eq!(parse_recipe(&id, &undefined, &items, &known), Err(RecipeError::UndefinedKey('X')));
}

fn stick_copy() -> Json {
    obj(vec![("id", s("stick"))])
}

#[test]
fn ingredients_match_items_by_identifier_and_tag() {
    let tags = vec![("minecraft:logs".to_string(), vec!["oak_log".to_string()])];
    assert!(OwnedRecipeIngredient::Simple("minecraft:stick".to_string()).match_item("stick", &tags));
    assert!(!OwnedRecipeIngredient::Simple("stick".to_string()).match_item("stick", &tags));
    assert!(OwnedRecipeIngredient::Tagged("minecraft:logs".to_string()).match_item("oak_log", &tags));
    assert!(!OwnedRecipeIngredient::Tagged("minecraft:logs".to_string()).match_item("stick", &tags));
    let either = OwnedRecipeIngredient::OneOf(vec!["minecraft:a".to_string(), "minecraft:b".to_string()]);
    assert!(either.match_item("b", &tags));
    assert!(!either.match_item("c", &tags));
}
