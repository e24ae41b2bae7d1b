use pumpkin::item_predicate::{
    split_top_level, ItemChoice, ItemPredicate, ItemPredicateArgumentType, ItemRegistry,
    PredicateStack,
};
use pumpkin::reader::{CommandSyntaxError, StringReader};

const BLAZE_POWDER: u16 = 1;
const STICK: u16 = 2;
const DIAMOND_PICKAXE: u16 = 3;
const PAPER: u16 = 4;
const POTION: u16 = 5;

fn registry() -> ItemRegistry {
    ItemRegistry {
        items: vec![
            ("minecraft:blaze_powder".to_string(), BLAZE_POWDER),
            ("minecraft:stick".to_string(), STICK),
            ("minecraft:diamond_pickaxe".to_string(), DIAMOND_PICKAXE),
            ("minecraft:paper".to_string(), PAPER),
            ("minecraft:potion".to_string(), POTION),
        ],
        item_tags: vec![("minecraft:tools".to_string(), vec![DIAMOND_PICKAXE])],
        components: vec![
            "minecraft:repair_cost".to_string(),
            "minecraft:item_model".to_string(),
            "minecraft:potion_contents".to_string(),
            "minecraft:max_stack_size".to_string(),
        ],
    }
}

fn parse(raw: &str) -> ItemPredicate {
    ItemPredicateArgumentType.parse(&mut StringReader::new(raw), &registry()).unwrap()
}

fn stack(count: u8, item: u16, components: &[&str]) -> PredicateStack {
    PredicateStack { count, item, components: components.iter().map(|c| c.to_string()).collect() }
}

#[test]
fn matches_plain_item_and_rejects_empty_stack() {
    let predicate = parse("minecraft:blaze_powder");
    assert!(predicate.test(&stack(1, BLAZE_POWDER, &[]), &vec![]));
    assert!(!predicate.test(&stack(0, BLAZE_POWDER, &[]), &vec![]));
    assert!(!predicate.test(&stack(1, STICK, &[]), &vec![]));
}

#[test]
fn matches_presence_component() {
    let predicate = parse("*[minecraft:repair_cost]");
    let pickaxe = stack(1, DIAMOND_PICKAXE, &["minecraft:max_stack_size", "minecraft:repair_cost"]);
    assert!(predicate.test(&pickaxe, &vec![false]));
}

#[test]
fn matches_item_model_component() {
    let predicate = parse("*[minecraft:item_model=\"minecraft:heart_container\"]");
    assert_eq!(
        predicate.components[0].expected,
        Some("\"minecraft:heart_container\"".to_string())
    );
    let paper = stack(1, PAPER, &["minecraft:item_model"]);
    assert!(predicate.test(&paper, &vec![true]));
    assert!(!predicate.test(&paper, &vec![false]));
}

#[test]
fn matches_potion_and_negated_max_stack_size_components() {
    let predicate = parse(
        "minecraft:potion[minecraft:potion_contents={potion:\"minecraft:water\"},!minecraft:max_stack_size=64]",
    );
    assert_eq!(predicate.components.len(), 2);
    assert!(predicate.components[1].negated);
    assert_eq!(predicate.components[0].expected, Some("{potion:\"minecraft:water\"}".to_string()));
    let water = stack(1, POTION, &["minecraft:potion_contents", "minecraft:max_stack_size"]);
    // The potion contents equal the expected water potion; a stack size of one is not 64.
    assert!(predicate.test(&water, &vec![true, false]));
}

#[test]
fn names_without_namespace_tags_and_errors() {
    let predicate = parse("stick");
    assert_eq!(predicate.item, ItemChoice::Item(STICK));
    let tools = parse("#tools");
    assert_eq!(tools.item, ItemChoice::Tag(vec![DIAMOND_PICKAXE]));
    let read = |raw: &str| ItemPredicateArgumentType.parse(&mut StringReader::new(raw), &registry());
    assert_eq!(read("diamond").err(), Some(CommandSyntaxError::InvalidItem("minecraft:diamond".to_string())));
    assert_eq!(read("#nope").err(), Some(CommandSyntaxError::UnknownItemTag("minecraft:nope".to_string())));
    assert_eq!(
        read("*[minecraft:bogus]").err(),
        Some(CommandSyntaxError::UnknownItemComponent("minecraft:bogus".to_string()))
    );
    assert_eq!(
        read("*[repair_cost,]").err(),
        Some(CommandSyntaxError::MalformedItemComponent("repair_cost,".to_string()))
    );
    let mut reader = StringReader::new("stick[item_model='a b'] rest");
    let spaced = ItemPredicateArgumentType.parse(&mut reader, &registry()).unwrap();
    assert_eq!(spaced.components[0].expected, Some("'a b'".to_string()));
    assert_eq!(reader.peek(), Some(' '));
}

#[test]
fn top_level_splitting_skips_nested_and_quoted_commas() {
    let raw: Vec<char> = "a={x:1,y:[1,2]},b=\"c,d\",e".chars().collect();
    let pieces: Vec<String> = split_top_level(&raw, ',').iter().map(|p| p.iter().collect()).collect();
    assert_eq!(pieces, ["a={x:1,y:[1,2]}", "b=\"c,d\"", "e"]);
}
