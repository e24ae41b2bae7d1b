use pumpkin::data_files::{
    join, minecraft_data_dir, DataFileRoot, WanderingTraderData, WeatherData, WorldClocksData,
    WorldGenSettingsData,
};

#[test]
fn defaults_match_vanilla() {
    let weather = WeatherData::default();
    assert_eq!(weather.clear_weather_time, -1);
    assert!(!weather.raining);
    let trader = WanderingTraderData::default();
    assert_eq!(trader.spawn_delay, 24_000);
    assert_eq!(trader.spawn_chance, 25);
    assert!(WorldClocksData::default().clocks.is_empty());
    let settings = WorldGenSettingsData::new("flat", 7);
    assert!(settings.generate_structures);
    assert!(!settings.bonus_chest);
    assert_eq!(DataFileRoot { data: 3 }.data, 3);
}

#[test]
fn data_directory_is_under_the_world() {
    assert_eq!(minecraft_data_dir("world"), "world/data/minecraft");
    assert_eq!(minecraft_data_dir("world/"), "world/data/minecraft");
    assert_eq!(minecraft_data_dir(""), "data/minecraft");
    assert_eq!(join("a", "b"), "a/b");
}

use pumpkin::data_files::{
    game_rules_from_nbt, game_rules_to_nbt, world_clocks_from_nbt, world_clocks_to_nbt,
    DimensionClock, GameRuleValue, GameRules,
};
use pumpkin::nbt::{NbtCompound, NbtTag};

fn compound(entries: Vec<(&str, NbtTag)>) -> NbtCompound {
    let mut c = NbtCompound::new();
    for (k, v) in entries {
        c.put(k.to_string(), v);
    }
    c
}

#[test]
fn world_clocks_round_trip_through_nbt() {
    let clocks = WorldClocksData {
        clocks: vec![
            ("minecraft:overworld".to_string(), DimensionClock { total_ticks: 1200 }),
            ("minecraft:the_nether".to_string(), DimensionClock { total_ticks: -5 }),
        ],
        data_version: 4903,
    };
    let root = world_clocks_to_nbt(&clocks);
    let inner = match root.get(&"data".to_string()) {
        Some(NbtTag::Compound(c)) => c,
        _ => panic!("data compound"),
    };
    assert_eq!(inner.get(&"DataVersion".to_string()), Some(&NbtTag::Int(4903)));
    assert_eq!(world_clocks_from_nbt(&root), clocks);
}

#[test]
fn world_clocks_skip_other_entries_and_default_missing_ticks() {
    let inner = compound(vec![
        ("DataVersion", NbtTag::Int(7)),
        ("a", compound_tag(vec![])),
        ("b", NbtTag::Int(3)),
    ]);
    let root = compound(vec![("data", NbtTag::Compound(inner))]);
    let read = world_clocks_from_nbt(&root);
    assert_eq!(read.data_version, 7);
    assert_eq!(read.clocks, vec![("a".to_string(), DimensionClock { total_ticks: 0 })]);
    assert_eq!(world_clocks_from_nbt(&NbtCompound::new()), WorldClocksData::default());
}

fn compound_tag(entries: Vec<(&str, NbtTag)>) -> NbtTag {
    NbtTag::Compound(compound(entries))
}

fn rules(keep_inventory: bool, spawn_radius: i64) -> GameRules {
    GameRules {
        rules: vec![
            ("keep_inventory".to_string(), GameRuleValue::Bool(keep_inventory)),
            ("spawn_radius".to_string(), GameRuleValue::Int(spawn_radius)),
        ],
    }
}

#[test]
fn game_rules_round_trip_through_nbt() {
    let saved = rules(true, 3);
    let root = game_rules_to_nbt(&saved, 4903);
    let inner = match root.get(&"data".to_string()) {
        Some(NbtTag::Compound(c)) => c,
        _ => panic!("data compound"),
    };
    assert_eq!(inner.get(&"minecraft:keep_inventory".to_string()), Some(&NbtTag::Byte(1)));
    assert_eq!(inner.get(&"minecraft:spawn_radius".to_string()), Some(&NbtTag::Int(3)));
    assert_eq!(game_rules_from_nbt(&root, &rules(false, 10)), saved);
}

#[test]
fn game_rules_keep_defaults_for_missing_or_mistyped_entries() {
    let inner = compound(vec![("minecraft:keep_inventory", NbtTag::Int(1)), ("minecraft:spawn_radius", NbtTag::Int(8))]);
    let root = compound(vec![("data", NbtTag::Compound(inner))]);
    assert_eq!(game_rules_from_nbt(&root, &rules(false, 10)), rules(false, 8));
    assert_eq!(game_rules_from_nbt(&NbtCompound::new(), &rules(true, 1)), rules(true, 1));
}
