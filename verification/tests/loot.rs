use pumpkin::json::Json;
use pumpkin::loot::{
    loot_from_draws, parse_block_loot_table, parse_condition, parse_entry, pick_weighted, pool_totals,
    roll_candidates, total_weight, LootPool,
    BlockLootTable, EnchantmentRequirement, LootCondition, LootEntry, LootEntryContent, LootError, LootPart,
    LootTool, RollsField,
};

fn s(text: &str) -> Json {
    Json::Str(text.to_string())
}

fn obj(fields: Vec<(&str, Json)>) -> Json {
    Json::Object(fields.into_iter().map(|(k, v)| (k.to_string(), v)).collect())
}

fn silk_touch() -> Json {
    obj(vec![
        ("condition", s("minecraft:match_tool")),
        (
            "predicate",
            obj(vec![(
                "predicates",
                obj(vec![(
                    "minecraft:enchantments",
                    Json::Array(vec![obj(vec![
                        ("enchantments", s("minecraft:silk_touch")),
                        ("levels", obj(vec![("min", Json::Int(1))])),
                    ])]),
                )]),
            )]),
        ),
    ])
}

fn not_silk_touch() -> Json {
    obj(vec![("condition", s("minecraft:inverted")), ("term", silk_touch())])
}

fn item(name: &str, condition: Json) -> Json {
    obj(vec![
        ("conditions", Json::Array(vec![condition])),
        ("name", s(name)),
        ("type", s("minecraft:item")),
    ])
}

fn matcha_gravel() -> Json {
    obj(vec![
        (
            "pools",
            Json::Array(vec![
                obj(vec![
                    ("bonus_rolls", Json::Int(0)),
                    (
                        "entries",
                        Json::Array(vec![obj(vec![
                            ("children", Json::Array(vec![item("minecraft:gravel", silk_touch())])),
                            ("type", s("minecraft:alternatives")),
                        ])]),
                    ),
                    ("rolls", Json::Int(1)),
                ]),
                obj(vec![
                    ("entries", Json::Array(vec![item("minecraft:dirt", not_silk_touch())])),
                    ("rolls", Json::Int(1)),
                ]),
                obj(vec![
                    ("entries", Json::Array(vec![item("minecraft:flint", not_silk_touch())])),
                    ("rolls", Json::Int(1)),
                ]),
            ]),
        ),
        ("type", s("minecraft:block")),
    ])
}

fn registries() -> (Vec<String>, Vec<String>) {
    (
        vec!["gravel".to_string(), "dirt".to_string(), "flint".to_string()],
        vec!["minecraft:silk_touch".to_string()],
    )
}

/// Each pool of the table rolls once, and its single entry always wins the draw.
fn drops(table: &BlockLootTable, tool: Option<&LootTool>) -> Vec<String> {
    let mut out = Vec::new();
    for pool in &table.pools {
        let weights: Vec<i32> = pool.entries.iter().map(|e| e.weight).collect();
        let picked = pick_weighted(&weights, 0);
        if let Some(mut loot) = pool.entries[picked].get_loot(tool) {
            out.append(&mut loot);
        }
    }
    out
}

#[test]
fn matcha_gravel_drops_dirt_and_flint_without_silk_touch() {
    let (items, enchantments) = registries();
    let table = parse_block_loot_table(&matcha_gravel(), &items, &enchantments).unwrap();
    assert_eq!(drops(&table, None), ["dirt", "flint"]);
}

#[test]
fn matcha_gravel_drops_gravel_with_silk_touch() {
    let (items, enchantments) = registries();
    let table = parse_block_loot_table(&matcha_gravel(), &items, &enchantments).unwrap();
    let tool = LootTool { enchantments: vec![("minecraft:silk_touch".to_string(), 1)] };
    assert_eq!(drops(&table, Some(&tool)), ["gravel"]);
}

#[test]
fn enchantment_levels_bound_the_match() {
    let (_, enchantments) = registries();
    let exact = obj(vec![
        ("condition", s("minecraft:match_tool")),
        (
            "predicate",
            obj(vec![(
                "predicates",
                obj(vec![(
                    "minecraft:enchantments",
                    Json::Array(vec![obj(vec![
                        ("enchantments", Json::Array(vec![s("minecraft:silk_touch")])),
                        ("levels", Json::Int(2)),
                    ])]),
                )]),
            )]),
        ),
    ]);
    let condition = parse_condition(&exact, &enchantments).unwrap();
    let level = |n: i32| LootTool { enchantments: vec![("minecraft:silk_touch".to_string(), n)] };
    assert!(condition.matches(Some(&level(2))));
    assert!(!condition.matches(Some(&level(1))));
    assert!(!condition.matches(Some(&level(3))));
    assert!(!condition.matches(None));
}

#[test]
fn loot_errors_name_what_is_unsupported() {
    let (items, enchantments) = registries();
    assert_eq!(
        parse_entry(&obj(vec![("name", s("minecraft:dirt")), ("type", s("minecraft:tag"))]), &items, &enchantments),
        Err(LootError::UnsupportedEntryType("minecraft:tag".to_string()))
    );
    assert_eq!(
        parse_entry(&obj(vec![("name", s("other:dirt")), ("type", s("minecraft:item"))]), &items, &enchantments),
        Err(LootError::NotMinecraftItem("other:dirt".to_string()))
    );
    assert_eq!(
        parse_entry(&obj(vec![("name", s("minecraft:stone")), ("type", s("minecraft:item"))]), &items, &enchantments),
        Err(LootError::UnknownItem("minecraft:stone".to_string()))
    );
    assert_eq!(
        parse_entry(&obj(vec![("extra", Json::Null), ("type", s("minecraft:item"))]), &items, &enchantments),
        Err(LootError::UnsupportedField(LootPart::Entry, "extra".to_string()))
    );
    assert_eq!(
        parse_entry(
            &obj(vec![("functions", Json::Array(vec![Json::Null])), ("type", s("minecraft:item"))]),
            &items,
            &enchantments
        ),
        Err(LootError::FunctionsUnsupported(LootPart::Entry))
    );
    let weighted = parse_entry(
        &obj(vec![("name", s("minecraft:dirt")), ("type", s("minecraft:item")), ("weight", Json::Int(5))]),
        &items,
        &enchantments,
    )
    .unwrap();
    assert_eq!((weighted.weight, weighted.quality), (5, 0));
    let negative_rolls = obj(vec![("pools", Json::Array(vec![obj(vec![("entries", Json::Array(vec![])), ("rolls", Json::Int(-1))])]))]);
    assert_eq!(
        parse_block_loot_table(&negative_rolls, &items, &enchantments).err(),
        Some(LootError::BadRolls(RollsField::Rolls))
    );
    assert_eq!(
        parse_block_loot_table(&obj(vec![("type", s("minecraft:chest"))]), &items, &enchantments).err(),
        Some(LootError::NotBlockTable)
    );
}

#[test]
fn weighted_pick_follows_cumulative_weights() {
    let weights = vec![2, 3, 1];
    assert_eq!(pick_weighted(&weights, 0), 0);
    assert_eq!(pick_weighted(&weights, 1), 0);
    assert_eq!(pick_weighted(&weights, 2), 1);
    assert_eq!(pick_weighted(&weights, 4), 1);
    assert_eq!(pick_weighted(&weights, 5), 2);
}

fn plain_entry(item: &str, conditions: Vec<LootCondition>) -> LootEntry {
    LootEntry { content: LootEntryContent::Item(item.to_string()), weight: 1, quality: 0, conditions }
}

#[test]
fn rolls_draw_among_entries_that_hold_with_positive_weight() {
    let silk = vec![LootCondition::MatchToolEnchantments(vec![EnchantmentRequirement {
        enchantments: vec!["minecraft:silk_touch".to_string()],
        min_level: 1,
        max_level: None,
    }])];
    let entries = vec![
        plain_entry("a", Vec::new()),
        plain_entry("b", silk),
        plain_entry("c", Vec::new()),
        plain_entry("d", Vec::new()),
    ];
    let weights = vec![2, 5, 0, 3];
    let (positions, chosen) = roll_candidates(&entries, &weights, None);
    assert_eq!(positions, vec![0, 3]);
    assert_eq!(chosen, vec![2, 3]);
    let tool = LootTool { enchantments: vec![("minecraft:silk_touch".to_string(), 1)] };
    let (positions, chosen) = roll_candidates(&entries, &weights, Some(&tool));
    assert_eq!(positions, vec![0, 1, 3]);
    assert_eq!(chosen, vec![2, 5, 3]);
    assert_eq!(total_weight(&chosen), Some(10));
    assert_eq!(pick_weighted(&chosen, 6), 1);
    assert_eq!(total_weight(&Vec::new()), None);
    assert_eq!(total_weight(&vec![i32::MAX, 1]), None);
}

#[test]
fn tables_drop_what_the_draws_pick() {
    let silk = || {
        vec![LootCondition::MatchToolEnchantments(vec![EnchantmentRequirement {
            enchantments: vec!["minecraft:silk_touch".to_string()],
            min_level: 1,
            max_level: None,
        }])]
    };
    let table = BlockLootTable {
        pools: vec![
            LootPool {
                rolls: Json::Int(3),
                bonus_rolls: None,
                entries: vec![plain_entry("a", Vec::new()), plain_entry("b", silk()), plain_entry("d", Vec::new())],
                conditions: Vec::new(),
            },
            LootPool {
                rolls: Json::Int(1),
                bonus_rolls: None,
                entries: vec![plain_entry("gem", Vec::new())],
                conditions: silk(),
            },
        ],
    };
    let weights = vec![vec![2, 5, 3], vec![1]];
    assert_eq!(pool_totals(&table, None, &weights), vec![Some(5), None]);
    let draws = vec![vec![0, 4, 2], vec![]];
    assert_eq!(loot_from_draws(&table, None, &weights, &draws), vec!["a", "d", "d"]);
    let tool = LootTool { enchantments: vec![("minecraft:silk_touch".to_string(), 1)] };
    assert_eq!(pool_totals(&table, Some(&tool), &weights), vec![Some(10), Some(1)]);
    let draws = vec![vec![3], vec![0]];
    assert_eq!(loot_from_draws(&table, Some(&tool), &weights, &draws), vec!["b", "gem"]);
}
