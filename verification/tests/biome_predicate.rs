use pumpkin::biome_predicate::{BiomePredicate, BiomePredicateArgumentType};
use pumpkin::data_pack::DataPackManager;
use pumpkin::identifier::Identifier;
use pumpkin::reader::{CommandSyntaxError, StringReader};

const PLAINS: u8 = 1;
const FROZEN_RIVER: u8 = 2;
const THE_END: u8 = 9;

fn biomes() -> Vec<(String, u8)> {
    vec![
        ("plains".to_string(), PLAINS),
        ("frozen_river".to_string(), FROZEN_RIVER),
        ("the_end".to_string(), THE_END),
    ]
}

fn vanilla_biome_tags() -> Vec<(String, Vec<u16>)> {
    vec![("minecraft:is_overworld".to_string(), vec![PLAINS as u16, FROZEN_RIVER as u16])]
}

#[test]
fn parses_biome_and_tag() {
    let plains = BiomePredicateArgumentType
        .parse(&mut StringReader::new("minecraft:plains"), &biomes())
        .unwrap();
    let data_packs = DataPackManager::new(&Vec::new(), &vanilla_biome_tags());
    assert!(plains.test(PLAINS, &data_packs));

    let frozen = BiomePredicateArgumentType
        .parse(&mut StringReader::new("#minecraft:is_overworld"), &biomes())
        .unwrap();
    assert!(frozen.test(FROZEN_RIVER, &data_packs));
    assert!(!frozen.test(THE_END, &data_packs));
}

#[test]
fn unknown_biomes_and_bad_identifiers_are_errors() {
    assert_eq!(
        BiomePredicateArgumentType.parse(&mut StringReader::new("minecraft:nowhere"), &biomes()),
        Err(CommandSyntaxError::InvalidResource("minecraft:nowhere".to_string()))
    );
    let tag = BiomePredicateArgumentType
        .parse(&mut StringReader::new("#custom:group rest"), &biomes())
        .unwrap();
    assert_eq!(tag, BiomePredicate::Tag(Identifier::parse("custom:group").unwrap()));
    assert!(BiomePredicateArgumentType.parse(&mut StringReader::new("a:b:c"), &biomes()).is_err());
}
