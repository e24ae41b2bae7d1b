use pumpkin::arguments::{
    FunctionArgumentType, FunctionReference, ObjectiveCriteriaArgumentType, ScoreHolder,
    ScoreHolderArgumentType,
};
use pumpkin::identifier::Identifier;
use pumpkin::nbt_path::{NbtPathArgumentType, PathNode};
use pumpkin::packets::RenderType;
use pumpkin::reader::{CommandSyntaxError, StringReader};
use pumpkin::scoreboard::{Scoreboard, ScoreboardObjective, ScoreboardScore};
use pumpkin::text_component::TextComponent;

#[test]
fn parses_modern_statistic_criterion() {
    let mut reader = StringReader::new("minecraft.custom:minecraft.sneak_time trailing");
    assert_eq!(
        ObjectiveCriteriaArgumentType
            .parse(&mut reader)
            .expect("valid criterion"),
        "minecraft.custom:minecraft.sneak_time"
    );
}

#[test]
fn criterion_stops_at_the_space() {
    let mut reader = StringReader::new("dummy rest");
    assert_eq!(ObjectiveCriteriaArgumentType.parse(&mut reader).unwrap(), "dummy");
    assert_eq!(reader.cursor(), 5);
    assert_eq!(reader.peek(), Some(' '));
}

#[test]
fn parses_fake_holder_names_and_wildcard() {
    let mut fake = StringReader::new("#constant");
    assert!(matches!(
        ScoreHolderArgumentType::Multiple.parse(&mut fake),
        Ok(ScoreHolder::Name(name)) if name == "#constant"
    ));

    let mut wildcard = StringReader::new("*");
    assert!(matches!(
        ScoreHolderArgumentType::Multiple.parse(&mut wildcard),
        Ok(ScoreHolder::Wildcard)
    ));
}

#[test]
fn score_holder_selector_is_kept_as_text() {
    let mut reader = StringReader::new("@e[type=cow] 5");
    assert_eq!(
        ScoreHolderArgumentType::Single.parse(&mut reader),
        Ok(ScoreHolder::Selector("@e[type=cow]".to_string()))
    );
    assert!(ScoreHolderArgumentType::Multiple.allows_multiple());
    assert!(!ScoreHolderArgumentType::Single.allows_multiple());
}

#[test]
fn parses_functions_and_tags() {
    let mut function = StringReader::new("example:run");
    assert_eq!(
        FunctionArgumentType.parse(&mut function).unwrap(),
        FunctionReference {
            id: Identifier::parse("example:run").unwrap(),
            is_tag: false,
        }
    );

    let mut tag = StringReader::new("#example:group");
    assert_eq!(
        FunctionArgumentType.parse(&mut tag).unwrap(),
        FunctionReference {
            id: Identifier::parse("example:group").unwrap(),
            is_tag: true,
        }
    );
}

#[test]
fn identifier_defaults_to_minecraft_and_rejects_bad_characters() {
    let plain = Identifier::parse("stone").unwrap();
    assert_eq!(plain.namespace, "minecraft");
    assert_eq!(plain.path, "stone");
    let colon_first = Identifier::parse(":stone").unwrap();
    assert_eq!(colon_first.namespace, "minecraft");
    assert_eq!(Identifier::parse("a/b:c").map(|id| id.path), None);
    assert_eq!(Identifier::parse("Upper:case"), None);
    assert_eq!(Identifier::parse("ns:dir/file").unwrap().to_string(), "ns:dir/file");
}

#[test]
fn function_reference_with_invalid_identifier_fails() {
    let mut reader = StringReader::new("a:b:c rest");
    assert_eq!(
        FunctionArgumentType.parse(&mut reader),
        Err(CommandSyntaxError::InvalidIdentifier("a:b:c".to_string()))
    );
}

#[test]
fn nbt_path_reads_keys_and_indices() {
    let path = NbtPathArgumentType
        .parse(&mut StringReader::new("outer.values[-1]"))
        .unwrap();
    assert_eq!(
        path.nodes(),
        &vec![
            PathNode::Key("outer".to_string()),
            PathNode::Key("values".to_string()),
            PathNode::Index(-1),
        ]
    );
    let path = NbtPathArgumentType
        .parse(&mut StringReader::new("Motion[1][2] next"))
        .unwrap();
    assert_eq!(
        path.nodes(),
        &vec![
            PathNode::Key("Motion".to_string()),
            PathNode::Index(1),
            PathNode::Index(2),
        ]
    );
}

#[test]
fn nbt_path_rejects_malformed_paths() {
    for text in ["", "a.", "a[", "a[]", "a[x]", "a]", ".a", "a[1]b", "a[2147483648]", "a[-]"] {
        let mut reader = StringReader::new(text);
        assert!(
            matches!(
                NbtPathArgumentType.parse(&mut reader),
                Err(CommandSyntaxError::InvalidNbtPathNode(_))
            ),
            "{text} should not parse"
        );
    }
    let mut reader = StringReader::new("a[-2147483648]");
    assert_eq!(
        NbtPathArgumentType.parse(&mut reader).unwrap().nodes(),
        &vec![PathNode::Key("a".to_string()), PathNode::Index(i32::MIN)]
    );
}

fn scoreboard_with(holders: &[&str]) -> Scoreboard {
    let mut scoreboard = Scoreboard::new();
    scoreboard.add_objective(ScoreboardObjective::new(
        "kills".to_string(),
        TextComponent::text("Kills".to_string()),
        RenderType::Integer,
        None,
        "dummy".to_string(),
    ));
    for holder in holders {
        scoreboard.update_score(ScoreboardScore::new(holder.to_string(), "kills".to_string(), 1, None, None));
    }
    scoreboard
}

#[test]
fn score_holders_resolve_names_wildcards_and_selectors() {
    let scoreboard = scoreboard_with(&["zed", "amy"]);
    let none: Vec<String> = Vec::new();
    let name = ScoreHolder::Name("bob".to_string());
    assert_eq!(ScoreHolderArgumentType::get_score_holders(&name, &scoreboard, &none), Ok(vec!["bob".to_string()]));
    assert_eq!(
        ScoreHolderArgumentType::get_score_holders(&ScoreHolder::Wildcard, &scoreboard, &none),
        Ok(vec!["amy".to_string(), "zed".to_string()])
    );
    let selector = ScoreHolder::Selector("@e".to_string());
    assert_eq!(
        ScoreHolderArgumentType::get_score_holders(&selector, &scoreboard, &none),
        Err(CommandSyntaxError::NoEntities)
    );
    let found = vec!["cow".to_string(), "pig".to_string()];
    assert_eq!(ScoreHolderArgumentType::get_score_holders(&selector, &scoreboard, &found), Ok(found.clone()));

    assert_eq!(ScoreHolderArgumentType::get_score_holder(&name, &scoreboard, &none), Ok("bob".to_string()));
    assert_eq!(
        ScoreHolderArgumentType::get_score_holder(&ScoreHolder::Wildcard, &scoreboard, &none),
        Err(CommandSyntaxError::NotSingleEntity)
    );
    assert_eq!(
        ScoreHolderArgumentType::get_score_holder(&ScoreHolder::Wildcard, &scoreboard_with(&["amy"]), &none),
        Ok("amy".to_string())
    );
    assert_eq!(
        ScoreHolderArgumentType::get_score_holder(&ScoreHolder::Wildcard, &scoreboard_with(&[]), &none),
        Err(CommandSyntaxError::NoEntities)
    );
    assert_eq!(
        ScoreHolderArgumentType::get_score_holder(&selector, &scoreboard, &found),
        Err(CommandSyntaxError::NotSingleEntity)
    );
    assert_eq!(
        ScoreHolderArgumentType::get_score_holder(&selector, &scoreboard, &vec!["cow".to_string()]),
        Ok("cow".to_string())
    );
}
