use pumpkin::data_pack::{
    command_error_text, function_id_from_path, DataPackFunction, FunctionCommand, FunctionRun, is_relevant_data_file, parse_function, parse_function_text,
    tag_id_from_path, DataPackManager, FunctionExecutionError, FunctionExecutionState,
    FunctionFileError, LoadedPack, PackFile, Registries, TagFile, TagFileValue,
};
use pumpkin::identifier::Identifier;

fn id(text: &str) -> Identifier {
    Identifier::parse(text).unwrap()
}

fn tag(replace: bool, values: &[&str]) -> TagFile {
    TagFile {
        replace,
        values: values.iter().map(|v| TagFileValue::Id(v.to_string())).collect(),
    }
}

fn text_file(path: &str, text: &str) -> PackFile {
    PackFile { path: path.to_string(), contents: text.as_bytes().to_vec(), tag: None }
}

fn tag_file(path: &str, file: TagFile) -> PackFile {
    PackFile { path: path.to_string(), contents: Vec::new(), tag: Some(file) }
}

fn registries() -> Registries {
    Registries {
        entity_types: vec![
            ("zombie".to_string(), 1),
            ("skeleton".to_string(), 2),
            ("cow".to_string(), 3),
        ],
        biomes: vec![
            ("plains".to_string(), 1),
            ("frozen_river".to_string(), 2),
            ("snowy_plains".to_string(), 3),
        ],
    }
}

fn vanilla_entity_tags() -> Vec<(String, Vec<u16>)> {
    vec![
        ("minecraft:undead".to_string(), vec![1, 2]),
        ("minecraft:skeletons".to_string(), vec![2]),
    ]
}

#[test]
fn function_files_skip_comments_and_number_lines() {
    let f = parse_function_text(&id("example:hello"), "# comment\n\n  say hello  \r\nsay bye").unwrap();
    assert_eq!(f.commands.len(), 2);
    assert_eq!(f.commands[0].command, "say hello");
    assert_eq!(f.commands[0].line, 3);
    assert_eq!(f.commands[1].command, "say bye");
    assert_eq!(f.commands[1].line, 4);
}

#[test]
fn function_files_reject_slashes_macros_and_bad_utf8() {
    assert_eq!(
        parse_function_text(&id("a:b"), "say ok\n  /say no\n$macro"),
        Err(FunctionFileError::LeadingSlash(2))
    );
    assert_eq!(
        parse_function_text(&id("a:b"), "say ok\n$macro $(x)"),
        Err(FunctionFileError::MacroLine(2))
    );
    assert_eq!(parse_function(&id("a:b"), &[0xff, 0xfe]), Err(FunctionFileError::InvalidUtf8));
    assert_eq!(parse_function(&id("a:b"), b"say hi\n").unwrap().commands[0].command, "say hi");
}

#[test]
fn pack_paths_name_functions_and_tags() {
    assert_eq!(
        function_id_from_path("data/example/function/dir/hello.mcfunction"),
        Some(id("example:dir/hello"))
    );
    assert_eq!(function_id_from_path("data/example/functions/hello.mcfunction"), None);
    assert_eq!(
        tag_id_from_path("data/minecraft/tags/worldgen/biome/is_frozen.json", "worldgen/biome"),
        Some(id("minecraft:is_frozen"))
    );
    assert_eq!(tag_id_from_path("data/minecraft/tags/function/load.txt", "function"), None);
    assert!(is_relevant_data_file("data/example/function/hello.MCFUNCTION"));
    assert!(is_relevant_data_file("data\\minecraft\\tags\\function\\load.json"));
    assert!(!is_relevant_data_file("data/minecraft/recipe/x.json"));
    assert!(!is_relevant_data_file("assets/example/function/hello.mcfunction"));
    assert!(!is_relevant_data_file("data/example/function/.mcfunction"));
}

#[test]
fn loads_directory_functions_and_tags() {
    let pack = LoadedPack {
        name: "test".to_string(),
        files: vec![
            text_file("data/example/function/hello.mcfunction", "# comment\n\nsay hello\n"),
            tag_file("data/minecraft/tags/function/load.json", tag(false, &["example:hello"])),
        ],
    };
    let manager = DataPackManager::from_packs(&Vec::new(), &Vec::new(), &registries(), &vec![pack]);
    assert_eq!(manager.loaded_packs(), &["test"]);
    assert_eq!(manager.load_functions(), &vec![id("example:hello")]);
    let function = manager.function(&id("example:hello")).unwrap();
    assert_eq!(function.commands.len(), 1);
    assert_eq!(function.commands[0].command, "say hello");
    assert_eq!(function.commands[0].line, 3);
}

#[test]
fn loads_nested_entity_type_tags_on_top_of_vanilla_tags() {
    let pack = LoadedPack {
        name: "test".to_string(),
        files: vec![
            tag_file(
                "data/example/tags/entity_type/hostiles.json",
                tag(false, &["minecraft:zombie", "#minecraft:skeletons"]),
            ),
            tag_file("data/minecraft/tags/entity_type/undead.json", tag(true, &["minecraft:cow"])),
        ],
    };
    let manager =
        DataPackManager::from_packs(&vanilla_entity_tags(), &Vec::new(), &registries(), &vec![pack]);
    let hostiles = id("example:hostiles");
    let undead = id("minecraft:undead");
    assert!(manager.entity_type_is_tagged(&hostiles, 1));
    assert!(manager.entity_type_is_tagged(&hostiles, 2));
    assert!(!manager.entity_type_is_tagged(&hostiles, 3));
    assert!(manager.entity_type_is_tagged(&undead, 3));
    assert!(!manager.entity_type_is_tagged(&undead, 1));
}

#[test]
fn default_manager_exposes_vanilla_entity_type_tags() {
    let manager = DataPackManager::new(&vanilla_entity_tags(), &Vec::new());
    let undead = id("minecraft:undead");
    assert!(manager.entity_type_is_tagged(&undead, 1));
    assert!(!manager.entity_type_is_tagged(&undead, 3));
}

#[test]
fn loads_data_pack_biome_tags() {
    let pack = LoadedPack {
        name: "test".to_string(),
        files: vec![tag_file(
            "data/minecraft/tags/worldgen/biome/is_frozen.json",
            tag(false, &["minecraft:frozen_river", "minecraft:snowy_plains"]),
        )],
    };
    let manager = DataPackManager::from_packs(&Vec::new(), &Vec::new(), &registries(), &vec![pack]);
    let frozen = id("minecraft:is_frozen");
    assert!(manager.biome_is_tagged(&frozen, 2));
    assert!(!manager.biome_is_tagged(&frozen, 1));
}

#[test]
fn later_packs_override_functions_and_replace_tags() {
    let packs: Vec<LoadedPack> = [("b", "say new", true), ("a", "say old", false)]
        .iter()
        .map(|(name, command, replace)| LoadedPack {
            name: name.to_string(),
            files: vec![
                text_file("data/example/function/shared.mcfunction", command),
                tag_file("data/minecraft/tags/function/tick.json", tag(*replace, &["example:shared"])),
            ],
        })
        .collect();
    let manager = DataPackManager::from_packs(&Vec::new(), &Vec::new(), &registries(), &packs);
    let function = manager.function(&id("example:shared")).unwrap();
    assert_eq!(function.commands[0].command, "say new");
    assert_eq!(manager.tick_functions().len(), 1);
    assert_eq!(manager.loaded_packs(), &["a", "b"]);
}

#[test]
fn merged_tags_without_replace_list_functions_twice() {
    let packs: Vec<LoadedPack> = ["a", "b"]
        .iter()
        .map(|name| LoadedPack {
            name: name.to_string(),
            files: vec![
                text_file("data/example/function/shared.mcfunction", "say hi"),
                tag_file("data/minecraft/tags/function/tick.json", tag(false, &["example:shared"])),
            ],
        })
        .collect();
    let manager = DataPackManager::from_packs(&Vec::new(), &Vec::new(), &registries(), &packs);
    assert_eq!(manager.tick_functions().len(), 2);
}

#[test]
fn recursive_tags_are_expanded_once() {
    let mut manager = DataPackManager::new(&Vec::new(), &Vec::new());
    manager.put_function(parse_function_text(&id("a:f"), "say f").unwrap());
    manager.apply_function_tag(&id("a:one"), &tag(false, &["#a:two", "a:f", "a:missing"]));
    manager.apply_function_tag(&id("a:two"), &tag(false, &["#a:one", "a:f"]));
    assert_eq!(manager.resolve_tag(&id("a:one")), vec![id("a:f"), id("a:f")]);
    assert!(manager.has_tag(&id("a:two")));
    assert_eq!(
        manager.tag_functions(&id("a:three")),
        Err(FunctionExecutionError::UnknownTag(id("a:three")))
    );
    assert!(matches!(
        manager.function_to_run(&id("a:nothing")),
        Err(FunctionExecutionError::UnknownFunction(_))
    ));
    let mut cycle = DataPackManager::new(
        &vec![
            ("t:x".to_string(), vec![]),
        ],
        &Vec::new(),
    );
    cycle.apply_entity_type_tag(&id("t:x"), &tag(false, &["#t:y"]), &registries().entity_types);
    cycle.apply_entity_type_tag(&id("t:y"), &tag(false, &["#t:x"]), &registries().entity_types);
    assert!(!cycle.entity_type_is_tagged(&id("t:x"), 1));
}

#[test]
fn execution_limits_depth_and_command_count() {
    let mut state = FunctionExecutionState::new(2);
    assert_eq!(state.count_command(), Ok(()));
    assert_eq!(state.count_command(), Ok(()));
    assert_eq!(state.count_command(), Err(FunctionExecutionError::CommandLimit(2)));
    let mut deep = FunctionExecutionState::new(-5);
    assert_eq!(deep.max_commands, 0);
    for _ in 0..128 {
        assert_eq!(deep.enter(), Ok(()));
    }
    assert_eq!(deep.enter(), Err(FunctionExecutionError::RecursionLimit));
    deep.leave();
    assert_eq!(deep.depth, 127);
}

#[test]
fn command_failures_are_reported_once() {
    let function = DataPackFunction {
        id: id("pack:setup"),
        commands: vec![FunctionCommand { line: 12, command: "say \"hi\"".to_string() }],
    };
    let command = &function.commands[0];
    assert_eq!(
        command_error_text(&function, command, "boom"),
        "pack:setup:12: command \"say \\\"hi\\\"\" failed: boom"
    );
    let mut manager = DataPackManager::new(&Vec::new(), &Vec::new());
    let first = manager.report_command_error(&function, command, "boom");
    assert_eq!(first, Some("pack:setup:12: command \"say \\\"hi\\\"\" failed: boom".to_string()));
    assert_eq!(manager.report_command_error(&function, command, "boom"), None);
    // Another detail makes another message.
    assert!(manager.report_command_error(&function, command, "other").is_some());
    let zero = FunctionCommand { line: 0, command: "x".to_string() };
    assert_eq!(command_error_text(&function, &zero, ""), "pack:setup:0: command \"x\" failed: ");
}

#[test]
fn validation_lists_missing_required_tags() {
    let pack = LoadedPack {
        name: "test".to_string(),
        files: vec![
            tag_file(
                "data/example/tags/entity_type/hostiles.json",
                TagFile {
                    replace: false,
                    values: vec![
                        TagFileValue::Id("#minecraft:skeletons".to_string()),
                        TagFileValue::Id("#example:ghosts".to_string()),
                        TagFileValue::Detailed { id: "#example:optional".to_string(), required: false },
                        TagFileValue::Id("minecraft:zombie".to_string()),
                    ],
                },
            ),
            tag_file("data/example/tags/worldgen/biome/wet.json", tag(false, &["#example:swamps"])),
        ],
    };
    let manager =
        DataPackManager::from_packs(&vanilla_entity_tags(), &Vec::new(), &registries(), &vec![pack]);
    assert_eq!(manager.validate_entity_type_tags(), vec![(id("example:hostiles"), id("example:ghosts"))]);
    assert_eq!(manager.validate_biome_tags(), vec![(id("example:wet"), id("example:swamps"))]);
    let clean = DataPackManager::new(&vanilla_entity_tags(), &Vec::new());
    assert!(clean.validate_entity_type_tags().is_empty());
}

#[test]
fn manager_lists_function_and_tag_ids() {
    let pack = LoadedPack {
        name: "test".to_string(),
        files: vec![
            text_file("data/example/function/b.mcfunction", "say b"),
            text_file("data/example/function/a.mcfunction", "say a"),
            tag_file("data/minecraft/tags/function/load.json", tag(false, &["example:a"])),
        ],
    };
    let manager = DataPackManager::from_packs(&Vec::new(), &Vec::new(), &registries(), &vec![pack]);
    assert_eq!(manager.function_ids(), vec![id("example:a"), id("example:b")]);
    assert_eq!(manager.tag_ids(), vec![id("minecraft:load")]);
    assert!(DataPackManager::new(&Vec::new(), &Vec::new()).function_ids().is_empty());
}

#[test]
fn function_runs_count_report_and_stop_at_the_limit() {
    let pack = LoadedPack {
        name: "test".to_string(),
        files: vec![text_file("data/example/function/f.mcfunction", "say a\nsay b\nsay c")],
    };
    let mut manager = DataPackManager::from_packs(&Vec::new(), &Vec::new(), &registries(), &vec![pack]);
    let mut state = FunctionExecutionState::new(2);
    assert_eq!(
        FunctionRun::start(&manager, &id("example:none"), &mut state).err(),
        Some(FunctionExecutionError::UnknownFunction(id("example:none")))
    );
    let mut run = FunctionRun::start(&manager, &id("example:f"), &mut state).unwrap();
    assert_eq!(state.depth, 1);
    assert_eq!(run.next_command(&mut state), Some("say a".to_string()));
    assert_eq!(run.record(&mut manager, Ok(())), None);
    assert_eq!(run.next_command(&mut state), Some("say b".to_string()));
    assert_eq!(
        run.record(&mut manager, Err("boom".to_string())),
        Some("example:f:2: command \"say b\" failed: boom".to_string())
    );
    assert_eq!(run.next_command(&mut state), None);
    assert_eq!(run.finish(&mut state), Err(FunctionExecutionError::CommandLimit(2)));
    assert_eq!(state.depth, 0);
    let mut state = FunctionExecutionState::new(10);
    let mut run = FunctionRun::start(&manager, &id("example:f"), &mut state).unwrap();
    while let Some(_) = run.next_command(&mut state) {
        run.record(&mut manager, Ok(()));
    }
    assert_eq!(run.finish(&mut state), Ok(3));
}
