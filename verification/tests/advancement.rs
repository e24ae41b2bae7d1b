use pumpkin::advancement::display_text;
use pumpkin::json::Json;
use pumpkin::advancement::{
    layout_and_sort, parse_advancement, root_and_depth, AdvancementDisplay, AdvancementError,
    FrameType, RawAdvancement,
};
use pumpkin::identifier::Identifier;
use pumpkin::text_component::TextComponent;

fn id(text: &str) -> Identifier {
    Identifier::parse(text).unwrap()
}

fn display(icon: &str) -> AdvancementDisplay<String> {
    AdvancementDisplay {
        title: TextComponent::text("Title".to_string()),
        description: TextComponent::text("Description".to_string()),
        icon: icon.to_string(),
        frame: FrameType::Task,
        background: None,
        show_toast: true,
        hidden: false,
    }
}

fn raw(parent: Option<&str>, criteria: &[&str], shown: bool) -> RawAdvancement<String> {
    RawAdvancement {
        parent: parent.map(|p| p.to_string()),
        display: if shown { Some(display("minecraft:campfire")) } else { None },
        criteria: criteria.iter().map(|c| c.to_string()).collect(),
        requirements: None,
        send_telemetry: false,
    }
}

#[test]
fn parses_matcha_advancement_display() {
    let advancement = parse_advancement(
        &id("main:tutorial/light_campfire"),
        raw(Some("main:tutorial/root"), &["light"], true),
    )
    .unwrap();
    assert_eq!(advancement.parent, Some(id("main:tutorial/root")));
    assert!(advancement.display.is_some());
    assert_eq!(advancement.requirements, vec![vec!["light".to_string()]]);
}

#[test]
fn default_requirements_are_sorted_criteria() {
    let advancement = parse_advancement(&id("a:b"), raw(None, &["zeta", "alpha"], false)).unwrap();
    assert_eq!(
        advancement.requirements,
        vec![vec!["alpha".to_string()], vec!["zeta".to_string()]]
    );
    assert_eq!(advancement.parent, None);
}

#[test]
fn rejects_bad_definitions() {
    assert_eq!(
        parse_advancement(&id("a:b"), raw(None, &[], false)).err(),
        Some(AdvancementError::NoCriteria)
    );
    assert_eq!(
        parse_advancement(&id("a:b"), raw(Some("Bad Parent"), &["x"], false)).err(),
        Some(AdvancementError::InvalidParent("Bad Parent".to_string()))
    );
    let mut empty_group = raw(None, &["x"], false);
    empty_group.requirements = Some(vec![vec![]]);
    assert_eq!(
        parse_advancement(&id("a:b"), empty_group).err(),
        Some(AdvancementError::EmptyRequirementGroup)
    );
    let mut unknown = raw(None, &["x"], false);
    unknown.requirements = Some(vec![vec!["x".to_string(), "y".to_string()]]);
    assert_eq!(
        parse_advancement(&id("a:b"), unknown).err(),
        Some(AdvancementError::UnknownCriterion("y".to_string()))
    );
}

#[test]
fn layout_orders_by_tree_depth_and_id() {
    let list = vec![
        parse_advancement(&id("main:tutorial/light_campfire"), raw(Some("main:tutorial/root"), &["l"], true)).unwrap(),
        parse_advancement(&id("main:tutorial/root"), raw(None, &["r"], true)).unwrap(),
        parse_advancement(&id("main:tutorial/cook"), raw(Some("main:tutorial/root"), &["c"], true)).unwrap(),
        parse_advancement(&id("main:tutorial/hidden"), raw(Some("main:tutorial/root"), &["h"], false)).unwrap(),
        parse_advancement(&id("alpha:solo"), raw(Some("alpha:missing"), &["s"], true)).unwrap(),
    ];
    let (root, depth) = root_and_depth(&id("main:tutorial/cook"), &list);
    assert_eq!(root, id("main:tutorial/root"));
    assert_eq!(depth, 1);
    let (root, depth) = root_and_depth(&id("alpha:solo"), &list);
    assert_eq!(root, id("alpha:solo"));
    assert_eq!(depth, 0);

    let placed = layout_and_sort(&list);
    let order: Vec<usize> = placed.iter().map(|p| p.index).collect();
    assert_eq!(order, vec![4, 1, 2, 3, 0]);
    let columns: Vec<usize> = placed.iter().map(|p| p.column).collect();
    assert_eq!(columns, vec![0, 0, 1, 1, 1]);
    let rows: Vec<Option<usize>> = placed.iter().map(|p| p.row).collect();
    assert_eq!(rows, vec![Some(0), Some(0), Some(1), None, Some(2)]);
}

#[test]
fn display_texts_read_strings_and_text_fields() {
    assert_eq!(display_text(&Json::Str("Stone Age".to_string())).text, "Stone Age");
    let object = Json::Object(vec![
        ("color".to_string(), Json::Str("gold".to_string())),
        ("text".to_string(), Json::Str("Getting an Upgrade".to_string())),
    ]);
    assert_eq!(display_text(&object).text, "Getting an Upgrade");
    let translated = Json::Object(vec![("translate".to_string(), Json::Str("advancements.story".to_string()))]);
    assert_eq!(display_text(&translated).text, "");
    assert_eq!(display_text(&Json::Int(3)).text, "");
}
