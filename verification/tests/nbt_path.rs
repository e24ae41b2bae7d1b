use pumpkin::nbt::{NbtCompound, NbtTag};
use pumpkin::nbt_path::NbtPathArgumentType;
use pumpkin::reader::{CommandSyntaxError, StringReader};

fn double(v: f64) -> NbtTag {
    NbtTag::Double(v.to_bits())
}

fn list<'a>(root: &'a NbtCompound, key: &str) -> &'a Vec<NbtTag> {
    match root.get(&key.to_string()) {
        Some(NbtTag::List(items)) => items,
        _ => panic!("expected a list"),
    }
}

#[test]
fn parses_and_sets_list_value() {
    let path = NbtPathArgumentType.parse(&mut StringReader::new("Motion[1]")).unwrap();
    let mut root = NbtCompound::new();
    root.put("Motion".to_string(), NbtTag::List(vec![double(0.0), double(0.0), double(0.0)]));

    assert!(path.set(&mut root, double(-0.5)));
    assert_eq!(list(&root, "Motion")[1], double(-0.5));
}

#[test]
fn supports_nested_keys_and_negative_indices() {
    let path = NbtPathArgumentType.parse(&mut StringReader::new("outer.values[-1]")).unwrap();
    let mut nested = NbtCompound::new();
    nested.put("values".to_string(), NbtTag::List(vec![NbtTag::Int(1), NbtTag::Int(2)]));
    let mut root = NbtCompound::new();
    root.put("outer".to_string(), NbtTag::Compound(nested));

    assert!(path.set(&mut root, NbtTag::Int(7)));
    let outer = match root.get(&"outer".to_string()) {
        Some(NbtTag::Compound(c)) => c,
        _ => panic!("expected a compound"),
    };
    assert_eq!(list(outer, "values")[1], NbtTag::Int(7));
}

#[test]
fn missing_parents_and_bad_indices_change_nothing() {
    let mut root = NbtCompound::new();
    root.put("values".to_string(), NbtTag::List(vec![NbtTag::Int(1)]));
    let before = format!("{:?}", root);
    for text in ["missing.key", "values[1]", "values[-2]", "values.key"] {
        let path = NbtPathArgumentType.parse(&mut StringReader::new(text)).unwrap();
        assert!(!path.set(&mut root, NbtTag::Int(9)));
        assert_eq!(format!("{:?}", root), before);
    }
    let created = NbtPathArgumentType.parse(&mut StringReader::new("fresh")).unwrap();
    assert!(created.set(&mut root, NbtTag::Byte(1)));
    assert_eq!(root.get(&"fresh".to_string()), Some(&NbtTag::Byte(1)));
    let first_index = NbtPathArgumentType.parse(&mut StringReader::new("values[0]")).unwrap();
    assert!(first_index.set(&mut root, NbtTag::Int(5)));
    assert_eq!(list(&root, "values")[0], NbtTag::Int(5));
}

#[test]
fn setting_a_path_leaves_other_values_alone() {
    let path = NbtPathArgumentType.parse(&mut StringReader::new("outer.values[0]")).unwrap();
    let mut nested = NbtCompound::new();
    nested.put("values".to_string(), NbtTag::List(vec![NbtTag::Int(1), NbtTag::Int(2)]));
    nested.put("other".to_string(), NbtTag::Int(3));
    let mut root = NbtCompound::new();
    root.put("outer".to_string(), NbtTag::Compound(nested));
    root.put("sibling".to_string(), NbtTag::Byte(4));

    assert!(path.set(&mut root, NbtTag::Int(9)));
    assert_eq!(root.get(&"sibling".to_string()), Some(&NbtTag::Byte(4)));
    let outer = match root.get(&"outer".to_string()) {
        Some(NbtTag::Compound(c)) => c,
        _ => panic!("expected a compound"),
    };
    assert_eq!(outer.get(&"other".to_string()), Some(&NbtTag::Int(3)));
    assert_eq!(list(outer, "values"), &vec![NbtTag::Int(9), NbtTag::Int(2)]);
}

fn error_text(text: &str) -> (String, usize) {
    let mut reader = StringReader::new(text);
    match NbtPathArgumentType.parse(&mut reader) {
        Err(CommandSyntaxError::InvalidNbtPathNode(t)) => (t, reader.cursor()),
        _ => panic!("expected an invalid path"),
    }
}

#[test]
fn malformed_paths_report_the_text_up_to_where_reading_stopped() {
    assert_eq!(error_text("a[x]"), ("a[".to_string(), 2));
    assert_eq!(error_text("a[-12x]"), ("a[-12".to_string(), 5));
    assert_eq!(error_text("a.b]c"), ("a.b".to_string(), 3));
    assert_eq!(error_text("a."), ("a.".to_string(), 2));
    assert_eq!(error_text("a[1][99999999999]"), ("a[1][99999999999".to_string(), 16));
}
