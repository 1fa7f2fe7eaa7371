use vlsp::schema::{FieldType, FieldTypeName, RefTargets, Schema, SchemaField, SchemaFile, TableCell};

fn field(name: &str) -> SchemaField {
    SchemaField {
        name: name.to_string(),
        description: None,
        field_type: None,
        alt_names: Vec::new(),
        append_field: None,
        table: None,
    }
}

fn reference(name: &str, file: Option<&str>, column: Option<&str>) -> SchemaField {
    SchemaField {
        field_type: Some(FieldType {
            kind: FieldTypeName::Reference,
            data_length: 0,
            mem_size: 0,
            file: file.map(|s| s.to_string()),
            field: column.map(|s| s.to_string()),
        }),
        ..field(name)
    }
}

fn described(name: &str, text: &str) -> SchemaField {
    SchemaField { description: Some(text.to_string()), ..field(name) }
}

fn file(fields: Vec<SchemaField>, append_files: &[&str]) -> SchemaFile {
    SchemaFile {
        title: None,
        overview: None,
        guide_only: false,
        reference_files: Vec::new(),
        append_files: append_files.iter().map(|s| s.to_string()).collect(),
        fields,
        ignore_fields: Vec::new(),
        code_dependency: None,
        not_searchable: false,
        no_html: false,
    }
}

fn schema(entries: Vec<(&str, SchemaFile)>) -> Schema {
    Schema::new(entries.into_iter().map(|(s, f)| (s.to_string(), f)).collect())
}

fn text_of(found: Option<&SchemaField>) -> Option<String> {
    found.and_then(|f| f.description.clone())
}

#[test]
fn field_is_found_by_name_and_alternative_name() {
    let mut other = described("Other", "o");
    other.alt_names = vec!["Alt".to_string(), "Name".to_string()];
    let f = file(vec![described("Name", "n"), other], &[]);
    assert_eq!(text_of(f.find_field("Name")), Some("n".to_string()));
    assert_eq!(text_of(f.find_field("Alt")), Some("o".to_string()));
    assert!(f.find_field("name").is_none());
    assert!(f.find_field("").is_none());
}

#[test]
fn file_is_found_exactly_or_in_lowercase() {
    let s = schema(vec![("armor", file(vec![described("a", "low")], &[]))]);
    assert!(s.get_file("armor").is_some());
    assert!(s.get_file("ARMOR").is_some());
    assert!(s.get_file("weapon").is_none());
    let upper = schema(vec![("Armor", file(vec![], &[]))]);
    assert!(upper.get_file("Armor").is_some());
    assert!(upper.get_file("armor").is_none());
}

#[test]
fn later_entry_counts() {
    let s = schema(vec![
        ("a", file(vec![described("x", "first")], &[])),
        ("a", file(vec![described("x", "second")], &[])),
    ]);
    assert_eq!(text_of(s.find_field("a", "x")), Some("second".to_string()));
}

#[test]
fn appended_files_are_followed_depth_first() {
    let s = schema(vec![
        ("top", file(vec![described("own", "top")], &["left", "right"])),
        ("left", file(vec![], &["deep"])),
        ("right", file(vec![described("x", "right"), described("own", "no")], &[])),
        ("deep", file(vec![described("x", "deep")], &[])),
    ]);
    assert_eq!(text_of(s.find_field("top", "own")), Some("top".to_string()));
    assert_eq!(text_of(s.find_field("top", "x")), Some("deep".to_string()));
    assert_eq!(text_of(s.find_field("TOP", "x")), Some("deep".to_string()));
    assert!(s.find_field("top", "missing").is_none());
    assert!(s.find_field("nowhere", "x").is_none());
}

#[test]
fn cycles_end() {
    let s = schema(vec![
        ("a", file(vec![], &["b", "a"])),
        ("b", file(vec![], &["A", "c", "missing"])),
        ("c", file(vec![described("x", "c")], &["a"])),
    ]);
    assert_eq!(text_of(s.find_field("a", "x")), Some("c".to_string()));
    assert!(s.find_field("a", "y").is_none());
}

#[test]
fn names_that_differ_in_case_share_one_visit() {
    let s = schema(vec![
        ("top", file(vec![], &["Part", "part"])),
        ("Part", file(vec![], &[])),
        ("part", file(vec![described("x", "hidden")], &[])),
    ]);
    assert!(s.find_field("top", "x").is_none());
    assert_eq!(text_of(s.find_field("part", "x")), Some("hidden".to_string()));
}

#[test]
fn reference_targets_are_collected() {
    let mut int = field("n");
    int.field_type = Some(FieldType {
        kind: FieldTypeName::Int,
        data_length: 0,
        mem_size: 0,
        file: Some("skip".to_string()),
        field: Some("skip".to_string()),
    });
    let s = schema(vec![
        ("a", file(vec![reference("r", Some("Weapons"), Some("Code")), int], &[])),
        ("b", file(vec![reference("r", Some("weapons"), Some("Code")), reference("q", Some("x"), None)], &[])),
        ("c", file(vec![reference("r", None, Some("y")), reference("s", Some("misc"), Some("id"))], &[])),
    ]);
    let targets = s.reference_targets();
    assert!(targets.contains("weapons", "Code"));
    assert!(targets.contains("misc", "id"));
    assert!(!targets.contains("Weapons", "Code"));
    assert!(!targets.contains("weapons", "code"));
    assert!(!targets.contains("skip", "skip"));
    assert!(!targets.contains("x", ""));
    assert!(!RefTargets::new().contains("misc", "id"));
}

#[test]
fn enum_codes_are_read_from_the_table() {
    let mut codes = field("TYPE");
    codes.table = Some(vec![
        vec![TableCell::Text("lite".to_string()), TableCell::Text("light".to_string())],
        vec![TableCell::Number("7".to_string())],
        vec![TableCell::Other],
        vec![],
    ]);
    let s = schema(vec![("enums", file(vec![codes, field("PLAIN")], &[]))]);
    assert_eq!(
        s.enum_values_for_target("Enums", "TYPE"),
        Some(vec!["lite".to_string(), "7".to_string()])
    );
    assert_eq!(s.enum_values_for_target("enums", "PLAIN"), None);
    assert_eq!(s.enum_values_for_target("enums", "type"), None);
    assert_eq!(s.enum_values_for_target("other", "TYPE"), None);
}

#[test]
fn default_schema_is_empty() {
    let s = Schema::default();
    assert!(s.get_file("a").is_none());
    assert!(!s.reference_targets().contains("a", "b"));
}

#[test]
fn lowercase_goes_beyond_ascii() {
    let s = schema(vec![("rüstung", file(vec![], &[]))]);
    assert!(s.get_file("RÜSTUNG").is_some());
}
