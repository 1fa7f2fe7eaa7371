use vlsp::diagnostics::{Diagnostic, Severity};
use vlsp::navigation::{finish_hover, Definition, HoverStep};
use vlsp::schema::{FieldType, FieldTypeName, Schema, SchemaField, SchemaFile};
use vlsp::symbols::{Position, Range};
use vlsp::workspace::{combine_diagnostics, scanned_file, Workspace};

fn field(name: &str, description: Option<&str>, target: Option<(&str, &str)>) -> SchemaField {
    SchemaField {
        name: name.to_string(),
        description: description.map(|s| s.to_string()),
        field_type: target.map(|(file, column)| FieldType {
            kind: FieldTypeName::Reference,
            data_length: 0,
            mem_size: 0,
            file: Some(file.to_string()),
            field: Some(column.to_string()),
        }),
        alt_names: Vec::new(),
        append_field: None,
        table: None,
    }
}

fn schema() -> Schema {
    let file = |fields| SchemaFile {
        title: None,
        overview: None,
        guide_only: false,
        reference_files: Vec::new(),
        append_files: Vec::new(),
        fields,
        ignore_fields: Vec::new(),
        code_dependency: None,
        not_searchable: false,
        no_html: false,
    };
    Schema::new(vec![
        ("armor".to_string(), file(vec![
            field("code", Some("The code.<br>See $!weapons#code!$."), None),
            field("twin", None, Some(("Weapons", "code"))),
        ])),
        ("weapons".to_string(), file(vec![field("code", None, None)])),
    ])
}

fn ready() -> Workspace {
    let mut ws = Workspace::new();
    ws.install_schema(schema());
    ws
}

const ARMOR: &str = "file:///d/Armor.txt";
const WEAPONS: &str = "file:///d/weapons.txt";

fn open(ws: &mut Workspace, uri: &str, text: &str) -> Vec<Diagnostic> {
    ws.open_document(uri.to_string(), text, '\t')
}

fn messages(diags: &[Diagnostic]) -> Vec<&str> {
    diags.iter().map(|d| d.message.as_str()).collect()
}

#[test]
fn first_folder_is_the_root() {
    let mut ws = Workspace::new();
    assert_eq!(ws.root(), None);
    ws.announce_root(None, Some("file:///r".to_string()));
    assert_eq!(ws.root(), Some("file:///r"));
    ws.announce_root(Some(&vec!["file:///a".to_string(), "file:///b".to_string()]), Some("x".to_string()));
    assert_eq!(ws.root(), Some("file:///a"));
    ws.announce_root(Some(&Vec::new()), Some("file:///c".to_string()));
    assert_eq!(ws.root(), Some("file:///c"));
    ws.announce_root(Some(&Vec::new()), None);
    assert_eq!(ws.root(), Some("file:///c"));
}

#[test]
fn open_documents_resolve_each_other() {
    let mut ws = ready();
    assert_eq!(messages(&open(&mut ws, ARMOR, "code\ttwin\nx\taxe\n")), vec!["'axe' not found in Weapons.code"]);
    assert!(open(&mut ws, WEAPONS, "code\naxe\n").is_empty());
    assert!(open(&mut ws, ARMOR, "code\ttwin\nx\taxe\n").is_empty());
}

#[test]
fn last_change_replaces_document_and_symbols() {
    let mut ws = ready();
    open(&mut ws, WEAPONS, "code\naxe\n");
    let changes = vec!["code\nbow\n".to_string(), "code\nclub\n".to_string()];
    assert!(ws.change_document(WEAPONS.to_string(), &changes, '\t').unwrap().is_empty());
    let symbols = ws.symbols();
    assert!(symbols.lookup("weapons", "code", "club").is_some());
    assert!(symbols.lookup("weapons", "code", "bow").is_none());
    assert!(symbols.lookup("weapons", "code", "axe").is_none());
    assert!(ws.change_document(WEAPONS.to_string(), &Vec::new(), '\t').is_none());
    assert!(ws.symbols().lookup("weapons", "code", "club").is_some());
}

#[test]
fn closing_leaves_cache_and_symbols() {
    let mut ws = ready();
    ws.index_scanned(vec![scanned_file(WEAPONS.to_string(), "code\naxe\n", '\t')]);
    open(&mut ws, WEAPONS, "code\nbow\n");
    assert_eq!(ws.document(WEAPONS, Some(WEAPONS)).unwrap().rows[0].cells[0].value, "bow");
    ws.close_document(WEAPONS);
    assert_eq!(ws.document(WEAPONS, Some(WEAPONS)).unwrap().rows[0].cells[0].value, "axe");
    assert!(ws.document(WEAPONS, None).is_none());
    assert!(ws.symbols().lookup("weapons", "code", "bow").is_some());
}

#[test]
fn scanned_files_are_indexed_before_they_are_diagnosed() {
    let mut ws = ready();
    ws.index_scanned(vec![
        scanned_file(ARMOR.to_string(), "code\ttwin\nx\taxe\ny\tbow\n", '\t'),
        scanned_file(WEAPONS.to_string(), "code\naxe\n", '\t'),
    ]);
    let found = ws.cached_diagnostics(ARMOR, "armor");
    assert_eq!(messages(&found), vec!["'bow' not found in Weapons.code"]);
    assert_eq!(found[0].severity, Severity::Error);
    assert!(ws.cached_diagnostics("file:///d/none.txt", "none").is_empty());
}

#[test]
fn definition_of_a_reference() {
    let mut ws = ready();
    open(&mut ws, ARMOR, "code\ttwin\textra\nx\taxe\tz\tq\ny\tbow\n");
    ws.index_scanned(vec![scanned_file(WEAPONS.to_string(), "code\nclub\naxe\n", '\t')]);
    match ws.goto_definition(ARMOR, 1, 3, true) {
        Definition::At(location) => {
            assert_eq!(location.uri, WEAPONS);
            assert_eq!(location.range.start, Position { line: 2, character: 0 });
            assert_eq!(location.range.end, Position { line: 2, character: 3 });
        }
        other => panic!("{other:?}"),
    }
    assert!(matches!(ws.goto_definition(ARMOR, 2, 3, false), Definition::Nothing));
    match ws.goto_definition(ARMOR, 2, 3, true) {
        Definition::Ask(query) => {
            assert_eq!(query.file_stem, "armor");
            assert_eq!(query.col_name, "twin");
            assert_eq!(query.cell_value, "bow");
            assert_eq!(query.line, 2);
        }
        other => panic!("{other:?}"),
    }
    assert!(matches!(ws.goto_definition(ARMOR, 1, 8, true), Definition::Nothing));
    assert!(matches!(ws.goto_definition(ARMOR, 9, 0, true), Definition::Nothing));
    assert!(matches!(ws.goto_definition("file:///d/no.txt", 1, 0, true), Definition::Nothing));
}

#[test]
fn definition_in_a_cached_file() {
    let mut ws = ready();
    ws.index_scanned(vec![
        scanned_file(ARMOR.to_string(), "twin\naxe\n", '\t'),
        scanned_file(WEAPONS.to_string(), "code\naxe\n", '\t'),
    ]);
    assert!(matches!(ws.goto_definition(ARMOR, 1, 0, false), Definition::At(_)));
    assert!(matches!(ws.goto_definition("file://localhost/%64/./Armor.txt", 1, 0, false), Definition::At(_)));
    assert!(matches!(ws.definition_in(ARMOR, None, "armor", 1, 0, false), Definition::Nothing));
    assert!(matches!(ws.definition_in(ARMOR, Some(ARMOR), "armor", 1, 0, false), Definition::At(_)));
}

#[test]
fn plugin_target_is_looked_up() {
    let mut ws = ready();
    open(&mut ws, WEAPONS, "code\naxe\n");
    let target = |v: &str| Some(("WEAPONS".to_string(), "code".to_string(), v.to_string()));
    assert_eq!(ws.plugin_definition(target("axe")).unwrap().uri, WEAPONS);
    assert!(ws.plugin_definition(target("bow")).is_none());
    assert!(ws.plugin_definition(None).is_none());
}

#[test]
fn header_hover_shows_the_description() {
    let mut ws = ready();
    open(&mut ws, ARMOR, "x\tcode\ttwin\n1\t2\t3\n");
    match ws.hover(ARMOR, 0, 3, true) {
        HoverStep::Show(hover) => {
            assert_eq!(hover.text, "**code**\n\nThe code.\n\nSee `code` (in *weapons*).");
            assert_eq!(hover.range.start, Position { line: 0, character: 2 });
            assert_eq!(hover.range.end, Position { line: 0, character: 6 });
        }
        other => panic!("{other:?}"),
    }
    assert!(matches!(ws.hover(ARMOR, 0, 0, true), HoverStep::Nothing));
    assert!(matches!(ws.hover(ARMOR, 0, 8, true), HoverStep::Nothing));
    assert!(matches!(ws.hover(ARMOR, 0, 99, true), HoverStep::Nothing));
    assert!(matches!(ws.hover(WEAPONS, 0, 0, true), HoverStep::Nothing));
}

#[test]
fn cell_hover_shows_the_value_or_asks() {
    let mut ws = ready();
    open(&mut ws, ARMOR, "code\nab\tq\n\n");
    match ws.hover(ARMOR, 1, 1, false) {
        HoverStep::Show(hover) => {
            assert_eq!(hover.text, "ab");
            assert_eq!(hover.range.end, Position { line: 1, character: 2 });
        }
        other => panic!("{other:?}"),
    }
    match ws.hover(ARMOR, 1, 3, true) {
        HoverStep::Ask(query, range) => {
            assert_eq!(query.col_name, "unknown");
            assert_eq!(query.cell_value, "q");
            assert_eq!(range.start, Position { line: 1, character: 3 });
        }
        other => panic!("{other:?}"),
    }
    assert!(matches!(ws.hover(ARMOR, 2, 0, false), HoverStep::Nothing));
    assert!(matches!(ws.hover(ARMOR, 2, 0, true), HoverStep::Ask(_, _)));
    ws.close_document(ARMOR);
    assert!(matches!(ws.hover(ARMOR, 1, 1, false), HoverStep::Nothing));
}

#[test]
fn plugin_content_comes_before_the_value() {
    let range = Range {
        start: Position { line: 1, character: 0 },
        end: Position { line: 1, character: 2 },
    };
    let shown = |value: &str, plugin: Option<&str>| {
        finish_hover(value.to_string(), range, plugin.map(|s| s.to_string())).map(|h| h.text)
    };
    assert_eq!(shown("v", Some("p")), Some("p".to_string()));
    assert_eq!(shown("v", Some("")), Some("v".to_string()));
    assert_eq!(shown("v", None), Some("v".to_string()));
    assert_eq!(shown("", Some("p")), Some("p".to_string()));
    assert_eq!(shown("", None), None);
}

#[test]
fn plugin_diagnostics_follow_those_of_the_schema() {
    let mut ws = ready();
    let first = open(&mut ws, ARMOR, "twin\na\n");
    let second = open(&mut ws, ARMOR, "twin\nb\n");
    let all = combine_diagnostics(first, second);
    assert_eq!(messages(&all), vec!["'a' not found in Weapons.code", "'b' not found in Weapons.code"]);
}

#[test]
fn validation_and_navigation_agree() {
    let mut ws = ready();
    open(&mut ws, WEAPONS, "name\tcode\nn\taxe\nm\taxe\n");
    let found = open(&mut ws, ARMOR, "twin\naxe\nbow\n");
    assert_eq!(messages(&found), vec!["'bow' not found in Weapons.code"]);
    assert_eq!(found[0].range.start, Position { line: 2, character: 0 });
    match ws.goto_definition(ARMOR, 1, 0, false) {
        Definition::At(location) => {
            assert_eq!(location.uri, WEAPONS);
            assert_eq!(location.range.start, Position { line: 1, character: 2 });
        }
        other => panic!("{other:?}"),
    }
    assert!(matches!(ws.goto_definition(ARMOR, 2, 0, false), Definition::Nothing));
}
