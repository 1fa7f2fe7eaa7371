use vlsp::diagnostics::{check_cell, validate_document, Diagnostic, Severity};
use vlsp::document::{Cell, DocumentData};
use vlsp::report::{check_files, CheckFailure, CheckFile, CheckOutcome};
use vlsp::schema::{FieldType, FieldTypeName, RefTargets, Schema, SchemaField, SchemaFile, TableCell};
use vlsp::symbols::SymbolIndex;

fn typed(kind: FieldTypeName, file: Option<&str>, column: Option<&str>) -> FieldType {
    FieldType {
        kind,
        data_length: 0,
        mem_size: 0,
        file: file.map(|s| s.to_string()),
        field: column.map(|s| s.to_string()),
    }
}

fn field(name: &str, field_type: Option<FieldType>) -> SchemaField {
    SchemaField {
        name: name.to_string(),
        description: None,
        field_type,
        alt_names: Vec::new(),
        append_field: None,
        table: None,
    }
}

fn file(fields: Vec<SchemaField>, ignore: &[&str]) -> SchemaFile {
    SchemaFile {
        title: None,
        overview: None,
        guide_only: false,
        reference_files: Vec::new(),
        append_files: Vec::new(),
        fields,
        ignore_fields: ignore.iter().map(|s| s.to_string()).collect(),
        code_dependency: None,
        not_searchable: false,
        no_html: false,
    }
}

fn weapons_schema() -> Schema {
    let mut codes = field("TYPE", None);
    codes.table = Some(vec![vec![TableCell::Text("Lite".to_string())]]);
    Schema::new(vec![
        (
            "weapons".to_string(),
            file(
                vec![
                    field("name", None),
                    field("code", Some(typed(FieldTypeName::Text, None, None))),
                    field("count", Some(typed(FieldTypeName::Int, None, None))),
                    field("speed", Some(typed(FieldTypeName::Float, None, None))),
                    field("base", Some(typed(FieldTypeName::Reference, Some("Weapons"), Some("code")))),
                    field("kind", Some(typed(FieldTypeName::Reference, Some("enums"), Some("TYPE")))),
                    field("open", Some(typed(FieldTypeName::Reference, Some("weapons"), None))),
                ],
                &["*eol"],
            ),
        ),
        ("enums".to_string(), file(vec![codes], &[])),
    ])
}

fn diagnose(text: &str, schema: Option<&Schema>) -> Vec<Diagnostic> {
    let doc = DocumentData::parse(text, '\t');
    let targets = match schema {
        Some(s) => s.reference_targets(),
        None => RefTargets::new(),
    };
    let mut symbols = SymbolIndex::new();
    symbols.index_document("file:///weapons.txt", "weapons", &doc, &targets);
    validate_document("weapons", &doc, schema, &symbols)
}

fn brief(diags: &[Diagnostic]) -> Vec<(u32, u32, u32, Severity, String)> {
    diags
        .iter()
        .map(|d| {
            assert_eq!(d.source, "vector-lsp");
            assert_eq!(d.range.start.line, d.range.end.line);
            (
                d.range.start.line,
                d.range.start.character,
                d.range.end.character,
                d.severity,
                d.message.clone(),
            )
        })
        .collect()
}

#[test]
fn unresolved_reference_is_an_error() {
    let s = weapons_schema();
    let found = diagnose("code\tbase\naxe\taxe\nbow\tbwo\n", Some(&s));
    assert_eq!(
        brief(&found),
        vec![(2, 4, 7, Severity::Error, "'bwo' not found in Weapons.code".to_string())]
    );
}

#[test]
fn enum_codes_resolve_whatever_their_case() {
    let s = weapons_schema();
    let found = diagnose("code\tkind\na\tlITE\nb\theavy\n", Some(&s));
    assert_eq!(
        brief(&found),
        vec![(2, 2, 7, Severity::Error, "'heavy' not found in enums.TYPE".to_string())]
    );
}

#[test]
fn numbers_that_are_none_are_warned_about() {
    let s = weapons_schema();
    let found = diagnose("count\tspeed\n1\t1.5\nx\t1\n2.5\tfast\n", Some(&s));
    assert_eq!(
        brief(&found),
        vec![
            (2, 0, 1, Severity::Warning, "'x' is not a valid integer for column 'count'".to_string()),
            (3, 0, 3, Severity::Warning, "'2.5' is not a valid integer for column 'count'".to_string()),
            (3, 4, 8, Severity::Warning, "'fast' is not a valid number for column 'speed'".to_string()),
        ]
    );
}

#[test]
fn undeclared_header_is_remarked_on() {
    let s = weapons_schema();
    let found = diagnose("name\tnew\t\t*eol\tcount\nx\ty\tz\t0\t?", Some(&s));
    assert_eq!(
        brief(&found),
        vec![
            (1, 8, 9, Severity::Warning, "'?' is not a valid integer for column 'count'".to_string()),
            (
                0,
                5,
                8,
                Severity::Information,
                "column 'new' is not declared in the schema".to_string()
            ),
        ]
    );
}

#[test]
fn empty_and_unnamed_cells_are_skipped() {
    let s = weapons_schema();
    assert!(diagnose("count\t\n\tx\n1\ty\tz", Some(&s)).is_empty());
}

#[test]
fn incomplete_reference_is_not_checked() {
    let s = weapons_schema();
    assert!(diagnose("open\nanything", Some(&s)).is_empty());
}

#[test]
fn without_schema_nothing_is_remarked_on() {
    assert!(diagnose("count\tnew\nx\ty", None).is_empty());
}

#[test]
fn cell_check_follows_the_outcome_of_the_lookup() {
    let cell = Cell { value: "bow".to_string(), col_start: 3 };
    let ft = typed(FieldTypeName::Reference, Some("weapons"), Some("code"));
    assert!(check_cell(4, &cell, "base", &ft, true).is_none());
    let d = check_cell(4, &cell, "base", &ft, false).unwrap();
    assert_eq!(d.message, "'bow' not found in weapons.code");
    assert_eq!((d.range.start.line, d.range.start.character, d.range.end.character), (4, 3, 6));
    assert!(check_cell(4, &cell, "base", &typed(FieldTypeName::Parse, None, None), false).is_none());
}

// Symbols

#[test]
fn symbols_are_found_where_they_are_first_defined() {
    let doc = DocumentData::parse("code\tid\na\t1\nb\t2\na\t3\n\t4", '\t');
    let mut targets = RefTargets::new();
    targets.insert("w".to_string(), "code".to_string());
    let mut symbols = SymbolIndex::new();
    symbols.index_document("file:///w.txt", "w", &doc, &targets);
    let at = symbols.lookup("W", "code", "a").unwrap();
    assert_eq!(at.uri, "file:///w.txt");
    assert_eq!((at.range.start.line, at.range.start.character, at.range.end.character), (1, 0, 1));
    assert!(symbols.lookup("w", "code", "b").is_some());
    assert!(symbols.lookup("w", "code", "A").is_none());
    assert!(symbols.lookup("w", "code", "").is_none());
    assert!(symbols.lookup("w", "id", "1").is_none());
    assert!(symbols.lookup("v", "code", "a").is_none());
}

#[test]
fn removing_a_file_undoes_its_indexing_only() {
    let doc = DocumentData::parse("code\na\n", '\t');
    let mut targets = RefTargets::new();
    targets.insert("w".to_string(), "code".to_string());
    targets.insert("v".to_string(), "code".to_string());
    targets.insert("v".to_string(), "code".to_string());
    let mut symbols = SymbolIndex::new();
    symbols.index_document("u:w", "w", &doc, &targets);
    symbols.index_document("u:v", "v", &doc, &targets);
    symbols.index_document("u:other", "v", &doc, &targets);
    symbols.remove_file("w");
    assert!(symbols.lookup("w", "code", "a").is_none());
    assert_eq!(symbols.lookup("v", "code", "a").unwrap().uri, "u:v");
    symbols.remove_file("missing");
    assert!(symbols.lookup("v", "code", "a").is_some());
}

// The one-shot check

fn check_file(display: &str, stem: &str, text: &str) -> CheckFile {
    CheckFile {
        display: display.to_string(),
        uri: Some(format!("file:///{stem}.txt")),
        stem: stem.to_string(),
        doc: DocumentData::parse(text, '\t'),
    }
}

#[test]
fn report_lists_lines_and_counts() {
    let s = weapons_schema();
    let files = vec![
        check_file("d/weapons.txt", "weapons", "code\tbase\tcount\na\tzz\t1\nb\ta\tq\n"),
        check_file("d/clean.txt", "enums", "TYPE\nx\n"),
    ];
    let report = check_files(&files, Some(&s));
    assert_eq!(
        report.lines,
        vec![
            "d/weapons.txt:2:3: error: 'zz' not found in Weapons.code",
            "d/weapons.txt:3:5: warning: 'q' is not a valid integer for column 'count'",
        ]
    );
    assert_eq!((report.errors, report.warnings, report.files), (1, 1, 1));
    assert_eq!(report.summary, "1 error(s), 1 warning(s) across 1 file(s).");
    assert_eq!(CheckOutcome::Checked(report).exit_code(), 1);
}

#[test]
fn references_reach_across_files() {
    let s = weapons_schema();
    let mut files = vec![
        check_file("a", "weapons", "base\nfar\n"),
        check_file("b", "weapons", "code\nfar\n"),
    ];
    assert_eq!(check_files(&files, Some(&s)).errors, 0);
    files[1].uri = None;
    assert_eq!(check_files(&files, Some(&s)).errors, 1);
}

#[test]
fn warnings_and_remarks_do_not_fail_the_check() {
    let s = weapons_schema();
    let warned = check_files(&vec![check_file("a", "weapons", "count\nx")], Some(&s));
    assert_eq!(warned.summary, "0 error(s), 1 warning(s) across 1 file(s).");
    assert_eq!(CheckOutcome::Checked(warned).exit_code(), 0);
    let remarked = check_files(&vec![check_file("a", "weapons", "new\nx")], Some(&s));
    assert_eq!(remarked.lines, vec!["a:1:1: info: column 'new' is not declared in the schema"]);
    assert_eq!(remarked.files, 1);
    assert_eq!(remarked.summary, "No diagnostics found across 1 file(s).");
    assert_eq!(CheckOutcome::Checked(remarked).exit_code(), 0);
}

#[test]
fn check_without_schema_is_clean() {
    let report = check_files(&vec![check_file("a", "weapons", "count\nx"), check_file("b", "v", "")], None);
    assert!(report.lines.is_empty());
    assert_eq!(report.summary, "No diagnostics found across 2 file(s).");
}

#[test]
fn failed_check_exits_with_two() {
    let e = || "why".to_string();
    let cases = vec![
        (CheckFailure::NoWorkspacePath, "error: single_shot mode requires `workspace_path` in config"),
        (CheckFailure::SchemaFailed { error: e() }, "error: schema load failed: why"),
        (CheckFailure::SchemaPanicked { error: e() }, "error: schema task panicked: why"),
        (
            CheckFailure::Unreadable { path: "d".to_string(), error: e() },
            "error: cannot read workspace directory 'd': why",
        ),
    ];
    for (failure, text) in cases {
        assert_eq!(failure.message(), text);
        assert_eq!(CheckOutcome::Failed(failure).exit_code(), 2);
    }
}
