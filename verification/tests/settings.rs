use vlsp::messages::{Event, MessageKind};
use vlsp::settings::{CliArgs, Settings};

fn settings() -> Settings {
    Settings {
        schema_path: None,
        schema_variant: String::new(),
        workspace_path: None,
        single_shot: false,
        extension: "txt".to_string(),
        delimiter: String::new(),
    }
}

fn args(schema_path: Option<&str>, single_shot: bool) -> CliArgs {
    CliArgs {
        config_file: "config.json".to_string(),
        schema_path: schema_path.map(|s| s.to_string()),
        single_shot,
    }
}

#[test]
fn command_line_overrides() {
    let mut s = settings();
    s.schema_path = Some("a".to_string());
    s.apply(args(None, false));
    assert_eq!(s.schema_path.as_deref(), Some("a"));
    assert!(!s.single_shot);
    s.apply(args(Some("b"), true));
    assert_eq!(s.schema_path.as_deref(), Some("b"));
    assert!(s.single_shot);
    s.apply(args(None, false));
    assert!(s.single_shot);
}

#[test]
fn schema_is_configured_by_path_or_variant() {
    let mut s = settings();
    assert!(!s.has_schema());
    s.schema_variant = "2.4".to_string();
    assert!(s.has_schema());
    s.schema_variant = String::new();
    s.schema_path = Some(String::new());
    assert!(s.has_schema());
}

#[test]
fn delimiter_is_a_tab_by_default() {
    let mut s = settings();
    assert_eq!(s.delimiter_char(), '\t');
    s.delimiter = "§;".to_string();
    assert_eq!(s.delimiter_char(), '§');
}

#[test]
fn notices_of_events() {
    let error = || "boom".to_string();
    let cases = vec![
        (Event::SchemaLoaded, MessageKind::Info, "Schema loaded successfully."),
        (Event::SchemaFailed { error: error() }, MessageKind::Error, "Schema load failed: boom"),
        (Event::SchemaPanicked { error: error() }, MessageKind::Error, "Schema task panicked: boom"),
        (Event::ScanFailed { error: error() }, MessageKind::Warning, "Workspace scan failed: boom"),
        (
            Event::FileSkipped { path: "a.txt".to_string(), error: error() },
            MessageKind::Warning,
            "Skipping a.txt: boom",
        ),
        (Event::FilesIndexed { count: 12 }, MessageKind::Info, "Indexed 12 workspace files."),
    ];
    for (event, kind, text) in cases {
        let notice = event.notice();
        assert_eq!(notice.kind, kind);
        assert_eq!(notice.text, text);
        assert_eq!(event.leads_to_scan(), text == "Schema loaded successfully.");
    }
}
