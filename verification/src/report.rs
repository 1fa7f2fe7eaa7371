//! The one-shot check of a workspace: what is printed, and the exit code.

use vstd::prelude::*;
use vstd::string::*;

use crate::diagnostics::{law_no_schema_no_problem, problems, validate_document, views, Diagnostic, DiagnosticView, Rules, Severity};
use crate::document::{DocumentData, DocumentView};
use crate::number::{decimal, decimal_of};
use crate::schema::{targets_of, texts, RefTargets, Schema};
use crate::symbols::{law_symbols_of_a_document, names_cell, with_document, LocationView, SymbolIndex,
    SymbolKey};

verus! {

/// A data file to check.
#[derive(Debug)]
pub struct CheckFile {
    /// The path as it is printed.
    pub display: String,
    /// The URI of the file, where the path has one.
    pub uri: Option<String>,
    pub stem: String,
    pub doc: DocumentData,
}

/// What a file to check holds.
pub struct CheckFileView {
    pub display: Seq<char>,
    pub uri: Option<Seq<char>>,
    pub stem: Seq<char>,
    pub doc: DocumentView,
}

impl View for CheckFile {
    type V = CheckFileView;

    open spec fn view(&self) -> CheckFileView {
        CheckFileView {
            display: self.display@,
            uri: match self.uri {
                Some(uri) => Some(uri@),
                None => None,
            },
            stem: self.stem@,
            doc: self.doc@,
        }
    }
}

/// What a list of files holds.
pub open spec fn file_views(files: Seq<CheckFile>) -> Seq<CheckFileView> {
    files.map_values(|f: CheckFile| f@)
}

/// The symbols of the first `n` files; a file without a URI has none.
pub open spec fn symbols_of(
    files: Seq<CheckFileView>,
    targets: Set<(Seq<char>, Seq<char>)>,
    n: int,
) -> Map<SymbolKey, LocationView>
    decreases n,
{
    if n <= 0 {
        Map::empty()
    } else {
        let before = symbols_of(files, targets, n - 1);
        let file = files[n - 1];
        match file.uri {
            Some(uri) => with_document(before, uri, file.stem, file.doc, targets),
            None => before,
        }
    }
}

/// What the files are checked against: the schema, if there is one, and the symbols of all
/// the files.
pub open spec fn check_rules(schema: Option<&Schema>, files: Seq<CheckFileView>) -> Rules {
    match schema {
        Some(s) => Rules {
            files: Some(s@),
            symbols: symbols_of(files, targets_of(s@), files.len() as int),
        },
        None => Rules {
            files: None,
            symbols: symbols_of(files, Set::empty(), files.len() as int),
        },
    }
}

/// The diagnostics of file `i`.
pub open spec fn file_problems(rules: Rules, files: Seq<CheckFileView>, i: int) -> Seq<
    DiagnosticView,
> {
    problems(rules, files[i].stem, files[i].doc)
}

/// The word that is printed for a severity.
pub open spec fn severity_word(severity: Severity) -> Seq<char> {
    match severity {
        Severity::Error => "error"@,
        Severity::Warning => "warning"@,
        Severity::Information => "info"@,
        Severity::Hint => "hint"@,
    }
}

/// The line that is printed for a diagnostic. Positions are printed counted from 1.
pub open spec fn report_line(display: Seq<char>, d: DiagnosticView) -> Seq<char> {
    display + ":"@ + decimal_of((d.range.start.line + 1) as nat) + ":"@ + decimal_of(
        (d.range.start.character + 1) as nat,
    ) + ": "@ + severity_word(d.severity) + ": "@ + d.message
}

/// The lines for the diagnostics of a file.
pub open spec fn file_lines(display: Seq<char>, diags: Seq<DiagnosticView>) -> Seq<Seq<char>> {
    diags.map_values(|d: DiagnosticView| report_line(display, d))
}

/// How many of the diagnostics have a severity.
pub open spec fn count_of(diags: Seq<DiagnosticView>, severity: Severity) -> nat
    decreases diags.len(),
{
    if diags.len() == 0 {
        0
    } else {
        count_of(diags.drop_last(), severity) + if diags.last().severity == severity {
            1nat
        } else {
            0nat
        }
    }
}

/// The lines for the first `n` files.
pub open spec fn lines_for(rules: Rules, files: Seq<CheckFileView>, n: int) -> Seq<Seq<char>>
    decreases n,
{
    if n <= 0 {
        Seq::empty()
    } else {
        lines_for(rules, files, n - 1) + file_lines(
            files[n - 1].display,
            file_problems(rules, files, n - 1),
        )
    }
}

/// How many diagnostics of a severity the first `n` files have.
pub open spec fn total_of(
    rules: Rules,
    files: Seq<CheckFileView>,
    severity: Severity,
    n: int,
) -> nat
    decreases n,
{
    if n <= 0 {
        0
    } else {
        total_of(rules, files, severity, n - 1) + count_of(
            file_problems(rules, files, n - 1),
            severity,
        )
    }
}

/// How many of the first `n` files have diagnostics.
pub open spec fn remarked(rules: Rules, files: Seq<CheckFileView>, n: int) -> nat
    decreases n,
{
    if n <= 0 {
        0
    } else {
        remarked(rules, files, n - 1) + if file_problems(rules, files, n - 1).len() > 0 {
            1nat
        } else {
            0nat
        }
    }
}

/// The closing line of a check.
pub open spec fn summary_of(errors: nat, warnings: nat, remarked: nat, checked: nat) -> Seq<char> {
    if errors == 0 && warnings == 0 {
        "No diagnostics found across "@ + decimal_of(checked) + " file(s)."@
    } else {
        decimal_of(errors) + " error(s), "@ + decimal_of(warnings) + " warning(s) across "@
            + decimal_of(remarked) + " file(s)."@
    }
}

/// The outcome of checking files.
#[derive(Debug)]
pub struct CheckReport {
    /// The lines to print, in order.
    pub lines: Vec<String>,
    pub errors: usize,
    pub warnings: usize,
    /// How many files have diagnostics.
    pub files: usize,
    /// The closing line.
    pub summary: String,
}

impl CheckReport {
    /// True when the report is the one for the files.
    pub open spec fn reports(self, rules: Rules, files: Seq<CheckFileView>) -> bool {
        let n = files.len() as int;
        &&& texts(self.lines@) == lines_for(rules, files, n)
        &&& self.errors == total_of(rules, files, Severity::Error, n)
        &&& self.warnings == total_of(rules, files, Severity::Warning, n)
        &&& self.files == remarked(rules, files, n)
        &&& self.summary@ == summary_of(
            total_of(rules, files, Severity::Error, n),
            total_of(rules, files, Severity::Warning, n),
            remarked(rules, files, n),
            files.len(),
        )
    }
}

/// The line that is printed for a diagnostic.
fn print_line(display: &str, d: &Diagnostic) -> (result: String)
    ensures
        result@ == report_line(display@, d@),
{
    let mut out = String::new();
    out.append(display);
    out.append(":");
    out.append(decimal(d.range.start.line as u64 + 1).as_str());
    out.append(":");
    out.append(decimal(d.range.start.character as u64 + 1).as_str());
    out.append(": ");
    match d.severity {
        Severity::Error => out.append("error"),
        Severity::Warning => out.append("warning"),
        Severity::Information => out.append("info"),
        Severity::Hint => out.append("hint"),
    }
    out.append(": ");
    out.append(d.message.as_str());
    assert(out@ =~= report_line(display@, d@));
    out
}

/// The symbols of all the files.
fn index_files(files: &Vec<CheckFile>, targets: &RefTargets) -> (result: SymbolIndex)
    requires
        forall|i: int| 0 <= i < files@.len() ==> (#[trigger] files@[i])@.doc.fits(),
    ensures
        result@ == symbols_of(file_views(files@), targets@, files@.len() as int),
{
    let mut symbols = SymbolIndex::new();
    let mut i: usize = 0;
    while i < files.len()
        invariant
            forall|i: int| 0 <= i < files@.len() ==> (#[trigger] files@[i])@.doc.fits(),
            i <= files@.len(),
            symbols@ == symbols_of(file_views(files@), targets@, i as int),
        decreases files@.len() - i,
    {
        let file = &files[i];
        assert(file_views(files@)[i as int] == file@);
        assert(files@[i as int]@.doc.fits());
        if let Some(uri) = &file.uri {
            symbols.index_document(uri.as_str(), file.stem.as_str(), &file.doc, targets);
        }
        i = i + 1;
    }
    symbols
}

/// Adds the lines and counts for the diagnostics of one file.
fn add_file(report: &mut CheckReport, display: &str, diags: &Vec<Diagnostic>)
    requires
        old(report).errors + old(report).warnings <= old(report).lines@.len(),
    ensures
        texts(final(report).lines@) == texts(old(report).lines@) + file_lines(
            display@,
            views(diags@),
        ),
        final(report).errors == old(report).errors + count_of(views(diags@), Severity::Error),
        final(report).warnings == old(report).warnings + count_of(
            views(diags@),
            Severity::Warning,
        ),
        final(report).errors + final(report).warnings <= final(report).lines@.len(),
        final(report).files == old(report).files,
        final(report).summary == old(report).summary,
{
    let ghost all = views(diags@);
    let mut i: usize = 0;
    assert(texts(report.lines@) =~= texts(old(report).lines@) + file_lines(display@, all.take(0)));
    while i < diags.len()
        invariant
            all == views(diags@),
            i <= diags@.len(),
            texts(report.lines@) == texts(old(report).lines@) + file_lines(
                display@,
                all.take(i as int),
            ),
            report.errors == old(report).errors + count_of(all.take(i as int), Severity::Error),
            report.warnings == old(report).warnings + count_of(
                all.take(i as int),
                Severity::Warning,
            ),
            report.errors + report.warnings <= report.lines@.len(),
            report.files == old(report).files,
            report.summary == old(report).summary,
        decreases diags@.len() - i,
    {
        let d = &diags[i];
        let ghost before = report.lines@;
        assert(all.take(i + 1).drop_last() =~= all.take(i as int));
        assert(all.take(i + 1).last() == d@);
        report.lines.push(print_line(display, d));
        assert(report.lines.len() <= usize::MAX);
        assert(texts(report.lines@) =~= texts(before).push(report_line(display@, d@)));
        assert(file_lines(display@, all.take(i + 1)) =~= file_lines(
            display@,
            all.take(i as int),
        ).push(report_line(display@, d@)));
        assert(texts(report.lines@) =~= texts(old(report).lines@) + file_lines(
            display@,
            all.take(i + 1),
        ));
        if d.severity == Severity::Error {
            report.errors = report.errors + 1;
        } else if d.severity == Severity::Warning {
            report.warnings = report.warnings + 1;
        }
        i = i + 1;
    }
    assert(all.take(i as int) =~= all);
}

/// The closing line of a check.
fn print_summary(errors: usize, warnings: usize, remarked: usize, checked: usize) -> (result: String)
    ensures
        result@ == summary_of(errors as nat, warnings as nat, remarked as nat, checked as nat),
{
    let mut out = String::new();
    if errors == 0 && warnings == 0 {
        out.append("No diagnostics found across ");
        out.append(decimal(checked as u64).as_str());
        out.append(" file(s).");
    } else {
        out.append(decimal(errors as u64).as_str());
        out.append(" error(s), ");
        out.append(decimal(warnings as u64).as_str());
        out.append(" warning(s) across ");
        out.append(decimal(remarked as u64).as_str());
        out.append(" file(s).");
    }
    assert(out@ =~= summary_of(errors as nat, warnings as nat, remarked as nat, checked as nat));
    out
}

/// Checks the files of a workspace: all of them are indexed, and then each is validated.
pub fn check_files(files: &Vec<CheckFile>, schema: Option<&Schema>) -> (result: CheckReport)
    requires
        forall|i: int| 0 <= i < files@.len() ==> (#[trigger] files@[i])@.doc.fits(),
    ensures
        result.reports(check_rules(schema, file_views(files@)), file_views(files@)),
{
    let targets = match schema {
        Some(s) => s.reference_targets(),
        None => RefTargets::new(),
    };
    let symbols = index_files(files, &targets);
    let ghost all = file_views(files@);
    let ghost rules = check_rules(schema, all);
    let mut report = CheckReport {
        lines: Vec::new(),
        errors: 0,
        warnings: 0,
        files: 0,
        summary: String::new(),
    };
    let mut i: usize = 0;
    assert(texts(report.lines@) =~= Seq::empty());
    while i < files.len()
        invariant
            forall|i: int| 0 <= i < files@.len() ==> (#[trigger] files@[i])@.doc.fits(),
            all == file_views(files@),
            rules == crate::diagnostics::rules(schema, &symbols),
            i <= files@.len(),
            texts(report.lines@) == lines_for(rules, all, i as int),
            report.errors == total_of(rules, all, Severity::Error, i as int),
            report.warnings == total_of(rules, all, Severity::Warning, i as int),
            report.files == remarked(rules, all, i as int),
            report.files <= i,
            report.errors + report.warnings <= report.lines@.len(),
        decreases files@.len() - i,
    {
        let file = &files[i];
        assert(all[i as int] == file@);
        assert(files@[i as int]@.doc.fits());
        let diags = validate_document(file.stem.as_str(), &file.doc, schema, &symbols);
        assert(views(diags@) == file_problems(rules, all, i as int));
        if diags.len() > 0 {
            report.files = report.files + 1;
        }
        add_file(&mut report, file.display.as_str(), &diags);
        i = i + 1;
    }
    report.summary = print_summary(
        report.errors,
        report.warnings,
        report.files,
        files.len(),
    );
    report
}

// ---------------------------------------------------------------------------
// Exit code
// ---------------------------------------------------------------------------

/// Why a check could not be made.
#[derive(Debug)]
pub enum CheckFailure {
    /// No directory to check is configured.
    NoWorkspacePath,
    SchemaFailed { error: String },
    SchemaPanicked { error: String },
    Unreadable { path: String, error: String },
}

/// How a one-shot check ends.
#[derive(Debug)]
pub enum CheckOutcome {
    Failed(CheckFailure),
    Checked(CheckReport),
}

impl CheckOutcome {
    /// The exit code: 2 where the check could not be made, 1 where errors were found, and
    /// 0 otherwise.
    pub open spec fn code(self) -> i32 {
        match self {
            CheckOutcome::Failed(_) => 2,
            CheckOutcome::Checked(report) => if report.errors > 0 {
                1
            } else {
                0
            },
        }
    }

    /// The exit code.
    pub fn exit_code(&self) -> (result: i32)
        ensures
            result == self.code(),
    {
        match self {
            CheckOutcome::Failed(_) => 2,
            CheckOutcome::Checked(report) => if report.errors > 0 {
                1
            } else {
                0
            },
        }
    }
}

impl CheckFailure {
    /// What is printed about the failure.
    pub open spec fn text(self) -> Seq<char> {
        match self {
            CheckFailure::NoWorkspacePath =>
                "error: single_shot mode requires `workspace_path` in config"@,
            CheckFailure::SchemaFailed { error } => "error: schema load failed: "@ + error@,
            CheckFailure::SchemaPanicked { error } => "error: schema task panicked: "@ + error@,
            CheckFailure::Unreadable { path, error } => "error: cannot read workspace directory '"@
                + path@ + "': "@ + error@,
        }
    }

    /// What is printed about the failure.
    pub fn message(&self) -> (result: String)
        ensures
            result@ == self.text(),
    {
        let mut out = String::new();
        match self {
            CheckFailure::NoWorkspacePath => {
                out.append("error: single_shot mode requires `workspace_path` in config");
            },
            CheckFailure::SchemaFailed { error } => {
                out.append("error: schema load failed: ");
                out.append(error.as_str());
            },
            CheckFailure::SchemaPanicked { error } => {
                out.append("error: schema task panicked: ");
                out.append(error.as_str());
            },
            CheckFailure::Unreadable { path, error } => {
                out.append("error: cannot read workspace directory '");
                out.append(path.as_str());
                out.append("': ");
                out.append(error.as_str());
            },
        }
        assert(out@ =~= self.text());
        out
    }
}

// ---------------------------------------------------------------------------
// Laws
// ---------------------------------------------------------------------------

/// True when some file has a diagnostic of the severity.
pub open spec fn some_problem(
    rules: Rules,
    files: Seq<CheckFileView>,
    severity: Severity,
    n: int,
) -> bool {
    exists|i: int, d: DiagnosticView|
        0 <= i < n && #[trigger] file_problems(rules, files, i).contains(d) && d.severity
            == severity
}

proof fn lemma_count(diags: Seq<DiagnosticView>, severity: Severity)
    ensures
        count_of(diags, severity) > 0 <==> exists|d: DiagnosticView| #[trigger]
            diags.contains(d) && d.severity == severity,
    decreases diags.len(),
{
    if diags.len() > 0 {
        let rest = diags.drop_last();
        lemma_count(rest, severity);
        assert(diags[diags.len() - 1] == diags.last());
        if count_of(rest, severity) > 0 {
            let d = choose|d: DiagnosticView| #[trigger]
                rest.contains(d) && d.severity == severity;
            let k = choose|k: int| 0 <= k < rest.len() && rest[k] == d;
            assert(diags[k] == d);
            assert(diags.contains(d));
        } else if diags.last().severity == severity {
            assert(diags.contains(diags.last()));
        } else {
            assert forall|d: DiagnosticView| #[trigger] diags.contains(d) implies d.severity
                != severity by {
                let k = choose|k: int| 0 <= k < diags.len() && diags[k] == d;
                if k < diags.len() - 1 {
                    assert(rest[k] == d);
                    assert(rest.contains(d));
                }
            }
        }
    }
}

proof fn lemma_total(rules: Rules, files: Seq<CheckFileView>, severity: Severity, n: int)
    requires
        0 <= n,
    ensures
        total_of(rules, files, severity, n) > 0 <==> some_problem(rules, files, severity, n),
    decreases n,
{
    if n > 0 {
        lemma_total(rules, files, severity, n - 1);
        lemma_count(file_problems(rules, files, n - 1), severity);
        if total_of(rules, files, severity, n - 1) > 0 {
            let (i, d) = choose|i: int, d: DiagnosticView|
                0 <= i < n - 1 && #[trigger] file_problems(rules, files, i).contains(d)
                    && d.severity == severity;
            assert(0 <= i < n && file_problems(rules, files, i).contains(d));
        }
        if count_of(file_problems(rules, files, n - 1), severity) > 0 {
            let d = choose|d: DiagnosticView| #[trigger]
                file_problems(rules, files, n - 1).contains(d) && d.severity == severity;
            assert(0 <= n - 1 < n && file_problems(rules, files, n - 1).contains(d));
        }
        if some_problem(rules, files, severity, n) {
            let (i, d) = choose|i: int, d: DiagnosticView|
                0 <= i < n && #[trigger] file_problems(rules, files, i).contains(d) && d.severity
                    == severity;
            if i < n - 1 {
                assert(some_problem(rules, files, severity, n - 1));
            }
        }
    }
}

/// The report counts an error exactly where some file has one, and a warning likewise; so
/// the exit code of a check that was made is 1 exactly where some file has an error.
pub proof fn law_counts_mean_problems(
    report: CheckReport,
    rules: Rules,
    files: Seq<CheckFileView>,
)
    requires
        report.reports(rules, files),
    ensures
        report.errors > 0 <==> some_problem(rules, files, Severity::Error, files.len() as int),
        report.warnings > 0 <==> some_problem(
            rules,
            files,
            Severity::Warning,
            files.len() as int,
        ),
        CheckOutcome::Checked(report).code() == (if some_problem(
            rules,
            files,
            Severity::Error,
            files.len() as int,
        ) {
            1i32
        } else {
            0i32
        }),
{
    lemma_total(rules, files, Severity::Error, files.len() as int);
    lemma_total(rules, files, Severity::Warning, files.len() as int);
}

/// A check without a schema prints no line and counts nothing.
pub proof fn law_no_schema_clean_check(
    report: CheckReport,
    rules: Rules,
    files: Seq<CheckFileView>,
)
    requires
        rules.files is None,
        report.reports(rules, files),
    ensures
        report.lines@.len() == 0,
        report.errors == 0,
        report.warnings == 0,
        report.files == 0,
{
    lemma_clean(rules, files, files.len() as int);
    assert(texts(report.lines@).len() == 0);
}

proof fn lemma_clean(rules: Rules, files: Seq<CheckFileView>, n: int)
    requires
        rules.files is None,
        0 <= n,
    ensures
        lines_for(rules, files, n).len() == 0,
        total_of(rules, files, Severity::Error, n) == 0,
        total_of(rules, files, Severity::Warning, n) == 0,
        remarked(rules, files, n) == 0,
    decreases n,
{
    if n > 0 {
        lemma_clean(rules, files, n - 1);
        law_no_schema_no_problem(rules, files[n - 1].stem, files[n - 1].doc);
        assert(file_problems(rules, files, n - 1).len() == 0);
    }
}

/// The count of a severity is the number of diagnostics that have it, and the count over
/// two lists is the sum of the counts over each.
pub proof fn law_every_diagnostic_counts(
    a: Seq<DiagnosticView>,
    b: Seq<DiagnosticView>,
    severity: Severity,
)
    ensures
        count_of(a, severity) == a.filter(|d: DiagnosticView| d.severity == severity).len(),
        count_of(a + b, severity) == count_of(a, severity) + count_of(b, severity),
{
    let pred = |d: DiagnosticView| d.severity == severity;
    lemma_count_filter(a, severity);
    lemma_count_filter(b, severity);
    lemma_count_filter(a + b, severity);
    Seq::filter_distributes_over_add(a, b, pred);
}

proof fn lemma_count_filter(diags: Seq<DiagnosticView>, severity: Severity)
    ensures
        count_of(diags, severity) == diags.filter(
            |d: DiagnosticView| d.severity == severity,
        ).len(),
    decreases diags.len(),
{
    reveal(Seq::filter);
    if diags.len() > 0 {
        lemma_count_filter(diags.drop_last(), severity);
    }
}

/// What the first `n` files have, counted and listed over all of them together.
proof fn lemma_all_files(rules: Rules, files: Seq<CheckFileView>, severity: Severity, n: int)
    requires
        0 <= n <= files.len(),
    ensures
        ({
            let lists = Seq::new(
                n as nat,
                |i: int| problems(rules, files[i].stem, files[i].doc),
            );
            let lines = Seq::new(
                n as nat,
                |i: int|
                    problems(rules, files[i].stem, files[i].doc).map_values(
                        |d: DiagnosticView|
                            files[i].display + ":"@ + decimal_of((d.range.start.line + 1) as nat)
                                + ":"@ + decimal_of((d.range.start.character + 1) as nat) + ": "@
                                + (match d.severity {
                                Severity::Error => "error"@,
                                Severity::Warning => "warning"@,
                                Severity::Information => "info"@,
                                Severity::Hint => "hint"@,
                            }) + ": "@ + d.message,
                    ),
            );
            &&& total_of(rules, files, severity, n) == lists.flatten_alt().filter(
                |d: DiagnosticView| d.severity == severity,
            ).len()
            &&& remarked(rules, files, n) == lists.filter(
                |l: Seq<DiagnosticView>| l.len() > 0,
            ).len()
            &&& lines_for(rules, files, n) == lines.flatten_alt()
        }),
    decreases n,
{
    reveal(Seq::filter);
    let list = |i: int| problems(rules, files[i].stem, files[i].doc);
    let print = |i: int|
        problems(rules, files[i].stem, files[i].doc).map_values(
            |d: DiagnosticView|
                files[i].display + ":"@ + decimal_of((d.range.start.line + 1) as nat) + ":"@
                    + decimal_of((d.range.start.character + 1) as nat) + ": "@ + (
                match d.severity {
                    Severity::Error => "error"@,
                    Severity::Warning => "warning"@,
                    Severity::Information => "info"@,
                    Severity::Hint => "hint"@,
                }) + ": "@ + d.message,
        );
    let lists = Seq::new(n as nat, list);
    let lines = Seq::new(n as nat, print);
    let pred = |d: DiagnosticView| d.severity == severity;
    if n == 0 {
        assert(lists.flatten_alt() =~= Seq::empty());
        assert(lines.flatten_alt() =~= Seq::empty());
    } else {
        lemma_all_files(rules, files, severity, n - 1);
        assert(lists.drop_last() =~= Seq::new((n - 1) as nat, list));
        assert(lines.drop_last() =~= Seq::new((n - 1) as nat, print));
        assert(lists.last() == file_problems(rules, files, n - 1));
        assert(lines.last() =~= file_lines(
            files[n - 1].display,
            file_problems(rules, files, n - 1),
        ));
        law_every_diagnostic_counts(lists.last(), Seq::empty(), severity);
        Seq::filter_distributes_over_add(lists.drop_last().flatten_alt(), lists.last(), pred);
    }
}

/// The totals of a report count every diagnostic of every file; the number of files counts
/// those that have a diagnostic; and there is a line for each diagnostic, file by file,
/// that gives the file, the place counted from 1, the severity and the message.
pub proof fn law_report_is_complete(
    report: CheckReport,
    rules: Rules,
    files: Seq<CheckFileView>,
)
    requires
        report.reports(rules, files),
    ensures
        ({
            let lists = Seq::new(
                files.len(),
                |i: int| problems(rules, files[i].stem, files[i].doc),
            );
            let lines = Seq::new(
                files.len(),
                |i: int|
                    problems(rules, files[i].stem, files[i].doc).map_values(
                        |d: DiagnosticView|
                            files[i].display + ":"@ + decimal_of((d.range.start.line + 1) as nat)
                                + ":"@ + decimal_of((d.range.start.character + 1) as nat) + ": "@
                                + (match d.severity {
                                Severity::Error => "error"@,
                                Severity::Warning => "warning"@,
                                Severity::Information => "info"@,
                                Severity::Hint => "hint"@,
                            }) + ": "@ + d.message,
                    ),
            );
            &&& report.errors == lists.flatten_alt().filter(
                |d: DiagnosticView| d.severity == Severity::Error,
            ).len()
            &&& report.warnings == lists.flatten_alt().filter(
                |d: DiagnosticView| d.severity == Severity::Warning,
            ).len()
            &&& report.files == lists.filter(|l: Seq<DiagnosticView>| l.len() > 0).len()
            &&& report.lines@.map_values(|s: String| s@) == lines.flatten_alt()
        }),
{
    let n = files.len() as int;
    lemma_all_files(rules, files, Severity::Error, n);
    lemma_all_files(rules, files, Severity::Warning, n);
}

/// The closing line gives the number of checked files where there is no error and no
/// warning, and otherwise the errors, the warnings and the files with diagnostics.
pub proof fn law_closing_line(report: CheckReport, rules: Rules, files: Seq<CheckFileView>)
    requires
        report.reports(rules, files),
    ensures
        report.errors == 0 && report.warnings == 0 ==> report.summary@
            == "No diagnostics found across "@ + decimal_of(files.len()) + " file(s)."@,
        report.errors > 0 || report.warnings > 0 ==> report.summary@ == decimal_of(
            report.errors as nat,
        ) + " error(s), "@ + decimal_of(report.warnings as nat) + " warning(s) across "@
            + decimal_of(report.files as nat) + " file(s)."@,
{
}

proof fn lemma_symbols_of(
    files: Seq<CheckFileView>,
    targets: Set<(Seq<char>, Seq<char>)>,
    n: int,
    key: SymbolKey,
)
    requires
        0 <= n <= files.len(),
    ensures
        symbols_of(files, targets, n).contains_key(key) <==> exists|f: int, i: int, j: int|
            0 <= f < n && files[f].uri is Some && #[trigger] names_cell(
                files[f].doc,
                files[f].stem,
                targets,
                i,
                j,
                key,
            ),
    decreases n,
{
    if n > 0 {
        lemma_symbols_of(files, targets, n - 1, key);
        let last = files[n - 1];
        if last.uri is Some {
            law_symbols_of_a_document(
                symbols_of(files, targets, n - 1),
                last.uri->0,
                last.stem,
                last.doc,
                targets,
                key,
            );
            if exists|i: int, j: int| names_cell(last.doc, last.stem, targets, i, j, key) {
                let (i, j) = choose|i: int, j: int|
                    names_cell(last.doc, last.stem, targets, i, j, key);
                assert(names_cell(files[n - 1].doc, files[n - 1].stem, targets, i, j, key));
            }
        }
    }
}

/// Every file of a check is validated against the values of the target columns of all the
/// files that have a URI, whatever their order, and against nothing else.
pub proof fn law_check_sees_all_files(
    schema: &Schema,
    files: Seq<CheckFileView>,
    key: SymbolKey,
)
    ensures
        check_rules(Some(schema), files).files == Some(schema@),
        check_rules(None, files).files is None,
        check_rules(Some(schema), files).symbols.contains_key(key) <==> exists|
            f: int,
            i: int,
            j: int,
        |
            0 <= f < files.len() && files[f].uri is Some && #[trigger] names_cell(
                files[f].doc,
                files[f].stem,
                targets_of(schema@),
                i,
                j,
                key,
            ),
{
    lemma_symbols_of(files, targets_of(schema@), files.len() as int, key);
}

/// What is printed of a check that could not be made; the cause is part of it.
pub proof fn law_failures(error: String, path: String, failure: CheckFailure)
    ensures
        CheckFailure::NoWorkspacePath.text()
            == "error: single_shot mode requires `workspace_path` in config"@,
        (CheckFailure::SchemaFailed { error }).text() == "error: schema load failed: "@ + error@,
        (CheckFailure::SchemaPanicked { error }).text() == "error: schema task panicked: "@
            + error@,
        (CheckFailure::Unreadable { path, error }).text()
            == "error: cannot read workspace directory '"@ + path@ + "': "@ + error@,
        CheckOutcome::Failed(failure).code() == 2,
{
}

/// What is said of the files to check is said of each of them, with its path, its URI, its
/// stem and its document.
pub proof fn law_check_file_views(files: Seq<CheckFile>, i: int)
    requires
        0 <= i < files.len(),
    ensures
        file_views(files).len() == files.len(),
        file_views(files)[i].display == files[i].display@,
        file_views(files)[i].uri is Some <==> files[i].uri is Some,
        files[i].uri is Some ==> file_views(files)[i].uri->0 == files[i].uri->0@,
        file_views(files)[i].stem == files[i].stem@,
        file_views(files)[i].doc == files[i].doc@,
{
}

} // verus!
