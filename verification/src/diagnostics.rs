//! Validation of a document against the schema and the symbol index.

use vstd::prelude::*;
use vstd::string::*;

use crate::document::{start_of, Cell, CellView, DocumentData, DocumentView, RowView};
use crate::number::{is_integer, is_integer_text, is_number, is_number_text};
use crate::schema::{enum_codes, file_in, has_name, law_codes_of_a_table, law_reference_column_has_a_target,
    name_listed, search, targets_of, texts, FieldType, FieldTypeName, Schema, SchemaField, SchemaFile, TableCell};
use crate::symbols::{cell_range, defines, law_indexing, stretch, symbol_at, with_document, LocationView,
    Position, Range, SymbolIndex, SymbolKey};
use crate::text::{ascii_lowercase, eq_ignore_ascii_case, lowercase_of};

verus! {

/// How grave a diagnostic is.
#[derive(Debug, Clone, Copy, PartialEq, Eq, Structural)]
pub enum Severity {
    Error,
    Warning,
    Information,
    Hint,
}

/// A remark on a stretch of a document.
#[derive(Debug)]
pub struct Diagnostic {
    pub range: Range,
    pub severity: Severity,
    pub source: String,
    pub message: String,
}

/// What a diagnostic holds.
pub struct DiagnosticView {
    pub range: Range,
    pub severity: Severity,
    pub source: Seq<char>,
    pub message: Seq<char>,
}

impl View for Diagnostic {
    type V = DiagnosticView;

    open spec fn view(&self) -> DiagnosticView {
        DiagnosticView {
            range: self.range,
            severity: self.severity,
            source: self.source@,
            message: self.message@,
        }
    }
}

/// What the diagnostics of a list hold.
pub open spec fn views(list: Seq<Diagnostic>) -> Seq<DiagnosticView> {
    list.map_values(|d: Diagnostic| d@)
}

// ---------------------------------------------------------------------------
// One cell
// ---------------------------------------------------------------------------

/// The diagnostic for a cell, given the declared type of its column and whether the value
/// resolves as a reference.
pub open spec fn cell_problem(
    line: u32,
    cell: CellView,
    col_name: Seq<char>,
    field_type: FieldType,
    resolves: bool,
) -> Option<DiagnosticView> {
    let range = stretch(line, cell.col_start, cell.value.len());
    let source = "vector-lsp"@;
    match field_type.kind {
        FieldTypeName::Reference => if field_type.file is Some && field_type.field is Some
            && !resolves {
            Some(
                DiagnosticView {
                    range,
                    severity: Severity::Error,
                    source,
                    message: "'"@ + cell.value + "' not found in "@ + field_type.file->0@ + "."@
                        + field_type.field->0@,
                },
            )
        } else {
            None
        },
        FieldTypeName::Int => if !is_integer_text(cell.value) {
            Some(
                DiagnosticView {
                    range,
                    severity: Severity::Warning,
                    source,
                    message: "'"@ + cell.value + "' is not a valid integer for column '"@ + col_name
                        + "'"@,
                },
            )
        } else {
            None
        },
        FieldTypeName::Float => if !is_number_text(cell.value) {
            Some(
                DiagnosticView {
                    range,
                    severity: Severity::Warning,
                    source,
                    message: "'"@ + cell.value + "' is not a valid number for column '"@ + col_name
                        + "'"@,
                },
            )
        } else {
            None
        },
        _ => None,
    }
}

/// The diagnostic for a cell, given the declared type of its column and whether the value
/// resolves as a reference.
pub fn check_cell(
    line: u32,
    cell: &Cell,
    col_name: &str,
    field_type: &FieldType,
    resolves: bool,
) -> (result: Option<Diagnostic>)
    requires
        cell@.col_start + cell@.value.len() <= u32::MAX,
    ensures
        match result {
            Some(d) => cell_problem(line, cell@, col_name@, *field_type, resolves) == Some(d@),
            None => cell_problem(line, cell@, col_name@, *field_type, resolves) is None,
        },
{
    let mut message = String::new();
    message.append("'");
    message.append(cell.value.as_str());
    let severity = match field_type.kind {
        FieldTypeName::Reference => {
            match (&field_type.file, &field_type.field) {
                (Some(file), Some(column)) => {
                    if resolves {
                        return None;
                    }
                    message.append("' not found in ");
                    message.append(file.as_str());
                    message.append(".");
                    message.append(column.as_str());
                    Severity::Error
                },
                _ => {
                    return None;
                },
            }
        },
        FieldTypeName::Int => {
            if is_integer(cell.value.as_str()) {
                return None;
            }
            message.append("' is not a valid integer for column '");
            message.append(col_name);
            message.append("'");
            Severity::Warning
        },
        FieldTypeName::Float => {
            if is_number(cell.value.as_str()) {
                return None;
            }
            message.append("' is not a valid number for column '");
            message.append(col_name);
            message.append("'");
            Severity::Warning
        },
        _ => {
            return None;
        },
    };
    assert(Seq::<char>::empty() + "'"@ =~= "'"@);
    Some(
        Diagnostic {
            range: cell_range(line, cell),
            severity,
            source: "vector-lsp".to_owned(),
            message,
        },
    )
}

// ---------------------------------------------------------------------------
// A document
// ---------------------------------------------------------------------------

/// What a document is validated against: the schema's files, if a schema is loaded, and
/// the symbols of the workspace.
pub struct Rules {
    pub files: Option<Map<Seq<char>, SchemaFile>>,
    pub symbols: Map<SymbolKey, LocationView>,
}

/// The rules that a schema and an index make.
pub open spec fn rules(schema: Option<&Schema>, symbols: &SymbolIndex) -> Rules {
    Rules {
        files: match schema {
            Some(s) => Some(s@),
            None => None,
        },
        symbols: symbols@,
    }
}

/// The field that the schema declares for a column of a file.
pub open spec fn column_field(
    files: Option<Map<Seq<char>, SchemaFile>>,
    stem: Seq<char>,
    col_name: Seq<char>,
) -> Option<SchemaField> {
    match files {
        Some(f) => search(f, seq![stem], col_name, Set::empty()),
        None => None,
    }
}

/// The type that the schema declares for a column of a file.
pub open spec fn column_type(
    files: Option<Map<Seq<char>, SchemaFile>>,
    stem: Seq<char>,
    col_name: Seq<char>,
) -> Option<FieldType> {
    match column_field(files, stem, col_name) {
        Some(field) => field.field_type,
        None => None,
    }
}

/// True when one of the codes is `value`, but for the case of ASCII letters.
pub open spec fn has_code(codes: Seq<Seq<char>>, value: Seq<char>) -> bool {
    exists|i: int|
        0 <= i < codes.len() && ascii_lowercase(#[trigger] codes[i]) == ascii_lowercase(value)
}

/// True when `value` is a symbol of the target column, or a code of its enum table.
pub open spec fn resolves(
    rules: Rules,
    file: Seq<char>,
    column: Seq<char>,
    value: Seq<char>,
) -> bool {
    ||| symbol_at(rules.symbols, file, column, value) is Some
    ||| match rules.files {
        Some(files) => match enum_codes(files, file, column) {
            Some(codes) => has_code(codes, value),
            None => false,
        },
        None => false,
    }
}

/// True when the value of a cell resolves as its column's type asks for.
pub open spec fn type_resolves(rules: Rules, field_type: FieldType, value: Seq<char>) -> bool {
    match (field_type.file, field_type.field) {
        (Some(file), Some(column)) => resolves(rules, file@, column@, value),
        _ => false,
    }
}

/// The diagnostic for cell `j` of a row. An empty cell, a cell of a column without a name
/// and a cell of a column without a declared type have none.
pub open spec fn problem_at(
    rules: Rules,
    stem: Seq<char>,
    headers: Seq<Seq<char>>,
    row: RowView,
    j: int,
) -> Option<DiagnosticView> {
    let cell = row.cells[j];
    if cell.value.len() == 0 || j >= headers.len() || headers[j].len() == 0 {
        None
    } else {
        match column_type(rules.files, stem, headers[j]) {
            Some(ft) => cell_problem(
                row.line,
                cell,
                headers[j],
                ft,
                type_resolves(rules, ft, cell.value),
            ),
            None => None,
        }
    }
}

/// A list with one more element, if there is one.
pub open spec fn with_some<T>(list: Seq<T>, more: Option<T>) -> Seq<T> {
    match more {
        Some(x) => list.push(x),
        None => list,
    }
}

/// The diagnostics for the first `n` cells of a row.
pub open spec fn row_problems(
    rules: Rules,
    stem: Seq<char>,
    headers: Seq<Seq<char>>,
    row: RowView,
    n: int,
) -> Seq<DiagnosticView>
    decreases n,
{
    if n <= 0 {
        Seq::empty()
    } else {
        with_some(
            row_problems(rules, stem, headers, row, n - 1),
            problem_at(rules, stem, headers, row, n - 1),
        )
    }
}

/// The diagnostics for the cells of the first `n` rows.
pub open spec fn rows_problems(
    rules: Rules,
    stem: Seq<char>,
    doc: DocumentView,
    n: int,
) -> Seq<DiagnosticView>
    decreases n,
{
    if n <= 0 {
        Seq::empty()
    } else {
        rows_problems(rules, stem, doc, n - 1) + row_problems(
            rules,
            stem,
            doc.headers,
            doc.rows[n - 1],
            doc.rows[n - 1].cells.len() as int,
        )
    }
}

/// True when the file's own schema entry lists the column as one to ignore.
pub open spec fn is_ignored(
    files: Map<Seq<char>, SchemaFile>,
    stem: Seq<char>,
    col_name: Seq<char>,
) -> bool {
    match file_in(files, stem) {
        Some(file) => has_name(file.ignore_fields@, col_name),
        None => false,
    }
}

/// The diagnostic for header `j`: the schema neither declares the column nor ignores it.
pub open spec fn header_problem(
    rules: Rules,
    stem: Seq<char>,
    headers: Seq<Seq<char>>,
    j: int,
) -> Option<DiagnosticView> {
    match rules.files {
        Some(files) => if headers[j].len() > 0 && column_field(
            rules.files,
            stem,
            headers[j],
        ) is None && !is_ignored(files, stem, headers[j]) {
            Some(
                DiagnosticView {
                    range: stretch(0, start_of(headers, j) as u32, headers[j].len()),
                    severity: Severity::Information,
                    source: "vector-lsp"@,
                    message: "column '"@ + headers[j] + "' is not declared in the schema"@,
                },
            )
        } else {
            None
        },
        None => None,
    }
}

/// The diagnostics for the first `n` headers.
pub open spec fn header_problems(
    rules: Rules,
    stem: Seq<char>,
    headers: Seq<Seq<char>>,
    n: int,
) -> Seq<DiagnosticView>
    decreases n,
{
    if n <= 0 {
        Seq::empty()
    } else {
        with_some(
            header_problems(rules, stem, headers, n - 1),
            header_problem(rules, stem, headers, n - 1),
        )
    }
}

/// The diagnostics for a document: those of its cells, row by row, then those of its
/// headers.
pub open spec fn problems(rules: Rules, stem: Seq<char>, doc: DocumentView) -> Seq<
    DiagnosticView,
> {
    rows_problems(rules, stem, doc, doc.rows.len() as int) + header_problems(
        rules,
        stem,
        doc.headers,
        doc.headers.len() as int,
    )
}

/// True when `value` is a symbol of the target column, or a code of its enum table.
fn reference_resolves(
    symbols: &SymbolIndex,
    schema: Option<&Schema>,
    file: &str,
    column: &str,
    value: &str,
) -> (result: bool)
    ensures
        result == resolves(rules(schema, symbols), file@, column@, value@),
{
    if symbols.lookup(file, column, value).is_some() {
        return true;
    }
    let codes = match schema {
        Some(s) => match s.enum_values_for_target(file, column) {
            Some(codes) => codes,
            None => {
                return false;
            },
        },
        None => {
            return false;
        },
    };
    code_listed(&codes, value)
}

/// True when one of the codes is `value`, but for the case of ASCII letters.
fn code_listed(codes: &Vec<String>, value: &str) -> (result: bool)
    ensures
        result == has_code(texts(codes@), value@),
{
    let mut i: usize = 0;
    while i < codes.len()
        invariant
            i <= codes@.len(),
            forall|j: int|
                0 <= j < i ==> ascii_lowercase(#[trigger] texts(codes@)[j]) != ascii_lowercase(
                    value@,
                ),
        decreases codes@.len() - i,
    {
        assert(texts(codes@)[i as int] == codes@[i as int]@);
        if eq_ignore_ascii_case(codes[i].as_str(), value) {
            return true;
        }
        i = i + 1;
    }
    false
}

/// The diagnostic for a cell of the named column.
fn check_column_cell(
    file_stem: &str,
    line: u32,
    cell: &Cell,
    col_name: &str,
    schema: Option<&Schema>,
    symbols: &SymbolIndex,
) -> (result: Option<Diagnostic>)
    requires
        cell@.col_start + cell@.value.len() <= u32::MAX,
    ensures
        match column_type(rules(schema, symbols).files, file_stem@, col_name@) {
            Some(ft) => {
                let expected = cell_problem(
                    line,
                    cell@,
                    col_name@,
                    ft,
                    type_resolves(rules(schema, symbols), ft, cell@.value),
                );
                match result {
                    Some(d) => expected == Some(d@),
                    None => expected is None,
                }
            },
            None => result is None,
        },
{
    let s = match schema {
        Some(s) => s,
        None => {
            return None;
        },
    };
    match s.find_field(file_stem, col_name) {
        Some(field) => match &field.field_type {
            Some(ft) => {
                let resolved = match (&ft.file, &ft.field) {
                    (Some(file), Some(column)) => ft.kind == FieldTypeName::Reference
                        && reference_resolves(
                        symbols,
                        schema,
                        file.as_str(),
                        column.as_str(),
                        cell.value.as_str(),
                    ),
                    _ => false,
                };
                check_cell(line, cell, col_name, ft, resolved)
            },
            None => None,
        },
        None => None,
    }
}

/// The diagnostic for header `j`.
fn check_header(
    file_stem: &str,
    doc: &DocumentData,
    j: usize,
    schema: &Schema,
    Ghost(rules): Ghost<Rules>,
) -> (result: Option<Diagnostic>)
    requires
        doc@.fits(),
        j < doc.headers@.len(),
        rules.files == Some(schema@),
    ensures
        match result {
            Some(d) => header_problem(rules, file_stem@, doc@.headers, j as int) == Some(d@),
            None => header_problem(rules, file_stem@, doc@.headers, j as int) is None,
        },
{
    let header = doc.headers[j].as_str();
    assert(doc@.headers[j as int] == header@);
    if header.is_empty() || schema.find_field(file_stem, header).is_some() {
        return None;
    }
    if let Some(file) = schema.get_file(file_stem) {
        if name_listed(&file.ignore_fields, header) {
            return None;
        }
    }
    let start = doc.header_start(j);
    let end = start + header.unicode_len() as u32;
    let mut message = String::new();
    message.append("column '");
    message.append(header);
    message.append("' is not declared in the schema");
    assert(Seq::<char>::empty() + "column '"@ =~= "column '"@);
    Some(
        Diagnostic {
            range: Range {
                start: Position { line: 0, character: start },
                end: Position { line: 0, character: end },
            },
            severity: Severity::Information,
            source: "vector-lsp".to_owned(),
            message,
        },
    )
}

/// Validate a single document against the schema and symbol index.
///
/// Three classes of diagnostic are produced:
///   error: cross-reference target not found in the workspace symbol index
///   warning: value cannot be read as the column's declared int or float type
///   information: column header is not declared in the schema and not ignored there
pub fn validate_document(
    file_stem: &str,
    doc: &DocumentData,
    schema: Option<&Schema>,
    symbols: &SymbolIndex,
) -> (result: Vec<Diagnostic>)
    requires
        doc@.fits(),
    ensures
        views(result@) == problems(rules(schema, symbols), file_stem@, doc@),
{
    let ghost r = rules(schema, symbols);
    let mut diags: Vec<Diagnostic> = Vec::new();
    let mut i: usize = 0;
    assert(views(diags@) =~= Seq::empty());
    while i < doc.rows.len()
        invariant
            doc@.fits(),
            r == rules(schema, symbols),
            i <= doc.rows@.len(),
            views(diags@) == rows_problems(r, file_stem@, doc@, i as int),
        decreases doc.rows@.len() - i,
    {
        let row = &doc.rows[i];
        let ghost base = views(diags@);
        assert(doc@.rows[i as int] == row@);
        let mut j: usize = 0;
        assert(views(diags@) =~= base + row_problems(r, file_stem@, doc@.headers, row@, 0));
        while j < row.cells.len()
            invariant
                doc@.fits(),
                r == rules(schema, symbols),
                i < doc.rows@.len(),
                doc@.rows[i as int] == row@,
                j <= row.cells@.len(),
                views(diags@) == base + row_problems(
                    r,
                    file_stem@,
                    doc@.headers,
                    row@,
                    j as int,
                ),
            decreases row.cells@.len() - j,
        {
            let cell = &row.cells[j];
            let ghost before = diags@;
            assert(row@.cells[j as int] == cell@);
            assert(doc@.rows[i as int].cells[j as int] == cell@);
            if j < doc.headers.len() && !cell.value.as_str().is_empty() {
                let col_name = doc.headers[j].as_str();
                assert(doc@.headers[j as int] == col_name@);
                if !col_name.is_empty() {
                    if let Some(d) = check_column_cell(
                        file_stem,
                        row.line,
                        cell,
                        col_name,
                        schema,
                        symbols,
                    ) {
                        diags.push(d);
                        assert(views(diags@) =~= views(before).push(d@));
                    }
                }
            }
            assert(views(diags@) =~= base + row_problems(
                r,
                file_stem@,
                doc@.headers,
                row@,
                j + 1,
            ));
            j = j + 1;
        }
        i = i + 1;
    }
    let ghost base = views(diags@);
    if let Some(s) = schema {
        let mut j: usize = 0;
        assert(views(diags@) =~= base + header_problems(r, file_stem@, doc@.headers, 0));
        while j < doc.headers.len()
            invariant
                doc@.fits(),
                r == rules(schema, symbols),
                schema == Some(s),
                j <= doc.headers@.len(),
                views(diags@) == base + header_problems(r, file_stem@, doc@.headers, j as int),
            decreases doc.headers@.len() - j,
        {
            let ghost before = diags@;
            if let Some(d) = check_header(file_stem, doc, j, s, Ghost(r)) {
                diags.push(d);
                assert(views(diags@) =~= views(before).push(d@));
            }
            assert(views(diags@) =~= base + header_problems(
                r,
                file_stem@,
                doc@.headers,
                j + 1,
            ));
            j = j + 1;
        }
    } else {
        proof {
            lemma_no_header_problems(r, file_stem@, doc@.headers, doc@.headers.len() as int);
        }
        assert(views(diags@) =~= problems(r, file_stem@, doc@));
    }
    diags
}

/// Without a schema no header is remarked on.
proof fn lemma_no_header_problems(
    rules: Rules,
    stem: Seq<char>,
    headers: Seq<Seq<char>>,
    n: int,
)
    requires
        rules.files is None,
    ensures
        header_problems(rules, stem, headers, n) == Seq::<DiagnosticView>::empty(),
    decreases n,
{
    if n > 0 {
        lemma_no_header_problems(rules, stem, headers, n - 1);
    }
}

// ---------------------------------------------------------------------------
// Laws
// ---------------------------------------------------------------------------

/// True when cell `j` of row `i` of the document has the diagnostic `d`.
pub open spec fn on_cell(
    rules: Rules,
    stem: Seq<char>,
    doc: DocumentView,
    i: int,
    j: int,
    d: DiagnosticView,
) -> bool {
    &&& 0 <= i < doc.rows.len()
    &&& 0 <= j < doc.rows[i].cells.len()
    &&& problem_at(rules, stem, doc.headers, doc.rows[i], j) == Some(d)
}

/// True when header `j` of the document has the diagnostic `d`.
pub open spec fn on_header(
    rules: Rules,
    stem: Seq<char>,
    doc: DocumentView,
    j: int,
    d: DiagnosticView,
) -> bool {
    &&& 0 <= j < doc.headers.len()
    &&& header_problem(rules, stem, doc.headers, j) == Some(d)
}

proof fn lemma_row_problems(
    rules: Rules,
    stem: Seq<char>,
    headers: Seq<Seq<char>>,
    row: RowView,
    n: int,
    d: DiagnosticView,
)
    requires
        0 <= n <= row.cells.len(),
    ensures
        row_problems(rules, stem, headers, row, n).contains(d) <==> exists|j: int|
            0 <= j < n && #[trigger] problem_at(rules, stem, headers, row, j) == Some(d),
    decreases n,
{
    if n > 0 {
        lemma_row_problems(rules, stem, headers, row, n - 1, d);
        lemma_with_some(
            row_problems(rules, stem, headers, row, n - 1),
            problem_at(rules, stem, headers, row, n - 1),
            d,
        );
    }
}

proof fn lemma_header_problems(
    rules: Rules,
    stem: Seq<char>,
    headers: Seq<Seq<char>>,
    n: int,
    d: DiagnosticView,
)
    requires
        0 <= n <= headers.len(),
    ensures
        header_problems(rules, stem, headers, n).contains(d) <==> exists|j: int|
            0 <= j < n && #[trigger] header_problem(rules, stem, headers, j) == Some(d),
    decreases n,
{
    if n > 0 {
        lemma_header_problems(rules, stem, headers, n - 1, d);
        lemma_with_some(
            header_problems(rules, stem, headers, n - 1),
            header_problem(rules, stem, headers, n - 1),
            d,
        );
    }
}

proof fn lemma_with_some<T>(list: Seq<T>, more: Option<T>, x: T)
    ensures
        with_some(list, more).contains(x) <==> list.contains(x) || more == Some(x),
{
    match more {
        Some(y) => {
            assert(list.push(y)[list.len() as int] == y);
            if list.contains(x) {
                let i = choose|i: int| 0 <= i < list.len() && list[i] == x;
                assert(list.push(y)[i] == x);
            }
        },
        None => {},
    }
}

proof fn lemma_join_contains<T>(a: Seq<T>, b: Seq<T>, x: T)
    ensures
        (a + b).contains(x) <==> a.contains(x) || b.contains(x),
{
    if a.contains(x) {
        let i = choose|i: int| 0 <= i < a.len() && a[i] == x;
        assert((a + b)[i] == x);
    }
    if b.contains(x) {
        let i = choose|i: int| 0 <= i < b.len() && b[i] == x;
        assert((a + b)[a.len() + i] == x);
    }
}

proof fn lemma_rows_problems(
    rules: Rules,
    stem: Seq<char>,
    doc: DocumentView,
    n: int,
    d: DiagnosticView,
)
    requires
        0 <= n <= doc.rows.len(),
    ensures
        rows_problems(rules, stem, doc, n).contains(d) <==> exists|i: int, j: int|
            i < n && #[trigger] on_cell(rules, stem, doc, i, j, d),
    decreases n,
{
    if n > 0 {
        let row = doc.rows[n - 1];
        let count = row.cells.len() as int;
        let before = rows_problems(rules, stem, doc, n - 1);
        let here = row_problems(rules, stem, doc.headers, row, count);
        lemma_rows_problems(rules, stem, doc, n - 1, d);
        lemma_row_problems(rules, stem, doc.headers, row, count, d);
        lemma_join_contains(before, here, d);
        if here.contains(d) {
            let j = choose|j: int|
                0 <= j < count && #[trigger] problem_at(rules, stem, doc.headers, row, j) == Some(d);
            assert(on_cell(rules, stem, doc, n - 1, j, d));
        }
        if exists|i: int, j: int| i < n && #[trigger] on_cell(rules, stem, doc, i, j, d) {
            let (i, j) = choose|i: int, j: int|
                i < n && #[trigger] on_cell(rules, stem, doc, i, j, d);
            if i == n - 1 {
                assert(problem_at(rules, stem, doc.headers, row, j) == Some(d));
            } else {
                assert(i < n - 1 && on_cell(rules, stem, doc, i, j, d));
            }
        }
    }
}

/// A document's diagnostics are those of its cells and those of its headers: each of these
/// is among them, and there is no other.
pub proof fn law_every_problem_is_reported(
    rules: Rules,
    stem: Seq<char>,
    doc: DocumentView,
    d: DiagnosticView,
)
    ensures
        problems(rules, stem, doc).contains(d) <==> {
            ||| exists|i: int, j: int| on_cell(rules, stem, doc, i, j, d)
            ||| exists|j: int| on_header(rules, stem, doc, j, d)
        },
{
    let n = doc.headers.len() as int;
    lemma_rows_problems(rules, stem, doc, doc.rows.len() as int, d);
    lemma_header_problems(rules, stem, doc.headers, n, d);
    lemma_join_contains(
        rows_problems(rules, stem, doc, doc.rows.len() as int),
        header_problems(rules, stem, doc.headers, n),
        d,
    );
    if exists|i: int, j: int| on_cell(rules, stem, doc, i, j, d) {
        let (i, j) = choose|i: int, j: int| on_cell(rules, stem, doc, i, j, d);
        assert(i < doc.rows.len() && on_cell(rules, stem, doc, i, j, d));
    }
    if header_problems(rules, stem, doc.headers, n).contains(d) {
        let j = choose|j: int|
            0 <= j < n && #[trigger] header_problem(rules, stem, doc.headers, j) == Some(d);
        assert(on_header(rules, stem, doc, j, d));
    }
    if exists|j: int| on_header(rules, stem, doc, j, d) {
        let j = choose|j: int| on_header(rules, stem, doc, j, d);
        assert(0 <= j < n && header_problem(rules, stem, doc.headers, j) == Some(d));
    }
}

/// A cell is an error exactly where its column is a complete reference that the value
/// does not resolve, a warning exactly where the column is of type int or float and the
/// value is not such a number, and nothing else; its diagnostic covers its value.
pub proof fn law_classes_of_cells(
    rules: Rules,
    stem: Seq<char>,
    doc: DocumentView,
    i: int,
    j: int,
)
    requires
        0 <= i < doc.rows.len(),
        0 <= j < doc.rows[i].cells.len(),
        j < doc.headers.len(),
        doc.headers[j].len() > 0,
        doc.rows[i].cells[j].value.len() > 0,
    ensures
        ({
            let cell = doc.rows[i].cells[j];
            let found = problem_at(rules, stem, doc.headers, doc.rows[i], j);
            let declared = column_type(rules.files, stem, doc.headers[j]);
            let is_error = declared is Some && declared->0.kind == FieldTypeName::Reference
                && declared->0.file is Some && declared->0.field is Some && !resolves(
                rules,
                declared->0.file->0@,
                declared->0.field->0@,
                cell.value,
            );
            let is_warning = declared is Some && (declared->0.kind == FieldTypeName::Int
                && !is_integer_text(cell.value) || declared->0.kind == FieldTypeName::Float
                && !is_number_text(cell.value));
            &&& is_error <==> (found is Some && found->0.severity == Severity::Error)
            &&& is_warning <==> (found is Some && found->0.severity == Severity::Warning)
            &&& found is Some ==> is_error || is_warning
            &&& found is Some ==> found->0.range == stretch(
                doc.rows[i].line,
                cell.col_start,
                cell.value.len(),
            )
        }),
{
}

/// A header is remarked on, for information, exactly where a schema is loaded that neither
/// declares the column nor ignores it.
pub proof fn law_class_of_headers(rules: Rules, stem: Seq<char>, doc: DocumentView, j: int)
    requires
        0 <= j < doc.headers.len(),
        doc.headers[j].len() > 0,
    ensures
        ({
            let found = header_problem(rules, stem, doc.headers, j);
            &&& found is Some <==> rules.files is Some && column_field(
                rules.files,
                stem,
                doc.headers[j],
            ) is None && !is_ignored(rules.files->0, stem, doc.headers[j])
            &&& found is Some ==> found->0.severity == Severity::Information
        }),
{
}

/// Without a schema nothing is remarked on.
pub proof fn law_no_schema_no_problem(rules: Rules, stem: Seq<char>, doc: DocumentView)
    requires
        rules.files is None,
    ensures
        problems(rules, stem, doc) == Seq::<DiagnosticView>::empty(),
{
    assert forall|d: DiagnosticView| !problems(rules, stem, doc).contains(d) by {
        law_every_problem_is_reported(rules, stem, doc, d);
    }
    if problems(rules, stem, doc).len() > 0 {
        assert(problems(rules, stem, doc).contains(problems(rules, stem, doc)[0]));
    }
    assert(problems(rules, stem, doc) =~= Seq::empty());
}

/// True when the type makes a column a reference that names both file and column.
pub open spec fn is_reference(field_type: FieldType) -> bool {
    &&& field_type.kind == FieldTypeName::Reference
    &&& field_type.file is Some
    &&& field_type.field is Some
}

/// A reference to a value that the target column of an indexed document holds is no
/// error: once the document is indexed for the schema's targets, the value resolves.
pub proof fn law_defined_value_resolves(
    files: Map<Seq<char>, SchemaFile>,
    symbols: Map<SymbolKey, LocationView>,
    stem: Seq<char>,
    col_name: Seq<char>,
    field_type: FieldType,
    uri: Seq<char>,
    doc: DocumentView,
    i: int,
    j: int,
)
    requires
        files.dom().finite(),
        column_type(Some(files), stem, col_name) == Some(field_type),
        is_reference(field_type),
        0 <= i < doc.rows.len(),
        0 <= j < doc.rows[i].cells.len(),
        j < doc.headers.len(),
        doc.headers[j] == field_type.field->0@,
        doc.headers[j].len() > 0,
        doc.rows[i].cells[j].value.len() > 0,
    ensures
        type_resolves(
            Rules {
                files: Some(files),
                symbols: with_document(
                    symbols,
                    uri,
                    lowercase_of(field_type.file->0@),
                    doc,
                    targets_of(files),
                ),
            },
            field_type,
            doc.rows[i].cells[j].value,
        ),
{
    let target = lowercase_of(field_type.file->0@);
    let key = SymbolKey {
        file: target,
        column: doc.headers[j],
        value: doc.rows[i].cells[j].value,
    };
    law_reference_column_has_a_target(files, stem, col_name);
    law_indexing(symbols, uri, target, doc, targets_of(files));
    assert(defines(doc, target, targets_of(files), i, j, key));
}

// ---------------------------------------------------------------------------
// Laws of single cells and headers
// ---------------------------------------------------------------------------

/// The definition and the type of a column are those of the field that the search through
/// the file and the files it appends gives.
pub proof fn law_column_is_searched(
    files: Map<Seq<char>, SchemaFile>,
    stem: Seq<char>,
    col_name: Seq<char>,
)
    ensures
        column_field(Some(files), stem, col_name) == search(
            files,
            seq![stem],
            col_name,
            Set::empty(),
        ),
        match search(files, seq![stem], col_name, Set::empty()) {
            Some(field) => column_type(Some(files), stem, col_name) == field.field_type,
            None => column_type(Some(files), stem, col_name) is None,
        },
        column_field(None, stem, col_name) is None,
        column_type(None, stem, col_name) is None,
{
}

/// A reference whose value is a code of the target's enum table has no diagnostic: it
/// makes no difference which row of the table declares the code, whether the code is a
/// text or a number, or in which case its letters are.
pub proof fn law_code_of_any_row_is_accepted(
    rules: Rules,
    stem: Seq<char>,
    headers: Seq<Seq<char>>,
    row: RowView,
    j: int,
    column: SchemaField,
    field_type: FieldType,
    entry: SchemaFile,
    target: SchemaField,
    table: Vec<Vec<TableCell>>,
    r: int,
    code: String,
)
    requires
        0 <= j < row.cells.len(),
        j < headers.len(),
        rules.files is Some,
        search(rules.files->0, seq![stem], headers[j], Set::empty()) == Some(column),
        column.field_type == Some(field_type),
        field_type.kind == FieldTypeName::Reference,
        field_type.file is Some,
        field_type.field is Some,
        file_in(rules.files->0, field_type.file->0@) == Some(entry),
        entry.field(field_type.field->0@) == Some(target),
        target.table == Some(table),
        0 <= r < table@.len(),
        table@[r]@.len() > 0,
        table@[r]@[0] == TableCell::Text(code) || table@[r]@[0] == TableCell::Number(code),
        ascii_lowercase(code@) == ascii_lowercase(row.cells[j].value),
    ensures
        problem_at(rules, stem, headers, row, j) is None,
{
    let files = rules.files->0;
    let file = field_type.file->0@;
    let name = field_type.field->0@;
    let value = row.cells[j].value;
    law_codes_of_a_table(files, file, name, entry, target, table, code@);
    assert(table@[r]@.len() > 0 && match table@[r]@[0] {
        TableCell::Text(s) => s@ == code@,
        TableCell::Number(s) => s@ == code@,
        TableCell::Other => false,
    });
    let codes = enum_codes(files, file, name)->0;
    let k = choose|k: int| 0 <= k < codes.len() && codes[k] == code@;
    assert(ascii_lowercase(codes[k]) == ascii_lowercase(value));
    assert(has_code(codes, value));
}

/// A reference whose value is a symbol of the target column has no diagnostic.
pub proof fn law_symbol_is_accepted(
    rules: Rules,
    stem: Seq<char>,
    headers: Seq<Seq<char>>,
    row: RowView,
    j: int,
    column: SchemaField,
    field_type: FieldType,
)
    requires
        0 <= j < row.cells.len(),
        j < headers.len(),
        rules.files is Some,
        search(rules.files->0, seq![stem], headers[j], Set::empty()) == Some(column),
        column.field_type == Some(field_type),
        field_type.kind == FieldTypeName::Reference,
        field_type.file is Some,
        field_type.field is Some,
        rules.symbols.contains_key(
            (SymbolKey {
                file: lowercase_of(field_type.file->0@),
                column: field_type.field->0@,
                value: row.cells[j].value,
            }),
        ),
    ensures
        problem_at(rules, stem, headers, row, j) is None,
{
}

/// True when no row of the enum table of the field `column` of the file `file` declares
/// `value`, but for the case of ASCII letters; so it is where there is no such table.
pub open spec fn no_row_declares(
    files: Map<Seq<char>, SchemaFile>,
    file: Seq<char>,
    column: Seq<char>,
    value: Seq<char>,
) -> bool {
    match file_in(files, file) {
        Some(entry) => match entry.field(column) {
            Some(field) => match field.table {
                Some(table) => forall|r: int|
                    0 <= r < table@.len() && (#[trigger] table@[r])@.len() > 0
                        ==> match table@[r]@[0] {
                        TableCell::Text(s) => ascii_lowercase(s@) != ascii_lowercase(value),
                        TableCell::Number(s) => ascii_lowercase(s@) != ascii_lowercase(value),
                        TableCell::Other => true,
                    },
                None => true,
            },
            None => true,
        },
        None => true,
    }
}

/// True when the diagnostic covers the cell's value.
pub open spec fn covers(d: DiagnosticView, line: u32, cell: CellView) -> bool {
    &&& d.range.start.line == line
    &&& d.range.start.character == cell.col_start
    &&& d.range.end.line == line
    &&& d.range.end.character == cell.col_start + cell.value.len()
}

/// A value, not empty, that is neither a symbol of the target column nor declared by any
/// row of the target's enum table is an error that names the value and the target.
pub proof fn law_unknown_value_is_an_error(
    rules: Rules,
    stem: Seq<char>,
    headers: Seq<Seq<char>>,
    row: RowView,
    j: int,
    column: SchemaField,
    field_type: FieldType,
)
    requires
        0 <= j < row.cells.len(),
        j < headers.len(),
        headers[j].len() > 0,
        row.cells[j].value.len() > 0,
        row.cells[j].col_start + row.cells[j].value.len() <= u32::MAX,
        rules.files is Some,
        search(rules.files->0, seq![stem], headers[j], Set::empty()) == Some(column),
        column.field_type == Some(field_type),
        field_type.kind == FieldTypeName::Reference,
        field_type.file is Some,
        field_type.field is Some,
        !rules.symbols.contains_key(
            (SymbolKey {
                file: lowercase_of(field_type.file->0@),
                column: field_type.field->0@,
                value: row.cells[j].value,
            }),
        ),
        no_row_declares(
            rules.files->0,
            field_type.file->0@,
            field_type.field->0@,
            row.cells[j].value,
        ),
    ensures
        match problem_at(rules, stem, headers, row, j) {
            Some(d) => {
                &&& d.severity == Severity::Error
                &&& d.source == "vector-lsp"@
                &&& d.message == "'"@ + row.cells[j].value + "' not found in "@
                    + field_type.file->0@ + "."@ + field_type.field->0@
                &&& covers(d, row.line, row.cells[j])
            },
            None => false,
        },
{
    let files = rules.files->0;
    let file = field_type.file->0@;
    let name = field_type.field->0@;
    let value = row.cells[j].value;
    match enum_codes(files, file, name) {
        Some(codes) => {
            if has_code(codes, value) {
                let k = choose|k: int|
                    0 <= k < codes.len() && ascii_lowercase(#[trigger] codes[k])
                        == ascii_lowercase(value);
                let entry = file_in(files, file)->0;
                let target = entry.field(name)->0;
                let table = target.table->0;
                law_codes_of_a_table(files, file, name, entry, target, table, codes[k]);
                assert(codes.contains(codes[k]));
                let r = choose|r: int|
                    0 <= r < table@.len() && (#[trigger] table@[r])@.len() > 0
                        && match table@[r]@[0] {
                        TableCell::Text(s) => s@ == codes[k],
                        TableCell::Number(s) => s@ == codes[k],
                        TableCell::Other => false,
                    };
                assert(false);
            }
        },
        None => {},
    }
}

/// A value, not empty, of a column of integers, or of numbers, is a warning that names the
/// value and the column exactly where it is not one.
pub proof fn law_no_number_is_a_warning(
    rules: Rules,
    stem: Seq<char>,
    headers: Seq<Seq<char>>,
    row: RowView,
    j: int,
    column: SchemaField,
    field_type: FieldType,
)
    requires
        0 <= j < row.cells.len(),
        j < headers.len(),
        headers[j].len() > 0,
        row.cells[j].value.len() > 0,
        row.cells[j].col_start + row.cells[j].value.len() <= u32::MAX,
        rules.files is Some,
        search(rules.files->0, seq![stem], headers[j], Set::empty()) == Some(column),
        column.field_type == Some(field_type),
        field_type.kind == FieldTypeName::Int || field_type.kind == FieldTypeName::Float,
    ensures
        ({
            let value = row.cells[j].value;
            let is_int = field_type.kind == FieldTypeName::Int;
            match problem_at(rules, stem, headers, row, j) {
                Some(d) => {
                    &&& if is_int {
                        !is_integer_text(value)
                    } else {
                        !is_number_text(value)
                    }
                    &&& d.severity == Severity::Warning
                    &&& d.source == "vector-lsp"@
                    &&& d.message == "'"@ + value + (if is_int {
                        "' is not a valid integer for column '"@
                    } else {
                        "' is not a valid number for column '"@
                    }) + headers[j] + "'"@
                    &&& covers(d, row.line, row.cells[j])
                },
                None => if is_int {
                    is_integer_text(value)
                } else {
                    is_number_text(value)
                },
            }
        }),
{
}

/// Nothing is said of an empty cell, of a cell without a header or under an empty one, of
/// a column that no schema declares or gives a type, of an incomplete reference, and of a
/// column of any type but reference, int and float.
pub proof fn law_other_cells_have_no_problem(
    rules: Rules,
    stem: Seq<char>,
    headers: Seq<Seq<char>>,
    row: RowView,
    j: int,
)
    requires
        0 <= j < row.cells.len(),
        ({
            ||| row.cells[j].value.len() == 0
            ||| j >= headers.len()
            ||| headers[j].len() == 0
            ||| rules.files is None
            ||| search(rules.files->0, seq![stem], headers[j], Set::empty()) is None
            ||| search(rules.files->0, seq![stem], headers[j], Set::empty())->0.field_type is None
            ||| {
                let ft = search(
                    rules.files->0,
                    seq![stem],
                    headers[j],
                    Set::empty(),
                )->0.field_type->0;
                &&& ft.kind == FieldTypeName::Reference ==> ft.file is None || ft.field is None
                &&& ft.kind != FieldTypeName::Int
                &&& ft.kind != FieldTypeName::Float
            }
        }),
    ensures
        problem_at(rules, stem, headers, row, j) is None,
{
}

/// A header, not empty, that the search through the schema finds nothing for is remarked on
/// for information, with its name and its place, unless it is one of the names that the
/// file's entry ignores.
pub proof fn law_undeclared_header(
    files: Map<Seq<char>, SchemaFile>,
    symbols: Map<SymbolKey, LocationView>,
    stem: Seq<char>,
    headers: Seq<Seq<char>>,
    j: int,
)
    requires
        0 <= j < headers.len(),
        headers[j].len() > 0,
        0 <= start_of(headers, j),
        start_of(headers, j) + headers[j].len() <= u32::MAX,
    ensures
        ({
            let ignored = match file_in(files, stem) {
                Some(file) => exists|k: int|
                    0 <= k < file.ignore_fields@.len() && (#[trigger] file.ignore_fields@[k])@
                        == headers[j],
                None => false,
            };
            let declared = search(files, seq![stem], headers[j], Set::empty()) is Some;
            match header_problem(Rules { files: Some(files), symbols }, stem, headers, j) {
                Some(d) => {
                    &&& !declared
                    &&& !ignored
                    &&& d.severity == Severity::Information
                    &&& d.source == "vector-lsp"@
                    &&& d.message == "column '"@ + headers[j] + "' is not declared in the schema"@
                    &&& d.range.start == (Position {
                        line: 0,
                        character: start_of(headers, j) as u32,
                    })
                    &&& d.range.end.line == 0
                    &&& d.range.end.character == start_of(headers, j) + headers[j].len()
                },
                None => declared || ignored,
            }
        }),
{
    match file_in(files, stem) {
        Some(file) => {
            assert(has_name(file.ignore_fields@, headers[j]) == exists|k: int|
                0 <= k < file.ignore_fields@.len() && (#[trigger] file.ignore_fields@[k])@
                    == headers[j]);
        },
        None => {},
    }
}

/// An empty header is not remarked on, and without a schema none is.
pub proof fn law_silent_headers(
    rules: Rules,
    stem: Seq<char>,
    headers: Seq<Seq<char>>,
    j: int,
)
    requires
        0 <= j < headers.len(),
        headers[j].len() == 0 || rules.files is None,
    ensures
        header_problem(rules, stem, headers, j) is None,
{
}

// ---------------------------------------------------------------------------
// The law of order
// ---------------------------------------------------------------------------

/// True when the places, by row and column, come row by row and from left to right.
pub open spec fn in_reading_order(places: Seq<(int, int)>) -> bool {
    forall|k: int, l: int| #![trigger places[k], places[l]]
        0 <= k < l < places.len() ==> places[k].0 < places[l].0 || places[k].0 == places[l].0
            && places[k].1 < places[l].1
}

proof fn lemma_push_has<T>(list: Seq<T>, more: T, x: T)
    ensures
        list.contains(x) ==> list.push(more).contains(x),
        list.push(more).contains(more),
{
    assert(list.push(more)[list.len() as int] == more);
    if list.contains(x) {
        let i = choose|i: int| 0 <= i < list.len() && list[i] == x;
        assert(list.push(more)[i] == x);
    }
}

/// The places of the diagnostics for the first `n` cells of row `r`.
proof fn row_places(
    rules: Rules,
    stem: Seq<char>,
    doc: DocumentView,
    r: int,
    n: int,
) -> (places: Seq<(int, int)>)
    requires
        0 <= r < doc.rows.len(),
        0 <= n <= doc.rows[r].cells.len(),
    ensures
        ({
            let found = row_problems(rules, stem, doc.headers, doc.rows[r], n);
            &&& places.len() == found.len()
            &&& in_reading_order(places)
            &&& forall|k: int| #![trigger places[k]]
                0 <= k < places.len() ==> places[k].0 == r && places[k].1 < n && on_cell(
                    rules,
                    stem,
                    doc,
                    places[k].0,
                    places[k].1,
                    found[k],
                )
            &&& forall|j: int, d: DiagnosticView|
                j < n && #[trigger] on_cell(rules, stem, doc, r, j, d) ==> places.contains((r, j))
        }),
    decreases n,
{
    if n == 0 {
        Seq::empty()
    } else {
        let before = row_places(rules, stem, doc, r, n - 1);
        let found = row_problems(rules, stem, doc.headers, doc.rows[r], n - 1);
        match problem_at(rules, stem, doc.headers, doc.rows[r], n - 1) {
            Some(d) => {
                let places = before.push((r, n - 1));
                assert(on_cell(rules, stem, doc, r, n - 1, d));
                assert forall|k: int| #![trigger places[k]]
                    0 <= k < places.len() implies places[k].0 == r && places[k].1 < n && on_cell(
                    rules,
                    stem,
                    doc,
                    places[k].0,
                    places[k].1,
                    found.push(d)[k],
                ) by {
                    if k < before.len() {
                        assert(places[k] == before[k]);
                    }
                }
                assert(in_reading_order(places)) by {
                    assert forall|k: int, l: int| #![trigger places[k], places[l]]
                        0 <= k < l < places.len() implies places[k].0 < places[l].0 || places[k].0
                        == places[l].0 && places[k].1 < places[l].1 by {
                        assert(places[k] == before[k]);
                        if l < before.len() {
                            assert(places[l] == before[l]);
                        }
                    }
                }
                assert forall|j: int, x: DiagnosticView|
                    j < n && #[trigger] on_cell(
                        rules,
                        stem,
                        doc,
                        r,
                        j,
                        x,
                    ) implies places.contains((r, j)) by {
                    lemma_push_has(before, (r, n - 1), (r, j));
                }
                places
            },
            None => {
                assert forall|j: int, x: DiagnosticView|
                    j < n && #[trigger] on_cell(
                        rules,
                        stem,
                        doc,
                        r,
                        j,
                        x,
                    ) implies before.contains((r, j)) by {
                    assert(j != n - 1);
                }
                before
            },
        }
    }
}

/// The places of the diagnostics for the cells of the first `n` rows.
proof fn rows_places(
    rules: Rules,
    stem: Seq<char>,
    doc: DocumentView,
    n: int,
) -> (places: Seq<(int, int)>)
    requires
        0 <= n <= doc.rows.len(),
    ensures
        ({
            let found = rows_problems(rules, stem, doc, n);
            &&& places.len() == found.len()
            &&& in_reading_order(places)
            &&& forall|k: int| #![trigger places[k]]
                0 <= k < places.len() ==> places[k].0 < n && on_cell(
                    rules,
                    stem,
                    doc,
                    places[k].0,
                    places[k].1,
                    found[k],
                )
            &&& forall|i: int, j: int, d: DiagnosticView|
                i < n && #[trigger] on_cell(rules, stem, doc, i, j, d) ==> places.contains((i, j))
        }),
    decreases n,
{
    if n == 0 {
        Seq::empty()
    } else {
        let count = doc.rows[n - 1].cells.len() as int;
        let a = rows_places(rules, stem, doc, n - 1);
        let b = row_places(rules, stem, doc, n - 1, count);
        let x = rows_problems(rules, stem, doc, n - 1);
        let y = row_problems(rules, stem, doc.headers, doc.rows[n - 1], count);
        let places = a + b;
        assert forall|k: int| #![trigger places[k]]
            0 <= k < places.len() implies places[k].0 < n && on_cell(
            rules,
            stem,
            doc,
            places[k].0,
            places[k].1,
            (x + y)[k],
        ) by {
            if k < a.len() {
                assert(places[k] == a[k]);
            } else {
                assert(places[k] == b[k - a.len()]);
            }
        }
        assert(in_reading_order(places)) by {
            assert forall|k: int, l: int| #![trigger places[k], places[l]]
                0 <= k < l < places.len() implies places[k].0 < places[l].0 || places[k].0
                == places[l].0 && places[k].1 < places[l].1 by {
                if k < a.len() {
                    assert(places[k] == a[k]);
                } else {
                    assert(places[k] == b[k - a.len()]);
                }
                if l < a.len() {
                    assert(places[l] == a[l]);
                } else {
                    assert(places[l] == b[l - a.len()]);
                }
            }
        }
        assert forall|i: int, j: int, d: DiagnosticView|
            i < n && #[trigger] on_cell(rules, stem, doc, i, j, d) implies places.contains(
            (i, j),
        ) by {
            lemma_join_contains(a, b, (i, j));
            if i < n - 1 {
                assert(a.contains((i, j)));
            } else {
                assert(b.contains((i, j)));
            }
        }
        places
    }
}

/// The columns of the diagnostics for the first `n` headers.
proof fn header_columns(
    rules: Rules,
    stem: Seq<char>,
    doc: DocumentView,
    n: int,
) -> (columns: Seq<int>)
    requires
        0 <= n <= doc.headers.len(),
    ensures
        ({
            let found = header_problems(rules, stem, doc.headers, n);
            &&& columns.len() == found.len()
            &&& forall|k: int, l: int| #![trigger columns[k], columns[l]]
                0 <= k < l < columns.len() ==> columns[k] < columns[l]
            &&& forall|k: int| #![trigger columns[k]]
                0 <= k < columns.len() ==> columns[k] < n && on_header(
                    rules,
                    stem,
                    doc,
                    columns[k],
                    found[k],
                )
            &&& forall|j: int, d: DiagnosticView|
                j < n && #[trigger] on_header(rules, stem, doc, j, d) ==> columns.contains(j)
        }),
    decreases n,
{
    if n == 0 {
        Seq::empty()
    } else {
        let before = header_columns(rules, stem, doc, n - 1);
        let found = header_problems(rules, stem, doc.headers, n - 1);
        match header_problem(rules, stem, doc.headers, n - 1) {
            Some(d) => {
                let columns = before.push(n - 1);
                assert forall|k: int| #![trigger columns[k]]
                    0 <= k < columns.len() implies columns[k] < n && on_header(
                    rules,
                    stem,
                    doc,
                    columns[k],
                    found.push(d)[k],
                ) by {
                    if k < before.len() {
                        assert(columns[k] == before[k]);
                    }
                }
                assert forall|k: int, l: int| #![trigger columns[k], columns[l]]
                    0 <= k < l < columns.len() implies columns[k] < columns[l] by {
                    assert(columns[k] == before[k]);
                    if l < before.len() {
                        assert(columns[l] == before[l]);
                    }
                }
                assert forall|j: int, x: DiagnosticView|
                    j < n && #[trigger] on_header(rules, stem, doc, j, x) implies columns.contains(
                    j,
                ) by {
                    lemma_push_has(before, n - 1, j);
                }
                columns
            },
            None => {
                assert forall|j: int, x: DiagnosticView|
                    j < n && #[trigger] on_header(rules, stem, doc, j, x) implies before.contains(
                    j,
                ) by {
                    assert(j != n - 1);
                }
                before
            },
        }
    }
}

/// True when the list is one diagnostic for each of the places, in their order, and then
/// one for each of the header columns, in theirs.
pub open spec fn lists(
    list: Seq<DiagnosticView>,
    rules: Rules,
    stem: Seq<char>,
    doc: DocumentView,
    places: Seq<(int, int)>,
    columns: Seq<int>,
) -> bool {
    &&& list.len() == places.len() + columns.len()
    &&& forall|k: int| #![trigger places[k]]
        0 <= k < places.len() ==> on_cell(
            rules,
            stem,
            doc,
            places[k].0,
            places[k].1,
            list[k],
        )
    &&& forall|k: int| #![trigger columns[k]]
        0 <= k < columns.len() ==> on_header(
            rules,
            stem,
            doc,
            columns[k],
            list[places.len() + k],
        )
    &&& forall|i: int, j: int, d: DiagnosticView| #[trigger]
        on_cell(rules, stem, doc, i, j, d) ==> places.contains((i, j))
    &&& forall|j: int, d: DiagnosticView| #[trigger]
        on_header(rules, stem, doc, j, d) ==> columns.contains(j)
}

/// Each cell and each header with a diagnostic is listed once: the cells come first, row
/// by row and from left to right, and then the headers, from left to right.
pub proof fn law_problems_in_order(rules: Rules, stem: Seq<char>, doc: DocumentView)
    ensures
        exists|places: Seq<(int, int)>, columns: Seq<int>|
            {
                &&& #[trigger] lists(
                    problems(rules, stem, doc),
                    rules,
                    stem,
                    doc,
                    places,
                    columns,
                )
                &&& in_reading_order(places)
                &&& forall|k: int, l: int| #![trigger columns[k], columns[l]]
                    0 <= k < l < columns.len() ==> columns[k] < columns[l]
            },
{
    let places = rows_places(rules, stem, doc, doc.rows.len() as int);
    let columns = header_columns(rules, stem, doc, doc.headers.len() as int);
    let list = problems(rules, stem, doc);
    let found = header_problems(rules, stem, doc.headers, doc.headers.len() as int);
    assert forall|k: int| #![trigger columns[k]] 0 <= k < columns.len() implies on_header(
        rules,
        stem,
        doc,
        columns[k],
        list[places.len() + k],
    ) by {
        assert(list[places.len() + k] == found[k]);
    }
    assert(lists(list, rules, stem, doc, places, columns));
}

/// A document is validated against the schema as it is, and against all the symbols of the
/// index.
pub proof fn law_rules(schema: &Schema, symbols: &SymbolIndex)
    ensures
        rules(Some(schema), symbols).files == Some(schema@),
        rules(Some(schema), symbols).symbols == symbols@,
        rules(None, symbols).files is None,
        rules(None, symbols).symbols == symbols@,
{
}

/// What is said of a list of diagnostics is said of each of them, with its range, severity,
/// source and message.
pub proof fn law_views(list: Seq<Diagnostic>, i: int)
    requires
        0 <= i < list.len(),
    ensures
        views(list).len() == list.len(),
        views(list)[i].range == list[i].range,
        views(list)[i].severity == list[i].severity,
        views(list)[i].source == list[i].source@,
        views(list)[i].message == list[i].message@,
{
}

} // verus!
