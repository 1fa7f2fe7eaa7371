//! Hover and go-to-definition: what is answered at a position of a document.

use vstd::prelude::*;
use vstd::string::*;

use crate::description::{format_description, formatted};
use crate::diagnostics::{cell_problem, column_field, column_type, is_reference, type_resolves};
use crate::document::{law_header_at_a_column, lemma_cell_under, lemma_header_under, row_on, start_of, CellView,
    DocumentView, RowView};
use crate::paths::{file_stem, file_uri, uri_stem};
use crate::schema::{declares, law_only_declaration_is_found, law_reference_column_has_a_target,
    one_file_per_name, reaches, search, FieldType, FieldTypeName, SchemaField, SchemaFile};
use crate::symbols::{cell_range, defines, law_indexing, place_of, stretch, symbol_at, without_file, Location,
    LocationView, Position, Range, SymbolKey};
use crate::text::lowercase_of;
use crate::workspace::{opt_text, Workspace, WorkspaceView};

verus! {

/// What a plugin is asked about: a cell, with its column and file.
#[derive(Debug)]
pub struct PluginQuery {
    pub file_stem: String,
    pub col_name: String,
    pub cell_value: String,
    pub line: u32,
}

/// What a query holds.
pub struct QueryView {
    pub file_stem: Seq<char>,
    pub col_name: Seq<char>,
    pub cell_value: Seq<char>,
    pub line: u32,
}

impl View for PluginQuery {
    type V = QueryView;

    open spec fn view(&self) -> QueryView {
        QueryView {
            file_stem: self.file_stem@,
            col_name: self.col_name@,
            cell_value: self.cell_value@,
            line: self.line,
        }
    }
}

// ---------------------------------------------------------------------------
// Go to definition
// ---------------------------------------------------------------------------

/// How a request for a definition goes on.
#[derive(Debug)]
pub enum Definition {
    /// There is no answer.
    Nothing,
    /// The definition is here.
    At(Location),
    /// The schema has no answer; the plugins are asked.
    Ask(PluginQuery),
}

/// What a definition holds.
pub enum DefinitionView {
    Nothing,
    At(LocationView),
    Ask(QueryView),
}

impl View for Definition {
    type V = DefinitionView;

    open spec fn view(&self) -> DefinitionView {
        match self {
            Definition::Nothing => DefinitionView::Nothing,
            Definition::At(location) => DefinitionView::At(location@),
            Definition::Ask(query) => DefinitionView::Ask(query@),
        }
    }
}

/// Where the value of a reference column is defined.
pub open spec fn reference_location(
    ws: WorkspaceView,
    stem: Seq<char>,
    col_name: Seq<char>,
    value: Seq<char>,
) -> Option<LocationView> {
    match column_type(ws.files, stem, col_name) {
        Some(ft) => if is_reference(ft) {
            symbol_at(ws.symbols, ft.file->0@, ft.field->0@, value)
        } else {
            None
        },
        None => None,
    }
}

/// The answer for the cell at a position of a document.
pub open spec fn definition_of(
    ws: WorkspaceView,
    doc: Option<DocumentView>,
    stem: Seq<char>,
    line: u32,
    character: u32,
    has_plugins: bool,
) -> DefinitionView {
    match doc {
        Some(d) => match d.cell_at(line, character) {
            Some((i, cell)) => if i < d.headers.len() {
                match reference_location(ws, stem, d.headers[i], cell.value) {
                    Some(location) => DefinitionView::At(location),
                    None => if has_plugins {
                        DefinitionView::Ask(
                            QueryView {
                                file_stem: stem,
                                col_name: d.headers[i],
                                cell_value: cell.value,
                                line,
                            },
                        )
                    } else {
                        DefinitionView::Nothing
                    },
                }
            } else {
                DefinitionView::Nothing
            },
            None => DefinitionView::Nothing,
        },
        None => DefinitionView::Nothing,
    }
}

// ---------------------------------------------------------------------------
// Hover
// ---------------------------------------------------------------------------

/// A text shown for a stretch of a document.
#[derive(Debug)]
pub struct Hover {
    pub text: String,
    pub range: Range,
}

/// What a hover holds.
pub struct HoverView {
    pub text: Seq<char>,
    pub range: Range,
}

impl View for Hover {
    type V = HoverView;

    open spec fn view(&self) -> HoverView {
        HoverView { text: self.text@, range: self.range }
    }
}

/// How a request for a hover goes on.
#[derive(Debug)]
pub enum HoverStep {
    /// There is no answer.
    Nothing,
    /// This is shown.
    Show(Hover),
    /// The plugins are asked about the cell that covers the range.
    Ask(PluginQuery, Range),
}

/// What a step holds.
pub enum HoverStepView {
    Nothing,
    Show(HoverView),
    Ask(QueryView, Range),
}

impl View for HoverStep {
    type V = HoverStepView;

    open spec fn view(&self) -> HoverStepView {
        match self {
            HoverStep::Nothing => HoverStepView::Nothing,
            HoverStep::Show(hover) => HoverStepView::Show(hover@),
            HoverStep::Ask(query, range) => HoverStepView::Ask(query@, *range),
        }
    }
}

/// The hover on the header row: the description of the column.
pub open spec fn header_hover(
    ws: WorkspaceView,
    doc: DocumentView,
    stem: Seq<char>,
    character: u32,
) -> HoverStepView {
    match doc.header_at(character) {
        Some(i) => match column_field(ws.files, stem, doc.headers[i]) {
            Some(field) => match field.description {
                Some(text) => HoverStepView::Show(
                    HoverView {
                        text: "**"@ + doc.headers[i] + "**\n\n"@ + formatted(text@),
                        range: stretch(0, start_of(doc.headers, i) as u32, doc.headers[i].len()),
                    },
                ),
                None => HoverStepView::Nothing,
            },
            None => HoverStepView::Nothing,
        },
        None => HoverStepView::Nothing,
    }
}

/// What is shown for a cell, given what the plugins had to say: that, if it is not empty,
/// and otherwise the value of the cell, if that is not.
pub open spec fn cell_hover(
    value: Seq<char>,
    range: Range,
    plugin: Option<Seq<char>>,
) -> Option<HoverView> {
    if plugin is Some && plugin->0.len() > 0 {
        Some(HoverView { text: plugin->0, range })
    } else if value.len() > 0 {
        Some(HoverView { text: value, range })
    } else {
        None
    }
}

/// The hover at a position of a document. Plugins, if there are any, are asked about the
/// cells of data rows.
pub open spec fn hover_of(
    ws: WorkspaceView,
    uri: Seq<char>,
    stem: Seq<char>,
    line: u32,
    character: u32,
    has_plugins: bool,
) -> HoverStepView {
    if !ws.open.contains_key(uri) {
        HoverStepView::Nothing
    } else if line == 0 {
        header_hover(ws, ws.open[uri], stem, character)
    } else {
        let doc = ws.open[uri];
        match doc.cell_at(line, character) {
            Some((i, cell)) => {
                let range = stretch(line, cell.col_start, cell.value.len());
                let col_name = if i < doc.headers.len() {
                    doc.headers[i]
                } else {
                    "unknown"@
                };
                if has_plugins {
                    HoverStepView::Ask(
                        QueryView { file_stem: stem, col_name, cell_value: cell.value, line },
                        range,
                    )
                } else {
                    match cell_hover(cell.value, range, None) {
                        Some(hover) => HoverStepView::Show(hover),
                        None => HoverStepView::Nothing,
                    }
                }
            },
            None => HoverStepView::Nothing,
        }
    }
}

/// What is shown for a cell once the plugins have answered.
pub fn finish_hover(value: String, range: Range, plugin: Option<String>) -> (result: Option<Hover>)
    ensures
        ({
            let expected = cell_hover(
                value@,
                range,
                match plugin {
                    Some(text) => Some(text@),
                    None => None,
                },
            );
            match result {
                Some(hover) => expected == Some(hover@),
                None => expected is None,
            }
        }),
{
    if let Some(text) = plugin {
        if !text.as_str().is_empty() {
            return Some(Hover { text, range });
        }
    }
    if value.as_str().is_empty() {
        None
    } else {
        Some(Hover { text: value, range })
    }
}

/// A cell found at a position is a cell of a row, whose positions fit.
proof fn lemma_cell_at(doc: DocumentView, line: u32, character: u32)
    requires
        doc.fits(),
    ensures
        match doc.cell_at(line, character) {
            Some((i, cell)) => 0 <= i && cell.col_start + cell.value.len() <= u32::MAX,
            None => true,
        },
{
    lemma_row_on(doc.rows, line, 0);
    match row_on(doc.rows, line, 0) {
        Some(row) => {
            lemma_cell_under(row.cells, character, 0);
            let r = choose|r: int| 0 <= r < doc.rows.len() && doc.rows[r] == row;
            match doc.cell_at(line, character) {
                Some((i, cell)) => {
                    assert(doc.rows[r].cells[i] == cell);
                },
                None => {},
            }
        },
        None => {},
    }
}

proof fn lemma_row_on(rows: Seq<RowView>, line: u32, from: int)
    requires
        0 <= from,
    ensures
        match row_on(rows, line, from) {
            Some(row) => row.line == line && exists|r: int| 0 <= r < rows.len() && rows[r] == row,
            None => true,
        },
    decreases rows.len() - from,
{
    if from < rows.len() {
        lemma_row_on(rows, line, from + 1);
    }
}

impl Workspace {
    /// Where the value of a reference column is defined.
    fn find_reference(&self, stem: &str, col_name: &str, value: &str) -> (result: Option<Location>)
        ensures
            match result {
                Some(location) => reference_location(self@, stem@, col_name@, value@) == Some(
                    location@,
                ),
                None => reference_location(self@, stem@, col_name@, value@) is None,
            },
    {
        let ft = match self.schema() {
            Some(schema) => match schema.find_field(stem, col_name) {
                Some(field) => match &field.field_type {
                    Some(ft) => ft,
                    None => {
                        return None;
                    },
                },
                None => {
                    return None;
                },
            },
            None => {
                return None;
            },
        };
        if ft.kind != FieldTypeName::Reference {
            return None;
        }
        match (&ft.file, &ft.field) {
            (Some(file), Some(column)) => {
                match self.symbols().lookup(file.as_str(), column.as_str(), value) {
                    Some(location) => Some(location.clone()),
                    None => None,
                }
            },
            _ => None,
        }
    }

    /// The answer to a request for the definition at a position of the document that is
    /// open under `uri`, or else is cached for the file `key`.
    pub fn definition_in(
        &self,
        uri: &str,
        key: Option<&str>,
        stem: &str,
        line: u32,
        character: u32,
        has_plugins: bool,
    ) -> (result: Definition)
        requires
            self@.fits(),
        ensures
            result@ == definition_of(
                self@,
                self@.document(uri@, opt_text(key)),
                stem@,
                line,
                character,
                has_plugins,
            ),
    {
        let doc = match self.document(uri, key) {
            Some(doc) => doc,
            None => {
                return Definition::Nothing;
            },
        };
        let (i, cell) = match doc.cell_at(line, character) {
            Some(found) => found,
            None => {
                return Definition::Nothing;
            },
        };
        if i >= doc.headers.len() {
            return Definition::Nothing;
        }
        assert(doc@.headers[i as int] == doc.headers@[i as int]@);
        match self.find_reference(stem, doc.headers[i].as_str(), cell.value.as_str()) {
            Some(location) => Definition::At(location),
            None => if has_plugins {
                Definition::Ask(
                    PluginQuery {
                        file_stem: stem.to_owned(),
                        col_name: doc.headers[i].clone(),
                        cell_value: cell.value.clone(),
                        line,
                    },
                )
            } else {
                Definition::Nothing
            },
        }
    }

    /// The answer to a request for the definition at a position of a document. A document
    /// that is not open is looked up among the cached files; which file the URI names
    /// depends on the platform.
    pub fn goto_definition(&self, uri: &str, line: u32, character: u32, has_plugins: bool) -> (result:
        Definition)
        requires
            self@.fits(),
        ensures
            self@.open.contains_key(uri@) ==> result@ == definition_of(
                self@,
                Some(self@.open[uri@]),
                uri_stem(uri@),
                line,
                character,
                has_plugins,
            ),
            exists|key: Option<Seq<char>>|
                result@ == definition_of(
                    self@,
                    #[trigger] self@.document(uri@, key),
                    uri_stem(uri@),
                    line,
                    character,
                    has_plugins,
                ),
    {
        let stem = file_stem(uri);
        match file_uri(uri) {
            Some(key) => self.definition_in(
                uri,
                Some(key.as_str()),
                stem.as_str(),
                line,
                character,
                has_plugins,
            ),
            None => self.definition_in(uri, None, stem.as_str(), line, character, has_plugins),
        }
    }

    /// Resolves the target that a plugin names: file, column and value.
    pub fn plugin_definition(&self, target: Option<(String, String, String)>) -> (result: Option<
        Location,
    >)
        ensures
            ({
                let expected = match target {
                    Some((file, column, value)) => symbol_at(
                        self@.symbols,
                        file@,
                        column@,
                        value@,
                    ),
                    None => None,
                };
                match result {
                    Some(location) => expected == Some(location@),
                    None => expected is None,
                }
            }),
    {
        match target {
            Some((file, column, value)) => {
                match self.symbols().lookup(file.as_str(), column.as_str(), value.as_str()) {
                    Some(location) => Some(location.clone()),
                    None => None,
                }
            },
            None => None,
        }
    }

    /// The hover on the header row of an open document.
    fn hover_header(&self, uri: &str, stem: &str, character: u32) -> (result: HoverStep)
        requires
            self@.fits(),
        ensures
            self@.open.contains_key(uri@) ==> result@ == header_hover(
                self@,
                self@.open[uri@],
                stem@,
                character,
            ),
            !self@.open.contains_key(uri@) ==> result@ == HoverStepView::Nothing,
    {
        let doc = match self.document(uri, None) {
            Some(doc) => doc,
            None => {
                return HoverStep::Nothing;
            },
        };
        proof {
            lemma_header_under(doc@.headers, character, 0);
        }
        let i = match doc.header_at(character) {
            Some(i) => i,
            None => {
                return HoverStep::Nothing;
            },
        };
        assert(doc@.headers[i as int] == doc.headers@[i as int]@);
        let col_name = doc.headers[i].as_str();
        let start = doc.header_start(i);
        let end = start + col_name.unicode_len() as u32;
        let schema = match self.schema() {
            Some(schema) => schema,
            None => {
                return HoverStep::Nothing;
            },
        };
        match schema.find_field(stem, col_name) {
            Some(field) => match &field.description {
                Some(description) => {
                    let mut text = String::new();
                    text.append("**");
                    text.append(col_name);
                    text.append("**\n\n");
                    text.append(format_description(description.as_str()).as_str());
                    assert(Seq::<char>::empty() + "**"@ =~= "**"@);
                    HoverStep::Show(
                        Hover {
                            text,
                            range: Range {
                                start: Position { line: 0, character: start },
                                end: Position { line: 0, character: end },
                            },
                        },
                    )
                },
                None => HoverStep::Nothing,
            },
            None => HoverStep::Nothing,
        }
    }

    /// The answer to a request for a hover at a position of a document with the given
    /// stem.
    pub fn hover_in(
        &self,
        uri: &str,
        stem: &str,
        line: u32,
        character: u32,
        has_plugins: bool,
    ) -> (result: HoverStep)
        requires
            self@.fits(),
        ensures
            result@ == hover_of(self@, uri@, stem@, line, character, has_plugins),
    {
        if line == 0 {
            return self.hover_header(uri, stem, character);
        }
        let doc = match self.document(uri, None) {
            Some(doc) => doc,
            None => {
                return HoverStep::Nothing;
            },
        };
        proof {
            lemma_cell_at(doc@, line, character);
        }
        let (i, cell) = match doc.cell_at(line, character) {
            Some(found) => found,
            None => {
                return HoverStep::Nothing;
            },
        };
        let range = cell_range(line, cell);
        if !has_plugins {
            return match finish_hover(cell.value.clone(), range, None) {
                Some(hover) => HoverStep::Show(hover),
                None => HoverStep::Nothing,
            };
        }
        let col_name = if i < doc.headers.len() {
            assert(doc@.headers[i as int] == doc.headers@[i as int]@);
            doc.headers[i].clone()
        } else {
            "unknown".to_owned()
        };
        HoverStep::Ask(
            PluginQuery {
                file_stem: stem.to_owned(),
                col_name,
                cell_value: cell.value.clone(),
                line,
            },
            range,
        )
    }

    /// The answer to a request for a hover at a position of a document: the description of
    /// the column on the header row, and the value of the cell on a data row.
    pub fn hover(&self, uri: &str, line: u32, character: u32, has_plugins: bool) -> (result:
        HoverStep)
        requires
            self@.fits(),
        ensures
            result@ == hover_of(self@, uri@, uri_stem(uri@), line, character, has_plugins),
    {
        let stem = file_stem(uri);
        self.hover_in(uri, stem.as_str(), line, character, has_plugins)
    }
}

// ---------------------------------------------------------------------------
// Laws
// ---------------------------------------------------------------------------

/// Validation and navigation agree: a cell of a reference column whose value has a
/// definition to go to has no diagnostic.
pub proof fn law_a_definition_means_no_problem(
    ws: WorkspaceView,
    stem: Seq<char>,
    col_name: Seq<char>,
    line: u32,
    cell: CellView,
)
    requires
        reference_location(ws, stem, col_name, cell.value) is Some,
    ensures
        ({
            let declared = column_type(ws.files, stem, col_name);
            &&& declared is Some
            &&& cell_problem(
                line,
                cell,
                col_name,
                declared->0,
                type_resolves(ws.rules(), declared->0, cell.value),
            ) is None
        }),
{
}

/// The value of a reference column leads to a cell that holds it: once the editor has
/// opened the file that the reference names, every value of the target column has a
/// definition, and that is a cell of the target column with the value.
pub proof fn law_definition_leads_to_the_value(
    ws: WorkspaceView,
    stem: Seq<char>,
    col_name: Seq<char>,
    field_type: FieldType,
    uri: Seq<char>,
    doc: DocumentView,
    i: int,
    j: int,
)
    requires
        ws.targets_match(),
        ws.files is Some,
        ws.files->0.dom().finite(),
        column_type(ws.files, stem, col_name) == Some(field_type),
        is_reference(field_type),
        0 <= i < doc.rows.len(),
        0 <= j < doc.rows[i].cells.len(),
        j < doc.headers.len(),
        doc.headers[j] == field_type.field->0@,
        doc.headers[j].len() > 0,
        doc.rows[i].cells[j].value.len() > 0,
    ensures
        ({
            let target = lowercase_of(field_type.file->0@);
            let value = doc.rows[i].cells[j].value;
            let key = SymbolKey { file: target, column: doc.headers[j], value };
            let found = reference_location(
                ws.with_open(uri, target, doc),
                stem,
                col_name,
                value,
            );
            &&& found is Some
            &&& exists|r: int, c: int| #[trigger]
                defines(doc, target, ws.targets, r, c, key) && found->0 == place_of(uri, doc, r, c)
        }),
{
    let target = lowercase_of(field_type.file->0@);
    let key = SymbolKey {
        file: target,
        column: doc.headers[j],
        value: doc.rows[i].cells[j].value,
    };
    law_reference_column_has_a_target(ws.files->0, stem, col_name);
    law_indexing(without_file(ws.symbols, target), uri, target, doc, ws.targets);
    assert(defines(doc, target, ws.targets, i, j, key));
    assert(!without_file(ws.symbols, target).contains_key(key));
    assert(ws.with_open(uri, target, doc).symbols.contains_key(key));
}

/// On the header row of an open document the hover shows the header in bold and the
/// formatted description of the field that the search through the schema gives for it, over
/// the header; where the search gives no field, or one without a description, it shows
/// nothing.
pub proof fn law_header_hover_is_the_description(
    ws: WorkspaceView,
    files: Map<Seq<char>, SchemaFile>,
    uri: Seq<char>,
    stem: Seq<char>,
    i: int,
    character: u32,
    has_plugins: bool,
)
    requires
        ws.files == Some(files),
        ws.open.contains_key(uri),
        0 <= i < ws.open[uri].headers.len(),
        0 <= start_of(ws.open[uri].headers, i) <= character,
        character <= start_of(ws.open[uri].headers, i) + ws.open[uri].headers[i].len(),
        start_of(ws.open[uri].headers, i) + ws.open[uri].headers[i].len() <= u32::MAX,
    ensures
        ({
            let headers = ws.open[uri].headers;
            let shown = hover_of(ws, uri, stem, 0, character, has_plugins);
            match search(files, seq![stem], headers[i], Set::empty()) {
                Some(field) => match field.description {
                    Some(text) => match shown {
                        HoverStepView::Show(hover) => {
                            &&& hover.text == "**"@ + headers[i] + "**\n\n"@ + formatted(text@)
                            &&& hover.range.start.line == 0
                            &&& hover.range.start.character == start_of(headers, i)
                            &&& hover.range.end.line == 0
                            &&& hover.range.end.character == start_of(headers, i)
                                + headers[i].len()
                        },
                        _ => false,
                    },
                    None => shown == HoverStepView::Nothing,
                },
                None => shown == HoverStepView::Nothing,
            }
        }),
{
    law_header_at_a_column(ws.open[uri], character, i);
}

/// The description of a column is shown on its header however far along the chain of
/// appended files the one field for it is declared.
pub proof fn law_header_hover_follows_the_chain(
    ws: WorkspaceView,
    files: Map<Seq<char>, SchemaFile>,
    uri: Seq<char>,
    stem: Seq<char>,
    i: int,
    character: u32,
    has_plugins: bool,
    declaring: Seq<char>,
    field: SchemaField,
)
    requires
        ws.files == Some(files),
        files.dom().finite(),
        ws.open.contains_key(uri),
        0 <= i < ws.open[uri].headers.len(),
        0 <= start_of(ws.open[uri].headers, i) <= character,
        character <= start_of(ws.open[uri].headers, i) + ws.open[uri].headers[i].len(),
        start_of(ws.open[uri].headers, i) + ws.open[uri].headers[i].len() <= u32::MAX,
        one_file_per_name(files, stem),
        reaches(files, stem, declaring),
        declares(files, declaring, ws.open[uri].headers[i], field),
        forall|other: Seq<char>, f: SchemaField| #[trigger]
            reaches(files, stem, other) && #[trigger] declares(
                files,
                other,
                ws.open[uri].headers[i],
                f,
            ) ==> f == field,
        field.description is Some,
    ensures
        match hover_of(ws, uri, stem, 0, character, has_plugins) {
            HoverStepView::Show(hover) => hover.text == "**"@ + ws.open[uri].headers[i]
                + "**\n\n"@ + formatted(field.description->0@),
            _ => false,
        },
{
    law_only_declaration_is_found(files, stem, ws.open[uri].headers[i], declaring, field);
    law_header_hover_is_the_description(ws, files, uri, stem, i, character, has_plugins);
}

/// On a data row of an open document the hover is on the cell under the cursor: without
/// plugins its value, if it has one, and with plugins the question about it, which gives
/// the column by its header. Where there is no cell, there is no hover.
pub proof fn law_cell_hover(
    ws: WorkspaceView,
    uri: Seq<char>,
    stem: Seq<char>,
    line: u32,
    character: u32,
)
    requires
        line > 0,
        ws.open.contains_key(uri),
    ensures
        ({
            let doc = ws.open[uri];
            let alone = hover_of(ws, uri, stem, line, character, false);
            let asked = hover_of(ws, uri, stem, line, character, true);
            match doc.cell_at(line, character) {
                Some((i, cell)) => {
                    let fits = cell.col_start + cell.value.len() <= u32::MAX;
                    &&& cell.value.len() == 0 ==> alone == HoverStepView::Nothing
                    &&& cell.value.len() > 0 && fits ==> match alone {
                        HoverStepView::Show(hover) => {
                            &&& hover.text == cell.value
                            &&& hover.range.start == (Position { line, character: cell.col_start })
                            &&& hover.range.end.line == line
                            &&& hover.range.end.character == cell.col_start + cell.value.len()
                        },
                        _ => false,
                    }
                    &&& fits ==> match asked {
                        HoverStepView::Ask(query, range) => {
                            &&& query.file_stem == stem
                            &&& query.cell_value == cell.value
                            &&& query.line == line
                            &&& 0 <= i < doc.headers.len() ==> query.col_name == doc.headers[i]
                            &&& i >= doc.headers.len() ==> query.col_name == "unknown"@
                            &&& range.start == (Position { line, character: cell.col_start })
                            &&& range.end.line == line
                            &&& range.end.character == cell.col_start + cell.value.len()
                        },
                        _ => false,
                    }
                },
                None => alone == HoverStepView::Nothing && asked == HoverStepView::Nothing,
            }
        }),
{
}

/// A document that is not open has no hover.
pub proof fn law_no_hover_unless_open(
    ws: WorkspaceView,
    uri: Seq<char>,
    stem: Seq<char>,
    line: u32,
    character: u32,
    has_plugins: bool,
)
    requires
        !ws.open.contains_key(uri),
    ensures
        hover_of(ws, uri, stem, line, character, has_plugins) == HoverStepView::Nothing,
{
}

/// What a plugin has to say of a cell comes before the cell's value, unless it is empty.
pub proof fn law_plugin_text_comes_first(value: Seq<char>, range: Range, text: Seq<char>)
    ensures
        text.len() > 0 ==> cell_hover(value, range, Some(text)) == Some(HoverView { text, range }),
        text.len() == 0 ==> cell_hover(value, range, Some(text)) == cell_hover(value, range, None),
        value.len() > 0 ==> cell_hover(value, range, None) == Some(
            HoverView { text: value, range },
        ),
        value.len() == 0 ==> cell_hover(value, range, None) is None,
{
}

/// The definition asked for at a cell is the place of the symbol that the cell's column, if
/// the search through the schema gives a complete reference for it, and its value name.
/// Where there is no such symbol, the plugins are asked about the cell, if there are any;
/// without a cell, or without a header for it, there is no answer.
pub proof fn law_definition_at_a_cell(
    ws: WorkspaceView,
    doc: DocumentView,
    stem: Seq<char>,
    line: u32,
    character: u32,
    has_plugins: bool,
)
    ensures
        ({
            let answer = definition_of(ws, Some(doc), stem, line, character, has_plugins);
            match doc.cell_at(line, character) {
                Some((i, cell)) => {
                    let named = if i < doc.headers.len() && ws.files is Some {
                        match search(ws.files->0, seq![stem], doc.headers[i], Set::empty()) {
                            Some(field) => match field.field_type {
                                Some(ft) => if ft.kind == FieldTypeName::Reference && ft.file
                                    is Some && ft.field is Some {
                                    Some(
                                        SymbolKey {
                                            file: lowercase_of(ft.file->0@),
                                            column: ft.field->0@,
                                            value: cell.value,
                                        },
                                    )
                                } else {
                                    None
                                },
                                None => None,
                            },
                            None => None,
                        }
                    } else {
                        None
                    };
                    if i >= doc.headers.len() {
                        answer == DefinitionView::Nothing
                    } else if named is Some && ws.symbols.contains_key(named->0) {
                        answer == DefinitionView::At(ws.symbols[named->0])
                    } else if has_plugins {
                        answer == DefinitionView::Ask(
                            QueryView {
                                file_stem: stem,
                                col_name: doc.headers[i],
                                cell_value: cell.value,
                                line,
                            },
                        )
                    } else {
                        answer == DefinitionView::Nothing
                    }
                },
                None => answer == DefinitionView::Nothing,
            }
        }),
        definition_of(ws, None, stem, line, character, has_plugins) == DefinitionView::Nothing,
{
}

/// What is said of an answer is said of the place, the text or the question that it holds.
pub proof fn law_answer_views(location: Location, query: PluginQuery, hover: Hover, range: Range)
    ensures
        Definition::Nothing@ == DefinitionView::Nothing,
        Definition::At(location)@ == DefinitionView::At(
            LocationView { uri: location.uri@, range: location.range },
        ),
        Definition::Ask(query)@ == DefinitionView::Ask(
            QueryView {
                file_stem: query.file_stem@,
                col_name: query.col_name@,
                cell_value: query.cell_value@,
                line: query.line,
            },
        ),
        HoverStep::Nothing@ == HoverStepView::Nothing,
        HoverStep::Show(hover)@ == HoverStepView::Show(
            HoverView { text: hover.text@, range: hover.range },
        ),
        HoverStep::Ask(query, range)@ == HoverStepView::Ask(
            QueryView {
                file_stem: query.file_stem@,
                col_name: query.col_name@,
                cell_value: query.cell_value@,
                line: query.line,
            },
            range,
        ),
{
}

} // verus!
