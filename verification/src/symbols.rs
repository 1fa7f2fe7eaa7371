//! Where the values that references may name are defined.

use vstd::hash_map::StringHashMap;
use vstd::prelude::*;
use vstd::string::*;

use crate::document::{Cell, DocumentData, DocumentView, RowView};
use crate::schema::RefTargets;
use crate::text::{lowercase, lowercase_of, same_text};

verus! {

/// A place in a document: line and character, both counted from 0.
#[derive(Debug, Clone, Copy, PartialEq, Eq, Structural)]
pub struct Position {
    pub line: u32,
    pub character: u32,
}

/// A stretch of a document; the end is not part of it.
#[derive(Debug, Clone, Copy, PartialEq, Eq, Structural)]
pub struct Range {
    pub start: Position,
    pub end: Position,
}

/// A stretch of a certain document.
#[derive(Debug)]
pub struct Location {
    pub uri: String,
    pub range: Range,
}

/// What a location holds.
pub struct LocationView {
    pub uri: Seq<char>,
    pub range: Range,
}

impl View for Location {
    type V = LocationView;

    open spec fn view(&self) -> LocationView {
        LocationView { uri: self.uri@, range: self.range }
    }
}

impl Clone for Location {
    fn clone(&self) -> (result: Location)
        ensures
            result@ == self@,
    {
        Location { uri: self.uri.clone(), range: self.range }
    }
}

/// The stretch from column `start` on of `length` characters on a line.
pub open spec fn stretch(line: u32, start: u32, length: nat) -> Range {
    Range {
        start: Position { line, character: start },
        end: Position { line, character: (start + length) as u32 },
    }
}

/// The stretch of a cell's value.
pub fn cell_range(line: u32, cell: &Cell) -> (result: Range)
    requires
        cell@.col_start + cell@.value.len() <= u32::MAX,
    ensures
        result == stretch(line, cell@.col_start, cell@.value.len()),
{
    let end = cell.col_start + cell.value.as_str().unicode_len() as u32;
    Range {
        start: Position { line, character: cell.col_start },
        end: Position { line, character: end },
    }
}

// ---------------------------------------------------------------------------
// Model
// ---------------------------------------------------------------------------

/// A value of a column of a file.
pub struct SymbolKey {
    pub file: Seq<char>,
    pub column: Seq<char>,
    pub value: Seq<char>,
}

/// The symbols with one more, unless its key is already there.
pub open spec fn with_symbol(
    symbols: Map<SymbolKey, LocationView>,
    key: SymbolKey,
    location: LocationView,
) -> Map<SymbolKey, LocationView> {
    if symbols.contains_key(key) {
        symbols
    } else {
        symbols.insert(key, location)
    }
}

/// True when the values of column `j` of the document are symbols: the column has a name,
/// and some reference points at it.
pub open spec fn is_target_column(
    doc: DocumentView,
    stem: Seq<char>,
    targets: Set<(Seq<char>, Seq<char>)>,
    j: int,
) -> bool {
    &&& 0 <= j < doc.headers.len()
    &&& doc.headers[j].len() > 0
    &&& targets.contains((stem, doc.headers[j]))
}

/// The symbols once the first `n` cells of a row are indexed.
pub open spec fn with_cells(
    symbols: Map<SymbolKey, LocationView>,
    uri: Seq<char>,
    stem: Seq<char>,
    doc: DocumentView,
    targets: Set<(Seq<char>, Seq<char>)>,
    row: RowView,
    n: int,
) -> Map<SymbolKey, LocationView>
    decreases n,
{
    if n <= 0 {
        symbols
    } else {
        let before = with_cells(symbols, uri, stem, doc, targets, row, n - 1);
        let cell = row.cells[n - 1];
        if is_target_column(doc, stem, targets, n - 1) && cell.value.len() > 0 {
            with_symbol(
                before,
                SymbolKey { file: stem, column: doc.headers[n - 1], value: cell.value },
                LocationView { uri, range: stretch(row.line, cell.col_start, cell.value.len()) },
            )
        } else {
            before
        }
    }
}

/// The symbols once the first `n` rows of a document are indexed.
pub open spec fn with_rows(
    symbols: Map<SymbolKey, LocationView>,
    uri: Seq<char>,
    stem: Seq<char>,
    doc: DocumentView,
    targets: Set<(Seq<char>, Seq<char>)>,
    n: int,
) -> Map<SymbolKey, LocationView>
    decreases n,
{
    if n <= 0 {
        symbols
    } else {
        with_cells(
            with_rows(symbols, uri, stem, doc, targets, n - 1),
            uri,
            stem,
            doc,
            targets,
            doc.rows[n - 1],
            doc.rows[n - 1].cells.len() as int,
        )
    }
}

/// The symbols once a document is indexed: each value of a target column is added, at the
/// first place where it occurs.
pub open spec fn with_document(
    symbols: Map<SymbolKey, LocationView>,
    uri: Seq<char>,
    stem: Seq<char>,
    doc: DocumentView,
    targets: Set<(Seq<char>, Seq<char>)>,
) -> Map<SymbolKey, LocationView> {
    with_rows(symbols, uri, stem, doc, targets, doc.rows.len() as int)
}

/// The symbols without those of a file.
pub open spec fn without_file(symbols: Map<SymbolKey, LocationView>, stem: Seq<char>) -> Map<
    SymbolKey,
    LocationView,
> {
    Map::new(
        |k: SymbolKey| symbols.contains_key(k) && k.file != stem,
        |k: SymbolKey| symbols[k],
    )
}

/// Where a value is defined. The name of the file is taken in lowercase.
pub open spec fn symbol_at(
    symbols: Map<SymbolKey, LocationView>,
    file: Seq<char>,
    column: Seq<char>,
    value: Seq<char>,
) -> Option<LocationView> {
    let key = SymbolKey { file: lowercase_of(file), column, value };
    if symbols.contains_key(key) {
        Some(symbols[key])
    } else {
        None
    }
}

// ---------------------------------------------------------------------------
// The index
// ---------------------------------------------------------------------------

/// The defined values of one column.
struct SymbolTable {
    file: String,
    column: String,
    values: StringHashMap<Location>,
}

/// Where values are defined, by file, column and value.
pub struct SymbolIndex {
    tables: Vec<SymbolTable>,
}

/// The columns that the tables are for.
spec fn columns_of(tables: Seq<SymbolTable>) -> Seq<(Seq<char>, Seq<char>)> {
    tables.map_values(|t: SymbolTable| (t.file@, t.column@))
}

/// The first position, from `from` on, of a column.
spec fn first_column(
    columns: Seq<(Seq<char>, Seq<char>)>,
    column: (Seq<char>, Seq<char>),
    from: int,
) -> Option<int>
    decreases columns.len() - from,
{
    if from < 0 || from >= columns.len() {
        None
    } else if columns[from] == column {
        Some(from)
    } else {
        first_column(columns, column, from + 1)
    }
}

/// The location that the tables hold for a key.
spec fn found(tables: Seq<SymbolTable>, key: SymbolKey) -> Option<LocationView> {
    match first_column(columns_of(tables), (key.file, key.column), 0) {
        Some(i) => if tables[i].values@.contains_key(key.value) {
            Some(tables[i].values@[key.value]@)
        } else {
            None
        },
        None => None,
    }
}

impl View for SymbolIndex {
    type V = Map<SymbolKey, LocationView>;

    closed spec fn view(&self) -> Map<SymbolKey, LocationView> {
        Map::new(
            |k: SymbolKey| found(self.tables@, k) is Some,
            |k: SymbolKey| found(self.tables@, k)->0,
        )
    }
}

proof fn lemma_first_column(
    columns: Seq<(Seq<char>, Seq<char>)>,
    column: (Seq<char>, Seq<char>),
    from: int,
)
    requires
        0 <= from,
    ensures
        match first_column(columns, column, from) {
            Some(i) => from <= i < columns.len() && columns[i] == column && forall|j: int|
                from <= j < i ==> columns[j] != column,
            None => forall|j: int| from <= j < columns.len() ==> columns[j] != column,
        },
    decreases columns.len() - from,
{
    if from < columns.len() && columns[from] != column {
        lemma_first_column(columns, column, from + 1);
    }
}

/// A column added at the end is found there, unless it is found before.
proof fn lemma_first_column_push(
    columns: Seq<(Seq<char>, Seq<char>)>,
    added: (Seq<char>, Seq<char>),
    column: (Seq<char>, Seq<char>),
    from: int,
)
    requires
        0 <= from <= columns.len(),
    ensures
        first_column(columns.push(added), column, from) == (match first_column(
            columns,
            column,
            from,
        ) {
            Some(i) => Some(i),
            None => if added == column {
                Some(columns.len() as int)
            } else {
                None
            },
        }),
    decreases columns.len() - from,
{
    reveal_with_fuel(first_column, 2);
    if from < columns.len() && columns[from] != column {
        lemma_first_column_push(columns, added, column, from + 1);
    }
}

impl SymbolIndex {
    /// An index without symbols.
    pub fn new() -> (result: SymbolIndex)
        ensures
            result@ == Map::<SymbolKey, LocationView>::empty(),
    {
        let result = SymbolIndex { tables: Vec::new() };
        assert(result@ =~= Map::empty());
        result
    }

    /// The position of the table for a column.
    fn table_for(&self, file: &str, column: &str) -> (result: Option<usize>)
        ensures
            match result {
                Some(i) => i < self.tables@.len() && first_column(
                    columns_of(self.tables@),
                    (file@, column@),
                    0,
                ) == Some(i as int),
                None => first_column(columns_of(self.tables@), (file@, column@), 0) is None,
            },
    {
        let mut i: usize = 0;
        while i < self.tables.len()
            invariant
                i <= self.tables@.len(),
                first_column(columns_of(self.tables@), (file@, column@), 0) == first_column(
                    columns_of(self.tables@),
                    (file@, column@),
                    i as int,
                ),
            decreases self.tables@.len() - i,
        {
            let table = &self.tables[i];
            if same_text(table.file.as_str(), file) && same_text(table.column.as_str(), column) {
                return Some(i);
            }
            i = i + 1;
        }
        None
    }

    /// Where a value is defined. The file is found whatever the case of its name.
    pub fn lookup(&self, file: &str, column: &str, value: &str) -> (result: Option<&Location>)
        ensures
            match result {
                Some(location) => symbol_at(self@, file@, column@, value@) == Some(location@),
                None => symbol_at(self@, file@, column@, value@) is None,
            },
    {
        let folded = lowercase(file);
        match self.table_for(folded.as_str(), column) {
            Some(i) => self.tables[i].values.get(value),
            None => None,
        }
    }

    /// Adds a symbol, unless its key is already there.
    fn define(&mut self, file: &str, column: &str, value: &str, location: Location)
        ensures
            final(self)@ == with_symbol(
                old(self)@,
                SymbolKey { file: file@, column: column@, value: value@ },
                location@,
            ),
    {
        let ghost key = SymbolKey { file: file@, column: column@, value: value@ };
        let ghost before = self.tables@;
        let i: usize = match self.table_for(file, column) {
            Some(i) => i,
            None => {
                let ghost columns = columns_of(before);
                self.tables.push(
                    SymbolTable {
                        file: file.to_owned(),
                        column: column.to_owned(),
                        values: StringHashMap::new(),
                    },
                );
                let last: usize = self.tables.len() - 1;
                assert(columns_of(self.tables@) =~= columns.push((file@, column@)));
                assert forall|k: SymbolKey| found(self.tables@, k) == found(before, k) by {
                    lemma_first_column(columns, (k.file, k.column), 0);
                    lemma_first_column_push(columns, (file@, column@), (k.file, k.column), 0);
                }
                proof {
                    lemma_first_column_push(columns, (file@, column@), (file@, column@), 0);
                }
                last
            },
        };
        let ghost middle = self.tables@;
        assert(self@ =~= old(self)@);
        proof {
            lemma_first_column(columns_of(middle), (file@, column@), 0);
        }
        if self.tables[i].values.contains_key(value) {
            assert(self@.contains_key(key));
            return;
        }
        self.tables[i].values.insert(value.to_owned(), location);
        assert(columns_of(self.tables@) =~= columns_of(middle));
        assert forall|k: SymbolKey| #[trigger]
            found(self.tables@, k) == (if k == key {
                Some(location@)
            } else {
                found(middle, k)
            }) by {
            lemma_first_column(columns_of(middle), (k.file, k.column), 0);
            match first_column(columns_of(middle), (k.file, k.column), 0) {
                Some(x) => {
                    if x == i {
                        assert(columns_of(middle)[x] == (file@, column@));
                        assert(k == key <==> k.value == key.value);
                    } else {
                        assert(self.tables@[x] == middle[x]);
                        assert(k != key);
                    }
                },
                None => {},
            }
        }
        assert(self@ =~= with_symbol(old(self)@, key, location@));
    }

    /// Indexes the values that references may name in a document.
    pub fn index_document(
        &mut self,
        uri: &str,
        stem: &str,
        doc: &DocumentData,
        targets: &RefTargets,
    )
        requires
            doc@.fits(),
        ensures
            final(self)@ == with_document(old(self)@, uri@, stem@, doc@, targets@),
    {
        let mut r: usize = 0;
        while r < doc.rows.len()
            invariant
                doc@.fits(),
                r <= doc.rows@.len(),
                self@ == with_rows(old(self)@, uri@, stem@, doc@, targets@, r as int),
            decreases doc.rows@.len() - r,
        {
            let row = &doc.rows[r];
            let ghost base = self@;
            assert(doc@.rows[r as int] == row@);
            let mut i: usize = 0;
            while i < row.cells.len()
                invariant
                    doc@.fits(),
                    r < doc.rows@.len(),
                    doc@.rows[r as int] == row@,
                    i <= row.cells@.len(),
                    self@ == with_cells(base, uri@, stem@, doc@, targets@, row@, i as int),
                decreases row.cells@.len() - i,
            {
                let cell = &row.cells[i];
                assert(row@.cells[i as int] == cell@);
                assert(doc@.rows[r as int].cells[i as int] == cell@);
                if i < doc.headers.len() && !cell.value.as_str().is_empty() {
                    let header = doc.headers[i].as_str();
                    assert(doc@.headers[i as int] == header@);
                    if !header.is_empty() && targets.contains(stem, header) {
                        self.define(
                            stem,
                            header,
                            cell.value.as_str(),
                            Location { uri: uri.to_owned(), range: cell_range(row.line, cell) },
                        );
                    }
                }
                i = i + 1;
            }
            r = r + 1;
        }
    }

    /// Drops the symbols of a file.
    pub fn remove_file(&mut self, stem: &str)
        ensures
            final(self)@ == without_file(old(self)@, stem@),
    {
        let mut i: usize = 0;
        while i < self.tables.len()
            invariant
                i <= self.tables@.len(),
                forall|j: int| 0 <= j < i ==> (#[trigger] self.tables@[j]).file@ != stem@,
                forall|k: SymbolKey|
                    k.file != stem@ ==> #[trigger] found(self.tables@, k) == found(
                        old(self).tables@,
                        k,
                    ),
            decreases self.tables@.len() - i,
        {
            if same_text(self.tables[i].file.as_str(), stem) {
                let ghost before = self.tables@;
                self.tables.remove(i);
                assert forall|k: SymbolKey| k.file != stem@ implies #[trigger] found(
                    self.tables@,
                    k,
                ) == found(before, k) by {
                    let c = (k.file, k.column);
                    let a = columns_of(before);
                    let b = columns_of(self.tables@);
                    lemma_first_column(a, c, 0);
                    lemma_first_column(b, c, 0);
                    assert forall|j: int| 0 <= j < b.len() implies b[j] == a[if j < i {
                        j
                    } else {
                        j + 1
                    }] by {}
                    assert(a[i as int] != c);
                    match first_column(a, c, 0) {
                        Some(x) => {
                            assert(b[if x < i {
                                x
                            } else {
                                x - 1
                            }] == c);
                        },
                        None => {},
                    }
                }
            } else {
                i = i + 1;
            }
        }
        assert forall|k: SymbolKey| k.file == stem@ implies #[trigger] found(self.tables@, k)
            is None by {
            lemma_first_column(columns_of(self.tables@), (k.file, k.column), 0);
        }
        assert(self@ =~= without_file(old(self)@, stem@));
    }
}

// ---------------------------------------------------------------------------
// Laws
// ---------------------------------------------------------------------------

/// True when cell `j` of row `i` of the document defines the symbol `key`.
pub open spec fn defines(
    doc: DocumentView,
    stem: Seq<char>,
    targets: Set<(Seq<char>, Seq<char>)>,
    i: int,
    j: int,
    key: SymbolKey,
) -> bool {
    &&& 0 <= i < doc.rows.len()
    &&& 0 <= j < doc.rows[i].cells.len()
    &&& is_target_column(doc, stem, targets, j)
    &&& doc.rows[i].cells[j].value.len() > 0
    &&& key == (SymbolKey {
        file: stem,
        column: doc.headers[j],
        value: doc.rows[i].cells[j].value,
    })
}

/// The place of cell `j` of row `i` of the document.
pub open spec fn place_of(uri: Seq<char>, doc: DocumentView, i: int, j: int) -> LocationView {
    let cell = doc.rows[i].cells[j];
    LocationView { uri, range: stretch(doc.rows[i].line, cell.col_start, cell.value.len()) }
}

/// True when the location of `key` is that of a cell of the document that defines it.
pub open spec fn placed(
    symbols: Map<SymbolKey, LocationView>,
    uri: Seq<char>,
    stem: Seq<char>,
    doc: DocumentView,
    targets: Set<(Seq<char>, Seq<char>)>,
    key: SymbolKey,
) -> bool {
    exists|i: int, j: int| #[trigger]
        defines(doc, stem, targets, i, j, key) && symbols[key] == place_of(uri, doc, i, j)
}

/// What indexing the first `n` cells of row `r` does to the symbols.
proof fn lemma_with_cells(
    symbols: Map<SymbolKey, LocationView>,
    uri: Seq<char>,
    stem: Seq<char>,
    doc: DocumentView,
    targets: Set<(Seq<char>, Seq<char>)>,
    r: int,
    n: int,
)
    requires
        0 <= r < doc.rows.len(),
        0 <= n <= doc.rows[r].cells.len(),
    ensures
        ({
            let after = with_cells(symbols, uri, stem, doc, targets, doc.rows[r], n);
            &&& forall|k: SymbolKey| #[trigger]
                symbols.contains_key(k) ==> after.contains_key(k) && after[k] == symbols[k]
            &&& forall|k: SymbolKey| #[trigger]
                after.contains_key(k) && !symbols.contains_key(k) ==> placed(
                    after,
                    uri,
                    stem,
                    doc,
                    targets,
                    k,
                )
            &&& forall|j: int, k: SymbolKey|
                0 <= j < n && #[trigger] defines(doc, stem, targets, r, j, k)
                    ==> after.contains_key(k)
        }),
    decreases n,
{
    if n > 0 {
        let row = doc.rows[r];
        lemma_with_cells(symbols, uri, stem, doc, targets, r, n - 1);
        let before = with_cells(symbols, uri, stem, doc, targets, row, n - 1);
        let after = with_cells(symbols, uri, stem, doc, targets, row, n);
        let cell = row.cells[n - 1];
        let key = SymbolKey { file: stem, column: doc.headers[n - 1], value: cell.value };
        assert forall|k: SymbolKey| #[trigger]
            after.contains_key(k) && !symbols.contains_key(k) implies placed(
            after,
            uri,
            stem,
            doc,
            targets,
            k,
        ) by {
            if before.contains_key(k) {
                let (i, j) = choose|i: int, j: int| #[trigger]
                    defines(doc, stem, targets, i, j, k) && before[k] == place_of(uri, doc, i, j);
                assert(after[k] == before[k]);
                assert(defines(doc, stem, targets, i, j, k) && after[k] == place_of(uri, doc, i, j));
            } else {
                assert(k == key);
                assert(defines(doc, stem, targets, r, n - 1, k));
                assert(after[k] == place_of(uri, doc, r, n - 1));
            }
        }
    }
}

/// What indexing the first `n` rows does to the symbols.
proof fn lemma_with_rows(
    symbols: Map<SymbolKey, LocationView>,
    uri: Seq<char>,
    stem: Seq<char>,
    doc: DocumentView,
    targets: Set<(Seq<char>, Seq<char>)>,
    n: int,
)
    requires
        0 <= n <= doc.rows.len(),
    ensures
        ({
            let after = with_rows(symbols, uri, stem, doc, targets, n);
            &&& forall|k: SymbolKey| #[trigger]
                symbols.contains_key(k) ==> after.contains_key(k) && after[k] == symbols[k]
            &&& forall|k: SymbolKey| #[trigger]
                after.contains_key(k) && !symbols.contains_key(k) ==> placed(
                    after,
                    uri,
                    stem,
                    doc,
                    targets,
                    k,
                )
            &&& forall|i: int, j: int, k: SymbolKey|
                0 <= i < n && #[trigger] defines(doc, stem, targets, i, j, k)
                    ==> after.contains_key(k)
        }),
    decreases n,
{
    if n > 0 {
        lemma_with_rows(symbols, uri, stem, doc, targets, n - 1);
        let before = with_rows(symbols, uri, stem, doc, targets, n - 1);
        let after = with_rows(symbols, uri, stem, doc, targets, n);
        lemma_with_cells(
            before,
            uri,
            stem,
            doc,
            targets,
            n - 1,
            doc.rows[n - 1].cells.len() as int,
        );
        assert forall|k: SymbolKey| #[trigger]
            after.contains_key(k) && !symbols.contains_key(k) implies placed(
            after,
            uri,
            stem,
            doc,
            targets,
            k,
        ) by {
            if before.contains_key(k) {
                let (i, j) = choose|i: int, j: int| #[trigger]
                    defines(doc, stem, targets, i, j, k) && before[k] == place_of(uri, doc, i, j);
                assert(after[k] == before[k]);
                assert(defines(doc, stem, targets, i, j, k) && after[k] == place_of(uri, doc, i, j));
            }
        }
        assert forall|i: int, j: int, k: SymbolKey|
            0 <= i < n && #[trigger] defines(doc, stem, targets, i, j, k) implies after.contains_key(
            k,
        ) by {
            if i < n - 1 {
                assert(before.contains_key(k));
            }
        }
    }
}

/// Indexing a document keeps the symbols that are there, adds every value of its target
/// columns, and adds nothing else; each added symbol lies where the document holds it.
pub proof fn law_indexing(
    symbols: Map<SymbolKey, LocationView>,
    uri: Seq<char>,
    stem: Seq<char>,
    doc: DocumentView,
    targets: Set<(Seq<char>, Seq<char>)>,
)
    ensures
        ({
            let after = with_document(symbols, uri, stem, doc, targets);
            &&& forall|k: SymbolKey| #[trigger]
                symbols.contains_key(k) ==> after.contains_key(k) && after[k] == symbols[k]
            &&& forall|k: SymbolKey| #[trigger]
                after.contains_key(k) && !symbols.contains_key(k) ==> placed(
                    after,
                    uri,
                    stem,
                    doc,
                    targets,
                    k,
                )
            &&& forall|i: int, j: int, k: SymbolKey| #[trigger]
                defines(doc, stem, targets, i, j, k) ==> after.contains_key(k)
        }),
{
    lemma_with_rows(symbols, uri, stem, doc, targets, doc.rows.len() as int);
}

/// Removing a file's symbols undoes all indexing of that file, and touches no other file.
pub proof fn law_removing_undoes_indexing(
    symbols: Map<SymbolKey, LocationView>,
    uri: Seq<char>,
    stem: Seq<char>,
    doc: DocumentView,
    targets: Set<(Seq<char>, Seq<char>)>,
)
    ensures
        without_file(with_document(symbols, uri, stem, doc, targets), stem) == without_file(
            symbols,
            stem,
        ),
{
    let after = with_document(symbols, uri, stem, doc, targets);
    law_indexing(symbols, uri, stem, doc, targets);
    assert forall|k: SymbolKey| after.contains_key(k) && k.file != stem implies symbols.contains_key(
        k,
    ) by {
        if !symbols.contains_key(k) {
            assert(placed(after, uri, stem, doc, targets, k));
        }
    }
    assert(without_file(after, stem) =~= without_file(symbols, stem));
}

/// True when cell `j` of row `i` is a value, not empty, of a named column that is among the
/// targets, and `key` is its file, column and value.
pub open spec fn names_cell(
    doc: DocumentView,
    stem: Seq<char>,
    targets: Set<(Seq<char>, Seq<char>)>,
    i: int,
    j: int,
    key: SymbolKey,
) -> bool {
    &&& 0 <= i < doc.rows.len()
    &&& 0 <= j < doc.rows[i].cells.len()
    &&& j < doc.headers.len()
    &&& doc.headers[j].len() > 0
    &&& targets.contains((stem, doc.headers[j]))
    &&& doc.rows[i].cells[j].value.len() > 0
    &&& key.file == stem
    &&& key.column == doc.headers[j]
    &&& key.value == doc.rows[i].cells[j].value
}

/// Indexing a document makes a symbol of every value of its target columns, and of nothing
/// else; symbols that are there stay as they are.
pub proof fn law_symbols_of_a_document(
    symbols: Map<SymbolKey, LocationView>,
    uri: Seq<char>,
    stem: Seq<char>,
    doc: DocumentView,
    targets: Set<(Seq<char>, Seq<char>)>,
    key: SymbolKey,
)
    ensures
        ({
            let after = with_document(symbols, uri, stem, doc, targets);
            &&& after.contains_key(key) <==> symbols.contains_key(key) || exists|i: int, j: int|
                names_cell(doc, stem, targets, i, j, key)
            &&& symbols.contains_key(key) ==> after[key] == symbols[key]
        }),
{
    let after = with_document(symbols, uri, stem, doc, targets);
    law_indexing(symbols, uri, stem, doc, targets);
    if after.contains_key(key) && !symbols.contains_key(key) {
        assert(placed(after, uri, stem, doc, targets, key));
        let (i, j) = choose|i: int, j: int| #[trigger]
            defines(doc, stem, targets, i, j, key) && after[key] == place_of(uri, doc, i, j);
        assert(names_cell(doc, stem, targets, i, j, key));
    }
    assert forall|i: int, j: int| #[trigger]
        names_cell(doc, stem, targets, i, j, key) implies after.contains_key(key) by {
        assert(defines(doc, stem, targets, i, j, key));
    }
}

proof fn lemma_cells_keep(
    symbols: Map<SymbolKey, LocationView>,
    uri: Seq<char>,
    stem: Seq<char>,
    doc: DocumentView,
    targets: Set<(Seq<char>, Seq<char>)>,
    r: int,
    n: int,
    m: int,
    key: SymbolKey,
)
    requires
        0 <= r < doc.rows.len(),
        0 <= n <= m <= doc.rows[r].cells.len(),
    ensures
        ({
            let before = with_cells(symbols, uri, stem, doc, targets, doc.rows[r], n);
            let after = with_cells(symbols, uri, stem, doc, targets, doc.rows[r], m);
            &&& before.contains_key(key) ==> after.contains_key(key) && after[key] == before[key]
            &&& (forall|j: int| n <= j < m ==> !#[trigger] names_cell(doc, stem, targets, r, j, key))
                ==> (after.contains_key(key) ==> before.contains_key(key))
        }),
    decreases m - n,
{
    if n < m {
        lemma_cells_keep(symbols, uri, stem, doc, targets, r, n, m - 1, key);
        if forall|j: int| n <= j < m ==> !#[trigger] names_cell(doc, stem, targets, r, j, key) {
            assert(!names_cell(doc, stem, targets, r, m - 1, key));
        }
    }
}

proof fn lemma_rows_keep(
    symbols: Map<SymbolKey, LocationView>,
    uri: Seq<char>,
    stem: Seq<char>,
    doc: DocumentView,
    targets: Set<(Seq<char>, Seq<char>)>,
    n: int,
    m: int,
    key: SymbolKey,
)
    requires
        0 <= n <= m <= doc.rows.len(),
    ensures
        ({
            let before = with_rows(symbols, uri, stem, doc, targets, n);
            let after = with_rows(symbols, uri, stem, doc, targets, m);
            &&& before.contains_key(key) ==> after.contains_key(key) && after[key] == before[key]
            &&& (forall|i: int, j: int|
                n <= i < m ==> !#[trigger] names_cell(doc, stem, targets, i, j, key)) ==> (
            after.contains_key(key) ==> before.contains_key(key))
        }),
    decreases m - n,
{
    if n < m {
        lemma_rows_keep(symbols, uri, stem, doc, targets, n, m - 1, key);
        lemma_cells_keep(
            with_rows(symbols, uri, stem, doc, targets, m - 1),
            uri,
            stem,
            doc,
            targets,
            m - 1,
            0,
            doc.rows[m - 1].cells.len() as int,
            key,
        );
    }
}

/// A value that is not yet a symbol is placed where the document first holds it, row by
/// row and from left to right: the place covers that cell's value.
pub proof fn law_first_place_counts(
    symbols: Map<SymbolKey, LocationView>,
    uri: Seq<char>,
    stem: Seq<char>,
    doc: DocumentView,
    targets: Set<(Seq<char>, Seq<char>)>,
    i: int,
    j: int,
    key: SymbolKey,
)
    requires
        !symbols.contains_key(key),
        names_cell(doc, stem, targets, i, j, key),
        forall|r: int, c: int|
            r < i || r == i && c < j ==> !#[trigger] names_cell(doc, stem, targets, r, c, key),
        doc.rows[i].cells[j].col_start + doc.rows[i].cells[j].value.len() <= u32::MAX,
    ensures
        ({
            let after = with_document(symbols, uri, stem, doc, targets);
            let cell = doc.rows[i].cells[j];
            &&& after.contains_key(key)
            &&& after[key].uri == uri
            &&& after[key].range.start == (Position {
                line: doc.rows[i].line,
                character: cell.col_start,
            })
            &&& after[key].range.end.line == doc.rows[i].line
            &&& after[key].range.end.character == cell.col_start + cell.value.len()
        }),
{
    let row = doc.rows[i];
    let base = with_rows(symbols, uri, stem, doc, targets, i);
    lemma_rows_keep(symbols, uri, stem, doc, targets, 0, i, key);
    lemma_cells_keep(base, uri, stem, doc, targets, i, 0, j, key);
    let before = with_cells(base, uri, stem, doc, targets, row, j);
    let here = with_cells(base, uri, stem, doc, targets, row, j + 1);
    assert(!base.contains_key(key));
    assert(!before.contains_key(key));
    assert(key == SymbolKey { file: stem, column: doc.headers[j], value: row.cells[j].value });
    assert(here.contains_key(key));
    lemma_cells_keep(base, uri, stem, doc, targets, i, j + 1, row.cells.len() as int, key);
    lemma_rows_keep(symbols, uri, stem, doc, targets, i + 1, doc.rows.len() as int, key);
}

/// Removing a file's symbols removes those whose file it is, and leaves every other symbol
/// as it is.
pub proof fn law_removing_a_file(
    symbols: Map<SymbolKey, LocationView>,
    stem: Seq<char>,
    key: SymbolKey,
)
    ensures
        without_file(symbols, stem).contains_key(key) <==> symbols.contains_key(key) && key.file
            != stem,
        symbols.contains_key(key) && key.file != stem ==> without_file(symbols, stem)[key]
            == symbols[key],
{
}

/// A lookup gives the symbol with the file's name in lowercase, the column and the value,
/// and nothing where there is none.
pub proof fn law_lookup(
    symbols: Map<SymbolKey, LocationView>,
    file: Seq<char>,
    column: Seq<char>,
    value: Seq<char>,
    location: LocationView,
)
    ensures
        ({
            let key = SymbolKey { file: lowercase_of(file), column, value };
            &&& symbol_at(symbols.insert(key, location), file, column, value) == Some(location)
            &&& symbol_at(symbols.remove(key), file, column, value) is None
        }),
{
}

} // verus!
