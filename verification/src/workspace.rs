//! The state of a workspace, and what each editor event does to it.

use vstd::hash_map::StringHashMap;
use vstd::prelude::*;
use vstd::string::*;

use crate::diagnostics::{problems, validate_document, views, Diagnostic, Rules};
use crate::document::{parsed, DocumentData, DocumentView};
use crate::paths::{file_stem, uri_stem};
use crate::schema::{targets_of, RefTargets, Schema, SchemaFile};
use crate::symbols::{law_removing_a_file, law_removing_undoes_indexing, law_symbols_of_a_document, names_cell,
    with_document, without_file, LocationView, SymbolIndex, SymbolKey};

verus! {

/// What the documents of a map hold.
pub open spec fn documents(map: Map<Seq<char>, DocumentData>) -> Map<Seq<char>, DocumentView> {
    map.map_values(|d: DocumentData| d@)
}

proof fn lemma_documents_insert(
    map: Map<Seq<char>, DocumentData>,
    uri: Seq<char>,
    doc: DocumentData,
)
    ensures
        documents(map.insert(uri, doc)) == documents(map).insert(uri, doc@),
{
    assert(documents(map.insert(uri, doc)) =~= documents(map).insert(uri, doc@));
}

/// The schema, the indexed symbols and the documents of a workspace.
pub struct Workspace {
    root_uri: Option<String>,
    schema: Option<Schema>,
    ref_targets: RefTargets,
    symbols: SymbolIndex,
    open_documents: StringHashMap<DocumentData>,
    file_cache: StringHashMap<DocumentData>,
}

/// What a workspace holds.
pub struct WorkspaceView {
    pub root_uri: Option<Seq<char>>,
    /// The files of the schema, once one is loaded.
    pub files: Option<Map<Seq<char>, SchemaFile>>,
    /// The columns that references point at.
    pub targets: Set<(Seq<char>, Seq<char>)>,
    pub symbols: Map<SymbolKey, LocationView>,
    /// The documents that the editor has open, by URI.
    pub open: Map<Seq<char>, DocumentView>,
    /// The documents read from disk, by the URI of their file.
    pub cache: Map<Seq<char>, DocumentView>,
}

impl View for Workspace {
    type V = WorkspaceView;

    closed spec fn view(&self) -> WorkspaceView {
        WorkspaceView {
            root_uri: match self.root_uri {
                Some(uri) => Some(uri@),
                None => None,
            },
            files: match self.schema {
                Some(schema) => Some(schema@),
                None => None,
            },
            targets: self.ref_targets@,
            symbols: self.symbols@,
            open: documents(self.open_documents@),
            cache: documents(self.file_cache@),
        }
    }
}

impl WorkspaceView {
    /// True when the positions in every document fit in 32 bits.
    pub open spec fn fits(self) -> bool {
        &&& forall|uri: Seq<char>| #[trigger]
            self.open.contains_key(uri) ==> self.open[uri].fits()
        &&& forall|uri: Seq<char>| #[trigger]
            self.cache.contains_key(uri) ==> self.cache[uri].fits()
    }

    /// True when the columns that are indexed are those that the schema's references point
    /// at; without a schema there are none.
    pub open spec fn targets_match(self) -> bool {
        self.targets == (match self.files {
            Some(files) => targets_of(files),
            None => Set::empty(),
        })
    }

    /// The workspace once a schema is loaded.
    pub open spec fn with_schema(self, files: Map<Seq<char>, SchemaFile>) -> Self {
        WorkspaceView { files: Some(files), targets: targets_of(files), ..self }
    }

    /// What a document of the workspace is validated against.
    pub open spec fn rules(self) -> Rules {
        Rules { files: self.files, symbols: self.symbols }
    }

    /// The workspace once the editor has opened a document, or changed one.
    pub open spec fn with_open(self, uri: Seq<char>, stem: Seq<char>, doc: DocumentView) -> Self {
        WorkspaceView {
            symbols: with_document(
                without_file(self.symbols, stem),
                uri,
                stem,
                doc,
                self.targets,
            ),
            open: self.open.insert(uri, doc),
            ..self
        }
    }

    /// The workspace once the editor has closed a document.
    pub open spec fn without_open(self, uri: Seq<char>) -> Self {
        WorkspaceView { open: self.open.remove(uri), ..self }
    }

    /// The workspace once a file read from disk is indexed and cached.
    pub open spec fn with_file(self, file: ScannedView) -> Self {
        WorkspaceView {
            symbols: with_document(self.symbols, file.uri, file.stem, file.doc, self.targets),
            cache: self.cache.insert(file.uri, file.doc),
            ..self
        }
    }

    /// The workspace once the first `n` files are indexed and cached.
    pub open spec fn with_files(self, files: Seq<ScannedFile>, n: int) -> Self
        decreases n,
    {
        if n <= 0 {
            self
        } else {
            self.with_files(files, n - 1).with_file(files[n - 1]@)
        }
    }

    /// The document for a URI: the open one, or else the one cached for the file `key`.
    pub open spec fn document(self, uri: Seq<char>, key: Option<Seq<char>>) -> Option<
        DocumentView,
    > {
        if self.open.contains_key(uri) {
            Some(self.open[uri])
        } else {
            self.cached(key)
        }
    }

    /// The document cached for the file `key`.
    pub open spec fn cached(self, key: Option<Seq<char>>) -> Option<DocumentView> {
        match key {
            Some(k) => if self.cache.contains_key(k) {
                Some(self.cache[k])
            } else {
                None
            },
            None => None,
        }
    }
}

/// The text behind an optional string.
pub open spec fn opt_text(text: Option<&str>) -> Option<Seq<char>> {
    match text {
        Some(s) => Some(s@),
        None => None,
    }
}

// ---------------------------------------------------------------------------
// Files read from disk
// ---------------------------------------------------------------------------

/// A data file found in the workspace directory.
#[derive(Debug)]
pub struct ScannedFile {
    /// The URI of the file.
    pub uri: String,
    pub stem: String,
    pub doc: DocumentData,
}

/// What a scanned file holds.
pub struct ScannedView {
    pub uri: Seq<char>,
    pub stem: Seq<char>,
    pub doc: DocumentView,
}

impl View for ScannedFile {
    type V = ScannedView;

    open spec fn view(&self) -> ScannedView {
        ScannedView { uri: self.uri@, stem: self.stem@, doc: self.doc@ }
    }
}

/// The scanned file for a URI and the text that was read.
pub fn scanned_file(uri: String, text: &str, delimiter: char) -> (result: ScannedFile)
    requires
        text@.len() <= u32::MAX,
    ensures
        result@ == (ScannedView {
            uri: uri@,
            stem: uri_stem(uri@),
            doc: parsed(text@, delimiter),
        }),
        result@.doc.fits(),
{
    let stem = file_stem(uri.as_str());
    ScannedFile { uri, stem, doc: DocumentData::parse(text, delimiter) }
}

// ---------------------------------------------------------------------------
// Events
// ---------------------------------------------------------------------------

/// The root that a client announces: its first workspace folder, or else its root URI.
pub open spec fn announced_root(
    folders: Option<Seq<Seq<char>>>,
    root_uri: Option<Seq<char>>,
) -> Option<Seq<char>> {
    match folders {
        Some(list) => if list.len() > 0 {
            Some(list[0])
        } else {
            root_uri
        },
        None => root_uri,
    }
}

impl Workspace {
    /// A workspace without schema and documents.
    pub fn new() -> (result: Workspace)
        ensures
            result@ == (WorkspaceView {
                root_uri: None,
                files: None,
                targets: Set::empty(),
                symbols: Map::empty(),
                open: Map::empty(),
                cache: Map::empty(),
            }),
            result@.fits(),
            result@.targets_match(),
    {
        let result = Workspace {
            root_uri: None,
            schema: None,
            ref_targets: RefTargets::new(),
            symbols: SymbolIndex::new(),
            open_documents: StringHashMap::new(),
            file_cache: StringHashMap::new(),
        };
        assert(result@.open =~= Map::empty());
        assert(result@.cache =~= Map::empty());
        result
    }

    /// Takes over the root that the client announces; without one, the root stays.
    pub fn announce_root(&mut self, folders: Option<&Vec<String>>, root_uri: Option<String>)
        ensures
            ({
                let announced = announced_root(
                    match folders {
                        Some(list) => Some(crate::schema::texts(list@)),
                        None => None,
                    },
                    match root_uri {
                        Some(uri) => Some(uri@),
                        None => None,
                    },
                );
                final(self)@ == (WorkspaceView {
                    root_uri: if announced is Some {
                        announced
                    } else {
                        old(self)@.root_uri
                    },
                    ..old(self)@
                })
            }),
    {
        let first: Option<String> = match folders {
            Some(list) => if list.len() > 0 {
                Some(list[0].clone())
            } else {
                root_uri
            },
            None => root_uri,
        };
        if first.is_some() {
            self.root_uri = first;
        }
    }

    /// The root of the workspace.
    pub fn root(&self) -> (result: Option<&str>)
        ensures
            opt_text(result) == self@.root_uri,
    {
        match &self.root_uri {
            Some(uri) => Some(uri.as_str()),
            None => None,
        }
    }

    /// Takes over a loaded schema and the columns that its references point at.
    pub fn install_schema(&mut self, schema: Schema)
        ensures
            final(self)@ == old(self)@.with_schema(schema@),
    {
        self.ref_targets = schema.reference_targets();
        self.schema = Some(schema);
    }

    /// The schema, once one is loaded.
    pub fn schema(&self) -> (result: Option<&Schema>)
        ensures
            match result {
                Some(schema) => self@.files == Some(schema@),
                None => self@.files is None,
            },
    {
        match &self.schema {
            Some(schema) => Some(schema),
            None => None,
        }
    }

    /// The symbols of the workspace.
    pub fn symbols(&self) -> (result: &SymbolIndex)
        ensures
            result@ == self@.symbols,
    {
        &self.symbols
    }

    /// Indexes and caches the files found in the workspace directory.
    pub fn index_scanned(&mut self, files: Vec<ScannedFile>)
        requires
            old(self)@.fits(),
            forall|i: int| 0 <= i < files@.len() ==> (#[trigger] files@[i])@.doc.fits(),
        ensures
            final(self)@ == old(self)@.with_files(files@, files@.len() as int),
            final(self)@.fits(),
    {
        let ghost all = files@;
        for file in it: files
            invariant
                it.seq() == all,
                forall|i: int| 0 <= i < all.len() ==> (#[trigger] all[i])@.doc.fits(),
                self@ == old(self)@.with_files(all, it.index() as int),
                self@.fits(),
        {
            let ghost n = it.index() as int;
            assert(all[n]@.doc.fits());
            self.symbols.index_document(
                file.uri.as_str(),
                file.stem.as_str(),
                &file.doc,
                &self.ref_targets,
            );
            proof {
                lemma_documents_insert(self.file_cache@, file.uri@, file.doc);
            }
            self.file_cache.insert(file.uri, file.doc);
        }
    }

    /// The diagnostics of the document cached for a file; none where there is no such
    /// document.
    pub fn cached_diagnostics(&self, file_uri: &str, stem: &str) -> (result: Vec<Diagnostic>)
        requires
            self@.fits(),
        ensures
            views(result@) == (match self@.cached(Some(file_uri@)) {
                Some(doc) => problems(self@.rules(), stem@, doc),
                None => Seq::empty(),
            }),
    {
        match self.file_cache.get(file_uri) {
            Some(doc) => {
                assert(self@.cache.contains_key(file_uri@));
                validate_document(stem, doc, self.schema(), self.symbols())
            },
            None => {
                let none: Vec<Diagnostic> = Vec::new();
                assert(views(none@) =~= Seq::empty());
                none
            },
        }
    }

    /// Takes over a document that the editor has opened or changed: its symbols replace
    /// those of the file, and it is validated against them.
    pub fn open_document_as(
        &mut self,
        uri: String,
        stem: &str,
        text: &str,
        delimiter: char,
    ) -> (result: Vec<Diagnostic>)
        requires
            old(self)@.fits(),
            text@.len() <= u32::MAX,
        ensures
            final(self)@ == old(self)@.with_open(uri@, stem@, parsed(text@, delimiter)),
            final(self)@.fits(),
            views(result@) == problems(
                final(self)@.rules(),
                stem@,
                parsed(text@, delimiter),
            ),
    {
        let doc = DocumentData::parse(text, delimiter);
        self.symbols.remove_file(stem);
        self.symbols.index_document(uri.as_str(), stem, &doc, &self.ref_targets);
        let diags = validate_document(stem, &doc, self.schema(), self.symbols());
        proof {
            lemma_documents_insert(self.open_documents@, uri@, doc);
        }
        self.open_documents.insert(uri, doc);
        diags
    }

    /// The editor has opened a document.
    pub fn open_document(&mut self, uri: String, text: &str, delimiter: char) -> (result: Vec<
        Diagnostic,
    >)
        requires
            old(self)@.fits(),
            text@.len() <= u32::MAX,
        ensures
            final(self)@ == old(self)@.with_open(uri@, uri_stem(uri@), parsed(text@, delimiter)),
            final(self)@.fits(),
            views(result@) == problems(
                final(self)@.rules(),
                uri_stem(uri@),
                parsed(text@, delimiter),
            ),
    {
        let stem = file_stem(uri.as_str());
        self.open_document_as(uri, stem.as_str(), text, delimiter)
    }

    /// The editor has sent the whole text of a document, once or several times; the last
    /// one counts. Without any, nothing changes and nothing is to be published.
    pub fn change_document(&mut self, uri: String, changes: &Vec<String>, delimiter: char) -> (result:
        Option<Vec<Diagnostic>>)
        requires
            old(self)@.fits(),
            changes@.len() > 0 ==> changes@.last()@.len() <= u32::MAX,
        ensures
            final(self)@.fits(),
            match result {
                Some(diags) => {
                    &&& changes@.len() > 0
                    &&& final(self)@ == old(self)@.with_open(
                        uri@,
                        uri_stem(uri@),
                        parsed(changes@.last()@, delimiter),
                    )
                    &&& views(diags@) == problems(
                        final(self)@.rules(),
                        uri_stem(uri@),
                        parsed(changes@.last()@, delimiter),
                    )
                },
                None => changes@.len() == 0 && final(self)@ == old(self)@,
            },
    {
        if changes.len() == 0 {
            return None;
        }
        let text = changes[changes.len() - 1].as_str();
        Some(self.open_document(uri, text, delimiter))
    }

    /// The editor has closed a document. What is cached of its file stays.
    pub fn close_document(&mut self, uri: &str)
        requires
            old(self)@.fits(),
        ensures
            final(self)@ == old(self)@.without_open(uri@),
            final(self)@.fits(),
    {
        proof {
            assert(documents(self.open_documents@.remove(uri@)) =~= documents(
                self.open_documents@,
            ).remove(uri@));
        }
        self.open_documents.remove(uri);
    }

    /// The document for a URI: the open one, or else the one cached for the file `key`.
    pub fn document(&self, uri: &str, key: Option<&str>) -> (result: Option<&DocumentData>)
        ensures
            match result {
                Some(doc) => self@.document(uri@, opt_text(key)) == Some(doc@),
                None => self@.document(uri@, opt_text(key)) is None,
            },
    {
        match self.open_documents.get(uri) {
            Some(doc) => Some(doc),
            None => match key {
                Some(k) => self.file_cache.get(k),
                None => None,
            },
        }
    }
}

/// The diagnostics of the schema with those of the plugins behind them.
pub fn combine_diagnostics(schema: Vec<Diagnostic>, plugin: Vec<Diagnostic>) -> (result: Vec<
    Diagnostic,
>)
    ensures
        result@ == schema@ + plugin@,
{
    let mut all = schema;
    let mut more = plugin;
    all.append(&mut more);
    all
}

// ---------------------------------------------------------------------------
// Laws
// ---------------------------------------------------------------------------

/// The indexed columns stay those of the schema, whatever happens to the workspace.
pub proof fn law_targets_follow_the_schema(
    ws: WorkspaceView,
    uri: Seq<char>,
    stem: Seq<char>,
    doc: DocumentView,
    files: Seq<ScannedFile>,
    n: int,
    schema: Map<Seq<char>, SchemaFile>,
)
    requires
        ws.targets_match(),
    ensures
        ws.with_open(uri, stem, doc).targets_match(),
        ws.without_open(uri).targets_match(),
        ws.with_files(files, n).targets_match(),
        ws.with_schema(schema).targets_match(),
    decreases n,
{
    if n > 0 {
        law_targets_follow_the_schema(ws, uri, stem, doc, files, n - 1, schema);
    }
}

/// What the editor has opened is what is read back, whatever is cached.
pub proof fn law_open_is_read_back(
    ws: WorkspaceView,
    uri: Seq<char>,
    stem: Seq<char>,
    doc: DocumentView,
    key: Option<Seq<char>>,
)
    ensures
        ws.with_open(uri, stem, doc).document(uri, key) == Some(doc),
{
}

/// Closing a document leaves what is cached of its file.
pub proof fn law_close_leaves_the_cache(ws: WorkspaceView, uri: Seq<char>, key: Option<Seq<char>>)
    ensures
        ws.without_open(uri).document(uri, key) == ws.cached(key),
        ws.without_open(uri).symbols == ws.symbols,
{
}

/// Opening a document that is not open and closing it again leaves no trace among the open
/// documents.
pub proof fn law_close_undoes_open(
    ws: WorkspaceView,
    uri: Seq<char>,
    stem: Seq<char>,
    doc: DocumentView,
)
    requires
        !ws.open.contains_key(uri),
    ensures
        ws.with_open(uri, stem, doc).without_open(uri).open == ws.open,
{
    assert(ws.open.insert(uri, doc).remove(uri) =~= ws.open);
}

/// Only the last text of a document counts: of an earlier one neither the contents nor a
/// symbol is left.
pub proof fn law_last_change_counts(
    ws: WorkspaceView,
    uri: Seq<char>,
    stem: Seq<char>,
    first: DocumentView,
    last: DocumentView,
)
    ensures
        ws.with_open(uri, stem, first).with_open(uri, stem, last) == ws.with_open(
            uri,
            stem,
            last,
        ),
{
    law_removing_undoes_indexing(
        without_file(ws.symbols, stem),
        uri,
        stem,
        first,
        ws.targets,
    );
    assert(without_file(without_file(ws.symbols, stem), stem) =~= without_file(ws.symbols, stem));
    assert(ws.open.insert(uri, first).insert(uri, last) =~= ws.open.insert(uri, last));
}

/// Opening or changing a document keeps every symbol of any other file, where it is; of the
/// document's own file it leaves the values that the document holds, and no other.
pub proof fn law_open_replaces_own_symbols(
    ws: WorkspaceView,
    uri: Seq<char>,
    stem: Seq<char>,
    doc: DocumentView,
    key: SymbolKey,
)
    ensures
        ({
            let after = ws.with_open(uri, stem, doc).symbols;
            &&& key.file != stem ==> (after.contains_key(key) <==> ws.symbols.contains_key(key))
            &&& key.file != stem && ws.symbols.contains_key(key) ==> after[key] == ws.symbols[key]
            &&& key.file == stem ==> (after.contains_key(key) <==> exists|i: int, j: int|
                names_cell(doc, stem, ws.targets, i, j, key))
        }),
{
    law_removing_a_file(ws.symbols, stem, key);
    law_symbols_of_a_document(
        without_file(ws.symbols, stem),
        uri,
        stem,
        doc,
        ws.targets,
        key,
    );
}

/// Opening, changing or closing a document touches no other document, and neither the
/// cache, nor the schema, nor the root.
pub proof fn law_other_documents_stay(
    ws: WorkspaceView,
    uri: Seq<char>,
    stem: Seq<char>,
    doc: DocumentView,
    other: Seq<char>,
    key: Option<Seq<char>>,
)
    requires
        other != uri,
    ensures
        ws.with_open(uri, stem, doc).document(other, key) == ws.document(other, key),
        ws.without_open(uri).document(other, key) == ws.document(other, key),
        ws.with_open(uri, stem, doc).cache == ws.cache,
        ws.without_open(uri).cache == ws.cache,
        ws.with_open(uri, stem, doc).files == ws.files,
        ws.without_open(uri).files == ws.files,
        ws.with_open(uri, stem, doc).root_uri == ws.root_uri,
        ws.without_open(uri).root_uri == ws.root_uri,
        !ws.without_open(uri).open.contains_key(uri),
{
}

/// Of the files read from disk, the last one under a URI is cached, every file that was
/// cached under another URI stays, and the open documents are untouched.
pub proof fn law_scanned_files_are_cached(
    ws: WorkspaceView,
    files: Seq<ScannedFile>,
    n: int,
    uri: Seq<char>,
)
    requires
        0 <= n <= files.len(),
    ensures
        ({
            let after = ws.with_files(files, n);
            &&& after.open == ws.open
            &&& forall|i: int|
                0 <= i < n && (#[trigger] files[i]).uri@ == uri && (forall|j: int|
                    i < j < n ==> (#[trigger] files[j]).uri@ != uri) ==> after.cached(Some(uri))
                    == Some(files[i].doc@)
            &&& (forall|i: int| 0 <= i < n ==> (#[trigger] files[i]).uri@ != uri) ==> after.cached(
                Some(uri),
            ) == ws.cached(Some(uri))
        }),
    decreases n,
{
    if n > 0 {
        law_scanned_files_are_cached(ws, files, n - 1, uri);
        let last = files[n - 1];
        let before = ws.with_files(files, n - 1);
        let after = ws.with_files(files, n);
        assert forall|i: int|
            0 <= i < n && (#[trigger] files[i]).uri@ == uri && (forall|j: int|
                i < j < n ==> (#[trigger] files[j]).uri@ != uri) implies after.cached(Some(uri))
            == Some(files[i].doc@) by {
            if i < n - 1 {
                assert(last.uri@ != uri);
                assert(after.cached(Some(uri)) == before.cached(Some(uri)));
            }
        }
    }
}

/// The files read from disk add the values of their target columns to the symbols, each
/// file under its stem, and nothing else; symbols that are there stay.
pub proof fn law_scanned_files_are_indexed(
    ws: WorkspaceView,
    files: Seq<ScannedFile>,
    n: int,
    key: SymbolKey,
)
    requires
        0 <= n <= files.len(),
    ensures
        ({
            let after = ws.with_files(files, n);
            &&& after.targets == ws.targets
            &&& ws.symbols.contains_key(key) ==> after.symbols[key] == ws.symbols[key]
            &&& after.symbols.contains_key(key) <==> ws.symbols.contains_key(key) || exists|
                f: int,
                i: int,
                j: int,
            |
                0 <= f < n && #[trigger] names_cell(
                    files[f].doc@,
                    files[f].stem@,
                    ws.targets,
                    i,
                    j,
                    key,
                )
        }),
    decreases n,
{
    if n > 0 {
        law_scanned_files_are_indexed(ws, files, n - 1, key);
        let before = ws.with_files(files, n - 1);
        let last = files[n - 1];
        law_symbols_of_a_document(
            before.symbols,
            last.uri@,
            last.stem@,
            last.doc@,
            ws.targets,
            key,
        );
        if exists|i: int, j: int| names_cell(last.doc@, last.stem@, ws.targets, i, j, key) {
            let (i, j) = choose|i: int, j: int|
                names_cell(last.doc@, last.stem@, ws.targets, i, j, key);
            assert(names_cell(files[n - 1].doc@, files[n - 1].stem@, ws.targets, i, j, key));
        }
    }
}

/// The first workspace folder is the root; without one it is the root URI.
pub proof fn law_announced_root(
    first: Seq<char>,
    more: Seq<Seq<char>>,
    root_uri: Option<Seq<char>>,
)
    ensures
        announced_root(Some(seq![first] + more), root_uri) == Some(first),
        announced_root(Some(Seq::empty()), root_uri) == root_uri,
        announced_root(None, root_uri) == root_uri,
{
}

/// A loaded schema takes the place of the one before, and nothing else changes.
pub proof fn law_schema_is_replaced(ws: WorkspaceView, schema: Map<Seq<char>, SchemaFile>)
    ensures
        ws.with_schema(schema).files == Some(schema),
        ws.with_schema(schema).symbols == ws.symbols,
        ws.with_schema(schema).open == ws.open,
        ws.with_schema(schema).cache == ws.cache,
        ws.with_schema(schema).root_uri == ws.root_uri,
{
}

/// The documents of a workspace are validated against its schema and its symbols, all of
/// them.
pub proof fn law_rules_of_a_workspace(ws: WorkspaceView)
    ensures
        ws.rules().files == ws.files,
        ws.rules().symbols == ws.symbols,
{
}

} // verus!
