//! Schema types, and how a column's definition is found in them.

use vstd::hash_map::StringHashMap;
use vstd::hash_set::StringHashSet;
use vstd::prelude::*;

use crate::text::{lowercase, lowercase_of, same_text};

verus! {

// ---------------------------------------------------------------------------
// Schema types
// ---------------------------------------------------------------------------

/// The primitive type of a field's value, as declared in the schema.
#[derive(Debug, Clone, Copy, PartialEq, Eq, Structural)]
pub enum FieldTypeName {
    Int,
    Float,
    Boolean,
    Text,
    String,
    Array,
    Object,
    /// Calc expression field.
    Parse,
    /// Value references a row in another file.
    Reference,
    /// Documentation-only; not a real column.
    Comment,
    Unknown,
}

/// Type descriptor attached to a field definition.
#[derive(Debug, Clone)]
pub struct FieldType {
    pub kind: FieldTypeName,
    pub data_length: i64,
    pub mem_size: i64,
    /// For `reference` fields: the file containing the target rows.
    pub file: Option<String>,
    /// For `reference` fields: the column in the target file to resolve against.
    pub field: Option<String>,
}

/// Declares that a field's valid values come from an enum defined in another schema file.
#[derive(Debug, Clone)]
pub struct AppendField {
    pub file: String,
    pub field: String,
}

/// One cell of an enum table.
#[derive(Debug, Clone)]
pub enum TableCell {
    Text(String),
    /// A number, as it is written.
    Number(String),
    Other,
}

/// A single column definition within a schema file.
#[derive(Debug, Clone)]
pub struct SchemaField {
    pub name: String,
    pub description: Option<String>,
    pub field_type: Option<FieldType>,
    /// Alternative column names this field may appear under.
    pub alt_names: Vec<String>,
    /// If set, valid values for this field are drawn from the named enum table.
    pub append_field: Option<AppendField>,
    /// Enum table; each row is a code and its description.
    pub table: Option<Vec<Vec<TableCell>>>,
}

/// Schema entry for a single data file, or for a reference-only pseudo-file.
#[derive(Debug, Clone)]
pub struct SchemaFile {
    /// Human-readable title (usually the data file's name).
    pub title: Option<String>,
    /// Human-readable overview of what this file controls.
    pub overview: Option<String>,
    /// If true, this entry is a reference table only and has no data file.
    pub guide_only: bool,
    /// Schema files whose fields are merged into this one for reference purposes.
    pub reference_files: Vec<String>,
    /// Schema files whose fields this file shares.
    pub append_files: Vec<String>,
    /// Ordered column definitions for this file.
    pub fields: Vec<SchemaField>,
    /// Columns that exist in the data file but are intentionally undocumented.
    pub ignore_fields: Vec<String>,
    /// The schema file that this one depends on for code-level implementation.
    pub code_dependency: Option<String>,
    pub not_searchable: bool,
    pub no_html: bool,
}

// ---------------------------------------------------------------------------
// Fields of one file
// ---------------------------------------------------------------------------

/// True when `names` holds `name`.
pub open spec fn has_name(names: Seq<String>, name: Seq<char>) -> bool {
    exists|i: int| 0 <= i < names.len() && (#[trigger] names[i])@ == name
}

impl SchemaField {
    /// True when `col_name` is the field's primary name or one of its alternative names.
    pub open spec fn goes_by(self, col_name: Seq<char>) -> bool {
        self.name@ == col_name || has_name(self.alt_names@, col_name)
    }
}

/// The first of `fields`, from position `from` on, that goes by `col_name`.
pub open spec fn first_field(
    fields: Seq<SchemaField>,
    col_name: Seq<char>,
    from: int,
) -> Option<SchemaField>
    decreases fields.len() - from,
{
    if from < 0 || from >= fields.len() {
        None
    } else if fields[from].goes_by(col_name) {
        Some(fields[from])
    } else {
        first_field(fields, col_name, from + 1)
    }
}

impl SchemaFile {
    /// The field that the file itself declares for `col_name`.
    pub open spec fn field(self, col_name: Seq<char>) -> Option<SchemaField> {
        first_field(self.fields@, col_name, 0)
    }

    /// Find a field by its primary name or any alternative name.
    pub fn find_field(&self, col_name: &str) -> (result: Option<&SchemaField>)
        ensures
            match result {
                Some(f) => self.field(col_name@) == Some(*f),
                None => self.field(col_name@) is None,
            },
            match result {
                Some(f) => exists|i: int|
                    0 <= i < self.fields@.len() && #[trigger] self.fields@[i] == *f && (f.name@
                        == col_name@ || exists|k: int|
                        0 <= k < f.alt_names@.len() && (#[trigger] f.alt_names@[k])@ == col_name@)
                        && forall|j: int|
                        0 <= j < i ==> (#[trigger] self.fields@[j]).name@ != col_name@ && forall|
                            k: int,
                        |
                            0 <= k < self.fields@[j].alt_names@.len() ==> (
                            #[trigger] self.fields@[j].alt_names@[k])@ != col_name@,
                None => forall|j: int|
                    0 <= j < self.fields@.len() ==> (#[trigger] self.fields@[j]).name@ != col_name@
                        && forall|k: int|
                        0 <= k < self.fields@[j].alt_names@.len() ==> (
                        #[trigger] self.fields@[j].alt_names@[k])@ != col_name@,
            },
    {
        let mut i: usize = 0;
        while i < self.fields.len()
            invariant
                i <= self.fields@.len(),
                self.field(col_name@) == first_field(self.fields@, col_name@, i as int),
            decreases self.fields@.len() - i,
        {
            proof {
                law_field_goes_by_any_name(*self, col_name@);
            }
            let field = &self.fields[i];
            if same_text(field.name.as_str(), col_name) || name_listed(&field.alt_names, col_name) {
                return Some(field);
            }
            i = i + 1;
        }
        proof {
            law_field_goes_by_any_name(*self, col_name@);
        }
        None
    }
}

/// True when `names` holds `name`.
pub fn name_listed(names: &Vec<String>, name: &str) -> (result: bool)
    ensures
        result == has_name(names@, name@),
{
    let mut i: usize = 0;
    while i < names.len()
        invariant
            i <= names@.len(),
            forall|j: int| 0 <= j < i ==> (#[trigger] names@[j])@ != name@,
        decreases names@.len() - i,
    {
        if same_text(names[i].as_str(), name) {
            return true;
        }
        i = i + 1;
    }
    false
}

// ---------------------------------------------------------------------------
// The whole schema
// ---------------------------------------------------------------------------

/// The files that a list of entries stands for: of two entries with one stem the later
/// one counts.
pub open spec fn entry_map(entries: Seq<(String, SchemaFile)>) -> Map<Seq<char>, SchemaFile>
    decreases entries.len(),
{
    if entries.len() == 0 {
        Map::empty()
    } else {
        entry_map(entries.drop_last()).insert(entries.last().0@, entries.last().1)
    }
}

/// A list of entries stands for finitely many files.
pub proof fn lemma_entry_map_finite(entries: Seq<(String, SchemaFile)>)
    ensures
        entry_map(entries).dom().finite(),
    decreases entries.len(),
{
    if entries.len() > 0 {
        lemma_entry_map_finite(entries.drop_last());
    }
}

/// The entry for a file: the one under its stem, or else the one under the stem in
/// lowercase.
pub open spec fn file_in(files: Map<Seq<char>, SchemaFile>, stem: Seq<char>) -> Option<SchemaFile> {
    if files.contains_key(stem) {
        Some(files[stem])
    } else if files.contains_key(lowercase_of(stem)) {
        Some(files[lowercase_of(stem)])
    } else {
        None
    }
}

/// The texts of a list of strings.
pub open spec fn texts(list: Seq<String>) -> Seq<Seq<char>> {
    list.map_values(|s: String| s@)
}

/// The entries that a search can still open: by the name they stand under, and by that
/// name in lowercase.
pub open spec fn unopened(
    files: Map<Seq<char>, SchemaFile>,
    visited: Set<Seq<char>>,
) -> nat {
    files.dom().filter(|k: Seq<char>| !visited.contains(k)).len() + files.dom().filter(
        |k: Seq<char>| !visited.contains(lowercase_of(k)),
    ).len()
}

/// The field for `col_name` in the files named by `pending`, taken in order. A file is
/// looked at once, whatever the case its name is written in. A file that does not
/// declare the column hands the search to the files it appends, before the rest.
pub open spec fn search(
    files: Map<Seq<char>, SchemaFile>,
    pending: Seq<Seq<char>>,
    col_name: Seq<char>,
    visited: Set<Seq<char>>,
) -> Option<SchemaField>
    decreases unopened(files, visited), pending.len(),
    when files.dom().finite()
    via search_ends
{
    if pending.len() == 0 {
        None
    } else {
        let stem = pending[0];
        let folded = lowercase_of(stem);
        if visited.contains(folded) {
            search(files, pending.skip(1), col_name, visited)
        } else {
            match file_in(files, stem) {
                None => search(files, pending.skip(1), col_name, visited.insert(folded)),
                Some(file) => match file.field(col_name) {
                    Some(field) => Some(field),
                    None => search(
                        files,
                        texts(file.append_files@) + pending.skip(1),
                        col_name,
                        visited.insert(folded),
                    ),
                },
            }
        }
    }
}

#[via_fn]
proof fn search_ends(
    files: Map<Seq<char>, SchemaFile>,
    pending: Seq<Seq<char>>,
    col_name: Seq<char>,
    visited: Set<Seq<char>>,
) {
    if pending.len() > 0 && !visited.contains(lowercase_of(pending[0])) {
        lemma_unopened(files, visited, pending[0]);
    }
}

/// Marking a name as visited never adds to what can be opened, and takes something away
/// where the name has an entry.
proof fn lemma_unopened(
    files: Map<Seq<char>, SchemaFile>,
    visited: Set<Seq<char>>,
    stem: Seq<char>,
)
    requires
        files.dom().finite(),
        !visited.contains(lowercase_of(stem)),
    ensures
        unopened(files, visited.insert(lowercase_of(stem))) <= unopened(files, visited),
        file_in(files, stem) is Some ==> unopened(files, visited.insert(lowercase_of(stem)))
            < unopened(files, visited),
{
    let folded = lowercase_of(stem);
    let after = visited.insert(folded);
    let a0 = files.dom().filter(|k: Seq<char>| !visited.contains(k));
    let a1 = files.dom().filter(|k: Seq<char>| !after.contains(k));
    let b0 = files.dom().filter(|k: Seq<char>| !visited.contains(lowercase_of(k)));
    let b1 = files.dom().filter(|k: Seq<char>| !after.contains(lowercase_of(k)));
    files.dom().lemma_len_filter(|k: Seq<char>| !visited.contains(k));
    files.dom().lemma_len_filter(|k: Seq<char>| !visited.contains(lowercase_of(k)));
    assert(a1.subset_of(a0));
    assert(b1.subset_of(b0));
    vstd::set_lib::lemma_len_subset(a1, a0);
    vstd::set_lib::lemma_len_subset(b1, b0);
    if files.contains_key(stem) {
        b1.lemma_subset_not_in_lt(b0, stem);
    } else if files.contains_key(folded) {
        a1.lemma_subset_not_in_lt(a0, folded);
    }
}

/// The full schema of a workspace: a map from file stem to its definition.
pub struct Schema {
    files: StringHashMap<SchemaFile>,
    stems: Vec<String>,
}

impl View for Schema {
    type V = Map<Seq<char>, SchemaFile>;

    closed spec fn view(&self) -> Map<Seq<char>, SchemaFile> {
        self.files@
    }
}

impl Schema {
    #[verifier::type_invariant]
    spec fn stems_listed(self) -> bool {
        &&& self.files@.dom().finite()
        &&& forall|stem: Seq<char>|
            #[trigger] self.files@.contains_key(stem) ==> has_name(self.stems@, stem)
    }

    /// The schema made of the given entries.
    pub fn new(entries: Vec<(String, SchemaFile)>) -> (result: Schema)
        ensures
            result@ == entry_map(entries@),
            result@.dom().finite(),
    {
        let mut files: StringHashMap<SchemaFile> = StringHashMap::new();
        let mut stems: Vec<String> = Vec::new();
        let ghost all = entries@;
        for entry in it: entries
            invariant
                it.seq() == all,
                files@ == entry_map(all.take(it.index() as int)),
                files@.dom().finite(),
                forall|stem: Seq<char>|
                    #[trigger] files@.contains_key(stem) ==> has_name(stems@, stem),
        {
            let ghost n = it.index() as int;
            let ghost before = stems@;
            let ghost known = files@;
            let (stem, file) = entry;
            stems.push(stem.clone());
            files.insert(stem, file);
            proof {
                assert(all.take(n + 1).drop_last() =~= all.take(n));
                assert forall|s: Seq<char>| #[trigger] files@.contains_key(s) implies has_name(
                    stems@,
                    s,
                ) by {
                    if s == stem@ {
                        assert(stems@[before.len() as int]@ == s);
                    } else {
                        assert(known.contains_key(s));
                        let i = choose|i: int| 0 <= i < before.len() && (#[trigger] before[i])@ == s;
                        assert(stems@[i]@ == s);
                    }
                }
            }
        }
        assert(all.take(all.len() as int) =~= all);
        Schema { files, stems }
    }

    /// Look up the schema entry for a file by its stem (`"armor"` for `armor.txt`).
    pub fn get_file(&self, stem: &str) -> (result: Option<&SchemaFile>)
        ensures
            match result {
                Some(file) => file_in(self@, stem@) == Some(*file),
                None => file_in(self@, stem@) is None,
            },
    {
        match self.files.get(stem) {
            Some(file) => Some(file),
            None => self.files.get(lowercase(stem).as_str()),
        }
    }

    /// Find a field definition for `col_name` in `file_stem`, following the chain of
    /// appended files. Returns the first match found. A file is visited once, so that
    /// files that append each other do no harm.
    pub fn find_field<'a>(&'a self, file_stem: &str, col_name: &str) -> (result: Option<
        &'a SchemaField,
    >)
        ensures
            match result {
                Some(f) => search(self@, seq![file_stem@], col_name@, Set::empty()) == Some(*f),
                None => search(self@, seq![file_stem@], col_name@, Set::empty()) is None,
            },
            self@.dom().finite(),
    {
        proof {
            use_type_invariant(self);
        }
        let mut pending: Vec<&str> = Vec::new();
        pending.push(file_stem);
        assert(stacked(pending@) =~= seq![file_stem@]);
        self.find_field_inner(pending, col_name, StringHashSet::new())
    }

    /// The search over the files still `pending`, the next one last.
    fn find_field_inner<'a: 'b, 'b>(
        &'a self,
        pending: Vec<&'b str>,
        col_name: &str,
        visited: StringHashSet,
    ) -> (result: Option<&'a SchemaField>)
        ensures
            match result {
                Some(f) => search(self@, stacked(pending@), col_name@, visited@) == Some(*f),
                None => search(self@, stacked(pending@), col_name@, visited@) is None,
            },
    {
        proof {
            use_type_invariant(self);
        }
        let ghost goal = search(self@, stacked(pending@), col_name@, visited@);
        let mut pending = pending;
        let mut visited = visited;
        #[verifier::loop_isolation(false)]
        loop
            invariant
                self@.dom().finite(),
                search(self@, stacked(pending@), col_name@, visited@) == goal,
            decreases unopened(self@, visited@), pending@.len(),
        {
            let ghost all = stacked(pending@);
            let stem = match pending.pop() {
                Some(stem) => stem,
                None => {
                    return None;
                },
            };
            assert(all.skip(1) =~= stacked(pending@));
            assert(all[0] == stem@);
            let folded = lowercase(stem);
            if visited.contains(folded.as_str()) {
                continue;
            }
            proof {
                lemma_unopened(self@, visited@, stem@);
            }
            visited.insert(folded);
            if let Some(file) = self.get_file(stem) {
                if let Some(field) = file.find_field(col_name) {
                    return Some(field);
                }
                let ghost before = pending@;
                push_reversed(&mut pending, &file.append_files);
                assert(stacked(pending@) =~= texts(file.append_files@) + stacked(before));
            }
        }
    }
}

/// The texts of a stack of names, the top first.
pub open spec fn stacked(stack: Seq<&str>) -> Seq<Seq<char>> {
    Seq::new(stack.len(), |i: int| stack[stack.len() - 1 - i]@)
}

/// Pushes the names onto the stack so that the first of them is on top.
fn push_reversed<'a>(stack: &mut Vec<&'a str>, names: &'a Vec<String>)
    ensures
        stacked(final(stack)@) == texts(names@) + stacked(old(stack)@),
{
    let mut i: usize = names.len();
    assert(stacked(stack@) =~= texts(names@).skip(i as int) + stacked(old(stack)@));
    while i > 0
        invariant
            i <= names@.len(),
            stacked(stack@) == texts(names@).skip(i as int) + stacked(old(stack)@),
        decreases i,
    {
        i = i - 1;
        let ghost before = stack@;
        stack.push(names[i].as_str());
        assert(stacked(stack@) =~= seq![names@[i as int]@] + stacked(before));
        assert(texts(names@).skip(i as int) =~= seq![names@[i as int]@] + texts(names@).skip(
            i + 1,
        ));
        assert(stacked(stack@) =~= texts(names@).skip(i as int) + stacked(old(stack)@));
    }
    assert(texts(names@).skip(0) =~= texts(names@));
}

impl Default for Schema {
    fn default() -> (result: Schema)
        ensures
            result@ == Map::<Seq<char>, SchemaFile>::empty(),
    {
        Schema::new(Vec::new())
    }
}

// ---------------------------------------------------------------------------
// Reference targets
// ---------------------------------------------------------------------------

/// A set of `(file_stem, column_name)` pairs.
pub struct RefTargets {
    pairs: Vec<(String, String)>,
}

impl View for RefTargets {
    type V = Set<(Seq<char>, Seq<char>)>;

    closed spec fn view(&self) -> Set<(Seq<char>, Seq<char>)> {
        Set::new(
            |p: (Seq<char>, Seq<char>)|
                exists|i: int|
                    0 <= i < self.pairs@.len() && p == (
                        (#[trigger] self.pairs@[i]).0@,
                        self.pairs@[i].1@,
                    ),
        )
    }
}

impl RefTargets {
    /// The empty set.
    pub fn new() -> (result: RefTargets)
        ensures
            result@ == Set::<(Seq<char>, Seq<char>)>::empty(),
    {
        let result = RefTargets { pairs: Vec::new() };
        assert(result@ =~= Set::empty());
        result
    }

    /// True when the pair is in the set.
    pub fn contains(&self, file: &str, column: &str) -> (result: bool)
        ensures
            result == self@.contains((file@, column@)),
    {
        let mut i: usize = 0;
        while i < self.pairs.len()
            invariant
                i <= self.pairs@.len(),
                forall|j: int|
                    0 <= j < i ==> (file@, column@) != (
                        (#[trigger] self.pairs@[j]).0@,
                        self.pairs@[j].1@,
                    ),
            decreases self.pairs@.len() - i,
        {
            let pair = &self.pairs[i];
            if same_text(pair.0.as_str(), file) && same_text(pair.1.as_str(), column) {
                return true;
            }
            i = i + 1;
        }
        false
    }

    /// Adds a pair.
    pub fn insert(&mut self, file: String, column: String)
        ensures
            final(self)@ == old(self)@.insert((file@, column@)),
    {
        if self.contains(file.as_str(), column.as_str()) {
            assert(self@ =~= old(self)@.insert((file@, column@)));
            return;
        }
        let ghost before = self.pairs@;
        let ghost new = (file@, column@);
        self.pairs.push((file, column));
        assert(self@ =~= old(self)@.insert(new)) by {
            assert forall|p: (Seq<char>, Seq<char>)|
                old(self)@.insert(new).contains(p) implies self@.contains(p) by {
                if p == new {
                    assert((self.pairs@[before.len() as int].0@, self.pairs@[before.len() as int].1@)
                        == p);
                } else {
                    let i = choose|i: int|
                        0 <= i < before.len() && p == ((#[trigger] before[i]).0@, before[i].1@);
                    assert(self.pairs@[i] == before[i]);
                }
            }
            assert forall|p: (Seq<char>, Seq<char>)| self@.contains(p) implies old(self)@.insert(
                new,
            ).contains(p) by {
                let i = choose|i: int|
                    0 <= i < self.pairs@.len() && p == (
                        (#[trigger] self.pairs@[i]).0@,
                        self.pairs@[i].1@,
                    );
                if i < before.len() {
                    assert(before[i] == self.pairs@[i]);
                }
            }
        }
    }
}

/// The pair that a `reference` field points at: the stem of the file in lowercase, and
/// the column.
pub open spec fn field_target(field: SchemaField) -> Option<(Seq<char>, Seq<char>)> {
    match field.field_type {
        Some(ft) => if ft.kind == FieldTypeName::Reference && ft.file is Some && ft.field is Some {
            Some((lowercase_of(ft.file->0@), ft.field->0@))
        } else {
            None
        },
        None => None,
    }
}

/// The pairs that the first `n` fields point at.
pub open spec fn targets_of_fields(fields: Seq<SchemaField>, n: int) -> Set<
    (Seq<char>, Seq<char>),
> {
    Set::new(
        |p: (Seq<char>, Seq<char>)|
            exists|i: int| 0 <= i < n && field_target(#[trigger] fields[i]) == Some(p),
    )
}

/// The pairs that `reference` fields anywhere in the schema point at.
pub open spec fn targets_of(files: Map<Seq<char>, SchemaFile>) -> Set<(Seq<char>, Seq<char>)> {
    Set::new(
        |p: (Seq<char>, Seq<char>)|
            exists|stem: Seq<char>|
                #[trigger] files.contains_key(stem) && targets_of_fields(
                    files[stem].fields@,
                    files[stem].fields@.len() as int,
                ).contains(p),
    )
}

/// Adds the pairs that the fields point at.
fn add_targets(fields: &Vec<SchemaField>, targets: &mut RefTargets)
    ensures
        final(targets)@ == old(targets)@.union(
            targets_of_fields(fields@, fields@.len() as int),
        ),
{
    let mut i: usize = 0;
    assert(targets@ =~= old(targets)@.union(targets_of_fields(fields@, 0)));
    while i < fields.len()
        invariant
            i <= fields@.len(),
            targets@ == old(targets)@.union(targets_of_fields(fields@, i as int)),
        decreases fields@.len() - i,
    {
        let ghost before = targets@;
        if let Some(ft) = &fields[i].field_type {
            if ft.kind == FieldTypeName::Reference {
                if let Some(file) = &ft.file {
                    if let Some(column) = &ft.field {
                        targets.insert(lowercase(file.as_str()), column.clone());
                    }
                }
            }
        }
        assert(targets@ =~= old(targets)@.union(targets_of_fields(fields@, i + 1))) by {
            let old_part = targets_of_fields(fields@, i as int);
            let new_part = targets_of_fields(fields@, i + 1);
            assert forall|p: (Seq<char>, Seq<char>)| new_part.contains(p) == (old_part.contains(p)
                || field_target(fields@[i as int]) == Some(p)) by {
                if old_part.contains(p) {
                    let k = choose|k: int|
                        0 <= k < i && field_target(#[trigger] fields@[k]) == Some(p);
                    assert(0 <= k < i + 1);
                }
            }
        }
        i = i + 1;
    }
}

impl Schema {
    /// The set of `(file_stem, column_name)` pairs that are pointed at by `reference`
    /// fields anywhere in the schema.
    pub fn reference_targets(&self) -> (result: RefTargets)
        ensures
            result@ == targets_of(self@),
    {
        proof {
            use_type_invariant(self);
        }
        let mut targets = RefTargets::new();
        let mut i: usize = 0;
        while i < self.stems.len()
            invariant
                i <= self.stems@.len(),
                targets@.subset_of(targets_of(self@)),
                forall|j: int|
                    0 <= j < i && self.files@.contains_key((#[trigger] self.stems@[j])@)
                        ==> targets_of_fields(
                        self.files@[self.stems@[j]@].fields@,
                        self.files@[self.stems@[j]@].fields@.len() as int,
                    ).subset_of(targets@),
            decreases self.stems@.len() - i,
        {
            let ghost stem = self.stems@[i as int]@;
            let ghost before = targets@;
            if let Some(file) = self.files.get(self.stems[i].as_str()) {
                add_targets(&file.fields, &mut targets);
                assert(targets@.subset_of(targets_of(self@))) by {
                    assert(self@.contains_key(stem));
                }
            }
            i = i + 1;
        }
        assert(targets_of(self@).subset_of(targets@)) by {
            assert forall|p: (Seq<char>, Seq<char>)|
                targets_of(self@).contains(p) implies targets@.contains(p) by {
                let stem = choose|stem: Seq<char>|
                    #[trigger] self@.contains_key(stem) && targets_of_fields(
                        self@[stem].fields@,
                        self@[stem].fields@.len() as int,
                    ).contains(p);
                assert(self.files@.contains_key(stem));
                let j = choose|j: int|
                    0 <= j < self.stems@.len() && (#[trigger] self.stems@[j])@ == stem;
                assert(self.files@.contains_key(self.stems@[j]@));
            }
        }
        assert(targets@ =~= targets_of(self@));
        targets
    }
}

// ---------------------------------------------------------------------------
// Enum tables
// ---------------------------------------------------------------------------

/// The code that a row of an enum table declares: its first cell, where that is a text
/// or a number.
pub open spec fn row_code(row: Seq<TableCell>) -> Option<Seq<char>> {
    if row.len() == 0 {
        None
    } else {
        match row[0] {
            TableCell::Text(code) => Some(code@),
            TableCell::Number(code) => Some(code@),
            TableCell::Other => None,
        }
    }
}

/// The codes of the first `n` rows of an enum table, in order.
pub open spec fn table_codes(rows: Seq<Vec<TableCell>>, n: int) -> Seq<Seq<char>>
    decreases n,
{
    if n <= 0 {
        Seq::empty()
    } else {
        match row_code(rows[n - 1]@) {
            Some(code) => table_codes(rows, n - 1).push(code),
            None => table_codes(rows, n - 1),
        }
    }
}

/// The codes of the enum table that the field `column` of the file `file` holds.
pub open spec fn enum_codes(
    files: Map<Seq<char>, SchemaFile>,
    file: Seq<char>,
    column: Seq<char>,
) -> Option<Seq<Seq<char>>> {
    match file_in(files, file) {
        Some(entry) => match entry.field(column) {
            Some(field) => match field.table {
                Some(rows) => Some(table_codes(rows@, rows@.len() as int)),
                None => None,
            },
            None => None,
        },
        None => None,
    }
}

impl Schema {
    /// The values that the enum table of a reference target allows, where the target is
    /// a field with such a table.
    pub fn enum_values_for_target(&self, file: &str, column: &str) -> (result: Option<Vec<String>>)
        ensures
            match result {
                Some(values) => enum_codes(self@, file@, column@) == Some(texts(values@)),
                None => enum_codes(self@, file@, column@) is None,
            },
    {
        let rows = match self.get_file(file) {
            Some(entry) => match entry.find_field(column) {
                Some(field) => match &field.table {
                    Some(rows) => rows,
                    None => {
                        return None;
                    },
                },
                None => {
                    return None;
                },
            },
            None => {
                return None;
            },
        };
        let mut values: Vec<String> = Vec::new();
        let mut i: usize = 0;
        assert(texts(values@) =~= table_codes(rows@, 0));
        while i < rows.len()
            invariant
                i <= rows@.len(),
                texts(values@) == table_codes(rows@, i as int),
            decreases rows@.len() - i,
        {
            let ghost before = values@;
            let row = &rows[i];
            if row.len() > 0 {
                match &row[0] {
                    TableCell::Text(code) => {
                        values.push(code.clone());
                        assert(texts(values@) =~= texts(before).push(code@));
                    },
                    TableCell::Number(code) => {
                        values.push(code.clone());
                        assert(texts(values@) =~= texts(before).push(code@));
                    },
                    TableCell::Other => {},
                }
            }
            i = i + 1;
        }
        Some(values)
    }
}

// ---------------------------------------------------------------------------
// Laws of the search
// ---------------------------------------------------------------------------

/// True when the file `a` appends the file `b`.
pub open spec fn appends(files: Map<Seq<char>, SchemaFile>, a: Seq<char>, b: Seq<char>) -> bool {
    match file_in(files, a) {
        Some(file) => has_name(file.append_files@, b),
        None => false,
    }
}

/// True when `steps` steps along appended files lead from `a` to `b`.
pub open spec fn leads_to(
    files: Map<Seq<char>, SchemaFile>,
    a: Seq<char>,
    b: Seq<char>,
    steps: nat,
) -> bool
    decreases steps,
{
    if steps == 0 {
        a == b
    } else {
        exists|mid: Seq<char>|
            leads_to(files, a, mid, (steps - 1) as nat) && #[trigger] appends(files, mid, b)
    }
}

/// True when the chain of appended files leads from `a` to `b`.
pub open spec fn reaches(files: Map<Seq<char>, SchemaFile>, a: Seq<char>, b: Seq<char>) -> bool {
    exists|steps: nat| leads_to(files, a, b, steps)
}

/// True when the file `stem` itself declares `field` for `col_name`.
pub open spec fn declares(
    files: Map<Seq<char>, SchemaFile>,
    stem: Seq<char>,
    col_name: Seq<char>,
    field: SchemaField,
) -> bool {
    match file_in(files, stem) {
        Some(file) => file.field(col_name) == Some(field),
        None => false,
    }
}

/// True when names reached from `start` that differ in case only stand for one file.
pub open spec fn one_file_per_name(files: Map<Seq<char>, SchemaFile>, start: Seq<char>) -> bool {
    forall|a: Seq<char>, b: Seq<char>|
        #[trigger] reaches(files, start, a) && #[trigger] reaches(files, start, b) && lowercase_of(
            a,
        ) == lowercase_of(b) ==> file_in(files, a) == file_in(files, b)
}

proof fn lemma_reaches_step(
    files: Map<Seq<char>, SchemaFile>,
    start: Seq<char>,
    a: Seq<char>,
    b: Seq<char>,
)
    requires
        reaches(files, start, a),
        appends(files, a, b),
    ensures
        reaches(files, start, b),
{
    let steps = choose|steps: nat| leads_to(files, start, a, steps);
    assert(leads_to(files, start, b, steps + 1));
}

/// The files that `file` appends are reached where the file is, and the rest of the
/// pending names still are.
proof fn lemma_pending_reached(
    files: Map<Seq<char>, SchemaFile>,
    start: Seq<char>,
    pending: Seq<Seq<char>>,
    file: SchemaFile,
)
    requires
        pending.len() > 0,
        file_in(files, pending[0]) == Some(file),
        forall|i: int| 0 <= i < pending.len() ==> reaches(files, start, #[trigger] pending[i]),
    ensures
        ({
            let next = texts(file.append_files@) + pending.skip(1);
            forall|i: int| 0 <= i < next.len() ==> reaches(files, start, #[trigger] next[i])
        }),
{
    let next = texts(file.append_files@) + pending.skip(1);
    let n = file.append_files@.len();
    assert forall|i: int| 0 <= i < next.len() implies reaches(files, start, #[trigger] next[i]) by {
        if i < n {
            assert(next[i] == file.append_files@[i]@);
            lemma_reaches_step(files, start, pending[0], next[i]);
        } else {
            assert(next[i] == pending[i - n + 1]);
        }
    }
}

/// A field that the search gives is declared by a file that the search may look at.
proof fn lemma_search_sound(
    files: Map<Seq<char>, SchemaFile>,
    start: Seq<char>,
    pending: Seq<Seq<char>>,
    col_name: Seq<char>,
    visited: Set<Seq<char>>,
)
    requires
        files.dom().finite(),
        forall|i: int| 0 <= i < pending.len() ==> reaches(files, start, #[trigger] pending[i]),
    ensures
        match search(files, pending, col_name, visited) {
            Some(field) => exists|stem: Seq<char>| #[trigger]
                reaches(files, start, stem) && declares(files, stem, col_name, field),
            None => true,
        },
    decreases unopened(files, visited), pending.len(),
{
    if pending.len() > 0 {
        let stem = pending[0];
        let folded = lowercase_of(stem);
        if visited.contains(folded) {
            lemma_search_sound(files, start, pending.skip(1), col_name, visited);
        } else {
            lemma_unopened(files, visited, stem);
            match file_in(files, stem) {
                None => {
                    lemma_search_sound(
                        files,
                        start,
                        pending.skip(1),
                        col_name,
                        visited.insert(folded),
                    );
                },
                Some(file) => {
                    if file.field(col_name) is None {
                        lemma_pending_reached(files, start, pending, file);
                        lemma_search_sound(
                            files,
                            start,
                            texts(file.append_files@) + pending.skip(1),
                            col_name,
                            visited.insert(folded),
                        );
                    }
                },
            }
        }
    }
}

/// True when the file `stem` has no field for `col_name`, and every file that it appends
/// is among `names` once its name is in lowercase.
spec fn settled(
    files: Map<Seq<char>, SchemaFile>,
    stem: Seq<char>,
    col_name: Seq<char>,
    names: Set<Seq<char>>,
) -> bool {
    match file_in(files, stem) {
        Some(file) => {
            &&& file.field(col_name) is None
            &&& forall|b: Seq<char>| #[trigger]
                has_name(file.append_files@, b) ==> names.contains(lowercase_of(b))
        },
        None => true,
    }
}

/// True when a settled file reached from `start` has the name `folded` in lowercase.
spec fn witnessed(
    files: Map<Seq<char>, SchemaFile>,
    start: Seq<char>,
    col_name: Seq<char>,
    folded: Seq<char>,
    names: Set<Seq<char>>,
) -> bool {
    exists|stem: Seq<char>| #[trigger]
        reaches(files, start, stem) && lowercase_of(stem) == folded && settled(
            files,
            stem,
            col_name,
            names,
        )
}

/// The names that a search has visited or is about to visit, in lowercase.
spec fn known_names(pending: Seq<Seq<char>>, visited: Set<Seq<char>>) -> Set<Seq<char>> {
    Set::new(
        |x: Seq<char>|
            visited.contains(x) || exists|i: int|
                0 <= i < pending.len() && lowercase_of(#[trigger] pending[i]) == x,
    )
}

proof fn lemma_witnessed_more(
    files: Map<Seq<char>, SchemaFile>,
    start: Seq<char>,
    col_name: Seq<char>,
    folded: Seq<char>,
    names: Set<Seq<char>>,
    more: Set<Seq<char>>,
)
    requires
        witnessed(files, start, col_name, folded, names),
        names.subset_of(more),
    ensures
        witnessed(files, start, col_name, folded, more),
{
    let stem = choose|stem: Seq<char>| #[trigger]
        reaches(files, start, stem) && lowercase_of(stem) == folded && settled(
            files,
            stem,
            col_name,
            names,
        );
    assert(settled(files, stem, col_name, more));
}

/// A search that finds nothing has settled every name it knew of.
proof fn lemma_search_settles(
    files: Map<Seq<char>, SchemaFile>,
    start: Seq<char>,
    pending: Seq<Seq<char>>,
    col_name: Seq<char>,
    visited: Set<Seq<char>>,
) -> (names: Set<Seq<char>>)
    requires
        files.dom().finite(),
        search(files, pending, col_name, visited) is None,
        forall|i: int| 0 <= i < pending.len() ==> reaches(files, start, #[trigger] pending[i]),
        forall|x: Seq<char>| #[trigger]
            visited.contains(x) ==> witnessed(
                files,
                start,
                col_name,
                x,
                known_names(pending, visited),
            ),
    ensures
        known_names(pending, visited).subset_of(names),
        forall|x: Seq<char>| #[trigger]
            names.contains(x) ==> witnessed(files, start, col_name, x, names),
    decreases unopened(files, visited), pending.len(),
{
    let known = known_names(pending, visited);
    if pending.len() == 0 {
        assert(known =~= visited);
        visited
    } else {
        let stem = pending[0];
        let folded = lowercase_of(stem);
        let rest = pending.skip(1);
        if visited.contains(folded) {
            let next = known_names(rest, visited);
            assert(known.subset_of(next)) by {
                assert forall|x: Seq<char>| #[trigger] known.contains(x) implies next.contains(
                    x,
                ) by {
                    if !visited.contains(x) {
                        let i = choose|i: int|
                            0 <= i < pending.len() && lowercase_of(#[trigger] pending[i]) == x;
                        assert(rest[i - 1] == pending[i]);
                    }
                }
            }
            assert forall|x: Seq<char>| #[trigger] visited.contains(x) implies witnessed(
                files,
                start,
                col_name,
                x,
                next,
            ) by {
                lemma_witnessed_more(files, start, col_name, x, known, next);
            }
            lemma_search_settles(files, start, rest, col_name, visited)
        } else {
            lemma_unopened(files, visited, stem);
            let after = visited.insert(folded);
            let more = match file_in(files, stem) {
                Some(file) => texts(file.append_files@),
                None => Seq::empty(),
            };
            let queue = more + rest;
            let next = known_names(queue, after);
            assert(known.subset_of(next)) by {
                assert forall|x: Seq<char>| #[trigger] known.contains(x) implies next.contains(
                    x,
                ) by {
                    if !after.contains(x) {
                        let i = choose|i: int|
                            0 <= i < pending.len() && lowercase_of(#[trigger] pending[i]) == x;
                        assert(queue[more.len() + i - 1] == pending[i]);
                    }
                }
            }
            assert(settled(files, stem, col_name, next)) by {
                match file_in(files, stem) {
                    Some(file) => {
                        assert forall|b: Seq<char>| #[trigger]
                            has_name(file.append_files@, b) implies next.contains(
                            lowercase_of(b),
                        ) by {
                            let i = choose|i: int|
                                0 <= i < file.append_files@.len() && (
                                #[trigger] file.append_files@[i])@ == b;
                            assert(queue[i] == b);
                        }
                    },
                    None => {},
                }
            }
            assert forall|x: Seq<char>| #[trigger] after.contains(x) implies witnessed(
                files,
                start,
                col_name,
                x,
                next,
            ) by {
                if visited.contains(x) {
                    lemma_witnessed_more(files, start, col_name, x, known, next);
                } else {
                    assert(reaches(files, start, stem));
                }
            }
            match file_in(files, stem) {
                Some(file) => {
                    lemma_pending_reached(files, start, pending, file);
                },
                None => {
                    assert(queue =~= rest);
                },
            }
            lemma_search_settles(files, start, queue, col_name, after)
        }
    }
}

/// Where names that differ in case stand for one file, every file reached has its name
/// among settled names that hold the start.
proof fn lemma_reached_settled(
    files: Map<Seq<char>, SchemaFile>,
    start: Seq<char>,
    col_name: Seq<char>,
    names: Set<Seq<char>>,
    stem: Seq<char>,
    steps: nat,
)
    requires
        one_file_per_name(files, start),
        names.contains(lowercase_of(start)),
        forall|x: Seq<char>| #[trigger]
            names.contains(x) ==> witnessed(files, start, col_name, x, names),
        leads_to(files, start, stem, steps),
    ensures
        names.contains(lowercase_of(stem)),
        settled(files, stem, col_name, names),
    decreases steps,
{
    assert(reaches(files, start, stem));
    if steps > 0 {
        let mid = choose|mid: Seq<char>|
            leads_to(files, start, mid, (steps - 1) as nat) && #[trigger] appends(
                files,
                mid,
                stem,
            );
        lemma_reached_settled(files, start, col_name, names, mid, (steps - 1) as nat);
    }
    assert(witnessed(files, start, col_name, lowercase_of(stem), names));
}

/// A field found for a column is declared by the file itself or by a file that the chain
/// of appended files leads to. Where names that differ in case only stand for one file,
/// the search misses none: a column without a result is declared by no such file.
pub proof fn law_search_follows_the_chain(
    files: Map<Seq<char>, SchemaFile>,
    start: Seq<char>,
    col_name: Seq<char>,
)
    requires
        files.dom().finite(),
    ensures
        match search(files, seq![start], col_name, Set::empty()) {
            Some(field) => exists|stem: Seq<char>| #[trigger]
                reaches(files, start, stem) && declares(files, stem, col_name, field),
            None => one_file_per_name(files, start) ==> forall|
                stem: Seq<char>,
                field: SchemaField,
            | #[trigger]
                reaches(files, start, stem) ==> !#[trigger] declares(
                    files,
                    stem,
                    col_name,
                    field,
                ),
        },
{
    assert(leads_to(files, start, start, 0));
    assert(reaches(files, start, start));
    lemma_search_sound(files, start, seq![start], col_name, Set::empty());
    if search(files, seq![start], col_name, Set::empty()) is None && one_file_per_name(files, start) {
        let names = lemma_search_settles(files, start, seq![start], col_name, Set::empty());
        assert(known_names(seq![start], Set::empty()).contains(lowercase_of(start))) by {
            assert(seq![start][0] == start);
        }
        assert forall|stem: Seq<char>, field: SchemaField| #[trigger]
            reaches(files, start, stem) implies !#[trigger] declares(
            files,
            stem,
            col_name,
            field,
        ) by {
            let steps = choose|steps: nat| leads_to(files, start, stem, steps);
            lemma_reached_settled(files, start, col_name, names, stem, steps);
        }
    }
}

proof fn lemma_first_field(fields: Seq<SchemaField>, col_name: Seq<char>, from: int)
    requires
        0 <= from,
    ensures
        match first_field(fields, col_name, from) {
            Some(field) => exists|i: int| 0 <= i < fields.len() && #[trigger] fields[i] == field,
            None => true,
        },
    decreases fields.len() - from,
{
    if from < fields.len() && !fields[from].goes_by(col_name) {
        lemma_first_field(fields, col_name, from + 1);
    }
}

/// A column that is found to be a complete reference points at one of the schema's
/// reference targets.
pub proof fn law_reference_column_has_a_target(
    files: Map<Seq<char>, SchemaFile>,
    start: Seq<char>,
    col_name: Seq<char>,
)
    requires
        files.dom().finite(),
    ensures
        match search(files, seq![start], col_name, Set::empty()) {
            Some(field) => match field_target(field) {
                Some(target) => targets_of(files).contains(target),
                None => true,
            },
            None => true,
        },
{
    let found = search(files, seq![start], col_name, Set::empty());
    if found is Some {
        let field = found->0;
        assert(leads_to(files, start, start, 0));
        assert(reaches(files, start, start));
        lemma_search_sound(files, start, seq![start], col_name, Set::empty());
        let stem = choose|stem: Seq<char>| #[trigger]
            reaches(files, start, stem) && declares(files, stem, col_name, field);
        let key = if files.contains_key(stem) {
            stem
        } else {
            lowercase_of(stem)
        };
        assert(files.contains_key(key));
        lemma_first_field(files[key].fields@, col_name, 0);
    }
}

/// What a file declares itself comes before what it shares with other files.
pub proof fn law_own_field_first(
    files: Map<Seq<char>, SchemaFile>,
    stem: Seq<char>,
    col_name: Seq<char>,
    field: SchemaField,
)
    requires
        files.dom().finite(),
        declares(files, stem, col_name, field),
    ensures
        search(files, seq![stem], col_name, Set::empty()) == Some(field),
{
    assert(seq![stem][0] == stem);
}

// ---------------------------------------------------------------------------
// Laws of lookups
// ---------------------------------------------------------------------------

/// The lookup from position `from` on gives the first field that has the column among its
/// names.
proof fn lemma_first_field_names(fields: Seq<SchemaField>, col_name: Seq<char>, from: int)
    requires
        0 <= from,
    ensures
        match first_field(fields, col_name, from) {
            Some(f) => exists|i: int|
                from <= i < fields.len() && #[trigger] fields[i] == f && (f.name@ == col_name
                    || exists|k: int|
                    0 <= k < f.alt_names@.len() && (#[trigger] f.alt_names@[k])@ == col_name)
                    && forall|j: int|
                    from <= j < i ==> (#[trigger] fields[j]).name@ != col_name && forall|k: int|
                        0 <= k < fields[j].alt_names@.len() ==> (
                        #[trigger] fields[j].alt_names@[k])@ != col_name,
            None => forall|j: int|
                from <= j < fields.len() ==> (#[trigger] fields[j]).name@ != col_name && forall|
                    k: int,
                |
                    0 <= k < fields[j].alt_names@.len() ==> (#[trigger] fields[j].alt_names@[k])@
                        != col_name,
        },
    decreases fields.len() - from,
{
    if from < fields.len() {
        let field = fields[from];
        if field.goes_by(col_name) {
            assert(fields[from] == field);
        } else {
            assert forall|k: int| 0 <= k < field.alt_names@.len() implies (
            #[trigger] field.alt_names@[k])@ != col_name by {
                assert(!has_name(field.alt_names@, col_name));
            }
            lemma_first_field_names(fields, col_name, from + 1);
            match first_field(fields, col_name, from + 1) {
                Some(f) => {
                    let i = choose|i: int|
                        from + 1 <= i < fields.len() && #[trigger] fields[i] == f && (f.name@
                            == col_name || exists|k: int|
                            0 <= k < f.alt_names@.len() && (#[trigger] f.alt_names@[k])@
                                == col_name) && forall|j: int|
                            from + 1 <= j < i ==> (#[trigger] fields[j]).name@ != col_name
                                && forall|k: int|
                                0 <= k < fields[j].alt_names@.len() ==> (
                                #[trigger] fields[j].alt_names@[k])@ != col_name;
                    assert(fields[i] == f);
                },
                None => {},
            }
        }
    }
}

/// A file's lookup gives the first field whose name, or one of whose alternative names,
/// whichever it is, is the column; there is none exactly where no field has that name.
pub proof fn law_field_goes_by_any_name(file: SchemaFile, col_name: Seq<char>)
    ensures
        match file.field(col_name) {
            Some(f) => exists|i: int|
                0 <= i < file.fields@.len() && #[trigger] file.fields@[i] == f && (f.name@
                    == col_name || exists|k: int|
                    0 <= k < f.alt_names@.len() && (#[trigger] f.alt_names@[k])@ == col_name)
                    && forall|j: int|
                    0 <= j < i ==> (#[trigger] file.fields@[j]).name@ != col_name && forall|k: int|
                        0 <= k < file.fields@[j].alt_names@.len() ==> (
                        #[trigger] file.fields@[j].alt_names@[k])@ != col_name,
            None => forall|j: int|
                0 <= j < file.fields@.len() ==> (#[trigger] file.fields@[j]).name@ != col_name
                    && forall|k: int|
                    0 <= k < file.fields@[j].alt_names@.len() ==> (
                    #[trigger] file.fields@[j].alt_names@[k])@ != col_name,
        },
{
    lemma_first_field_names(file.fields@, col_name, 0);
}

/// The entry for a file is the one under the very stem, where there is one, and otherwise
/// the one under the stem in lowercase.
pub proof fn law_entry_of_a_file(files: Map<Seq<char>, SchemaFile>, stem: Seq<char>, entry: SchemaFile)
    ensures
        file_in(files.insert(stem, entry), stem) == Some(entry),
        lowercase_of(stem) != stem ==> file_in(
            files.remove(stem).insert(lowercase_of(stem), entry),
            stem,
        ) == Some(entry),
        file_in(files.remove(stem).remove(lowercase_of(stem)), stem) is None,
{
}

/// What the last entry for a stem says is what the schema holds for it.
pub proof fn law_last_entry_counts(entries: Seq<(String, SchemaFile)>, i: int)
    requires
        0 <= i < entries.len(),
        forall|j: int| i < j < entries.len() ==> (#[trigger] entries[j]).0@ != entries[i].0@,
    ensures
        entry_map(entries).contains_key(entries[i].0@),
        entry_map(entries)[entries[i].0@] == entries[i].1,
    decreases entries.len(),
{
    let n = entries.len() - 1;
    let rest = entries.drop_last();
    if i < n {
        assert(rest[i] == entries[i]);
        assert forall|j: int| i < j < rest.len() implies (#[trigger] rest[j]).0@ != rest[i].0@ by {
            assert(rest[j] == entries[j]);
        }
        law_last_entry_counts(rest, i);
        assert(entries[n].0@ != entries[i].0@);
    }
}

/// A schema holds no stem that no entry has.
pub proof fn law_every_stem_has_an_entry(entries: Seq<(String, SchemaFile)>, stem: Seq<char>)
    requires
        entry_map(entries).contains_key(stem),
    ensures
        exists|i: int| 0 <= i < entries.len() && (#[trigger] entries[i]).0@ == stem,
    decreases entries.len(),
{
    let n = entries.len() - 1;
    let rest = entries.drop_last();
    assert(entries[n] == entries.last());
    if entries.last().0@ != stem {
        law_every_stem_has_an_entry(rest, stem);
        let i = choose|i: int| 0 <= i < rest.len() && (#[trigger] rest[i]).0@ == stem;
        assert(entries[i] == rest[i]);
    }
}

/// The reference targets are exactly the file, in lowercase, and column of each complete
/// reference field that some file of the schema declares.
pub proof fn law_reference_targets(
    files: Map<Seq<char>, SchemaFile>,
    file: Seq<char>,
    column: Seq<char>,
)
    ensures
        targets_of(files).contains((file, column)) <==> exists|stem: Seq<char>, i: int|
            #![trigger files.contains_key(stem), files[stem].fields@[i]]
            files.contains_key(stem) && 0 <= i < files[stem].fields@.len()
                && match files[stem].fields@[i].field_type {
                Some(ft) => ft.kind == FieldTypeName::Reference && ft.file is Some && ft.field
                    is Some && lowercase_of(ft.file->0@) == file && ft.field->0@ == column,
                None => false,
            },
{
    let p = (file, column);
    if targets_of(files).contains(p) {
        let stem = choose|stem: Seq<char>|
            #[trigger] files.contains_key(stem) && targets_of_fields(
                files[stem].fields@,
                files[stem].fields@.len() as int,
            ).contains(p);
        let fields = files[stem].fields@;
        let i = choose|i: int|
            0 <= i < fields.len() && field_target(#[trigger] fields[i]) == Some(p);
        assert(files.contains_key(stem) && files[stem].fields@[i] == fields[i]);
    }
    assert forall|stem: Seq<char>, i: int|
        #![trigger files.contains_key(stem), files[stem].fields@[i]]
        files.contains_key(stem) && 0 <= i < files[stem].fields@.len()
            && match files[stem].fields@[i].field_type {
            Some(ft) => ft.kind == FieldTypeName::Reference && ft.file is Some && ft.field is Some
                && lowercase_of(ft.file->0@) == file && ft.field->0@ == column,
            None => false,
        } implies targets_of(files).contains(p) by {
        assert(field_target(files[stem].fields@[i]) == Some(p));
    }
}

/// The codes of the first `n` rows are the texts and numbers that stand first in a row.
proof fn lemma_table_codes(rows: Seq<Vec<TableCell>>, n: int, code: Seq<char>)
    requires
        0 <= n <= rows.len(),
    ensures
        table_codes(rows, n).contains(code) <==> exists|r: int|
            0 <= r < n && (#[trigger] rows[r])@.len() > 0 && match rows[r]@[0] {
                TableCell::Text(s) => s@ == code,
                TableCell::Number(s) => s@ == code,
                TableCell::Other => false,
            },
    decreases n,
{
    if n > 0 {
        lemma_table_codes(rows, n - 1, code);
        let before = table_codes(rows, n - 1);
        match row_code(rows[n - 1]@) {
            Some(c) => {
                assert(before.push(c)[before.len() as int] == c);
                if before.contains(code) {
                    let i = choose|i: int| 0 <= i < before.len() && before[i] == code;
                    assert(before.push(c)[i] == code);
                }
            },
            None => {},
        }
    }
}

/// The codes of a reference target are the texts and numbers that stand first in the rows
/// of the table of the target's field: every such row counts, and nothing else does.
pub proof fn law_codes_of_a_table(
    files: Map<Seq<char>, SchemaFile>,
    file: Seq<char>,
    column: Seq<char>,
    entry: SchemaFile,
    field: SchemaField,
    table: Vec<Vec<TableCell>>,
    code: Seq<char>,
)
    requires
        file_in(files, file) == Some(entry),
        entry.field(column) == Some(field),
        field.table == Some(table),
    ensures
        enum_codes(files, file, column) is Some,
        enum_codes(files, file, column)->0.contains(code) <==> exists|r: int|
            0 <= r < table@.len() && (#[trigger] table@[r])@.len() > 0 && match table@[r]@[0] {
                TableCell::Text(s) => s@ == code,
                TableCell::Number(s) => s@ == code,
                TableCell::Other => false,
            },
{
    lemma_table_codes(table@, table@.len() as int, code);
}

// ---------------------------------------------------------------------------
// Laws of the order of the search
// ---------------------------------------------------------------------------

/// A column that, of all files that the chain of appended files leads to, one field alone
/// is declared for, is found to be that field, however far along the chain it stands.
pub proof fn law_only_declaration_is_found(
    files: Map<Seq<char>, SchemaFile>,
    start: Seq<char>,
    col_name: Seq<char>,
    stem: Seq<char>,
    field: SchemaField,
)
    requires
        files.dom().finite(),
        one_file_per_name(files, start),
        reaches(files, start, stem),
        declares(files, stem, col_name, field),
        forall|other: Seq<char>, f: SchemaField| #[trigger]
            reaches(files, start, other) && #[trigger] declares(files, other, col_name, f) ==> f
                == field,
    ensures
        search(files, seq![start], col_name, Set::empty()) == Some(field),
{
    law_search_follows_the_chain(files, start, col_name);
}

/// A step at the front of a chain.
proof fn lemma_leads_from(
    files: Map<Seq<char>, SchemaFile>,
    a: Seq<char>,
    b: Seq<char>,
    c: Seq<char>,
    steps: nat,
)
    requires
        appends(files, a, b),
        leads_to(files, b, c, steps),
    ensures
        leads_to(files, a, c, steps + 1),
    decreases steps,
{
    if steps == 0 {
        assert(leads_to(files, a, a, 0));
    } else {
        let mid = choose|mid: Seq<char>|
            leads_to(files, b, mid, (steps - 1) as nat) && #[trigger] appends(files, mid, c);
        lemma_leads_from(files, a, b, mid, (steps - 1) as nat);
    }
}

/// True when no file that the chain leads to from `a` declares the column.
pub open spec fn barren(
    files: Map<Seq<char>, SchemaFile>,
    a: Seq<char>,
    col_name: Seq<char>,
) -> bool {
    forall|stem: Seq<char>, f: SchemaField| #[trigger]
        reaches(files, a, stem) ==> !#[trigger] declares(files, stem, col_name, f)
}

proof fn lemma_barren(files: Map<Seq<char>, SchemaFile>, a: Seq<char>, col_name: Seq<char>)
    requires
        barren(files, a, col_name),
    ensures
        match file_in(files, a) {
            Some(file) => file.field(col_name) is None,
            None => true,
        },
        forall|b: Seq<char>| #[trigger] appends(files, a, b) ==> barren(files, b, col_name),
{
    assert(leads_to(files, a, a, 0));
    assert(reaches(files, a, a));
    if let Some(file) = file_in(files, a) {
        if let Some(f) = file.field(col_name) {
            assert(declares(files, a, col_name, f));
        }
    }
    assert forall|b: Seq<char>| #[trigger] appends(files, a, b) implies barren(
        files,
        b,
        col_name,
    ) by {
        assert forall|stem: Seq<char>, f: SchemaField| #[trigger]
            reaches(files, b, stem) implies !#[trigger] declares(files, stem, col_name, f) by {
            let steps = choose|steps: nat| leads_to(files, b, stem, steps);
            lemma_leads_from(files, a, b, stem, steps);
            assert(reaches(files, a, stem));
        }
    }
}

/// True when a name reached from `start` that is `folded` in lowercase declares nothing for
/// the column.
spec fn quiet(
    files: Map<Seq<char>, SchemaFile>,
    start: Seq<char>,
    col_name: Seq<char>,
    folded: Seq<char>,
) -> bool {
    exists|stem: Seq<char>| #[trigger]
        reaches(files, start, stem) && lowercase_of(stem) == folded && match file_in(files, stem) {
            Some(file) => file.field(col_name) is None,
            None => true,
        }
}

/// The search passes over files that lead to no declaration.
proof fn lemma_search_passes(
    files: Map<Seq<char>, SchemaFile>,
    start: Seq<char>,
    pre: Seq<Seq<char>>,
    post: Seq<Seq<char>>,
    col_name: Seq<char>,
    field: SchemaField,
    visited: Set<Seq<char>>,
)
    requires
        files.dom().finite(),
        one_file_per_name(files, start),
        post.len() > 0,
        reaches(files, start, post[0]),
        declares(files, post[0], col_name, field),
        forall|i: int|
            0 <= i < pre.len() ==> reaches(files, start, #[trigger] pre[i]) && barren(
                files,
                pre[i],
                col_name,
            ),
        forall|x: Seq<char>| #[trigger]
            visited.contains(x) ==> quiet(files, start, col_name, x),
    ensures
        search(files, pre + post, col_name, visited) == Some(field),
    decreases unopened(files, visited), pre.len(),
{
    let whole = pre + post;
    if pre.len() == 0 {
        assert(whole =~= post);
        if visited.contains(lowercase_of(post[0])) {
            assert(quiet(files, start, col_name, lowercase_of(post[0])));
            assert(false);
        }
    } else {
        let stem = pre[0];
        let folded = lowercase_of(stem);
        let rest = pre.skip(1);
        assert(whole[0] == stem);
        assert(whole.skip(1) =~= rest + post);
        assert(barren(files, stem, col_name));
        assert(reaches(files, start, stem));
        lemma_barren(files, stem, col_name);
        assert forall|i: int| 0 <= i < rest.len() implies reaches(
            files,
            start,
            #[trigger] rest[i],
        ) && barren(files, rest[i], col_name) by {
            assert(rest[i] == pre[i + 1]);
        }
        if visited.contains(folded) {
            lemma_search_passes(files, start, rest, post, col_name, field, visited);
        } else {
            lemma_unopened(files, visited, stem);
            let after = visited.insert(folded);
            assert(quiet(files, start, col_name, folded));
            match file_in(files, stem) {
                None => {
                    lemma_search_passes(files, start, rest, post, col_name, field, after);
                },
                Some(file) => {
                    let next = texts(file.append_files@) + rest;
                    let n = file.append_files@.len();
                    assert forall|i: int| 0 <= i < next.len() implies reaches(
                        files,
                        start,
                        #[trigger] next[i],
                    ) && barren(files, next[i], col_name) by {
                        if i < n {
                            assert(next[i] == file.append_files@[i]@);
                            assert(appends(files, stem, next[i]));
                            lemma_reaches_step(files, start, stem, next[i]);
                        } else {
                            assert(next[i] == rest[i - n]);
                        }
                    }
                    lemma_search_passes(files, start, next, post, col_name, field, after);
                    assert(next + post =~= texts(file.append_files@) + whole.skip(1));
                },
            }
        }
    }
}

/// Appended files are searched in the order in which they are listed: what one of them
/// declares is found where the file itself declares nothing and the ones listed before it
/// lead to no declaration.
pub proof fn law_appended_files_in_order(
    files: Map<Seq<char>, SchemaFile>,
    start: Seq<char>,
    col_name: Seq<char>,
    file: SchemaFile,
    m: int,
    field: SchemaField,
)
    requires
        files.dom().finite(),
        one_file_per_name(files, start),
        file_in(files, start) == Some(file),
        file.field(col_name) is None,
        0 <= m < file.append_files@.len(),
        declares(files, file.append_files@[m]@, col_name, field),
        forall|n: int| 0 <= n < m ==> barren(files, (#[trigger] file.append_files@[n])@, col_name),
    ensures
        search(files, seq![start], col_name, Set::empty()) == Some(field),
{
    let names = texts(file.append_files@);
    let pre = names.take(m);
    let post = names.skip(m);
    let visited = Set::<Seq<char>>::empty().insert(lowercase_of(start));
    assert(leads_to(files, start, start, 0));
    assert(reaches(files, start, start));
    assert forall|i: int| 0 <= i < names.len() implies reaches(files, start, #[trigger] names[i]) by {
        assert(names[i] == file.append_files@[i]@);
        assert(appends(files, start, names[i]));
        lemma_reaches_step(files, start, start, names[i]);
    }
    assert forall|i: int| 0 <= i < pre.len() implies reaches(files, start, #[trigger] pre[i])
        && barren(files, pre[i], col_name) by {
        assert(pre[i] == names[i]);
        assert(names[i] == file.append_files@[i]@);
    }
    assert(post[0] == names[m]);
    assert(quiet(files, start, col_name, lowercase_of(start)));
    lemma_search_passes(files, start, pre, post, col_name, field, visited);
    assert(pre + post =~= names);
    assert(seq![start].skip(1) =~= Seq::empty());
    assert(names + Seq::<Seq<char>>::empty() =~= names);
    lemma_unopened(files, Set::empty(), start);
}

/// True when `folded` is the lowercase name of the start, or of a file reached from it that
/// leads to no declaration.
spec fn passed(
    files: Map<Seq<char>, SchemaFile>,
    start: Seq<char>,
    col_name: Seq<char>,
    folded: Seq<char>,
) -> bool {
    exists|stem: Seq<char>| #[trigger]
        reaches(files, start, stem) && lowercase_of(stem) == folded && (stem == start || barren(
            files,
            stem,
            col_name,
        ))
}

/// The search goes on behind files that lead to no declaration; it has then visited only
/// such files.
proof fn lemma_search_arrives(
    files: Map<Seq<char>, SchemaFile>,
    start: Seq<char>,
    pre: Seq<Seq<char>>,
    post: Seq<Seq<char>>,
    col_name: Seq<char>,
    visited: Set<Seq<char>>,
) -> (names: Set<Seq<char>>)
    requires
        files.dom().finite(),
        forall|i: int|
            0 <= i < pre.len() ==> reaches(files, start, #[trigger] pre[i]) && barren(
                files,
                pre[i],
                col_name,
            ),
        forall|x: Seq<char>| #[trigger]
            visited.contains(x) ==> passed(files, start, col_name, x),
    ensures
        search(files, pre + post, col_name, visited) == search(files, post, col_name, names),
        forall|x: Seq<char>| #[trigger] names.contains(x) ==> passed(files, start, col_name, x),
    decreases unopened(files, visited), pre.len(),
{
    let whole = pre + post;
    if pre.len() == 0 {
        assert(whole =~= post);
        visited
    } else {
        let stem = pre[0];
        let folded = lowercase_of(stem);
        let rest = pre.skip(1);
        assert(whole[0] == stem);
        assert(whole.skip(1) =~= rest + post);
        assert(barren(files, stem, col_name));
        assert(reaches(files, start, stem));
        lemma_barren(files, stem, col_name);
        assert forall|i: int| 0 <= i < rest.len() implies reaches(
            files,
            start,
            #[trigger] rest[i],
        ) && barren(files, rest[i], col_name) by {
            assert(rest[i] == pre[i + 1]);
        }
        if visited.contains(folded) {
            lemma_search_arrives(files, start, rest, post, col_name, visited)
        } else {
            lemma_unopened(files, visited, stem);
            let after = visited.insert(folded);
            assert(passed(files, start, col_name, folded));
            match file_in(files, stem) {
                None => lemma_search_arrives(files, start, rest, post, col_name, after),
                Some(file) => {
                    let next = texts(file.append_files@) + rest;
                    let n = file.append_files@.len();
                    assert forall|i: int| 0 <= i < next.len() implies reaches(
                        files,
                        start,
                        #[trigger] next[i],
                    ) && barren(files, next[i], col_name) by {
                        if i < n {
                            assert(next[i] == file.append_files@[i]@);
                            assert(appends(files, stem, next[i]));
                            lemma_reaches_step(files, start, stem, next[i]);
                        } else {
                            assert(next[i] == rest[i - n]);
                        }
                    }
                    assert(next + post =~= texts(file.append_files@) + whole.skip(1));
                    lemma_search_arrives(files, start, next, post, col_name, after)
                },
            }
        }
    }
}

/// An appended file hands the search to the files it appends in turn before the next
/// appended file is looked at, whatever that one declares.
pub proof fn law_search_goes_deep_first(
    files: Map<Seq<char>, SchemaFile>,
    start: Seq<char>,
    col_name: Seq<char>,
    file: SchemaFile,
    m: int,
    inner: SchemaFile,
    n: int,
    field: SchemaField,
)
    requires
        files.dom().finite(),
        one_file_per_name(files, start),
        file_in(files, start) == Some(file),
        file.field(col_name) is None,
        0 <= m < file.append_files@.len(),
        forall|k: int| 0 <= k < m ==> barren(files, (#[trigger] file.append_files@[k])@, col_name),
        lowercase_of(file.append_files@[m]@) != lowercase_of(start),
        file_in(files, file.append_files@[m]@) == Some(inner),
        inner.field(col_name) is None,
        0 <= n < inner.append_files@.len(),
        forall|k: int|
            0 <= k < n ==> barren(files, (#[trigger] inner.append_files@[k])@, col_name),
        declares(files, inner.append_files@[n]@, col_name, field),
    ensures
        search(files, seq![start], col_name, Set::empty()) == Some(field),
{
    let names = texts(file.append_files@);
    let more = texts(inner.append_files@);
    let mid = names[m];
    let goal = more[n];
    assert(mid == file.append_files@[m]@ && goal == inner.append_files@[n]@);
    let visited = Set::<Seq<char>>::empty().insert(lowercase_of(start));
    assert(leads_to(files, start, start, 0));
    assert(reaches(files, start, start));
    assert forall|i: int| 0 <= i < names.len() implies reaches(files, start, #[trigger] names[i]) by {
        assert(names[i] == file.append_files@[i]@);
        assert(appends(files, start, names[i]));
        lemma_reaches_step(files, start, start, names[i]);
    }
    assert forall|i: int| 0 <= i < more.len() implies reaches(files, start, #[trigger] more[i]) by {
        assert(more[i] == inner.append_files@[i]@);
        assert(appends(files, mid, more[i]));
        lemma_reaches_step(files, start, mid, more[i]);
    }
    let pre = names.take(m);
    let post = names.skip(m);
    assert forall|i: int| 0 <= i < pre.len() implies reaches(files, start, #[trigger] pre[i])
        && barren(files, pre[i], col_name) by {
        assert(pre[i] == names[i]);
        assert(names[i] == file.append_files@[i]@);
    }
    assert(passed(files, start, col_name, lowercase_of(start)));
    let seen = lemma_search_arrives(files, start, pre, post, col_name, visited);
    assert(pre + post =~= names);
    assert(names + Seq::<Seq<char>>::empty() =~= names);
    assert(seq![start].skip(1) =~= Seq::empty());
    lemma_unopened(files, Set::empty(), start);
    assert(post[0] == mid);
    assert(appends(files, mid, goal));
    if seen.contains(lowercase_of(mid)) {
        let stem = choose|stem: Seq<char>| #[trigger]
            reaches(files, start, stem) && lowercase_of(stem) == lowercase_of(mid) && (stem
                == start || barren(files, stem, col_name));
        assert(file_in(files, stem) == file_in(files, mid));
        assert(appends(files, stem, goal));
        lemma_barren(files, stem, col_name);
        assert(leads_to(files, goal, goal, 0));
        assert(reaches(files, goal, goal));
        assert(false);
    }
    lemma_unopened(files, seen, mid);
    let after = seen.insert(lowercase_of(mid));
    assert forall|x: Seq<char>| #[trigger] after.contains(x) implies quiet(
        files,
        start,
        col_name,
        x,
    ) by {
        if seen.contains(x) {
            let stem = choose|stem: Seq<char>| #[trigger]
                reaches(files, start, stem) && lowercase_of(stem) == x && (stem == start || barren(
                    files,
                    stem,
                    col_name,
                ));
            if stem != start {
                lemma_barren(files, stem, col_name);
            }
        } else {
            assert(reaches(files, start, mid));
        }
    }
    let first = more.take(n);
    let last = more.skip(n) + post.skip(1);
    assert forall|i: int| 0 <= i < first.len() implies reaches(files, start, #[trigger] first[i])
        && barren(files, first[i], col_name) by {
        assert(first[i] == more[i]);
        assert(more[i] == inner.append_files@[i]@);
    }
    assert(last[0] == goal);
    assert(reaches(files, start, goal));
    lemma_search_passes(files, start, first, last, col_name, field, after);
    assert(first + last =~= more + post.skip(1));
}

/// A file is looked at once, whatever the case its name is written in: names that were all
/// visited lead to nothing.
pub proof fn law_name_is_visited_once(
    files: Map<Seq<char>, SchemaFile>,
    pending: Seq<Seq<char>>,
    col_name: Seq<char>,
    visited: Set<Seq<char>>,
)
    requires
        files.dom().finite(),
        forall|i: int|
            0 <= i < pending.len() ==> visited.contains(lowercase_of(#[trigger] pending[i])),
    ensures
        search(files, pending, col_name, visited) is None,
    decreases pending.len(),
{
    if pending.len() > 0 {
        let rest = pending.skip(1);
        assert(visited.contains(lowercase_of(pending[0])));
        assert forall|i: int| 0 <= i < rest.len() implies visited.contains(
            lowercase_of(#[trigger] rest[i]),
        ) by {
            assert(rest[i] == pending[i + 1]);
        }
        law_name_is_visited_once(files, rest, col_name, visited);
    }
}

/// A file that declares nothing for the column and appends only itself, in whatever case
/// its name is written, has nothing for it.
pub proof fn law_cycle_ends(
    files: Map<Seq<char>, SchemaFile>,
    start: Seq<char>,
    col_name: Seq<char>,
    file: SchemaFile,
)
    requires
        files.dom().finite(),
        file_in(files, start) == Some(file),
        file.field(col_name) is None,
        forall|i: int|
            0 <= i < file.append_files@.len() ==> lowercase_of(
                (#[trigger] file.append_files@[i])@,
            ) == lowercase_of(start),
    ensures
        search(files, seq![start], col_name, Set::empty()) is None,
{
    let names = texts(file.append_files@);
    let visited = Set::<Seq<char>>::empty().insert(lowercase_of(start));
    assert forall|i: int| 0 <= i < names.len() implies visited.contains(
        lowercase_of(#[trigger] names[i]),
    ) by {
        assert(names[i] == file.append_files@[i]@);
    }
    law_name_is_visited_once(files, names, col_name, visited);
    assert(seq![start].skip(1) =~= Seq::empty());
    assert(names + Seq::<Seq<char>>::empty() =~= names);
    lemma_unopened(files, Set::empty(), start);
}

} // verus!
