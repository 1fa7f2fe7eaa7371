//! Delimited data files: a header row, then data rows of cells.

use vstd::prelude::*;
use vstd::string::*;

use crate::text::{first_index, from_chars, lemma_first_index, to_chars};

verus! {

/// One cell of a data row.
#[derive(Debug)]
pub struct Cell {
    pub value: String,
    /// The column, counted in characters from 0, at which the value starts.
    pub col_start: u32,
}

/// One data row.
#[derive(Debug)]
pub struct Row {
    /// The line, counted from 0, on which the row stands.
    pub line: u32,
    pub cells: Vec<Cell>,
}

/// A parsed data file.
#[derive(Debug)]
pub struct DocumentData {
    pub headers: Vec<String>,
    pub rows: Vec<Row>,
}

// ---------------------------------------------------------------------------
// Model
// ---------------------------------------------------------------------------

/// What a cell holds.
pub struct CellView {
    pub value: Seq<char>,
    pub col_start: u32,
}

/// What a row holds.
pub struct RowView {
    pub line: u32,
    pub cells: Seq<CellView>,
}

/// What a data file holds.
pub struct DocumentView {
    pub headers: Seq<Seq<char>>,
    pub rows: Seq<RowView>,
}

impl View for Cell {
    type V = CellView;

    open spec fn view(&self) -> CellView {
        CellView { value: self.value@, col_start: self.col_start }
    }
}

impl View for Row {
    type V = RowView;

    open spec fn view(&self) -> RowView {
        RowView { line: self.line, cells: self.cells@.map_values(|c: Cell| c@) }
    }
}

impl View for DocumentData {
    type V = DocumentView;

    open spec fn view(&self) -> DocumentView {
        DocumentView {
            headers: self.headers@.map_values(|h: String| h@),
            rows: self.rows@.map_values(|r: Row| r@),
        }
    }
}

/// Where piece `i` of a line starts, when a single character stands between pieces.
pub open spec fn start_of(pieces: Seq<Seq<char>>, i: int) -> int
    decreases i,
{
    if i <= 0 {
        0
    } else {
        start_of(pieces, i - 1) + pieces[i - 1].len() + 1
    }
}

impl DocumentView {
    /// True when the end of every header and of every cell fits in 32 bits.
    pub open spec fn fits(self) -> bool {
        &&& start_of(self.headers, self.headers.len() as int) <= u32::MAX + 1
        &&& forall|i: int, j: int| #![trigger self.rows[i].cells[j]]
            0 <= i < self.rows.len() && 0 <= j < self.rows[i].cells.len()
                ==> self.rows[i].cells[j].col_start + self.rows[i].cells[j].value.len() <= u32::MAX
    }
}

// ---------------------------------------------------------------------------
// Splitting
// ---------------------------------------------------------------------------

/// The pieces of `line` between occurrences of `delimiter`.
pub open spec fn split(line: Seq<char>, delimiter: char) -> Seq<Seq<char>>
    decreases line.len(),
    via split_ends
{
    match first_index(line, delimiter) {
        Some(i) => seq![line.take(i)] + split(line.skip(i + 1), delimiter),
        None => seq![line],
    }
}

#[via_fn]
proof fn split_ends(line: Seq<char>, delimiter: char) {
    lemma_first_index(line, delimiter);
}

/// `line` without a carriage return at its end.
pub open spec fn without_return(line: Seq<char>) -> Seq<char> {
    if line.len() > 0 && line.last() == '\r' {
        line.drop_last()
    } else {
        line
    }
}

/// The lines of `text`. A line ends with a line feed, which a carriage return may precede;
/// the last line needs no end.
pub open spec fn lines_of(text: Seq<char>) -> Seq<Seq<char>>
    decreases text.len(),
    via lines_end
{
    if text.len() == 0 {
        Seq::empty()
    } else {
        match first_index(text, '\n') {
            Some(i) => seq![without_return(text.take(i))] + lines_of(text.skip(i + 1)),
            None => seq![text],
        }
    }
}

#[via_fn]
proof fn lines_end(text: Seq<char>) {
    lemma_first_index(text, '\n');
}

/// The cells of a line, each with the column at which it starts.
pub open spec fn cells_of(line: Seq<char>, delimiter: char) -> Seq<CellView> {
    let pieces = split(line, delimiter);
    Seq::new(
        pieces.len(),
        |i: int| CellView { value: pieces[i], col_start: start_of(pieces, i) as u32 },
    )
}

/// What a text holds as a data file: the first line gives the headers, and every other
/// line a row.
pub open spec fn parsed(text: Seq<char>, delimiter: char) -> DocumentView {
    let lines = lines_of(text);
    if lines.len() == 0 {
        DocumentView { headers: Seq::empty(), rows: Seq::empty() }
    } else {
        DocumentView {
            headers: split(lines[0], delimiter),
            rows: Seq::new(
                (lines.len() - 1) as nat,
                |i: int|
                    RowView { line: (i + 1) as u32, cells: cells_of(lines[i + 1], delimiter) },
            ),
        }
    }
}

/// The pieces of a line fill it exactly: with the delimiter between them they have its
/// length.
pub proof fn lemma_split_length(line: Seq<char>, delimiter: char)
    ensures
        split(line, delimiter).len() > 0,
        start_of(split(line, delimiter), split(line, delimiter).len() as int) == line.len() + 1,
    decreases line.len(),
{
    lemma_first_index(line, delimiter);
    let pieces = split(line, delimiter);
    match first_index(line, delimiter) {
        Some(i) => {
            let rest = split(line.skip(i + 1), delimiter);
            lemma_split_length(line.skip(i + 1), delimiter);
            lemma_start_after(pieces, rest, rest.len() as int);
            assert(pieces[0] == line.take(i));
        },
        None => {
            assert(start_of(pieces, 1) == start_of(pieces, 0) + pieces[0].len() + 1);
        },
    }
}

/// Where a line has one piece more at the front, every later piece starts that much later.
proof fn lemma_start_after(pieces: Seq<Seq<char>>, rest: Seq<Seq<char>>, i: int)
    requires
        pieces.len() == rest.len() + 1,
        forall|j: int| 0 <= j < rest.len() ==> pieces[j + 1] == #[trigger] rest[j],
        0 <= i <= rest.len(),
    ensures
        start_of(pieces, i + 1) == pieces[0].len() + 1 + start_of(rest, i),
    decreases i,
{
    if i > 0 {
        lemma_start_after(pieces, rest, i - 1);
        assert(pieces[i] == rest[i - 1]);
    } else {
        assert(start_of(pieces, 1) == start_of(pieces, 0) + pieces[0].len() + 1);
    }
}

/// Starts grow from piece to piece.
proof fn lemma_start_grows(pieces: Seq<Seq<char>>, i: int, j: int)
    requires
        0 <= i <= j <= pieces.len(),
    ensures
        0 <= start_of(pieces, i) <= start_of(pieces, j),
    decreases j,
{
    if j > 0 {
        if i < j {
            lemma_start_grows(pieces, i, j - 1);
        } else {
            lemma_start_grows(pieces, i - 1, j - 1);
        }
    }
}

/// A text has at most as many lines as characters, and no line is longer than the text.
pub proof fn lemma_lines_fit(text: Seq<char>)
    ensures
        lines_of(text).len() <= text.len(),
        forall|i: int| 0 <= i < lines_of(text).len() ==> (#[trigger] lines_of(text)[i]).len()
            <= text.len(),
    decreases text.len(),
{
    lemma_first_index(text, '\n');
    if text.len() > 0 {
        match first_index(text, '\n') {
            Some(i) => {
                let rest = lines_of(text.skip(i + 1));
                lemma_lines_fit(text.skip(i + 1));
                assert forall|k: int| 0 <= k < lines_of(text).len() implies (
                #[trigger] lines_of(text)[k]).len() <= text.len() by {
                    if k > 0 {
                        assert(lines_of(text)[k] == rest[k - 1]);
                    }
                }
            },
            None => {},
        }
    }
}

/// A text of at most `u32::MAX` characters gives a document whose positions fit.
pub proof fn lemma_parsed_fits(text: Seq<char>, delimiter: char)
    requires
        text.len() <= u32::MAX,
    ensures
        parsed(text, delimiter).fits(),
{
    let doc = parsed(text, delimiter);
    let lines = lines_of(text);
    lemma_lines_fit(text);
    if lines.len() > 0 {
        lemma_split_length(lines[0], delimiter);
        assert(lines[0].len() <= text.len());
        assert forall|i: int, j: int| #![trigger doc.rows[i].cells[j]]
            0 <= i < doc.rows.len() && 0 <= j < doc.rows[i].cells.len() implies doc.rows[i].cells[j].col_start
            + doc.rows[i].cells[j].value.len() <= u32::MAX by {
            let line = lines[i + 1];
            let pieces = split(line, delimiter);
            assert(line.len() <= text.len());
            lemma_split_length(line, delimiter);
            lemma_start_grows(pieces, j + 1, pieces.len() as int);
            lemma_start_grows(pieces, 0, j);
            assert(doc.rows[i].cells[j].value == pieces[j]);
        }
    } else {
        assert(start_of(doc.headers, 0) == 0);
    }
}

// ---------------------------------------------------------------------------
// Laws
// ---------------------------------------------------------------------------

/// Piece `i` of a line stands in the line where it is said to start, and holds no
/// delimiter.
proof fn lemma_piece(line: Seq<char>, delimiter: char, i: int)
    requires
        0 <= i < split(line, delimiter).len(),
    ensures
        ({
            let pieces = split(line, delimiter);
            let start = start_of(pieces, i);
            &&& 0 <= start
            &&& start + pieces[i].len() <= line.len()
            &&& pieces[i] == line.subrange(start, start + pieces[i].len())
            &&& !pieces[i].contains(delimiter)
        }),
    decreases line.len(),
{
    lemma_first_index(line, delimiter);
    let pieces = split(line, delimiter);
    match first_index(line, delimiter) {
        Some(k) => {
            let rest = split(line.skip(k + 1), delimiter);
            assert(pieces[0] == line.take(k));
            if i == 0 {
                assert(line.take(k) =~= line.subrange(0, k));
            } else {
                lemma_piece(line.skip(k + 1), delimiter, i - 1);
                lemma_start_after(pieces, rest, i - 1);
                let start = start_of(rest, i - 1);
                assert(pieces[i] == rest[i - 1]);
                assert(line.skip(k + 1).subrange(start, start + pieces[i].len())
                    =~= line.subrange(k + 1 + start, k + 1 + start + pieces[i].len()));
            }
        },
        None => {
            assert(line.subrange(0, line.len() as int) =~= line);
        },
    }
}

/// The value of a cell is what the line holds from the cell's start on, and no delimiter
/// is in it.
pub proof fn law_cell_is_where_it_says(line: Seq<char>, delimiter: char, i: int)
    requires
        line.len() <= u32::MAX,
        0 <= i < cells_of(line, delimiter).len(),
    ensures
        ({
            let cell = cells_of(line, delimiter)[i];
            &&& cell.col_start + cell.value.len() <= line.len()
            &&& cell.value == line.subrange(
                cell.col_start as int,
                cell.col_start + cell.value.len(),
            )
            &&& !cell.value.contains(delimiter)
        }),
{
    lemma_piece(line, delimiter, i);
}

// ---------------------------------------------------------------------------
// Parsing
// ---------------------------------------------------------------------------

/// The first position of `c` in `chars[from..to]`, or `to`.
fn position_of(chars: &Vec<char>, from: usize, to: usize, c: char) -> (result: usize)
    requires
        from <= to <= chars@.len(),
    ensures
        from <= result <= to,
        first_index(chars@.subrange(from as int, to as int), c) == (if result < to {
            Some(result - from)
        } else {
            None::<int>
        }),
{
    let ghost part = chars@.subrange(from as int, to as int);
    proof {
        lemma_first_index(part, c);
    }
    let mut i: usize = from;
    while i < to
        invariant
            from <= i <= to <= chars@.len(),
            part == chars@.subrange(from as int, to as int),
            forall|j: int| 0 <= j < i - from ==> part[j] != c,
            match first_index(part, c) {
                Some(k) => 0 <= k < part.len() && part[k] == c && forall|j: int|
                    0 <= j < k ==> part[j] != c,
                None => !part.contains(c),
            },
        decreases to - i,
    {
        assert(part[i - from] == chars@[i as int]);
        if chars[i] == c {
            return i;
        }
        i = i + 1;
    }
    i
}

/// The cells of the line `chars[from..to]`.
fn split_cells(chars: &Vec<char>, from: usize, to: usize, delimiter: char) -> (result: Vec<Cell>)
    requires
        from <= to <= chars@.len(),
        to - from <= u32::MAX,
    ensures
        result@.map_values(|c: Cell| c@) == cells_of(
            chars@.subrange(from as int, to as int),
            delimiter,
        ),
{
    let ghost line = chars@.subrange(from as int, to as int);
    let ghost pieces = split(line, delimiter);
    let mut cells: Vec<Cell> = Vec::new();
    let mut at: usize = from;
    #[verifier::loop_isolation(false)]
    loop
        invariant
            from <= at <= to <= chars@.len(),
            pieces.len() == cells@.len() + split(
                chars@.subrange(at as int, to as int),
                delimiter,
            ).len(),
            forall|j: int|
                0 <= j < split(chars@.subrange(at as int, to as int), delimiter).len()
                    ==> pieces[cells@.len() + j] == #[trigger] split(
                    chars@.subrange(at as int, to as int),
                    delimiter,
                )[j],
            start_of(pieces, cells@.len() as int) == at - from,
            forall|j: int|
                0 <= j < cells@.len() ==> (#[trigger] cells@[j])@ == (CellView {
                    value: pieces[j],
                    col_start: start_of(pieces, j) as u32,
                }),
        decreases to - at,
    {
        let ghost rest = chars@.subrange(at as int, to as int);
        let ghost n = cells@.len() as int;
        let end = position_of(chars, at, to, delimiter);
        proof {
            assert(split(rest, delimiter)[0] == rest.take(end - at));
            assert(chars@.subrange(at as int, end as int) =~= rest.take(end - at));
            assert(pieces[n + 0] == rest.take(end - at));
        }
        cells.push(Cell { value: from_chars(chars, at, end), col_start: (at - from) as u32 });
        if end == to {
            assert(rest.take(end - at) =~= rest);
            assert(cells@.map_values(|c: Cell| c@) =~= cells_of(line, delimiter));
            return cells;
        }
        proof {
            assert(rest.skip(end - at + 1) =~= chars@.subrange(end + 1, to as int));
            let next = split(chars@.subrange(end + 1, to as int), delimiter);
            assert(split(rest, delimiter) =~= seq![rest.take(end - at)] + next);
            assert forall|j: int| 0 <= j < next.len() implies pieces[cells@.len() + j]
                == #[trigger] next[j] by {
                assert(split(rest, delimiter)[j + 1] == next[j]);
                assert(pieces[n + (j + 1)] == split(rest, delimiter)[j + 1]);
            }
        }
        at = end + 1;
    }
}

/// The values of the cells.
fn values_of(cells: &Vec<Cell>) -> (result: Vec<String>)
    ensures
        result@.len() == cells@.len(),
        forall|i: int| 0 <= i < cells@.len() ==> (#[trigger] result@[i])@ == cells@[i].value@,
{
    let mut values: Vec<String> = Vec::new();
    let mut i: usize = 0;
    while i < cells.len()
        invariant
            i <= cells@.len(),
            values@.len() == i,
            forall|j: int| 0 <= j < i ==> (#[trigger] values@[j])@ == cells@[j].value@,
        decreases cells@.len() - i,
    {
        values.push(cells[i].value.clone());
        i = i + 1;
    }
    values
}

impl DocumentData {
    /// Parse a data file whose cells are separated by `delimiter`.
    pub fn parse(text: &str, delimiter: char) -> (result: DocumentData)
        requires
            text@.len() <= u32::MAX,
        ensures
            result@ == parsed(text@, delimiter),
            result@.fits(),
    {
        let chars = to_chars(text);
        let total: usize = chars.len();
        let ghost lines = lines_of(text@);
        proof {
            lemma_lines_fit(text@);
            lemma_parsed_fits(text@, delimiter);
        }
        let mut headers: Vec<String> = Vec::new();
        let mut rows: Vec<Row> = Vec::new();
        let mut at: usize = 0;
        let mut line: u32 = 0;
        assert(chars@.skip(0) =~= chars@);
        #[verifier::loop_isolation(false)]
        while at < total
            invariant
                at <= total,
                total == chars@.len(),
                chars@ == text@,
                lines == lines_of(text@),
                lines.len() == line + lines_of(chars@.skip(at as int)).len(),
                lines.len() <= text@.len() <= u32::MAX,
                forall|j: int|
                    0 <= j < lines_of(chars@.skip(at as int)).len() ==> lines[line + j]
                        == #[trigger] lines_of(chars@.skip(at as int))[j],
                line == 0 ==> headers@.len() == 0 && rows@.len() == 0,
                line > 0 ==> rows@.len() == line - 1 && headers@.map_values(|h: String| h@)
                    == split(lines[0], delimiter),
                forall|i: int|
                    0 <= i < rows@.len() ==> (#[trigger] rows@[i])@ == (RowView {
                        line: (i + 1) as u32,
                        cells: cells_of(lines[i + 1], delimiter),
                    }),
            decreases total - at,
        {
            let ghost rest = chars@.skip(at as int);
            let feed = position_of(&chars, at, total, '\n');
            assert(chars@.subrange(at as int, total as int) =~= rest);
            let mut end: usize = feed;
            if feed < total && feed > at && chars[feed - 1] == '\r' {
                end = feed - 1;
            }
            proof {
                lemma_first_index(rest, '\n');
                if feed < total {
                    assert(rest.take(feed - at) =~= chars@.subrange(at as int, feed as int));
                    assert(chars@.subrange(at as int, end as int) =~= without_return(
                        rest.take(feed - at),
                    ));
                } else {
                    assert(chars@.subrange(at as int, end as int) =~= rest);
                }
                assert(lines_of(rest)[0] == chars@.subrange(at as int, end as int));
                assert(lines[line + 0] == chars@.subrange(at as int, end as int));
            }
            let cells = split_cells(&chars, at, end, delimiter);
            if line == 0 {
                headers = values_of(&cells);
                assert(headers@.map_values(|h: String| h@) =~= split(lines[0], delimiter)) by {
                    let views = cells@.map_values(|c: Cell| c@);
                    assert(views.len() == cells@.len());
                    assert forall|i: int| 0 <= i < cells@.len() implies (
                    #[trigger] headers@[i])@ == split(lines[0], delimiter)[i] by {
                        assert(views[i] == cells@[i]@);
                    }
                }
            } else {
                rows.push(Row { line, cells });
            }
            proof {
                if feed < total {
                    assert(rest.skip(feed - at + 1) =~= chars@.skip(feed + 1));
                    let next = lines_of(chars@.skip(feed + 1));
                    assert(lines_of(rest) =~= seq![chars@.subrange(at as int, end as int)] + next);
                    assert forall|j: int| 0 <= j < next.len() implies lines[line + 1 + j]
                        == #[trigger] next[j] by {
                        assert(lines_of(rest)[j + 1] == next[j]);
                        assert(lines[line + (j + 1)] == lines_of(rest)[j + 1]);
                    }
                } else {
                    assert(chars@.skip(total as int).len() == 0);
                }
            }
            line = line + 1;
            if feed < total {
                at = feed + 1;
            } else {
                at = total;
            }
        }
        assert(chars@.skip(at as int).len() == 0);
        let result = DocumentData { headers, rows };
        assert(result@.headers =~= parsed(text@, delimiter).headers);
        assert(result@.rows =~= parsed(text@, delimiter).rows);
        result
    }
}

// ---------------------------------------------------------------------------
// Positions
// ---------------------------------------------------------------------------

/// The first row, from position `from` on, that stands on `line`.
pub open spec fn row_on(rows: Seq<RowView>, line: u32, from: int) -> Option<RowView>
    decreases rows.len() - from,
{
    if from < 0 || from >= rows.len() {
        None
    } else if rows[from].line == line {
        Some(rows[from])
    } else {
        row_on(rows, line, from + 1)
    }
}

/// The first cell, from position `from` on, that the cursor column `character` touches:
/// it is in the value or right behind it.
pub open spec fn cell_under(cells: Seq<CellView>, character: u32, from: int) -> Option<int>
    decreases cells.len() - from,
{
    if from < 0 || from >= cells.len() {
        None
    } else if cells[from].col_start <= character <= cells[from].col_start
        + cells[from].value.len() {
        Some(from)
    } else {
        cell_under(cells, character, from + 1)
    }
}

/// The first header, from position `from` on, that the cursor column `character` touches.
pub open spec fn header_under(headers: Seq<Seq<char>>, character: u32, from: int) -> Option<int>
    decreases headers.len() - from,
{
    if from < 0 || from >= headers.len() {
        None
    } else if start_of(headers, from) <= character <= start_of(headers, from)
        + headers[from].len() {
        Some(from)
    } else {
        header_under(headers, character, from + 1)
    }
}

impl DocumentView {
    /// The cell of a data row at a position, with its column's index.
    pub open spec fn cell_at(self, line: u32, character: u32) -> Option<(int, CellView)> {
        match row_on(self.rows, line, 0) {
            Some(row) => match cell_under(row.cells, character, 0) {
                Some(i) => Some((i, row.cells[i])),
                None => None,
            },
            None => None,
        }
    }

    /// The index of the header at a cursor column of the header row.
    pub open spec fn header_at(self, character: u32) -> Option<int> {
        header_under(self.headers, character, 0)
    }
}

/// A cell found under the cursor is a cell of the row.
pub proof fn lemma_cell_under(cells: Seq<CellView>, character: u32, from: int)
    requires
        0 <= from,
    ensures
        match cell_under(cells, character, from) {
            Some(i) => from <= i < cells.len(),
            None => true,
        },
    decreases cells.len() - from,
{
    if from < cells.len() {
        lemma_cell_under(cells, character, from + 1);
    }
}

/// A header found under the cursor is a header.
pub proof fn lemma_header_under(headers: Seq<Seq<char>>, character: u32, from: int)
    requires
        0 <= from,
    ensures
        match header_under(headers, character, from) {
            Some(i) => from <= i < headers.len(),
            None => true,
        },
    decreases headers.len() - from,
{
    if from < headers.len() {
        lemma_header_under(headers, character, from + 1);
    }
}

impl DocumentData {
    /// The cell of a data row at a position, with its column's index.
    pub fn cell_at(&self, line: u32, character: u32) -> (result: Option<(usize, &Cell)>)
        requires
            self@.fits(),
        ensures
            match result {
                Some((i, cell)) => self@.cell_at(line, character) == Some((i as int, cell@)),
                None => self@.cell_at(line, character) is None,
            },
    {
        let mut r: usize = 0;
        while r < self.rows.len()
            invariant
                self@.fits(),
                r <= self.rows@.len(),
                row_on(self@.rows, line, 0) == row_on(self@.rows, line, r as int),
            decreases self.rows@.len() - r,
        {
            let row = &self.rows[r];
            assert(self@.rows[r as int] == row@);
            if row.line == line {
                let mut i: usize = 0;
                while i < row.cells.len()
                    invariant
                        self@.fits(),
                        r < self.rows@.len(),
                        self@.rows[r as int] == row@,
                        row_on(self@.rows, line, 0) == Some(row@),
                        i <= row.cells@.len(),
                        cell_under(row@.cells, character, 0) == cell_under(
                            row@.cells,
                            character,
                            i as int,
                        ),
                    decreases row.cells@.len() - i,
                {
                    let cell = &row.cells[i];
                    assert(row@.cells[i as int] == cell@);
                    assert(self@.rows[r as int].cells[i as int] == cell@);
                    let len = cell.value.as_str().unicode_len() as u32;
                    if cell.col_start <= character && character <= cell.col_start + len {
                        return Some((i, cell));
                    }
                    i = i + 1;
                }
                return None;
            }
            r = r + 1;
        }
        None
    }

    /// The index of the header at a cursor column of the header row.
    pub fn header_at(&self, character: u32) -> (result: Option<usize>)
        requires
            self@.fits(),
        ensures
            match result {
                Some(i) => self@.header_at(character) == Some(i as int) && i < self.headers@.len(),
                None => self@.header_at(character) is None,
            },
    {
        let mut i: usize = 0;
        let mut start: u64 = 0;
        while i < self.headers.len()
            invariant
                self@.fits(),
                i <= self.headers@.len(),
                start == start_of(self@.headers, i as int),
                self@.header_at(character) == header_under(self@.headers, character, i as int),
            decreases self.headers@.len() - i,
        {
            proof {
                lemma_start_grows(self@.headers, i + 1, self@.headers.len() as int);
            }
            assert(self@.headers[i as int] == self.headers@[i as int]@);
            let len = self.headers[i].as_str().unicode_len() as u64;
            if start <= character as u64 && character as u64 <= start + len {
                return Some(i);
            }
            start = start + len + 1;
            i = i + 1;
        }
        None
    }

    /// The column at which header `index` starts.
    pub fn header_start(&self, index: usize) -> (result: u32)
        requires
            self@.fits(),
            index < self.headers@.len(),
        ensures
            result == start_of(self@.headers, index as int),
            result + self@.headers[index as int].len() <= u32::MAX,
    {
        let mut i: usize = 0;
        let mut start: u32 = 0;
        while i < index
            invariant
                self@.fits(),
                i <= index < self.headers@.len(),
                start == start_of(self@.headers, i as int),
            decreases index - i,
        {
            proof {
                lemma_start_grows(self@.headers, i + 1, index as int);
                lemma_start_grows(self@.headers, index + 1, self@.headers.len() as int);
            }
            assert(self@.headers[i as int] == self.headers@[i as int]@);
            start = start + self.headers[i].as_str().unicode_len() as u32 + 1;
            i = i + 1;
        }
        proof {
            lemma_start_grows(self@.headers, index + 1, self@.headers.len() as int);
        }
        start
    }
}

// ---------------------------------------------------------------------------
// Laws of splitting and of positions
// ---------------------------------------------------------------------------

proof fn lemma_first_at(before: Seq<char>, c: char, after: Seq<char>)
    requires
        !before.contains(c),
    ensures
        ({
            let whole = before + seq![c] + after;
            &&& first_index(whole, c) == Some(before.len() as int)
            &&& whole.take(before.len() as int) == before
            &&& whole.skip(before.len() as int + 1) == after
        }),
{
    let whole = before + seq![c] + after;
    let n = before.len() as int;
    lemma_first_index(whole, c);
    assert(whole[n] == c);
    assert forall|i: int| 0 <= i < n implies whole[i] != c by {
        assert(whole[i] == before[i]);
    }
    assert(whole.take(n) =~= before);
    assert(whole.skip(n + 1) =~= after);
}

/// A line is cut at its first delimiter, and what follows is cut in turn; a line without
/// one is a single piece.
pub proof fn law_split(before: Seq<char>, delimiter: char, after: Seq<char>)
    requires
        !before.contains(delimiter),
    ensures
        split(before + seq![delimiter] + after, delimiter) == seq![before] + split(
            after,
            delimiter,
        ),
        split(before, delimiter) == seq![before],
{
    lemma_first_at(before, delimiter, after);
    lemma_first_index(before, delimiter);
}

/// A text is cut at its first line feed, which takes one carriage return before it along,
/// and what follows is cut in turn. A last line without an end is a line; nothing is none.
pub proof fn law_lines(line: Seq<char>, rest: Seq<char>)
    requires
        !line.contains('\n'),
    ensures
        lines_of(line + seq!['\n'] + rest) == seq![
            if line.len() > 0 && line[line.len() - 1] == '\r' {
                line.take(line.len() - 1)
            } else {
                line
            },
        ] + lines_of(rest),
        line.len() > 0 ==> lines_of(line) == seq![line],
        lines_of(Seq::empty()).len() == 0,
{
    lemma_first_at(line, '\n', rest);
    lemma_first_index(line, '\n');
    if line.len() > 0 {
        assert(line.take(line.len() - 1) =~= line.drop_last());
    }
}

/// The first line gives the headers; every other line gives a row, with its number and
/// with its pieces as cells. The cells fill the line from column 0 on, with one character
/// between them, and so do the headers.
pub proof fn law_parsed_rows(text: Seq<char>, delimiter: char)
    requires
        0 < text.len() <= u32::MAX,
    ensures
        ({
            let lines = lines_of(text);
            let doc = parsed(text, delimiter);
            &&& lines.len() > 0
            &&& doc.headers == split(lines[0], delimiter)
            &&& doc.rows.len() == lines.len() - 1
            &&& forall|i: int| #![trigger doc.rows[i]]
                0 <= i < doc.rows.len() ==> doc.rows[i].line == i + 1 && doc.rows[i].cells.len()
                    == split(lines[i + 1], delimiter).len()
            &&& forall|i: int, j: int| #![trigger doc.rows[i].cells[j]]
                0 <= i < doc.rows.len() && 0 <= j < doc.rows[i].cells.len() ==> {
                    let cell = doc.rows[i].cells[j];
                    &&& cell.value == split(lines[i + 1], delimiter)[j]
                    &&& cell.col_start + cell.value.len() <= lines[i + 1].len()
                    &&& cell.value == lines[i + 1].subrange(
                        cell.col_start as int,
                        cell.col_start + cell.value.len(),
                    )
                    &&& j == 0 ==> cell.col_start == 0
                    &&& j > 0 ==> cell.col_start == doc.rows[i].cells[j - 1].col_start
                        + doc.rows[i].cells[j - 1].value.len() + 1
                }
            &&& forall|j: int| #![trigger doc.headers[j]]
                0 <= j < doc.headers.len() ==> {
                    let start = start_of(doc.headers, j);
                    &&& 0 <= start && start + doc.headers[j].len() <= lines[0].len()
                    &&& doc.headers[j] == lines[0].subrange(start, start + doc.headers[j].len())
                    &&& j == 0 ==> start == 0
                    &&& j > 0 ==> start == start_of(doc.headers, j - 1) + doc.headers[j - 1].len()
                        + 1
                }
        }),
{
    let lines = lines_of(text);
    let doc = parsed(text, delimiter);
    lemma_lines_fit(text);
    lemma_first_index(text, '\n');
    assert(lines.len() > 0);
    assert forall|i: int, j: int| #![trigger doc.rows[i].cells[j]]
        0 <= i < doc.rows.len() && 0 <= j < doc.rows[i].cells.len() implies {
        let cell = doc.rows[i].cells[j];
        &&& cell.value == split(lines[i + 1], delimiter)[j]
        &&& cell.col_start + cell.value.len() <= lines[i + 1].len()
        &&& cell.value == lines[i + 1].subrange(
            cell.col_start as int,
            cell.col_start + cell.value.len(),
        )
        &&& j == 0 ==> cell.col_start == 0
        &&& j > 0 ==> cell.col_start == doc.rows[i].cells[j - 1].col_start
            + doc.rows[i].cells[j - 1].value.len() + 1
    } by {
        let line = lines[i + 1];
        assert(line.len() <= text.len());
        assert(doc.rows[i].cells == cells_of(line, delimiter));
        law_cell_is_where_it_says(line, delimiter, j);
        lemma_piece(line, delimiter, j);
        if j > 0 {
            lemma_piece(line, delimiter, j - 1);
            assert(doc.rows[i].cells[j - 1].value == split(line, delimiter)[j - 1]);
        }
    }
    assert forall|j: int| #![trigger doc.headers[j]] 0 <= j < doc.headers.len() implies {
        let start = start_of(doc.headers, j);
        &&& 0 <= start && start + doc.headers[j].len() <= lines[0].len()
        &&& doc.headers[j] == lines[0].subrange(start, start + doc.headers[j].len())
        &&& j == 0 ==> start == 0
        &&& j > 0 ==> start == start_of(doc.headers, j - 1) + doc.headers[j - 1].len() + 1
    } by {
        lemma_piece(lines[0], delimiter, j);
    }
}

proof fn lemma_row_on_is(rows: Seq<RowView>, line: u32, from: int, r: int)
    requires
        0 <= from <= r < rows.len(),
        rows[r].line == line,
        forall|q: int| from <= q < r ==> (#[trigger] rows[q]).line != line,
    ensures
        row_on(rows, line, from) == Some(rows[r]),
    decreases r - from,
{
    if from < r {
        lemma_row_on_is(rows, line, from + 1, r);
    }
}

proof fn lemma_row_on_where(rows: Seq<RowView>, line: u32, from: int)
    requires
        0 <= from,
    ensures
        match row_on(rows, line, from) {
            Some(row) => exists|r: int|
                from <= r < rows.len() && #[trigger] rows[r] == row && row.line == line,
            None => forall|r: int| from <= r < rows.len() ==> (#[trigger] rows[r]).line != line,
        },
    decreases rows.len() - from,
{
    if from < rows.len() && rows[from].line != line {
        lemma_row_on_where(rows, line, from + 1);
    }
}

proof fn lemma_cell_under_is(cells: Seq<CellView>, character: u32, from: int, i: int)
    requires
        0 <= from <= i < cells.len(),
        cells[i].col_start <= character <= cells[i].col_start + cells[i].value.len(),
        forall|k: int|
            from <= k < i ==> character < (#[trigger] cells[k]).col_start || cells[k].col_start
                + cells[k].value.len() < character,
    ensures
        cell_under(cells, character, from) == Some(i),
    decreases i - from,
{
    if from < i {
        lemma_cell_under_is(cells, character, from + 1, i);
    }
}

proof fn lemma_cell_under_where(cells: Seq<CellView>, character: u32, from: int)
    requires
        0 <= from,
    ensures
        match cell_under(cells, character, from) {
            Some(i) => from <= i < cells.len() && cells[i].col_start <= character
                <= cells[i].col_start + cells[i].value.len(),
            None => true,
        },
    decreases cells.len() - from,
{
    if from < cells.len() {
        lemma_cell_under_where(cells, character, from + 1);
    }
}

/// The cell at a position is the first one, on the row with that line, that starts at or
/// before the cursor and ends at or behind it.
pub proof fn law_cell_at_a_position(doc: DocumentView, line: u32, character: u32, r: int, i: int)
    requires
        0 <= r < doc.rows.len(),
        doc.rows[r].line == line,
        forall|q: int| 0 <= q < r ==> (#[trigger] doc.rows[q]).line != line,
        0 <= i < doc.rows[r].cells.len(),
        doc.rows[r].cells[i].col_start <= character <= doc.rows[r].cells[i].col_start
            + doc.rows[r].cells[i].value.len(),
        forall|k: int|
            0 <= k < i ==> character < (#[trigger] doc.rows[r].cells[k]).col_start
                || doc.rows[r].cells[k].col_start + doc.rows[r].cells[k].value.len() < character,
    ensures
        doc.cell_at(line, character) == Some((i, doc.rows[r].cells[i])),
{
    lemma_row_on_is(doc.rows, line, 0, r);
    lemma_cell_under_is(doc.rows[r].cells, character, 0, i);
}

/// Where there is a cell at a position, it is a cell of a row on that line, and the cursor
/// touches it.
pub proof fn law_cell_found_is_touched(doc: DocumentView, line: u32, character: u32)
    ensures
        match doc.cell_at(line, character) {
            Some((i, cell)) => {
                &&& cell.col_start <= character <= cell.col_start + cell.value.len()
                &&& exists|r: int|
                    0 <= r < doc.rows.len() && (#[trigger] doc.rows[r]).line == line && 0 <= i
                        < doc.rows[r].cells.len() && doc.rows[r].cells[i] == cell
            },
            None => true,
        },
{
    lemma_row_on_where(doc.rows, line, 0);
    match row_on(doc.rows, line, 0) {
        Some(row) => {
            lemma_cell_under_where(row.cells, character, 0);
        },
        None => {},
    }
}

/// A header starts behind every header before it.
proof fn lemma_header_before(headers: Seq<Seq<char>>, k: int, i: int)
    requires
        0 <= k < i <= headers.len(),
    ensures
        start_of(headers, k) + headers[k].len() < start_of(headers, i),
    decreases i,
{
    if k < i - 1 {
        lemma_header_before(headers, k, i - 1);
    }
}

proof fn lemma_header_under_is(headers: Seq<Seq<char>>, character: u32, from: int, i: int)
    requires
        0 <= from <= i < headers.len(),
        start_of(headers, i) <= character <= start_of(headers, i) + headers[i].len(),
    ensures
        header_under(headers, character, from) == Some(i),
    decreases i - from,
{
    if from < i {
        lemma_header_before(headers, from, i);
        lemma_header_under_is(headers, character, from + 1, i);
    }
}

/// The header at a column is the one that starts at or before it and ends at or behind it.
pub proof fn law_header_at_a_column(doc: DocumentView, character: u32, i: int)
    requires
        0 <= i < doc.headers.len(),
        start_of(doc.headers, i) <= character <= start_of(doc.headers, i) + doc.headers[i].len(),
    ensures
        doc.header_at(character) == Some(i),
{
    lemma_header_under_is(doc.headers, character, 0, i);
}

/// Right of the last header there is none.
pub proof fn law_no_header_behind_the_last(doc: DocumentView, character: u32)
    requires
        character >= start_of(doc.headers, doc.headers.len() as int),
    ensures
        doc.header_at(character) is None,
{
    lemma_header_under_where(doc.headers, character, 0);
    match doc.header_at(character) {
        Some(i) => {
            lemma_header_before(doc.headers, i, doc.headers.len() as int);
        },
        None => {},
    }
}

proof fn lemma_header_under_where(headers: Seq<Seq<char>>, character: u32, from: int)
    requires
        0 <= from,
    ensures
        match header_under(headers, character, from) {
            Some(i) => from <= i < headers.len() && start_of(headers, i) <= character <= start_of(
                headers,
                i,
            ) + headers[i].len(),
            None => true,
        },
    decreases headers.len() - from,
{
    if from < headers.len() {
        lemma_header_under_where(headers, character, from + 1);
    }
}

/// What is said of a document is said of its headers and of the line, the values and the
/// columns of its rows, each of them.
pub proof fn law_document_view(doc: DocumentData)
    ensures
        doc@.headers.len() == doc.headers@.len(),
        forall|j: int| #![trigger doc.headers@[j]]
            0 <= j < doc.headers@.len() ==> doc@.headers[j] == doc.headers@[j]@,
        doc@.rows.len() == doc.rows@.len(),
        forall|i: int| #![trigger doc.rows@[i]]
            0 <= i < doc.rows@.len() ==> doc@.rows[i].line == doc.rows@[i].line
                && doc@.rows[i].cells.len() == doc.rows@[i].cells@.len(),
        forall|i: int, j: int| #![trigger doc.rows@[i].cells@[j]]
            0 <= i < doc.rows@.len() && 0 <= j < doc.rows@[i].cells@.len()
                ==> doc@.rows[i].cells[j].value == doc.rows@[i].cells@[j].value@
                && doc@.rows[i].cells[j].col_start == doc.rows@[i].cells@[j].col_start,
{
}

} // verus!
