use vstd::prelude::*;

use crate::columns::{contains_name, insert_sorted, lemma_push_to_set, strictly_sorted};
use crate::err::CsvError;
use crate::opts::Opts;
use crate::row::{
    cell_keys, cell_value, has_key, lemma_set_cell_keys, lemma_value_after_set, lemma_value_iff_key, set_cell, set_cell_if_absent,
    Cells, Row,
};
use crate::sink::{split_commas, split_on, trim, trimmed, CsvFileInfo};
use crate::text::{int_text, join_strings, join_with, lemma_lex_total, lemma_lex_transitive, lemma_views_push, lex_lt, str_less, views};
use crate::value::{json_scalar, parse_scalar, scalar_text, Scalar, ScalarView};

verus! {

/// What a table holds, as mathematical values.
pub struct TableView {
    pub name: Seq<char>,
    /// The name of the column that holds each row's surrogate key.
    pub pk_name: Seq<char>,
    pub columns: Set<Seq<char>>,
    /// The rows not yet written out, in the order of their surrogate keys.
    pub rows: Seq<Cells>,
    /// How many rows of this table were written out before the buffered ones.
    pub row_offset: nat,
    /// Whether the table appends to a file that already has a header.
    pub appending: bool,
    /// For each column that held a string, the length of the longest one
    /// seen, as an integer cell.
    pub max_lens: Cells,
}

/// The length of the longest string seen in column `c`; 0 where none was.
pub open spec fn tracked_len(lens: Cells, c: Seq<char>) -> int {
    match cell_value(lens, c) {
        Some(Scalar::Int(n)) => n as int,
        _ => 0,
    }
}

/// The longest lengths once the strings of `row` are seen.
pub open spec fn raise_lens(lens: Cells, row: Cells) -> Cells
    decreases row.len(),
{
    if row.len() == 0 {
        lens
    } else {
        let before = raise_lens(lens, row.drop_last());
        let k = row.last().0;
        match row.last().1 {
            Scalar::Str(t) => if tracked_len(before, k) < t@.len() {
                set_cell(before, k, Scalar::Int(t@.len() as i128))
            } else {
                before
            },
            _ => before,
        }
    }
}

/// The least of `keys`, in lexicographic order, that `cols` lacks.
pub open spec fn least_absent(keys: Seq<Seq<char>>, cols: Set<Seq<char>>) -> Option<Seq<char>>
    decreases keys.len(),
{
    if keys.len() == 0 {
        None
    } else {
        let rest = least_absent(keys.drop_last(), cols);
        let k = keys.last();
        if cols.contains(k) {
            rest
        } else {
            match rest {
                Some(m) => if lex_lt(m, k) {
                    Some(m)
                } else {
                    Some(k)
                },
                None => Some(k),
            }
        }
    }
}

/// `least_absent` is one of the keys that `cols` lacks, and comes before
/// every other such key.
pub proof fn lemma_least_absent(keys: Seq<Seq<char>>, cols: Set<Seq<char>>)
    ensures
        least_absent(keys, cols) is None <==> forall|i: int| 0 <= i < keys.len() ==> cols.contains(#[trigger] keys[i]),
        least_absent(keys, cols) matches Some(m) ==> {
            &&& keys.contains(m)
            &&& !cols.contains(m)
            &&& forall|i: int| 0 <= i < keys.len() && !cols.contains(#[trigger] keys[i]) && keys[i] != m ==> lex_lt(m, keys[i])
        },
    decreases keys.len(),
{
    if keys.len() > 0 {
        let init = keys.drop_last();
        lemma_least_absent(init, cols);
        let k = keys.last();
        assert forall|i: int| 0 <= i < init.len() implies init[i] == #[trigger] keys[i] by {}
        assert(keys[keys.len() - 1] == k);
        if forall|i: int| 0 <= i < keys.len() ==> cols.contains(#[trigger] keys[i]) {
            assert forall|i: int| 0 <= i < init.len() implies cols.contains(#[trigger] init[i]) by {
                assert(init[i] == keys[i]);
            }
        }
        match least_absent(init, cols) {
            Some(m) => {
                let w = choose|w: int| 0 <= w < init.len() && init[w] == m;
                assert(keys[w] == m);
                if !cols.contains(k) && k != m {
                    lemma_lex_total(m, k);
                }
                assert forall|i: int| 0 <= i < keys.len() && !cols.contains(#[trigger] keys[i])
                    && keys[i] != least_absent(keys, cols)->0 implies lex_lt(least_absent(keys, cols)->0, keys[i]) by {
                    if i < init.len() {
                        assert(init[i] == keys[i]);
                        if keys[i] != m && !lex_lt(m, k) && !cols.contains(k) && k != m {
                            assert(lex_lt(m, init[i]));
                            assert(lex_lt(k, m));
                            lemma_lex_transitive(k, m, keys[i]);
                        }
                    }
                }
            },
            None => {},
        }
    }
}

/// Whether adding `row` to `t` breaks the header of the file it appends to.
pub open spec fn rejects(t: TableView, row: Cells) -> bool {
    t.appending && least_absent(cell_keys(row), t.columns) is Some
}

/// The surrogate key that the next row added to `t` receives.
pub open spec fn next_key(t: TableView) -> int {
    (t.row_offset + t.rows.len()) as int
}

/// `t` after accepting `row`: its columns join the table's, and the row is
/// buffered with its surrogate key filled in unless it sets one itself.
pub open spec fn with_row(t: TableView, row: Cells) -> TableView {
    TableView {
        columns: t.columns.union(cell_keys(row).to_set()),
        max_lens: raise_lens(t.max_lens, row),
        rows: t.rows.push(set_cell_if_absent(row, t.pk_name, Scalar::Int(next_key(t) as i128))),
        ..t
    }
}

/// The text of the cell of `row` in column `c`; empty where the row has none.
pub open spec fn cell_text(row: Cells, c: Seq<char>) -> Seq<char> {
    match cell_value(row, c) {
        Some(v) => scalar_text(v),
        None => Seq::empty(),
    }
}

/// One CSV line for `row`: its cells in the order of `cols`, comma-separated.
pub open spec fn row_line(cols: Seq<Seq<char>>, row: Cells) -> Seq<char> {
    join_with(cols.map_values(|c: Seq<char>| cell_text(row, c)), seq![','])
}

/// The lines of `rows`, each preceded by a line break.
pub open spec fn rows_text(cols: Seq<Seq<char>>, rows: Seq<Cells>) -> Seq<char>
    decreases rows.len(),
{
    if rows.len() == 0 {
        Seq::empty()
    } else {
        rows_text(cols, rows.drop_last()) + seq!['\n'] + row_line(cols, rows.last())
    }
}

/// What a table appends to its file: the header where the file is empty,
/// then one line for each row.
pub open spec fn csv_text(cols: Seq<Seq<char>>, rows: Seq<Cells>, header: bool) -> Seq<char> {
    if header {
        join_with(cols, seq![',']) + rows_text(cols, rows)
    } else {
        rows_text(cols, rows)
    }
}

/// A table as it is set up from its file: see [`Table::new`].
pub open spec fn opened_table(name: Seq<char>, suffix: Seq<char>, header: Seq<Seq<char>>, lines: nat) -> TableView {
    TableView {
        name,
        pk_name: name + suffix,
        columns: header.to_set().insert(name + suffix),
        rows: Seq::empty(),
        row_offset: if lines > 0 { (lines - 1) as nat } else { 0 },
        appending: lines > 0,
        max_lens: Seq::empty(),
    }
}

/// The cells of a CSV line: its comma-separated pieces, once trimmed.
pub open spec fn line_cells(line: Seq<char>) -> Seq<Seq<char>> {
    split_on(trimmed(line), ',')
}

/// Whether position `j` of a header names a column of its own: the first
/// position with that name.
pub open spec fn header_slot(header: Seq<Seq<char>>, j: int) -> bool {
    0 <= j < header.len() && !header.take(j).contains(header[j])
}

/// Whether every cell of a line has a column of its own in the header.
pub open spec fn line_fits(header: Seq<Seq<char>>, cells: Seq<Seq<char>>) -> bool {
    forall|j: int| 0 <= j < cells.len() ==> header_slot(header, j)
}

/// What a cell of a file read back stands for: the JSON scalar it holds,
/// otherwise its text; an empty cell stands for nothing.
pub open spec fn loaded_cell(t: Seq<char>) -> Option<ScalarView> {
    if json_scalar(t) is Some {
        json_scalar(t)
    } else if t.len() > 0 {
        Some(ScalarView::Str(t))
    } else {
        None
    }
}

/// The columns that the first `n` cells of a line fill: those whose cell
/// stands for something.
pub open spec fn loaded_keys(header: Seq<Seq<char>>, cells: Seq<Seq<char>>, n: int) -> Set<Seq<char>>
    decreases n,
{
    if n <= 0 {
        Set::empty()
    } else if loaded_cell(cells[n - 1]) is Some {
        loaded_keys(header, cells, n - 1).insert(header[n - 1])
    } else {
        loaded_keys(header, cells, n - 1)
    }
}

/// The message of the error for a data line whose cell `j` has no column.
pub open spec fn extra_cell_message(j: int) -> Seq<char> {
    "File has more columns in data than in header, index: "@ + int_text(j)
}

/// The view of a found value.
pub open spec fn value_view(v: Option<Scalar>) -> Option<ScalarView> {
    match v {
        Some(x) => Some(x@),
        None => None,
    }
}

/// The value of a cell read back; see [`loaded_cell`].
fn cell_scalar(t: &String) -> (r: Option<Scalar>)
    ensures
        value_view(r) == loaded_cell(t@),
{
    match parse_scalar(t.as_str()) {
        Some(v) => Some(v),
        None => {
            if t.as_str().is_empty() {
                None
            } else {
                Some(Scalar::Str(t.clone()))
            }
        },
    }
}

/// Whether position `j` of `header` names a column of its own.
fn is_slot(header: &Vec<String>, j: usize) -> (r: bool)
    ensures
        r == header_slot(views(header@), j as int),
{
    if j >= header.len() {
        return false;
    }
    let mut k: usize = 0;
    while k < j
        invariant
            k <= j < header.len(),
            forall|a: int| 0 <= a < k ==> views(header@)[a] != views(header@)[j as int],
        decreases j - k,
    {
        if header[k] == header[j] {
            assert(views(header@).take(j as int)[k as int] == views(header@)[j as int]);
            return false;
        }
        k = k + 1;
    }
    assert forall|a: int| 0 <= a < j implies views(header@).take(j as int)[a] != views(header@)[j as int] by {}
    true
}

/// `t` once its buffered rows are written out.
pub open spec fn flushed(t: TableView) -> TableView {
    TableView { rows: Seq::empty(), row_offset: t.row_offset + t.rows.len(), ..t }
}

/// The rows of one nesting path, with their columns and surrogate keys.
pub struct Table {
    name: String,
    pk_name: String,
    /// Strictly sorted.
    columns: Vec<String>,
    rows: Vec<Row>,
    row_offset: usize,
    appending_mode: bool,
    /// The longest string seen in each column.
    max_lens: Row,
}

impl View for Table {
    type V = TableView;

    closed spec fn view(&self) -> TableView {
        TableView {
            name: self.name@,
            pk_name: self.pk_name@,
            columns: views(self.columns@).to_set(),
            rows: self.rows@.map_values(|r: Row| r@),
            row_offset: self.row_offset as nat,
            appending: self.appending_mode,
            max_lens: self.max_lens@,
        }
    }
}

impl Table {
    /// The column names in the order in which they are written: lexicographic.
    pub closed spec fn column_list(&self) -> Seq<Seq<char>> {
        views(self.columns@)
    }

    /// The table's invariant.
    pub closed spec fn wf(&self) -> bool {
        &&& strictly_sorted(self.column_list())
        &&& self.column_list().contains(self.pk_name@)
        &&& forall|i: int| 0 <= i < self.rows@.len()
            ==> cell_keys(#[trigger] self.rows@[i]@).to_set().subset_of(self@.columns)
        &&& self.row_offset + self.rows@.len() <= usize::MAX
    }

    /// What the invariant says of the view.
    pub proof fn lemma_wf(&self)
        requires
            self.wf(),
        ensures
            strictly_sorted(self.column_list()),
            self.column_list().to_set() == self@.columns,
            self@.columns.contains(self@.pk_name),
            self@.columns.finite(),
            forall|i: int| 0 <= i < self@.rows.len()
                ==> cell_keys(#[trigger] self@.rows[i]).to_set().subset_of(self@.columns),
            self@.row_offset + self@.rows.len() <= usize::MAX,
    {
        assert forall|i: int| 0 <= i < self@.rows.len() implies
            cell_keys(#[trigger] self@.rows[i]).to_set().subset_of(self@.columns) by {
            assert(self@.rows[i] == self.rows@[i]@);
        }
    }

    /// A table named `name`, set up from what its file holds: where the file
    /// has lines, its header fixes the columns and the rows after the header
    /// count as written; the key column is always among the columns.
    pub fn new(name: &str, opts: &Opts, sink: &CsvFileInfo) -> (r: Table)
        ensures
            r.wf(),
            r@ == opened_table(name@, opts.column_id_postfix@, views(sink.columns@), sink.lines_in_file as nat),
    {
        let mut pk_name = String::from_str(name);
        pk_name.append(opts.column_id_postfix.as_str());
        let mut columns: Vec<String> = Vec::new();
        let mut i: usize = 0;
        assert(views(columns@).to_set() =~= views(sink.columns@).take(0).to_set());
        while i < sink.columns.len()
            invariant
                i <= sink.columns.len(),
                strictly_sorted(views(columns@)),
                views(columns@).to_set() == views(sink.columns@).take(i as int).to_set(),
            decreases sink.columns.len() - i,
        {
            insert_sorted(&mut columns, &sink.columns[i]);
            assert(views(sink.columns@).take(i + 1) =~= views(sink.columns@).take(i as int).push(sink.columns@[i as int]@));
            proof {
                lemma_push_to_set(views(sink.columns@).take(i as int), sink.columns@[i as int]@);
            }
            i = i + 1;
        }
        assert(views(sink.columns@).take(i as int) =~= views(sink.columns@));
        insert_sorted(&mut columns, &pk_name);
        let lines = sink.lines_in_file;
        let r = Table {
            name: String::from_str(name),
            pk_name,
            columns,
            rows: Vec::new(),
            row_offset: if lines > 0 { lines - 1 } else { 0 },
            appending_mode: lines > 0,
            max_lens: Row::new(),
        };
        assert(views(r.columns@).to_set().contains(r.pk_name@));
        assert(r.rows@.map_values(|r: Row| r@) =~= Seq::<Cells>::empty());
        r
    }

    /// The name of the column that holds the surrogate key.
    pub fn get_pk_name(&self) -> (r: String)
        ensures
            r@ == self@.pk_name,
    {
        self.pk_name.clone()
    }

    /// Buffers `row` with the next surrogate key. A table that appends to a
    /// file refuses a row with a column that the file's header lacks, and
    /// names the least such column in lexicographic order; then nothing
    /// changes.
    pub fn add_row(&mut self, row: Row) -> (r: Result<(), CsvError>)
        requires
            old(self).wf(),
            next_key(old(self)@) < usize::MAX,
        ensures
            final(self).wf(),
            rejects(old(self)@, row@) ==> final(self)@ == old(self)@ && (r matches Err(CsvError::MissingColumn(k))
                && least_absent(cell_keys(row@), old(self)@.columns) == Some(k@)),
            !rejects(old(self)@, row@) ==> r is Ok && final(self)@ == with_row(old(self)@, row@),
    {
        let ghost keys = cell_keys(row@);
        let ghost orig = row@;
        let n = row.len();
        if self.appending_mode {
            proof {
                self.lemma_wf();
            }
            let mut least: Option<usize> = None;
            let mut i: usize = 0;
            assert(keys.take(0) =~= Seq::<Seq<char>>::empty());
            while i < n
                invariant
                    i <= n,
                    n == row@.len(),
                    keys == cell_keys(row@),
                    self.wf(),
                    *self == *old(self),
                    self.appending_mode,
                    orig == row@,
                    self.column_list().to_set() == self@.columns,
                    match least {
                        None => least_absent(keys.take(i as int), self@.columns) is None,
                        Some(b) => b < i && least_absent(keys.take(i as int), self@.columns) == Some(keys[b as int]),
                    },
                decreases n - i,
            {
                let k = row.key_at(i);
                assert(keys[i as int] == k@);
                assert(keys.take(i + 1).drop_last() =~= keys.take(i as int));
                if !contains_name(&self.columns, k) {
                    let smaller = match least {
                        Some(b) => str_less(row.key_at(b).as_str(), k.as_str()),
                        None => false,
                    };
                    if !smaller {
                        least = Some(i);
                    }
                }
                i = i + 1;
            }
            assert(keys.take(i as int) =~= keys);
            if let Some(b) = least {
                let k = row.key_at(b);
                return Err(CsvError::MissingColumn(k.clone()));
            }
        }
        let ghost before = self@;
        proof {
            self.lemma_wf();
        }
        let mut i: usize = 0;
        assert(before.columns =~= before.columns.union(keys.take(0).to_set()));
        while i < n
            invariant
                i <= n,
                n == row@.len(),
                keys == cell_keys(row@),
                strictly_sorted(views(self.columns@)),
                views(self.columns@).to_set() == before.columns.union(keys.take(i as int).to_set()),
                self.max_lens@ == before.max_lens,
                self.name == old(self).name,
                self.pk_name == old(self).pk_name,
                self.rows == old(self).rows,
                self.row_offset == old(self).row_offset,
                self.appending_mode == old(self).appending_mode,
            decreases n - i,
        {
            let k = row.key_at(i);
            insert_sorted(&mut self.columns, k);
            assert(keys.take(i + 1) =~= keys.take(i as int).push(k@));
            proof {
                lemma_push_to_set(keys.take(i as int), k@);
            }
            i = i + 1;
        }
        assert(keys.take(i as int) =~= keys);
        let mut i: usize = 0;
        assert(orig.take(0) =~= Seq::<(Seq<char>, Scalar)>::empty());
        while i < n
            invariant
                i <= n,
                n == row@.len(),
                orig == row@,
                self.max_lens@ == raise_lens(before.max_lens, orig.take(i as int)),
                strictly_sorted(views(self.columns@)),
                views(self.columns@).to_set() == before.columns.union(keys.to_set()),
                self.name == old(self).name,
                self.pk_name == old(self).pk_name,
                self.rows == old(self).rows,
                self.row_offset == old(self).row_offset,
                self.appending_mode == old(self).appending_mode,
            decreases n - i,
        {
            assert(orig.take(i + 1).drop_last() =~= orig.take(i as int));
            assert(orig.take(i + 1).last() == orig[i as int]);
            if let Scalar::Str(t) = row.value_at(i) {
                let len = t.as_str().unicode_len();
                let k = row.key_at(i);
                let seen: i128 = match self.max_lens.get(k) {
                    Some(Scalar::Int(m)) => *m,
                    _ => 0,
                };
                if seen < len as i128 {
                    self.max_lens.insert(k.clone(), Scalar::Int(len as i128));
                }
            }
            i = i + 1;
        }
        assert(orig.take(i as int) =~= orig);
        let key = Scalar::Int((self.row_offset + self.rows.len()) as i128);
        let mut row = row;
        row.insert_if_absent(self.pk_name.clone(), key);
        let ghost pushed = row@;
        self.rows.push(row);
        proof {
            let added = set_cell_if_absent(orig, before.pk_name, Scalar::Int(next_key(before) as i128));
            assert(pushed == added);
            assert(self.rows@.map_values(|r: Row| r@) =~= before.rows.push(added));
            assert(self@ == with_row(before, orig));
            if !has_key(orig, before.pk_name) {
                assert(cell_keys(added) =~= keys.push(before.pk_name));
            }
            assert forall|x: Seq<char>| cell_keys(added).to_set().contains(x) implies self@.columns.contains(x) by {
                if !has_key(orig, before.pk_name) {
                    assert(cell_keys(added) =~= keys.push(before.pk_name));
                    if x != before.pk_name {
                        assert(keys.contains(x));
                    }
                }
            }
            assert forall|j: int| 0 <= j < self.rows@.len()
                implies cell_keys(#[trigger] self.rows@[j]@).to_set().subset_of(self@.columns) by {
                if j < before.rows.len() {
                    assert(self.rows@[j]@ == before.rows[j]);
                    assert(cell_keys(before.rows[j]).to_set().subset_of(before.columns));
                }
            }
            assert(self.column_list().contains(self.pk_name@)) by {
                assert(self.column_list().to_set().contains(self.pk_name@));
            }
        }
        Ok(())
    }

    /// The header line: the column names in lexicographic order, comma-separated.
    pub fn columns_as_str(&self) -> (r: String)
        ensures
            r@ == join_with(self.column_list(), seq![',']),
    {
        let sep = ",";
        proof {
            reveal_strlit(",");
        }
        assert(sep@ =~= seq![',']);
        join_strings(&self.columns, sep)
    }

    /// One CSV line for buffered row `i`.
    fn row_as_str(&self, i: usize) -> (r: String)
        requires
            i < self@.rows.len(),
        ensures
            r@ == row_line(self.column_list(), self@.rows[i as int]),
    {
        let row = &self.rows[i];
        assert(row@ == self@.rows[i as int]);
        let mut cells: Vec<String> = Vec::new();
        let mut j: usize = 0;
        while j < self.columns.len()
            invariant
                j <= self.columns.len(),
                i < self@.rows.len(),
                row@ == self@.rows[i as int],
                views(cells@) == self.column_list().take(j as int).map_values(|c: Seq<char>| cell_text(row@, c)),
            decreases self.columns.len() - j,
        {
            let ghost c = self.column_list()[j as int];
            assert(self.columns@[j as int]@ == c);
            let text = match row.get(&self.columns[j]) {
                Some(v) => v.to_text(),
                None => String::new(),
            };
            assert(text@ == cell_text(row@, c));
            proof {
                lemma_views_push(cells@, text);
            }
            cells.push(text);
            assert(views(cells@) =~= self.column_list().take(j + 1).map_values(|c: Seq<char>| cell_text(row@, c)));
            j = j + 1;
        }
        assert(self.column_list().take(j as int) =~= self.column_list());
        let sep = ",";
        proof {
            reveal_strlit(",");
        }
        assert(sep@ =~= seq![',']);
        join_strings(&cells, sep)
    }

    /// The text that writing out the buffered rows appends to the table's
    /// file, with the header first where `sink_is_empty`.
    pub fn csv_text(&self, sink_is_empty: bool) -> (r: String)
        ensures
            r@ == csv_text(self.column_list(), self@.rows, sink_is_empty),
    {
        let mut r = if sink_is_empty {
            self.columns_as_str()
        } else {
            String::new()
        };
        let ghost start = r@;
        let mut i: usize = 0;
        assert(self@.rows.take(0) =~= Seq::<Cells>::empty());
        while i < self.rows.len()
            invariant
                i <= self.rows.len(),
                self@.rows.len() == self.rows.len(),
                r@ == start + rows_text(self.column_list(), self@.rows.take(i as int)),
            decreases self.rows.len() - i,
        {
            proof {
                reveal_strlit("\n");
            }
            r.append("\n");
            let line = self.row_as_str(i);
            r.append(line.as_str());
            assert(self@.rows.take(i + 1).drop_last() =~= self@.rows.take(i as int));
            assert(r@ =~= start + rows_text(self.column_list(), self@.rows.take(i + 1)));
            i = i + 1;
        }
        assert(self@.rows.take(i as int) =~= self@.rows);
        assert(r@ =~= csv_text(self.column_list(), self@.rows, sink_is_empty));
        r
    }

    /// Hands out the buffered rows as the text to append to the table's file
    /// (with the header first where `sink_is_empty`), counts them as written
    /// and empties the buffer.
    pub fn flush_to_file(&mut self, sink_is_empty: bool) -> (r: String)
        requires
            old(self).wf(),
        ensures
            final(self).wf(),
            r@ == csv_text(old(self).column_list(), old(self)@.rows, sink_is_empty),
            final(self)@.rows.len() == 0,
            final(self)@ == flushed(old(self)@),
            final(self).column_list() == old(self).column_list(),
    {
        let r = self.csv_text(sink_is_empty);
        self.row_offset = self.row_offset + self.rows.len();
        self.rows = Vec::new();
        assert(self@.rows =~= Seq::<Cells>::empty());
        r
    }

    /// The whole table as CSV text, with the header first where
    /// `sink_is_empty`.
    pub fn export_csv(self, sink_is_empty: bool) -> (r: String)
        ensures
            r@ == csv_text(self.column_list(), self@.rows, sink_is_empty),
    {
        self.csv_text(sink_is_empty)
    }

    /// The table's name.
    pub fn name(&self) -> (r: &String)
        ensures
            r@ == self@.name,
    {
        &self.name
    }

    /// The column names, in lexicographic order.
    pub fn column_names(&self) -> (r: Vec<String>)
        ensures
            views(r@) == self.column_list(),
    {
        let mut r: Vec<String> = Vec::new();
        let mut i: usize = 0;
        while i < self.columns.len()
            invariant
                i <= self.columns.len(),
                views(r@) == self.column_list().take(i as int),
            decreases self.columns.len() - i,
        {
            let name = self.columns[i].clone();
            assert(name@ == self.column_list()[i as int]);
            proof {
                lemma_views_push(r@, name);
            }
            r.push(name);
            assert(views(r@) =~= self.column_list().take(i + 1));
            i = i + 1;
        }
        assert(self.column_list().take(i as int) =~= self.column_list());
        r
    }

    /// The number of buffered rows.
    pub fn num_rows(&self) -> (r: usize)
        ensures
            r == self@.rows.len(),
    {
        self.rows.len()
    }

    /// Buffered row `i`.
    pub fn row(&self, i: usize) -> (r: &Row)
        requires
            i < self@.rows.len(),
        ensures
            r@ == self@.rows[i as int],
    {
        &self.rows[i]
    }

    /// How many rows of this table were written out before the buffered ones.
    pub fn row_offset(&self) -> (r: usize)
        ensures
            r == self@.row_offset,
    {
        self.row_offset
    }

    /// The length of the longest string seen in column `c`.
    pub fn longest_string(&self, c: &String) -> (r: i128)
        ensures
            r as int == tracked_len(self@.max_lens, c@),
    {
        match self.max_lens.get(c) {
            Some(Scalar::Int(n)) => *n,
            _ => 0,
        }
    }

    /// Whether the table appends to a file that already has a header.
    pub fn is_appending(&self) -> (r: bool)
        ensures
            r == self@.appending,
    {
        self.appending_mode
    }

    /// Adds the column `name`, unless the table has it.
    pub fn add_column(&mut self, name: String)
        requires
            old(self).wf(),
        ensures
            final(self).wf(),
            final(self)@ == (TableView { columns: old(self)@.columns.insert(name@), ..old(self)@ }),
    {
        proof {
            self.lemma_wf();
        }
        let ghost before = self@;
        insert_sorted(&mut self.columns, &name);
        proof {
            assert(self@.columns == before.columns.insert(name@));
            assert forall|i: int| 0 <= i < self.rows@.len()
                implies cell_keys(#[trigger] self.rows@[i]@).to_set().subset_of(self@.columns) by {
                assert(cell_keys(before.rows[i]).to_set().subset_of(before.columns));
                assert(self.rows@[i]@ == before.rows[i]);
            }
            assert(self.column_list().contains(self.pk_name@)) by {
                assert(self.column_list().to_set().contains(self.pk_name@));
            }
        }
    }

    /// A table read back from the lines of its CSV file, named after the
    /// run's top-level table: the first line names the columns, each later
    /// line is a row whose comma-separated cells go to the columns in header
    /// order. A cell that holds a JSON scalar gives that scalar, any other
    /// non-empty cell its text, an empty cell nothing. A line with more
    /// cells than the header has distinct names is refused; the error names
    /// the first position without a column, in the first such line.
    pub fn load(opts: &Opts, lines: &Vec<String>) -> (r: Result<Table, CsvError>)
        ensures
            ({
                let header = if lines@.len() > 0 {
                    line_cells(lines@[0]@)
                } else {
                    Seq::empty()
                };
                let pk = opts.root_table_name@ + opts.column_id_postfix@;
                &&& r is Ok <==> forall|i: int| 1 <= i < lines@.len() ==> line_fits(header, line_cells(#[trigger] lines@[i]@))
                &&& r matches Ok(t) ==> {
                    &&& t.wf()
                    &&& t@.name == opts.root_table_name@
                    &&& t@.pk_name == pk
                    &&& t@.columns == header.to_set().insert(pk)
                    &&& t@.row_offset == 0
                    &&& !t@.appending
                    &&& t@.rows.len() == if lines@.len() > 0 { lines@.len() - 1 } else { 0 }
                    &&& forall|i: int, j: int| 1 <= i < lines@.len() && 0 <= j < line_cells(lines@[i]@).len()
                        ==> value_view(cell_value(#[trigger] t@.rows[i - 1], header[j]))
                            == loaded_cell(#[trigger] line_cells(lines@[i]@)[j])
                    &&& forall|i: int| 1 <= i < lines@.len() ==> cell_keys(#[trigger] t@.rows[i - 1]).to_set()
                        == loaded_keys(header, line_cells(lines@[i]@), line_cells(lines@[i]@).len() as int)
                }
                &&& r matches Err(e) ==> e is MissingColumn
                &&& r matches Err(CsvError::MissingColumn(m)) ==> exists|i: int, j: int|
                    #![trigger lines@[i], extra_cell_message(j)]
                {
                    &&& 1 <= i < lines@.len()
                    &&& forall|ii: int| 1 <= ii < i ==> line_fits(header, line_cells(#[trigger] lines@[ii]@))
                    &&& 0 <= j < line_cells(lines@[i]@).len()
                    &&& !header_slot(header, j)
                    &&& forall|jj: int| 0 <= jj < j ==> header_slot(header, jj)
                    &&& m@ == extra_cell_message(j)
                }
            }),
    {
        let header: Vec<String> = if lines.len() > 0 {
            split_commas(trim(lines[0].as_str()))
        } else {
            Vec::new()
        };
        let ghost hv = views(header@);
        assert(hv == if lines@.len() > 0 { line_cells(lines@[0]@) } else { Seq::<Seq<char>>::empty() });
        let mut pk_name = opts.root_table_name.clone();
        pk_name.append(opts.column_id_postfix.as_str());
        let mut columns: Vec<String> = Vec::new();
        let mut k: usize = 0;
        assert(views(columns@).to_set() =~= hv.take(0).to_set());
        while k < header.len()
            invariant
                k <= header.len(),
                hv == views(header@),
                strictly_sorted(views(columns@)),
                views(columns@).to_set() == hv.take(k as int).to_set(),
            decreases header.len() - k,
        {
            insert_sorted(&mut columns, &header[k]);
            assert(hv.take(k + 1) =~= hv.take(k as int).push(header@[k as int]@));
            proof {
                lemma_push_to_set(hv.take(k as int), header@[k as int]@);
            }
            k = k + 1;
        }
        assert(hv.take(k as int) =~= hv);
        insert_sorted(&mut columns, &pk_name);
        let ghost cols = views(columns@).to_set();
        let mut rows: Vec<Row> = Vec::new();
        let mut i: usize = 1;
        while i < lines.len()
            invariant
                1 <= i,
                i <= lines.len() || lines.len() == 0,
                lines.len() == 0 ==> i == 1,
                hv == views(header@),
                hv == if lines@.len() > 0 { line_cells(lines@[0]@) } else { Seq::<Seq<char>>::empty() },
                cols == hv.to_set().insert(pk_name@),
                rows@.len() == i - 1,
                forall|ii: int| 1 <= ii < i ==> line_fits(hv, line_cells(#[trigger] lines@[ii]@)),
                forall|ii: int| 0 <= ii < rows@.len() ==> cell_keys(#[trigger] rows@[ii]@).to_set().subset_of(cols),
                forall|ii: int| 1 <= ii < i ==> cell_keys(#[trigger] rows@[ii - 1]@).to_set()
                    == loaded_keys(hv, line_cells(lines@[ii]@), line_cells(lines@[ii]@).len() as int),
                forall|ii: int, j: int| 1 <= ii < i && 0 <= j < line_cells(lines@[ii]@).len()
                    ==> value_view(cell_value(#[trigger] rows@[ii - 1]@, hv[j]))
                        == loaded_cell(#[trigger] line_cells(lines@[ii]@)[j]),
            decreases lines.len() - i,
        {
            let cells = split_commas(trim(lines[i].as_str()));
            let ghost cv = views(cells@);
            assert(cv == line_cells(lines@[i as int]@));
            let mut row = Row::new();
            let mut j: usize = 0;
            assert(cell_keys(row@).to_set() =~= hv.take(0).to_set());
            while j < cells.len()
                invariant
                    j <= cells.len(),
                    1 <= i < lines@.len(),
                    cv == views(cells@),
                    cv == line_cells(lines@[i as int]@),
                    hv == if lines@.len() > 0 { line_cells(lines@[0]@) } else { Seq::<Seq<char>>::empty() },
                    hv == views(header@),
                    forall|jj: int| 0 <= jj < j ==> header_slot(hv, jj),
                    cell_keys(row@).to_set().subset_of(hv.take(j as int).to_set()),
                    cell_keys(row@).to_set() == loaded_keys(hv, cv, j as int),
                    forall|ii: int| 1 <= ii < i ==> line_fits(hv, line_cells(#[trigger] lines@[ii]@)),
                    forall|jj: int| 0 <= jj < j ==> value_view(cell_value(row@, #[trigger] hv[jj])) == loaded_cell(cv[jj]),
                decreases cells.len() - j,
            {
                if !is_slot(&header, j) {
                    let mut msg = String::from_str("File has more columns in data than in header, index: ");
                    let num = crate::text::int_string(j as i128);
                    msg.append(num.as_str());
                    proof {
                        assert(!header_slot(hv, j as int));
                        assert(!line_fits(hv, line_cells(lines@[i as int]@)));
                        assert(msg@ == extra_cell_message(j as int));
                    }
                    return Err(CsvError::MissingColumn(msg));
                }
                let ghost prev = row@;
                let ghost name = hv[j as int];
                proof {
                    assert(!hv.take(j as int).contains(name));
                    if has_key(prev, name) {
                        let a = choose|a: int| 0 <= a < prev.len() && #[trigger] prev[a].0 == name;
                        assert(cell_keys(prev)[a] == name);
                        assert(cell_keys(prev).to_set().contains(name));
                    }
                    lemma_value_iff_key(prev, name);
                    assert(hv.take(j + 1) =~= hv.take(j as int).push(name));
                    lemma_push_to_set(hv.take(j as int), name);
                }
                match cell_scalar(&cells[j]) {
                    Some(v) => {
                        proof {
                            lemma_set_cell_keys(prev, name, v);
                            assert forall|jj: int| 0 <= jj < j implies value_view(cell_value(set_cell(prev, name, v), #[trigger] hv[jj]))
                                == loaded_cell(cv[jj]) by {
                                assert(hv.take(j as int)[jj] == hv[jj]);
                                lemma_value_after_set(prev, name, v, hv[jj]);
                            }
                            lemma_value_after_set(prev, name, v, name);
                        }
                        row.insert(header[j].clone(), v);
                    },
                    None => {},
                }
                j = j + 1;
            }
            proof {
                assert(line_fits(hv, cv));
                if j > 0 {
                    assert(header_slot(hv, j - 1));
                }
                assert(hv.take(j as int).to_set().subset_of(hv.to_set())) by {
                    assert forall|x: Seq<char>| hv.take(j as int).to_set().contains(x) implies hv.to_set().contains(x) by {
                        let a = choose|a: int| 0 <= a < j && hv.take(j as int)[a] == x;
                        assert(hv[a] == x);
                    }
                }
            }
            let ghost built = row@;
            rows.push(row);
            proof {
                assert(rows@[i - 1]@ == built);
                assert forall|ii: int| 1 <= ii < i + 1 implies cell_keys(#[trigger] rows@[ii - 1]@).to_set()
                    == loaded_keys(hv, line_cells(lines@[ii]@), line_cells(lines@[ii]@).len() as int) by {
                    if ii == i {
                        assert(cv == line_cells(lines@[ii]@));
                    }
                }
                assert forall|ii: int, jj: int| 1 <= ii < i + 1 && 0 <= jj < line_cells(lines@[ii]@).len()
                    implies value_view(cell_value(#[trigger] rows@[ii - 1]@, hv[jj]))
                        == loaded_cell(#[trigger] line_cells(lines@[ii]@)[jj]) by {
                    if ii == i {
                        assert(cv[jj] == line_cells(lines@[ii]@)[jj]);
                    }
                }
            }
            i = i + 1;
        }
        let t = Table {
            name: opts.root_table_name.clone(),
            pk_name,
            columns,
            rows,
            row_offset: 0,
            appending_mode: false,
            max_lens: Row::new(),
        };
        proof {
            assert(t.column_list().to_set().contains(t.pk_name@));
            assert(t@.rows.len() == rows@.len());
            assert forall|ii: int| 0 <= ii < t.rows@.len()
                implies cell_keys(#[trigger] t.rows@[ii]@).to_set().subset_of(t@.columns) by {
                assert(cell_keys(rows@[ii]@).to_set().subset_of(cols));
            }
            assert forall|ii: int, jj: int| 1 <= ii < lines@.len() && 0 <= jj < line_cells(lines@[ii]@).len()
                implies value_view(cell_value(#[trigger] t@.rows[ii - 1], hv[jj]))
                    == loaded_cell(#[trigger] line_cells(lines@[ii]@)[jj]) by {
                assert(t@.rows[ii - 1] == rows@[ii - 1]@);
            }

        }
        Ok(t)
    }
}

} // verus!
