use vstd::prelude::*;

use crate::err::CsvError;
use crate::opts::Opts;
use crate::row::{cell_keys, set_cell, Cells, Row};
use crate::sink::CsvFileInfo;
use crate::table::{csv_text, least_absent, flushed, next_key, opened_table, rejects, with_row, Table, TableView};
use crate::columns::contains_name;
use crate::text::{join_first, join_strings, join_with, lemma_views_push, views};
use crate::value::{capped, count_nodes, elems_node_count, members_node_count, node_count, JsonValue, Scalar};

verus! {

/// The name of the table at a nesting path: its names joined by `_`.
pub open spec fn path_name(path: Seq<Seq<char>>) -> Seq<char> {
    join_with(path, seq!['_'])
}

/// Whether some table is named `name`.
pub open spec fn has_table(ts: Seq<TableView>, name: Seq<char>) -> bool {
    exists|i: int| 0 <= i < ts.len() && #[trigger] ts[i].name == name
}

/// The position of the table named `name`.
pub open spec fn table_index(ts: Seq<TableView>, name: Seq<char>) -> int {
    choose|i: int| 0 <= i < ts.len() && #[trigger] ts[i].name == name
}

/// No two tables share a name.
pub open spec fn names_distinct(ts: Seq<TableView>) -> bool {
    forall|i: int, j: int| 0 <= i < j < ts.len() ==> #[trigger] ts[i].name != #[trigger] ts[j].name
}

/// A table that starts with no file behind it.
pub open spec fn fresh_table(name: Seq<char>, suffix: Seq<char>) -> TableView {
    opened_table(name, suffix, Seq::empty(), 0)
}

/// The tables once `name` exists: a fresh table is added where it is missing.
pub open spec fn ensure_table(ts: Seq<TableView>, name: Seq<char>, suffix: Seq<char>) -> Seq<TableView> {
    if has_table(ts, name) {
        ts
    } else {
        ts.push(fresh_table(name, suffix))
    }
}

/// The surrogate key that the next row of table `name` receives.
pub open spec fn key_count(ts: Seq<TableView>, name: Seq<char>) -> int {
    next_key(ts[table_index(ts, name)])
}

/// The tables after offering `row` to table `name`, and the column that
/// made the table refuse it, if any.
pub open spec fn add_to_table(ts: Seq<TableView>, name: Seq<char>, row: Cells) -> (Seq<TableView>, Option<Seq<char>>) {
    let i = table_index(ts, name);
    if rejects(ts[i], row) {
        (ts, least_absent(cell_keys(row), ts[i].columns))
    } else {
        (ts.update(i, with_row(ts[i], row)), None)
    }
}

/// `row` with the foreign key of the row that the parent path is about to
/// receive, where the path has a parent.
pub open spec fn link_parent(ts: Seq<TableView>, suffix: Seq<char>, path: Seq<Seq<char>>, row: Cells) -> Cells {
    if path.len() > 1 {
        let parent = path_name(path.drop_last());
        set_cell(row, parent + suffix, Scalar::Int(key_count(ts, parent) as i128))
    } else {
        row
    }
}

/// What walking one value yields to its caller.
pub enum Walked {
    /// A scalar, with the column name it goes under.
    Leaf(Seq<char>, Scalar),
    /// A container, which stored its own rows.
    Stored,
    /// A table refused a row for lack of this column.
    Refused(Seq<char>),
}

/// Walking `v` at `path`: the tables afterwards, and what the caller gets.
pub open spec fn walk(ts: Seq<TableView>, suffix: Seq<char>, path: Seq<Seq<char>>, v: JsonValue) -> (Seq<TableView>, Walked)
    decreases v, 0int,
{
    match v {
        JsonValue::Leaf(s) => (ts, Walked::Leaf(path.last(), s)),
        JsonValue::Object(es) => {
            let ts1 = ensure_table(ts, path_name(path), suffix);
            let (ts2, row, failed) = walk_members(ts1, suffix, path, es, es.len() as int);
            match failed {
                Some(k) => (ts2, Walked::Refused(k)),
                None => {
                    let (ts3, e) = add_to_table(ts2, path_name(path), link_parent(ts2, suffix, path, row));
                    match e {
                        Some(k) => (ts3, Walked::Refused(k)),
                        None => (ts3, Walked::Stored),
                    }
                },
            }
        },
        JsonValue::Array(vs) => {
            let ts1 = ensure_table(ts, path_name(path), suffix);
            let (ts2, failed) = walk_elems(ts1, suffix, path, vs, vs.len() as int);
            match failed {
                Some(k) => (ts2, Walked::Refused(k)),
                None => (ts2, Walked::Stored),
            }
        },
    }
}

/// Walking the first `n` members of an object at `path`: the tables
/// afterwards, the object's row so far, and the refused column, if any.
pub open spec fn walk_members(
    ts: Seq<TableView>,
    suffix: Seq<char>,
    path: Seq<Seq<char>>,
    es: Vec<(String, JsonValue)>,
    n: int,
) -> (Seq<TableView>, Cells, Option<Seq<char>>)
    decreases es, n,
{
    if n <= 0 || n > es.len() {
        (ts, Seq::empty(), None)
    } else {
        let (ts1, row1, failed) = walk_members(ts, suffix, path, es, n - 1);
        if failed is Some {
            (ts1, row1, failed)
        } else {
            let (ts2, w) = walk(ts1, suffix, path.push(es[n - 1].0@), es[n - 1].1);
            match w {
                Walked::Leaf(k, x) => (ts2, set_cell(row1, k, x), None),
                Walked::Stored => (ts2, row1, None),
                Walked::Refused(k) => (ts2, row1, Some(k)),
            }
        }
    }
}

/// Walking the first `n` elements of an array at `path`: each scalar
/// becomes a row of its own in the path's table.
pub open spec fn walk_elems(
    ts: Seq<TableView>,
    suffix: Seq<char>,
    path: Seq<Seq<char>>,
    vs: Vec<JsonValue>,
    n: int,
) -> (Seq<TableView>, Option<Seq<char>>)
    decreases vs, n,
{
    if n <= 0 || n > vs.len() {
        (ts, None)
    } else {
        let (ts1, failed) = walk_elems(ts, suffix, path, vs, n - 1);
        if failed is Some {
            (ts1, failed)
        } else {
            let (ts2, w) = walk(ts1, suffix, path, vs[n - 1]);
            match w {
                Walked::Leaf(k, x) => add_to_table(ts2, path_name(path), link_parent(ts2, suffix, path, seq![(k, x)])),
                Walked::Stored => (ts2, None),
                Walked::Refused(k) => (ts2, Some(k)),
            }
        }
    }
}

/// The names of the tables that walking `v` at `path` visits, in the order
/// of the visits, with repeats.
pub open spec fn visited(path: Seq<Seq<char>>, v: JsonValue) -> Seq<Seq<char>>
    decreases v, 0int,
{
    match v {
        JsonValue::Leaf(_) => Seq::empty(),
        JsonValue::Object(es) => seq![path_name(path)] + visited_members(path, es, es.len() as int),
        JsonValue::Array(vs) => seq![path_name(path)] + visited_elems(path, vs, vs.len() as int),
    }
}

/// The tables that walking the first `n` members of an object visits.
pub open spec fn visited_members(path: Seq<Seq<char>>, es: Vec<(String, JsonValue)>, n: int) -> Seq<Seq<char>>
    decreases es, n,
{
    if n <= 0 || n > es.len() {
        Seq::empty()
    } else {
        visited_members(path, es, n - 1) + visited(path.push(es[n - 1].0@), es[n - 1].1)
    }
}

/// The tables that walking the first `n` elements of an array visits.
pub open spec fn visited_elems(path: Seq<Seq<char>>, vs: Vec<JsonValue>, n: int) -> Seq<Seq<char>>
    decreases vs, n,
{
    if n <= 0 || n > vs.len() {
        Seq::empty()
    } else {
        visited_elems(path, vs, n - 1) + visited(path, vs[n - 1])
    }
}

/// Appends to `out` the names of the tables that walking `v` at `path` visits.
fn collect_visited(path: &mut Vec<String>, v: &JsonValue, out: &mut Vec<String>)
    ensures
        final(path)@ == old(path)@,
        views(final(out)@) == views(old(out)@) + visited(views(old(path)@), *v),
    decreases *v,
{
    let ghost pv = views(path@);
    let sep = "_";
    proof {
        reveal_strlit("_");
    }
    assert(sep@ =~= seq!['_']);
    match v {
        JsonValue::Leaf(_) => {
            assert(views(out@) =~= views(out@) + visited(pv, *v));
        },
        JsonValue::Object(es) => {
            let ghost start = views(out@);
            let name = join_strings(path.as_slice(), sep);
            proof {
                lemma_views_push(out@, name);
            }
            out.push(name);
            let mut i: usize = 0;
            assert(views(out@) =~= start + seq![path_name(pv)] + visited_members(pv, *es, 0));
            while i < es.len()
                invariant
                    i <= es.len(),
                    *v == JsonValue::Object(*es),
                    visited(pv, *v) == seq![path_name(pv)] + visited_members(pv, *es, es.len() as int),
                    path@ == old(path)@,
                    pv == views(path@),
                    views(out@) == start + seq![path_name(pv)] + visited_members(pv, *es, i as int),
                decreases es.len() - i,
            {
                let entry = &es[i];
                proof {
                    lemma_views_push(path@, entry.0);
                }
                path.push(entry.0.clone());
                collect_visited(path, &entry.1, out);
                let _ = path.pop();
                assert(path@ =~= old(path)@);
                assert(views(out@) =~= start + seq![path_name(pv)] + visited_members(pv, *es, i + 1));
                i = i + 1;
            }
            assert(views(out@) =~= start + visited(pv, *v));
        },
        JsonValue::Array(vs) => {
            let ghost start = views(out@);
            let name = join_strings(path.as_slice(), sep);
            proof {
                lemma_views_push(out@, name);
            }
            out.push(name);
            let mut i: usize = 0;
            assert(views(out@) =~= start + seq![path_name(pv)] + visited_elems(pv, *vs, 0));
            while i < vs.len()
                invariant
                    i <= vs.len(),
                    *v == JsonValue::Array(*vs),
                    visited(pv, *v) == seq![path_name(pv)] + visited_elems(pv, *vs, vs.len() as int),
                    path@ == old(path)@,
                    pv == views(path@),
                    views(out@) == start + seq![path_name(pv)] + visited_elems(pv, *vs, i as int),
                decreases vs.len() - i,
            {
                let item = &vs[i];
                collect_visited(path, item, out);
                assert(views(out@) =~= start + seq![path_name(pv)] + visited_elems(pv, *vs, i + 1));
                i = i + 1;
            }
            assert(views(out@) =~= start + visited(pv, *v));
        },
    }
}

/// A copy of the names.
fn copy_names(names: &[String]) -> (r: Vec<String>)
    ensures
        views(r@) == views(names@),
{
    let mut r: Vec<String> = Vec::new();
    let mut i: usize = 0;
    while i < names.len()
        invariant
            i <= names@.len(),
            views(r@) == views(names@).take(i as int),
        decreases names@.len() - i,
    {
        let n = names[i].clone();
        proof {
            lemma_views_push(r@, n);
        }
        r.push(n);
        assert(views(r@) =~= views(names@).take(i + 1));
        i = i + 1;
    }
    assert(views(names@).take(i as int) =~= views(names@));
    r
}

/// Room for `n` more rows in every table, and in a table yet to come.
pub open spec fn has_room(ts: Seq<TableView>, n: nat) -> bool {
    &&& n < usize::MAX
    &&& forall|i: int| 0 <= i < ts.len() ==> next_key(#[trigger] ts[i]) + n < usize::MAX
}

/// `ts2` keeps the tables of `ts` under their names, in their places, and
/// no table's key count grew by more than `n`.
pub open spec fn grew_at_most(ts: Seq<TableView>, ts2: Seq<TableView>, n: nat) -> bool {
    &&& ts.len() <= ts2.len()
    &&& forall|i: int| 0 <= i < ts.len() ==> (#[trigger] ts2[i]).name == ts[i].name
    &&& forall|i: int| 0 <= i < ts.len() ==> next_key(#[trigger] ts2[i]) <= next_key(ts[i]) + n
    &&& forall|i: int| ts.len() <= i < ts2.len() ==> next_key(#[trigger] ts2[i]) <= n
}

/// What the result of a walk stands for.
pub open spec fn outcome(r: Result<Option<(String, Scalar)>, CsvError>) -> Walked {
    match r {
        Ok(Some(p)) => Walked::Leaf(p.0@, p.1),
        Ok(None) => Walked::Stored,
        Err(CsvError::MissingColumn(k)) => Walked::Refused(k@),
        Err(_) => Walked::Refused(Seq::empty()),
    }
}

/// Growth adds up.
pub proof fn lemma_grew_trans(a: Seq<TableView>, b: Seq<TableView>, c: Seq<TableView>, n: nat, m: nat)
    requires
        grew_at_most(a, b, n),
        grew_at_most(b, c, m),
    ensures
        grew_at_most(a, c, n + m),
{
    assert forall|i: int| a.len() <= i < c.len() implies next_key(#[trigger] c[i]) <= n + m by {
        if i < b.len() {
            assert(next_key(c[i]) <= next_key(b[i]) + m);
        }
    }
    assert forall|i: int| 0 <= i < a.len() implies next_key(#[trigger] c[i]) <= next_key(a[i]) + n + m by {
        assert(next_key(c[i]) <= next_key(b[i]) + m);
    }
    assert forall|i: int| 0 <= i < a.len() implies (#[trigger] c[i]).name == a[i].name by {
        assert(c[i].name == b[i].name);
    }
}

/// A bound on growth also holds for any larger bound.
pub proof fn lemma_grew_weaken(a: Seq<TableView>, b: Seq<TableView>, n: nat, m: nat)
    requires
        grew_at_most(a, b, n),
        n <= m,
    ensures
        grew_at_most(a, b, m),
{
}

/// What room is left after some growth.
pub proof fn lemma_room_left(a: Seq<TableView>, b: Seq<TableView>, total: nat, used: nat, want: nat)
    requires
        has_room(a, total),
        grew_at_most(a, b, used),
        used + want <= total,
    ensures
        has_room(b, want),
{
    assert forall|i: int| 0 <= i < b.len() implies next_key(#[trigger] b[i]) + want < usize::MAX by {
        if i < a.len() {
            assert(next_key(b[i]) <= next_key(a[i]) + used);
            assert(next_key(a[i]) + total < usize::MAX);
        }
    }
}

/// Growth keeps every table that was there.
pub proof fn lemma_grew_keeps(a: Seq<TableView>, b: Seq<TableView>, n: nat, name: Seq<char>)
    requires
        grew_at_most(a, b, n),
        has_table(a, name),
    ensures
        has_table(b, name),
{
    let i = choose|i: int| 0 <= i < a.len() && #[trigger] a[i].name == name;
    assert(b[i].name == name);
}

/// The nodes of a prefix of the members are at most those of all members.
pub proof fn lemma_members_count_mono(es: Vec<(String, JsonValue)>, i: int, n: int)
    requires
        0 <= i <= n <= es.len(),
    ensures
        members_node_count(es, i) <= members_node_count(es, n),
    decreases n - i,
{
    if i < n {
        lemma_members_count_mono(es, i, n - 1);
    }
}

/// The nodes of a prefix of the elements are at most those of all elements.
pub proof fn lemma_elems_count_mono(vs: Vec<JsonValue>, i: int, n: int)
    requires
        0 <= i <= n <= vs.len(),
    ensures
        elems_node_count(vs, i) <= elems_node_count(vs, n),
    decreases n - i,
{
    if i < n {
        lemma_elems_count_mono(vs, i, n - 1);
    }
}

/// Once a member is refused, the walk of the later members changes nothing.
pub proof fn lemma_members_stop(
    ts: Seq<TableView>,
    suffix: Seq<char>,
    path: Seq<Seq<char>>,
    es: Vec<(String, JsonValue)>,
    m: int,
    n: int,
)
    requires
        0 <= m <= n <= es.len(),
        walk_members(ts, suffix, path, es, m).2 is Some,
    ensures
        walk_members(ts, suffix, path, es, n) == walk_members(ts, suffix, path, es, m),
    decreases n - m,
{
    if m < n {
        lemma_members_stop(ts, suffix, path, es, m, n - 1);
    }
}

/// Once an element is refused, the walk of the later elements changes nothing.
pub proof fn lemma_elems_stop(
    ts: Seq<TableView>,
    suffix: Seq<char>,
    path: Seq<Seq<char>>,
    vs: Vec<JsonValue>,
    m: int,
    n: int,
)
    requires
        0 <= m <= n <= vs.len(),
        walk_elems(ts, suffix, path, vs, m).1 is Some,
    ensures
        walk_elems(ts, suffix, path, vs, n) == walk_elems(ts, suffix, path, vs, m),
    decreases n - m,
{
    if m < n {
        lemma_elems_stop(ts, suffix, path, vs, m, n - 1);
    }
}

/// Offering a row grows one table by at most one key.
pub proof fn lemma_add_grows(ts: Seq<TableView>, name: Seq<char>, row: Cells)
    requires
        has_table(ts, name),
    ensures
        grew_at_most(ts, add_to_table(ts, name, row).0, 1),
{
    let i = table_index(ts, name);
    let r = add_to_table(ts, name, row).0;
    assert forall|j: int| 0 <= j < ts.len() implies next_key(#[trigger] r[j]) <= next_key(ts[j]) + 1 by {
    }
}

/// What a schema holds, as mathematical values.
pub struct SchemaView {
    pub tables: Seq<TableView>,
    /// What follows a table's name in the name of its key column.
    pub suffix: Seq<char>,
}

/// All tables of a run, by name, and the run's settings.
pub struct Schema {
    data: Vec<Table>,
    opts: Opts,
}

impl View for Schema {
    type V = SchemaView;

    closed spec fn view(&self) -> SchemaView {
        SchemaView { tables: self.data@.map_values(|t: Table| t@), suffix: self.opts.column_id_postfix@ }
    }
}

impl Schema {
    /// The schema's invariant.
    pub closed spec fn wf(&self) -> bool {
        &&& names_distinct(self@.tables)
        &&& forall|i: int| 0 <= i < self.data@.len() ==> (#[trigger] self.data@[i]).wf()
        &&& forall|i: int| 0 <= i < self.data@.len()
            ==> (#[trigger] self.data@[i])@.pk_name == self.data@[i]@.name + self@.suffix
    }

    /// A well-formed schema holds each table name once, so the laws over
    /// the walk apply to it.
    pub proof fn lemma_names_distinct(&self)
        requires
            self.wf(),
        ensures
            names_distinct(self@.tables),
    {
    }

    /// A schema with no tables.
    pub fn new(opts: Opts) -> (r: Schema)
        ensures
            r.wf(),
            r@.tables == Seq::<TableView>::empty(),
            r@.suffix == opts.column_id_postfix@,
            r.opts() == opts,
    {
        let r = Schema { data: Vec::new(), opts };
        assert(r@.tables =~= Seq::<TableView>::empty());
        r
    }

    /// The run's settings.
    pub closed spec fn opts(&self) -> Opts {
        self.opts
    }

    /// The run's settings.
    pub fn get_opts(&self) -> (r: &Opts)
        ensures
            *r == self.opts(),
    {
        &self.opts
    }

    /// The position of the table named `name`.
    fn find(&self, name: &String) -> (r: Option<usize>)
        requires
            self.wf(),
        ensures
            r is None ==> !has_table(self@.tables, name@),
            r matches Some(i) ==> i < self@.tables.len() && table_index(self@.tables, name@) == i
                && self@.tables[i as int].name == name@,
    {
        let mut i: usize = 0;
        while i < self.data.len()
            invariant
                i <= self.data.len(),
                self.wf(),
                forall|j: int| 0 <= j < i ==> self@.tables[j].name != name@,
            decreases self.data.len() - i,
        {
            let here: &String = self.data[i].name();
            assert(self@.tables[i as int] == self.data@[i as int]@);
            if *here == *name {
                proof {
                    assert(self@.tables[i as int].name == name@);
                    let c = table_index(self@.tables, name@);
                    assert(0 <= c < self@.tables.len() && self@.tables[c].name == name@);
                    if c != i {
                        if c < i {
                            assert(self@.tables[c].name != self@.tables[i as int].name);
                        } else {
                            assert(self@.tables[i as int].name != self@.tables[c].name);
                        }
                    }
                }
                return Some(i);
            }
            assert(self@.tables[i as int] == self.data@[i as int]@);
            i = i + 1;
        }
        None
    }

    /// Adds the table `table_name`, set up from what its file holds, unless
    /// the schema has it already.
    pub fn create_table(&mut self, table_name: String, sink: &CsvFileInfo)
        requires
            old(self).wf(),
        ensures
            final(self).wf(),
            final(self)@.suffix == old(self)@.suffix,
            final(self).opts() == old(self).opts(),
            final(self)@.tables == if has_table(old(self)@.tables, table_name@) {
                old(self)@.tables
            } else {
                old(self)@.tables.push(
                    opened_table(table_name@, old(self)@.suffix, views(sink.columns@), sink.lines_in_file as nat),
                )
            },
    {
        if self.find(&table_name).is_none() {
            let t = Table::new(table_name.as_str(), &self.opts, sink);
            let ghost old_tables = self@.tables;
            self.data.push(t);
            proof {
                assert(self@.tables =~= old_tables.push(t@));
                assert forall|i: int, j: int| 0 <= i < j < self@.tables.len()
                    implies #[trigger] self@.tables[i].name != #[trigger] self@.tables[j].name by {
                    if j == old_tables.len() {
                        assert(old_tables[i].name != table_name@);
                    }
                }
            }
        }
    }

    /// The number of tables.
    pub fn num_tables(&self) -> (r: usize)
        ensures
            r == self@.tables.len(),
    {
        self.data.len()
    }

    /// Table `i`.
    pub closed spec fn table_at(&self, i: int) -> Table {
        self.data@[i]
    }

    /// Table `i`.
    pub fn table(&self, i: usize) -> (r: &Table)
        requires
            self.wf(),
            i < self@.tables.len(),
        ensures
            r@ == self@.tables[i as int],
            *r == self.table_at(i as int),
            r.wf(),
    {
        &self.data[i]
    }

    /// The position of the table named `name`, if the schema has one.
    pub fn position_of(&self, name: &String) -> (r: Option<usize>)
        requires
            self.wf(),
        ensures
            r is None <==> !has_table(self@.tables, name@),
            r matches Some(i) ==> i < self@.tables.len() && self@.tables[i as int].name == name@,
    {
        self.find(name)
    }

    /// Whether the schema has a table named `name`.
    pub fn has_table(&self, name: &String) -> (r: bool)
        requires
            self.wf(),
        ensures
            r == has_table(self@.tables, name@),
    {
        self.find(name).is_some()
    }

    /// The name of the key column of table `s`: `s` and the run's suffix.
    pub fn as_fk(&self, s: &str) -> (r: String)
        ensures
            r@ == s@ + self@.suffix,
    {
        let mut r = String::from_str(s);
        r.append(self.opts.column_id_postfix.as_str());
        r
    }

    /// The surrogate key that the next row of the table at path `tables`
    /// receives: its buffered rows and those written before them.
    pub fn get_num_table_rows(&self, tables: &[String]) -> (r: usize)
        requires
            self.wf(),
            has_table(self@.tables, path_name(views(tables@))),
        ensures
            r == key_count(self@.tables, path_name(views(tables@))),
    {
        let sep = "_";
        proof {
            reveal_strlit("_");
        }
        assert(sep@ =~= seq!['_']);
        let name = join_strings(tables, sep);
        self.key_count_of(&name)
    }

    fn key_count_of(&self, name: &String) -> (r: usize)
        requires
            self.wf(),
            has_table(self@.tables, name@),
        ensures
            r == key_count(self@.tables, name@),
    {
        match self.find(name) {
            Some(i) => {
                let t = &self.data[i];
                proof {
                    assert(self@.tables[i as int] == t@);
                    assert(t.wf());
                    t.lemma_wf();
                }
                t.row_offset() + t.num_rows()
            },
            None => {
                assert(false);
                0
            },
        }
    }

    /// Offers `row` to table `name`; see [`Table::add_row`].
    fn add_row_to(&mut self, name: &String, row: Row) -> (r: Result<(), CsvError>)
        requires
            old(self).wf(),
            has_table(old(self)@.tables, name@),
            key_count(old(self)@.tables, name@) < usize::MAX,
        ensures
            final(self).wf(),
            final(self)@.suffix == old(self)@.suffix,
            final(self).opts() == old(self).opts(),
            add_to_table(old(self)@.tables, name@, row@) == (final(self)@.tables, match r {
                Ok(_) => None::<Seq<char>>,
                Err(CsvError::MissingColumn(k)) => Some(k@),
                Err(_) => Some(Seq::<char>::empty()),
            }),
            r is Err ==> r->Err_0 is MissingColumn,
    {
        match self.find(name) {
            Some(i) => {
                let ghost old_tables = self@.tables;
                assert(self.data@[i as int].wf());
                let r = self.data[i].add_row(row);
                proof {
                    if r is Ok {
                        assert(self@.tables =~= old_tables.update(i as int, with_row(old_tables[i as int], row@)));
                    } else {
                        assert(self@.tables =~= old_tables);
                    }
                    assert forall|a: int, b: int| 0 <= a < b < self@.tables.len()
                        implies #[trigger] self@.tables[a].name != #[trigger] self@.tables[b].name by {
                        assert(old_tables[a].name != old_tables[b].name);
                    }
                    assert forall|j: int| 0 <= j < self.data@.len() implies (#[trigger] self.data@[j]).wf()
                        && self.data@[j]@.pk_name == self.data@[j]@.name + self@.suffix by {
                        assert(old(self).data@[j].wf());
                    }
                }
                r
            },
            None => {
                assert(false);
                Ok(())
            },
        }
    }


    /// Adds a fresh table `name` unless the schema has it.
    fn ensure_fresh(&mut self, name: &String)
        requires
            old(self).wf(),
        ensures
            final(self).wf(),
            final(self)@.suffix == old(self)@.suffix,
            final(self).opts() == old(self).opts(),
            final(self)@.tables == ensure_table(old(self)@.tables, name@, old(self)@.suffix),
            grew_at_most(old(self)@.tables, final(self)@.tables, 0),
            has_table(final(self)@.tables, name@),
    {
        let none = CsvFileInfo { columns: Vec::new(), lines_in_file: 0 };
        assert(views(none.columns@) =~= Seq::<Seq<char>>::empty());
        self.create_table(name.clone(), &none);
        proof {
            let ts = self@.tables;
            if !has_table(old(self)@.tables, name@) {
                assert(ts[ts.len() - 1].name == name@);
            }
        }
    }

    /// Walks `val`, found at `path`: each object becomes a row of the table
    /// named after its path, each scalar of an array a row of the array's
    /// table, and a scalar goes back to the caller under the path's last name.
    fn walk_value(&mut self, path: &mut Vec<String>, val: &JsonValue) -> (r: Result<Option<(String, Scalar)>, CsvError>)
        requires
            old(self).wf(),
            old(path)@.len() >= 1,
            old(path)@.len() > 1 && !(*val is Leaf) ==> has_table(
                old(self)@.tables,
                path_name(views(old(path)@).drop_last()),
            ),
            *val is Leaf || has_room(old(self)@.tables, node_count(*val)),
        ensures
            final(self).wf(),
            final(self)@.suffix == old(self)@.suffix,
            final(self).opts() == old(self).opts(),
            final(path)@ == old(path)@,
            walk(old(self)@.tables, old(self)@.suffix, views(old(path)@), *val) == (final(self)@.tables, outcome(r)),
            r is Err ==> r->Err_0 is MissingColumn,
            grew_at_most(old(self)@.tables, final(self)@.tables, node_count(*val)),
        decreases *val,
    {
        let ghost ts0 = self@.tables;
        let ghost sfx = self@.suffix;
        let ghost pv = views(path@);
        let sep = "_";
        proof {
            reveal_strlit("_");
        }
        assert(sep@ =~= seq!['_']);
        match val {
            JsonValue::Leaf(s) => {
                let k = path[path.len() - 1].clone();
                assert(k@ == pv.last());
                Ok(Some((k, s.duplicate())))
            },
            JsonValue::Object(es) => {
                let name = join_strings(path.as_slice(), sep);
                self.ensure_fresh(&name);
                let ghost ts1 = self@.tables;
                let mut row = Row::new();
                let mut i: usize = 0;
                assert(walk_members(ts1, sfx, pv, *es, 0).1 =~= row@);
                while i < es.len()
                    invariant
                        self.wf(),
                        self@.suffix == sfx,
                        self.opts() == old(self).opts(),
                        path@ == old(path)@,
                        pv == views(path@),
                        name@ == path_name(pv),
                        sep@ == seq!['_'],
                        ts0 == old(self)@.tables,
                        sfx == old(self)@.suffix,
                        ts1 == ensure_table(ts0, name@, sfx),
                        i <= es.len(),
                        *val == JsonValue::Object(*es),
                        walk_members(ts1, sfx, pv, *es, i as int) == (self@.tables, row@, None::<Seq<char>>),
                        grew_at_most(ts0, ts1, 0),
                        grew_at_most(ts1, self@.tables, members_node_count(*es, i as int)),
                        has_room(ts0, node_count(*val)),
                        has_table(ts1, name@),
                        path@.len() > 1 ==> has_table(ts0, path_name(pv.drop_last())),
                        path@.len() >= 1,
                    decreases es.len() - i,
                {
                    let entry = &es[i];
                    let ghost before = self@.tables;
                    proof {
                        lemma_members_count_mono(*es, i + 1, es.len() as int);
                        lemma_grew_trans(ts0, ts1, before, 0, members_node_count(*es, i as int));
                        lemma_room_left(ts0, before, node_count(*val), members_node_count(*es, i as int), node_count(entry.1));
                        lemma_grew_keeps(ts1, before, members_node_count(*es, i as int), name@);
                        lemma_views_push(path@, entry.0);
                    }
                    path.push(entry.0.clone());
                    assert(views(path@).drop_last() == pv);
                    let r = self.walk_value(path, &entry.1);
                    let _ = path.pop();
                    assert(path@ =~= old(path)@);
                    proof {
                        lemma_grew_trans(ts1, before, self@.tables, members_node_count(*es, i as int), node_count(entry.1));
                    }
                    match r {
                        Ok(Some(p)) => {
                            row.insert(p.0, p.1);
                        },
                        Ok(None) => {},
                        Err(e) => {
                            proof {
                                lemma_members_stop(ts1, sfx, pv, *es, i + 1, es.len() as int);
                                lemma_grew_trans(ts0, ts1, self@.tables, 0, members_node_count(*es, i + 1));
                                lemma_grew_weaken(ts0, self@.tables, members_node_count(*es, i + 1), node_count(*val));
                            }
                            return Err(e);
                        },
                    }
                    i = i + 1;
                }
                let ghost ts2 = self@.tables;
                proof {
                    lemma_grew_trans(ts0, ts1, ts2, 0, members_node_count(*es, i as int));
                    lemma_grew_keeps(ts1, ts2, members_node_count(*es, i as int), name@);
                    lemma_room_left(ts0, ts2, node_count(*val), members_node_count(*es, i as int), 1);
                }
                if path.len() > 1 {
                    let parent = join_first(path.as_slice(), path.len() - 1, sep);
                    assert(views(path@).take(path@.len() - 1) =~= pv.drop_last());
                    proof {
                        lemma_grew_keeps(ts0, ts2, members_node_count(*es, i as int), parent@);
                    }
                    let n = self.key_count_of(&parent);
                    row.insert(self.as_fk(parent.as_str()), Scalar::Int(n as i128));
                }
                assert(row@ == link_parent(ts2, sfx, pv, walk_members(ts1, sfx, pv, *es, es.len() as int).1));
                let r = self.add_row_to(&name, row);
                proof {
                    lemma_add_grows(ts2, name@, row@);
                    lemma_grew_trans(ts0, ts2, self@.tables, members_node_count(*es, i as int), 1);
                }
                match r {
                    Ok(()) => Ok(None),
                    Err(e) => Err(e),
                }
            },
            JsonValue::Array(vs) => {
                let name = join_strings(path.as_slice(), sep);
                self.ensure_fresh(&name);
                let ghost ts1 = self@.tables;
                let mut i: usize = 0;
                while i < vs.len()
                    invariant
                        self.wf(),
                        self@.suffix == sfx,
                        self.opts() == old(self).opts(),
                        path@ == old(path)@,
                        pv == views(path@),
                        name@ == path_name(pv),
                        sep@ == seq!['_'],
                        ts0 == old(self)@.tables,
                        sfx == old(self)@.suffix,
                        ts1 == ensure_table(ts0, name@, sfx),
                        i <= vs.len(),
                        *val == JsonValue::Array(*vs),
                        walk_elems(ts1, sfx, pv, *vs, i as int) == (self@.tables, None::<Seq<char>>),
                        grew_at_most(ts0, ts1, 0),
                        grew_at_most(ts1, self@.tables, elems_node_count(*vs, i as int)),
                        has_room(ts0, node_count(*val)),
                        has_table(ts1, name@),
                        path@.len() > 1 ==> has_table(ts0, path_name(pv.drop_last())),
                        path@.len() >= 1,
                    decreases vs.len() - i,
                {
                    let item = &vs[i];
                    let ghost before = self@.tables;
                    proof {
                        lemma_elems_count_mono(*vs, i + 1, vs.len() as int);
                        lemma_grew_trans(ts0, ts1, before, 0, elems_node_count(*vs, i as int));
                        lemma_room_left(ts0, before, node_count(*val), elems_node_count(*vs, i as int), node_count(*item));
                        lemma_grew_keeps(ts1, before, elems_node_count(*vs, i as int), name@);
                        if path@.len() > 1 {
                            lemma_grew_keeps(ts0, before, elems_node_count(*vs, i as int), path_name(pv.drop_last()));
                        }
                    }
                    let r = self.walk_value(path, item);
                    let ghost mid = self@.tables;
                    proof {
                        lemma_grew_trans(ts1, before, mid, elems_node_count(*vs, i as int), node_count(*item));
                    }
                    match r {
                        Ok(Some(p)) => {
                            let mut row = Row::new();
                            row.insert(p.0, p.1);
                            assert(row@ =~= seq![(p.0@, p.1)]);
                            proof {
                                lemma_grew_trans(ts0, ts1, mid, 0, elems_node_count(*vs, i + 1));
                                lemma_grew_keeps(ts1, mid, elems_node_count(*vs, i + 1), name@);
                                lemma_room_left(ts0, mid, node_count(*val), elems_node_count(*vs, i + 1), 1);
                            }
                            if path.len() > 1 {
                                let parent = join_first(path.as_slice(), path.len() - 1, sep);
                                assert(views(path@).take(path@.len() - 1) =~= pv.drop_last());
                                proof {
                                    lemma_grew_keeps(ts0, mid, elems_node_count(*vs, i + 1), parent@);
                                }
                                let n = self.key_count_of(&parent);
                                row.insert(self.as_fk(parent.as_str()), Scalar::Int(n as i128));
                            }
                            assert(row@ == link_parent(mid, sfx, pv, seq![(p.0@, p.1)]));
                            let added = self.add_row_to(&name, row);
                            proof {
                                lemma_add_grows(mid, name@, row@);
                            }
                            match added {
                                Ok(()) => {},
                                Err(e) => {
                                    proof {
                                        lemma_elems_stop(ts1, sfx, pv, *vs, i + 1, vs.len() as int);
                                        lemma_grew_trans(ts0, mid, self@.tables, elems_node_count(*vs, i + 1), 1);
                                        lemma_elems_count_mono(*vs, i + 1, vs.len() as int);
                                        lemma_grew_weaken(ts0, self@.tables, elems_node_count(*vs, i + 1) + 1, node_count(*val));
                                    }
                                    return Err(e);
                                },
                            }
                        },
                        Ok(None) => {},
                        Err(e) => {
                            proof {
                                lemma_elems_stop(ts1, sfx, pv, *vs, i + 1, vs.len() as int);
                                lemma_grew_trans(ts0, ts1, self@.tables, 0, elems_node_count(*vs, i + 1));
                                lemma_grew_weaken(ts0, self@.tables, elems_node_count(*vs, i + 1), node_count(*val));
                            }
                            return Err(e);
                        },
                    }
                    i = i + 1;
                }
                proof {
                    lemma_grew_trans(ts0, ts1, self@.tables, 0, elems_node_count(*vs, i as int));
                    lemma_grew_weaken(ts0, self@.tables, elems_node_count(*vs, i as int), node_count(*val));
                }
                Ok(None)
            },
        }
    }

    /// Walks `val`, found at the nesting path `parents`, into the tables:
    /// each object becomes one row of the table named after its path, with
    /// a column for each scalar member; each scalar of an array becomes a row
    /// of the array's table; a row below the top level carries the key of the
    /// row that its parent object is about to receive. A scalar is handed back
    /// with the last name of the path. A table that appends to a file refuses
    /// a row with a column its header lacks, which ends the walk.
    pub fn walk_props(&mut self, parents: Vec<String>, val: JsonValue) -> (r: Result<Option<(String, Scalar)>, CsvError>)
        requires
            old(self).wf(),
            parents@.len() >= 1,
            parents@.len() > 1 && !(val is Leaf) ==> has_table(
                old(self)@.tables,
                path_name(views(parents@).drop_last()),
            ),
            val is Leaf || has_room(old(self)@.tables, node_count(val)),
        ensures
            final(self).wf(),
            final(self)@.suffix == old(self)@.suffix,
            final(self).opts() == old(self).opts(),
            walk(old(self)@.tables, old(self)@.suffix, views(parents@), val) == (final(self)@.tables, outcome(r)),
            r is Err ==> r->Err_0 is MissingColumn,
    {
        let mut path = parents;
        self.walk_value(&mut path, &val)
    }

    /// Whether every table, and any table yet to come, has room for the rows
    /// that walking `val` may add.
    pub fn has_room_for(&self, val: &JsonValue) -> (r: bool)
        requires
            self.wf(),
        ensures
            r == has_room(self@.tables, node_count(*val)),
    {
        let n = count_nodes(val);
        if n == usize::MAX {
            return false;
        }
        let mut i: usize = 0;
        while i < self.data.len()
            invariant
                i <= self.data.len(),
                n == node_count(*val),
                n < usize::MAX,
                self.wf(),
                forall|j: int| 0 <= j < i ==> next_key(#[trigger] self@.tables[j]) + n < usize::MAX,
            decreases self.data.len() - i,
        {
            let t = &self.data[i];
            proof {
                assert(self@.tables[i as int] == t@);
                assert(t.wf());
                t.lemma_wf();
            }
            let used = t.row_offset() + t.num_rows();
            if used >= usize::MAX - n {
                return false;
            }
            i = i + 1;
        }
        true
    }

    /// Hands out the buffered rows of table `i` as the text to append to its
    /// file (with the header first where `sink_is_empty`) and empties its
    /// buffer; see [`Table::flush_to_file`].
    pub fn flush_table(&mut self, i: usize, sink_is_empty: bool) -> (r: String)
        requires
            old(self).wf(),
            i < old(self)@.tables.len(),
        ensures
            final(self).wf(),
            final(self)@.suffix == old(self)@.suffix,
            final(self).opts() == old(self).opts(),
            r@ == csv_text(old(self).table_at(i as int).column_list(), old(self)@.tables[i as int].rows, sink_is_empty),
            final(self)@.tables == old(self)@.tables.update(i as int, flushed(old(self)@.tables[i as int])),
            final(self)@.tables[i as int].rows.len() == 0,
            final(self).table_at(i as int).column_list() == old(self).table_at(i as int).column_list(),
    {
        let ghost old_tables = self@.tables;
        assert(self.data@[i as int].wf());
        let r = self.data[i].flush_to_file(sink_is_empty);
        proof {
            assert(self@.tables =~= old_tables.update(i as int, flushed(old_tables[i as int])));
            assert forall|a: int, b: int| 0 <= a < b < self@.tables.len()
                implies #[trigger] self@.tables[a].name != #[trigger] self@.tables[b].name by {
                assert(old_tables[a].name != old_tables[b].name);
            }
            assert forall|j: int| 0 <= j < self.data@.len() implies (#[trigger] self.data@[j]).wf()
                && self.data@[j]@.pk_name == self.data@[j]@.name + self@.suffix by {
                assert(old(self).data@[j].wf());
            }
        }
        r
    }

    /// Offers `row` to the table at path `tables`; see [`Table::add_row`].
    pub fn add_table_row(&mut self, tables: &[String], row: Row) -> (r: Result<(), CsvError>)
        requires
            old(self).wf(),
            has_table(old(self)@.tables, path_name(views(tables@))),
            key_count(old(self)@.tables, path_name(views(tables@))) < usize::MAX,
        ensures
            final(self).wf(),
            final(self)@.suffix == old(self)@.suffix,
            final(self).opts() == old(self).opts(),
            add_to_table(old(self)@.tables, path_name(views(tables@)), row@) == (final(self)@.tables, match r {
                Ok(_) => None::<Seq<char>>,
                Err(CsvError::MissingColumn(k)) => Some(k@),
                Err(_) => Some(Seq::<char>::empty()),
            }),
            r is Err ==> r->Err_0 is MissingColumn,
    {
        let sep = "_";
        proof {
            reveal_strlit("_");
        }
        assert(sep@ =~= seq!['_']);
        let name = join_strings(tables, sep);
        self.add_row_to(&name, row)
    }

    /// The names of the tables that walking `val` at `parents` visits and
    /// that the schema lacks, each once: the tables to set up from their
    /// files before the walk.
    pub fn tables_needed(&self, parents: &[String], val: &JsonValue) -> (r: Vec<String>)
        requires
            self.wf(),
        ensures
            views(r@).no_duplicates(),
            forall|n: Seq<char>| #[trigger] views(r@).contains(n)
                <==> visited(views(parents@), *val).contains(n) && !has_table(self@.tables, n),
    {
        let mut path = copy_names(parents);
        let mut all: Vec<String> = Vec::new();
        collect_visited(&mut path, val, &mut all);
        assert(views(all@) =~= visited(views(parents@), *val));
        let mut r: Vec<String> = Vec::new();
        let mut i: usize = 0;
        while i < all.len()
            invariant
                i <= all.len(),
                self.wf(),
                views(all@) == visited(views(parents@), *val),
                views(r@).no_duplicates(),
                forall|n: Seq<char>| #[trigger] views(r@).contains(n)
                    <==> views(all@).take(i as int).contains(n) && !has_table(self@.tables, n),
            decreases all.len() - i,
        {
            let name = &all[i];
            let ghost prev = views(r@);
            assert(forall|n: Seq<char>| #[trigger] prev.contains(n)
                <==> views(all@).take(i as int).contains(n) && !has_table(self@.tables, n));
            let ghost before = views(all@).take(i as int);
            let ghost after = views(all@).take(i + 1);
            assert(after =~= before.push(name@));
            let present = self.has_table(name);
            let seen = contains_name(&r, name);
            let fresh = !present && !seen;
            if fresh {
                let copy = name.clone();
                proof {
                    lemma_views_push(r@, copy);
                }
                r.push(copy);
            }
            proof {
                assert forall|n: Seq<char>| #[trigger] views(r@).contains(n)
                    <==> after.contains(n) && !has_table(self@.tables, n) by {
                    assert(prev.contains(n) <==> before.contains(n) && !has_table(self@.tables, n));
                    assert(after[i as int] == name@);
                    if !fresh {
                        assert(views(r@) == prev);
                    }
                    if before.contains(n) {
                        let a = choose|a: int| 0 <= a < before.len() && before[a] == n;
                        assert(after[a] == n);
                    }
                    if after.contains(n) && n != name@ {
                        let a = choose|a: int| 0 <= a < after.len() && after[a] == n;
                        assert(before[a] == n);
                    }
                    if n == name@ && !fresh {
                        if !present {
                            assert(prev.contains(n));
                        }
                    }
                    if fresh {
                        if views(r@).contains(n) && n != name@ {
                            let a = choose|a: int| 0 <= a < views(r@).len() && views(r@)[a] == n;
                            assert(prev[a] == n);
                        }
                        if prev.contains(n) {
                            let a = choose|a: int| 0 <= a < prev.len() && prev[a] == n;
                            assert(views(r@)[a] == n);
                        }
                        if n == name@ {
                            assert(views(r@)[prev.len() as int] == n);
                        }
                    }
                }
                if fresh {
                    assert forall|a: int, b: int| 0 <= a < views(r@).len() && 0 <= b < views(r@).len() && a != b
                        implies views(r@)[a] != views(r@)[b] by {
                        if b == prev.len() {
                            assert(prev.contains(prev[a]));
                        } else if a == prev.len() {
                            assert(prev.contains(prev[b]));
                        }
                    }
                }
            }
            i = i + 1;
        }
        assert(views(all@).take(i as int) =~= views(all@));
        r
    }
}

} // verus!
