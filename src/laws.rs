use vstd::prelude::*;

use crate::row::{
    cell_keys, cell_value, has_key, lemma_set_cell_keys, lemma_value_after_push_found, lemma_value_of_push_new, set_cell,
    set_cell_if_absent, Cells,
};
use crate::table::{cell_text, csv_text, flushed, next_key, opened_table, rejects, row_line, rows_text, with_row, TableView};
use crate::schema::{
    add_to_table, ensure_table, has_table, key_count, link_parent, names_distinct, path_name, table_index, visited,
    visited_elems, visited_members, walk, walk_elems, walk_members, Walked,
};
use crate::text::join_with;
use crate::value::{JsonValue, Scalar};

verus! {

/// `t` after accepting each of `rows` in turn.
pub open spec fn accept_all(t: TableView, rows: Seq<Cells>) -> TableView
    decreases rows.len(),
{
    if rows.len() == 0 {
        t
    } else {
        with_row(accept_all(t, rows.drop_last()), rows.last())
    }
}

/// Every column name that occurs in `rows`.
pub open spec fn keys_of_all(rows: Seq<Cells>) -> Set<Seq<char>>
    decreases rows.len(),
{
    if rows.len() == 0 {
        Set::empty()
    } else {
        keys_of_all(rows.drop_last()).union(cell_keys(rows.last()).to_set())
    }
}

/// On a table that does not append to a file, every row is accepted, the
/// columns become exactly those it had and every key of every row added,
/// and the key column stays among them.
pub proof fn lemma_fresh_columns_grow(t: TableView, rows: Seq<Cells>)
    requires
        !t.appending,
        t.columns.contains(t.pk_name),
    ensures
        forall|i: int| 0 <= i < rows.len() ==> !rejects(#[trigger] accept_all(t, rows.take(i)), rows[i]),
        accept_all(t, rows).columns == t.columns.union(keys_of_all(rows)),
        accept_all(t, rows).columns.contains(t.pk_name),
        accept_all(t, rows).rows.len() == t.rows.len() + rows.len(),
    decreases rows.len(),
{
    if rows.len() > 0 {
        let init = rows.drop_last();
        lemma_fresh_columns_grow(t, init);
        assert forall|i: int| 0 <= i < rows.len() implies !rejects(#[trigger] accept_all(t, rows.take(i)), rows[i]) by {
            lemma_accept_keeps_mode(t, rows.take(i));
        }
        assert(t.columns.union(keys_of_all(init)).union(cell_keys(rows.last()).to_set())
            =~= t.columns.union(keys_of_all(rows)));
    }
}

/// Accepting rows changes neither the mode, the key column nor the offset.
pub proof fn lemma_accept_keeps_mode(t: TableView, rows: Seq<Cells>)
    ensures
        accept_all(t, rows).appending == t.appending,
        accept_all(t, rows).pk_name == t.pk_name,
        accept_all(t, rows).row_offset == t.row_offset,
        accept_all(t, rows).name == t.name,
        accept_all(t, rows).rows.len() == t.rows.len() + rows.len(),
        accept_all(t, rows).rows.take(t.rows.len() as int) == t.rows,
    decreases rows.len(),
{
    if rows.len() > 0 {
        lemma_accept_keeps_mode(t, rows.drop_last());
        let prev = accept_all(t, rows.drop_last());
        assert(with_row(prev, rows.last()).rows.take(t.rows.len() as int) =~= prev.rows.take(t.rows.len() as int));
    }
}

/// Where every key is among `cols`, none is absent.
pub proof fn lemma_none_absent(keys: Seq<Seq<char>>, cols: Set<Seq<char>>)
    requires
        forall|i: int| 0 <= i < keys.len() ==> cols.contains(#[trigger] keys[i]),
    ensures
        crate::table::least_absent(keys, cols) is None,
{
    crate::table::lemma_least_absent(keys, cols);
}

/// Rows whose columns the table has leave its columns as they are.
pub proof fn lemma_accept_known_columns(t: TableView, rows: Seq<Cells>)
    requires
        forall|i: int| 0 <= i < rows.len() ==> cell_keys(#[trigger] rows[i]).to_set().subset_of(t.columns),
    ensures
        accept_all(t, rows).columns == t.columns,
    decreases rows.len(),
{
    if rows.len() > 0 {
        lemma_accept_known_columns(t, rows.drop_last());
        assert(cell_keys(rows[rows.len() - 1]).to_set().subset_of(t.columns));
        assert(t.columns.union(cell_keys(rows.last()).to_set()) =~= t.columns);
    }
}

/// A table that appends to a file accepts, in a new session, rows that use
/// only the columns of the file's header, and the `n`-th of them receives
/// the surrogate key `row_offset + n`.
pub proof fn lemma_append_keys(t: TableView, rows: Seq<Cells>)
    requires
        t.appending,
        t.rows.len() == 0,
        forall|i: int| 0 <= i < rows.len() ==> cell_keys(#[trigger] rows[i]).to_set().subset_of(t.columns),
        forall|i: int| 0 <= i < rows.len() ==> !has_key(#[trigger] rows[i], t.pk_name),
    ensures
        forall|i: int| 0 <= i < rows.len() ==> !rejects(#[trigger] accept_all(t, rows.take(i)), rows[i]),
        accept_all(t, rows).rows.len() == rows.len(),
        forall|n: int| 0 <= n < rows.len() ==> cell_value(#[trigger] accept_all(t, rows).rows[n], t.pk_name)
            == Some(Scalar::Int((t.row_offset + n) as i128)),
    decreases rows.len(),
{
    lemma_accept_keeps_mode(t, rows);
    assert forall|i: int| 0 <= i < rows.len() implies !rejects(#[trigger] accept_all(t, rows.take(i)), rows[i]) by {
        let pre = rows.take(i);
        assert forall|j: int| 0 <= j < pre.len() implies cell_keys(#[trigger] pre[j]).to_set().subset_of(t.columns) by {
            assert(pre[j] == rows[j]);
        }
        lemma_accept_known_columns(t, pre);
        assert forall|j: int| 0 <= j < cell_keys(rows[i]).len() implies t.columns.contains(#[trigger] cell_keys(rows[i])[j]) by {
            assert(cell_keys(rows[i]).to_set().contains(cell_keys(rows[i])[j]));
        }
        lemma_none_absent(cell_keys(rows[i]), t.columns);
    }
    if rows.len() > 0 {
        let init = rows.drop_last();
        lemma_append_keys(t, init);
        lemma_accept_keeps_mode(t, init);
        let prev = accept_all(t, init);
        let last = rows.last();
        assert(!has_key(last, t.pk_name));
        lemma_value_of_push_new(last, t.pk_name, Scalar::Int(next_key(prev) as i128));
        assert forall|n: int| 0 <= n < rows.len() implies cell_value(#[trigger] accept_all(t, rows).rows[n], t.pk_name)
            == Some(Scalar::Int((t.row_offset + n) as i128)) by {
            if n < init.len() {
                assert(accept_all(t, rows).rows[n] == prev.rows[n]);
                assert(init[n] == rows[n]);
            }
        }
    }
}

/// The number of line breaks in `s`.
pub open spec fn newlines(s: Seq<char>) -> nat
    decreases s.len(),
{
    if s.len() == 0 {
        0
    } else {
        newlines(s.drop_last()) + if s.last() == '\n' {
            1nat
        } else {
            0nat
        }
    }
}

/// The number of lines of a file holding `s`, which ends without a line break.
pub open spec fn line_count(s: Seq<char>) -> nat {
    if s.len() == 0 {
        0
    } else {
        newlines(s) + 1
    }
}

/// A one-character text has a line break exactly where the character is one.
pub proof fn lemma_newlines_single(c: char)
    ensures
        newlines(seq![c]) == if c == '\n' {
            1nat
        } else {
            0nat
        },
{
    assert(seq![c].drop_last() =~= Seq::<char>::empty());
    assert(newlines(Seq::<char>::empty()) == 0);
}

/// The line breaks of two texts add up.
pub proof fn lemma_newlines_concat(a: Seq<char>, b: Seq<char>)
    ensures
        newlines(a + b) == newlines(a) + newlines(b),
    decreases b.len(),
{
    if b.len() == 0 {
        assert(a + b =~= a);
    } else {
        assert((a + b).drop_last() =~= a + b.drop_last());
        lemma_newlines_concat(a, b.drop_last());
    }
}

/// Joining pieces without line breaks gives a text without line breaks.
pub proof fn lemma_join_newlines(parts: Seq<Seq<char>>, sep: Seq<char>)
    requires
        newlines(sep) == 0,
        forall|i: int| 0 <= i < parts.len() ==> newlines(#[trigger] parts[i]) == 0,
    ensures
        newlines(join_with(parts, sep)) == 0,
    decreases parts.len(),
{
    if parts.len() > 1 {
        lemma_join_newlines(parts.drop_last(), sep);
        lemma_newlines_concat(join_with(parts.drop_last(), sep), sep);
        lemma_newlines_concat(join_with(parts.drop_last(), sep) + sep, parts.last());
    }
}

/// Whether no column name and no cell text of `rows` holds a line break.
pub open spec fn single_line_cells(cols: Seq<Seq<char>>, rows: Seq<Cells>) -> bool {
    &&& forall|i: int| 0 <= i < cols.len() ==> newlines(#[trigger] cols[i]) == 0
    &&& forall|r: int, i: int| 0 <= r < rows.len() && 0 <= i < cols.len()
        ==> newlines(#[trigger] cell_text(rows[r], cols[i])) == 0
}

/// Each row takes one line.
pub proof fn lemma_rows_text_newlines(cols: Seq<Seq<char>>, rows: Seq<Cells>)
    requires
        single_line_cells(cols, rows),
    ensures
        newlines(rows_text(cols, rows)) == rows.len(),
    decreases rows.len(),
{
    if rows.len() > 0 {
        let init = rows.drop_last();
        assert forall|r: int, i: int| 0 <= r < init.len() && 0 <= i < cols.len()
            implies newlines(#[trigger] cell_text(init[r], cols[i])) == 0 by {
            assert(init[r] == rows[r]);
        }
        lemma_rows_text_newlines(cols, init);
        let cells = cols.map_values(|c: Seq<char>| cell_text(rows.last(), c));
        assert forall|i: int| 0 <= i < cells.len() implies newlines(#[trigger] cells[i]) == 0 by {
            assert(cell_text(rows[rows.len() - 1], cols[i]) == cells[i]);
        }
        lemma_newlines_single(',');
        lemma_join_newlines(cells, seq![',']);
        lemma_newlines_single('\n');
        lemma_newlines_concat(rows_text(cols, init), seq!['\n']);
        lemma_newlines_concat(rows_text(cols, init) + seq!['\n'], row_line(cols, rows.last()));
    }
}

/// Writing out a table's rows and setting the table up again from the file
/// continues the surrogate keys where the written rows stopped: the next
/// row receives the key that it would have received without the restart.
/// This holds where the file's lines were all written this way, so that the
/// table's offset is the file's line count less its header, and no column
/// name or cell spans lines.
pub proof fn lemma_flush_then_reopen(
    t: TableView,
    cols: Seq<Seq<char>>,
    sink: Seq<char>,
    suffix: Seq<char>,
    header: Seq<Seq<char>>,
)
    requires
        t.row_offset == opened_table(t.name, suffix, header, line_count(sink)).row_offset,
        single_line_cells(cols, t.rows),
    ensures
        ({
            let written = sink + csv_text(cols, t.rows, line_count(sink) == 0);
            let reopened = opened_table(t.name, suffix, header, line_count(written));
            &&& reopened.row_offset == flushed(t).row_offset
            &&& next_key(reopened) == next_key(t)
        }),
{
    let text = csv_text(cols, t.rows, line_count(sink) == 0);
    let written = sink + text;
    lemma_rows_text_newlines(cols, t.rows);
    lemma_newlines_concat(sink, text);
    if line_count(sink) == 0 {
        assert(sink.len() == 0);
        assert(written =~= text);
        let h = join_with(cols, seq![',']);
        lemma_newlines_single(',');
        lemma_join_newlines(cols, seq![',']);
        lemma_newlines_concat(h, rows_text(cols, t.rows));
        if text.len() == 0 {
            assert(t.rows.len() == 0);
        }
    } else {
        if text.len() == 0 {
            assert(written =~= sink);
        }
    }
}

/// The names of the first `n` members of an object.
pub open spec fn member_names(es: Vec<(String, JsonValue)>, n: int) -> Set<Seq<char>>
    decreases n,
{
    if n <= 0 || n > es.len() {
        Set::empty()
    } else {
        member_names(es, n - 1).insert(es[n - 1].0@)
    }
}

/// Whether every member of the object is a scalar.
pub open spec fn flat_members(es: Vec<(String, JsonValue)>) -> bool {
    forall|i: int| 0 <= i < es.len() ==> (#[trigger] es[i]).1 is Leaf
}

/// The members of a flat object leave the tables alone and make up a row
/// with one cell for each member name.
pub proof fn lemma_flat_members(
    ts: Seq<TableView>,
    suffix: Seq<char>,
    path: Seq<Seq<char>>,
    es: Vec<(String, JsonValue)>,
    n: int,
)
    requires
        flat_members(es),
        0 <= n <= es.len(),
    ensures
        walk_members(ts, suffix, path, es, n).0 == ts,
        walk_members(ts, suffix, path, es, n).2 is None,
        cell_keys(walk_members(ts, suffix, path, es, n).1).to_set() == member_names(es, n),
    decreases n,
{
    if n == 0 {
        assert(cell_keys(Seq::<(Seq<char>, Scalar)>::empty()).to_set() =~= Set::<Seq<char>>::empty());
    } else {
        lemma_flat_members(ts, suffix, path, es, n - 1);
        assert(es[n - 1].1 is Leaf);
        let row = walk_members(ts, suffix, path, es, n - 1).1;
        match es[n - 1].1 {
            JsonValue::Leaf(x) => {
                assert(path.push(es[n - 1].0@).last() == es[n - 1].0@);
                assert(walk(ts, suffix, path.push(es[n - 1].0@), es[n - 1].1) == (ts, Walked::Leaf(es[n - 1].0@, x)));
                lemma_set_cell_keys(row, es[n - 1].0@, x);
            },
            _ => {},
        }
    }
}

/// Walking an object whose members are all scalars, where its table takes
/// new columns, stores exactly one row in the table named after its path,
/// with a column for each member name, the table's key column and, below
/// the top level, the parent's key column; the row's own key is the
/// table's next surrogate key; no other table changes.
pub proof fn lemma_flat_object(ts: Seq<TableView>, suffix: Seq<char>, path: Seq<Seq<char>>, es: Vec<(String, JsonValue)>)
    requires
        names_distinct(ts),
        flat_members(es),
        !has_table(ts, path_name(path)) || !ts[table_index(ts, path_name(path))].appending,
    ensures
        ({
            let name = path_name(path);
            let ts1 = ensure_table(ts, name, suffix);
            let i = table_index(ts1, name);
            let t0 = ts1[i];
            let (ts2, w) = walk(ts, suffix, path, JsonValue::Object(es));
            let t2 = ts2[i];
            let fk = if path.len() > 1 {
                set![path_name(path.drop_last()) + suffix]
            } else {
                Set::<Seq<char>>::empty()
            };
            &&& w == Walked::Stored
            &&& 0 <= i < ts1.len()
            &&& ts2 == ts1.update(i, t2)
            &&& table_index(ts2, name) == i
            &&& t2.rows.len() == t0.rows.len() + 1
            &&& t2.rows.take(t0.rows.len() as int) == t0.rows
            &&& cell_keys(t2.rows.last()).to_set() == member_names(es, es.len() as int).union(fk).insert(t0.pk_name)
            &&& !member_names(es, es.len() as int).union(fk).contains(t0.pk_name) ==> cell_value(t2.rows.last(), t0.pk_name)
                == Some(Scalar::Int(next_key(t0) as i128))
        }),
{
    let name = path_name(path);
    let ts1 = ensure_table(ts, name, suffix);
    lemma_ensure_table(ts, name, suffix);
    let i = table_index(ts1, name);
    lemma_flat_members(ts1, suffix, path, es, es.len() as int);
    let row = walk_members(ts1, suffix, path, es, es.len() as int).1;
    let linked = link_parent(ts1, suffix, path, row);
    let t0 = ts1[i];
    assert(!rejects(t0, linked));
    let t2 = with_row(t0, linked);
    assert(ts1.update(i, t2)[i] == t2);
    lemma_index_after_update(ts1, i, t2);
    if path.len() > 1 {
        let kc = Scalar::Int(key_count(ts1, path_name(path.drop_last())) as i128);
        lemma_set_cell_keys(row, path_name(path.drop_last()) + suffix, kc);
        assert(cell_keys(row).to_set().insert(path_name(path.drop_last()) + suffix)
            =~= member_names(es, es.len() as int).union(set![path_name(path.drop_last()) + suffix]));
    } else {
        assert(member_names(es, es.len() as int).union(Set::<Seq<char>>::empty()) =~= member_names(es, es.len() as int));
    }
    lemma_set_cell_keys(linked, t0.pk_name, Scalar::Int(next_key(t0) as i128));
    assert(t2.rows.take(t0.rows.len() as int) =~= t0.rows);
    let fk = if path.len() > 1 {
        set![path_name(path.drop_last()) + suffix]
    } else {
        Set::<Seq<char>>::empty()
    };
    assert(cell_keys(linked).to_set() == member_names(es, es.len() as int).union(fk));
    if !member_names(es, es.len() as int).union(fk).contains(t0.pk_name) {
        if has_key(linked, t0.pk_name) {
            let a = choose|a: int| 0 <= a < linked.len() && #[trigger] linked[a].0 == t0.pk_name;
            assert(cell_keys(linked)[a] == t0.pk_name);
        }
        lemma_value_of_push_new(linked, t0.pk_name, Scalar::Int(next_key(t0) as i128));
    }
}

/// After `ensure_table`, names are still distinct and `name` is there.
pub proof fn lemma_ensure_table(ts: Seq<TableView>, name: Seq<char>, suffix: Seq<char>)
    requires
        names_distinct(ts),
    ensures
        names_distinct(ensure_table(ts, name, suffix)),
        has_table(ensure_table(ts, name, suffix), name),
        ensure_table(ts, name, suffix)[table_index(ensure_table(ts, name, suffix), name)].name == name,
        0 <= table_index(ensure_table(ts, name, suffix), name) < ensure_table(ts, name, suffix).len(),
        !has_table(ts, name) ==> table_index(ensure_table(ts, name, suffix), name) == ts.len(),
        has_table(ts, name) ==> table_index(ensure_table(ts, name, suffix), name) == table_index(ts, name),
{
    let ts1 = ensure_table(ts, name, suffix);
    if !has_table(ts, name) {
        assert(ts1[ts.len() as int].name == name);
        assert forall|a: int, b: int| 0 <= a < b < ts1.len() implies #[trigger] ts1[a].name != #[trigger] ts1[b].name by {
            if b == ts.len() {
                assert(ts[a].name != name);
            }
        }
    }
    let i = table_index(ts1, name);
    if !has_table(ts, name) && i != ts.len() {
        assert(ts[i].name == name);
    }
}

/// Replacing a table by one of the same name keeps names distinct and
/// keeps its position.
pub proof fn lemma_index_after_update(ts: Seq<TableView>, i: int, t: TableView)
    requires
        names_distinct(ts),
        0 <= i < ts.len(),
        t.name == ts[i].name,
    ensures
        names_distinct(ts.update(i, t)),
        table_index(ts.update(i, t), t.name) == i,
        has_table(ts.update(i, t), t.name),
{
    let u = ts.update(i, t);
    assert(u[i].name == t.name);
    assert forall|a: int, b: int| 0 <= a < b < u.len() implies #[trigger] u[a].name != #[trigger] u[b].name by {
        assert(ts[a].name != ts[b].name);
    }
    let c = table_index(u, t.name);
    if c != i {
        if c < i {
            assert(u[c].name != u[i].name);
        } else {
            assert(u[i].name != u[c].name);
        }
    }
}

/// Whether every element of the array is a scalar.
pub open spec fn flat_elems(vs: Vec<JsonValue>) -> bool {
    forall|i: int| 0 <= i < vs.len() ==> #[trigger] vs[i] is Leaf
}

/// The scalar of a leaf.
pub open spec fn leaf_of(v: JsonValue) -> Scalar {
    match v {
        JsonValue::Leaf(s) => s,
        _ => Scalar::Null,
    }
}

/// The rows that the first `n` scalars of an array at `path` become, before
/// their surrogate keys are filled in.
pub open spec fn elem_rows(ts: Seq<TableView>, suffix: Seq<char>, path: Seq<Seq<char>>, vs: Vec<JsonValue>, n: int) -> Seq<Cells> {
    Seq::new(n as nat, |j: int| link_parent(ts, suffix, path, seq![(path.last(), leaf_of(vs[j]))]))
}

/// A table's name is longer than its parent's.
pub proof fn lemma_parent_name_shorter(path: Seq<Seq<char>>)
    requires
        path.len() > 1,
    ensures
        path_name(path.drop_last()).len() < path_name(path).len(),
{
}

/// Adding tables or changing others keeps the position and key count of a table.
pub proof fn lemma_index_stable(ts: Seq<TableView>, us: Seq<TableView>, name: Seq<char>)
    requires
        names_distinct(us),
        has_table(ts, name),
        ts.len() <= us.len(),
        us[table_index(ts, name)] == ts[table_index(ts, name)],
    ensures
        table_index(us, name) == table_index(ts, name),
        key_count(us, name) == key_count(ts, name),
{
    let i = table_index(ts, name);
    let c = table_index(us, name);
    assert(us[i].name == name);
    if c != i {
        if c < i {
            assert(us[c].name != us[i].name);
        } else {
            assert(us[i].name != us[c].name);
        }
    }
}

/// The scalars of a flat array each become a row of the array's table.
pub proof fn lemma_flat_elems(ts1: Seq<TableView>, suffix: Seq<char>, path: Seq<Seq<char>>, vs: Vec<JsonValue>, n: int)
    requires
        names_distinct(ts1),
        flat_elems(vs),
        0 <= n <= vs.len(),
        has_table(ts1, path_name(path)),
        !ts1[table_index(ts1, path_name(path))].appending,
        path.len() > 1 ==> has_table(ts1, path_name(path.drop_last())),
    ensures
        ({
            let i = table_index(ts1, path_name(path));
            walk_elems(ts1, suffix, path, vs, n) == (
                ts1.update(i, accept_all(ts1[i], elem_rows(ts1, suffix, path, vs, n))),
                None::<Seq<char>>,
            )
        }),
    decreases n,
{
    let name = path_name(path);
    let i = table_index(ts1, name);
    let t0 = ts1[i];
    if n == 0 {
        assert(elem_rows(ts1, suffix, path, vs, 0) =~= Seq::<Cells>::empty());
        assert(ts1.update(i, t0) =~= ts1);
    } else {
        lemma_flat_elems(ts1, suffix, path, vs, n - 1);
        let prev_rows = elem_rows(ts1, suffix, path, vs, n - 1);
        let a = accept_all(t0, prev_rows);
        let tsa = ts1.update(i, a);
        lemma_accept_keeps_mode(t0, prev_rows);
        lemma_index_after_update(ts1, i, a);
        assert(vs[n - 1] is Leaf);
        let x = leaf_of(vs[n - 1]);
        assert(walk(tsa, suffix, path, vs[n - 1]) == (tsa, Walked::Leaf(path.last(), x)));
        if path.len() > 1 {
            let parent = path_name(path.drop_last());
            lemma_parent_name_shorter(path);
            let p = table_index(ts1, parent);
            assert(ts1[p].name == parent);
            assert(p != i);
            lemma_index_stable(ts1, tsa, parent);
        }
        let row = link_parent(tsa, suffix, path, seq![(path.last(), x)]);
        assert(row == link_parent(ts1, suffix, path, seq![(path.last(), x)]));
        assert(elem_rows(ts1, suffix, path, vs, n).drop_last() =~= prev_rows);
        assert(elem_rows(ts1, suffix, path, vs, n).last() == row);
        assert(!rejects(a, row));
        assert(tsa.update(i, with_row(a, row)) =~= ts1.update(i, accept_all(t0, elem_rows(ts1, suffix, path, vs, n))));
    }
}

/// Walking an array of scalars below an object, where the array's table
/// takes new columns, stores one row per element in the table named after
/// the path of the array (arrays add no name to the path); each row holds
/// its scalar under the path's last name, the key of the row that the
/// parent object is about to receive, and its own surrogate key, one past
/// the previous row's; no other table changes.
pub proof fn lemma_scalar_array(ts: Seq<TableView>, suffix: Seq<char>, path: Seq<Seq<char>>, vs: Vec<JsonValue>)
    requires
        names_distinct(ts),
        flat_elems(vs),
        path.len() > 1,
        has_table(ts, path_name(path.drop_last())),
        !has_table(ts, path_name(path)) || !ts[table_index(ts, path_name(path))].appending,
    ensures
        ({
            let name = path_name(path);
            let parent = path_name(path.drop_last());
            let ts1 = ensure_table(ts, name, suffix);
            let i = table_index(ts1, name);
            let t0 = ts1[i];
            let (ts2, w) = walk(ts, suffix, path, JsonValue::Array(vs));
            let t2 = ts2[i];
            &&& w == Walked::Stored
            &&& 0 <= i < ts1.len()
            &&& ts2 == ts1.update(i, t2)
            &&& t2.rows.len() == t0.rows.len() + vs.len()
            &&& t2.rows.take(t0.rows.len() as int) == t0.rows
            &&& forall|j: int| 0 <= j < vs.len() ==> cell_value(#[trigger] t2.rows[t0.rows.len() + j], parent + suffix)
                == Some(Scalar::Int(key_count(ts, parent) as i128))
            &&& path.last() != parent + suffix ==> forall|j: int| 0 <= j < vs.len()
                ==> cell_value(#[trigger] t2.rows[t0.rows.len() + j], path.last()) == Some(leaf_of(vs[j]))
            &&& t0.pk_name != path.last() && t0.pk_name != parent + suffix ==> forall|j: int| 0 <= j < vs.len()
                ==> cell_value(#[trigger] t2.rows[t0.rows.len() + j], t0.pk_name) == Some(Scalar::Int((next_key(t0) + j) as i128))
        }),
{
    let name = path_name(path);
    let parent = path_name(path.drop_last());
    let ts1 = ensure_table(ts, name, suffix);
    lemma_ensure_table(ts, name, suffix);
    let i = table_index(ts1, name);
    let t0 = ts1[i];
    let pi = table_index(ts, parent);
    assert(ts[pi].name == parent);
    assert(ts1[pi] == ts[pi]);
    lemma_index_stable(ts, ts1, parent);
    lemma_flat_elems(ts1, suffix, path, vs, vs.len() as int);
    let rows = elem_rows(ts1, suffix, path, vs, vs.len() as int);
    let t2 = accept_all(t0, rows);
    lemma_accept_keeps_mode(t0, rows);
    assert(ts1.update(i, t2)[i] == t2);
    let fk = parent + suffix;
    let kc = Scalar::Int(key_count(ts, parent) as i128);
    assert forall|j: int| 0 <= j < vs.len() implies {
        &&& cell_value(#[trigger] t2.rows[t0.rows.len() + j], fk) == Some(kc)
        &&& path.last() != fk ==> cell_value(t2.rows[t0.rows.len() + j], path.last()) == Some(leaf_of(vs[j]))
        &&& t0.pk_name != path.last() && t0.pk_name != fk ==> cell_value(t2.rows[t0.rows.len() + j], t0.pk_name)
            == Some(Scalar::Int((next_key(t0) + j) as i128))
    } by {
        lemma_accepted_row(t0, rows, j);
        let x = leaf_of(vs[j]);
        let one = seq![(path.last(), x)];
        let linked = set_cell(one, fk, kc);
        assert(rows[j] == linked);
        if path.last() == fk {
            assert(has_key(one, fk));
            assert(linked =~= seq![(fk, kc)]);
            assert(cell_value(linked, fk) == Some(kc));
        } else {
            if has_key(one, fk) {
                assert(one[0].0 == fk);
            }
            assert(linked =~= seq![(path.last(), x), (fk, kc)]);
            assert(linked.drop_first() =~= seq![(fk, kc)]);
            assert(cell_value(linked.drop_first(), fk) == Some(kc));
            assert(cell_value(linked, fk) == Some(kc));
            assert(cell_value(linked, path.last()) == Some(x));
        }
        if t0.pk_name != path.last() && t0.pk_name != fk {
            lemma_value_of_push_new(linked, t0.pk_name, Scalar::Int((next_key(t0) + j) as i128));
        }
        if !has_key(linked, t0.pk_name) {
            lemma_value_after_push_found(linked, (t0.pk_name, Scalar::Int((next_key(t0) + j) as i128)), fk);
            if path.last() != fk {
                lemma_value_after_push_found(linked, (t0.pk_name, Scalar::Int((next_key(t0) + j) as i128)), path.last());
            }
        }
    }
}

/// Row `j` of those accepted in turn, as the table holds it.
pub proof fn lemma_accepted_row(t: TableView, rows: Seq<Cells>, j: int)
    requires
        0 <= j < rows.len(),
    ensures
        accept_all(t, rows).rows[t.rows.len() + j]
            == set_cell_if_absent(rows[j], t.pk_name, Scalar::Int((next_key(t) + j) as i128)),
    decreases rows.len(),
{
    let init = rows.drop_last();
    lemma_accept_keeps_mode(t, init);
    if j < rows.len() - 1 {
        lemma_accepted_row(t, init, j);
        assert(init[j] == rows[j]);
    }
}

/// `us` keeps every table of `ts` under its name and in its place.
pub open spec fn keeps_tables(ts: Seq<TableView>, us: Seq<TableView>) -> bool {
    &&& ts.len() <= us.len()
    &&& forall|i: int| 0 <= i < ts.len() ==> (#[trigger] us[i]).name == ts[i].name
}

/// Whether the schema has a table for every name in `names`.
pub open spec fn has_all(ts: Seq<TableView>, names: Seq<Seq<char>>) -> bool {
    forall|i: int| 0 <= i < names.len() ==> has_table(ts, #[trigger] names[i])
}

proof fn lemma_keeps_trans(a: Seq<TableView>, b: Seq<TableView>, c: Seq<TableView>)
    requires
        keeps_tables(a, b),
        keeps_tables(b, c),
    ensures
        keeps_tables(a, c),
{
    assert forall|i: int| 0 <= i < a.len() implies (#[trigger] c[i]).name == a[i].name by {
        assert(c[i].name == b[i].name);
    }
}

proof fn lemma_keeps_has_all(a: Seq<TableView>, b: Seq<TableView>, names: Seq<Seq<char>>)
    requires
        keeps_tables(a, b),
        has_all(a, names),
    ensures
        has_all(b, names),
{
    assert forall|i: int| 0 <= i < names.len() implies has_table(b, #[trigger] names[i]) by {
        assert(has_table(a, names[i]));
        let j = choose|j: int| 0 <= j < a.len() && #[trigger] a[j].name == names[i];
        assert(b[j].name == names[i]);
    }
}

proof fn lemma_add_keeps(ts: Seq<TableView>, name: Seq<char>, row: Cells)
    requires
        has_table(ts, name),
    ensures
        keeps_tables(ts, add_to_table(ts, name, row).0),
        add_to_table(ts, name, row).0.len() == ts.len(),
{
}

proof fn lemma_has_all_concat(ts: Seq<TableView>, a: Seq<Seq<char>>, b: Seq<Seq<char>>)
    requires
        has_all(ts, a + b),
    ensures
        has_all(ts, a),
        has_all(ts, b),
{
    assert forall|i: int| 0 <= i < a.len() implies has_table(ts, #[trigger] a[i]) by {
        assert((a + b)[i] == a[i]);
    }
    assert forall|i: int| 0 <= i < b.len() implies has_table(ts, #[trigger] b[i]) by {
        assert((a + b)[a.len() + i] == b[i]);
    }
}

/// A walk keeps every table where it was, and adds a table only where it
/// visits a name that the schema lacks: once the tables that the walk
/// visits are all there, it adds none.
pub proof fn lemma_walk_adds_only_visited(ts: Seq<TableView>, suffix: Seq<char>, path: Seq<Seq<char>>, v: JsonValue)
    ensures
        keeps_tables(ts, walk(ts, suffix, path, v).0),
        has_all(ts, visited(path, v)) ==> walk(ts, suffix, path, v).0.len() == ts.len(),
    decreases v, 0int,
{
    match v {
        JsonValue::Leaf(_) => {},
        JsonValue::Object(es) => {
            let name = path_name(path);
            let ts1 = ensure_table(ts, name, suffix);
            assert(keeps_tables(ts, ts1));
            lemma_members_add_only_visited(ts1, suffix, path, es, es.len() as int);
            let ts2 = walk_members(ts1, suffix, path, es, es.len() as int).0;
            lemma_keeps_trans(ts, ts1, ts2);
            assert(has_table(ts1, name)) by {
                if !has_table(ts, name) {
                    assert(ts1[ts.len() as int].name == name);
                }
            }
            lemma_keeps_has_all(ts1, ts2, seq![name]);
            assert(seq![name][0] == name);
            if walk_members(ts1, suffix, path, es, es.len() as int).2 is None {
                let row = walk_members(ts1, suffix, path, es, es.len() as int).1;
                lemma_add_keeps(ts2, name, link_parent(ts2, suffix, path, row));
                lemma_keeps_trans(ts, ts2, add_to_table(ts2, name, link_parent(ts2, suffix, path, row)).0);
            }
            if has_all(ts, visited(path, v)) {
                lemma_has_all_concat(ts, seq![name], visited_members(path, es, es.len() as int));
                assert(has_table(ts, seq![name][0]));
                assert(ts1 == ts);
            }
        },
        JsonValue::Array(vs) => {
            let name = path_name(path);
            let ts1 = ensure_table(ts, name, suffix);
            assert(keeps_tables(ts, ts1));
            assert(has_table(ts1, name)) by {
                if !has_table(ts, name) {
                    assert(ts1[ts.len() as int].name == name);
                }
            }
            lemma_elems_add_only_visited(ts1, suffix, path, vs, vs.len() as int);
            let ts2 = walk_elems(ts1, suffix, path, vs, vs.len() as int).0;
            lemma_keeps_trans(ts, ts1, ts2);
            if has_all(ts, visited(path, v)) {
                lemma_has_all_concat(ts, seq![name], visited_elems(path, vs, vs.len() as int));
                assert(has_table(ts, seq![name][0]));
                assert(ts1 == ts);
            }
        },
    }
}

proof fn lemma_members_add_only_visited(
    ts: Seq<TableView>,
    suffix: Seq<char>,
    path: Seq<Seq<char>>,
    es: Vec<(String, JsonValue)>,
    n: int,
)
    ensures
        keeps_tables(ts, walk_members(ts, suffix, path, es, n).0),
        has_all(ts, visited_members(path, es, n)) ==> walk_members(ts, suffix, path, es, n).0.len() == ts.len(),
    decreases es, n,
{
    if 0 < n <= es.len() {
        lemma_members_add_only_visited(ts, suffix, path, es, n - 1);
        let ts1 = walk_members(ts, suffix, path, es, n - 1).0;
        if walk_members(ts, suffix, path, es, n - 1).2 is None {
            lemma_walk_adds_only_visited(ts1, suffix, path.push(es[n - 1].0@), es[n - 1].1);
            lemma_keeps_trans(ts, ts1, walk(ts1, suffix, path.push(es[n - 1].0@), es[n - 1].1).0);
        }
        if has_all(ts, visited_members(path, es, n)) {
            lemma_has_all_concat(ts, visited_members(path, es, n - 1), visited(path.push(es[n - 1].0@), es[n - 1].1));
            lemma_keeps_has_all(ts, ts1, visited(path.push(es[n - 1].0@), es[n - 1].1));
        }
    }
}

proof fn lemma_elems_add_only_visited(
    ts: Seq<TableView>,
    suffix: Seq<char>,
    path: Seq<Seq<char>>,
    vs: Vec<JsonValue>,
    n: int,
)
    requires
        has_table(ts, path_name(path)),
    ensures
        keeps_tables(ts, walk_elems(ts, suffix, path, vs, n).0),
        has_all(ts, visited_elems(path, vs, n)) ==> walk_elems(ts, suffix, path, vs, n).0.len() == ts.len(),
    decreases vs, n,
{
    if 0 < n <= vs.len() {
        lemma_elems_add_only_visited(ts, suffix, path, vs, n - 1);
        let ts1 = walk_elems(ts, suffix, path, vs, n - 1).0;
        if walk_elems(ts, suffix, path, vs, n - 1).1 is None {
            lemma_walk_adds_only_visited(ts1, suffix, path, vs[n - 1]);
            let ts2 = walk(ts1, suffix, path, vs[n - 1]).0;
            lemma_keeps_trans(ts, ts1, ts2);
            match walk(ts1, suffix, path, vs[n - 1]).1 {
                Walked::Leaf(k, x) => {
                    let name = path_name(path);
                    lemma_keeps_has_all(ts, ts2, seq![name]);
                    assert(seq![name][0] == name);
                    lemma_add_keeps(ts2, name, link_parent(ts2, suffix, path, seq![(k, x)]));
                    lemma_keeps_trans(ts, ts2, add_to_table(ts2, name, link_parent(ts2, suffix, path, seq![(k, x)])).0);
                },
                _ => {},
            }
        }
        if has_all(ts, visited_elems(path, vs, n)) {
            lemma_has_all_concat(ts, visited_elems(path, vs, n - 1), visited(path, vs[n - 1]));
            lemma_keeps_has_all(ts, ts1, visited(path, vs[n - 1]));
        }
    }
}

} // verus!
