use vstd::prelude::*;

use crate::err::CsvError;
use crate::row::{cell_value, Cells};
use crate::table::{tracked_len, Table, TableView};
use crate::text::{int_string, int_text, join_strings, join_with, lemma_views_push, views};
use crate::value::Scalar;

verus! {

/// The text size of a string column where no string was seen.
pub const DEFAULT_TEXT_SIZE: usize = 255;

/// `s` with every `q` doubled, as SQL quoting asks.
pub open spec fn doubled(s: Seq<char>, q: char) -> Seq<char>
    decreases s.len(),
{
    if s.len() == 0 {
        Seq::empty()
    } else {
        doubled(s.drop_last(), q) + if s.last() == q {
            seq![q, q]
        } else {
            seq![s.last()]
        }
    }
}

/// `s` between `q` quotes, with each `q` inside doubled.
pub open spec fn quoted(s: Seq<char>, q: char) -> Seq<char> {
    seq![q] + doubled(s, q) + seq![q]
}

/// The SQL type of column `c`, from its value in the first buffered row:
/// numbers are integers, strings text sized for the longest string that the
/// table has seen in that column, booleans booleans; nothing for any other
/// value or no value.
pub open spec fn sql_type(t: TableView, c: Seq<char>) -> Option<Seq<char>> {
    match cell_value(t.rows[0], c) {
        Some(Scalar::Int(_)) => Some("INTEGER"@),
        Some(Scalar::Decimal(_)) => Some("INTEGER"@),
        Some(Scalar::Bool(_)) => Some("BOOLEAN"@),
        Some(Scalar::Str(_)) => Some(
            "VARCHAR("@ + int_text(
                if tracked_len(t.max_lens, c) == 0 {
                    DEFAULT_TEXT_SIZE as int
                } else {
                    tracked_len(t.max_lens, c)
                },
            ) + ")"@,
        ),
        _ => None,
    }
}

/// The first of `cols` without an SQL type.
pub open spec fn first_untyped(t: TableView, cols: Seq<Seq<char>>) -> Option<Seq<char>>
    decreases cols.len(),
{
    if cols.len() == 0 {
        None
    } else if sql_type(t, cols[0]) is None {
        Some(cols[0])
    } else {
        first_untyped(t, cols.drop_first())
    }
}

/// The SQL literal of a cell's value; `NULL` for null or no value.
pub open spec fn sql_value(v: Option<Scalar>) -> Seq<char> {
    match v {
        Some(Scalar::Bool(b)) => if b {
            "TRUE"@
        } else {
            "FALSE"@
        },
        Some(Scalar::Int(i)) => int_text(i as int),
        Some(Scalar::Decimal(t)) => t@,
        Some(Scalar::Str(t)) => quoted(t@, '\''),
        _ => "NULL"@,
    }
}

/// The statement that creates table `t` with the typed columns `cols`.
pub open spec fn create_statement(t: TableView, cols: Seq<Seq<char>>) -> Seq<char> {
    "CREATE TABLE IF NOT EXISTS "@ + quoted(t.name, '`') + " ("@ + join_with(
        cols.map_values(|c: Seq<char>| quoted(c, '`') + " "@ + sql_type(t, c)->0),
        ", "@,
    ) + ");"@
}

/// The statement that inserts `row` into table `name`.
pub open spec fn insert_statement(name: Seq<char>, cols: Seq<Seq<char>>, row: Cells) -> Seq<char> {
    "INSERT INTO "@ + quoted(name, '`') + " ("@ + join_with(cols.map_values(|c: Seq<char>| quoted(c, '`')), ", "@)
        + ") VALUES ("@ + join_with(cols.map_values(|c: Seq<char>| sql_value(cell_value(row, c))), ", "@) + ");"@
}

/// The insert statements of `rows`, each preceded by a line break.
pub open spec fn insert_statements(name: Seq<char>, cols: Seq<Seq<char>>, rows: Seq<Cells>) -> Seq<char>
    decreases rows.len(),
{
    if rows.len() == 0 {
        Seq::empty()
    } else {
        insert_statements(name, cols, rows.drop_last()) + "\n"@ + insert_statement(name, cols, rows.last())
    }
}

/// Quoting a stretch without quote characters leaves it as it is.
pub proof fn lemma_doubled_plain(s: Seq<char>, start: int, i: int, q: char)
    requires
        0 <= start <= i <= s.len(),
        forall|k: int| start <= k < i ==> s[k] != q,
    ensures
        doubled(s.take(i), q) == doubled(s.take(start), q) + s.subrange(start, i),
    decreases i - start,
{
    if i == start {
        assert(doubled(s.take(start), q) + s.subrange(start, i) =~= doubled(s.take(start), q));
    } else {
        lemma_doubled_plain(s, start, i - 1, q);
        assert(s.take(i).drop_last() =~= s.take(i - 1));
        assert(s.subrange(start, i) =~= s.subrange(start, i - 1).push(s[i - 1]));
        assert(doubled(s.take(i), q) =~= doubled(s.take(start), q) + s.subrange(start, i));
    }
}

/// `s` between quotes `q` (a single character), with each `q` inside doubled.
pub fn quote(s: &str, q: &str) -> (r: String)
    requires
        q@.len() == 1,
    ensures
        r@ == quoted(s@, q@[0]),
{
    let qc = q.get_char(0);
    let cs = crate::text::chars_of(s);
    let mut r = String::from_str(q);
    let mut start: usize = 0;
    let mut i: usize = 0;
    assert(cs@.take(0) =~= Seq::<char>::empty());
    while i < cs.len()
        invariant
            start <= i <= cs.len(),
            cs@ == s@,
            q@ =~= seq![qc],
            r@ == seq![qc] + doubled(cs@.take(start as int), qc),
            forall|k: int| start <= k < i ==> cs@[k] != qc,
        decreases cs.len() - i,
    {
        if cs[i] == qc {
            proof {
                lemma_doubled_plain(cs@, start as int, i as int, qc);
                assert(cs@.take(i + 1).drop_last() =~= cs@.take(i as int));
            }
            r.append(s.substring_char(start, i + 1));
            r.append(q);
            assert(cs@.subrange(start as int, i + 1) =~= cs@.subrange(start as int, i as int).push(qc));
            assert(r@ =~= seq![qc] + doubled(cs@.take(i + 1), qc));
            start = i + 1;
        }
        i = i + 1;
    }
    proof {
        lemma_doubled_plain(cs@, start as int, i as int, qc);
        assert(cs@.take(i as int) =~= s@);
    }
    r.append(s.substring_char(start, i));
    r.append(q);
    assert(r@ =~= quoted(s@, qc));
    r
}

/// The SQL literal of a cell's value.
pub fn value_sql(v: Option<&Scalar>) -> (r: String)
    ensures
        r@ == sql_value(match v {
            Some(x) => Some(*x),
            None => None,
        }),
{
    match v {
        Some(Scalar::Bool(b)) => if *b {
            String::from_str("TRUE")
        } else {
            String::from_str("FALSE")
        },
        Some(Scalar::Int(i)) => int_string(*i),
        Some(Scalar::Decimal(t)) => t.clone(),
        Some(Scalar::Str(t)) => {
            let q = "'";
            proof {
                reveal_strlit("'");
            }
            assert(q@ =~= seq!['\'']);
            quote(t.as_str(), q)
        },
        _ => String::from_str("NULL"),
    }
}

fn backtick() -> (r: &'static str)
    ensures
        r@ == seq!['`'],
{
    proof {
        reveal_strlit("`");
    }
    let r = "`";
    assert(r@ =~= seq!['`']);
    r
}

impl Table {
    /// The SQL type of column `c`; see [`sql_type`].
    fn sql_type_of(&self, c: &String) -> (r: Option<String>)
        requires
            self@.rows.len() > 0,
        ensures
            r matches Some(t) ==> sql_type(self@, c@) == Some(t@),
            r is None ==> sql_type(self@, c@) is None,
    {
        match self.row(0).get(c) {
            Some(Scalar::Int(_)) => Some(String::from_str("INTEGER")),
            Some(Scalar::Decimal(_)) => Some(String::from_str("INTEGER")),
            Some(Scalar::Bool(_)) => Some(String::from_str("BOOLEAN")),
            Some(Scalar::Str(_)) => {
                let m = self.longest_string(c);
                let size: i128 = if m == 0 { DEFAULT_TEXT_SIZE as i128 } else { m };
                let mut t = String::from_str("VARCHAR(");
                let digits = int_string(size);
                t.append(digits.as_str());
                t.append(")");
                Some(t)
            },
            _ => None,
        }
    }

    /// The buffered rows as SQL: a statement that creates the table, with
    /// a column type taken from the first row for each column (see
    /// [`sql_type`]), then one
    /// insert statement per row, columns in the CSV order. A column whose
    /// first value is null or missing has no type: the first such column is
    /// reported. No rows give no statements.
    pub fn to_sql(&self) -> (r: Result<String, CsvError>)
        requires
            self.wf(),
        ensures
            self@.rows.len() == 0 ==> (r matches Ok(s) && s@.len() == 0),
            self@.rows.len() > 0 ==> match first_untyped(self@, self.column_list()) {
                Some(c) => (r matches Err(CsvError::UnsupportedType(k)) && k@ == c),
                None => (r matches Ok(s) && s@ == create_statement(self@, self.column_list())
                    + insert_statements(self@.name, self.column_list(), self@.rows)),
            },
    {
        if self.num_rows() == 0 {
            return Ok(String::new());
        }
        let ghost rows = self@.rows;
        let ghost cols = self.column_list();
        let names = self.column_names();
        let bt = backtick();
        let comma = ", ";
        proof {
            reveal_strlit(", ");
        }
        let mut defs: Vec<String> = Vec::new();
        let mut quoted_names: Vec<String> = Vec::new();
        let mut j: usize = 0;
        assert(cols.skip(0) =~= cols);
        while j < names.len()
            invariant
                j <= names.len(),
                views(names@) == cols,
                cols == self.column_list(),
                rows.len() > 0,
                rows == self@.rows,
                bt@ == seq!['`'],
                first_untyped(self@, cols) == first_untyped(self@, cols.skip(j as int)),
                views(defs@) == cols.take(j as int).map_values(|c: Seq<char>| quoted(c, '`') + " "@ + sql_type(self@, c)->0),
                views(quoted_names@) == cols.take(j as int).map_values(|c: Seq<char>| quoted(c, '`')),
            decreases names.len() - j,
        {
            let c = &names[j];
            assert(cols[j as int] == c@);
            match self.sql_type_of(c) {
                None => {
                    assert(cols.skip(j as int)[0] == c@);
                    return Err(CsvError::UnsupportedType(c.clone()));
                },
                Some(ty) => {
                    assert(cols.skip(j as int).drop_first() =~= cols.skip(j + 1));
                    let qn = quote(c.as_str(), bt);
                    let mut d = quote(c.as_str(), bt);
                    d.append(" ");
                    d.append(ty.as_str());
                    proof {
                        lemma_views_push(defs@, d);
                        lemma_views_push(quoted_names@, qn);
                    }
                    defs.push(d);
                    quoted_names.push(qn);
                    assert(views(defs@) =~= cols.take(j + 1).map_values(|c: Seq<char>| quoted(c, '`') + " "@ + sql_type(self@, c)->0));
                    assert(views(quoted_names@) =~= cols.take(j + 1).map_values(|c: Seq<char>| quoted(c, '`')));
                },
            }
            j = j + 1;
        }
        assert(cols.take(j as int) =~= cols);
        let qtable = quote(self.name().as_str(), bt);
        let mut out = String::from_str("CREATE TABLE IF NOT EXISTS ");
        out.append(qtable.as_str());
        out.append(" (");
        let joined_defs = join_strings(&defs, comma);
        out.append(joined_defs.as_str());
        out.append(");");
        let joined_names = join_strings(&quoted_names, comma);
        let ghost create = out@;
        assert(create == create_statement(self@, cols));
        let mut i: usize = 0;
        assert(rows.take(0) =~= Seq::<Cells>::empty());
        while i < self.num_rows()
            invariant
                i <= rows.len(),
                rows == self@.rows,
                views(names@) == cols,
                joined_names@ == join_with(cols.map_values(|c: Seq<char>| quoted(c, '`')), ", "@),
                qtable@ == quoted(self@.name, '`'),
                comma@ == ", "@,
                out@ == create + insert_statements(self@.name, cols, rows.take(i as int)),
            decreases rows.len() - i,
        {
            let row = self.row(i);
            let mut vals: Vec<String> = Vec::new();
            let mut k: usize = 0;
            while k < names.len()
                invariant
                    k <= names.len(),
                    views(names@) == cols,
                    row@ == rows[i as int],
                    views(vals@) == cols.take(k as int).map_values(|c: Seq<char>| sql_value(cell_value(row@, c))),
                decreases names.len() - k,
            {
                let v = value_sql(row.get(&names[k]));
                assert(cols[k as int] == names@[k as int]@);
                proof {
                    lemma_views_push(vals@, v);
                }
                vals.push(v);
                assert(views(vals@) =~= cols.take(k + 1).map_values(|c: Seq<char>| sql_value(cell_value(row@, c))));
                k = k + 1;
            }
            assert(cols.take(k as int) =~= cols);
            out.append("\n");
            out.append("INSERT INTO ");
            out.append(qtable.as_str());
            out.append(" (");
            out.append(joined_names.as_str());
            out.append(") VALUES (");
            let joined_vals = join_strings(&vals, comma);
            out.append(joined_vals.as_str());
            out.append(");");
            assert(rows.take(i + 1).drop_last() =~= rows.take(i as int));
            assert(out@ =~= create + insert_statements(self@.name, cols, rows.take(i + 1)));
            i = i + 1;
        }
        assert(rows.take(i as int) =~= rows);
        Ok(out)
    }
}

} // verus!
