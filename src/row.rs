use vstd::prelude::*;

use crate::columns::lemma_push_to_set;
use crate::value::Scalar;

verus! {

/// A row as a list of cells, each a column name and a value.
pub type Cells = Seq<(Seq<char>, Scalar)>;

/// The column names of the cells, in order.
pub open spec fn cell_keys(s: Cells) -> Seq<Seq<char>> {
    s.map_values(|e: (Seq<char>, Scalar)| e.0)
}

/// Whether some cell is named `k`.
pub open spec fn has_key(s: Cells, k: Seq<char>) -> bool {
    exists|i: int| 0 <= i < s.len() && #[trigger] s[i].0 == k
}

/// The cells after setting column `k` to `v`: an existing cell of that name
/// takes the new value in place, otherwise a cell is added at the end.
pub open spec fn set_cell(s: Cells, k: Seq<char>, v: Scalar) -> Cells {
    if has_key(s, k) {
        s.map_values(|e: (Seq<char>, Scalar)| if e.0 == k { (k, v) } else { e })
    } else {
        s.push((k, v))
    }
}

/// The cells after setting column `k` to `v` only where no cell has that name.
pub open spec fn set_cell_if_absent(s: Cells, k: Seq<char>, v: Scalar) -> Cells {
    if has_key(s, k) {
        s
    } else {
        s.push((k, v))
    }
}

/// The value of the first cell named `k`.
pub open spec fn cell_value(s: Cells, k: Seq<char>) -> Option<Scalar>
    decreases s.len(),
{
    if s.len() == 0 {
        None
    } else if s[0].0 == k {
        Some(s[0].1)
    } else {
        cell_value(s.drop_first(), k)
    }
}

/// A cell is found exactly where some cell has the name.
pub proof fn lemma_value_iff_key(s: Cells, k: Seq<char>)
    ensures
        cell_value(s, k) is Some <==> has_key(s, k),
    decreases s.len(),
{
    if s.len() > 0 {
        lemma_value_iff_key(s.drop_first(), k);
        if has_key(s.drop_first(), k) {
            let i = choose|i: int| 0 <= i < s.drop_first().len() && #[trigger] s.drop_first()[i].0 == k;
            assert(s[i + 1].0 == k);
        }
        if has_key(s, k) && s[0].0 != k {
            let i = choose|i: int| 0 <= i < s.len() && #[trigger] s[i].0 == k;
            assert(s.drop_first()[i - 1].0 == k);
        }
    }
}

/// After setting a cell, its name gives the new value and other names
/// give what they gave before.
pub proof fn lemma_value_after_set(s: Cells, k: Seq<char>, v: Scalar, other: Seq<char>)
    ensures
        cell_value(set_cell(s, k, v), k) == Some(v),
        other != k ==> cell_value(set_cell(s, k, v), other) == cell_value(s, other),
    decreases s.len(),
{
    if has_key(s, k) {
        let t = set_cell(s, k, v);
        assert(t.len() == s.len());
        if s[0].0 != k {
            let i = choose|i: int| 0 <= i < s.len() && #[trigger] s[i].0 == k;
            assert(s.drop_first()[i - 1].0 == k);
            assert(t.drop_first() =~= set_cell(s.drop_first(), k, v));
            lemma_value_after_set(s.drop_first(), k, v, other);
        } else if other != k {
            if has_key(s.drop_first(), k) {
                assert(t.drop_first() =~= set_cell(s.drop_first(), k, v));
                lemma_value_after_set(s.drop_first(), k, v, other);
            } else {
                assert forall|i: int| 0 <= i < s.drop_first().len() implies #[trigger] t.drop_first()[i] == s.drop_first()[i] by {
                    assert(s.drop_first()[i].0 != k);
                }
                assert(t.drop_first() =~= s.drop_first());
            }
        }
    } else {
        lemma_value_iff_key(s, other);
        if has_key(s, other) {
            lemma_value_after_push_found(s, (k, v), other);
        } else {
            lemma_value_iff_key(s.push((k, v)), other);
            if other != k && has_key(s.push((k, v)), other) {
                let i = choose|i: int| 0 <= i < s.push((k, v)).len() && #[trigger] s.push((k, v))[i].0 == other;
                assert(s[i].0 == other);
            }
        }
        lemma_value_of_push_new(s, k, v);
    }
}

/// A cell that is found stays found when cells are added at the end.
pub proof fn lemma_value_after_push_found(s: Cells, e: (Seq<char>, Scalar), k: Seq<char>)
    requires
        cell_value(s, k) is Some,
    ensures
        cell_value(s.push(e), k) == cell_value(s, k),
    decreases s.len(),
{
    if s.len() > 0 && s[0].0 != k {
        assert(s.push(e).drop_first() =~= s.drop_first().push(e));
        lemma_value_after_push_found(s.drop_first(), e, k);
    }
}

/// A cell added at the end, under a name the row lacks, is found.
pub proof fn lemma_value_of_push_new(s: Cells, k: Seq<char>, v: Scalar)
    requires
        !has_key(s, k),
    ensures
        cell_value(s.push((k, v)), k) == Some(v),
    decreases s.len(),
{
    if s.len() > 0 {
        assert(s.push((k, v)).drop_first() =~= s.drop_first().push((k, v)));
        if has_key(s.drop_first(), k) {
            let i = choose|i: int| 0 <= i < s.drop_first().len() && #[trigger] s.drop_first()[i].0 == k;
            assert(s[i + 1].0 == k);
        }
        assert(s[0].0 != k);
        lemma_value_of_push_new(s.drop_first(), k, v);
    }
}

/// Setting a cell adds its name to the row's names.
pub proof fn lemma_set_cell_keys(s: Cells, k: Seq<char>, v: Scalar)
    ensures
        cell_keys(set_cell(s, k, v)).to_set() == cell_keys(s).to_set().insert(k),
        cell_keys(set_cell_if_absent(s, k, v)).to_set() == cell_keys(s).to_set().insert(k),
{
    if has_key(s, k) {
        let i = choose|i: int| 0 <= i < s.len() && #[trigger] s[i].0 == k;
        assert(cell_keys(set_cell(s, k, v)) =~= cell_keys(s));
        assert(cell_keys(s)[i] == k);
        assert(cell_keys(s).to_set().insert(k) =~= cell_keys(s).to_set());
    } else {
        assert(cell_keys(s.push((k, v))) =~= cell_keys(s).push(k));
        lemma_push_to_set(cell_keys(s), k);
    }
}

/// One row of a table: a value for each of some of its columns.
pub struct Row {
    cells: Vec<(String, Scalar)>,
}

impl View for Row {
    type V = Cells;

    closed spec fn view(&self) -> Cells {
        self.cells@.map_values(|e: (String, Scalar)| (e.0@, e.1))
    }
}

impl Row {
    #[verifier::type_invariant]
    closed spec fn keys_distinct(&self) -> bool {
        cell_keys(self@).no_duplicates()
    }

    /// An empty row.
    pub fn new() -> (r: Row)
        ensures
            r@ == Seq::<(Seq<char>, Scalar)>::empty(),
    {
        let r = Row { cells: Vec::new() };
        assert(r@ =~= Seq::<(Seq<char>, Scalar)>::empty());
        r
    }

    /// The number of cells.
    pub fn len(&self) -> (r: usize)
        ensures
            r == self@.len(),
            cell_keys(self@).no_duplicates(),
    {
        proof {
            use_type_invariant(self);
        }
        self.cells.len()
    }

    /// The name of the `i`-th cell.
    pub fn key_at(&self, i: usize) -> (r: &String)
        requires
            i < self@.len(),
        ensures
            r@ == self@[i as int].0,
    {
        &self.cells[i].0
    }

    /// The value of the `i`-th cell.
    pub fn value_at(&self, i: usize) -> (r: &Scalar)
        requires
            i < self@.len(),
        ensures
            *r == self@[i as int].1,
    {
        &self.cells[i].1
    }

    /// The position of the cell named `k`, if any.
    fn position(&self, k: &String) -> (r: Option<usize>)
        ensures
            r is None ==> !has_key(self@, k@),
            r matches Some(i) ==> i < self@.len() && self@[i as int].0 == k@,
    {
        let mut i: usize = 0;
        while i < self.cells.len()
            invariant
                i <= self.cells.len(),
                forall|j: int| 0 <= j < i ==> self@[j].0 != k@,
            decreases self.cells.len() - i,
        {
            if self.cells[i].0 == *k {
                return Some(i);
            }
            i = i + 1;
        }
        None
    }

    /// The value of the cell named `k`, if any.
    pub fn get(&self, k: &String) -> (r: Option<&Scalar>)
        ensures
            r matches Some(v) ==> cell_value(self@, k@) == Some(*v),
            r is None ==> cell_value(self@, k@) is None,
    {
        let mut i: usize = 0;
        assert(self@.skip(0) =~= self@);
        while i < self.cells.len()
            invariant
                i <= self.cells.len(),
                cell_value(self@, k@) == cell_value(self@.skip(i as int), k@),
            decreases self.cells.len() - i,
        {
            if self.cells[i].0 == *k {
                return Some(&self.cells[i].1);
            }
            assert(self@.skip(i as int).drop_first() =~= self@.skip(i + 1));
            i = i + 1;
        }
        None
    }

    /// Sets column `k` to `v`, replacing the value of a cell of that name.
    pub fn insert(&mut self, k: String, v: Scalar)
        ensures
            final(self)@ == set_cell(old(self)@, k@, v),
    {
        proof {
            use_type_invariant(&*self);
        }
        let ghost s = self@;
        let ghost kv = k@;
        let pos = self.position(&k);
        let mut cells: Vec<(String, Scalar)> = Vec::new();
        std::mem::swap(&mut cells, &mut self.cells);
        assert(cells@.map_values(|e: (String, Scalar)| (e.0@, e.1)) == s);
        match pos {
            Some(i) => {
                cells.set(i, (k, v));
                proof {
                    assert forall|j: int| 0 <= j < s.len() && j != i implies s[j].0 != kv by {
                        assert(cell_keys(s)[j] == s[j].0 && cell_keys(s)[i as int] == s[i as int].0);
                    }
                    let t = cells@.map_values(|e: (String, Scalar)| (e.0@, e.1));
                    assert(t =~= set_cell(s, kv, v));
                    assert(cell_keys(t) =~= cell_keys(s));
                }
            },
            None => {
                cells.push((k, v));
                proof {
                    let t = cells@.map_values(|e: (String, Scalar)| (e.0@, e.1));
                    assert(t =~= set_cell(s, kv, v));
                    assert(cell_keys(t) =~= cell_keys(s).push(kv));
                    assert(!cell_keys(s).contains(kv));
                }
            },
        }
        self.cells = cells;
    }

    /// Sets column `k` to `v` only where the row has no cell of that name.
    pub fn insert_if_absent(&mut self, k: String, v: Scalar)
        ensures
            final(self)@ == set_cell_if_absent(old(self)@, k@, v),
    {
        proof {
            use_type_invariant(&*self);
        }
        let ghost s = self@;
        let ghost kv = k@;
        if self.position(&k).is_none() {
            let mut cells: Vec<(String, Scalar)> = Vec::new();
            std::mem::swap(&mut cells, &mut self.cells);
            assert(cells@.map_values(|e: (String, Scalar)| (e.0@, e.1)) == s);
            cells.push((k, v));
            proof {
                let t = cells@.map_values(|e: (String, Scalar)| (e.0@, e.1));
                assert(t =~= set_cell_if_absent(s, kv, v));
                assert(cell_keys(t) =~= cell_keys(s).push(kv));
                assert(!cell_keys(s).contains(kv));
            }
            self.cells = cells;
        }
    }
}

} // verus!
