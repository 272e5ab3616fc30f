use vstd::prelude::*;

use crate::text::{chars_of, views};

verus! {

/// What `str::trim` makes of a text.
pub uninterp spec fn trimmed(s: Seq<char>) -> Seq<char>;

/// Relies on `str::trim`: leading and trailing white space removed, which
/// depends on the characters alone.
#[verifier::external_body]
pub(crate) fn trim(s: &str) -> (r: &str)
    ensures
        r@ == trimmed(s@),
{
    s.trim()
}

/// The pieces of `s` between occurrences of `c`; one piece more than
/// there are occurrences.
pub open spec fn split_on(s: Seq<char>, c: char) -> Seq<Seq<char>>
    decreases s.len(),
{
    if s.len() == 0 {
        seq![Seq::empty()]
    } else {
        let p = split_on(s.drop_last(), c);
        if s.last() == c {
            p.push(Seq::empty())
        } else {
            p.update(p.len() - 1, p.last().push(s.last()))
        }
    }
}

/// The pieces of `s` between commas.
pub fn split_commas(s: &str) -> (r: Vec<String>)
    ensures
        views(r@) == split_on(s@, ','),
{
    let cs = chars_of(s);
    let mut r: Vec<String> = Vec::new();
    let mut start: usize = 0;
    let mut i: usize = 0;
    assert(cs@.take(0) =~= Seq::<char>::empty());
    assert(cs@.subrange(0, 0) =~= Seq::<char>::empty());
    assert(views(r@) + seq![cs@.subrange(0, 0)] =~= split_on(cs@.take(0), ','));
    while i < cs.len()
        invariant
            cs@ == s@,
            start <= i <= cs.len(),
            views(r@) + seq![cs@.subrange(start as int, i as int)] == split_on(cs@.take(i as int), ','),
        decreases cs.len() - i,
    {
        assert(cs@.take(i + 1).drop_last() =~= cs@.take(i as int));
        assert(cs@.take(i + 1).last() == cs@[i as int]);
        if cs[i] == ',' {
            let piece = String::from_str(s.substring_char(start, i));
            proof {
                crate::text::lemma_views_push(r@, piece);
            }
            r.push(piece);
            start = i + 1;
            assert(cs@.subrange(start as int, i + 1) =~= Seq::<char>::empty());
            assert(views(r@) + seq![cs@.subrange(start as int, i + 1)] =~= split_on(cs@.take(i + 1), ','));
        } else {
            let ghost p = split_on(cs@.take(i as int), ',');
            assert(cs@.subrange(start as int, i + 1) =~= cs@.subrange(start as int, i as int).push(cs@[i as int]));
            assert(views(r@) + seq![cs@.subrange(start as int, i + 1)] =~= p.update(p.len() - 1, p.last().push(cs@[i as int])));
        }
        i = i + 1;
    }
    let piece = String::from_str(s.substring_char(start, i));
    proof {
        crate::text::lemma_views_push(r@, piece);
    }
    r.push(piece);
    assert(cs@.take(i as int) =~= cs@);
    r
}

/// What a table's CSV file already holds: the names in its header line, in
/// order, and its number of lines.
pub struct CsvFileInfo {
    pub columns: Vec<String>,
    pub lines_in_file: usize,
}

impl CsvFileInfo {
    /// A file that is missing or empty.
    pub fn missing() -> (r: CsvFileInfo)
        ensures
            r.columns@.len() == 0,
            r.lines_in_file == 0,
    {
        CsvFileInfo { columns: Vec::new(), lines_in_file: 0 }
    }

    /// A file of `lines_in_file` lines whose first line is `first_line`: its
    /// column names are the comma-separated pieces of that line, trimmed.
    pub fn from_first_line(first_line: &str, lines_in_file: usize) -> (r: CsvFileInfo)
        ensures
            views(r.columns@) == split_on(trimmed(first_line@), ','),
            r.lines_in_file == lines_in_file,
    {
        CsvFileInfo { columns: split_commas(trim(first_line)), lines_in_file }
    }
}

} // verus!
