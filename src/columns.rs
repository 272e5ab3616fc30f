use vstd::prelude::*;

use crate::text::{lex_lt, lemma_lex_total, lemma_lex_transitive, str_less, views};

verus! {

/// Every name comes strictly before the names after it.
pub open spec fn strictly_sorted(s: Seq<Seq<char>>) -> bool {
    forall|i: int, j: int| 0 <= i < j < s.len() ==> lex_lt(#[trigger] s[i], #[trigger] s[j])
}

/// Appending an element adds it to the set of elements.
pub proof fn lemma_push_to_set<A>(s: Seq<A>, x: A)
    ensures
        s.push(x).to_set() == s.to_set().insert(x),
{
    assert forall|y: A| s.push(x).to_set().contains(y) <==> s.to_set().insert(x).contains(y) by {
        if s.contains(y) {
            let i = choose|i: int| 0 <= i < s.len() && s[i] == y;
            assert(s.push(x)[i] == y);
        }
        if y == x {
            assert(s.push(x)[s.len() as int] == x);
        }
        if s.push(x).contains(y) {
            let i = choose|i: int| 0 <= i < s.push(x).len() && s.push(x)[i] == y;
            if i < s.len() {
                assert(s[i] == y);
            }
        }
    }
    assert(s.push(x).to_set() =~= s.to_set().insert(x));
}

/// Whether `names` holds `k`.
pub fn contains_name(names: &Vec<String>, k: &String) -> (r: bool)
    ensures
        r == views(names@).contains(k@),
{
    let mut i: usize = 0;
    while i < names.len()
        invariant
            i <= names.len(),
            forall|j: int| 0 <= j < i ==> names@[j]@ != k@,
        decreases names.len() - i,
    {
        if names[i] == *k {
            assert(views(names@)[i as int] == k@);
            return true;
        }
        i = i + 1;
    }
    assert forall|j: int| 0 <= j < views(names@).len() implies views(names@)[j] != k@ by {
        assert(views(names@)[j] == names@[j]@);
    }
    false
}

/// Adds `k` to a strictly sorted list of names, at its place in the order.
pub fn insert_sorted(names: &mut Vec<String>, k: &String)
    requires
        strictly_sorted(views(old(names)@)),
    ensures
        strictly_sorted(views(final(names)@)),
        views(final(names)@).to_set() == views(old(names)@).to_set().insert(k@),
{
    let ghost s = views(names@);
    let mut i: usize = 0;
    while i < names.len() && str_less(names[i].as_str(), k.as_str())
        invariant
            i <= names.len(),
            names@ == old(names)@,
            s == views(names@),
            strictly_sorted(s),
            forall|j: int| 0 <= j < i ==> lex_lt(#[trigger] s[j], k@),
        decreases names.len() - i,
    {
        assert(s[i as int] == names@[i as int]@);
        i = i + 1;
    }
    if i < names.len() && names[i] == *k {
        assert(s[i as int] == k@);
        assert(s.to_set() =~= s.to_set().insert(k@));
        return;
    }
    proof {
        if i < names.len() {
            assert(s[i as int] == names@[i as int]@);
            lemma_lex_total(s[i as int], k@);
            assert forall|j: int| i <= j < s.len() implies lex_lt(k@, #[trigger] s[j]) by {
                if j > i {
                    lemma_lex_transitive(k@, s[i as int], s[j]);
                }
            }
        }
    }
    names.insert(i, k.clone());
    proof {
        let t = views(names@);
        assert(t =~= s.insert(i as int, k@));
        assert forall|a: int, b: int| 0 <= a < b < t.len() implies lex_lt(#[trigger] t[a], #[trigger] t[b]) by {
            if b < i {
                assert(t[a] == s[a] && t[b] == s[b]);
            } else if b == i {
                assert(t[a] == s[a]);
            } else if a < i {
                assert(t[a] == s[a] && t[b] == s[b - 1]);
                lemma_lex_transitive(s[a], k@, s[b - 1]);
            } else if a == i {
                assert(t[b] == s[b - 1]);
            } else {
                assert(t[a] == s[a - 1] && t[b] == s[b - 1]);
            }
        }
        assert(t.to_set() =~= s.to_set().insert(k@)) by {
            assert forall|x: Seq<char>| t.to_set().contains(x) <==> s.to_set().insert(k@).contains(x) by {
                if t.contains(x) {
                    let a = choose|a: int| 0 <= a < t.len() && t[a] == x;
                    if a < i {
                        assert(s[a] == x);
                    } else if a > i {
                        assert(s[a - 1] == x);
                    }
                }
                if s.contains(x) {
                    let a = choose|a: int| 0 <= a < s.len() && s[a] == x;
                    if a < i {
                        assert(t[a] == x);
                    } else {
                        assert(t[a + 1] == x);
                    }
                }
                if x == k@ {
                    assert(t[i as int] == x);
                }
            }
        }
    }
}

} // verus!
