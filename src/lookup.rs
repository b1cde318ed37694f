//! Locating a string in a sequence of distinct strings.
use vstd::prelude::*;

verus! {

/// The character sequences of a sequence of strings.
pub open spec fn names(v: Seq<String>) -> Seq<Seq<char>> {
    v.map_values(|s: String| s@)
}

/// No name occurs twice.
pub open spec fn distinct(s: Seq<Seq<char>>) -> bool {
    forall|i: int, j: int| 0 <= i < s.len() && 0 <= j < s.len() && i != j ==> s[i] != s[j]
}

/// Position of `x` in `s`, or -1 when `x` does not occur.
pub open spec fn index_of(s: Seq<Seq<char>>, x: Seq<char>) -> int {
    if exists|i: int| 0 <= i < s.len() && s[i] == x {
        choose|i: int| 0 <= i < s.len() && s[i] == x
    } else {
        -1
    }
}

pub proof fn lemma_index_of_range(s: Seq<Seq<char>>, x: Seq<char>)
    ensures
        index_of(s, x) == -1 || (0 <= index_of(s, x) < s.len() && s[index_of(s, x)] == x),
        index_of(s, x) == -1 <==> !s.contains(x),
{
}

pub proof fn lemma_index_of_at(s: Seq<Seq<char>>, i: int)
    requires
        distinct(s),
        0 <= i < s.len(),
    ensures
        index_of(s, s[i]) == i,
{
    assert(s[i] == s[i]);
}

pub proof fn lemma_index_of_push(s: Seq<Seq<char>>, y: Seq<char>, x: Seq<char>)
    requires
        distinct(s.push(y)),
    ensures
        index_of(s.push(y), x) == if x == y { s.len() as int } else { index_of(s, x) },
{
    let t = s.push(y);
    if x == y {
        lemma_index_of_at(t, s.len() as int);
    } else {
        if s.contains(x) {
            let i = index_of(s, x);
            assert(t[i] == x);
            lemma_index_of_at(t, i);
        } else {
            assert forall|i: int| 0 <= i < t.len() implies t[i] != x by {
                if i < s.len() {
                    assert(t[i] == s[i]);
                }
            }
        }
    }
}

/// Finds the position of `x` among the strings of `v`.
pub fn find(v: &Vec<String>, x: &String) -> (r: Option<usize>)
    requires
        distinct(names(v@)),
    ensures
        r is None <==> !names(v@).contains(x@),
        r is Some ==> r->0 as int == index_of(names(v@), x@),
{
    let mut i: usize = 0;
    while i < v.len()
        invariant
            i <= v@.len(),
            distinct(names(v@)),
            forall|j: int| 0 <= j < i ==> names(v@)[j] != x@,
        decreases v@.len() - i,
    {
        if v[i] == *x {
            proof {
                lemma_index_of_at(names(v@), i as int);
            }
            return Some(i);
        }
        i = i + 1;
    }
    proof {
        lemma_index_of_range(names(v@), x@);
    }
    None
}

} // verus!
