//! Where one sequence of characters stands in another.

use vstd::prelude::*;

verus! {

/// `pat` stands in `text` at index `i`.
pub open spec fn occurs_at(text: Seq<char>, pat: Seq<char>, i: int) -> bool {
    &&& 0 <= i
    &&& i + pat.len() <= text.len()
    &&& text.subrange(i, i + pat.len()) == pat
}

/// `pat` stands somewhere in `text`.
pub open spec fn contains(text: Seq<char>, pat: Seq<char>) -> bool {
    exists|i: int| occurs_at(text, pat, i)
}

/// `i` is the leftmost index at which `pat` stands in `text`.
pub open spec fn is_first_occurrence(text: Seq<char>, pat: Seq<char>, i: int) -> bool {
    &&& occurs_at(text, pat, i)
    &&& forall|j: int| 0 <= j < i ==> !occurs_at(text, pat, j)
}

/// `i` is the rightmost index at which `pat` stands in `text`.
pub open spec fn is_last_occurrence(text: Seq<char>, pat: Seq<char>, i: int) -> bool {
    &&& occurs_at(text, pat, i)
    &&& forall|j: int| i < j ==> !occurs_at(text, pat, j)
}

/// The leftmost index at which `pat` stands in `text`, where it stands at all.
pub open spec fn first_occurrence(text: Seq<char>, pat: Seq<char>) -> int {
    choose|i: int| is_first_occurrence(text, pat, i)
}

/// The rightmost index at which `pat` stands in `text`, where it stands at all.
pub open spec fn last_occurrence(text: Seq<char>, pat: Seq<char>) -> int {
    choose|i: int| is_last_occurrence(text, pat, i)
}

/// `text` begins with `pat`.
pub open spec fn starts_with(text: Seq<char>, pat: Seq<char>) -> bool {
    occurs_at(text, pat, 0)
}

/// `text` ends with `pat`.
pub open spec fn ends_with(text: Seq<char>, pat: Seq<char>) -> bool {
    occurs_at(text, pat, text.len() - pat.len())
}

/// An occurrence at `k` has a leftmost occurrence at or before it.
pub proof fn lemma_first_occurrence_exists(text: Seq<char>, pat: Seq<char>, k: int)
    requires
        occurs_at(text, pat, k),
    ensures
        is_first_occurrence(text, pat, first_occurrence(text, pat)),
        first_occurrence(text, pat) <= k,
    decreases k,
{
    if exists|j: int| 0 <= j < k && occurs_at(text, pat, j) {
        let j = choose|j: int| 0 <= j < k && occurs_at(text, pat, j);
        lemma_first_occurrence_exists(text, pat, j);
    } else {
        assert(is_first_occurrence(text, pat, k));
    }
}

/// The leftmost occurrence is the only index that is one.
pub proof fn lemma_first_occurrence_is(text: Seq<char>, pat: Seq<char>, i: int)
    requires
        is_first_occurrence(text, pat, i),
    ensures
        first_occurrence(text, pat) == i,
        contains(text, pat),
{
    let f = first_occurrence(text, pat);
    assert(is_first_occurrence(text, pat, f));
    if f < i {
        assert(!occurs_at(text, pat, f));
    }
    if i < f {
        assert(!occurs_at(text, pat, i));
    }
}

/// The rightmost occurrence is the only index that is one.
pub proof fn lemma_last_occurrence_is(text: Seq<char>, pat: Seq<char>, i: int)
    requires
        is_last_occurrence(text, pat, i),
    ensures
        last_occurrence(text, pat) == i,
        contains(text, pat),
{
    let l = last_occurrence(text, pat);
    assert(is_last_occurrence(text, pat, l));
    if l < i {
        assert(!occurs_at(text, pat, i));
    }
    if i < l {
        assert(!occurs_at(text, pat, l));
    }
}

/// Occurrences in a suffix are the occurrences in the whole text from there on.
pub proof fn lemma_occurs_in_suffix(text: Seq<char>, pat: Seq<char>, from: int, k: int)
    requires
        0 <= from <= text.len(),
        0 <= k,
    ensures
        occurs_at(text.skip(from), pat, k) == occurs_at(text, pat, from + k),
{
    if k + pat.len() <= text.len() - from {
        assert(text.skip(from).subrange(k, k + pat.len()) =~= text.subrange(
            from + k,
            from + k + pat.len(),
        ));
    }
}

/// Whether `pat` stands in `text` at index `i`.
pub fn matches_at(text: &Vec<char>, pat: &Vec<char>, i: usize) -> (found: bool)
    ensures
        found == occurs_at(text@, pat@, i as int),
{
    if pat.len() > text.len() || i > text.len() - pat.len() {
        return false;
    }
    let mut k: usize = 0;
    while k < pat.len()
        invariant
            k <= pat.len(),
            i + pat.len() <= text.len(),
            forall|j: int| 0 <= j < k ==> text@[i + j] == pat@[j],
        decreases pat.len() - k,
    {
        if text[i + k] != pat[k] {
            proof {
                assert(text@.subrange(i as int, i + pat@.len())[k as int] == text@[i + k]);
            }
            return false;
        }
        k += 1;
    }
    proof {
        assert(text@.subrange(i as int, i + pat@.len()) =~= pat@);
    }
    true
}

/// The leftmost index at or after `from` at which `pat` stands in `text`.
pub fn find(text: &Vec<char>, pat: &Vec<char>, from: usize) -> (found: Option<usize>)
    ensures
        match found {
            Some(i) => from <= i && occurs_at(text@, pat@, i as int) && forall|j: int|
                from <= j < i ==> !occurs_at(text@, pat@, j),
            None => forall|j: int| from <= j ==> !occurs_at(text@, pat@, j),
        },
{
    if pat.len() > text.len() {
        return None;
    }
    let last: usize = text.len() - pat.len();
    let mut i: usize = from;
    while i < last
        invariant
            from <= i,
            last == text.len() - pat.len(),
            forall|j: int| from <= j < i ==> !occurs_at(text@, pat@, j),
        decreases last - i,
    {
        if matches_at(text, pat, i) {
            return Some(i);
        }
        i += 1;
    }
    if i == last && matches_at(text, pat, last) {
        return Some(last);
    }
    None
}

/// The rightmost index at which `pat` stands in `text`.
pub fn rfind(text: &Vec<char>, pat: &Vec<char>) -> (found: Option<usize>)
    ensures
        match found {
            Some(i) => is_last_occurrence(text@, pat@, i as int),
            None => !contains(text@, pat@),
        },
{
    if pat.len() > text.len() {
        return None;
    }
    let mut i: usize = text.len() - pat.len();
    loop
        invariant
            i <= text.len() - pat.len(),
            forall|j: int| i < j ==> !occurs_at(text@, pat@, j),
        decreases i,
    {
        if matches_at(text, pat, i) {
            return Some(i);
        }
        if i == 0 {
            return None;
        }
        i -= 1;
    }
}

} // verus!
