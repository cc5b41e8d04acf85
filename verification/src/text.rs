//! Searching byte strings.
//!
//! Paths and the text of segments are compared as bytes; positions are byte
//! offsets.

use vstd::prelude::*;

verus! {

/// `needle` occurs in `hay` starting at position `at`.
pub open spec fn occurs_at(hay: Seq<u8>, needle: Seq<u8>, at: int) -> bool {
    &&& 0 <= at
    &&& at + needle.len() <= hay.len()
    &&& hay.subrange(at, at + needle.len()) == needle
}

/// `at` is the first position not before `from` at which `needle` occurs in
/// `hay`.
pub open spec fn is_first_occurrence(hay: Seq<u8>, needle: Seq<u8>, from: int, at: int) -> bool {
    &&& from <= at
    &&& occurs_at(hay, needle, at)
    &&& forall|j: int| from <= j < at ==> !occurs_at(hay, needle, j)
}

/// The first position not before `from` at which `needle` occurs in `hay`,
/// if there is one.
pub open spec fn first_occurrence(hay: Seq<u8>, needle: Seq<u8>, from: int) -> Option<int> {
    if exists|at: int| is_first_occurrence(hay, needle, from, at) {
        Some(choose|at: int| is_first_occurrence(hay, needle, from, at))
    } else {
        None
    }
}

/// A first occurrence is the only one: whatever position qualifies is the
/// value of `first_occurrence`.
pub proof fn lemma_first_occurrence_unique(hay: Seq<u8>, needle: Seq<u8>, from: int, at: int)
    requires
        is_first_occurrence(hay, needle, from, at),
    ensures
        first_occurrence(hay, needle, from) == Some(at),
{
    let c = choose|c: int| is_first_occurrence(hay, needle, from, c);
    assert(is_first_occurrence(hay, needle, from, c));
    if c < at {
        assert(!occurs_at(hay, needle, c));
    } else if at < c {
        assert(!occurs_at(hay, needle, at));
    }
}

/// There is no first occurrence exactly when `needle` occurs nowhere at or
/// after `from`.
pub proof fn lemma_first_occurrence_none(hay: Seq<u8>, needle: Seq<u8>, from: int)
    ensures
        first_occurrence(hay, needle, from) is None <==> forall|j: int|
            from <= j ==> !occurs_at(hay, needle, j),
{
    if exists|j: int| from <= j && occurs_at(hay, needle, j) {
        let j = choose|j: int| from <= j && occurs_at(hay, needle, j);
        lemma_least_occurrence(hay, needle, from, j);
    }
}

/// Below any occurrence at or after `from` lies a first one.
proof fn lemma_least_occurrence(hay: Seq<u8>, needle: Seq<u8>, from: int, j: int)
    requires
        from <= j,
        occurs_at(hay, needle, j),
    ensures
        exists|at: int| is_first_occurrence(hay, needle, from, at),
    decreases j - from,
{
    if exists|k: int| from <= k < j && occurs_at(hay, needle, k) {
        let k = choose|k: int| from <= k < j && occurs_at(hay, needle, k);
        lemma_least_occurrence(hay, needle, from, k);
    } else {
        assert(is_first_occurrence(hay, needle, from, j));
    }
}

/// Whether `needle` occurs in `hay` at position `at`.
pub fn matches_at(hay: &[u8], needle: &[u8], at: usize) -> (found: bool)
    ensures
        found == occurs_at(hay@, needle@, at as int),
{
    if at > hay.len() || needle.len() > hay.len() - at {
        return false;
    }
    let mut k: usize = 0;
    while k < needle.len()
        invariant
            k <= needle.len(),
            at + needle.len() <= hay.len(),
            forall|j: int| 0 <= j < k ==> hay[at + j] == needle[j],
        decreases needle.len() - k,
    {
        if hay[at + k] != needle[k] {
            proof {
                let window = hay@.subrange(at as int, at + needle.len());
                assert(window[k as int] == hay[at + k]);
            }
            return false;
        }
        k += 1;
    }
    assert(hay@.subrange(at as int, at + needle.len()) =~= needle@);
    true
}

/// The first position not before `from` at which `needle` occurs in `hay`.
pub fn find_from(hay: &[u8], needle: &[u8], from: usize) -> (found: Option<usize>)
    ensures
        match found {
            Some(at) => first_occurrence(hay@, needle@, from as int) == Some(at as int),
            None => first_occurrence(hay@, needle@, from as int) is None,
        },
{
    if from > hay.len() || needle.len() > hay.len() - from {
        proof {
            lemma_first_occurrence_none(hay@, needle@, from as int);
        }
        return None;
    }
    let last: usize = hay.len() - needle.len();
    let mut at: usize = from;
    while at <= last
        invariant
            from <= at,
            last == hay.len() - needle.len(),
            forall|j: int| from <= j < at ==> !occurs_at(hay@, needle@, j),
        decreases last + 1 - at,
    {
        if matches_at(hay, needle, at) {
            proof {
                lemma_first_occurrence_unique(hay@, needle@, from as int, at as int);
            }
            return Some(at);
        }
        if at == last {
            proof {
                lemma_first_occurrence_none(hay@, needle@, from as int);
            }
            return None;
        }
        at += 1;
    }
    proof {
        lemma_first_occurrence_none(hay@, needle@, from as int);
    }
    None
}

} // verus!
