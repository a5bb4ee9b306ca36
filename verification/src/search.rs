//! Substring search over bytes.
use vstd::prelude::*;

verus! {

/// `needle` occurs in `hay` at position `p`.
pub open spec fn occurs_at(hay: Seq<u8>, needle: Seq<u8>, p: int) -> bool {
    0 <= p && p + needle.len() <= hay.len() && hay.subrange(p, p + needle.len()) == needle
}

/// The first position at or after `start` where `needle` occurs.
pub open spec fn first_occurrence(hay: Seq<u8>, needle: Seq<u8>, start: int) -> Option<int>
    decreases hay.len() + 1 - start,
{
    if start < 0 || start + needle.len() > hay.len() {
        None
    } else if occurs_at(hay, needle, start) {
        Some(start)
    } else {
        first_occurrence(hay, needle, start + 1)
    }
}

/// The number of non-overlapping occurrences of a non-empty `needle` found by
/// searching from `start`, each search resuming after the previous occurrence.
pub open spec fn count_occurrences(hay: Seq<u8>, needle: Seq<u8>, start: int) -> nat
    decreases hay.len() - start,
{
    if needle.len() == 0 {
        0
    } else {
        match first_occurrence(hay, needle, start) {
            Some(p) => if start < p + needle.len() <= hay.len() {
                1 + count_occurrences(hay, needle, p + needle.len())
            } else {
                0
            },
            None => 0,
        }
    }
}

pub proof fn lemma_first_occurrence_bounds(hay: Seq<u8>, needle: Seq<u8>, start: int)
    ensures first_occurrence(hay, needle, start) matches Some(p) ==>
        start <= p && occurs_at(hay, needle, p),
    decreases hay.len() + 1 - start,
{
    if !(start < 0 || start + needle.len() > hay.len()) && !occurs_at(hay, needle, start) {
        lemma_first_occurrence_bounds(hay, needle, start + 1);
    }
}

pub proof fn lemma_count_bound(hay: Seq<u8>, needle: Seq<u8>, start: int)
    requires 0 <= start,
    ensures
        count_occurrences(hay, needle, start) <= hay.len(),
        start <= hay.len() ==> count_occurrences(hay, needle, start) + start <= hay.len(),
    decreases hay.len() - start,
{
    if needle.len() > 0 {
        lemma_first_occurrence_bounds(hay, needle, start);
        if let Some(p) = first_occurrence(hay, needle, start) {
            if start < p + needle.len() <= hay.len() {
                lemma_count_bound(hay, needle, p + needle.len());
            }
        }
    }
}

/// Whether `needle` occurs at position `p` of `hay`.
pub fn matches_at(hay: &[u8], needle: &[u8], p: usize) -> (r: bool)
    requires p <= hay@.len(),
    ensures r == occurs_at(hay@, needle@, p as int),
{
    if needle.len() > hay.len() - p {
        return false;
    }
    let mut k: usize = 0;
    while k < needle.len()
        invariant
            hay.len() == hay@.len(),
            p + needle@.len() <= hay@.len(),
            k <= needle@.len(),
            forall|m: int| 0 <= m < k ==> hay@[p + m] == needle@[m],
        decreases needle.len() - k,
    {
        if hay[p + k] != needle[k] {
            assert(hay@.subrange(p as int, p + needle@.len())[k as int] != needle@[k as int]);
            return false;
        }
        k = k + 1;
    }
    assert(hay@.subrange(p as int, p + needle@.len()) =~= needle@);
    true
}

/// The first position at or after `start` where `needle` occurs.
pub fn find_from(hay: &[u8], needle: &[u8], start: usize) -> (r: Option<usize>)
    requires start <= hay@.len(),
    ensures r matches Some(p) ==> first_occurrence(hay@, needle@, start as int) == Some(p as int),
        r is None ==> first_occurrence(hay@, needle@, start as int) is None,
{
    let mut p = start;
    while p <= hay.len()
        invariant
            start <= p,
            p <= hay@.len() + 1,
            first_occurrence(hay@, needle@, p as int) == first_occurrence(hay@, needle@, start as int),
        decreases hay.len() + 1 - p,
    {
        if needle.len() > hay.len() - p {
            return None;
        }
        if p == hay.len() {
            assert(hay@.subrange(p as int, p as int) =~= needle@);
            return Some(p);
        }
        if matches_at(hay, needle, p) {
            return Some(p);
        }
        p = p + 1;
    }
    None
}

/// The number of non-overlapping occurrences of a non-empty `needle` in `hay`.
pub fn count_non_overlapping(hay: &[u8], needle: &[u8]) -> (r: usize)
    requires needle@.len() > 0,
    ensures r == count_occurrences(hay@, needle@, 0),
{
    let mut count: usize = 0;
    let mut start: usize = 0;
    proof { lemma_count_bound(hay@, needle@, 0); }
    loop
        invariant
            hay.len() == hay@.len(),
            start <= hay@.len(),
            needle@.len() > 0,
            count + count_occurrences(hay@, needle@, start as int) == count_occurrences(hay@, needle@, 0),
            count_occurrences(hay@, needle@, 0) <= hay@.len(),
        decreases hay@.len() - start,
    {
        match find_from(hay, needle, start) {
            Some(pos) => {
                proof { lemma_first_occurrence_bounds(hay@, needle@, start as int); }
                count = count + 1;
                start = pos + needle.len();
            },
            None => {
                return count;
            },
        }
    }
}

/// `needle` occurs somewhere in `hay`.
pub open spec fn contains_bytes(hay: Seq<u8>, needle: Seq<u8>) -> bool {
    exists|p: int| occurs_at(hay, needle, p)
}

proof fn lemma_first_occurrence_none(hay: Seq<u8>, needle: Seq<u8>, start: int)
    requires 0 <= start, first_occurrence(hay, needle, start) is None,
    ensures forall|p: int| start <= p ==> !occurs_at(hay, needle, p),
    decreases hay.len() + 1 - start,
{
    if !(start + needle.len() > hay.len()) {
        lemma_first_occurrence_none(hay, needle, start + 1);
    }
}

/// Whether `needle` occurs somewhere in `hay`.
pub fn contains(hay: &[u8], needle: &[u8]) -> (r: bool)
    ensures r == contains_bytes(hay@, needle@),
{
    let r = find_from(hay, needle, 0);
    proof {
        lemma_first_occurrence_bounds(hay@, needle@, 0);
        if r is None {
            lemma_first_occurrence_none(hay@, needle@, 0);
        }
    }
    r.is_some()
}

} // verus!
