//! Sorted sequences of document ids and binary search in them.

use vstd::prelude::*;

verus! {

/// Each element is smaller than every later one.
pub open spec fn strictly_increasing(s: Seq<u32>) -> bool {
    forall|i: int, j: int| 0 <= i < j < s.len() ==> s[i] < s[j]
}

/// No element is larger than a later one.
pub open spec fn nondecreasing(s: Seq<u32>) -> bool {
    forall|i: int, j: int| 0 <= i <= j < s.len() ==> s[i] <= s[j]
}

/// A strictly increasing sequence is also nondecreasing.
pub proof fn lemma_strict_is_nondecreasing(s: Seq<u32>)
    requires
        strictly_increasing(s),
    ensures
        nondecreasing(s),
{
}

/// Looks `val` up in a sorted slice by halving the range that can hold it.
///
/// `Ok` carries an index at which `val` stands. `Err` carries the index at
/// which `val` would have to be inserted to keep the slice sorted: everything
/// before it is smaller, everything from it on is larger.
pub fn binary_search(list: &[u32], val: u32) -> (found: Result<usize, usize>)
    requires
        nondecreasing(list@),
    ensures
        match found {
            Ok(i) => i < list@.len() && list@[i as int] == val,
            Err(i) => {
                &&& i <= list@.len()
                &&& forall|j: int| 0 <= j < i ==> list@[j] < val
                &&& forall|j: int| i <= j < list@.len() ==> list@[j] > val
            },
        },
{
    let mut low: usize = 0;
    let mut high: usize = list.len();
    while low < high
        invariant
            low <= high <= list@.len(),
            nondecreasing(list@),
            forall|j: int| 0 <= j < low ==> list@[j] < val,
            forall|j: int| high <= j < list@.len() ==> list@[j] > val,
        decreases high - low,
    {
        let mid: usize = low + (high - low) / 2;
        let probe: u32 = list[mid];
        if probe == val {
            return Ok(mid);
        } else if probe < val {
            low = mid + 1;
        } else {
            high = mid;
        }
    }
    Err(low)
}

/// What `binary_search` finds decides membership.
pub proof fn lemma_search_decides_membership(s: Seq<u32>, val: u32, at: int)
    requires
        0 <= at <= s.len(),
        forall|j: int| 0 <= j < at ==> s[j] < val,
        forall|j: int| at <= j < s.len() ==> s[j] > val,
    ensures
        !s.contains(val),
{
    if s.contains(val) {
        let k = choose|k: int| 0 <= k < s.len() && s[k] == val;
        assert(s[k] == val);
    }
}

/// Number of elements of `s` that are smaller than `val`.
pub open spec fn count_below(s: Seq<u32>, val: u32) -> nat
    decreases s.len(),
{
    if s.len() == 0 {
        0
    } else {
        count_below(s.drop_last(), val) + if s.last() < val {
            1nat
        } else {
            0nat
        }
    }
}

/// `s` with `val` put in at its place in the order, unless it is there.
pub open spec fn inserted(s: Seq<u32>, val: u32) -> Seq<u32> {
    if s.contains(val) {
        s
    } else {
        s.insert(count_below(s, val) as int, val)
    }
}

/// `s` without `val`, if it is there.
pub open spec fn removed(s: Seq<u32>, val: u32) -> Seq<u32> {
    if s.contains(val) {
        s.remove(count_below(s, val) as int)
    } else {
        s
    }
}

/// Where everything before `at` is smaller than `val` and nothing from `at`
/// on is, `at` elements are smaller than `val`.
pub proof fn lemma_count_below_at(s: Seq<u32>, val: u32, at: int)
    requires
        0 <= at <= s.len(),
        forall|j: int| 0 <= j < at ==> s[j] < val,
        forall|j: int| at <= j < s.len() ==> s[j] >= val,
    ensures
        count_below(s, val) == at,
    decreases s.len(),
{
    if s.len() > 0 {
        let rest = s.drop_last();
        if at == s.len() {
            lemma_count_below_at(rest, val, at - 1);
        } else {
            lemma_count_below_at(rest, val, at);
        }
    }
}

/// In strictly increasing order the elements below `val` are the first
/// `count_below` ones.
pub proof fn lemma_rank_splits(s: Seq<u32>, val: u32)
    requires
        strictly_increasing(s),
    ensures
        0 <= count_below(s, val) <= s.len(),
        forall|j: int| 0 <= j < count_below(s, val) ==> s[j] < val,
        forall|j: int| count_below(s, val) <= j < s.len() ==> s[j] >= val,
    decreases s.len(),
{
    if s.len() > 0 {
        let rest = s.drop_last();
        lemma_rank_splits(rest, val);
        let at = count_below(rest, val) as int;
        assert forall|j: int| 0 <= j < rest.len() implies rest[j] == s[j] by {}
        if s.last() < val {
            assert forall|j: int| 0 <= j < s.len() implies s[j] < val by {
                if j < s.len() - 1 {
                    assert(s[j] < s[s.len() - 1]);
                }
            }
            lemma_count_below_at(rest, val, rest.len() as int);
        }
    }
}

} // verus!
