//! Clockwise search on a sorted sequence of ring positions.
use vstd::prelude::*;

verus! {

/// Every element is at most every later element.
pub open spec fn is_sorted(s: Seq<u32>) -> bool {
    forall|i: int, j: int| 0 <= i < j < s.len() ==> s[i] <= s[j]
}

/// Every element is below every later element.
pub open spec fn is_strictly_sorted(s: Seq<u32>) -> bool {
    forall|i: int, j: int| 0 <= i < j < s.len() ==> s[i] < s[j]
}

/// Index of the first element of `s` that is strictly greater than `key`, or `s.len()` when
/// there is none.
pub open spec fn first_above(s: Seq<u32>, key: u32) -> nat
    decreases s.len(),
{
    if s.len() == 0 {
        0
    } else if s[0] > key {
        0
    } else {
        1 + first_above(s.drop_first(), key)
    }
}

/// The position reached by walking clockwise from `key`: the first element strictly greater
/// than `key`, wrapping around to index 0 when no element is greater.
pub open spec fn successor_index(s: Seq<u32>, key: u32) -> nat {
    if first_above(s, key) == s.len() {
        0
    } else {
        first_above(s, key)
    }
}

/// `first_above` is the index `i` such that everything before `i` is at most `key` and the
/// element at `i`, if any, is above it.
pub proof fn lemma_first_above_at(s: Seq<u32>, key: u32, i: int)
    requires
        0 <= i <= s.len(),
        forall|j: int| 0 <= j < i ==> s[j] <= key,
        i == s.len() || s[i] > key,
    ensures
        first_above(s, key) == i,
    decreases s.len(),
{
    if s.len() > 0 && i > 0 {
        let t = s.drop_first();
        assert forall|j: int| 0 <= j < i - 1 implies t[j] <= key by {
            assert(t[j] == s[j + 1]);
        }
        lemma_first_above_at(t, key, i - 1);
    }
}

/// `first_above` never goes past the end, everything before it is at most `key`, and the
/// element it names, if any, is above `key`.
pub proof fn lemma_first_above_bounds(s: Seq<u32>, key: u32)
    ensures
        first_above(s, key) <= s.len(),
        forall|j: int| 0 <= j < first_above(s, key) ==> s[j] <= key,
        first_above(s, key) < s.len() ==> s[first_above(s, key) as int] > key,
    decreases s.len(),
{
    if s.len() > 0 && s[0] <= key {
        let t = s.drop_first();
        lemma_first_above_bounds(t, key);
        assert forall|j: int| 0 <= j < first_above(s, key) implies s[j] <= key by {
            if j > 0 {
                assert(s[j] == t[j - 1]);
            }
        }
    }
}

/// Binary search for the index of the first element strictly greater than `key`; when `key`
/// is at least the last element, the search wraps around to index 0.
pub fn binary_search_next_greatest(arr: &Vec<u32>, key: u32) -> (r: usize)
    requires
        arr@.len() > 0,
        is_sorted(arr@),
    ensures
        r < arr@.len(),
        r == successor_index(arr@, key),
{
    let mut left: usize = 0;
    let mut right: usize = arr.len() - 1;
    if key >= arr[right] {
        proof {
            lemma_first_above_at(arr@, key, arr@.len() as int);
        }
        return 0;
    }
    while left < right
        invariant
            left <= right < arr@.len(),
            is_sorted(arr@),
            arr@[right as int] > key,
            forall|j: int| 0 <= j < left ==> arr@[j] <= key,
        decreases right - left,
    {
        let mid = left + (right - left) / 2;
        if arr[mid] <= key {
            left = mid + 1;
        } else {
            right = mid;
        }
    }
    proof {
        lemma_first_above_at(arr@, key, left as int);
    }
    left
}

} // verus!
