//! The order in which socket vectors are compared.

use crate::data::deco_combination::DecorationCombinations;
use std::cmp::Ordering;
use vstd::prelude::*;

verus! {

/// The two vectors agree at the positions below `k` that both have.
pub open spec fn agree_below(a: Seq<i32>, b: Seq<i32>, k: int) -> bool {
    forall|j: int| 0 <= j < k && j < a.len() && j < b.len() ==> a[j] == b[j]
}

/// The two vectors agree at every position that both have.
pub open spec fn agree(a: Seq<i32>, b: Seq<i32>) -> bool {
    forall|j: int| 0 <= j < a.len() && j < b.len() ==> a[j] == b[j]
}

impl DecorationCombinations {
    /// Compares two socket vectors position by position, as far as both
    /// reach: the first position at which they differ decides.
    pub fn compare(slots1: &Vec<i32>, slots2: &Vec<i32>) -> (r: Ordering)
        ensures
            r is Equal <==> agree(slots1@, slots2@),
            r is Less <==> exists|i: int|
                0 <= i < slots1@.len() && i < slots2@.len() && slots1@[i] < slots2@[i]
                    && agree_below(slots1@, slots2@, i),
            r is Greater <==> exists|i: int|
                0 <= i < slots1@.len() && i < slots2@.len() && slots1@[i] > slots2@[i]
                    && agree_below(slots1@, slots2@, i),
    {
        let mut i: usize = 0;
        while i < slots1.len() && i < slots2.len()
            invariant
                i <= slots1@.len(),
                i <= slots2@.len(),
                agree_below(slots1@, slots2@, i + 0),
            decreases slots1.len() - i,
        {
            if slots1[i] < slots2[i] {
                proof {
                    lemma_first_difference(slots1@, slots2@, i + 0);
                }
                return Ordering::Less;
            }
            if slots1[i] > slots2[i] {
                proof {
                    lemma_first_difference(slots1@, slots2@, i + 0);
                }
                return Ordering::Greater;
            }
            i += 1;
        }
        proof {
            lemma_no_difference(slots1@, slots2@, i + 0);
        }
        Ordering::Equal
    }
}

/// Vectors that differ first at position `i` differ first nowhere else.
proof fn lemma_first_difference(a: Seq<i32>, b: Seq<i32>, i: int)
    requires
        0 <= i < a.len(),
        i < b.len(),
        a[i] != b[i],
        agree_below(a, b, i),
    ensures
        !agree(a, b),
        forall|k: int|
            0 <= k < a.len() && k < b.len() && a[k] != b[k] && agree_below(a, b, k) ==> k == i,
{
    assert forall|k: int|
        0 <= k < a.len() && k < b.len() && a[k] != b[k] && agree_below(a, b, k) implies k == i by {
        if k < i {
            assert(a[k] == b[k]);
        }
        if i < k {
            assert(a[i] == b[i]);
        }
    }
}

/// Vectors that agree as far as both reach differ first nowhere.
proof fn lemma_no_difference(a: Seq<i32>, b: Seq<i32>, n: int)
    requires
        agree_below(a, b, n),
        n == a.len() || n == b.len(),
        0 <= n <= a.len(),
        n <= b.len(),
    ensures
        agree(a, b),
        forall|k: int| 0 <= k < a.len() && k < b.len() ==> a[k] == b[k],
{
}

} // verus!
