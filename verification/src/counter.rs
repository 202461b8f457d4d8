//! Mixed-radix counters.
//!
//! A counter is a vector of digits; digit `k` runs over `0..lens[k]` and
//! digit 0 moves fastest. The rank of a counter is the number of steps that
//! lead to it from the all-zero counter, so walking a counter from zero until
//! it wraps visits every digit vector within range exactly once.

use vstd::prelude::*;

verus! {

/// The digits and radices of an executable counter as mathematical integers.
pub open spec fn ints(s: Seq<usize>) -> Seq<int> {
    Seq::new(s.len(), |i: int| s[i] as int)
}

/// The number of digit vectors over the first `k` radices.
pub open spec fn weight(lens: Seq<int>, k: int) -> int
    decreases k,
{
    if k <= 0 {
        1
    } else {
        weight(lens, k - 1) * lens[k - 1]
    }
}

/// The value of the first `k` digits of `c`.
pub open spec fn rank(c: Seq<int>, lens: Seq<int>, k: int) -> int
    decreases k,
{
    if k <= 0 {
        0
    } else {
        rank(c, lens, k - 1) + c[k - 1] * weight(lens, k - 1)
    }
}

/// Every digit of `c` is below its radix.
pub open spec fn in_range(c: Seq<int>, lens: Seq<int>) -> bool {
    &&& c.len() == lens.len()
    &&& forall|k: int| 0 <= k < c.len() ==> 0 <= #[trigger] c[k] < lens[k]
}

/// All radices are positive.
pub open spec fn positive(lens: Seq<int>) -> bool {
    forall|k: int| 0 <= k < lens.len() ==> 1 <= #[trigger] lens[k]
}

pub proof fn lemma_weight_pos(lens: Seq<int>, k: int)
    requires
        positive(lens),
        0 <= k <= lens.len(),
    ensures
        weight(lens, k) >= 1,
    decreases k,
{
    if k > 0 {
        lemma_weight_pos(lens, k - 1);
        let w = weight(lens, k - 1);
        let l = lens[k - 1];
        assert(w * l >= 1) by (nonlinear_arith)
            requires
                w >= 1,
                l >= 1,
        ;
    }
}

/// The first `k` digits of a counter within range are worth less than the
/// number of `k`-digit vectors.
pub proof fn lemma_rank_bound(c: Seq<int>, lens: Seq<int>, k: int)
    requires
        in_range(c, lens),
        0 <= k <= lens.len(),
    ensures
        0 <= rank(c, lens, k) <= weight(lens, k) - 1,
    decreases k,
{
    if k > 0 {
        lemma_rank_bound(c, lens, k - 1);
        let w = weight(lens, k - 1);
        let l = lens[k - 1];
        let d = c[k - 1];
        assert(0 <= d * w && d * w + w <= w * l) by (nonlinear_arith)
            requires
                w >= 1,
                0 <= d < l,
        ;
    }
}

/// The all-zero counter has rank 0.
pub proof fn lemma_rank_zero(c: Seq<int>, lens: Seq<int>, k: int)
    requires
        0 <= k <= c.len(),
        forall|j: int| 0 <= j < k ==> #[trigger] c[j] == 0,
    ensures
        rank(c, lens, k) == 0,
    decreases k,
{
    if k > 0 {
        lemma_rank_zero(c, lens, k - 1);
        assert(0 * weight(lens, k - 1) == 0);
    }
}

/// The counter whose digits are all at their maximum has the last rank.
pub proof fn lemma_rank_max(c: Seq<int>, lens: Seq<int>, k: int)
    requires
        0 <= k <= c.len(),
        k <= lens.len(),
        forall|j: int| 0 <= j < k ==> #[trigger] c[j] == lens[j] - 1,
    ensures
        rank(c, lens, k) == weight(lens, k) - 1,
    decreases k,
{
    if k > 0 {
        lemma_rank_max(c, lens, k - 1);
        let w = weight(lens, k - 1);
        let l = lens[k - 1];
        assert((l - 1) * w == w * l - w) by (nonlinear_arith);
    }
}

/// Above the digit that a step changes, the values of the two counters keep
/// their distance.
proof fn lemma_rank_shift(c: Seq<int>, d: Seq<int>, lens: Seq<int>, p: int, k: int)
    requires
        0 <= p < k <= c.len(),
        c.len() == d.len(),
        forall|j: int| p < j < k ==> #[trigger] d[j] == c[j],
    ensures
        rank(d, lens, k) - rank(c, lens, k) == rank(d, lens, p + 1) - rank(c, lens, p + 1),
    decreases k,
{
    if k > p + 1 {
        lemma_rank_shift(c, d, lens, p, k - 1);
    }
}

/// One step of the counter: the digits below `p` wrap from their maximum to
/// zero, digit `p` goes up by one, and the rank goes up by one.
pub proof fn lemma_rank_succ(c: Seq<int>, d: Seq<int>, lens: Seq<int>, p: int)
    requires
        c.len() == lens.len(),
        d.len() == lens.len(),
        0 <= p < lens.len(),
        forall|j: int| 0 <= j < p ==> #[trigger] c[j] == lens[j] - 1,
        forall|j: int| 0 <= j < p ==> #[trigger] d[j] == 0,
        d[p] == c[p] + 1,
        forall|j: int| p < j < lens.len() ==> #[trigger] d[j] == c[j],
    ensures
        rank(d, lens, lens.len() as int) == rank(c, lens, lens.len() as int) + 1,
{
    lemma_rank_max(c, lens, p);
    lemma_rank_zero(d, lens, p);
    let w = weight(lens, p);
    let x = c[p];
    assert((x + 1) * w == x * w + w) by (nonlinear_arith);
    lemma_rank_shift(c, d, lens, p, lens.len() as int);
}

/// Two counters within range that agree on the value of their first `k`
/// digits agree on those digits.
pub proof fn lemma_rank_injective(c: Seq<int>, d: Seq<int>, lens: Seq<int>, k: int)
    requires
        in_range(c, lens),
        in_range(d, lens),
        0 <= k <= lens.len(),
        rank(c, lens, k) == rank(d, lens, k),
    ensures
        forall|j: int| 0 <= j < k ==> #[trigger] c[j] == d[j],
    decreases k,
{
    if k > 0 {
        lemma_rank_bound(c, lens, k - 1);
        lemma_rank_bound(d, lens, k - 1);
        let w = weight(lens, k - 1);
        let x = c[k - 1];
        let y = d[k - 1];
        let rc = rank(c, lens, k - 1);
        let rd = rank(d, lens, k - 1);
        assert(x == y) by (nonlinear_arith)
            requires
                0 <= rc <= w - 1,
                0 <= rd <= w - 1,
                rc + x * w == rd + y * w,
        ;
        lemma_rank_injective(c, d, lens, k - 1);
    }
}

/// A counter of `n` digits, all zero.
pub fn zero_counter(n: usize) -> (c: Vec<usize>)
    ensures
        c@.len() == n,
        forall|j: int| 0 <= j < n ==> #[trigger] c@[j] == 0,
{
    let mut c: Vec<usize> = Vec::new();
    let mut i: usize = 0;
    while i < n
        invariant
            i <= n,
            c@.len() == i,
            forall|j: int| 0 <= j < i ==> #[trigger] c@[j] == 0,
        decreases n - i,
    {
        c.push(0);
        i += 1;
    }
    c
}

/// Moves the counter one step on. Returns `false`, and leaves the counter at
/// zero, when it stood at its last value.
pub fn advance(digits: &mut Vec<usize>, lens: &Vec<usize>) -> (more: bool)
    requires
        in_range(ints(old(digits)@), ints(lens@)),
    ensures
        in_range(ints(final(digits)@), ints(lens@)),
        more ==> rank(ints(final(digits)@), ints(lens@), lens@.len() as int) == rank(
            ints(old(digits)@),
            ints(lens@),
            lens@.len() as int,
        ) + 1,
        !more ==> rank(ints(old(digits)@), ints(lens@), lens@.len() as int) == weight(
            ints(lens@),
            lens@.len() as int,
        ) - 1,
        !more ==> forall|j: int| 0 <= j < lens@.len() ==> #[trigger] final(digits)@[j] == 0,
{
    let n = digits.len();
    let ghost before = ints(digits@);
    let ghost radices = ints(lens@);
    let mut k: usize = 0;
    while k < n
        invariant
            k <= n,
            n == lens@.len(),
            digits@.len() == n,
            before.len() == n,
            before == ints(old(digits)@),
            radices == ints(lens@),
            in_range(before, radices),
            forall|j: int| 0 <= j < k ==> #[trigger] before[j] == radices[j] - 1,
            forall|j: int| 0 <= j < k ==> #[trigger] digits@[j] == 0,
            forall|j: int| k <= j < n ==> #[trigger] digits@[j] == before[j],
        decreases n - k,
    {
        assert(before[k as int] == digits@[k as int]);
        assert(0 <= before[k as int] < radices[k as int]);
        if digits[k] + 1 < lens[k] {
            let next = digits[k] + 1;
            digits.set(k, next);
            proof {
                let after = ints(digits@);
                assert forall|j: int| 0 <= j < n implies 0 <= #[trigger] after[j] < radices[j] by {
                    if j < k {
                        assert(digits@[j] == 0);
                        assert(before[j] == radices[j] - 1);
                    } else if j > k {
                        assert(digits@[j] == before[j]);
                    }
                }
                assert forall|j: int| 0 <= j < k implies #[trigger] after[j] == 0 by {
                    assert(digits@[j] == 0);
                }
                assert forall|j: int| k < j < n implies #[trigger] after[j] == before[j] by {
                    assert(digits@[j] == before[j]);
                }
                lemma_rank_succ(before, after, radices, k as int);
            }
            return true;
        }
        digits.set(k, 0);
        k += 1;
    }
    proof {
        let after = ints(digits@);
        assert forall|j: int| 0 <= j < n implies 0 <= #[trigger] after[j] < radices[j] by {
            assert(digits@[j] == 0);
            assert(before[j] == radices[j] - 1);
        }
        assert forall|j: int| 0 <= j < n implies before[j] == radices[j] - 1 by {
            assert(before[j] == radices[j] - 1);
        }
        lemma_rank_max(before, radices, n as int);
    }
    false
}

} // verus!
