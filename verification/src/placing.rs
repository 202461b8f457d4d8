//! Placing demands one after the other.
//!
//! A piece places demands for sockets one by one, each in the smallest
//! sockets that take it. This succeeds exactly when the demands together fit
//! under the promotion rule, and leaves the sockets that the rule leaves.

use crate::calc::armor::{place, place_all};
use crate::calc::deco::{demand_at, demand_valid, demands_valid, lemma_demand_grows};
use crate::data::skill::MAX_SLOT_LEVEL;
use crate::full_equipments::free_rest;
use crate::slots::{
    carry_after, fits, free_after, is_slots, lemma_fits_by_suffix, lemma_fits_monotone, slots_le,
    suffix_sum,
};
use vstd::prelude::*;

verus! {

/// The sockets of each size that the first `k` demands ask for.
pub open spec fn needs(demands: Seq<(&String, i32, i32)>, k: int) -> Seq<i32> {
    Seq::new(MAX_SLOT_LEVEL as nat, |s: int| demand_at(demands, k, s + 1) as i32)
}

/// Demands that agree from a size on and carry the same into it carry the
/// same into every larger size.
proof fn lemma_same_carry(slots: Seq<i32>, r: Seq<i32>, r2: Seq<i32>, i: int, j: int)
    requires
        0 <= i <= j <= MAX_SLOT_LEVEL,
        forall|x: int| i <= x < MAX_SLOT_LEVEL ==> #[trigger] r2[x] == r[x],
        carry_after(slots, r2, i) == carry_after(slots, r, i),
    ensures
        carry_after(slots, r2, j) == carry_after(slots, r, j),
    decreases j,
{
    if j > i {
        lemma_same_carry(slots, r, r2, i, j - 1);
        assert(r2[j - 1] == r[j - 1]);
    }
}

/// The carry is not negative.
proof fn lemma_carry_nonneg(slots: Seq<i32>, r: Seq<i32>, i: int)
    ensures
        0 <= carry_after(slots, r, i),
{
}

/// Placing what a larger demand carries more into size index `i`, in
/// sockets that are what the rule leaves of the larger demand below `i` and
/// of the smaller from `i` on: what cannot be placed is what the larger
/// demand carries more in the end, and the sockets left are what the rule
/// leaves of the larger demand.
proof fn lemma_place_from(slots: Seq<i32>, r: Seq<i32>, r2: Seq<i32>, cur: Seq<i32>, i: int, q: int)
    requires
        is_slots(slots),
        is_slots(r),
        is_slots(r2),
        cur.len() == MAX_SLOT_LEVEL,
        0 <= i <= MAX_SLOT_LEVEL,
        forall|x: int| i <= x < MAX_SLOT_LEVEL ==> #[trigger] r2[x] == r[x],
        forall|x: int| 0 <= x < i ==> #[trigger] cur[x] == free_rest(slots, r2)[x],
        forall|x: int| i <= x < MAX_SLOT_LEVEL ==> #[trigger] cur[x] == free_rest(slots, r)[x],
        q == carry_after(slots, r2, i) - carry_after(slots, r, i),
        0 <= q,
    ensures
        place(cur, i, q).1 == carry_after(slots, r2, MAX_SLOT_LEVEL as int) - carry_after(
            slots,
            r,
            MAX_SLOT_LEVEL as int,
        ),
        place(cur, i, q).0 == free_rest(slots, r2),
    decreases MAX_SLOT_LEVEL - i,
{
    let f = free_rest(slots, r);
    let f2 = free_rest(slots, r2);
    if i >= MAX_SLOT_LEVEL {
        assert(cur =~= f2);
    } else if q == 0 {
        assert forall|x: int| 0 <= x < MAX_SLOT_LEVEL implies #[trigger] cur[x] == f2[x] by {
            if x >= i {
                lemma_same_carry(slots, r, r2, i, x);
                assert(r2[x] == r[x]);
                assert(cur[x] == f[x]);
            }
        }
        assert(cur =~= f2);
        lemma_same_carry(slots, r, r2, i, MAX_SLOT_LEVEL as int);
    } else {
        let c = carry_after(slots, r, i);
        let c2 = carry_after(slots, r2, i);
        lemma_carry_nonneg(slots, r, i);
        assert(r2[i] == r[i]);
        assert(0 <= slots[i] && 0 <= r[i]);
        assert(cur[i] == f[i]);
        assert(f[i] == free_after(slots, r)[i]);
        assert(f2[i] == free_after(slots, r2)[i]);
        let given = if q <= cur[i] {
            q
        } else {
            cur[i] as int
        };
        let next = cur.update(i, (cur[i] - given) as i32);
        assert(carry_after(slots, r, i + 1) == if r[i] + c - slots[i] > 0 {
            r[i] + c - slots[i]
        } else {
            0
        });
        assert(carry_after(slots, r2, i + 1) == if r2[i] + c2 - slots[i] > 0 {
            r2[i] + c2 - slots[i]
        } else {
            0
        });
        assert(next[i] == f2[i]);
        assert forall|x: int| 0 <= x < i + 1 implies #[trigger] next[x] == f2[x] by {
            if x < i {
                assert(cur[x] == f2[x]);
            }
        }
        assert forall|x: int| i + 1 <= x < MAX_SLOT_LEVEL implies #[trigger] next[x] == f[x] by {
            assert(cur[x] == f[x]);
        }
        lemma_place_from(slots, r, r2, next, i + 1, q - given);
    }
}

/// One more demand, placed in what the promotion rule leaves of the sockets
/// once earlier demands were placed: it can be placed exactly when all the
/// demands together fit, and what is left then is what the rule leaves.
pub proof fn lemma_place_step(slots: Seq<i32>, r: Seq<i32>, z: int, m: int)
    requires
        is_slots(slots),
        is_slots(r),
        fits(slots, r),
        0 <= z < MAX_SLOT_LEVEL,
        0 <= m,
        r[z] + m <= i32::MAX,
    ensures
        place(free_rest(slots, r), z, m).1 == 0 <==> fits(slots, r.update(z, (r[z] + m) as i32)),
        place(free_rest(slots, r), z, m).0 == free_rest(slots, r.update(z, (r[z] + m) as i32)),
{
    let r2 = r.update(z, (r[z] + m) as i32);
    let f = free_rest(slots, r);
    let f2 = free_rest(slots, r2);
    assert forall|x: int| 0 <= x < r2.len() implies 0 <= #[trigger] r2[x] by {
        assert(0 <= r[x]);
    }
    if m == 0 {
        assert(r2 =~= r);
    } else {
        let c = carry_after(slots, r, z);
        lemma_carry_nonneg(slots, r, z);
        lemma_same_lower(slots, r, r2, z, z);
        assert(0 <= slots[z] && 0 <= r[z]);
        assert(f[z] == free_after(slots, r)[z]);
        assert(f2[z] == free_after(slots, r2)[z]);
        let given = if m <= f[z] {
            m
        } else {
            f[z] as int
        };
        let next = f.update(z, (f[z] - given) as i32);
        assert(carry_after(slots, r, z + 1) == if r[z] + c - slots[z] > 0 {
            r[z] + c - slots[z]
        } else {
            0
        });
        assert(carry_after(slots, r2, z + 1) == if r2[z] + c - slots[z] > 0 {
            r2[z] + c - slots[z]
        } else {
            0
        });
        assert(next[z] == f2[z]);
        assert forall|x: int| 0 <= x < z + 1 implies #[trigger] next[x] == f2[x] by {
            if x < z {
                lemma_same_lower(slots, r, r2, z, x);
                assert(r2[x] == r[x]);
                assert(f[x] == free_after(slots, r)[x]);
                assert(f2[x] == free_after(slots, r2)[x]);
            }
        }
        assert forall|x: int| z + 1 <= x < MAX_SLOT_LEVEL implies #[trigger] r2[x] == r[x] by {}
        lemma_place_from(slots, r, r2, next, z + 1, m - given);
    }
}

/// Demands that agree below a size carry the same into every size up to it.
proof fn lemma_same_lower(slots: Seq<i32>, r: Seq<i32>, r2: Seq<i32>, z: int, j: int)
    requires
        0 <= j <= z,
        forall|x: int| 0 <= x < z ==> #[trigger] r2[x] == r[x],
    ensures
        carry_after(slots, r2, j) == carry_after(slots, r, j),
    decreases j,
{
    if j > 0 {
        lemma_same_lower(slots, r, r2, z, j - 1);
        assert(r2[j - 1] == r[j - 1]);
    }
}

/// The demands can be written down as a socket vector.
pub open spec fn needs_fit(demands: Seq<(&String, i32, i32)>) -> bool {
    forall|s: int|
        0 <= s < MAX_SLOT_LEVEL ==> #[trigger] demand_at(demands, demands.len() as int, s + 1)
            <= i32::MAX
}

/// What the first demands ask for is a socket vector, and no more at any
/// size than what more demands ask for.
proof fn lemma_needs(demands: Seq<(&String, i32, i32)>, k: int)
    requires
        demands_valid(demands),
        needs_fit(demands),
        0 <= k <= demands.len(),
    ensures
        is_slots(needs(demands, k)),
        forall|s: int|
            0 <= s < MAX_SLOT_LEVEL ==> #[trigger] needs(demands, k)[s] == demand_at(demands, k, s + 1),
        k > 0 ==> slots_le(needs(demands, k - 1), needs(demands, k)),
{
    assert forall|s: int| 0 <= s < MAX_SLOT_LEVEL implies 0 <= demand_at(demands, k, s + 1)
        <= i32::MAX && #[trigger] needs(demands, k)[s] == demand_at(demands, k, s + 1) by {
        lemma_demand_grows(demands, k, s + 1);
    }
    if k > 0 {
        assert forall|s: int| 0 <= s < MAX_SLOT_LEVEL implies #[trigger] needs(demands, k - 1)[s]
            <= needs(demands, k)[s] by {
            lemma_demand_grows(demands, k - 1, s + 1);
            lemma_demand_grows(demands, k, s + 1);
            assert(demand_valid(demands[k - 1].1, demands[k - 1].2));
        }
    }
}

/// Placing demands one after the other succeeds exactly when the demands
/// together fit the sockets under the promotion rule, and then leaves the
/// sockets that the rule leaves; the demands that were not looked at stay.
pub proof fn lemma_place_all(slots: Seq<i32>, demands: Seq<(&String, i32, i32)>, k: int)
    requires
        is_slots(slots),
        demands_valid(demands),
        needs_fit(demands),
        0 <= k <= demands.len(),
    ensures
        place_all(slots, demands, k).2 == fits(slots, needs(demands, k)),
        place_all(slots, demands, k).2 ==> place_all(slots, demands, k).0 == free_rest(
            slots,
            needs(demands, k),
        ),
        place_all(slots, demands, k).1.len() == demands.len(),
        forall|j: int| k <= j < demands.len() ==> #[trigger] place_all(slots, demands, k).1[j] == demands[j],
    decreases k,
{
    lemma_needs(demands, k);
    if k <= 0 {
        reveal_with_fuel(carry_after, 5);
        let zero = needs(demands, 0);
        assert(zero[0] == 0 && zero[1] == 0 && zero[2] == 0 && zero[3] == 0);
        assert(0 <= slots[0] && 0 <= slots[1] && 0 <= slots[2] && 0 <= slots[3]);
        assert(free_rest(slots, zero) =~= slots);
    } else {
        lemma_place_all(slots, demands, k - 1);
        lemma_needs(demands, k - 1);
        let before = needs(demands, k - 1);
        let now = needs(demands, k);
        let (s, d, ok) = place_all(slots, demands, k - 1);
        assert(d[k - 1] == demands[k - 1]);
        assert(demand_valid(demands[k - 1].1, demands[k - 1].2));
        let z = demands[k - 1].1 - 1;
        let m = demands[k - 1].2 as int;
        assert(now =~= before.update(z, (before[z] + m) as i32)) by {
            assert forall|x: int| 0 <= x < MAX_SLOT_LEVEL implies #[trigger] now[x] == before.update(
                z,
                (before[z] + m) as i32,
            )[x] by {
                assert(now[x] == demand_at(demands, k, x + 1));
                assert(before[x] == demand_at(demands, k - 1, x + 1));
            }
        }
        if ok {
            lemma_place_step(slots, before, z, m);
        } else {
            if fits(slots, now) {
                assert(slots_le(slots, slots));
                lemma_fits_monotone(slots, now, slots, before);
            }
        }
    }
}

/// Placing demands one after the other succeeds exactly when, for every
/// size, the demands of that size and above are no more than the sockets of
/// that size and above.
pub proof fn lemma_place_all_by_suffix(slots: Seq<i32>, demands: Seq<(&String, i32, i32)>)
    requires
        is_slots(slots),
        demands_valid(demands),
        needs_fit(demands),
    ensures
        place_all(slots, demands, demands.len() as int).2 <==> forall|t: int|
            0 <= t < MAX_SLOT_LEVEL ==> #[trigger] suffix_sum(needs(demands, demands.len() as int), t)
                <= suffix_sum(slots, t),
{
    lemma_place_all(slots, demands, demands.len() as int);
    lemma_needs(demands, demands.len() as int);
    lemma_fits_by_suffix(slots, needs(demands, demands.len() as int));
}

} // verus!
