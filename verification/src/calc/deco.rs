//! Scores and demands of sockets.

use crate::data::deco::Decoration;
use crate::data::skill::MAX_SLOT_LEVEL;
use crate::slots::{is_slots, zero_slots};
use vstd::prelude::*;

verus! {

/// What a socket of the largest size scores beyond its size: it scores
/// `MAX_SLOT_LEVEL + SIZE4_BONUS`.
pub const SIZE4_BONUS: i32 = 2;

/// A decoration as the search sees it.
pub struct CalcDeco<'a> {
    pub base: &'a Decoration,
}

/// The score of a socket vector: each socket scores its size, a socket of
/// the largest size two more.
pub open spec fn slot_point(slots: Seq<i32>) -> int {
    slots[0] + 2 * slots[1] + 3 * slots[2] + 6 * slots[3]
}

/// A demand for sockets: `count` sockets of at least `slot_size`.
pub open spec fn demand_valid(slot_size: i32, count: i32) -> bool {
    1 <= slot_size <= MAX_SLOT_LEVEL && 0 <= count
}

/// The sockets of size `size` that the first `k` demands ask for.
pub open spec fn demand_at(demands: Seq<(&String, i32, i32)>, k: int, size: int) -> int
    decreases k,
{
    if k <= 0 {
        0
    } else {
        demand_at(demands, k - 1, size) + if demands[k - 1].1 == size {
            demands[k - 1].2 as int
        } else {
            0
        }
    }
}

/// Every demand names a socket size and a count that is not negative.
pub open spec fn demands_valid(demands: Seq<(&String, i32, i32)>) -> bool {
    forall|i: int| 0 <= i < demands.len() ==> demand_valid((#[trigger] demands[i]).1, demands[i].2)
}

/// The demand for a size grows with the number of demands counted.
pub proof fn lemma_demand_grows(demands: Seq<(&String, i32, i32)>, k: int, size: int)
    requires
        demands_valid(demands),
        0 <= k <= demands.len(),
    ensures
        0 <= demand_at(demands, k, size) <= demand_at(demands, demands.len() as int, size),
    decreases demands.len() - k,
{
    if k < demands.len() {
        lemma_demand_grows(demands, k + 1, size);
        assert(demand_valid(demands[k].1, demands[k].2));
    }
    lemma_demand_nonneg(demands, k, size);
}

/// No size is asked for a negative number of sockets.
pub proof fn lemma_demand_nonneg(demands: Seq<(&String, i32, i32)>, k: int, size: int)
    requires
        demands_valid(demands),
        0 <= k <= demands.len(),
    ensures
        0 <= demand_at(demands, k, size),
    decreases k,
{
    if k > 0 {
        lemma_demand_nonneg(demands, k - 1, size);
        assert(demand_valid(demands[k - 1].1, demands[k - 1].2));
    }
}

impl<'a> CalcDeco<'a> {
    pub fn new(base: &'a Decoration) -> (r: Self)
        ensures
            r.base == base,
    {
        Self { base }
    }

    /// The score of a socket vector in a wide integer, which always holds it.
    pub fn get_point_wide(slots: &Vec<i32>) -> (point: i64)
        requires
            is_slots(slots@),
        ensures
            point == slot_point(slots@),
            0 <= point,
    {
        assert(4 + SIZE4_BONUS == 6);
        let point: i64 = slots[0] as i64 + 2 * (slots[1] as i64) + 3 * (slots[2] as i64) + 6 * (
        slots[3] as i64);
        point
    }

    /// The score of a socket vector: each socket scores its size, a socket
    /// of the largest size two more.
    pub fn get_point(slots: &Vec<i32>) -> (point: i32)
        requires
            is_slots(slots@),
            slot_point(slots@) <= i32::MAX,
        ensures
            point == slot_point(slots@),
    {
        Self::get_point_wide(slots) as i32
    }

    /// The socket vector that a list of demands `(skill, size, count)` adds
    /// up to.
    pub fn convert_to_slots(single_deco_skills: &Vec<(&String, i32, i32)>) -> (slots: Vec<i32>)
        requires
            demands_valid(single_deco_skills@),
            forall|s: int|
                0 <= s < MAX_SLOT_LEVEL ==> #[trigger] demand_at(
                    single_deco_skills@,
                    single_deco_skills@.len() as int,
                    s + 1,
                ) <= i32::MAX,
        ensures
            is_slots(slots@),
            forall|s: int|
                0 <= s < MAX_SLOT_LEVEL ==> #[trigger] slots@[s] == demand_at(
                    single_deco_skills@,
                    single_deco_skills@.len() as int,
                    s + 1,
                ),
    {
        let ghost demands = single_deco_skills@;
        let mut slots = zero_slots();
        let mut i: usize = 0;
        while i < single_deco_skills.len()
            invariant
                i <= demands.len(),
                demands == single_deco_skills@,
                demands_valid(demands),
                forall|s: int|
                    0 <= s < MAX_SLOT_LEVEL ==> #[trigger] demand_at(
                        demands,
                        demands.len() as int,
                        s + 1,
                    ) <= i32::MAX,
                slots@.len() == MAX_SLOT_LEVEL,
                forall|s: int|
                    0 <= s < MAX_SLOT_LEVEL ==> #[trigger] slots@[s] == demand_at(
                        demands,
                        i as int,
                        s + 1,
                    ),
            decreases single_deco_skills.len() - i,
        {
            let slot_size = single_deco_skills[i].1;
            let count = single_deco_skills[i].2;
            assert(demand_valid(demands[i as int].1, demands[i as int].2));
            let slot_size_index = (slot_size - 1) as usize;
            proof {
                lemma_demand_grows(demands, i + 1, slot_size as int);
                assert(demand_at(demands, demands.len() as int, slot_size_index + 1) <= i32::MAX);
            }
            let sum = slots[slot_size_index] + count;
            slots.set(slot_size_index, sum);
            i += 1;
        }
        proof {
            assert forall|s: int| 0 <= s < slots@.len() implies 0 <= #[trigger] slots@[s] by {
                lemma_demand_nonneg(demands, demands.len() as int, s + 1);
            }
        }
        slots
    }
}

} // verus!
