//! Socket vectors and the promotion rule.
//!
//! A socket vector has one count per socket size, sizes `1..=MAX_SLOT_LEVEL`
//! at indices `0..MAX_SLOT_LEVEL`. A decoration of size `s` fits a socket of
//! size `s` or larger, so a demand that finds no socket of its own size moves
//! on ("is promoted") to the next size up.

use crate::data::skill::MAX_SLOT_LEVEL;
use vstd::prelude::*;

verus! {

/// `s` is a socket vector: one count per socket size, none negative.
pub open spec fn is_slots(s: Seq<i32>) -> bool {
    &&& s.len() == MAX_SLOT_LEVEL
    &&& forall|i: int| 0 <= i < s.len() ==> 0 <= #[trigger] s[i]
}

/// `a` asks for no more than `b` at every size.
pub open spec fn slots_le(a: Seq<i32>, b: Seq<i32>) -> bool {
    &&& a.len() == b.len()
    &&& forall|i: int| 0 <= i < a.len() ==> #[trigger] a[i] <= b[i]
}

/// The demand that is still unplaced after the sizes `1..=n` were swept: what
/// `n`'s own demand and the carry into it exceed its free sockets by.
pub open spec fn carry_after(free: Seq<i32>, req: Seq<i32>, n: int) -> int
    decreases n,
{
    if n <= 0 {
        0
    } else {
        let unplaced = req[n - 1] + carry_after(free, req, n - 1) - free[n - 1];
        if unplaced > 0 {
            unplaced
        } else {
            0
        }
    }
}

/// The promotion rule: `req` can be placed in `free` when nothing is left to
/// carry beyond the largest size.
pub open spec fn fits(free: Seq<i32>, req: Seq<i32>) -> bool {
    carry_after(free, req, MAX_SLOT_LEVEL as int) == 0
}

/// The free sockets that remain once `req` was placed by the sweep.
pub open spec fn free_after(free: Seq<i32>, req: Seq<i32>) -> Seq<int> {
    Seq::new(
        free.len(),
        |i: int|
            {
                let left = free[i] - req[i] - carry_after(free, req, i);
                if left > 0 {
                    left
                } else {
                    0int
                }
            },
    )
}

/// The demand that each size hands on to the next one in the sweep.
pub open spec fn carried_on(free: Seq<i32>, req: Seq<i32>) -> Seq<int> {
    Seq::new(req.len(), |i: int| carry_after(free, req, i + 1))
}

/// The demand of the sizes `t..MAX_SLOT_LEVEL` taken together.
pub open spec fn suffix_sum(s: Seq<i32>, t: int) -> int
    decreases MAX_SLOT_LEVEL - t,
{
    if t >= MAX_SLOT_LEVEL || t < 0 {
        0
    } else {
        s[t] + suffix_sum(s, t + 1)
    }
}

/// The sweep succeeds exactly when, for every size, the demand of that size
/// and above is covered by the free sockets of that size and above.
pub proof fn lemma_fits_by_suffix(free: Seq<i32>, req: Seq<i32>)
    requires
        is_slots(free),
        is_slots(req),
    ensures
        fits(free, req) <==> forall|t: int|
            0 <= t < MAX_SLOT_LEVEL ==> #[trigger] suffix_sum(req, t) <= suffix_sum(free, t),
{
    reveal_with_fuel(carry_after, 5);
    reveal_with_fuel(suffix_sum, 5);
    if fits(free, req) {
        assert forall|t: int| 0 <= t < MAX_SLOT_LEVEL implies #[trigger] suffix_sum(req, t)
            <= suffix_sum(free, t) by {
            assert(t == 0 || t == 1 || t == 2 || t == 3);
        }
    }
    if forall|t: int|
        0 <= t < MAX_SLOT_LEVEL ==> #[trigger] suffix_sum(req, t) <= suffix_sum(free, t) {
        assert(suffix_sum(req, 0) <= suffix_sum(free, 0));
        assert(suffix_sum(req, 1) <= suffix_sum(free, 1));
        assert(suffix_sum(req, 2) <= suffix_sum(free, 2));
        assert(suffix_sum(req, 3) <= suffix_sum(free, 3));
    }
}

/// A demand that fits still fits when less is asked and more is free.
pub proof fn lemma_fits_monotone(free: Seq<i32>, req: Seq<i32>, free2: Seq<i32>, req2: Seq<i32>)
    requires
        is_slots(free),
        is_slots(req),
        is_slots(free2),
        is_slots(req2),
        slots_le(free, free2),
        slots_le(req2, req),
        fits(free, req),
    ensures
        fits(free2, req2),
{
    reveal_with_fuel(carry_after, 5);
}

/// A socket vector without sockets.
pub fn zero_slots() -> (v: Vec<i32>)
    ensures
        is_slots(v@),
        forall|i: int| 0 <= i < v@.len() ==> #[trigger] v@[i] == 0,
{
    let mut v: Vec<i32> = Vec::new();
    let mut i: usize = 0;
    while i < MAX_SLOT_LEVEL
        invariant
            i <= MAX_SLOT_LEVEL,
            v@.len() == i,
            forall|j: int| 0 <= j < v@.len() ==> #[trigger] v@[j] == 0,
        decreases MAX_SLOT_LEVEL - i,
    {
        v.push(0);
        i += 1;
    }
    v
}

/// A copy of a vector of numbers.
pub fn copy_slots(v: &Vec<i32>) -> (r: Vec<i32>)
    ensures
        r@ == v@,
{
    let mut r: Vec<i32> = Vec::new();
    let mut i: usize = 0;
    while i < v.len()
        invariant
            i <= v.len(),
            r@ == v@.subrange(0, i as int),
        decreases v.len() - i,
    {
        r.push(v[i]);
        assert(r@ =~= v@.subrange(0, i + 1));
        i += 1;
    }
    assert(v@.subrange(0, v.len() as int) =~= v@);
    r
}

/// Whether `a` asks for no more than `b` at every size.
pub fn slots_le_exec(a: &Vec<i32>, b: &Vec<i32>) -> (r: bool)
    requires
        a@.len() == b@.len(),
    ensures
        r == slots_le(a@, b@),
{
    let mut i: usize = 0;
    while i < a.len()
        invariant
            i <= a.len(),
            a@.len() == b@.len(),
            forall|j: int| 0 <= j < i ==> #[trigger] a@[j] <= b@[j],
        decreases a.len() - i,
    {
        if a[i] > b[i] {
            return false;
        }
        i += 1;
    }
    true
}

/// Whether `v` is a socket vector.
pub fn is_slots_exec(v: &Vec<i32>) -> (r: bool)
    ensures
        r == is_slots(v@),
{
    if v.len() != MAX_SLOT_LEVEL {
        return false;
    }
    let mut i: usize = 0;
    while i < v.len()
        invariant
            i <= v.len(),
            v@.len() == MAX_SLOT_LEVEL,
            forall|j: int| 0 <= j < i ==> 0 <= #[trigger] v@[j],
        decreases v.len() - i,
    {
        if v[i] < 0 {
            return false;
        }
        i += 1;
    }
    true
}

/// Places `req` in `free` under the promotion rule. Returns the sockets that
/// are still free afterwards, or `None` where `req` does not fit.
pub fn reserve(free: &Vec<i32>, req: &Vec<i32>) -> (r: Option<Vec<i32>>)
    requires
        is_slots(free@),
        is_slots(req@),
    ensures
        r is Some <==> fits(free@, req@),
        r matches Some(rest) ==> is_slots(rest@) && slots_le(rest@, free@) && forall|i: int|
            0 <= i < MAX_SLOT_LEVEL ==> #[trigger] rest@[i] == free_after(free@, req@)[i],
{
    let mut rest: Vec<i32> = Vec::new();
    let mut promote: i64 = 0;
    let mut i: usize = 0;
    while i < MAX_SLOT_LEVEL
        invariant
            i <= MAX_SLOT_LEVEL,
            is_slots(free@),
            is_slots(req@),
            promote == carry_after(free@, req@, i as int),
            0 <= promote <= i * 0x7fff_ffff,
            rest@.len() == i,
            forall|k: int|
                0 <= k < i ==> #[trigger] rest@[k] == free_after(free@, req@)[k] && 0 <= rest@[k]
                    <= free@[k],
        decreases MAX_SLOT_LEVEL - i,
    {
        assert(0 <= free@[i as int]);
        assert(0 <= req@[i as int]);
        let asked: i64 = req[i] as i64 + promote;
        let have: i64 = free[i] as i64;
        if asked > have {
            promote = asked - have;
            rest.push(0);
        } else {
            promote = 0;
            rest.push((have - asked) as i32);
        }
        i += 1;
    }
    if promote == 0 {
        Some(rest)
    } else {
        None
    }
}

/// `a` eases `b`: it can be placed wherever `b` can, since for every size it
/// asks for no more sockets of that size and above than `b` does.
pub open spec fn eases(a: Seq<i32>, b: Seq<i32>) -> bool {
    forall|t: int| 0 <= t < MAX_SLOT_LEVEL ==> #[trigger] suffix_sum(a, t) <= suffix_sum(b, t)
}

/// What eases a demand eases every demand that the demand eases.
pub proof fn lemma_eases_trans(a: Seq<i32>, b: Seq<i32>, c: Seq<i32>)
    requires
        eases(a, b),
        eases(b, c),
    ensures
        eases(a, c),
{
    assert forall|t: int| 0 <= t < MAX_SLOT_LEVEL implies #[trigger] suffix_sum(a, t) <= suffix_sum(
        c,
        t,
    ) by {
        assert(suffix_sum(a, t) <= suffix_sum(b, t));
        assert(suffix_sum(b, t) <= suffix_sum(c, t));
    }
}

/// A demand that asks for no more at any size eases.
pub proof fn lemma_le_eases(a: Seq<i32>, b: Seq<i32>)
    requires
        a.len() == MAX_SLOT_LEVEL,
        slots_le(a, b),
    ensures
        eases(a, b),
{
    reveal_with_fuel(suffix_sum, 5);
}

/// Whether `a` eases `b`.
pub fn eases_exec(a: &Vec<i32>, b: &Vec<i32>) -> (r: bool)
    requires
        is_slots(a@),
        is_slots(b@),
    ensures
        r == eases(a@, b@),
{
    proof {
        reveal_with_fuel(suffix_sum, 5);
    }
    let a3 = a[3] as i64;
    let a2 = a3 + a[2] as i64;
    let a1 = a2 + a[1] as i64;
    let a0 = a1 + a[0] as i64;
    let b3 = b[3] as i64;
    let b2 = b3 + b[2] as i64;
    let b1 = b2 + b[1] as i64;
    let b0 = b1 + b[0] as i64;
    assert(a3 == suffix_sum(a@, 3) && a2 == suffix_sum(a@, 2) && a1 == suffix_sum(a@, 1) && a0
        == suffix_sum(a@, 0));
    assert(b3 == suffix_sum(b@, 3) && b2 == suffix_sum(b@, 2) && b1 == suffix_sum(b@, 1) && b0
        == suffix_sum(b@, 0));
    let r = a3 <= b3 && a2 <= b2 && a1 <= b1 && a0 <= b0;
    proof {
        if r {
            assert forall|t: int| 0 <= t < MAX_SLOT_LEVEL implies #[trigger] suffix_sum(a@, t)
                <= suffix_sum(b@, t) by {
                assert(t == 0 || t == 1 || t == 2 || t == 3);
            }
        }
    }
    r
}

} // verus!
