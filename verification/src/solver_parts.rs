//! What the search computes of one candidate build.

use crate::calc::armor::count_of;
use crate::calc::calc_equipment::{CalcEquipment, map_nonneg};
use crate::calc::equipment::Equipment;
use crate::data::armor::is_base_slots;
use crate::data::skill::MAX_SLOT_LEVEL;
use crate::full_equipments::{build_slots, check_pieces, pieces_sound, total_slots};
use crate::slots::is_slots;
use crate::str_map::{StrMap, distinct_keys, entries_map, has_key, key_index};
use vstd::prelude::*;

verus! {

/// Of the first `k` entries of the requirement `req`, what is left once the
/// levels `got` are taken off: a skill that `got` grants at the required
/// level or above is gone, a skill that it grants at a lower level keeps
/// the difference, the others keep their level; all in their order.
pub open spec fn minus(req: Seq<(Seq<char>, i32)>, got: Map<Seq<char>, i32>, k: int) -> Seq<
    (Seq<char>, i32),
>
    decreases k,
{
    if k <= 0 {
        Seq::empty()
    } else {
        let rest = minus(req, got, k - 1);
        let e = req[k - 1];
        if got.contains_key(e.0) {
            if e.1 <= got[e.0] {
                rest
            } else {
                rest.push((e.0, (e.1 - got[e.0]) as i32))
            }
        } else {
            rest.push(e)
        }
    }
}

/// What is left of the requirement `req` once the skills of the first `k`
/// pieces were taken off, piece by piece.
pub open spec fn left_after<'a>(
    req: Seq<(Seq<char>, i32)>,
    equips: Seq<Equipment<'a>>,
    k: int,
) -> Seq<(Seq<char>, i32)>
    decreases k,
{
    if k <= 0 {
        req
    } else {
        let prev = left_after(req, equips, k - 1);
        minus(prev, entries_map(equips[k - 1].spec_skills()), prev.len() as int)
    }
}

/// No level of the requirement is negative.
pub open spec fn levels_nonneg(req: Seq<(Seq<char>, i32)>) -> bool {
    forall|i: int| 0 <= i < req.len() ==> 0 <= (#[trigger] req[i]).1
}

/// What is left of a requirement names skills of the requirement, each
/// once, at a level above zero or at the level it had.
pub proof fn lemma_minus(req: Seq<(Seq<char>, i32)>, got: Map<Seq<char>, i32>, k: int)
    requires
        distinct_keys(req),
        levels_nonneg(req),
        map_nonneg(got),
        0 <= k <= req.len(),
    ensures
        distinct_keys(minus(req, got, k)),
        levels_nonneg(minus(req, got, k)),
        minus(req, got, k).len() <= k,
        forall|id: Seq<char>| #[trigger]
            has_key(minus(req, got, k), id) ==> exists|j: int|
                0 <= j < k && (#[trigger] req[j]).0 == id,
    decreases k,
{
    if k > 0 {
        lemma_minus(req, got, k - 1);
        let rest = minus(req, got, k - 1);
        let e = req[k - 1];
        let now = minus(req, got, k);
        if now.len() > rest.len() {
            let last = now[rest.len() as int];
            assert(last.0 == e.0);
            if has_key(rest, e.0) {
                let j = choose|j: int| 0 <= j < k - 1 && (#[trigger] req[j]).0 == e.0;
                assert(req[j].0 != req[k - 1].0);
            }
            assert forall|a: int, b: int| 0 <= a < b < now.len() implies (#[trigger] now[a]).0 != (
            #[trigger] now[b]).0 by {
                if b < rest.len() {
                    assert(rest[a].0 != rest[b].0);
                } else {
                    assert(now[a] == rest[a]);
                    if rest[a].0 == e.0 {
                        assert(has_key(rest, e.0));
                    }
                }
            }
            assert forall|a: int| 0 <= a < now.len() implies 0 <= (#[trigger] now[a]).1 by {
                if a < rest.len() {
                    assert(now[a] == rest[a]);
                } else {
                    assert(0 <= e.1);
                    if got.contains_key(e.0) {
                        assert(0 <= got[e.0]);
                    }
                }
            }
        }
        assert forall|id: Seq<char>| #[trigger] has_key(now, id) implies exists|j: int|
            0 <= j < k && (#[trigger] req[j]).0 == id by {
            let a = key_index(now, id);
            if a < rest.len() {
                assert(now[a] == rest[a]);
                assert(has_key(rest, id));
                let j = choose|j: int| 0 <= j < k - 1 && (#[trigger] req[j]).0 == id;
                assert(0 <= j < k);
            } else {
                assert(req[k - 1].0 == id);
            }
        }
    }
}

/// What is left of a requirement after the pieces names each skill once,
/// at no negative level.
pub proof fn lemma_left_after<'a>(req: Seq<(Seq<char>, i32)>, equips: Seq<Equipment<'a>>, k: int)
    requires
        distinct_keys(req),
        levels_nonneg(req),
        pieces_sound(equips),
        0 <= k <= equips.len(),
    ensures
        distinct_keys(left_after(req, equips, k)),
        levels_nonneg(left_after(req, equips, k)),
        left_after(req, equips, k).len() <= req.len(),
    decreases k,
{
    if k > 0 {
        lemma_left_after(req, equips, k - 1);
        let prev = left_after(req, equips, k - 1);
        lemma_minus(prev, entries_map(equips[k - 1].spec_skills()), prev.len() as int);
    }
}

/// Takes the levels `got` off the requirement: a skill that `got` grants at
/// the required level or above leaves the requirement, a skill that it
/// grants at a lower level keeps the difference.
pub fn take_off(req_skills: &StrMap<i32>, got: &StrMap<i32>) -> (r: StrMap<i32>)
    requires
        levels_nonneg(req_skills.entries()),
        map_nonneg(got@),
    ensures
        r.entries() == minus(req_skills.entries(), got@, req_skills.entries().len() as int),
        levels_nonneg(r.entries()),
{
    let ghost req = req_skills.entries();
    let mut r: StrMap<i32> = StrMap::new();
    let n = req_skills.len();
    let mut i: usize = 0;
    while i < n
        invariant
            i <= n,
            n == req.len(),
            req == req_skills.entries(),
            distinct_keys(req),
            levels_nonneg(req),
            map_nonneg(got@),
            r.wf(),
            r.entries() == minus(req, got@, i as int),
        decreases n - i,
    {
        let id = req_skills.key_at(i);
        let level = *req_skills.value_at(i);
        assert(0 <= req[i as int].1);
        proof {
            lemma_minus(req, got@, i as int);
            if has_key(r.entries(), id@) {
                let j = choose|j: int| 0 <= j < i && (#[trigger] req[j]).0 == id@;
                assert(req[j].0 != req[i as int].0);
            }
        }
        match got.get(id) {
            Some(have) => {
                assert(0 <= *have);
                if level > *have {
                    r.insert(id.clone(), level - *have);
                }
            },
            None => {
                r.insert(id.clone(), level);
            },
        }
        i += 1;
    }
    proof {
        lemma_minus(req, got@, n as int);
    }
    r
}

/// What is left of the requirement once the skills of the pieces were taken
/// off, piece by piece.
pub fn residual_after<'a>(req_skills: &StrMap<i32>, pieces: &Vec<Equipment<'a>>) -> (r: StrMap<i32>)
    requires
        levels_nonneg(req_skills.entries()),
    ensures
        r.entries() == left_after(req_skills.entries(), pieces@, pieces@.len() as int),
        levels_nonneg(r.entries()),
{
    let mut r = req_skills.duplicate();
    let mut k: usize = 0;
    while k < pieces.len()
        invariant
            k <= pieces@.len(),
            r.entries() == left_after(req_skills.entries(), pieces@, k as int),
            levels_nonneg(r.entries()),
        decreases pieces.len() - k,
    {
        r = take_off(&r, pieces[k].skills());
        k += 1;
    }
    r
}

/// The socket vector of a build: the sockets of its pieces and of the
/// weapon, counted by size. `None` where a count cannot be written down.
pub fn total_sockets<'a>(weapon_slots: &Vec<i32>, pieces: &Vec<Equipment<'a>>) -> (r: Option<
    Vec<i32>,
>)
    requires
        is_base_slots(weapon_slots@),
    ensures
        match r {
            Some(v) => is_slots(v@) && forall|s: int|
                0 <= s < MAX_SLOT_LEVEL ==> #[trigger] v@[s] == build_slots(
                    weapon_slots@,
                    pieces@,
                    s,
                ),
            None => exists|s: int|
                0 <= s < MAX_SLOT_LEVEL && #[trigger] build_slots(weapon_slots@, pieces@, s)
                    > i32::MAX,
        },
{
    let ghost equips = pieces@;
    let ghost weapon = weapon_slots@;
    check_pieces(pieces);
    let n = pieces.len();
    let mut sums: Vec<i128> = Vec::new();
    sums.push(0);
    sums.push(0);
    sums.push(0);
    sums.push(0);
    let mut i: usize = 0;
    while i < n
        invariant
            i <= n,
            n == equips.len(),
            equips == pieces@,
            pieces_sound(equips),
            sums@.len() == MAX_SLOT_LEVEL,
            forall|s: int|
                0 <= s < MAX_SLOT_LEVEL ==> #[trigger] sums@[s] == total_slots(equips, i as int, s)
                    && 0 <= sums@[s] <= i * 0x7fff_ffff,
        decreases n - i,
    {
        let own = pieces[i].slots();
        let mut s: usize = 0;
        while s < MAX_SLOT_LEVEL
            invariant
                s <= MAX_SLOT_LEVEL,
                i < n,
                n == equips.len(),
                is_slots(own@),
                own@ == equips[i as int].spec_slots(),
                sums@.len() == MAX_SLOT_LEVEL,
                forall|t: int|
                    0 <= t < s ==> #[trigger] sums@[t] == total_slots(equips, i + 1, t) && 0
                        <= sums@[t] <= (i + 1) * 0x7fff_ffff,
                forall|t: int|
                    s <= t < MAX_SLOT_LEVEL ==> #[trigger] sums@[t] == total_slots(
                        equips,
                        i as int,
                        t,
                    ) && 0 <= sums@[t] <= i * 0x7fff_ffff,
            decreases MAX_SLOT_LEVEL - s,
        {
            assert(0 <= own@[s as int]);
            let next = sums[s] + own[s] as i128;
            sums.set(s, next);
            s += 1;
        }
        i += 1;
    }
    let mut w: usize = 0;
    while w < weapon_slots.len()
        invariant
            w <= weapon.len(),
            weapon == weapon_slots@,
            is_base_slots(weapon),
            n == equips.len(),
            sums@.len() == MAX_SLOT_LEVEL,
            forall|s: int|
                0 <= s < MAX_SLOT_LEVEL ==> #[trigger] sums@[s] == total_slots(equips, n as int, s)
                    + count_of(weapon, s + 1, w as int) && 0 <= sums@[s] <= n * 0x7fff_ffff + w,
        decreases weapon_slots.len() - w,
    {
        let weapon_slot = weapon_slots[w];
        assert(0 <= weapon[w as int] <= MAX_SLOT_LEVEL);
        if weapon_slot != 0 {
            let index = (weapon_slot - 1) as usize;
            let next = sums[index] + 1;
            sums.set(index, next);
        }
        w += 1;
    }
    let mut v: Vec<i32> = Vec::new();
    let mut s: usize = 0;
    while s < MAX_SLOT_LEVEL
        invariant
            s <= MAX_SLOT_LEVEL,
            sums@.len() == MAX_SLOT_LEVEL,
            equips == pieces@,
            weapon == weapon_slots@,
            forall|t: int|
                0 <= t < MAX_SLOT_LEVEL ==> #[trigger] sums@[t] == build_slots(weapon, equips, t)
                    && 0 <= sums@[t],
            v@.len() == s,
            forall|t: int|
                0 <= t < s ==> #[trigger] v@[t] == build_slots(weapon, equips, t) && 0 <= v@[t],
        decreases MAX_SLOT_LEVEL - s,
    {
        if sums[s] > 0x7fff_ffff {
            assert(build_slots(weapon, equips, s as int) > i32::MAX);
            return None;
        }
        v.push(sums[s] as i32);
        s += 1;
    }
    Some(v)
}

} // verus!
