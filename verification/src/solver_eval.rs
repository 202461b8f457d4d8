//! Deciding whether a candidate build meets a requirement.

use crate::calc::calc_equipment::CalcEquipment;
use crate::calc::deco::{CalcDeco, slot_point};
use crate::calc::equipment::Equipment;
use crate::data::armor::is_base_slots;
use crate::data::data_manager::DataManager;
use crate::data::deco_build::{all_slots, rows};
use crate::data::deco_walk::some_choice_fits;
use crate::data::skill::MAX_SLOT_LEVEL;
use crate::full_equipments::{build_slots, free_rest};
use crate::slots::{fits, is_slots, reserve};
use crate::solver_parts::{left_after, levels_nonneg, residual_after, total_sockets};
use crate::str_map::StrMap;
use vstd::prelude::*;

verus! {

/// A build that meets a requirement, as the search keeps it.
pub struct Candidate<'a> {
    /// The pieces of the build.
    pub equipments: Vec<Equipment<'a>>,
    /// The sockets of the pieces and the weapon.
    pub avail_slots: Vec<i32>,
    /// The sockets left once the sockets to leave free were set aside.
    pub rest_slots: Vec<i32>,
    /// The sockets left once the skills with one decoration were met too.
    pub spare_slots: Vec<i32>,
    /// The skills that the pieces leave to decorations, with their levels.
    pub residual: StrMap<i32>,
    /// The score of the sockets left.
    pub score: i64,
}

/// The number of sockets of a socket vector.
pub open spec fn row_sum(v: Seq<i32>) -> int {
    v[0] + v[1] + v[2] + v[3]
}

/// The least number of sockets among the first `k` costs of a list.
pub open spec fn min_cost(list: Seq<Seq<i32>>, k: int) -> int
    decreases k,
{
    if k <= 1 {
        row_sum(list[0])
    } else {
        let rest = min_cost(list, k - 1);
        if row_sum(list[k - 1]) < rest {
            row_sum(list[k - 1])
        } else {
            rest
        }
    }
}

/// Every skill of the requirement has a decoration.
pub open spec fn all_decorated(res: Seq<(Seq<char>, i32)>, dm: &DataManager) -> bool {
    forall|i: int| 0 <= i < res.len() ==> dm.deco_count((#[trigger] res[i]).0) > 0
}

/// The costs that the table offers for entry `i` of the requirement.
pub open spec fn offers(res: Seq<(Seq<char>, i32)>, dm: &DataManager, i: int) -> Seq<Seq<i32>> {
    dm.deco_combinations.combos(res[i].0, res[i].1 as int)
}

/// The table offers a cost for every skill of the requirement.
pub open spec fn all_listed(res: Seq<(Seq<char>, i32)>, dm: &DataManager) -> bool {
    forall|i: int| 0 <= i < res.len() ==> (#[trigger] offers(res, dm, i)).len() > 0
}

/// The sockets of size index `s` that the skills with one decoration among
/// the first `k` of the requirement cost.
pub open spec fn single_demand(res: Seq<(Seq<char>, i32)>, dm: &DataManager, k: int, s: int) -> int
    decreases k,
{
    if k <= 0 {
        0
    } else {
        single_demand(res, dm, k - 1, s) + if dm.deco_count(res[k - 1].0) == 1 {
            offers(res, dm, k - 1)[0][s] as int
        } else {
            0
        }
    }
}

/// The fewest sockets that the skills with several decorations among the
/// first `k` of the requirement cost together.
pub open spec fn multi_floor(res: Seq<(Seq<char>, i32)>, dm: &DataManager, k: int) -> int
    decreases k,
{
    if k <= 0 {
        0
    } else {
        multi_floor(res, dm, k - 1) + if dm.deco_count(res[k - 1].0) > 1 {
            min_cost(offers(res, dm, k - 1), offers(res, dm, k - 1).len() as int)
        } else {
            0
        }
    }
}

/// The socket vector of the build, where it can be written down.
pub open spec fn avail_vec<'a>(weapon: Seq<i32>, pieces: Seq<Equipment<'a>>) -> Seq<i32> {
    Seq::new(MAX_SLOT_LEVEL as nat, |s: int| build_slots(weapon, pieces, s) as i32)
}

/// The sockets that the skills with one decoration cost.
pub open spec fn demand_vec(res: Seq<(Seq<char>, i32)>, dm: &DataManager) -> Seq<i32> {
    Seq::new(MAX_SLOT_LEVEL as nat, |s: int| single_demand(res, dm, res.len() as int, s) as i32)
}

/// The decorations can meet what the pieces leave of the requirement: each
/// skill left has decorations and a cost in the table, the skills with one
/// decoration fit the sockets, the skills with several do not need more
/// sockets than are left then, and some packing for all skills left fits.
pub open spec fn decos_suffice(res: Seq<(Seq<char>, i32)>, rest: Seq<i32>, dm: &DataManager) -> bool {
    &&& all_decorated(res, dm)
    &&& all_listed(res, dm)
    &&& forall|s: int|
        0 <= s < MAX_SLOT_LEVEL ==> #[trigger] single_demand(res, dm, res.len() as int, s)
            <= i32::MAX
    &&& fits(rest, demand_vec(res, dm))
    &&& multi_floor(res, dm, res.len() as int) <= row_sum(free_rest(rest, demand_vec(res, dm)))
    &&& some_choice_fits(dm.deco_combinations.lists(res), rest)
}

/// The build of `pieces` and a weapon with the socket sizes `weapon` meets
/// the requirement `req` and leaves the sockets `free` free.
pub open spec fn acceptable<'a>(
    pieces: Seq<Equipment<'a>>,
    weapon: Seq<i32>,
    req: Seq<(Seq<char>, i32)>,
    free: Seq<i32>,
    dm: &DataManager,
) -> bool {
    let avail = avail_vec(weapon, pieces);
    let res = left_after(req, pieces, pieces.len() as int);
    &&& forall|s: int| 0 <= s < MAX_SLOT_LEVEL ==> #[trigger] build_slots(weapon, pieces, s) <= i32::MAX
    &&& fits(avail, free)
    &&& res.len() == 0 || decos_suffice(res, free_rest(avail, free), dm)
}

/// The sockets that the build of `pieces` keeps once the sockets `free`
/// were set aside and the skills left with one decoration were met: the
/// sockets that its score counts.
pub open spec fn spare_of<'a>(
    pieces: Seq<Equipment<'a>>,
    weapon: Seq<i32>,
    req: Seq<(Seq<char>, i32)>,
    free: Seq<i32>,
    dm: &DataManager,
) -> Seq<i32> {
    let rest = free_rest(avail_vec(weapon, pieces), free);
    let res = left_after(req, pieces, pieces.len() as int);
    if res.len() == 0 {
        rest
    } else {
        free_rest(rest, demand_vec(res, dm))
    }
}

/// `c` is what the search keeps of the build of `pieces`.
pub open spec fn candidate_of<'a>(
    c: Candidate<'a>,
    pieces: Seq<Equipment<'a>>,
    weapon: Seq<i32>,
    req: Seq<(Seq<char>, i32)>,
    free: Seq<i32>,
    dm: &DataManager,
) -> bool {
    let res = left_after(req, pieces, pieces.len() as int);
    &&& c.equipments@ == pieces
    &&& c.avail_slots@ == avail_vec(weapon, pieces)
    &&& is_slots(c.avail_slots@)
    &&& c.rest_slots@ == free_rest(c.avail_slots@, free)
    &&& is_slots(c.rest_slots@)
    &&& c.residual.entries() == res
    &&& c.spare_slots@ == if res.len() == 0 {
        c.rest_slots@
    } else {
        free_rest(c.rest_slots@, demand_vec(res, dm))
    }
    &&& is_slots(c.spare_slots@)
    &&& c.score == slot_point(c.spare_slots@)
}

/// The sockets that the skills with one decoration cost: `None` unless
/// every skill has decorations and a cost in the table and the sockets can
/// be written down. With it, the fewest sockets that the skills with
/// several decorations cost together.
fn decoration_needs(res: &StrMap<i32>, dm: &DataManager) -> (r: Option<(Vec<i32>, i128)>)
    ensures
        r is Some <==> all_decorated(res.entries(), dm) && all_listed(res.entries(), dm)
            && forall|s: int|
            0 <= s < MAX_SLOT_LEVEL ==> #[trigger] single_demand(
                res.entries(),
                dm,
                res.entries().len() as int,
                s,
            ) <= i32::MAX,
        r matches Some(x) ==> x.0@ == demand_vec(res.entries(), dm) && is_slots(x.0@) && x.1
            == multi_floor(res.entries(), dm, res.entries().len() as int),
{
    let ghost e = res.entries();
    let n = res.len();
    let mut sums: Vec<i128> = Vec::new();
    sums.push(0);
    sums.push(0);
    sums.push(0);
    sums.push(0);
    let mut floor: i128 = 0;
    let mut i: usize = 0;
    while i < n
        invariant
            i <= n,
            n == e.len(),
            e == res.entries(),
            sums@.len() == MAX_SLOT_LEVEL,
            forall|j: int| 0 <= j < i ==> dm.deco_count((#[trigger] e[j]).0) > 0,
            forall|j: int| 0 <= j < i ==> (#[trigger] offers(e, dm, j)).len() > 0,
            forall|s: int|
                0 <= s < MAX_SLOT_LEVEL ==> #[trigger] sums@[s] == single_demand(e, dm, i as int, s)
                    && 0 <= sums@[s] <= i * 0x7fff_ffff,
            floor == multi_floor(e, dm, i as int),
            0 <= floor <= i * 0x2_0000_0000,
        decreases n - i,
    {
        let id = res.key_at(i);
        let level = *res.value_at(i);
        let count = match dm.decos_by_skill.get(id) {
            Some(list) => list.len(),
            None => 0,
        };
        assert(count == dm.deco_count(e[i as int].0));
        if count == 0 {
            return None;
        }
        let combos = dm.deco_combinations.costs_of_level(id, level);
        assert(rows(combos@) == offers(e, dm, i as int));
        if combos.len() == 0 {
            return None;
        }
        if count == 1 {
            let first = &combos[0];
            assert(first@ == rows(combos@)[0]);
            assert(is_slots(first@));
            let mut s: usize = 0;
            while s < MAX_SLOT_LEVEL
                invariant
                    s <= MAX_SLOT_LEVEL,
                    i < n,
                    n == e.len(),
                    is_slots(first@),
                    first@ == offers(e, dm, i as int)[0],
                    dm.deco_count(e[i as int].0) == 1,
                    sums@.len() == MAX_SLOT_LEVEL,
                    forall|t: int|
                        0 <= t < s ==> #[trigger] sums@[t] == single_demand(e, dm, i + 1, t) && 0
                            <= sums@[t] <= (i + 1) * 0x7fff_ffff,
                    forall|t: int|
                        s <= t < MAX_SLOT_LEVEL ==> #[trigger] sums@[t] == single_demand(
                            e,
                            dm,
                            i as int,
                            t,
                        ) && 0 <= sums@[t] <= i * 0x7fff_ffff,
                decreases MAX_SLOT_LEVEL - s,
            {
                assert(0 <= first@[s as int]);
                let next = sums[s] + first[s] as i128;
                sums.set(s, next);
                s += 1;
            }
        } else {
            let least = least_cost(&combos);
            floor = floor + least;
        }
        i += 1;
    }
    let mut demand: Vec<i32> = Vec::new();
    let mut s: usize = 0;
    while s < MAX_SLOT_LEVEL
        invariant
            s <= MAX_SLOT_LEVEL,
            n == e.len(),
            e == res.entries(),
            sums@.len() == MAX_SLOT_LEVEL,
            forall|t: int|
                0 <= t < MAX_SLOT_LEVEL ==> #[trigger] sums@[t] == single_demand(e, dm, n as int, t)
                    && 0 <= sums@[t],
            demand@.len() == s,
            forall|t: int|
                0 <= t < s ==> #[trigger] demand@[t] == single_demand(e, dm, n as int, t) && 0
                    <= demand@[t],
        decreases MAX_SLOT_LEVEL - s,
    {
        if sums[s] > 0x7fff_ffff {
            assert(single_demand(e, dm, e.len() as int, s as int) > i32::MAX);
            return None;
        }
        demand.push(sums[s] as i32);
        s += 1;
    }
    assert(demand@ =~= demand_vec(e, dm));
    assert forall|t: int| 0 <= t < MAX_SLOT_LEVEL implies #[trigger] single_demand(
        e,
        dm,
        e.len() as int,
        t,
    ) <= i32::MAX by {
        assert(demand@[t] == single_demand(e, dm, n as int, t));
    }
    Some((demand, floor))
}

/// The least number of sockets among the costs of a list that is not empty.
fn least_cost(combos: &Vec<Vec<i32>>) -> (least: i128)
    requires
        combos@.len() > 0,
        all_slots(rows(combos@)),
    ensures
        least == min_cost(rows(combos@), combos@.len() as int),
        0 <= least <= 0x2_0000_0000,
{
    let ghost list = rows(combos@);
    assert(is_slots(list[0]));
    let mut least: i128 = combos[0][0] as i128 + combos[0][1] as i128 + combos[0][2] as i128
        + combos[0][3] as i128;
    let mut k: usize = 1;
    while k < combos.len()
        invariant
            1 <= k <= combos@.len(),
            list == rows(combos@),
            all_slots(list),
            least == min_cost(list, k as int),
            0 <= least <= 0x2_0000_0000,
        decreases combos.len() - k,
    {
        assert(is_slots(list[k as int]));
        assert(list[k as int] == combos@[k as int]@);
        let row = &combos[k];
        let sum: i128 = row[0] as i128 + row[1] as i128 + row[2] as i128 + row[3] as i128;
        if sum < least {
            least = sum;
        }
        k += 1;
    }
    least
}

/// Decides whether the build of `pieces` and a weapon with the socket sizes
/// `weapon_slots` meets the requirement `req_skills` while leaving the
/// sockets `free_slots` free, and says what is left to decorations.
///
/// The levels that the pieces grant are taken off the requirement, piece by
/// piece. The sockets to leave free are set aside under the promotion rule.
/// Where no skill is left, the build is accepted. Else every skill left
/// must have decorations and a cost in the table; the sockets of the skills
/// with one decoration are set aside in turn; the skills with several must
/// not need more sockets than are left then; and some packing for all
/// skills left must fit the sockets that the free ones left. The score is
/// that of the sockets left at the end.
pub fn evaluate<'a>(
    pieces: Vec<Equipment<'a>>,
    weapon_slots: &Vec<i32>,
    req_skills: &StrMap<i32>,
    free_slots: &Vec<i32>,
    dm: &DataManager,
) -> (r: Option<Candidate<'a>>)
    requires
        is_base_slots(weapon_slots@),
        is_slots(free_slots@),
        levels_nonneg(req_skills.entries()),
    ensures
        r is Some <==> acceptable(pieces@, weapon_slots@, req_skills.entries(), free_slots@, dm),
        r matches Some(c) ==> candidate_of(
            c,
            pieces@,
            weapon_slots@,
            req_skills.entries(),
            free_slots@,
            dm,
        ),
{
    let avail_slots = match total_sockets(weapon_slots, &pieces) {
        Some(v) => v,
        None => {
            return None;
        },
    };
    assert(avail_slots@ =~= avail_vec(weapon_slots@, pieces@));
    let rest_slots = match reserve(&avail_slots, free_slots) {
        Some(v) => v,
        None => {
            return None;
        },
    };
    assert(rest_slots@ =~= free_rest(avail_slots@, free_slots@));
    let residual = residual_after(req_skills, &pieces);
    if residual.len() == 0 {
        let score = CalcDeco::get_point_wide(&rest_slots);
        let spare_slots = crate::slots::copy_slots(&rest_slots);
        return Some(Candidate { equipments: pieces, avail_slots, rest_slots, spare_slots, residual, score });
    }
    let (demand, floor) = match decoration_needs(&residual, dm) {
        Some(x) => x,
        None => {
            return None;
        },
    };
    let spare_slots = match reserve(&rest_slots, &demand) {
        Some(v) => v,
        None => {
            return None;
        },
    };
    assert(spare_slots@ =~= free_rest(rest_slots@, demand@));
    let spare_sum: i128 = spare_slots[0] as i128 + spare_slots[1] as i128 + spare_slots[2] as i128
        + spare_slots[3] as i128;
    if floor > spare_sum {
        return None;
    }
    if !dm.deco_combinations.has_possible_combs(&residual, &rest_slots) {
        return None;
    }
    let score = CalcDeco::get_point_wide(&spare_slots);
    Some(Candidate { equipments: pieces, avail_slots, rest_slots, spare_slots, residual, score })
}

} // verus!
