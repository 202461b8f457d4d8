//! The builds of an answer in the shape in which they are handed out.

use crate::calc::armor::{CalcArmor, levels_of};
use crate::calc::calc_equipment::CalcEquipment;
use crate::calc::equipment::Equipment;
use crate::calc::talisman::CalcTalisman;
use crate::counter::{
    advance, in_range, ints, lemma_rank_bound, lemma_rank_injective, lemma_rank_zero,
    lemma_weight_pos, positive, rank, weight, zero_counter,
};
use crate::data::armor::{BaseArmor, SexType};
use crate::data::data_manager::{BODY_PARTS, DataManager};
use crate::data::deco_combination::DecorationCombination;
use crate::slots::copy_slots;
use crate::solver_bag::SolvedBuild;
use crate::solver_pools::{build_part, part_at, sex_fits, sex_ok};
use crate::str_map::{StrMap, distinct_keys, has_key, key_index};
use vstd::prelude::*;

verus! {

/// A body piece of a build as it is handed out.
pub struct ResultArmor {
    /// The identifier of the piece; of an augmented piece, that of the
    /// piece it was made from.
    pub base_id: String,
    /// Whether the piece is an augmented one.
    pub is_anomaly: bool,
    /// The skills of the piece with their levels.
    pub skills: StrMap<i32>,
    /// The socket sizes of the piece.
    pub slots: Vec<i32>,
}

/// The charm of a build as it is handed out.
pub struct ResultTalisman {
    /// The skills of the charm with their levels.
    pub skills: StrMap<i32>,
    /// The socket sizes of the charm.
    pub slots: Vec<i32>,
}

/// A build as it is handed out: the body pieces in the order helm, torso,
/// arm, waist, feet, the charm, and the packings of decorations.
pub struct ResultBuild {
    pub armors: Vec<ResultArmor>,
    pub talisman: ResultTalisman,
    pub deco_combs: Vec<DecorationCombination>,
}

/// `r` shows the body piece `a` of a build.
pub open spec fn shows_armor<'a>(r: ResultArmor, a: CalcArmor<'a>) -> bool {
    &&& r.base_id@ == a.spec_original().id@
    &&& r.is_anomaly == "__anomaly"@.is_prefix_of(a.spec_base().id@)
    &&& r.skills.entries() == a.spec_skills()
    &&& r.slots@ == a.spec_base().slots@
}

/// `r` shows the piece `b` of the catalog.
pub open spec fn shows_base(r: ResultArmor, b: BaseArmor) -> bool {
    &&& r.base_id@ == b.id@
    &&& !r.is_anomaly
    &&& r.skills.entries() == levels_of(b.skills.entries())
    &&& r.slots@ == b.slots@
}

/// `r` shows the charm `t` of a build.
pub open spec fn shows_talisman<'a>(r: ResultTalisman, t: CalcTalisman<'a>) -> bool {
    &&& r.skills.entries() == t.spec_skills()
    &&& r.slots@ == t.spec_tali().slot_sizes@
}

/// `out` holds copies of the packings `src`.
pub open spec fn same_packings(out: Seq<DecorationCombination>, src: Seq<DecorationCombination>) -> bool {
    &&& out.len() == src.len()
    &&& forall|i: int|
        0 <= i < out.len() ==> (#[trigger] out[i]).sum@ == src[i].sum@
            && out[i].combs_per_skill.entries().len() == src[i].combs_per_skill.entries().len()
            && forall|k: int|
            0 <= k < out[i].combs_per_skill.entries().len() ==> (
            #[trigger] out[i].combs_per_skill.entries()[k]).0 == src[i].combs_per_skill.entries()[k].0
                && out[i].combs_per_skill.entries()[k].1@ == src[i].combs_per_skill.entries()[k].1@
}

/// The six pieces are five body pieces and a charm, in this order.
pub open spec fn is_build<'a>(equipments: Seq<Equipment<'a>>) -> bool {
    &&& equipments.len() == 6
    &&& forall|k: int| 0 <= k < 5 ==> (#[trigger] equipments[k]) is Armor
    &&& equipments[5] is Talisman
}

/// The body piece `a` as it is handed out.
pub fn show_armor<'a>(a: &CalcArmor<'a>) -> (r: ResultArmor)
    ensures
        shows_armor(r, *a),
{
    ResultArmor {
        base_id: a.original_id().clone(),
        is_anomaly: a.is_anomaly(),
        skills: a.skills().duplicate(),
        slots: copy_slots(&a.base().slots),
    }
}

/// The piece `b` of the catalog as it is handed out.
pub fn show_base(b: &BaseArmor) -> (r: ResultArmor)
    ensures
        shows_base(r, *b),
{
    let ghost src = b.skills.entries();
    let mut skills: StrMap<i32> = StrMap::new();
    let n = b.skills.len();
    let mut i: usize = 0;
    while i < n
        invariant
            i <= n,
            n == src.len(),
            src == b.skills.entries(),
            distinct_keys(src),
            skills.wf(),
            skills.entries() == levels_of(src).subrange(0, i as int),
        decreases n - i,
    {
        let skill_id = b.skills.key_at(i);
        let level = b.skills.value_at(i).level;
        let ghost before = skills.entries();
        proof {
            if has_key(before, skill_id@) {
                let k = key_index(before, skill_id@);
                assert(before[k].0 == src[k].0);
                assert(src[k].0 != src[i as int].0);
            }
        }
        skills.insert(skill_id.clone(), level);
        assert(skills.entries() =~= levels_of(src).subrange(0, i + 1));
        i += 1;
    }
    assert(levels_of(src).subrange(0, n as int) =~= levels_of(src));
    ResultArmor { base_id: b.id().clone(), is_anomaly: false, skills, slots: copy_slots(&b.slots) }
}

/// The charm `t` as it is handed out.
pub fn show_talisman<'a>(t: &CalcTalisman<'a>) -> (r: ResultTalisman)
    ensures
        shows_talisman(r, *t),
{
    ResultTalisman { skills: t.skills().duplicate(), slots: copy_slots(&t.tali().slot_sizes) }
}

/// Copies of the packings.
pub fn copy_packings(src: &Vec<DecorationCombination>) -> (out: Vec<DecorationCombination>)
    ensures
        same_packings(out@, src@),
{
    let mut out: Vec<DecorationCombination> = Vec::new();
    let mut i: usize = 0;
    while i < src.len()
        invariant
            i <= src@.len(),
            out@.len() == i,
            forall|j: int|
                0 <= j < i ==> (#[trigger] out@[j]).sum@ == src@[j].sum@
                    && out@[j].combs_per_skill.entries().len()
                    == src@[j].combs_per_skill.entries().len() && forall|k: int|
                    0 <= k < out@[j].combs_per_skill.entries().len() ==> (
                    #[trigger] out@[j].combs_per_skill.entries()[k]).0
                        == src@[j].combs_per_skill.entries()[k].0
                        && out@[j].combs_per_skill.entries()[k].1@
                        == src@[j].combs_per_skill.entries()[k].1@,
        decreases src.len() - i,
    {
        out.push(src[i].clone());
        i += 1;
    }
    out
}

/// The build of the pieces `equipments` with the packings `deco_combs` as
/// it is handed out; `None` unless the pieces are five body pieces and a
/// charm, in this order.
pub fn show_build<'a>(equipments: &Vec<Equipment<'a>>, deco_combs: &Vec<DecorationCombination>) -> (r:
    Option<ResultBuild>)
    ensures
        r is Some <==> is_build(equipments@),
        r matches Some(b) ==> b.armors@.len() == 5 && (forall|k: int|
            0 <= k < 5 ==> shows_armor(#[trigger] b.armors@[k], equipments@[k]->Armor_0))
            && shows_talisman(b.talisman, equipments@[5]->Talisman_0) && same_packings(
            b.deco_combs@,
            deco_combs@,
        ),
{
    if equipments.len() != 6 {
        return None;
    }
    let mut armors: Vec<ResultArmor> = Vec::new();
    let mut k: usize = 0;
    while k < 5
        invariant
            k <= 5,
            equipments@.len() == 6,
            armors@.len() == k,
            forall|j: int| 0 <= j < k ==> (#[trigger] equipments@[j]) is Armor,
            forall|j: int|
                0 <= j < k ==> shows_armor(#[trigger] armors@[j], equipments@[j]->Armor_0),
        decreases 5 - k,
    {
        match &equipments[k] {
            Equipment::Armor(a) => {
                armors.push(show_armor(a));
            },
            Equipment::Talisman(_) => {
                return None;
            },
        }
        k += 1;
    }
    match &equipments[5] {
        Equipment::Talisman(t) => Some(
            ResultBuild { armors, talisman: show_talisman(t), deco_combs: copy_packings(deco_combs) },
        ),
        Equipment::Armor(_) => None,
    }
}

/// The piece `b` can be worn at position `k` under the filter `sex`.
pub open spec fn wearable(b: BaseArmor, k: int, sex: SexType) -> bool {
    b.part == build_part(k) && sex_ok(b.sex_type, sex)
}

/// The positions, among the first `n` pieces of `list`, of the pieces that
/// can be worn at position `k` under the filter `sex`.
pub open spec fn wearables(list: Seq<BaseArmor>, k: int, sex: SexType, n: int) -> Seq<int>
    decreases n,
{
    if n <= 0 {
        Seq::empty()
    } else if wearable(list[n - 1], k, sex) {
        wearables(list, k, sex, n - 1).push(n - 1)
    } else {
        wearables(list, k, sex, n - 1)
    }
}

/// The pieces of the catalog that a socket-only piece named `id` at
/// position `k` stands for: the pieces listed under `id` for the position.
pub open spec fn stood_for(dm: &DataManager, k: int, id: Seq<char>) -> Seq<BaseArmor> {
    if 0 <= k < BODY_PARTS && "__slot"@.is_prefix_of(id) && dm.armors_by_slot@[k]@.contains_key(id) {
        dm.armors_by_slot@[k]@[id]@
    } else {
        Seq::empty()
    }
}

/// The positions in `stood_for(dm, k, id)` of the pieces that can stand in
/// the place of the piece named `id` at position `k`.
pub open spec fn stand_ins(dm: &DataManager, k: int, id: Seq<char>, sex: SexType) -> Seq<int> {
    wearables(stood_for(dm, k, id), k, sex, stood_for(dm, k, id).len() as int)
}

/// The positions of the wearable pieces are positions of the list.
pub proof fn lemma_wearables(list: Seq<BaseArmor>, k: int, sex: SexType, n: int)
    requires
        0 <= n <= list.len(),
    ensures
        forall|a: int|
            0 <= a < wearables(list, k, sex, n).len() ==> 0 <= #[trigger] wearables(
                list,
                k,
                sex,
                n,
            )[a] < n && wearable(list[wearables(list, k, sex, n)[a]], k, sex),
    decreases n,
{
    if n > 0 {
        lemma_wearables(list, k, sex, n - 1);
        let before = wearables(list, k, sex, n - 1);
        let now = wearables(list, k, sex, n);
        assert forall|a: int| 0 <= a < now.len() implies 0 <= #[trigger] now[a] < n && wearable(
            list[now[a]],
            k,
            sex,
        ) by {
            if a < before.len() {
                assert(now[a] == before[a]);
                assert(0 <= before[a] < n - 1);
            }
        }
    }
}

/// The pieces of the catalog that can stand in the place of `piece` at
/// position `k` of a build: for a socket-only body piece, the pieces listed
/// under its identifier that can be worn there; else none.
pub fn alternatives<'a, 'b>(piece: &Equipment<'b>, dm: &'a DataManager, k: usize, sex: SexType) -> (r:
    Vec<&'a BaseArmor>)
    requires
        dm.wf(),
        k < 6,
    ensures
        r@.len() == stand_ins(dm, k as int, piece.spec_id(), sex).len(),
        forall|a: int|
            0 <= a < r@.len() ==> *(#[trigger] r@[a]) == stood_for(dm, k as int, piece.spec_id())[stand_ins(
                dm,
                k as int,
                piece.spec_id(),
                sex,
            )[a]],
{
    let mut r: Vec<&'a BaseArmor> = Vec::new();
    if k >= BODY_PARTS || !BaseArmor::is_slot_armor(piece.id()) {
        return r;
    }
    match dm.armors_by_slot[k].get(piece.id()) {
        None => r,
        Some(list) => {
            let ghost all = list@;
            let part = part_at(k);
            let mut i: usize = 0;
            while i < list.len()
                invariant
                    i <= list@.len(),
                    all == list@,
                    part == build_part(k as int),
                    r@.len() == wearables(all, k as int, sex, i as int).len(),
                    forall|a: int|
                        0 <= a < r@.len() ==> *(#[trigger] r@[a]) == all[wearables(
                            all,
                            k as int,
                            sex,
                            i as int,
                        )[a]],
                decreases list.len() - i,
            {
                proof {
                    lemma_wearables(all, k as int, sex, i as int);
                }
                if list[i].part == part && sex_fits(list[i].sex_type, sex) {
                    let ghost before = r@;
                    r.push(&list[i]);
                    proof {
                        let w = wearables(all, k as int, sex, i + 1);
                        assert forall|a: int| 0 <= a < r@.len() implies *(#[trigger] r@[a]) == all[w[a]] by {
                            if a < before.len() {
                                assert(r@[a] == before[a]);
                            }
                        }
                    }
                }
                i += 1;
            }
            r
        },
    }
}

/// The number of ways to fill each body position of a build: one, or the
/// number of pieces that can stand in the place of its socket-only piece.
pub open spec fn ways<'a>(equipments: Seq<Equipment<'a>>, dm: &DataManager, sex: SexType) -> Seq<int> {
    Seq::new(
        5,
        |k: int|
            {
                let n = stand_ins(dm, k, equipments[k].spec_id(), sex).len() as int;
                if n > 0 {
                    n
                } else {
                    1
                }
            },
    )
}

/// `r` shows the build of `equipments` in which each socket-only body piece
/// with pieces to stand in its place is replaced by the one that `c` names.
pub open spec fn shows_choice<'a>(
    r: ResultBuild,
    equipments: Seq<Equipment<'a>>,
    deco_combs: Seq<DecorationCombination>,
    dm: &DataManager,
    sex: SexType,
    c: Seq<int>,
) -> bool {
    &&& r.armors@.len() == 5
    &&& forall|k: int|
        0 <= k < 5 ==> {
            let id = equipments[k].spec_id();
            let ins = stand_ins(dm, k, id, sex);
            if ins.len() > 0 {
                shows_base(#[trigger] r.armors@[k], stood_for(dm, k, id)[ins[c[k]]])
            } else {
                shows_armor(r.armors@[k], equipments[k]->Armor_0)
            }
        }
    &&& shows_talisman(r.talisman, equipments[5]->Talisman_0)
    &&& same_packings(r.deco_combs@, deco_combs)
}

/// The builds that a build of an answer stands for, as they are handed out:
/// each socket-only body piece is replaced in turn by every piece of the
/// catalog that it stands for and that can be worn; the other pieces and the
/// packings stay. The builds come in the order of a counter over the
/// positions, the helm turning fastest. A build that is not made of five
/// body pieces and a charm stands for none.
pub fn concrete_builds<'a>(b: &SolvedBuild<'a>, dm: &'a DataManager, sex: SexType) -> (out: Vec<
    ResultBuild,
>)
    requires
        dm.wf(),
    ensures
        !is_build(b.equipments@) ==> out@.len() == 0,
        is_build(b.equipments@) ==> out@.len() == weight(ways(b.equipments@, dm, sex), 5)
            && forall|c: Seq<int>| #[trigger]
            in_range(c, ways(b.equipments@, dm, sex)) ==> shows_choice(
                out@[rank(c, ways(b.equipments@, dm, sex), 5)],
                b.equipments@,
                b.deco_combs@,
                dm,
                sex,
                c,
            ),
{
    let mut out: Vec<ResultBuild> = Vec::new();
    let base = match show_build(&b.equipments, &b.deco_combs) {
        Some(shown) => shown,
        None => {
            return out;
        },
    };
    let ghost equips = b.equipments@;
    let ghost radices = ways(equips, dm, sex);
    let mut alts: Vec<Vec<&'a BaseArmor>> = Vec::new();
    let mut lens: Vec<usize> = Vec::new();
    let mut k: usize = 0;
    while k < 5
        invariant
            k <= 5,
            dm.wf(),
            equips == b.equipments@,
            equips.len() == 6,
            radices == ways(equips, dm, sex),
            alts@.len() == k,
            lens@.len() == k,
            forall|j: int|
                0 <= j < k ==> (#[trigger] alts@[j])@.len() == stand_ins(
                    dm,
                    j,
                    equips[j].spec_id(),
                    sex,
                ).len(),
            forall|j: int, a: int|
                0 <= j < k && 0 <= a < alts@[j]@.len() ==> *(#[trigger] alts@[j]@[a]) == stood_for(
                    dm,
                    j,
                    equips[j].spec_id(),
                )[stand_ins(dm, j, equips[j].spec_id(), sex)[a]],
            forall|j: int| 0 <= j < k ==> #[trigger] lens@[j] == radices[j] && 1 <= lens@[j],
        decreases 5 - k,
    {
        let list = alternatives(&b.equipments[k], dm, k, sex);
        if list.len() > 0 {
            lens.push(list.len());
        } else {
            lens.push(1);
        }
        alts.push(list);
        k += 1;
    }
    let mut digits = zero_counter(5);
    let ghost mut step: int = 0;
    let mut more = true;
    proof {
        assert(ints(lens@) =~= radices);
        assert forall|i: int| 0 <= i < 5 implies 0 <= #[trigger] ints(digits@)[i] < radices[i] by {
            assert(digits@[i] == 0);
            assert(1 <= lens@[i]);
        }
        assert forall|i: int| 0 <= i < 5 implies #[trigger] ints(digits@)[i] == 0 by {
            assert(digits@[i] == 0);
        }
        assert forall|i: int| 0 <= i < radices.len() implies 1 <= #[trigger] radices[i] by {
            assert(1 <= lens@[i]);
        }
        lemma_rank_zero(ints(digits@), radices, 5);
        lemma_weight_pos(radices, 5);
        assert forall|c: Seq<int>| #[trigger] in_range(c, radices) && rank(c, radices, 5) < 0 implies shows_choice(
            out@[rank(c, radices, 5)],
            equips,
            b.deco_combs@,
            dm,
            sex,
            c,
        ) by {
            lemma_rank_bound(c, radices, 5);
        }
    }
    while more
        invariant
            dm.wf(),
            equips == b.equipments@,
            is_build(equips),
            radices == ways(equips, dm, sex),
            radices == ints(lens@),
            positive(radices),
            lens@.len() == 5,
            alts@.len() == 5,
            digits@.len() == 5,
            forall|j: int|
                0 <= j < 5 ==> (#[trigger] alts@[j])@.len() == stand_ins(
                    dm,
                    j,
                    equips[j].spec_id(),
                    sex,
                ).len(),
            forall|j: int, a: int|
                0 <= j < 5 && 0 <= a < alts@[j]@.len() ==> *(#[trigger] alts@[j]@[a]) == stood_for(
                    dm,
                    j,
                    equips[j].spec_id(),
                )[stand_ins(dm, j, equips[j].spec_id(), sex)[a]],
            base.armors@.len() == 5,
            forall|j: int|
                0 <= j < 5 ==> shows_armor(#[trigger] base.armors@[j], equips[j]->Armor_0),
            in_range(ints(digits@), radices),
            more ==> rank(ints(digits@), radices, 5) == step,
            0 <= step <= weight(radices, 5),
            more ==> step < weight(radices, 5),
            !more ==> step == weight(radices, 5),
            out@.len() == step,
            forall|c: Seq<int>| #[trigger]
                in_range(c, radices) && rank(c, radices, 5) < step ==> shows_choice(
                    out@[rank(c, radices, 5)],
                    equips,
                    b.deco_combs@,
                    dm,
                    sex,
                    c,
                ),
        decreases weight(radices, 5) - step,
    {
        let ghost here = ints(digits@);
        let ghost before = out@;
        let mut armors: Vec<ResultArmor> = Vec::new();
        let mut k: usize = 0;
        while k < 5
            invariant
                k <= 5,
                equips == b.equipments@,
                is_build(equips),
                here == ints(digits@),
                in_range(here, radices),
                radices == ways(equips, dm, sex),
                alts@.len() == 5,
                digits@.len() == 5,
                forall|j: int|
                    0 <= j < 5 ==> (#[trigger] alts@[j])@.len() == stand_ins(
                        dm,
                        j,
                        equips[j].spec_id(),
                        sex,
                    ).len(),
                forall|j: int, a: int|
                    0 <= j < 5 && 0 <= a < alts@[j]@.len() ==> *(#[trigger] alts@[j]@[a])
                        == stood_for(dm, j, equips[j].spec_id())[stand_ins(
                        dm,
                        j,
                        equips[j].spec_id(),
                        sex,
                    )[a]],
                armors@.len() == k,
                forall|j: int|
                    0 <= j < k ==> {
                        let id = equips[j].spec_id();
                        let ins = stand_ins(dm, j, id, sex);
                        if ins.len() > 0 {
                            shows_base(#[trigger] armors@[j], stood_for(dm, j, id)[ins[here[j]]])
                        } else {
                            shows_armor(armors@[j], equips[j]->Armor_0)
                        }
                    },
            decreases 5 - k,
        {
            assert(0 <= here[k as int] < radices[k as int]);
            assert(here[k as int] == digits@[k as int]);
            let shown = if alts[k].len() > 0 {
                assert(digits@[k as int] < alts@[k as int]@.len());
                show_base(alts[k][digits[k]])
            } else {
                match &b.equipments[k] {
                    Equipment::Armor(a) => show_armor(a),
                    Equipment::Talisman(_) => ResultArmor {
                        base_id: String::new(),
                        is_anomaly: false,
                        skills: StrMap::new(),
                        slots: Vec::new(),
                    },
                }
            };
            let ghost prev = armors@;
            armors.push(shown);
            proof {
                assert forall|j: int| 0 <= j < k + 1 implies {
                    let id = equips[j].spec_id();
                    let ins = stand_ins(dm, j, id, sex);
                    if ins.len() > 0 {
                        shows_base(#[trigger] armors@[j], stood_for(dm, j, id)[ins[here[j]]])
                    } else {
                        shows_armor(armors@[j], equips[j]->Armor_0)
                    }
                } by {
                    if j < k {
                        assert(armors@[j] == prev[j]);
                    }
                }
            }
            k += 1;
        }
        let talisman = match &b.equipments[5] {
            Equipment::Talisman(t) => show_talisman(t),
            Equipment::Armor(_) => ResultTalisman { skills: StrMap::new(), slots: Vec::new() },
        };
        let shown = ResultBuild { armors, talisman, deco_combs: copy_packings(&b.deco_combs) };
        assert(shows_choice(shown, equips, b.deco_combs@, dm, sex, here));
        out.push(shown);
        proof {
            assert forall|c: Seq<int>| #[trigger]
                in_range(c, radices) && rank(c, radices, 5) < step + 1 implies shows_choice(
                out@[rank(c, radices, 5)],
                equips,
                b.deco_combs@,
                dm,
                sex,
                c,
            ) by {
                lemma_rank_bound(c, radices, 5);
                if rank(c, radices, 5) < step {
                    assert(out@[rank(c, radices, 5)] == before[rank(c, radices, 5)]);
                } else {
                    lemma_rank_injective(c, here, radices, 5);
                    assert(c =~= here);
                }
            }
        }
        more = advance(&mut digits, &lens);
        proof {
            step = step + 1;
            lemma_rank_bound(ints(digits@), radices, 5);
        }
    }
    proof {
        assert forall|c: Seq<int>| #[trigger] in_range(c, radices) implies shows_choice(
            out@[rank(c, radices, 5)],
            equips,
            b.deco_combs@,
            dm,
            sex,
            c,
        ) by {
            lemma_rank_bound(c, radices, 5);
        }
    }
    out
}

} // verus!
