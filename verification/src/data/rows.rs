//! Rows of the files of augmented pieces and of charms.
//!
//! A row is a list of fields. A row of an augmented piece holds the display
//! name of the piece, six differences of statistics, three differences of
//! socket sizes, and then pairs of a skill's display name and a difference
//! of its level. A row of a charm holds two such pairs and three socket
//! sizes. A pair with an empty name stands for no skill.

use crate::data::armor::{
    AnomalyArmor, ArmorSkill, ArmorStat, BaseArmor, Talisman, TalismanSkill, skills_sum_ok,
    slots_sum_ok, stat_sum_ok,
};
use crate::str_map::StrMap;
use crate::text::{decimal_nat, field_number, push_decimal_nat, read_field};
use vstd::prelude::*;

verus! {

/// The numbers that the `k` fields from position `from` on read as, where
/// each reads as one.
pub open spec fn numbers_of(row: Seq<String>, from: int, k: int) -> Option<Seq<i32>>
    decreases k,
{
    if k <= 0 {
        Some(Seq::empty())
    } else {
        match (numbers_of(row, from, k - 1), field_number(row[from + k - 1]@)) {
            (Some(before), Some(v)) => Some(before.push(v)),
            _ => None,
        }
    }
}

/// Fields of which the first do not all read as numbers do not all read as
/// numbers.
proof fn lemma_numbers_none(row: Seq<String>, from: int, i: int, k: int)
    requires
        0 <= i <= k,
        numbers_of(row, from, i) is None,
    ensures
        numbers_of(row, from, k) is None,
    decreases k,
{
    if k > i {
        lemma_numbers_none(row, from, i, k - 1);
    }
}

/// Reads the `k` fields from position `from` on as numbers.
pub fn read_numbers(row: &Vec<String>, from: usize, k: usize) -> (r: Option<Vec<i32>>)
    requires
        from + k <= row@.len(),
    ensures
        match r {
            Some(v) => numbers_of(row@, from as int, k as int) == Some(v@) && v@.len() == k,
            None => numbers_of(row@, from as int, k as int) is None,
        },
{
    let mut out: Vec<i32> = Vec::new();
    let n = row.len();
    let mut i: usize = 0;
    while i < k
        invariant
            i <= k,
            n == row@.len(),
            from + k <= n,
            out@.len() == i,
            numbers_of(row@, from as int, i as int) == Some(out@),
        decreases k - i,
    {
        match read_field(&row[from + i]) {
            Some(v) => {
                out.push(v);
            },
            None => {
                proof {
                    lemma_numbers_none(row@, from as int, i + 1, k as int);
                }
                return None;
            },
        }
        i += 1;
    }
    Some(out)
}

/// The number of pairs that the fields from `from` up to `end` make; a last
/// field alone counts as a pair without its second field.
pub open spec fn pairs_in(from: int, end: int) -> int {
    (end - from + 1) / 2
}

/// The skills and levels that the first `p` pairs of fields from position
/// `from` on name, where each pair with a name names a skill of `dict` and
/// a level: the identifier that `dict` gives for the name, and the number
/// that the second field reads as.
pub open spec fn pair_levels(
    row: Seq<String>,
    from: int,
    end: int,
    p: int,
    dict: Map<Seq<char>, String>,
) -> Option<Seq<(Seq<char>, i32)>>
    decreases p,
{
    if p <= 0 {
        Some(Seq::empty())
    } else {
        let at = from + 2 * (p - 1);
        match pair_levels(row, from, end, p - 1, dict) {
            None => None,
            Some(before) => if row[at]@.len() == 0 {
                Some(before)
            } else if at + 1 < end && dict.contains_key(row[at]@) && field_number(row[at + 1]@) is Some {
                Some(before.push((dict[row[at]@]@, field_number(row[at + 1]@)->0)))
            } else {
                None
            },
        }
    }
}

/// Pairs of which the first cannot all be read cannot all be read.
proof fn lemma_pairs_none(
    row: Seq<String>,
    from: int,
    end: int,
    i: int,
    p: int,
    dict: Map<Seq<char>, String>,
)
    requires
        0 <= i <= p,
        pair_levels(row, from, end, i, dict) is None,
    ensures
        pair_levels(row, from, end, p, dict) is None,
    decreases p,
{
    if p > i {
        lemma_pairs_none(row, from, end, i, p - 1, dict);
    }
}

/// The identifiers and levels of a list of pairs.
pub open spec fn pairs_view(pairs: Seq<(String, i32)>) -> Seq<(Seq<char>, i32)> {
    Seq::new(pairs.len(), |i: int| (pairs[i].0@, pairs[i].1))
}

/// Reads the pairs of a skill's display name and a level that the fields
/// from position `from` up to `end` hold.
pub fn read_pairs(row: &Vec<String>, from: usize, end: usize, dict: &StrMap<String>) -> (r: Option<
    Vec<(String, i32)>,
>)
    requires
        from <= end <= row@.len(),
    ensures
        match r {
            Some(v) => pair_levels(row@, from as int, end as int, pairs_in(from as int, end as int), dict@)
                == Some(pairs_view(v@)),
            None => pair_levels(row@, from as int, end as int, pairs_in(from as int, end as int), dict@)
                is None,
        },
{
    let mut out: Vec<(String, i32)> = Vec::new();
    let total = (end - from) / 2 + (end - from) % 2;
    assert(total == pairs_in(from as int, end as int));
    let mut q: usize = 0;
    proof {
        assert(pairs_view(out@) =~= Seq::<(Seq<char>, i32)>::empty());
    }
    while q < total
        invariant
            q <= total,
            total == pairs_in(from as int, end as int),
            from <= end <= row@.len(),
            pair_levels(row@, from as int, end as int, q as int, dict@) == Some(pairs_view(out@)),
        decreases total - q,
    {
        let at = from + 2 * q;
        assert(at < end);
        let name = &row[at];
        let ghost before = pairs_view(out@);
        if name.as_str().unicode_len() != 0 {
            let level = if at + 1 < end {
                read_field(&row[at + 1])
            } else {
                None
            };
            match (dict.get(name), level) {
                (Some(id), Some(level)) => {
                    out.push((id.clone(), level));
                    assert(pairs_view(out@) =~= before.push((dict@[name@]@, level)));
                },
                _ => {
                    proof {
                        assert(pair_levels(row@, from as int, end as int, q + 1, dict@) is None);
                        lemma_pairs_none(row@, from as int, end as int, q + 1, total as int, dict@);
                    }
                    return None;
                },
            }
        }
        q += 1;
    }
    Some(out)
}

/// The differences of statistics that six numbers stand for: defense, then
/// the resistances to fire, water, thunder, ice and dragon.
pub open spec fn stat_of(n: Seq<i32>) -> ArmorStat {
    ArmorStat {
        defense: n[0],
        fire_res: n[1],
        water_res: n[2],
        elec_res: n[3],
        ice_res: n[4],
        dragon_res: n[5],
    }
}

/// The levels that the first `k` pairs give: a skill named twice has the
/// level of its last pair.
pub open spec fn levels_map(pairs: Seq<(Seq<char>, i32)>, k: int) -> Map<Seq<char>, ArmorSkill>
    decreases k,
{
    if k <= 0 {
        Map::empty()
    } else {
        levels_map(pairs, k - 1).insert(pairs[k - 1].0, ArmorSkill { level: pairs[k - 1].1 })
    }
}

/// What the row `row` says of an augmented piece, where it can be read: the
/// identifier of the piece, the nine numbers, and the skills with their
/// levels.
pub open spec fn anomaly_fields(
    row: Seq<String>,
    armor_name_dict: Map<Seq<char>, String>,
    skill_name_dict: Map<Seq<char>, String>,
) -> Option<(Seq<char>, Seq<i32>, Seq<(Seq<char>, i32)>)> {
    if row.len() >= 10 && armor_name_dict.contains_key(row[0]@) {
        match (
            numbers_of(row, 1, 9),
            pair_levels(row, 10, row.len() as int, pairs_in(10, row.len() as int), skill_name_dict),
        ) {
            (Some(numbers), Some(pairs)) => Some((armor_name_dict[row[0]@]@, numbers, pairs)),
            _ => None,
        }
    } else {
        None
    }
}

/// The row `row` gives an augmented piece: it has 10 fields or more, names
/// a piece of the catalog, its nine numbers and its skill pairs can be
/// read, and every sum of the piece and the differences can be written
/// down.
pub open spec fn anomaly_row_ok(
    row: Seq<String>,
    armors: Map<Seq<char>, BaseArmor>,
    armor_name_dict: Map<Seq<char>, String>,
    skill_name_dict: Map<Seq<char>, String>,
) -> bool {
    match anomaly_fields(row, armor_name_dict, skill_name_dict) {
        None => false,
        Some((id, numbers, pairs)) => {
            &&& armors.contains_key(id)
            &&& stat_sum_ok(armors[id].stat, stat_of(numbers))
            &&& slots_sum_ok(armors[id].slots@, numbers.subrange(6, 9))
            &&& skills_sum_ok(armors[id].skills@, levels_map(pairs, pairs.len() as int))
        },
    }
}

/// The augmented piece that a row gives, if it gives one.
pub fn anomaly_of_row(
    row: &Vec<String>,
    armors: &StrMap<BaseArmor>,
    armor_name_dict: &StrMap<String>,
    skill_name_dict: &StrMap<String>,
) -> (r: Option<AnomalyArmor>)
    ensures
        r is Some <==> anomaly_row_ok(row@, armors@, armor_name_dict@, skill_name_dict@),
        r matches Some(a) ==> {
            let (id, numbers, pairs) = anomaly_fields(row@, armor_name_dict@, skill_name_dict@)->0;
            &&& a.original.same(&armors@[id])
            &&& a.stat_diff == stat_of(numbers)
            &&& a.slot_diffs@ == numbers.subrange(6, 9)
            &&& a.skill_diffs@ == levels_map(pairs, pairs.len() as int)
        },
{
    if row.len() < 10 {
        return None;
    }
    let id = match armor_name_dict.get(&row[0]) {
        Some(id) => id,
        None => {
            return None;
        },
    };
    let numbers = match read_numbers(row, 1, 9) {
        Some(numbers) => numbers,
        None => {
            return None;
        },
    };
    let pairs = match read_pairs(row, 10, row.len(), skill_name_dict) {
        Some(pairs) => pairs,
        None => {
            return None;
        },
    };
    let original = match armors.get(id) {
        Some(armor) => armor.clone(),
        None => {
            return None;
        },
    };
    let stat_diff = ArmorStat {
        defense: numbers[0],
        fire_res: numbers[1],
        water_res: numbers[2],
        elec_res: numbers[3],
        ice_res: numbers[4],
        dragon_res: numbers[5],
    };
    let mut slot_diffs: Vec<i32> = Vec::new();
    slot_diffs.push(numbers[6]);
    slot_diffs.push(numbers[7]);
    slot_diffs.push(numbers[8]);
    assert(slot_diffs@ =~= numbers@.subrange(6, 9));
    let ghost seen = pairs_view(pairs@);
    let mut skill_diffs: StrMap<ArmorSkill> = StrMap::new();
    let mut k: usize = 0;
    while k < pairs.len()
        invariant
            k <= pairs@.len(),
            seen == pairs_view(pairs@),
            skill_diffs@ == levels_map(seen, k as int),
        decreases pairs.len() - k,
    {
        assert(seen[k as int] == (pairs@[k as int].0@, pairs@[k as int].1));
        skill_diffs.insert(pairs[k].0.clone(), ArmorSkill { level: pairs[k].1 });
        k += 1;
    }
    assert(original.skills@ == armors@[id@].skills@);
    if !AnomalyArmor::can_augment(&original, &stat_diff, &slot_diffs, &skill_diffs) {
        return None;
    }
    Some(AnomalyArmor::new(original, stat_diff, slot_diffs, skill_diffs))
}

/// The identifier of the charm of row `index`.
pub open spec fn charm_id(index: int) -> Seq<char> {
    "talisman_"@ + decimal_nat(index as nat)
}

/// The skills of a charm that pairs give, in their order.
pub open spec fn charm_skills(skills: Seq<TalismanSkill>) -> Seq<(Seq<char>, i32)> {
    Seq::new(skills.len(), |i: int| (skills[i].id@, skills[i].level))
}

/// The row `row` gives a charm: it has 7 fields or more, its two skill
/// pairs and its three socket sizes can be read.
pub open spec fn charm_row_ok(row: Seq<String>, skill_name_dict: Map<Seq<char>, String>) -> bool {
    &&& row.len() >= 7
    &&& pair_levels(row, 0, 4, 2, skill_name_dict) is Some
    &&& numbers_of(row, 4, 3) is Some
}

/// The charm that row `index` gives, if it gives one.
pub fn talisman_of_row(row: &Vec<String>, index: usize, skill_name_dict: &StrMap<String>) -> (r:
    Option<Talisman>)
    ensures
        r is Some <==> charm_row_ok(row@, skill_name_dict@),
        r matches Some(t) ==> t.id@ == charm_id(index as int) && Some(charm_skills(t.skills@))
            == pair_levels(row@, 0, 4, 2, skill_name_dict@) && Some(t.slot_sizes@) == numbers_of(
            row@,
            4,
            3,
        ),
{
    if row.len() < 7 {
        return None;
    }
    let pairs = match read_pairs(row, 0, 4, skill_name_dict) {
        Some(pairs) => pairs,
        None => {
            return None;
        },
    };
    let slot_sizes = match read_numbers(row, 4, 3) {
        Some(sizes) => sizes,
        None => {
            return None;
        },
    };
    let mut skills: Vec<TalismanSkill> = Vec::new();
    let mut k: usize = 0;
    while k < pairs.len()
        invariant
            k <= pairs@.len(),
            skills@.len() == k,
            forall|i: int|
                0 <= i < k ==> (#[trigger] skills@[i]).id@ == pairs@[i].0@ && skills@[i].level
                    == pairs@[i].1,
        decreases pairs.len() - k,
    {
        skills.push(TalismanSkill { id: pairs[k].0.clone(), level: pairs[k].1 });
        k += 1;
    }
    assert(charm_skills(skills@) =~= pairs_view(pairs@));
    let mut id = String::from_str("talisman_");
    push_decimal_nat(&mut id, index as u64);
    Some(Talisman { id, skills, slot_sizes })
}

} // verus!
