//! The decoration table and the packings it offers.
//!
//! For each skill that has decorations and each level of it, the table holds
//! the socket costs that realise the level. A *packing* for a set of required
//! skills picks one cost per skill; the packings are walked like the values
//! of a mixed-radix counter, the first skill's choice moving fastest.

use crate::counter::{in_range, rank};
use crate::data::deco::Decoration;
use crate::data::deco_build::{
    MAX_LEVEL_LIMIT, all_slots, antichain, bucket_ok, build_levels, decos_valid, lemma_unrivalled,
    rows,
};
use crate::data::deco_complete::sizes_rise;
use crate::data::skill::{MAX_SLOT_LEVEL, Skill};
use crate::slots::{carry_after, copy_slots, fits, is_slots, slots_le};
use crate::str_map::{StrMap, distinct_keys, entries_map, has_key, lemma_entry_in_map};
use vstd::prelude::*;

verus! {

/// The table of socket costs: for each skill with decorations, and for each
/// level from 1 to the skill's maximum at index `level - 1`, the costs that
/// realise the level.
#[derive(Debug)]
pub struct DecorationCombinations {
    combinations: StrMap<Vec<Vec<Vec<i32>>>>,
}

/// One packing: the socket cost chosen for each required skill, and the sum
/// of the costs.
#[derive(Debug)]
pub struct DecorationCombination {
    pub combs_per_skill: StrMap<Vec<i32>>,
    pub sum: Vec<i32>,
}

/// Every cost of every level is a socket vector, and no cost of a level is at
/// or below another.
pub open spec fn levels_sound(t: Seq<Vec<Vec<i32>>>) -> bool {
    forall|l: int|
        0 <= l < t.len() ==> all_slots(rows((#[trigger] t[l])@)) && antichain(rows(t[l]@))
}

/// The table can be built: every skill with decorations is a known skill of
/// a maximum level within the limit, and its decorations are valid and
/// listed in the order of their socket sizes.
pub open spec fn table_inputs_ok(
    decos_by_skill: Seq<(Seq<char>, Vec<Decoration>)>,
    skills: Map<Seq<char>, Skill>,
) -> bool {
    forall|i: int|
        0 <= i < decos_by_skill.len() ==> {
            let e = #[trigger] decos_by_skill[i];
            &&& skills.contains_key(e.0)
            &&& skills[e.0].max_level <= MAX_LEVEL_LIMIT
            &&& decos_valid(e.1@)
            &&& sizes_rise(e.1@)
        }
}

/// `t` holds, for each level from 1 to `max_level`, what the table is to
/// hold for the decorations `decos`.
pub open spec fn levels_ok(decos: Seq<Decoration>, max_level: int, t: Seq<Vec<Vec<i32>>>) -> bool {
    &&& t.len() == if max_level > 0 {
        max_level
    } else {
        0
    }
    &&& forall|l: int|
        0 <= l < t.len() ==> bucket_ok(decos, l + 1, rows((#[trigger] t[l])@))
}

/// The rows of each list of a vector of lists.
pub open spec fn lists_view(v: Seq<Vec<Vec<i32>>>) -> Seq<Seq<Seq<i32>>> {
    Seq::new(v.len(), |k: int| rows(v[k]@))
}

/// The number of costs on offer for each skill.
pub open spec fn list_lens(lists: Seq<Seq<Seq<i32>>>) -> Seq<int> {
    Seq::new(lists.len(), |k: int| lists[k].len() as int)
}

/// Every cost on offer is a socket vector.
pub open spec fn lists_slots(lists: Seq<Seq<Seq<i32>>>) -> bool {
    forall|k: int| 0 <= k < lists.len() ==> all_slots(#[trigger] lists[k])
}

/// The sockets of size index `s` that the first `k` choices of `c` cost.
pub open spec fn choice_sum(lists: Seq<Seq<Seq<i32>>>, c: Seq<int>, k: int, s: int) -> int
    decreases k,
{
    if k <= 0 {
        0
    } else {
        choice_sum(lists, c, k - 1, s) + lists[k - 1][c[k - 1]][s]
    }
}

/// The socket counts that the choices `c` add up to can be written down.
pub open spec fn sum_fits(lists: Seq<Seq<Seq<i32>>>, c: Seq<int>) -> bool {
    forall|s: int|
        0 <= s < MAX_SLOT_LEVEL ==> #[trigger] choice_sum(lists, c, lists.len() as int, s)
            <= i32::MAX
}

/// The socket vector that the choices `c` add up to.
pub open spec fn sum_vec(lists: Seq<Seq<Seq<i32>>>, c: Seq<int>) -> Seq<i32> {
    Seq::new(MAX_SLOT_LEVEL as nat, |s: int| choice_sum(lists, c, lists.len() as int, s) as i32)
}

/// `c` picks one cost on offer for each skill, and their sum can be written
/// down.
pub open spec fn is_choice(lists: Seq<Seq<Seq<i32>>>, c: Seq<int>) -> bool {
    in_range(c, list_lens(lists)) && sum_fits(lists, c)
}

/// `comb` is the packing that the choices `c` make for the skills `ids`.
pub open spec fn is_packing(
    comb: DecorationCombination,
    ids: Seq<Seq<char>>,
    lists: Seq<Seq<Seq<i32>>>,
    c: Seq<int>,
) -> bool {
    &&& comb.sum@ == sum_vec(lists, c)
    &&& comb.combs_per_skill.entries().len() == lists.len()
    &&& forall|k: int|
        0 <= k < lists.len() ==> (#[trigger] comb.combs_per_skill.entries()[k]).0 == ids[k]
            && comb.combs_per_skill.entries()[k].1@ == lists[k][c[k]]
}

/// `out` lists the packings of the choices `cs`, and `cs` holds every choice
/// once, in the order of the counter.
pub open spec fn enumerates(
    out: Seq<DecorationCombination>,
    cs: Seq<Seq<int>>,
    ids: Seq<Seq<char>>,
    lists: Seq<Seq<Seq<i32>>>,
) -> bool {
    &&& cs.len() == out.len()
    &&& forall|i: int|
        0 <= i < out.len() ==> is_choice(lists, #[trigger] cs[i]) && is_packing(
            out[i],
            ids,
            lists,
            cs[i],
        )
    &&& forall|i: int, j: int|
        0 <= i < j < cs.len() ==> rank(#[trigger] cs[i], list_lens(lists), lists.len() as int)
            < rank(#[trigger] cs[j], list_lens(lists), lists.len() as int)
    &&& forall|c: Seq<int>| #[trigger] is_choice(lists, c) ==> cs.contains(c)
}

/// The keys of a requirement, in its order.
pub open spec fn req_ids(req: Seq<(Seq<char>, i32)>) -> Seq<Seq<char>> {
    Seq::new(req.len(), |k: int| req[k].0)
}

/// The views of a vector of identifiers.
pub open spec fn id_views(ids: Seq<&String>) -> Seq<Seq<char>> {
    Seq::new(ids.len(), |k: int| ids[k]@)
}

/// A copy of a list of vectors.
pub fn copy_rows(list: &Vec<Vec<i32>>) -> (r: Vec<Vec<i32>>)
    ensures
        rows(r@) == rows(list@),
{
    let mut r: Vec<Vec<i32>> = Vec::new();
    let mut i: usize = 0;
    while i < list.len()
        invariant
            i <= list@.len(),
            r@.len() == i,
            forall|k: int| 0 <= k < i ==> (#[trigger] r@[k])@ == list@[k]@,
        decreases list.len() - i,
    {
        r.push(copy_slots(&list[i]));
        i += 1;
    }
    assert(rows(r@) =~= rows(list@));
    r
}

impl DecorationCombinations {
    /// The entries of the table in the order of the skills it was built for.
    pub closed spec fn table(&self) -> Seq<(Seq<char>, Vec<Vec<Vec<i32>>>)> {
        self.combinations.entries()
    }

    /// Every table satisfies this: no skill occurs twice, every cost is a
    /// socket vector, and no cost of a level is at or below another.
    #[verifier::type_invariant]
    pub open spec fn wf(&self) -> bool {
        &&& distinct_keys(self.table())
        &&& forall|i: int| 0 <= i < self.table().len() ==> levels_sound((#[trigger] self.table()[i]).1@)
    }

    /// The costs that the table offers for `level` levels of `skill`: none
    /// where the skill is not in the table or has no such level.
    pub open spec fn combos(&self, skill: Seq<char>, level: int) -> Seq<Seq<i32>> {
        let m = entries_map(self.table());
        if m.contains_key(skill) && 1 <= level <= m[skill]@.len() {
            rows(m[skill]@[level - 1]@)
        } else {
            Seq::empty()
        }
    }

    /// The costs on offer for each skill of a requirement.
    pub open spec fn lists(&self, req: Seq<(Seq<char>, i32)>) -> Seq<Seq<Seq<i32>>> {
        Seq::new(req.len(), |k: int| self.combos(req[k].0, req[k].1 as int))
    }

    /// Builds the table for the decorations of each skill.
    pub fn new(decos_by_skill: &StrMap<Vec<Decoration>>, skills: &StrMap<Skill>) -> (r:
        DecorationCombinations)
        requires
            table_inputs_ok(decos_by_skill.entries(), skills@),
        ensures
            r.wf(),
            r.table().len() == decos_by_skill.entries().len(),
            forall|i: int|
                0 <= i < r.table().len() ==> (#[trigger] r.table()[i]).0
                    == decos_by_skill.entries()[i].0 && levels_ok(
                    decos_by_skill.entries()[i].1@,
                    skills@[r.table()[i].0].max_level as int,
                    r.table()[i].1@,
                ),
    {
        let mut combinations: StrMap<Vec<Vec<Vec<i32>>>> = StrMap::new();
        let n = decos_by_skill.len();
        let ghost src = decos_by_skill.entries();
        let mut i: usize = 0;
        while i < n
            invariant
                i <= n,
                n == src.len(),
                src == decos_by_skill.entries(),
                distinct_keys(src),
                table_inputs_ok(src, skills@),
                combinations.wf(),
                combinations.entries().len() == i,
                forall|k: int|
                    0 <= k < i ==> (#[trigger] combinations.entries()[k]).0 == src[k].0
                        && levels_ok(
                        src[k].1@,
                        skills@[src[k].0].max_level as int,
                        combinations.entries()[k].1@,
                    ) && levels_sound(combinations.entries()[k].1@),
            decreases n - i,
        {
            let key = decos_by_skill.key_at(i);
            let decos = decos_by_skill.value_at(i);
            let ghost e = src[i as int];
            assert(skills@.contains_key(e.0) && skills@[e.0].max_level <= MAX_LEVEL_LIMIT
                && decos_valid(e.1@));
            let max_level = match skills.get(key) {
                Some(skill) => skill.max_level,
                None => 0,
            };
            let levels = build_levels(decos, max_level);
            let ghost before = combinations.entries();
            proof {
                if has_key(before, key@) {
                    let k = crate::str_map::key_index(before, key@);
                    assert(before[k].0 == src[k].0);
                    assert(src[k].0 != src[i as int].0);
                }
                assert forall|l: int| 0 <= l < levels@.len() implies all_slots(
                    rows((#[trigger] levels@[l])@),
                ) && antichain(rows(levels@[l]@)) by {
                    let b = rows(levels@[l]@);
                    assert(bucket_ok(decos@, l + 1, b));
                    if decos@.len() == 1 {
                        assert(b.len() == 1);
                    } else {
                        lemma_unrivalled(b);
                    }
                }
            }
            combinations.insert(key.clone(), levels);
            proof {
                let after = combinations.entries();
                assert(after == before.push((key@, levels)));
                assert forall|k: int| 0 <= k < i + 1 implies (#[trigger] after[k]).0 == src[k].0
                    && levels_ok(src[k].1@, skills@[src[k].0].max_level as int, after[k].1@)
                    && levels_sound(after[k].1@) by {
                    if k < i {
                        assert(after[k] == before[k]);
                    }
                }
            }
            i += 1;
        }
        DecorationCombinations { combinations }
    }

    /// An older way to fill the table, which never came to an end. It has
    /// no caller: no table meets what it asks for. The table is built by
    /// `new`.
    pub fn calculate(&mut self, decos_by_skill: &StrMap<Vec<Decoration>>, skills: &StrMap<Skill>)
        requires
            old(self).table().len() < 0,
    {
    }

    /// The table's entries for `skill_id`, level by level, if it has any.
    pub fn get(&self, skill_id: &String) -> (r: Option<&Vec<Vec<Vec<i32>>>>)
        ensures
            self.wf(),
            match r {
                Some(t) => entries_map(self.table()).contains_key(skill_id@) && *t == entries_map(
                    self.table(),
                )[skill_id@] && levels_sound(t@),
                None => !entries_map(self.table()).contains_key(skill_id@),
            },
    {
        proof {
            use_type_invariant(self);
        }
        match self.combinations.index_of(skill_id) {
            Some(i) => {
                assert(levels_sound(self.table()[i as int].1@));
                Some(self.combinations.value_at(i))
            },
            None => None,
        }
    }

    /// The costs in the row `req_level` of `skill_id`, rows counted from 0:
    /// the costs that realise `req_level + 1` levels. None where the skill is
    /// not in the table.
    pub fn get_by_level(&self, skill_id: &String, req_level: i32) -> (r: Vec<Vec<i32>>)
        requires
            entries_map(self.table()).contains_key(skill_id@) ==> 0 <= req_level < entries_map(
                self.table(),
            )[skill_id@]@.len(),
        ensures
            rows(r@) == self.combos(skill_id@, req_level + 1),
            all_slots(rows(r@)),
            antichain(rows(r@)),
    {
        match self.get(skill_id) {
            Some(levels) => {
                let r = copy_rows(&levels[req_level as usize]);
                assert(all_slots(rows(levels@[req_level as int]@)));
                r
            },
            None => {
                let r: Vec<Vec<i32>> = Vec::new();
                assert(rows(r@) =~= Seq::<Seq<i32>>::empty());
                r
            },
        }
    }

    /// The costs that realise `level` levels of `skill_id`: none where the
    /// skill is not in the table or has no such level.
    pub fn costs_of_level(&self, skill_id: &String, req_level: i32) -> (r: Vec<Vec<i32>>)
        ensures
            rows(r@) == self.combos(skill_id@, req_level as int),
            all_slots(rows(r@)),
            antichain(rows(r@)),
    {
        match self.get(skill_id) {
            Some(levels) => {
                if 1 <= req_level && (req_level as usize) <= levels.len() {
                    let r = copy_rows(&levels[(req_level - 1) as usize]);
                    assert(all_slots(rows(levels@[req_level - 1]@)));
                    r
                } else {
                    let r: Vec<Vec<i32>> = Vec::new();
                    assert(rows(r@) =~= Seq::<Seq<i32>>::empty());
                    r
                }
            },
            None => {
                let r: Vec<Vec<i32>> = Vec::new();
                assert(rows(r@) =~= Seq::<Seq<i32>>::empty());
                r
            },
        }
    }
}

/// No cost that the table offers for a level of a skill is at or below
/// another cost that it offers for the same level.
pub proof fn lemma_table_minimal(
    table: DecorationCombinations,
    skill: Seq<char>,
    level: int,
    i: int,
    j: int,
)
    requires
        table.wf(),
        0 <= i < table.combos(skill, level).len(),
        0 <= j < table.combos(skill, level).len(),
        slots_le(table.combos(skill, level)[i], table.combos(skill, level)[j]),
    ensures
        i == j,
{
    let m = entries_map(table.table());
    assert(m.contains_key(skill));
    let k = crate::str_map::key_index(table.table(), skill);
    lemma_entry_in_map(table.table(), k);
    assert(levels_sound(table.table()[k].1@));
    let b = rows(m[skill]@[level - 1]@);
    assert(antichain(b));
    if i != j {
        assert(!slots_le(b[i], b[j]));
    }
}

impl DecorationCombination {
    /// Whether the packing's sockets can be placed in `armor_slots` under the
    /// promotion rule.
    pub fn is_possible(&self, armor_slots: &Vec<i32>) -> (b: bool)
        requires
            is_slots(armor_slots@),
            is_slots(self.sum@),
        ensures
            b == fits(armor_slots@, self.sum@),
    {
        Self::is_possible_static(armor_slots, &self.sum)
    }

    /// Whether `req_slots` can be placed in `free_slots` under the promotion
    /// rule: sweeping the sizes upwards, a demand that finds no socket of its
    /// size is carried to the next size, and nothing may be left at the end.
    pub fn is_possible_static(free_slots: &Vec<i32>, req_slots: &Vec<i32>) -> (b: bool)
        requires
            is_slots(free_slots@),
            is_slots(req_slots@),
        ensures
            b == fits(free_slots@, req_slots@),
    {
        let mut promote: i64 = 0;
        let mut i: usize = 0;
        while i < MAX_SLOT_LEVEL
            invariant
                i <= MAX_SLOT_LEVEL,
                is_slots(free_slots@),
                is_slots(req_slots@),
                promote == carry_after(free_slots@, req_slots@, i as int),
                0 <= promote <= i * 0x7fff_ffff,
            decreases MAX_SLOT_LEVEL - i,
        {
            assert(0 <= free_slots@[i as int]);
            assert(0 <= req_slots@[i as int]);
            let req_slot: i64 = req_slots[i] as i64 + promote;
            let free_slot: i64 = free_slots[i] as i64;
            if req_slot > free_slot {
                promote = req_slot - free_slot;
            } else {
                promote = 0;
            }
            i += 1;
        }
        promote == 0
    }

    /// Places `req_slots` in `free_slots` under the promotion rule and says
    /// whether all of it could be placed. Afterwards `free_slots` holds the
    /// sockets that are still free, and `req_slots` holds, for each size,
    /// the demand that found no socket of that size and moved on.
    pub fn is_possible_static_mut(free_slots: &mut Vec<i32>, req_slots: &mut Vec<i32>) -> (b: bool)
        requires
            is_slots(old(free_slots)@),
            is_slots(old(req_slots)@),
            forall|i: int|
                0 <= i < MAX_SLOT_LEVEL ==> #[trigger] carry_after(
                    old(free_slots)@,
                    old(req_slots)@,
                    i + 1,
                ) <= i32::MAX,
        ensures
            b == fits(old(free_slots)@, old(req_slots)@),
            is_slots(final(free_slots)@),
            is_slots(final(req_slots)@),
            forall|i: int|
                0 <= i < MAX_SLOT_LEVEL ==> #[trigger] final(free_slots)@[i]
                    == crate::slots::free_after(old(free_slots)@, old(req_slots)@)[i],
            forall|i: int|
                0 <= i < MAX_SLOT_LEVEL ==> #[trigger] final(req_slots)@[i]
                    == crate::slots::carried_on(old(free_slots)@, old(req_slots)@)[i],
    {
        let ghost free0 = free_slots@;
        let ghost req0 = req_slots@;
        let mut promote: i64 = 0;
        let mut i: usize = 0;
        while i < MAX_SLOT_LEVEL
            invariant
                i <= MAX_SLOT_LEVEL,
                free0 == old(free_slots)@,
                req0 == old(req_slots)@,
                is_slots(free0),
                is_slots(req0),
                free_slots@.len() == MAX_SLOT_LEVEL,
                req_slots@.len() == MAX_SLOT_LEVEL,
                forall|k: int|
                    0 <= k < MAX_SLOT_LEVEL ==> #[trigger] carry_after(free0, req0, k + 1)
                        <= i32::MAX,
                promote == carry_after(free0, req0, i as int),
                0 <= promote <= i32::MAX,
                forall|k: int| i <= k < MAX_SLOT_LEVEL ==> #[trigger] free_slots@[k] == free0[k],
                forall|k: int| i <= k < MAX_SLOT_LEVEL ==> #[trigger] req_slots@[k] == req0[k],
                forall|k: int|
                    0 <= k < i ==> #[trigger] free_slots@[k] == crate::slots::free_after(
                        free0,
                        req0,
                    )[k] && 0 <= free_slots@[k],
                forall|k: int|
                    0 <= k < i ==> #[trigger] req_slots@[k] == carry_after(free0, req0, k + 1) && 0
                        <= req_slots@[k],
            decreases MAX_SLOT_LEVEL - i,
        {
            assert(0 <= free0[i as int]);
            assert(0 <= req0[i as int]);
            assert(carry_after(free0, req0, i + 1) <= i32::MAX);
            let req_slot: i64 = req_slots[i] as i64 + promote;
            let free_slot: i64 = free_slots[i] as i64;
            let taken: i64 = if req_slot < free_slot {
                req_slot
            } else {
                free_slot
            };
            free_slots.set(i, (free_slot - taken) as i32);
            req_slots.set(i, (req_slot - taken) as i32);
            promote = req_slot - taken;
            i += 1;
        }
        promote == 0
    }
}

impl Clone for DecorationCombination {
    fn clone(&self) -> (r: Self)
        ensures
            r.sum@ == self.sum@,
            r.combs_per_skill.entries().len() == self.combs_per_skill.entries().len(),
            forall|i: int|
                0 <= i < r.combs_per_skill.entries().len() ==> (
                #[trigger] r.combs_per_skill.entries()[i]).0 == self.combs_per_skill.entries()[i].0
                    && r.combs_per_skill.entries()[i].1@ == self.combs_per_skill.entries()[i].1@,
    {
        DecorationCombination {
            combs_per_skill: self.combs_per_skill.duplicate_rows(),
            sum: copy_slots(&self.sum),
        }
    }
}

} // verus!
