//! Body pieces as the search sees them.

use crate::calc::calc_equipment::{CalcEquipment, map_nonneg};
use crate::calc::deco::demand_valid;
use crate::data::armor::{ArmorPart, ArmorSkill, BaseArmor, SexType, is_base_slots};
use crate::data::skill::MAX_SLOT_LEVEL;
use crate::slots::{copy_slots, is_slots, zero_slots};
use crate::str_map::{StrMap, distinct_keys, has_key, key_index, lemma_entry_in_map};
use vstd::prelude::*;
use vstd::string::*;

verus! {

/// A body piece as the search sees it: the piece it stands for, the piece
/// it was made from (itself unless it is augmented), its skills with their
/// levels and its sockets counted by size.
pub struct CalcArmor<'a> {
    base: &'a BaseArmor,
    original: &'a BaseArmor,
    part: ArmorPart,
    sex_type: SexType,
    rarity: i32,
    skills: StrMap<i32>,
    slots: Vec<i32>,
}

/// The number of entries equal to `size` among the first `k` of `s`.
pub open spec fn count_of(s: Seq<i32>, size: int, k: int) -> int
    decreases k,
{
    if k <= 0 {
        0
    } else {
        count_of(s, size, k - 1) + if s[k - 1] == size {
            1int
        } else {
            0int
        }
    }
}

/// The levels of the skills of a piece, in the order of the piece.
pub open spec fn levels_of(skills: Seq<(Seq<char>, ArmorSkill)>) -> Seq<(Seq<char>, i32)> {
    Seq::new(skills.len(), |i: int| (skills[i].0, skills[i].1.level))
}

/// What placing `count` sockets' worth of demand does to `slots`, starting
/// at size index `idx` and moving up: each size gives what it has, until the
/// demand is met. Returns the sockets left and the demand left.
pub open spec fn place(slots: Seq<i32>, idx: int, count: int) -> (Seq<i32>, int)
    decreases MAX_SLOT_LEVEL - idx,
{
    if idx >= MAX_SLOT_LEVEL || idx < 0 || count == 0 {
        (slots, count)
    } else {
        let given = if count <= slots[idx] {
            count
        } else {
            slots[idx] as int
        };
        place(slots.update(idx, (slots[idx] - given) as i32), idx + 1, count - given)
    }
}

/// What placing the first `k` demands does, one after the other and up to
/// the first that cannot be placed: the sockets left, the demands with what
/// is left of each, and whether all `k` were placed.
pub open spec fn place_all(slots: Seq<i32>, demands: Seq<(&String, i32, i32)>, k: int) -> (
    Seq<i32>,
    Seq<(&String, i32, i32)>,
    bool,
)
    decreases k,
{
    if k <= 0 {
        (slots, demands, true)
    } else {
        let (s, d, ok) = place_all(slots, demands, k - 1);
        if !ok {
            (s, d, false)
        } else {
            let (after, left) = place(s, d[k - 1].1 - 1, d[k - 1].2 as int);
            (after, d.update(k - 1, (d[k - 1].0, d[k - 1].1, left as i32)), left == 0)
        }
    }
}

/// Placing a demand leaves socket counts and a demand that are not negative
/// and not more than before.
pub proof fn lemma_place_bounds(slots: Seq<i32>, idx: int, count: int)
    requires
        is_slots(slots),
        0 <= idx <= MAX_SLOT_LEVEL,
        0 <= count,
    ensures
        is_slots(place(slots, idx, count).0),
        0 <= place(slots, idx, count).1 <= count,
    decreases MAX_SLOT_LEVEL - idx,
{
    if idx < MAX_SLOT_LEVEL && count != 0 {
        let given = if count <= slots[idx] {
            count
        } else {
            slots[idx] as int
        };
        let next = slots.update(idx, (slots[idx] - given) as i32);
        assert forall|i: int| 0 <= i < next.len() implies 0 <= #[trigger] next[i] by {
            assert(0 <= slots[i]);
        }
        lemma_place_bounds(next, idx + 1, count - given);
    }
}

impl<'a> CalcArmor<'a> {
    /// Every piece satisfies this: its sockets are a socket vector and no
    /// skill has a negative level.
    #[verifier::type_invariant]
    pub closed spec fn wf(&self) -> bool {
        &&& is_slots(self.slots@)
        &&& map_nonneg(self.skills@)
        &&& self.skills.wf()
    }

    /// The piece that this one stands for.
    pub closed spec fn spec_base(&self) -> &'a BaseArmor {
        self.base
    }

    /// The piece that this one was made from.
    pub closed spec fn spec_original(&self) -> &'a BaseArmor {
        self.original
    }

    /// The piece `base` as the search sees it.
    pub fn new(base: &'a BaseArmor) -> (r: Self)
        requires
            base.valid(),
        ensures
            r.spec_base() == base,
            r.spec_original() == base,
            r.spec_id() == base.id@,
            r.spec_part() == base.part,
            r.spec_skills() == levels_of(base.skills.entries()),
            is_slots(r.spec_slots()),
            forall|s: int|
                0 <= s < MAX_SLOT_LEVEL ==> #[trigger] r.spec_slots()[s] == count_of(
                    base.slots@,
                    s + 1,
                    base.slots@.len() as int,
                ),
    {
        Self::new_anomaly(base, base)
    }

    /// The augmented piece `base`, made from `original`, as the search sees
    /// it.
    pub fn new_anomaly(base: &'a BaseArmor, original: &'a BaseArmor) -> (r: Self)
        requires
            base.valid(),
        ensures
            r.spec_base() == base,
            r.spec_original() == original,
            r.spec_id() == base.id@,
            r.spec_part() == base.part,
            r.spec_skills() == levels_of(base.skills.entries()),
            is_slots(r.spec_slots()),
            forall|s: int|
                0 <= s < MAX_SLOT_LEVEL ==> #[trigger] r.spec_slots()[s] == count_of(
                    base.slots@,
                    s + 1,
                    base.slots@.len() as int,
                ),
    {
        let ghost src = base.skills.entries();
        let mut skills: StrMap<i32> = StrMap::new();
        let n = base.skills.len();
        let mut i: usize = 0;
        while i < n
            invariant
                i <= n,
                n == src.len(),
                src == base.skills.entries(),
                distinct_keys(src),
                base.valid(),
                skills.wf(),
                skills.entries() == levels_of(src).subrange(0, i as int),
            decreases n - i,
        {
            let skill_id = base.skills.key_at(i);
            let level = base.skills.value_at(i).level;
            let ghost before = skills.entries();
            proof {
                if has_key(before, skill_id@) {
                    let k = key_index(before, skill_id@);
                    assert(before[k].0 == src[k].0);
                    assert(src[k].0 != src[i as int].0);
                }
            }
            skills.insert(skill_id.clone(), level);
            assert(skills.entries() =~= levels_of(src).subrange(0, i + 1));
            i += 1;
        }
        proof {
            assert(levels_of(src).subrange(0, n as int) =~= levels_of(src));
            assert forall|k: Seq<char>| skills@.contains_key(k) implies 0 <= #[trigger] skills@[k] by {
                let j = key_index(skills.entries(), k);
                lemma_entry_in_map(skills.entries(), j);
                assert(0 <= src[j].1.level);
            }
        }
        let slots = Self::convert_from_base_slots(&base.slots);
        Self {
            base,
            original,
            part: base.part,
            sex_type: base.sex_type,
            rarity: base.rarity,
            skills,
            slots,
        }
    }

    /// The piece that this one stands for.
    pub fn base(&self) -> (r: &'a BaseArmor)
        ensures
            r == self.spec_base(),
    {
        self.base
    }

    /// Whether the piece is an augmented one.
    pub fn is_anomaly(&self) -> (b: bool)
        ensures
            b == "__anomaly"@.is_prefix_of(self.spec_base().id@),
    {
        BaseArmor::is_anomaly_armor(self.base.id())
    }

    /// The identifier of the piece that this one was made from.
    pub fn original_id(&self) -> (id: &String)
        ensures
            id@ == self.spec_original().id@,
    {
        self.original.id()
    }

    /// Who can wear the piece.
    pub fn sex_type(&self) -> (s: &SexType)
        ensures
            *s == self.spec_base().sex_type,
    {
        &self.base.sex_type
    }

    /// The rarity of the piece.
    pub fn rarity(&self) -> (r: i32)
        ensures
            r == self.spec_base().rarity,
    {
        self.base.rarity
    }

    /// The display name of the piece in the locale `lang`; for a piece
    /// without a name there, `SYSTEM_PART`.
    pub fn name(&self, lang: &str) -> (name: String)
        ensures
            name@ == if self.spec_base().names@.contains_key(lang@) {
                self.spec_base().names@[lang@]@
            } else {
                "SYSTEM_PART"@
            },
    {
        let key = String::from_str(lang);
        match self.base.names.get(&key) {
            Some(name) => name.clone(),
            None => String::from_str("SYSTEM_PART"),
        }
    }

    /// Takes the sockets that the demands `(skill, size, count)` ask for out
    /// of the piece, one demand after the other: a demand takes sockets of
    /// its own size first and then of each larger size. Stops at the first
    /// demand that cannot be met in full. Afterwards each demand holds what
    /// is left of it. Returns whether every demand was met.
    pub fn subtract_slots(&mut self, single_deco_skills: &mut Vec<(&String, i32, i32)>) -> (success:
        bool)
        requires
            crate::calc::deco::demands_valid(old(single_deco_skills)@),
        ensures
            (final(self).spec_slots(), final(single_deco_skills)@, success) == place_all(
                old(self).spec_slots(),
                old(single_deco_skills)@,
                old(single_deco_skills)@.len() as int,
            ),
            final(self).spec_skills() == old(self).spec_skills(),
            final(self).spec_id() == old(self).spec_id(),
            final(self).spec_part() == old(self).spec_part(),
            final(self).spec_base() == old(self).spec_base(),
            final(self).spec_original() == old(self).spec_original(),
    {
        proof {
            use_type_invariant(&*self);
        }
        let ghost slots0 = self.slots@;
        let ghost demands0 = single_deco_skills@;
        let mut slots = copy_slots(&self.slots);
        let n = single_deco_skills.len();
        let mut success = true;
        let mut k: usize = 0;
        while k < n && success
            invariant
                k <= n,
                n == demands0.len(),
                single_deco_skills@.len() == n,
                crate::calc::deco::demands_valid(demands0),
                is_slots(slots0),
                is_slots(slots@),
                (slots@, single_deco_skills@, success) == place_all(slots0, demands0, k as int),
                forall|j: int| k <= j < n ==> #[trigger] single_deco_skills@[j] == demands0[j],
            decreases n - k,
        {
            let skill = single_deco_skills[k].0;
            let slot_size = single_deco_skills[k].1;
            let mut count = single_deco_skills[k].2;
            assert(single_deco_skills@[k as int] == demands0[k as int]);
            assert(demand_valid(demands0[k as int].1, demands0[k as int].2));
            let ghost start = slots@;
            let ghost asked = count as int;
            let mut slot_size_index: usize = (slot_size - 1) as usize;
            proof {
                lemma_place_bounds(start, slot_size - 1, asked);
            }
            while slot_size_index < MAX_SLOT_LEVEL && count != 0
                invariant
                    slot_size_index <= MAX_SLOT_LEVEL,
                    is_slots(slots@),
                    0 <= count,
                    place(slots@, slot_size_index as int, count as int) == place(
                        start,
                        slot_size - 1,
                        asked,
                    ),
                decreases MAX_SLOT_LEVEL - slot_size_index,
            {
                assert(0 <= slots@[slot_size_index as int]);
                let taken = if count <= slots[slot_size_index] {
                    count
                } else {
                    slots[slot_size_index]
                };
                let left = slots[slot_size_index] - taken;
                slots.set(slot_size_index, left);
                count = count - taken;
                slot_size_index += 1;
            }
            single_deco_skills.set(k, (skill, slot_size, count));
            if count != 0 {
                success = false;
            }
            k += 1;
        }
        proof {
            lemma_place_all_stops(slots0, demands0, k as int, n as int);
        }
        self.slots = slots;
        success
    }

    /// The socket vector of a piece with the socket sizes `base_slots`: for
    /// each size, how many sockets of the size there are.
    pub fn convert_from_base_slots(base_slots: &Vec<i32>) -> (ret: Vec<i32>)
        requires
            is_base_slots(base_slots@),
        ensures
            is_slots(ret@),
            forall|s: int|
                0 <= s < MAX_SLOT_LEVEL ==> #[trigger] ret@[s] == count_of(
                    base_slots@,
                    s + 1,
                    base_slots@.len() as int,
                ),
    {
        let mut ret = zero_slots();
        let mut i: usize = 0;
        while i < base_slots.len()
            invariant
                i <= base_slots@.len(),
                is_base_slots(base_slots@),
                ret@.len() == MAX_SLOT_LEVEL,
                forall|s: int|
                    0 <= s < MAX_SLOT_LEVEL ==> #[trigger] ret@[s] == count_of(
                        base_slots@,
                        s + 1,
                        i as int,
                    ) && 0 <= ret@[s] <= i,
            decreases base_slots.len() - i,
        {
            let slot_size = base_slots[i];
            assert(0 <= base_slots@[i as int] <= MAX_SLOT_LEVEL);
            if slot_size != 0 {
                let index = (slot_size - 1) as usize;
                let count = ret[index] + 1;
                ret.set(index, count);
            }
            i += 1;
        }
        ret
    }
}

/// Once a demand could not be placed, the later demands are left alone.
pub proof fn lemma_place_all_stops(
    slots: Seq<i32>,
    demands: Seq<(&String, i32, i32)>,
    k: int,
    n: int,
)
    requires
        0 <= k <= n,
        !place_all(slots, demands, k).2 || k == n,
    ensures
        place_all(slots, demands, n) == place_all(slots, demands, k),
    decreases n - k,
{
    if k < n {
        lemma_place_all_stops(slots, demands, k, n - 1);
    }
}

impl<'a> CalcEquipment for CalcArmor<'a> {
    closed spec fn spec_id(&self) -> Seq<char> {
        self.base.id@
    }

    closed spec fn spec_skills(&self) -> Seq<(Seq<char>, i32)> {
        self.skills.entries()
    }

    closed spec fn spec_slots(&self) -> Seq<i32> {
        self.slots@
    }

    closed spec fn spec_part(&self) -> ArmorPart {
        self.part
    }

    fn id(&self) -> (r: &String) {
        self.base.id()
    }

    fn skills(&self) -> (r: &StrMap<i32>) {
        proof {
            use_type_invariant(self);
        }
        &self.skills
    }

    fn set_skills(&mut self, skills: StrMap<i32>) {
        proof {
            use_type_invariant(&*self);
            use_type_invariant(&skills);
        }
        self.skills = skills;
    }

    fn slots(&self) -> (r: &Vec<i32>) {
        proof {
            use_type_invariant(self);
        }
        &self.slots
    }

    fn part(&self) -> (r: &ArmorPart) {
        &self.part
    }
}

impl<'a> Clone for CalcArmor<'a> {
    fn clone(&self) -> (r: Self)
        ensures
            r.spec_base() == self.spec_base(),
            r.spec_original() == self.spec_original(),
            r.spec_id() == self.spec_id(),
            r.spec_part() == self.spec_part(),
            r.spec_skills() == self.spec_skills(),
            r.spec_slots() == self.spec_slots(),
    {
        proof {
            use_type_invariant(self);
        }
        CalcArmor {
            base: self.base,
            original: self.original,
            part: self.part,
            sex_type: self.sex_type,
            rarity: self.rarity,
            skills: self.skills.duplicate(),
            slots: copy_slots(&self.slots),
        }
    }
}

} // verus!
