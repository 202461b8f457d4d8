//! Charms as the search sees them.

use crate::calc::armor::{CalcArmor, count_of};
use crate::calc::calc_equipment::{CalcEquipment, map_nonneg};
use crate::data::armor::{ArmorPart, Talisman, TalismanSkill};
use crate::data::skill::MAX_SLOT_LEVEL;
use crate::slots::{copy_slots, is_slots};
use crate::str_map::{StrMap, entries_map};
use vstd::prelude::*;

verus! {

/// A charm as the search sees it: the charm it stands for, its skills with
/// their levels and its sockets counted by size.
pub struct CalcTalisman<'a> {
    tali: &'a Talisman,
    slots: Vec<i32>,
    skills: StrMap<i32>,
}

/// The levels of the first `k` skills of a charm, by skill; where a skill
/// is listed twice, the later level stands.
pub open spec fn talisman_levels(skills: Seq<TalismanSkill>, k: int) -> Map<Seq<char>, i32>
    decreases k,
{
    if k <= 0 {
        Map::empty()
    } else {
        talisman_levels(skills, k - 1).insert(skills[k - 1].id@, skills[k - 1].level)
    }
}

impl<'a> CalcTalisman<'a> {
    /// Every charm satisfies this: its sockets are a socket vector and no
    /// skill has a negative level.
    #[verifier::type_invariant]
    pub closed spec fn wf(&self) -> bool {
        &&& is_slots(self.slots@)
        &&& map_nonneg(self.skills@)
        &&& self.skills.wf()
    }

    /// The charm that this one stands for.
    pub closed spec fn spec_tali(&self) -> &'a Talisman {
        self.tali
    }

    /// The charm that this one stands for.
    pub fn tali(&self) -> (r: &'a Talisman)
        ensures
            r == self.spec_tali(),
    {
        self.tali
    }

    /// The charm `tali` as the search sees it.
    pub fn new(tali: &'a Talisman) -> (r: Self)
        requires
            tali.valid(),
        ensures
            r.spec_tali() == tali,
            r.spec_id() == tali.id@,
            r.spec_part() == ArmorPart::Talisman,
            entries_map(r.spec_skills()) == talisman_levels(
                tali.skills@,
                tali.skills@.len() as int,
            ),
            is_slots(r.spec_slots()),
            forall|s: int|
                0 <= s < MAX_SLOT_LEVEL ==> #[trigger] r.spec_slots()[s] == count_of(
                    tali.slot_sizes@,
                    s + 1,
                    tali.slot_sizes@.len() as int,
                ),
    {
        let slots = CalcArmor::convert_from_base_slots(&tali.slot_sizes);
        let mut skills: StrMap<i32> = StrMap::new();
        let mut i: usize = 0;
        while i < tali.skills.len()
            invariant
                i <= tali.skills@.len(),
                tali.valid(),
                skills.wf(),
                skills@ == talisman_levels(tali.skills@, i as int),
                map_nonneg(skills@),
            decreases tali.skills.len() - i,
        {
            assert(0 <= tali.skills@[i as int].level);
            skills.insert(tali.skills[i].id.clone(), tali.skills[i].level);
            i += 1;
        }
        Self { tali, slots, skills }
    }
}

impl<'a> CalcEquipment for CalcTalisman<'a> {
    closed spec fn spec_id(&self) -> Seq<char> {
        self.tali.id@
    }

    closed spec fn spec_skills(&self) -> Seq<(Seq<char>, i32)> {
        self.skills.entries()
    }

    closed spec fn spec_slots(&self) -> Seq<i32> {
        self.slots@
    }

    closed spec fn spec_part(&self) -> ArmorPart {
        ArmorPart::Talisman
    }

    fn id(&self) -> (r: &String) {
        self.tali.id()
    }

    fn skills(&self) -> (r: &StrMap<i32>) {
        proof {
            use_type_invariant(self);
        }
        &self.skills
    }

    fn set_skills(&mut self, skills: StrMap<i32>) {
        proof {
            use_type_invariant(&*self);
            use_type_invariant(&skills);
        }
        self.skills = skills;
    }

    fn slots(&self) -> (r: &Vec<i32>) {
        proof {
            use_type_invariant(self);
        }
        &self.slots
    }

    fn part(&self) -> (r: &ArmorPart) {
        &ArmorPart::Talisman
    }
}

impl<'a> Clone for CalcTalisman<'a> {
    fn clone(&self) -> (r: Self)
        ensures
            r.spec_tali() == self.spec_tali(),
            r.spec_id() == self.spec_id(),
            r.spec_part() == self.spec_part(),
            r.spec_skills() == self.spec_skills(),
            r.spec_slots() == self.spec_slots(),
    {
        proof {
            use_type_invariant(self);
        }
        CalcTalisman {
            tali: self.tali,
            slots: copy_slots(&self.slots),
            skills: self.skills.duplicate(),
        }
    }
}

} // verus!
