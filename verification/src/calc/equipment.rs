//! A piece of either kind.

use crate::calc::armor::CalcArmor;
use crate::calc::calc_equipment::{CalcEquipment, dominated};
use crate::calc::talisman::CalcTalisman;
use crate::data::armor::ArmorPart;
use crate::str_map::{StrMap, entries_map};
use vstd::prelude::*;
use vstd::std_specs::cmp::PartialEqSpecImpl;

verus! {

/// A piece of a build: a body piece or a charm.
pub enum Equipment<'a> {
    Armor(CalcArmor<'a>),
    Talisman(CalcTalisman<'a>),
}

impl<'a> Equipment<'a> {
    /// The body piece, if this is one.
    pub fn as_armor(&self) -> (r: Option<&CalcArmor<'a>>)
        ensures
            match (r, *self) {
                (Some(a), Equipment::Armor(b)) => *a == b,
                (None, Equipment::Talisman(_)) => true,
                _ => false,
            },
    {
        match self {
            Equipment::Armor(a) => Some(a),
            Equipment::Talisman(_) => None,
        }
    }

    /// The charm, if this is one.
    pub fn as_talisman(&self) -> (r: Option<&CalcTalisman<'a>>)
        ensures
            match (r, *self) {
                (Some(a), Equipment::Talisman(b)) => *a == b,
                (None, Equipment::Armor(_)) => true,
                _ => false,
            },
    {
        match self {
            Equipment::Armor(_) => None,
            Equipment::Talisman(t) => Some(t),
        }
    }
}

impl<'a> CalcEquipment for Equipment<'a> {
    open spec fn spec_id(&self) -> Seq<char> {
        match self {
            Equipment::Armor(a) => a.spec_id(),
            Equipment::Talisman(t) => t.spec_id(),
        }
    }

    open spec fn spec_skills(&self) -> Seq<(Seq<char>, i32)> {
        match self {
            Equipment::Armor(a) => a.spec_skills(),
            Equipment::Talisman(t) => t.spec_skills(),
        }
    }

    open spec fn spec_slots(&self) -> Seq<i32> {
        match self {
            Equipment::Armor(a) => a.spec_slots(),
            Equipment::Talisman(t) => t.spec_slots(),
        }
    }

    open spec fn spec_part(&self) -> ArmorPart {
        match self {
            Equipment::Armor(a) => a.spec_part(),
            Equipment::Talisman(t) => t.spec_part(),
        }
    }

    fn id(&self) -> (r: &String) {
        match self {
            Equipment::Armor(a) => a.id(),
            Equipment::Talisman(t) => t.id(),
        }
    }

    fn skills(&self) -> (r: &StrMap<i32>) {
        match self {
            Equipment::Armor(a) => a.skills(),
            Equipment::Talisman(t) => t.skills(),
        }
    }

    fn set_skills(&mut self, skills: StrMap<i32>) {
        match self {
            Equipment::Armor(a) => a.set_skills(skills),
            Equipment::Talisman(t) => t.set_skills(skills),
        }
    }

    fn slots(&self) -> (r: &Vec<i32>) {
        match self {
            Equipment::Armor(a) => a.slots(),
            Equipment::Talisman(t) => t.slots(),
        }
    }

    fn part(&self) -> (r: &ArmorPart) {
        match self {
            Equipment::Armor(a) => a.part(),
            Equipment::Talisman(t) => t.part(),
        }
    }
}

impl<'a> Clone for Equipment<'a> {
    fn clone(&self) -> (r: Self)
        ensures
            r.spec_id() == self.spec_id(),
            r.spec_part() == self.spec_part(),
            r.spec_skills() == self.spec_skills(),
            r.spec_slots() == self.spec_slots(),
            r is Armor <==> self is Armor,
    {
        match self {
            Equipment::Armor(a) => Equipment::Armor(a.clone()),
            Equipment::Talisman(t) => Equipment::Talisman(t.clone()),
        }
    }
}

/// Each of the two pieces has the sockets and the skills of the other.
pub open spec fn alike<'a>(a: Equipment<'a>, b: Equipment<'a>) -> bool {
    dominated(
        a.spec_slots(),
        entries_map(a.spec_skills()),
        b.spec_slots(),
        entries_map(b.spec_skills()),
    ) && dominated(
        b.spec_slots(),
        entries_map(b.spec_skills()),
        a.spec_slots(),
        entries_map(a.spec_skills()),
    )
}

/// Two pieces are equal when each has the sockets and the skills of the
/// other, whatever their names.
impl<'a> PartialEq for Equipment<'a> {
    fn eq(&self, other: &Self) -> (b: bool) {
        self.is_le(other) && other.is_le(self)
    }
}

impl<'a> PartialEqSpecImpl for Equipment<'a> {
    open spec fn obeys_eq_spec() -> bool {
        true
    }

    open spec fn eq_spec(&self, other: &Self) -> bool {
        alike(*self, *other)
    }
}

/// Pieces are alike exactly when they have the same sockets and the same
/// skills at the same levels.
pub proof fn lemma_alike<'a>(a: Equipment<'a>, b: Equipment<'a>)
    ensures
        alike(a, b) <==> a.spec_slots() == b.spec_slots() && entries_map(a.spec_skills())
            == entries_map(b.spec_skills()),
{
    if alike(a, b) {
        assert(a.spec_slots() =~= b.spec_slots());
        assert(entries_map(a.spec_skills()) =~= entries_map(b.spec_skills()));
    }
}

} // verus!
