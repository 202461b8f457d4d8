//! Scores of skills.

use crate::data::deco::Decoration;
use crate::data::skill::Skill;
use vstd::prelude::*;

verus! {

/// What a level of a skill without decoration scores: such a level can only
/// come from a piece.
pub const NO_DECO_WEIGHT: i32 = 1000;

/// A skill as the search sees it, with its decorations if it has any.
pub struct CalcSkill<'a> {
    base: &'a Skill,
    decos: Option<Vec<&'a Decoration>>,
}

/// The largest socket size among the first `k` decorations of a list: 0
/// where there is none.
pub open spec fn largest_size(list: Seq<&Decoration>, k: int) -> int
    decreases k,
{
    if k <= 0 {
        0
    } else {
        let rest = largest_size(list, k - 1);
        if list[k - 1].slot_size > rest {
            list[k - 1].slot_size as int
        } else {
            rest
        }
    }
}

/// The score of `count` levels of a skill: with decorations, each level
/// scores the largest socket size among them; without, each scores
/// `NO_DECO_WEIGHT`.
pub open spec fn skill_point(count: int, decos: Option<Vec<&Decoration>>) -> int {
    match decos {
        None => count * NO_DECO_WEIGHT,
        Some(list) => count * largest_size(list@, list@.len() as int),
    }
}

impl<'a> CalcSkill<'a> {
    pub fn new(base: &'a Skill, decos: Option<Vec<&'a Decoration>>) -> (r: Self)
        ensures
            r.base() == base,
            r.decos() == decos,
    {
        Self { base, decos }
    }

    /// The skill.
    pub closed spec fn base(&self) -> &'a Skill {
        self.base
    }

    /// The decorations of the skill, if it has any.
    pub closed spec fn decos(&self) -> Option<Vec<&'a Decoration>> {
        self.decos
    }

    /// The score of `count` levels of `skill`.
    pub fn calculate_point(skill: &Skill, count: i32, decos: Option<Vec<&Decoration>>) -> (point:
        i32)
        requires
            i32::MIN <= skill_point(count as int, decos) <= i32::MAX,
        ensures
            point == skill_point(count as int, decos),
    {
        match decos {
            None => count * NO_DECO_WEIGHT,
            Some(list) => {
                let mut size: i32 = 0;
                let mut i: usize = 0;
                while i < list.len()
                    invariant
                        i <= list@.len(),
                        size == largest_size(list@, i as int),
                    decreases list.len() - i,
                {
                    if list[i].slot_size > size {
                        size = list[i].slot_size;
                    }
                    i += 1;
                }
                count * size
            },
        }
    }
}

} // verus!
