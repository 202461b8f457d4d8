//! Decorations.

use crate::data::skill::MAX_SLOT_LEVEL;
use crate::str_map::StrMap;
use vstd::prelude::*;

verus! {

/// A decoration: placed in a socket of at least its size, it grants
/// `skill_level` levels of one skill.
#[derive(Debug)]
pub struct Decoration {
    pub id: String,
    /// Display names by locale.
    pub names: StrMap<String>,
    /// Display names of the skill by locale.
    pub skill_names: StrMap<String>,
    pub skill_id: String,
    pub skill_level: i32,
    pub slot_size: i32,
}

impl Decoration {
    /// The decoration grants at least one level and has a socket size.
    pub open spec fn valid(&self) -> bool {
        &&& 1 <= self.skill_level
        &&& 1 <= self.slot_size <= MAX_SLOT_LEVEL
    }

    /// Whether the decoration grants at least one level and has a socket size.
    pub fn is_valid(&self) -> (b: bool)
        ensures
            b == self.valid(),
    {
        1 <= self.skill_level && 1 <= self.slot_size && self.slot_size <= 4
    }
}

impl Clone for Decoration {
    fn clone(&self) -> (r: Self)
        ensures
            r.id@ == self.id@,
            r.names.entries() == self.names.entries(),
            r.skill_names.entries() == self.skill_names.entries(),
            r.skill_id@ == self.skill_id@,
            r.skill_level == self.skill_level,
            r.slot_size == self.slot_size,
    {
        Decoration {
            id: self.id.clone(),
            names: self.names.duplicate_text(),
            skill_names: self.skill_names.duplicate_text(),
            skill_id: self.skill_id.clone(),
            skill_level: self.skill_level,
            slot_size: self.slot_size,
        }
    }
}

} // verus!
