//! The catalog and the tables built from it.

use crate::data::armor::{
    ANOMALY_ARMOR_PREFIX, AnomalyArmor, ArmorPart, BaseArmor, SexType, Talisman, is_slot_id,
    lemma_slot_id_round_trip, slot_id_text, slot_numbers,
};
use crate::data::deco::Decoration;
use crate::data::deco_build::{MAX_LEVEL_LIMIT, decos_valid};
use crate::data::deco_combination::{DecorationCombinations, levels_ok, table_inputs_ok};
use crate::data::deco_complete::sizes_rise;
use crate::data::skill::Skill;
use crate::str_map::{StrMap, distinct_keys, entries_map, lemma_entry_in_map, lemma_map_take};
use crate::text::{decimal, push_decimal_nat};
use vstd::prelude::*;
use vstd::string::*;

verus! {

/// The catalog: pieces, skills and decorations, and what is looked up in
/// them during a search.
pub struct DataManager {
    /// The body pieces by identifier.
    pub armors: StrMap<BaseArmor>,
    /// The skills by identifier.
    pub skills: StrMap<Skill>,
    /// The decorations by identifier.
    pub decos: StrMap<Decoration>,
    /// For each skill, its decorations in the order of their socket sizes.
    pub decos_by_skill: StrMap<Vec<Decoration>>,
    /// The socket costs of each level of each skill with decorations.
    pub deco_combinations: DecorationCombinations,
    /// For each body part, by its position, the socket-only pieces by
    /// identifier.
    pub slot_only_armors: Vec<StrMap<BaseArmor>>,
    /// For each body part, by its position, the pieces by the identifier of
    /// their socket-only piece.
    pub armors_by_slot: Vec<StrMap<Vec<BaseArmor>>>,
    /// For each body part, by its position, the empty placeholder.
    pub empty_armors: Vec<BaseArmor>,
    /// The augmented pieces by identifier.
    pub anomaly_armors: StrMap<AnomalyArmor>,
    /// For each body part, by its position, the pieces of the catalog.
    pub bases_by_part: Vec<Vec<BaseArmor>>,
    /// For each body part, by its position, the augmented pieces.
    pub anomalies_by_part: Vec<Vec<BaseArmor>>,
    /// The charms.
    pub talismans: Vec<Talisman>,
    /// The socket-only charms by identifier.
    pub slot_only_talismans: StrMap<Talisman>,
    /// The charms by the identifier of their socket-only charm.
    pub talismans_by_slot: StrMap<Vec<Talisman>>,
    /// The empty placeholder for the charm.
    pub empty_talisman: Talisman,
    /// The identifier of a piece by each of its display names.
    pub armor_name_dict: StrMap<String>,
    /// The identifier of a skill by each of its display names.
    pub skill_name_dict: StrMap<String>,
}

/// The number of body parts.
pub const BODY_PARTS: usize = 5;

/// What is known of a decoration without its display names: identifier,
/// skill, level and socket size.
pub open spec fn deco_key(d: Decoration) -> (Seq<char>, Seq<char>, i32, i32) {
    (d.id@, d.skill_id@, d.skill_level, d.slot_size)
}

/// The decorations of a list without their display names.
pub open spec fn deco_keys(list: Seq<Decoration>) -> Seq<(Seq<char>, Seq<char>, i32, i32)> {
    Seq::new(list.len(), |i: int| deco_key(list[i]))
}

/// The skill, level and socket size of each entry of a requirement split by
/// decoration: what `get_skils_by_deco` says of a skill with one decoration.
pub open spec fn single_entry(decos: Seq<Decoration>, level: i32) -> (i32, i32) {
    (decos[0].slot_size, level)
}

impl DataManager {
    /// Every table that is kept by body part has one entry per body part.
    pub open spec fn wf(&self) -> bool {
        &&& self.slot_only_armors@.len() == BODY_PARTS
        &&& self.armors_by_slot@.len() == BODY_PARTS
        &&& self.empty_armors@.len() == BODY_PARTS
        &&& self.bases_by_part@.len() == BODY_PARTS
        &&& self.anomalies_by_part@.len() == BODY_PARTS
    }

    /// Whether every table that is kept by body part has one entry per body
    /// part.
    pub fn is_wf(&self) -> (b: bool)
        ensures
            b == self.wf(),
    {
        self.slot_only_armors.len() == BODY_PARTS && self.armors_by_slot.len() == BODY_PARTS
            && self.empty_armors.len() == BODY_PARTS && self.bases_by_part.len() == BODY_PARTS
            && self.anomalies_by_part.len() == BODY_PARTS
    }

    /// The pieces of `part`: those of the catalog, then the augmented ones.
    /// The charm's part has none.
    pub fn get_parts(&self, part: ArmorPart) -> (ret: Vec<&BaseArmor>)
        requires
            self.wf(),
        ensures
            part == ArmorPart::Talisman ==> ret@.len() == 0,
            part != ArmorPart::Talisman ==> ret@.len() == self.bases_by_part@[part.spec_index()]@.len()
                + self.anomalies_by_part@[part.spec_index()]@.len(),
            part != ArmorPart::Talisman ==> forall|i: int|
                0 <= i < ret@.len() ==> *(#[trigger] ret@[i]) == if i
                    < self.bases_by_part@[part.spec_index()]@.len() {
                    self.bases_by_part@[part.spec_index()]@[i]
                } else {
                    self.anomalies_by_part@[part.spec_index()]@[i
                        - self.bases_by_part@[part.spec_index()]@.len()]
                },
    {
        let mut ret: Vec<&BaseArmor> = Vec::new();
        let p = part.index();
        if p >= BODY_PARTS {
            return ret;
        }
        let bases = &self.bases_by_part[p];
        let anomalies = &self.anomalies_by_part[p];
        let mut i: usize = 0;
        while i < bases.len()
            invariant
                i <= bases@.len(),
                ret@.len() == i,
                forall|k: int| 0 <= k < i ==> *(#[trigger] ret@[k]) == bases@[k],
            decreases bases.len() - i,
        {
            ret.push(&bases[i]);
            i += 1;
        }
        let mut j: usize = 0;
        while j < anomalies.len()
            invariant
                j <= anomalies@.len(),
                ret@.len() == bases@.len() + j,
                forall|k: int| 0 <= k < bases@.len() ==> *(#[trigger] ret@[k]) == bases@[k],
                forall|k: int|
                    bases@.len() <= k < ret@.len() ==> *(#[trigger] ret@[k]) == anomalies@[k
                        - bases@.len()],
            decreases anomalies.len() - j,
        {
            ret.push(&anomalies[j]);
            j += 1;
        }
        ret
    }

    /// Copies of the pieces of `part`: those of the catalog, then the
    /// augmented ones. The charm's part has none.
    pub fn get_parts_clone(&self, part: ArmorPart) -> (ret: Vec<BaseArmor>)
        requires
            self.wf(),
        ensures
            part == ArmorPart::Talisman ==> ret@.len() == 0,
            part != ArmorPart::Talisman ==> ret@.len() == self.bases_by_part@[part.spec_index()]@.len()
                + self.anomalies_by_part@[part.spec_index()]@.len(),
            part != ArmorPart::Talisman ==> forall|i: int|
                0 <= i < ret@.len() ==> (#[trigger] ret@[i]).same(
                    if i < self.bases_by_part@[part.spec_index()]@.len() {
                        &self.bases_by_part@[part.spec_index()]@[i]
                    } else {
                        &self.anomalies_by_part@[part.spec_index()]@[i
                            - self.bases_by_part@[part.spec_index()]@.len()]
                    },
                ),
    {
        let refs = self.get_parts(part);
        let mut ret: Vec<BaseArmor> = Vec::new();
        let mut i: usize = 0;
        while i < refs.len()
            invariant
                i <= refs@.len(),
                ret@.len() == i,
                forall|k: int| 0 <= k < i ==> (#[trigger] ret@[k]).same(refs@[k]),
            decreases refs.len() - i,
        {
            ret.push(refs[i].clone());
            i += 1;
        }
        ret
    }

    /// The augmented piece named `armor_id`, if there is one.
    pub fn get_anomaly_armor(&self, armor_id: &String) -> (r: Option<&AnomalyArmor>)
        ensures
            match r {
                Some(a) => "__anomaly"@.is_prefix_of(armor_id@) && self.anomaly_armors@.contains_key(
                    armor_id@,
                ) && *a == self.anomaly_armors@[armor_id@],
                None => !("__anomaly"@.is_prefix_of(armor_id@) && self.anomaly_armors@.contains_key(
                    armor_id@,
                )),
            },
    {
        if !BaseArmor::is_anomaly_armor(armor_id) {
            return None;
        }
        self.anomaly_armors.get(armor_id)
    }

    /// The decorations of `skill_id`, in the order of their socket sizes:
    /// none where the skill has none.
    pub fn get_deco_by_skill_id(&self, skill_id: &String) -> (ret: Vec<&Decoration>)
        ensures
            !self.decos_by_skill@.contains_key(skill_id@) ==> ret@.len() == 0,
            self.decos_by_skill@.contains_key(skill_id@) ==> ret@.len()
                == self.decos_by_skill@[skill_id@]@.len() && forall|i: int|
                0 <= i < ret@.len() ==> *(#[trigger] ret@[i]) == self.decos_by_skill@[skill_id@]@[i],
    {
        let mut ret: Vec<&Decoration> = Vec::new();
        match self.decos_by_skill.get(skill_id) {
            Some(vec) => {
                let mut i: usize = 0;
                while i < vec.len()
                    invariant
                        i <= vec@.len(),
                        ret@.len() == i,
                        forall|k: int| 0 <= k < i ==> *(#[trigger] ret@[k]) == vec@[k],
                    decreases vec.len() - i,
                {
                    ret.push(&vec[i]);
                    i += 1;
                }
                ret
            },
            None => ret,
        }
    }

    /// Whether `skill_id` is listed with decorations.
    pub fn has_decoration(&self, skill_id: &String) -> (b: bool)
        ensures
            b == self.decos_by_skill@.contains_key(skill_id@),
    {
        self.decos_by_skill.contains_key(skill_id)
    }

    /// The number of decorations of `id`: 0 where it has none.
    pub open spec fn deco_count(&self, id: Seq<char>) -> int {
        if self.decos_by_skill@.contains_key(id) {
            self.decos_by_skill@[id]@.len() as int
        } else {
            0
        }
    }

    /// Splits a requirement into the skills without decoration and the
    /// skills with one, in this order; each skill keeps its level.
    pub fn get_leftover_skills(&self, req_skills: &StrMap<i32>) -> (r: (StrMap<i32>, StrMap<i32>))
        ensures
            forall|k: Seq<char>|
                #![trigger r.0@.contains_key(k)]
                #![trigger r.1@.contains_key(k)]
                {
                    &&& r.0@.contains_key(k) <==> req_skills@.contains_key(k) && self.deco_count(k)
                        == 0
                    &&& r.1@.contains_key(k) <==> req_skills@.contains_key(k) && self.deco_count(k)
                        > 0
                    &&& r.0@.contains_key(k) ==> r.0@[k] == req_skills@[k]
                    &&& r.1@.contains_key(k) ==> r.1@[k] == req_skills@[k]
                },
    {
        let mut yes_deco_skills: StrMap<i32> = StrMap::new();
        let mut no_deco_skills: StrMap<i32> = StrMap::new();
        let ghost req = req_skills.entries();
        let n = req_skills.len();
        let mut i: usize = 0;
        assert(req.subrange(0, 0) =~= Seq::<(Seq<char>, i32)>::empty());
        while i < n
            invariant
                i <= n,
                n == req.len(),
                req == req_skills.entries(),
                distinct_keys(req),
                forall|k: Seq<char>|
                    #![trigger no_deco_skills@.contains_key(k)]
                    #![trigger yes_deco_skills@.contains_key(k)]
                    {
                        let seen = entries_map(req.subrange(0, i as int));
                        &&& no_deco_skills@.contains_key(k) <==> seen.contains_key(k)
                            && self.deco_count(k) == 0
                        &&& yes_deco_skills@.contains_key(k) <==> seen.contains_key(k)
                            && self.deco_count(k) > 0
                        &&& no_deco_skills@.contains_key(k) ==> no_deco_skills@[k] == seen[k]
                        &&& yes_deco_skills@.contains_key(k) ==> yes_deco_skills@[k] == seen[k]
                    },
            decreases n - i,
        {
            let skill_id = req_skills.key_at(i);
            let level = *req_skills.value_at(i);
            proof {
                lemma_map_take(req, i as int);
            }
            let decos = self.get_deco_by_skill_id(skill_id);
            if 0 < decos.len() {
                yes_deco_skills.insert(skill_id.clone(), level);
            } else {
                no_deco_skills.insert(skill_id.clone(), level);
            }
            i += 1;
        }
        assert(req.subrange(0, n as int) =~= req);
        (no_deco_skills, yes_deco_skills)
    }

    /// Splits a requirement by the number of decorations of each skill: the
    /// skills without any, the skills with one, each with the socket size
    /// of its decoration and its level, and the skills with several.
    pub fn get_skils_by_deco(&self, req_skills: &StrMap<i32>) -> (r: (
        StrMap<i32>,
        StrMap<(i32, i32)>,
        StrMap<i32>,
    ))
        ensures
            forall|k: Seq<char>|
                #![trigger r.0@.contains_key(k)]
                #![trigger r.1@.contains_key(k)]
                #![trigger r.2@.contains_key(k)]
                {
                    &&& r.0@.contains_key(k) <==> req_skills@.contains_key(k) && self.deco_count(k)
                        == 0
                    &&& r.1@.contains_key(k) <==> req_skills@.contains_key(k) && self.deco_count(k)
                        == 1
                    &&& r.2@.contains_key(k) <==> req_skills@.contains_key(k) && self.deco_count(k)
                        > 1
                    &&& r.0@.contains_key(k) ==> r.0@[k] == req_skills@[k]
                    &&& r.1@.contains_key(k) ==> r.1@[k] == single_entry(
                        self.decos_by_skill@[k]@,
                        req_skills@[k],
                    )
                    &&& r.2@.contains_key(k) ==> r.2@[k] == req_skills@[k]
                },
    {
        let mut no_deco_skills: StrMap<i32> = StrMap::new();
        let mut single_deco_skills: StrMap<(i32, i32)> = StrMap::new();
        let mut multi_deco_skills: StrMap<i32> = StrMap::new();
        let ghost req = req_skills.entries();
        let n = req_skills.len();
        let mut i: usize = 0;
        assert(req.subrange(0, 0) =~= Seq::<(Seq<char>, i32)>::empty());
        while i < n
            invariant
                i <= n,
                n == req.len(),
                req == req_skills.entries(),
                distinct_keys(req),
                forall|k: Seq<char>|
                    #![trigger no_deco_skills@.contains_key(k)]
                    #![trigger single_deco_skills@.contains_key(k)]
                    #![trigger multi_deco_skills@.contains_key(k)]
                    {
                        let seen = entries_map(req.subrange(0, i as int));
                        &&& no_deco_skills@.contains_key(k) <==> seen.contains_key(k)
                            && self.deco_count(k) == 0
                        &&& single_deco_skills@.contains_key(k) <==> seen.contains_key(k)
                            && self.deco_count(k) == 1
                        &&& multi_deco_skills@.contains_key(k) <==> seen.contains_key(k)
                            && self.deco_count(k) > 1
                        &&& no_deco_skills@.contains_key(k) ==> no_deco_skills@[k] == seen[k]
                        &&& single_deco_skills@.contains_key(k) ==> single_deco_skills@[k]
                            == single_entry(self.decos_by_skill@[k]@, seen[k])
                        &&& multi_deco_skills@.contains_key(k) ==> multi_deco_skills@[k] == seen[k]
                    },
            decreases n - i,
        {
            let skill_id = req_skills.key_at(i);
            let level = *req_skills.value_at(i);
            proof {
                lemma_map_take(req, i as int);
            }
            let decos = self.get_deco_by_skill_id(skill_id);
            if decos.len() == 0 {
                no_deco_skills.insert(skill_id.clone(), level);
            } else if decos.len() == 1 {
                let slot_size = decos[0].slot_size;
                single_deco_skills.insert(skill_id.clone(), (slot_size, level));
            } else {
                multi_deco_skills.insert(skill_id.clone(), level);
            }
            i += 1;
        }
        assert(req.subrange(0, n as int) =~= req);
        (no_deco_skills, single_deco_skills, multi_deco_skills)
    }
}

/// The decoration can go into the table: it is valid, and its skill is a
/// known skill of a maximum level within the limit.
pub open spec fn usable_deco(d: Decoration, skills: Map<Seq<char>, Skill>) -> bool {
    &&& d.valid()
    &&& skills.contains_key(d.skill_id@)
    &&& skills[d.skill_id@].max_level <= MAX_LEVEL_LIMIT
}

/// Where a decoration of socket size `size` goes into a list kept in the
/// order of socket sizes: behind the last decoration that is not larger.
pub open spec fn insert_pos(list: Seq<(Seq<char>, Seq<char>, i32, i32)>, size: i32) -> int
    decreases list.len(),
{
    if list.len() == 0 {
        0
    } else if list.last().3 <= size {
        list.len() as int
    } else {
        insert_pos(list.drop_last(), size)
    }
}

/// The usable decorations of the skill `skill` among the first `k`, in the
/// order of their socket sizes; decorations of one size keep the order in
/// which the catalog lists them.
pub open spec fn grouped(
    decos: Seq<(Seq<char>, Decoration)>,
    skills: Map<Seq<char>, Skill>,
    skill: Seq<char>,
    k: int,
) -> Seq<(Seq<char>, Seq<char>, i32, i32)>
    decreases k,
{
    if k <= 0 {
        Seq::empty()
    } else {
        let rest = grouped(decos, skills, skill, k - 1);
        let d = decos[k - 1].1;
        if usable_deco(d, skills) && d.skill_id@ == skill {
            rest.insert(insert_pos(rest, d.slot_size), deco_key(d))
        } else {
            rest
        }
    }
}

/// The list is in the order of socket sizes.
pub open spec fn by_size(list: Seq<(Seq<char>, Seq<char>, i32, i32)>) -> bool {
    forall|a: int, b: int| 0 <= a < b < list.len() ==> (#[trigger] list[a]).3 <= (#[trigger] list[b]).3
}

/// The place at which a decoration goes into an ordered list is within the
/// list, behind what is not larger and before what is larger.
pub proof fn lemma_insert_pos(list: Seq<(Seq<char>, Seq<char>, i32, i32)>, size: i32)
    requires
        by_size(list),
    ensures
        0 <= insert_pos(list, size) <= list.len(),
        forall|a: int| 0 <= a < insert_pos(list, size) ==> (#[trigger] list[a]).3 <= size,
        forall|a: int| insert_pos(list, size) <= a < list.len() ==> (#[trigger] list[a]).3 > size,
    decreases list.len(),
{
    if list.len() > 0 {
        if list.last().3 <= size {
            assert forall|a: int| 0 <= a < list.len() implies (#[trigger] list[a]).3 <= size by {
                if a < list.len() - 1 {
                    assert(list[a].3 <= list[list.len() - 1].3);
                }
            }
        } else {
            let rest = list.drop_last();
            assert forall|a: int, b: int| 0 <= a < b < rest.len() implies (#[trigger] rest[a]).3 <= (
            #[trigger] rest[b]).3 by {
                assert(list[a].3 <= list[b].3);
            }
            lemma_insert_pos(rest, size);
            assert forall|a: int| 0 <= a < insert_pos(list, size) implies (#[trigger] list[a]).3
                <= size by {
                assert(rest[a].3 <= size);
            }
            assert forall|a: int| insert_pos(list, size) <= a < list.len() implies (
            #[trigger] list[a]).3 > size by {
                if a < rest.len() {
                    assert(rest[a].3 > size);
                }
            }
        }
    }
}

/// The decorations grouped for a skill are in the order of socket sizes,
/// valid, and decorations of that skill.
pub proof fn lemma_grouped(
    decos: Seq<(Seq<char>, Decoration)>,
    skills: Map<Seq<char>, Skill>,
    skill: Seq<char>,
    k: int,
)
    requires
        0 <= k <= decos.len(),
    ensures
        by_size(grouped(decos, skills, skill, k)),
        forall|a: int|
            0 <= a < grouped(decos, skills, skill, k).len() ==> {
                let e = #[trigger] grouped(decos, skills, skill, k)[a];
                &&& e.1 == skill
                &&& 1 <= e.2
                &&& 1 <= e.3 <= 4
            },
        grouped(decos, skills, skill, k).len() > 0 ==> skills.contains_key(skill)
            && skills[skill].max_level <= MAX_LEVEL_LIMIT,
    decreases k,
{
    if k > 0 {
        lemma_grouped(decos, skills, skill, k - 1);
        let rest = grouped(decos, skills, skill, k - 1);
        let d = decos[k - 1].1;
        if usable_deco(d, skills) && d.skill_id@ == skill {
            lemma_insert_pos(rest, d.slot_size);
            let pos = insert_pos(rest, d.slot_size);
            let now = rest.insert(pos, deco_key(d));
            assert forall|a: int, b: int| 0 <= a < b < now.len() implies (#[trigger] now[a]).3 <= (
            #[trigger] now[b]).3 by {
                if a < pos && b < pos {
                    assert(rest[a].3 <= rest[b].3);
                } else if a < pos && b == pos {
                    assert(rest[a].3 <= d.slot_size);
                } else if a < pos && b > pos {
                    assert(rest[a].3 <= d.slot_size);
                    assert(rest[b - 1].3 > d.slot_size);
                } else if a == pos {
                    assert(rest[b - 1].3 > d.slot_size);
                } else {
                    assert(rest[a - 1].3 <= rest[b - 1].3);
                }
            }
            assert forall|a: int| 0 <= a < now.len() implies {
                let e = #[trigger] now[a];
                &&& e.1 == skill
                &&& 1 <= e.2
                &&& 1 <= e.3 <= 4
            } by {
                if a < pos {
                    assert(now[a] == rest[a]);
                } else if a > pos {
                    assert(now[a] == rest[a - 1]);
                }
            }
        }
    }
}

/// A copy of `list` with `deco` put in at position `pos`.
fn insert_copy(list: &Vec<Decoration>, pos: usize, deco: &Decoration) -> (r: Vec<Decoration>)
    requires
        pos <= list@.len(),
    ensures
        deco_keys(r@) == deco_keys(list@).insert(pos as int, deco_key(*deco)),
{
    let mut r: Vec<Decoration> = Vec::new();
    let mut i: usize = 0;
    while i < pos
        invariant
            i <= pos <= list@.len(),
            r@.len() == i,
            forall|k: int| 0 <= k < i ==> deco_key(#[trigger] r@[k]) == deco_key(list@[k]),
        decreases pos - i,
    {
        r.push(list[i].clone());
        i += 1;
    }
    r.push(deco.clone());
    while i < list.len()
        invariant
            pos <= i <= list@.len(),
            r@.len() == i + 1,
            forall|k: int| 0 <= k < pos ==> deco_key(#[trigger] r@[k]) == deco_key(list@[k]),
            deco_key(r@[pos as int]) == deco_key(*deco),
            forall|k: int| pos < k <= i ==> deco_key(#[trigger] r@[k]) == deco_key(list@[k - 1]),
        decreases list.len() - i,
    {
        r.push(list[i].clone());
        i += 1;
    }
    assert(deco_keys(r@) =~= deco_keys(list@).insert(pos as int, deco_key(*deco)));
    r
}

/// Groups the usable decorations by their skill; each group is kept in the
/// order of socket sizes.
pub fn group_decos(decos: &StrMap<Decoration>, skills: &StrMap<Skill>) -> (r: StrMap<
    Vec<Decoration>,
>)
    ensures
        forall|skill: Seq<char>|
            #![trigger r@.contains_key(skill)]
            {
                let g = grouped(decos.entries(), skills@, skill, decos.entries().len() as int);
                &&& r@.contains_key(skill) <==> g.len() > 0
                &&& r@.contains_key(skill) ==> deco_keys(r@[skill]@) == g
            },
        table_inputs_ok(r.entries(), skills@),
{
    let ghost all = decos.entries();
    let mut r: StrMap<Vec<Decoration>> = StrMap::new();
    let n = decos.len();
    let mut i: usize = 0;
    while i < n
        invariant
            i <= n,
            n == all.len(),
            all == decos.entries(),
            r.wf(),
            forall|skill: Seq<char>|
                #![trigger r@.contains_key(skill)]
                {
                    let g = grouped(all, skills@, skill, i as int);
                    &&& r@.contains_key(skill) <==> g.len() > 0
                    &&& r@.contains_key(skill) ==> deco_keys(r@[skill]@) == g
                },
        decreases n - i,
    {
        let deco = decos.value_at(i);
        let ghost skill = deco.skill_id@;
        let usable = deco.is_valid() && match skills.get(&deco.skill_id) {
            Some(s) => s.max_level <= MAX_LEVEL_LIMIT,
            None => false,
        };
        assert(usable == usable_deco(*deco, skills@));
        if usable {
            proof {
                lemma_grouped(all, skills@, skill, i as int);
            }
            let ghost before = r@;
            match r.index_of(&deco.skill_id) {
                Some(at) => {
                    let held = r.swap_value_at(at, Vec::new());
                    let ghost g = deco_keys(held@);
                    assert(g == grouped(all, skills@, skill, i as int));
                    let mut pos: usize = held.len();
                    assert(g.subrange(0, pos as int) =~= g);
                    while pos > 0 && held[pos - 1].slot_size > deco.slot_size
                        invariant
                            pos <= held@.len(),
                            g == deco_keys(held@),
                            insert_pos(g, deco.slot_size) == insert_pos(
                                g.subrange(0, pos as int),
                                deco.slot_size,
                            ),
                        decreases pos,
                    {
                        assert(g.subrange(0, pos as int).drop_last() =~= g.subrange(0, pos - 1));
                        assert(g.subrange(0, pos as int).last() == g[pos - 1]);
                        pos -= 1;
                    }
                    proof {
                        assert(g.subrange(0, g.len() as int) =~= g);
                        if pos > 0 {
                            assert(g.subrange(0, pos as int).last() == g[pos - 1]);
                        }
                        assert(insert_pos(g, deco.slot_size) == pos);
                    }
                    let list = insert_copy(&held, pos, deco);
                    let _ = r.swap_value_at(at, list);
                    assert(r@ =~= before.insert(skill, list));
                },
                None => {
                    let mut list: Vec<Decoration> = Vec::new();
                    list.push(deco.clone());
                    assert(deco_keys(list@) =~= Seq::<(Seq<char>, Seq<char>, i32, i32)>::empty().insert(
                        0,
                        deco_key(*deco),
                    ));
                    r.insert(deco.skill_id.clone(), list);
                },
            }
        }
        i += 1;
    }
    proof {
        let e = r.entries();
        assert forall|k: int| 0 <= k < e.len() implies {
            let x = #[trigger] e[k];
            &&& skills@.contains_key(x.0)
            &&& skills@[x.0].max_level <= MAX_LEVEL_LIMIT
            &&& decos_valid(x.1@)
            &&& sizes_rise(x.1@)
        } by {
            lemma_entry_in_map(e, k);
            let skill = e[k].0;
            assert(r@.contains_key(skill));
            lemma_grouped(all, skills@, skill, n as int);
            let g = grouped(all, skills@, skill, n as int);
            assert(deco_keys(e[k].1@) == g);
            assert forall|a: int| 0 <= a < e[k].1@.len() implies (#[trigger] e[k].1@[a]).valid() by {
                assert(deco_keys(e[k].1@)[a] == g[a]);
            }
            assert forall|a: int, b: int| 0 <= a < b < e[k].1@.len() implies (#[trigger] e[k].1@[a]).slot_size
                <= (#[trigger] e[k].1@[b]).slot_size by {
                assert(deco_keys(e[k].1@)[a] == g[a]);
                assert(deco_keys(e[k].1@)[b] == g[b]);
                assert(g[a].3 <= g[b].3);
            }
        }
    }
    r
}

/// The texts of the values of a map from strings to strings.
pub open spec fn text_map(m: Map<Seq<char>, String>) -> Map<Seq<char>, Seq<char>> {
    Map::new(|k: Seq<char>| m.contains_key(k), |k: Seq<char>| m[k]@)
}

/// The dictionary `m` after the first `j` of the display names `names` were
/// entered for the identifier `id`; a name entered again stands for the
/// later identifier.
pub open spec fn names_into(
    m: Map<Seq<char>, Seq<char>>,
    names: Seq<(Seq<char>, String)>,
    id: Seq<char>,
    j: int,
) -> Map<Seq<char>, Seq<char>>
    decreases j,
{
    if j <= 0 {
        m
    } else {
        names_into(m, names, id, j - 1).insert(names[j - 1].1@, id)
    }
}

/// The dictionary from display names to identifiers for the first `k`
/// pieces.
pub open spec fn armor_dict(armors: Seq<(Seq<char>, BaseArmor)>, k: int) -> Map<
    Seq<char>,
    Seq<char>,
>
    decreases k,
{
    if k <= 0 {
        Map::empty()
    } else {
        names_into(
            armor_dict(armors, k - 1),
            armors[k - 1].1.names.entries(),
            armors[k - 1].1.id@,
            armors[k - 1].1.names.entries().len() as int,
        )
    }
}

/// The dictionary from display names to identifiers for the first `k`
/// skills.
pub open spec fn skill_dict(skills: Seq<(Seq<char>, Skill)>, k: int) -> Map<Seq<char>, Seq<char>>
    decreases k,
{
    if k <= 0 {
        Map::empty()
    } else {
        names_into(
            skill_dict(skills, k - 1),
            skills[k - 1].1.names.entries(),
            skills[k - 1].1.id@,
            skills[k - 1].1.names.entries().len() as int,
        )
    }
}

/// The positions, among the first `k` pieces, of the pieces of `part`.
pub open spec fn part_indices(armors: Seq<(Seq<char>, BaseArmor)>, part: ArmorPart, k: int) -> Seq<
    int,
>
    decreases k,
{
    if k <= 0 {
        Seq::empty()
    } else if armors[k - 1].1.part == part {
        part_indices(armors, part, k - 1).push(k - 1)
    } else {
        part_indices(armors, part, k - 1)
    }
}

/// The piece has at least three socket sizes, from which its socket-only
/// piece is named.
pub open spec fn has_signature(a: BaseArmor) -> bool {
    a.slots@.len() >= 3
}

/// The identifier of the socket-only piece of a piece.
pub open spec fn signature(a: BaseArmor) -> Seq<char> {
    slot_id_text(a.slots@[0] as int, a.slots@[1] as int, a.slots@[2] as int)
}

/// The positions, among the first `k` pieces, of the pieces of `part` whose
/// socket-only piece is named `sid`.
pub open spec fn slot_indices(
    armors: Seq<(Seq<char>, BaseArmor)>,
    part: ArmorPart,
    sid: Seq<char>,
    k: int,
) -> Seq<int>
    decreases k,
{
    if k <= 0 {
        Seq::empty()
    } else {
        let a = armors[k - 1].1;
        if a.part == part && has_signature(a) && signature(a) == sid {
            slot_indices(armors, part, sid, k - 1).push(k - 1)
        } else {
            slot_indices(armors, part, sid, k - 1)
        }
    }
}

/// `list` holds copies of the pieces at the positions `idx`, in this order.
pub open spec fn lists_armors(
    list: Seq<BaseArmor>,
    armors: Seq<(Seq<char>, BaseArmor)>,
    idx: Seq<int>,
) -> bool {
    &&& list.len() == idx.len()
    &&& forall|a: int| 0 <= a < list.len() ==> (#[trigger] list[a]).same(&armors[idx[a]].1)
}

/// `a` is the socket-only piece of `part` that `sid` names: no skills, no
/// names, and the socket sizes that `sid` spells.
pub open spec fn is_slot_piece(a: BaseArmor, part: ArmorPart, sid: Seq<char>) -> bool {
    &&& a.id@ == sid
    &&& a.part == part
    &&& a.sex_type == SexType::All
    &&& a.skills.entries().len() == 0
    &&& a.names.entries().len() == 0
    &&& forall|x: Seq<char>, y: Seq<char>, z: Seq<char>| #[trigger]
        is_slot_id(sid, x, y, z) ==> a.slots@ == slot_numbers(x, y, z)
}

/// The socket-only piece of a piece with three socket sizes, none of them
/// negative, has these socket sizes.
pub proof fn lemma_slot_piece_slots(a: BaseArmor, piece: BaseArmor, part: ArmorPart)
    requires
        a.slots@.len() == 3,
        0 <= a.slots@[0],
        0 <= a.slots@[1],
        0 <= a.slots@[2],
        is_slot_piece(piece, part, signature(a)),
    ensures
        piece.slots@ == a.slots@,
{
    lemma_slot_id_round_trip(a.slots@[0] as int, a.slots@[1] as int, a.slots@[2] as int);
    let x = decimal(a.slots@[0] as int);
    let y = decimal(a.slots@[1] as int);
    let z = decimal(a.slots@[2] as int);
    assert(is_slot_id(signature(a), x, y, z));
    assert(piece.slots@ =~= a.slots@);
}

/// Enters the display names `names` for the identifier `id` into `dict`.
pub fn add_names(dict: &mut StrMap<String>, names: &StrMap<String>, id: &String)
    ensures
        text_map(final(dict)@) == names_into(
            text_map(old(dict)@),
            names.entries(),
            id@,
            names.entries().len() as int,
        ),
{
    let n = names.len();
    let mut j: usize = 0;
    while j < n
        invariant
            j <= n,
            n == names.entries().len(),
            text_map(dict@) == names_into(text_map(old(dict)@), names.entries(), id@, j as int),
        decreases n - j,
    {
        let name = names.value_at(j);
        let ghost before = dict@;
        dict.insert(name.clone(), id.clone());
        assert(text_map(dict@) =~= text_map(before).insert(name@, id@));
        j += 1;
    }
}

/// The tables of one body part: its pieces, the socket-only piece of each
/// socket signature among them, and its pieces by socket signature.
pub fn part_tables(armors: &StrMap<BaseArmor>, part: ArmorPart) -> (r: (
    Vec<BaseArmor>,
    StrMap<BaseArmor>,
    StrMap<Vec<BaseArmor>>,
))
    ensures
        lists_armors(
            r.0@,
            armors.entries(),
            part_indices(armors.entries(), part, armors.entries().len() as int),
        ),
        forall|sid: Seq<char>|
            #![trigger r.1@.contains_key(sid)]
            #![trigger r.2@.contains_key(sid)]
            {
                let idx = slot_indices(armors.entries(), part, sid, armors.entries().len() as int);
                &&& r.1@.contains_key(sid) <==> idx.len() > 0
                &&& r.2@.contains_key(sid) <==> idx.len() > 0
                &&& r.1@.contains_key(sid) ==> is_slot_piece(r.1@[sid], part, sid)
                &&& r.2@.contains_key(sid) ==> lists_armors(r.2@[sid]@, armors.entries(), idx)
            },
{
    let ghost all = armors.entries();
    let mut bases: Vec<BaseArmor> = Vec::new();
    let mut slot_only: StrMap<BaseArmor> = StrMap::new();
    let mut by_slot: StrMap<Vec<BaseArmor>> = StrMap::new();
    let n = armors.len();
    let mut i: usize = 0;
    while i < n
        invariant
            i <= n,
            n == all.len(),
            all == armors.entries(),
            lists_armors(bases@, all, part_indices(all, part, i as int)),
            forall|sid: Seq<char>|
                #![trigger slot_only@.contains_key(sid)]
                #![trigger by_slot@.contains_key(sid)]
                {
                    let idx = slot_indices(all, part, sid, i as int);
                    &&& slot_only@.contains_key(sid) <==> idx.len() > 0
                    &&& by_slot@.contains_key(sid) <==> idx.len() > 0
                    &&& slot_only@.contains_key(sid) ==> is_slot_piece(slot_only@[sid], part, sid)
                    &&& by_slot@.contains_key(sid) ==> lists_armors(by_slot@[sid]@, all, idx)
                },
        decreases n - i,
    {
        let armor = armors.value_at(i);
        if armor.part == part {
            let ghost before_bases = bases@;
            bases.push(armor.clone());
            proof {
                let idx = part_indices(all, part, i + 1);
                assert forall|a: int| 0 <= a < bases@.len() implies (#[trigger] bases@[a]).same(
                    &all[idx[a]].1,
                ) by {
                    if a < before_bases.len() {
                        assert(bases@[a] == before_bases[a]);
                    }
                }
            }
            if armor.slots.len() >= 3 {
                let slot_armor_id = BaseArmor::get_slot_armor_id(&armor.slots);
                let ghost sid0 = slot_armor_id@;
                assert(sid0 == signature(*armor));
                let ghost before_only = slot_only@;
                let ghost before_by = by_slot@;
                if !slot_only.contains_key(&slot_armor_id) {
                    let piece = BaseArmor::get_slot_armor(part, slot_armor_id.clone());
                    slot_only.insert(slot_armor_id.clone(), piece);
                }
                match by_slot.index_of(&slot_armor_id) {
                    Some(at) => {
                        let mut held = by_slot.swap_value_at(at, Vec::new());
                        let ghost before_held = held@;
                        held.push(armor.clone());
                        proof {
                            let idx = slot_indices(all, part, sid0, i + 1);
                            assert forall|a: int| 0 <= a < held@.len() implies (
                            #[trigger] held@[a]).same(&all[idx[a]].1) by {
                                if a < before_held.len() {
                                    assert(held@[a] == before_held[a]);
                                }
                            }
                        }
                        let _ = by_slot.swap_value_at(at, held);
                        assert(by_slot@ =~= before_by.insert(sid0, held));
                    },
                    None => {
                        let mut list: Vec<BaseArmor> = Vec::new();
                        list.push(armor.clone());
                        by_slot.insert(slot_armor_id, list);
                    },
                }
            }
        }
        i += 1;
    }
    (bases, slot_only, by_slot)
}

/// The table of socket costs was built from the decorations listed by
/// skill: entry by entry it holds, for the skill of the entry, what the
/// table is to hold for the decorations of the skill.
pub open spec fn table_built(dm: &DataManager) -> bool {
    &&& distinct_keys(dm.deco_combinations.table())
    &&& distinct_keys(dm.decos_by_skill.entries())
    &&& dm.deco_combinations.table().len() == dm.decos_by_skill.entries().len()
    &&& forall|i: int|
        0 <= i < dm.deco_combinations.table().len() ==> {
            let t = #[trigger] dm.deco_combinations.table()[i];
            let d = dm.decos_by_skill.entries()[i];
            &&& t.0 == d.0
            &&& decos_valid(d.1@)
            &&& sizes_rise(d.1@)
            &&& dm.skills@.contains_key(t.0)
            &&& dm.skills@[t.0].max_level <= MAX_LEVEL_LIMIT
            &&& levels_ok(d.1@, dm.skills@[t.0].max_level as int, t.1@)
        }
}

/// The body part at position `i`.
pub open spec fn body_part(i: int) -> ArmorPart {
    if i == 0 {
        ArmorPart::Helm
    } else if i == 1 {
        ArmorPart::Torso
    } else if i == 2 {
        ArmorPart::Arm
    } else if i == 3 {
        ArmorPart::Waist
    } else {
        ArmorPart::Feet
    }
}

/// The identifier of the augmented piece at position `index` of its list,
/// made from the piece `original`: `__anomaly_<index>_<original>`.
pub open spec fn anomaly_id_text(index: int, original: Seq<char>) -> Seq<char> {
    "__anomaly"@ + seq!['_'] + decimal(index) + seq!['_'] + original
}

/// The positions, among the first `k` augmented pieces, of those made from a
/// piece of `part`.
pub open spec fn anomaly_indices(anomalies: Seq<AnomalyArmor>, part: ArmorPart, k: int) -> Seq<int>
    decreases k,
{
    if k <= 0 {
        Seq::empty()
    } else if anomalies[k - 1].original.part == part {
        anomaly_indices(anomalies, part, k - 1).push(k - 1)
    } else {
        anomaly_indices(anomalies, part, k - 1)
    }
}

/// `piece` is what the piece `affected` is once it is named as the
/// augmented piece at position `index` made from `original`.
pub open spec fn named_anomaly(piece: BaseArmor, affected: BaseArmor, index: int, original: Seq<char>) -> bool {
    &&& piece.id@ == anomaly_id_text(index, original)
    &&& piece.part == affected.part
    &&& piece.sex_type == affected.sex_type
    &&& piece.names.entries() == affected.names.entries()
    &&& piece.rarity == affected.rarity
    &&& piece.stat == affected.stat
    &&& piece.skills.entries() == affected.skills.entries()
    &&& piece.slots@ == affected.slots@
}

/// The charm has at least three socket sizes, from which its socket-only
/// charm is named.
pub open spec fn tali_has_signature(t: Talisman) -> bool {
    t.slot_sizes@.len() >= 3
}

/// The identifier of the socket-only charm of a charm.
pub open spec fn tali_signature(t: Talisman) -> Seq<char> {
    slot_id_text(t.slot_sizes@[0] as int, t.slot_sizes@[1] as int, t.slot_sizes@[2] as int)
}

/// The positions, among the first `k` charms, of the charms whose
/// socket-only charm is named `sid`.
pub open spec fn tali_indices(talismans: Seq<Talisman>, sid: Seq<char>, k: int) -> Seq<int>
    decreases k,
{
    if k <= 0 {
        Seq::empty()
    } else if tali_has_signature(talismans[k - 1]) && tali_signature(talismans[k - 1]) == sid {
        tali_indices(talismans, sid, k - 1).push(k - 1)
    } else {
        tali_indices(talismans, sid, k - 1)
    }
}

/// `a` is a copy of the charm `b`.
pub open spec fn same_talisman(a: Talisman, b: Talisman) -> bool {
    &&& a.id@ == b.id@
    &&& a.slot_sizes@ == b.slot_sizes@
    &&& a.skills@.len() == b.skills@.len()
    &&& forall|i: int|
        0 <= i < a.skills@.len() ==> (#[trigger] a.skills@[i]).id@ == b.skills@[i].id@
            && a.skills@[i].level == b.skills@[i].level
}

/// `list` holds copies of the charms at the positions `idx`, in this order.
pub open spec fn lists_talismans(list: Seq<Talisman>, talismans: Seq<Talisman>, idx: Seq<int>) -> bool {
    &&& list.len() == idx.len()
    &&& forall|a: int| 0 <= a < list.len() ==> same_talisman(#[trigger] list[a], talismans[idx[a]])
}

/// `t` is the socket-only charm that `sid` names.
pub open spec fn is_slot_talisman(t: Talisman, sid: Seq<char>) -> bool {
    &&& t.id@ == sid
    &&& t.skills@.len() == 0
    &&& forall|x: Seq<char>, y: Seq<char>, z: Seq<char>| #[trigger]
        is_slot_id(sid, x, y, z) ==> t.slot_sizes@ == slot_numbers(x, y, z)
}

impl DataManager {
    /// The catalog of the pieces `armors`, the skills `skills` and the
    /// decorations `decos`, with its tables: the dictionaries from display
    /// names to identifiers, the usable decorations of each skill in the
    /// order of their socket sizes, the socket costs built from them, and
    /// for each body part its pieces, its empty placeholder, and its
    /// socket-only pieces with the pieces that each stands for. It has no
    /// augmented pieces and no charms yet.
    pub fn new(armors: StrMap<BaseArmor>, skills: StrMap<Skill>, decos: StrMap<Decoration>) -> (r:
        Self)
        ensures
            r.wf(),
            table_built(&r),
            r.armors == armors,
            r.skills == skills,
            r.decos == decos,
            text_map(r.armor_name_dict@) == armor_dict(
                armors.entries(),
                armors.entries().len() as int,
            ),
            text_map(r.skill_name_dict@) == skill_dict(
                skills.entries(),
                skills.entries().len() as int,
            ),
            forall|skill: Seq<char>|
                #![trigger r.decos_by_skill@.contains_key(skill)]
                {
                    let g = grouped(decos.entries(), skills@, skill, decos.entries().len() as int);
                    &&& r.decos_by_skill@.contains_key(skill) <==> g.len() > 0
                    &&& r.decos_by_skill@.contains_key(skill) ==> deco_keys(
                        r.decos_by_skill@[skill]@,
                    ) == g
                },
            r.deco_combinations.table().len() == r.decos_by_skill.entries().len(),
            forall|i: int|
                0 <= i < r.deco_combinations.table().len() ==> (
                #[trigger] r.deco_combinations.table()[i]).0 == r.decos_by_skill.entries()[i].0
                    && levels_ok(
                    r.decos_by_skill.entries()[i].1@,
                    skills@[r.deco_combinations.table()[i].0].max_level as int,
                    r.deco_combinations.table()[i].1@,
                ),
            forall|p: int|
                0 <= p < BODY_PARTS ==> lists_armors(
                    (#[trigger] r.bases_by_part@[p])@,
                    armors.entries(),
                    part_indices(armors.entries(), body_part(p), armors.entries().len() as int),
                ),
            forall|p: int, sid: Seq<char>|
                #![trigger r.slot_only_armors@[p]@.contains_key(sid)]
                #![trigger r.armors_by_slot@[p]@.contains_key(sid)]
                0 <= p < BODY_PARTS ==> {
                    let idx = slot_indices(
                        armors.entries(),
                        body_part(p),
                        sid,
                        armors.entries().len() as int,
                    );
                    &&& r.slot_only_armors@[p]@.contains_key(sid) <==> idx.len() > 0
                    &&& r.armors_by_slot@[p]@.contains_key(sid) <==> idx.len() > 0
                    &&& r.slot_only_armors@[p]@.contains_key(sid) ==> is_slot_piece(
                        r.slot_only_armors@[p]@[sid],
                        body_part(p),
                        sid,
                    )
                    &&& r.armors_by_slot@[p]@.contains_key(sid) ==> lists_armors(
                        r.armors_by_slot@[p]@[sid]@,
                        armors.entries(),
                        idx,
                    )
                },
            forall|p: int|
                0 <= p < BODY_PARTS ==> (#[trigger] r.empty_armors@[p]).id@ == "__empty"@
                    + seq!['_'] + crate::data::armor::part_name(body_part(p))
                    && r.empty_armors@[p].part == body_part(p)
                    && r.empty_armors@[p].sex_type == SexType::All
                    && r.empty_armors@[p].skills.entries().len() == 0
                    && r.empty_armors@[p].slots@ == seq![0i32, 0i32, 0i32],
            forall|p: int| 0 <= p < BODY_PARTS ==> (#[trigger] r.anomalies_by_part@[p])@.len() == 0,
            r.anomaly_armors.entries().len() == 0,
            r.talismans@.len() == 0,
            r.slot_only_talismans.entries().len() == 0,
            r.talismans_by_slot.entries().len() == 0,
            r.empty_talisman.id@ == "__empty"@ + seq!['_'] + crate::data::armor::part_name(
                ArmorPart::Talisman,
            ),
            r.empty_talisman.skills@.len() == 0,
            r.empty_talisman.slot_sizes@ == seq![0i32, 0i32, 0i32],
    {
        let mut armor_name_dict: StrMap<String> = StrMap::new();
        let mut skill_name_dict: StrMap<String> = StrMap::new();
        let ghost all = armors.entries();
        let ghost all_skills = skills.entries();
        assert(text_map(armor_name_dict@) =~= armor_dict(all, 0));
        assert(text_map(skill_name_dict@) =~= skill_dict(all_skills, 0));
        let n = armors.len();
        let mut i: usize = 0;
        while i < n
            invariant
                i <= n,
                n == all.len(),
                all == armors.entries(),
                text_map(armor_name_dict@) == armor_dict(all, i as int),
            decreases n - i,
        {
            let armor = armors.value_at(i);
            add_names(&mut armor_name_dict, &armor.names, armor.id());
            i += 1;
        }
        let m = skills.len();
        let mut j: usize = 0;
        while j < m
            invariant
                j <= m,
                m == all_skills.len(),
                all_skills == skills.entries(),
                text_map(skill_name_dict@) == skill_dict(all_skills, j as int),
            decreases m - j,
        {
            let skill = skills.value_at(j);
            add_names(&mut skill_name_dict, &skill.names, &skill.id);
            j += 1;
        }
        let decos_by_skill = group_decos(&decos, &skills);
        let deco_combinations = DecorationCombinations::new(&decos_by_skill, &skills);
        proof {
            use_type_invariant(&decos_by_skill);
            let t = deco_combinations.table();
            let d = decos_by_skill.entries();
            assert forall|i: int| 0 <= i < t.len() implies {
                let x = #[trigger] t[i];
                let y = d[i];
                &&& x.0 == y.0
                &&& decos_valid(y.1@)
                &&& sizes_rise(y.1@)
                &&& skills@.contains_key(x.0)
                &&& skills@[x.0].max_level <= MAX_LEVEL_LIMIT
                &&& levels_ok(y.1@, skills@[x.0].max_level as int, x.1@)
            } by {
                assert(t[i].0 == d[i].0);
                let e = d[i];
                assert(skills@.contains_key(e.0) && decos_valid(e.1@) && sizes_rise(e.1@));
            }
        }
        let parts = ArmorPart::get_all();
        let mut slot_only_armors: Vec<StrMap<BaseArmor>> = Vec::new();
        let mut armors_by_slot: Vec<StrMap<Vec<BaseArmor>>> = Vec::new();
        let mut empty_armors: Vec<BaseArmor> = Vec::new();
        let mut bases_by_part: Vec<Vec<BaseArmor>> = Vec::new();
        let mut anomalies_by_part: Vec<Vec<BaseArmor>> = Vec::new();
        let mut p: usize = 0;
        while p < BODY_PARTS
            invariant
                p <= BODY_PARTS,
                parts@.len() == BODY_PARTS,
                forall|q: int| 0 <= q < BODY_PARTS ==> #[trigger] parts@[q] == body_part(q),
                all == armors.entries(),
                slot_only_armors@.len() == p,
                armors_by_slot@.len() == p,
                empty_armors@.len() == p,
                bases_by_part@.len() == p,
                anomalies_by_part@.len() == p,
                forall|q: int|
                    0 <= q < p ==> lists_armors(
                        (#[trigger] bases_by_part@[q])@,
                        all,
                        part_indices(all, body_part(q), all.len() as int),
                    ),
                forall|q: int, sid: Seq<char>|
                    #![trigger slot_only_armors@[q]@.contains_key(sid)]
                    #![trigger armors_by_slot@[q]@.contains_key(sid)]
                    0 <= q < p ==> {
                        let idx = slot_indices(all, body_part(q), sid, all.len() as int);
                        &&& slot_only_armors@[q]@.contains_key(sid) <==> idx.len() > 0
                        &&& armors_by_slot@[q]@.contains_key(sid) <==> idx.len() > 0
                        &&& slot_only_armors@[q]@.contains_key(sid) ==> is_slot_piece(
                            slot_only_armors@[q]@[sid],
                            body_part(q),
                            sid,
                        )
                        &&& armors_by_slot@[q]@.contains_key(sid) ==> lists_armors(
                            armors_by_slot@[q]@[sid]@,
                            all,
                            idx,
                        )
                    },
                forall|q: int|
                    0 <= q < p ==> (#[trigger] empty_armors@[q]).id@ == "__empty"@ + seq!['_']
                        + crate::data::armor::part_name(body_part(q)) && empty_armors@[q].part
                        == body_part(q) && empty_armors@[q].sex_type == SexType::All
                        && empty_armors@[q].skills.entries().len() == 0
                        && empty_armors@[q].slots@ == seq![0i32, 0i32, 0i32],
                forall|q: int| 0 <= q < p ==> (#[trigger] anomalies_by_part@[q])@.len() == 0,
            decreases BODY_PARTS - p,
        {
            let part = parts[p];
            assert(part == body_part(p as int));
            let (bases, slot_only, by_slot) = part_tables(&armors, part);
            bases_by_part.push(bases);
            slot_only_armors.push(slot_only);
            armors_by_slot.push(by_slot);
            empty_armors.push(BaseArmor::create_empty(part));
            anomalies_by_part.push(Vec::new());
            p += 1;
        }
        DataManager {
            armors,
            skills,
            decos,
            decos_by_skill,
            deco_combinations,
            slot_only_armors,
            armors_by_slot,
            empty_armors,
            armor_name_dict,
            skill_name_dict,
            bases_by_part,
            anomalies_by_part,
            empty_talisman: Talisman::create_empty(),
            anomaly_armors: StrMap::new(),
            talismans: Vec::new(),
            slot_only_talismans: StrMap::new(),
            talismans_by_slot: StrMap::new(),
        }
    }

    /// Replaces the augmented pieces by `anomalies`. The piece at position
    /// `index` is named `__anomaly_<index>_<identifier of its original>`; it
    /// is kept under this name and listed with the pieces of its original's
    /// part.
    pub fn set_anomalies(&mut self, anomalies: Vec<AnomalyArmor>)
        requires
            old(self).wf(),
        ensures
            final(self).wf(),
            forall|k: int|
                0 <= k < anomalies@.len() ==> final(self).anomaly_armors@.contains_key(
                    #[trigger] anomaly_id_text(k, anomalies@[k].original.id@),
                ),
            forall|id: Seq<char>| #[trigger]
                final(self).anomaly_armors@.contains_key(id) ==> exists|k: int|
                    0 <= k < anomalies@.len() && id == anomaly_id_text(
                        k,
                        anomalies@[k].original.id@,
                    ) && named_anomaly(
                        final(self).anomaly_armors@[id].affected,
                        anomalies@[k].affected,
                        k,
                        anomalies@[k].original.id@,
                    ) && final(self).anomaly_armors@[id].original.same(&anomalies@[k].original),
            forall|p: int|
                0 <= p < BODY_PARTS ==> {
                    let idx = anomaly_indices(anomalies@, body_part(p), anomalies@.len() as int);
                    let list = (#[trigger] final(self).anomalies_by_part@[p])@;
                    &&& list.len() == idx.len()
                    &&& forall|a: int|
                        0 <= a < list.len() ==> named_anomaly(
                            #[trigger] list[a],
                            anomalies@[idx[a]].affected,
                            idx[a],
                            anomalies@[idx[a]].original.id@,
                        )
                },
            final(self).armors == old(self).armors,
            final(self).skills == old(self).skills,
            final(self).decos == old(self).decos,
            final(self).decos_by_skill == old(self).decos_by_skill,
            final(self).deco_combinations == old(self).deco_combinations,
            final(self).bases_by_part == old(self).bases_by_part,
            final(self).slot_only_armors == old(self).slot_only_armors,
            final(self).armors_by_slot == old(self).armors_by_slot,
            final(self).empty_armors == old(self).empty_armors,
            final(self).talismans == old(self).talismans,
            final(self).slot_only_talismans == old(self).slot_only_talismans,
            final(self).talismans_by_slot == old(self).talismans_by_slot,
            final(self).empty_talisman == old(self).empty_talisman,
            final(self).armor_name_dict == old(self).armor_name_dict,
            final(self).skill_name_dict == old(self).skill_name_dict,
    {
        let mut anomaly_armors: StrMap<AnomalyArmor> = StrMap::new();
        let mut by_part: Vec<Vec<BaseArmor>> = Vec::new();
        let parts = ArmorPart::get_all();
        let mut p: usize = 0;
        while p < BODY_PARTS
            invariant
                p <= BODY_PARTS,
                parts@.len() == BODY_PARTS,
                forall|q: int| 0 <= q < BODY_PARTS ==> #[trigger] parts@[q] == body_part(q),
                by_part@.len() == p,
                forall|q: int|
                    0 <= q < p ==> {
                        let idx = anomaly_indices(
                            anomalies@,
                            body_part(q),
                            anomalies@.len() as int,
                        );
                        let list = (#[trigger] by_part@[q])@;
                        &&& list.len() == idx.len()
                        &&& forall|a: int|
                            0 <= a < list.len() ==> named_anomaly(
                                #[trigger] list[a],
                                anomalies@[idx[a]].affected,
                                idx[a],
                                anomalies@[idx[a]].original.id@,
                            )
                    },
            decreases BODY_PARTS - p,
        {
            let part = parts[p];
            assert(part == body_part(p as int));
            let mut list: Vec<BaseArmor> = Vec::new();
            let mut k: usize = 0;
            while k < anomalies.len()
                invariant
                    k <= anomalies@.len(),
                    list@.len() == anomaly_indices(anomalies@, part, k as int).len(),
                    forall|a: int|
                        0 <= a < list@.len() ==> named_anomaly(
                            #[trigger] list@[a],
                            anomalies@[anomaly_indices(anomalies@, part, k as int)[a]].affected,
                            anomaly_indices(anomalies@, part, k as int)[a],
                            anomalies@[anomaly_indices(anomalies@, part, k as int)[a]].original.id@,
                        ),
                decreases anomalies.len() - k,
            {
                if anomalies[k].original.part == part {
                    let ghost before = list@;
                    let piece = name_anomaly(&anomalies[k].affected, k, anomalies[k].original.id());
                    list.push(piece);
                    proof {
                        let idx = anomaly_indices(anomalies@, part, k + 1);
                        assert forall|a: int| 0 <= a < list@.len() implies named_anomaly(
                            #[trigger] list@[a],
                            anomalies@[idx[a]].affected,
                            idx[a],
                            anomalies@[idx[a]].original.id@,
                        ) by {
                            if a < before.len() {
                                assert(list@[a] == before[a]);
                            }
                        }
                    }
                }
                k += 1;
            }
            by_part.push(list);
            p += 1;
        }
        let n = anomalies.len();
        let mut k: usize = 0;
        while k < n
            invariant
                k <= n,
                n == anomalies@.len(),
                forall|i: int|
                    0 <= i < k ==> anomaly_armors@.contains_key(
                        #[trigger] anomaly_id_text(i, anomalies@[i].original.id@),
                    ),
                forall|id: Seq<char>| #[trigger]
                    anomaly_armors@.contains_key(id) ==> exists|i: int|
                        0 <= i < k && id == anomaly_id_text(i, anomalies@[i].original.id@)
                            && named_anomaly(
                            anomaly_armors@[id].affected,
                            anomalies@[i].affected,
                            i,
                            anomalies@[i].original.id@,
                        ) && anomaly_armors@[id].original.same(&anomalies@[i].original),
            decreases n - k,
        {
            let source = &anomalies[k];
            let affected = name_anomaly(&source.affected, k, source.original.id());
            let key = affected.id.clone();
            let ghost before = anomaly_armors@;
            let entry = AnomalyArmor {
                original: source.original.clone(),
                affected,
                stat_diff: source.stat_diff,
                slot_diffs: crate::slots::copy_slots(&source.slot_diffs),
                skill_diffs: source.skill_diffs.duplicate(),
            };
            anomaly_armors.insert(key, entry);
            proof {
                let new_id = anomaly_id_text(k as int, anomalies@[k as int].original.id@);
                assert(anomaly_armors@ == before.insert(new_id, entry));
                assert forall|i: int| 0 <= i < k + 1 implies anomaly_armors@.contains_key(
                    #[trigger] anomaly_id_text(i, anomalies@[i].original.id@),
                ) by {
                    if i < k {
                        assert(before.contains_key(anomaly_id_text(i, anomalies@[i].original.id@)));
                    }
                }
                assert forall|id: Seq<char>| #[trigger]
                    anomaly_armors@.contains_key(id) implies exists|i: int|
                    0 <= i < k + 1 && id == anomaly_id_text(i, anomalies@[i].original.id@)
                        && named_anomaly(
                        anomaly_armors@[id].affected,
                        anomalies@[i].affected,
                        i,
                        anomalies@[i].original.id@,
                    ) && anomaly_armors@[id].original.same(&anomalies@[i].original) by {
                    if id == new_id {
                        assert(named_anomaly(
                            anomaly_armors@[id].affected,
                            anomalies@[k as int].affected,
                            k as int,
                            anomalies@[k as int].original.id@,
                        ));
                    } else {
                        assert(before.contains_key(id));
                        let i = choose|i: int|
                            0 <= i < k && id == anomaly_id_text(i, anomalies@[i].original.id@)
                                && named_anomaly(
                                before[id].affected,
                                anomalies@[i].affected,
                                i,
                                anomalies@[i].original.id@,
                            ) && before[id].original.same(&anomalies@[i].original);
                        assert(0 <= i < k + 1);
                    }
                }
            }
            k += 1;
        }
        self.anomaly_armors = anomaly_armors;
        self.anomalies_by_part = by_part;
    }

    /// Replaces the charms by `talismans`, and builds for each socket
    /// signature among them the socket-only charm and the list of the charms
    /// that it stands for.
    pub fn set_talismans(&mut self, talismans: Vec<Talisman>)
        ensures
            final(self).talismans == talismans,
            forall|sid: Seq<char>|
                #![trigger final(self).slot_only_talismans@.contains_key(sid)]
                #![trigger final(self).talismans_by_slot@.contains_key(sid)]
                {
                    let idx = tali_indices(talismans@, sid, talismans@.len() as int);
                    &&& final(self).slot_only_talismans@.contains_key(sid) <==> idx.len() > 0
                    &&& final(self).talismans_by_slot@.contains_key(sid) <==> idx.len() > 0
                    &&& final(self).slot_only_talismans@.contains_key(sid) ==> is_slot_talisman(
                        final(self).slot_only_talismans@[sid],
                        sid,
                    )
                    &&& final(self).talismans_by_slot@.contains_key(sid) ==> lists_talismans(
                        final(self).talismans_by_slot@[sid]@,
                        talismans@,
                        idx,
                    )
                },
            final(self).armors == old(self).armors,
            final(self).skills == old(self).skills,
            final(self).decos == old(self).decos,
            final(self).decos_by_skill == old(self).decos_by_skill,
            final(self).deco_combinations == old(self).deco_combinations,
            final(self).bases_by_part == old(self).bases_by_part,
            final(self).anomalies_by_part == old(self).anomalies_by_part,
            final(self).anomaly_armors == old(self).anomaly_armors,
            final(self).slot_only_armors == old(self).slot_only_armors,
            final(self).armors_by_slot == old(self).armors_by_slot,
            final(self).empty_armors == old(self).empty_armors,
            final(self).empty_talisman == old(self).empty_talisman,
            final(self).armor_name_dict == old(self).armor_name_dict,
            final(self).skill_name_dict == old(self).skill_name_dict,
    {
        let mut slot_only: StrMap<Talisman> = StrMap::new();
        let mut by_slot: StrMap<Vec<Talisman>> = StrMap::new();
        let ghost all = talismans@;
        let n = talismans.len();
        let mut i: usize = 0;
        while i < n
            invariant
                i <= n,
                n == all.len(),
                all == talismans@,
                forall|sid: Seq<char>|
                    #![trigger slot_only@.contains_key(sid)]
                    #![trigger by_slot@.contains_key(sid)]
                    {
                        let idx = tali_indices(all, sid, i as int);
                        &&& slot_only@.contains_key(sid) <==> idx.len() > 0
                        &&& by_slot@.contains_key(sid) <==> idx.len() > 0
                        &&& slot_only@.contains_key(sid) ==> is_slot_talisman(slot_only@[sid], sid)
                        &&& by_slot@.contains_key(sid) ==> lists_talismans(by_slot@[sid]@, all, idx)
                    },
            decreases n - i,
        {
            let tali = &talismans[i];
            if tali.slot_sizes.len() >= 3 {
                let slot_tali_id = BaseArmor::get_slot_armor_id(&tali.slot_sizes);
                let ghost sid0 = slot_tali_id@;
                assert(sid0 == tali_signature(*tali));
                let ghost before_by = by_slot@;
                if !slot_only.contains_key(&slot_tali_id) {
                    let slot_talisman = Talisman::get_slot_talisman(slot_tali_id.clone());
                    slot_only.insert(slot_tali_id.clone(), slot_talisman);
                }
                match by_slot.index_of(&slot_tali_id) {
                    Some(at) => {
                        let mut held = by_slot.swap_value_at(at, Vec::new());
                        let ghost before_held = held@;
                        held.push(tali.clone());
                        proof {
                            let idx = tali_indices(all, sid0, i + 1);
                            assert forall|a: int| 0 <= a < held@.len() implies same_talisman(
                                #[trigger] held@[a],
                                all[idx[a]],
                            ) by {
                                if a < before_held.len() {
                                    assert(held@[a] == before_held[a]);
                                }
                            }
                        }
                        let _ = by_slot.swap_value_at(at, held);
                        assert(by_slot@ =~= before_by.insert(sid0, held));
                    },
                    None => {
                        let mut list: Vec<Talisman> = Vec::new();
                        list.push(tali.clone());
                        by_slot.insert(slot_tali_id, list);
                    },
                }
            }
            i += 1;
        }
        self.talismans = talismans;
        self.slot_only_talismans = slot_only;
        self.talismans_by_slot = by_slot;
    }
}

/// The piece `affected` under the name of the augmented piece at position
/// `index` made from the piece `original`.
pub fn name_anomaly(affected: &BaseArmor, index: usize, original: &String) -> (piece: BaseArmor)
    ensures
        named_anomaly(piece, *affected, index as int, original@),
{
    proof {
        reveal_strlit("_");
    }
    let mut id = String::from_str(ANOMALY_ARMOR_PREFIX);
    id.append("_");
    push_decimal_nat(&mut id, index as u64);
    id.append("_");
    id.append(original.as_str());
    assert("_"@ =~= seq!['_']);
    let mut piece = affected.clone();
    piece.id = id;
    piece
}

} // verus!
