//! What the search asks of a piece, body piece or charm alike.

use crate::calc::deco::{CalcDeco, slot_point};
use crate::calc::skill::NO_DECO_WEIGHT;
use crate::data::armor::ArmorPart;
use crate::data::deco::Decoration;
use crate::slots::{is_slots, slots_le};
use crate::str_map::{
    StrMap, distinct_keys, entries_map, key_index, lemma_entry_in_map, lemma_map_take,
};
use vstd::prelude::*;

verus! {

/// No level of the map is negative.
pub open spec fn map_nonneg(m: Map<Seq<char>, i32>) -> bool {
    forall|k: Seq<char>| m.contains_key(k) ==> 0 <= #[trigger] m[k]
}

/// What is left of the levels `req` once the levels `got` are taken off:
/// a skill that `got` covers is gone, the others keep what `got` lacks.
pub open spec fn residual(req: Map<Seq<char>, i32>, got: Map<Seq<char>, i32>) -> Map<
    Seq<char>,
    i32,
> {
    Map::new(
        |k: Seq<char>| req.contains_key(k) && !(got.contains_key(k) && req[k] <= got[k]),
        |k: Seq<char>|
            if got.contains_key(k) {
                (req[k] - got[k]) as i32
            } else {
                req[k]
            },
    )
}

/// What the levels `got` take off the levels `req`: for each skill of both,
/// the smaller of the two levels.
pub open spec fn taken(req: Map<Seq<char>, i32>, got: Map<Seq<char>, i32>) -> Map<Seq<char>, i32> {
    Map::new(
        |k: Seq<char>| req.contains_key(k) && got.contains_key(k),
        |k: Seq<char>|
            if got[k] <= req[k] {
                got[k]
            } else {
                req[k]
            },
    )
}

/// What is left of the levels `own` once the skills that `seen` names were
/// set against the levels `req`.
pub open spec fn residual_on(
    own: Map<Seq<char>, i32>,
    req: Map<Seq<char>, i32>,
    seen: Map<Seq<char>, i32>,
) -> Map<Seq<char>, i32> {
    Map::new(
        |k: Seq<char>|
            own.contains_key(k) && !(seen.contains_key(k) && req.contains_key(k) && own[k]
                <= req[k]),
        |k: Seq<char>|
            if seen.contains_key(k) && req.contains_key(k) {
                (own[k] - req[k]) as i32
            } else {
                own[k]
            },
    )
}

/// A piece with the sockets `sa` and the skills `ma` is dominated by one
/// with the sockets `sb` and the skills `mb`: it has no more sockets of any
/// size, no skill that the other lacks, and no skill at a higher level.
pub open spec fn dominated(
    sa: Seq<i32>,
    ma: Map<Seq<char>, i32>,
    sb: Seq<i32>,
    mb: Map<Seq<char>, i32>,
) -> bool {
    &&& slots_le(sa, sb)
    &&& forall|k: Seq<char>| #[trigger] ma.contains_key(k) ==> mb.contains_key(k) && ma[k] <= mb[k]
}

/// The largest socket size among the first `k` decorations.
pub open spec fn max_slot_size(decos: Seq<Decoration>, k: int) -> int
    decreases k,
{
    if k <= 0 {
        0
    } else {
        let rest = max_slot_size(decos, k - 1);
        if decos[k - 1].slot_size > rest {
            decos[k - 1].slot_size as int
        } else {
            rest
        }
    }
}

/// The smaller of two levels.
pub open spec fn min_level(a: i32, b: i32) -> int {
    if a <= b {
        a as int
    } else {
        b as int
    }
}

/// What one skill of a piece scores against a requirement split into skills
/// with decorations (`yes`) and skills without (`no`): the levels that count
/// towards the requirement, times the largest socket size of the skill's
/// decorations or, without decorations, times `NO_DECO_WEIGHT`.
pub open spec fn skill_term(
    id: Seq<char>,
    level: i32,
    decos: Map<Seq<char>, Vec<Decoration>>,
    yes: Map<Seq<char>, i32>,
    no: Map<Seq<char>, i32>,
) -> int {
    if yes.contains_key(id) {
        min_level(level, yes[id]) * max_slot_size(decos[id]@, decos[id]@.len() as int)
    } else if no.contains_key(id) {
        min_level(level, no[id]) * NO_DECO_WEIGHT
    } else {
        0
    }
}

/// What the first `k` skills of a piece score.
pub open spec fn skills_point(
    skills: Seq<(Seq<char>, i32)>,
    k: int,
    decos: Map<Seq<char>, Vec<Decoration>>,
    yes: Map<Seq<char>, i32>,
    no: Map<Seq<char>, i32>,
) -> int
    decreases k,
{
    if k <= 0 {
        0
    } else {
        skills_point(skills, k - 1, decos, yes, no) + skill_term(
            skills[k - 1].0,
            skills[k - 1].1,
            decos,
            yes,
            no,
        )
    }
}

/// The score of a piece: what its skills score and what its sockets score.
pub open spec fn piece_point(
    skills: Seq<(Seq<char>, i32)>,
    slots: Seq<i32>,
    decos: Map<Seq<char>, Vec<Decoration>>,
    yes: Map<Seq<char>, i32>,
    no: Map<Seq<char>, i32>,
) -> int {
    skills_point(skills, skills.len() as int, decos, yes, no) + slot_point(slots)
}

/// Every skill of `skills` that `yes` asks for has decorations in `decos`.
pub open spec fn decos_cover(
    skills: Seq<(Seq<char>, i32)>,
    decos: Map<Seq<char>, Vec<Decoration>>,
    yes: Map<Seq<char>, i32>,
) -> bool {
    forall|i: int|
        0 <= i < skills.len() && yes.contains_key((#[trigger] skills[i]).0) ==> decos.contains_key(
            skills[i].0,
        ) && decos[skills[i].0]@.len() > 0
}

/// The largest socket size among `decos`.
pub fn largest_slot_size(decos: &Vec<Decoration>) -> (size: i32)
    ensures
        size == max_slot_size(decos@, decos@.len() as int),
{
    let mut size: i32 = 0;
    let mut i: usize = 0;
    while i < decos.len()
        invariant
            i <= decos@.len(),
            size == max_slot_size(decos@, i as int),
        decreases decos.len() - i,
    {
        if decos[i].slot_size > size {
            size = decos[i].slot_size;
        }
        i += 1;
    }
    size
}

/// A piece of equipment as the search sees it: an identifier, the part it is
/// worn on, the skills it grants and its socket vector.
pub trait CalcEquipment: Sized {
    /// The identifier of the piece.
    spec fn spec_id(&self) -> Seq<char>;

    /// The skills of the piece with their levels, in a fixed order.
    spec fn spec_skills(&self) -> Seq<(Seq<char>, i32)>;

    /// The socket vector of the piece.
    spec fn spec_slots(&self) -> Seq<i32>;

    /// The part on which the piece is worn.
    spec fn spec_part(&self) -> ArmorPart;

    fn id(&self) -> (r: &String)
        ensures
            r@ == self.spec_id(),
    ;

    fn skills(&self) -> (r: &StrMap<i32>)
        ensures
            r.entries() == self.spec_skills(),
            r.wf(),
            map_nonneg(r@),
    ;

    /// Replaces the skills of the piece.
    fn set_skills(&mut self, skills: StrMap<i32>)
        requires
            map_nonneg(skills@),
        ensures
            final(self).spec_skills() == skills.entries(),
            final(self).spec_slots() == old(self).spec_slots(),
            final(self).spec_id() == old(self).spec_id(),
            final(self).spec_part() == old(self).spec_part(),
    ;

    fn slots(&self) -> (r: &Vec<i32>)
        ensures
            r@ == self.spec_slots(),
            is_slots(r@),
    ;

    fn part(&self) -> (r: &ArmorPart)
        ensures
            *r == self.spec_part(),
    ;

    /// Whether this piece is dominated by `other`: it has no more sockets of
    /// any size, no skill that `other` lacks, and no skill at a higher level.
    fn is_le(&self, other: &Self) -> (b: bool)
        ensures
            b == dominated(
                self.spec_slots(),
                entries_map(self.spec_skills()),
                other.spec_slots(),
                entries_map(other.spec_skills()),
            ),
    {
        let self_slots = self.slots();
        let other_slots = other.slots();
        if !crate::slots::slots_le_exec(self_slots, other_slots) {
            return false;
        }
        let self_skills = self.skills();
        let other_skills = other.skills();
        let ghost mine = self_skills.entries();
        let n = self_skills.len();
        let mut i: usize = 0;
        while i < n
            invariant
                i <= n,
                n == mine.len(),
                mine == self_skills.entries(),
                mine == self.spec_skills(),
                other_skills.entries() == other.spec_skills(),
                distinct_keys(mine),
                forall|j: int|
                    0 <= j < i ==> other_skills@.contains_key((#[trigger] mine[j]).0) && mine[j].1
                        <= other_skills@[mine[j].0],
            decreases n - i,
        {
            let skill_id = self_skills.key_at(i);
            let level = *self_skills.value_at(i);
            match other_skills.get(skill_id) {
                None => {
                    proof {
                        lemma_entry_in_map(mine, i as int);
                        assert(entries_map(mine).contains_key(mine[i as int].0));
                    }
                    return false;
                },
                Some(other_level) => {
                    if level > *other_level {
                        proof {
                            lemma_entry_in_map(mine, i as int);
                            assert(entries_map(mine).contains_key(mine[i as int].0));
                        }
                        return false;
                    }
                },
            }
            i += 1;
        }
        proof {
            let ma = entries_map(mine);
            let mb = other_skills@;
            assert forall|k: Seq<char>| #[trigger] ma.contains_key(k) implies mb.contains_key(k)
                && ma[k] <= mb[k] by {
                let j = key_index(mine, k);
                lemma_entry_in_map(mine, j);
            }
        }
        true
    }

    /// The score of the piece in a wide integer, which always holds it.
    fn get_point_wide(
        &self,
        decos_possible: &StrMap<Vec<Decoration>>,
        yes_deco_skills: &StrMap<i32>,
        no_deco_skills: &StrMap<i32>,
    ) -> (point: i128)
        requires
            decos_cover(self.spec_skills(), decos_possible@, yes_deco_skills@),
        ensures
            point == piece_point(
                self.spec_skills(),
                self.spec_slots(),
                decos_possible@,
                yes_deco_skills@,
                no_deco_skills@,
            ),
    {
        let skills = self.skills();
        let ghost mine = skills.entries();
        let n = skills.len();
        let mut point: i128 = 0;
        let mut i: usize = 0;
        while i < n
            invariant
                i <= n,
                n == mine.len(),
                mine == skills.entries(),
                decos_cover(mine, decos_possible@, yes_deco_skills@),
                point == skills_point(
                    mine,
                    i as int,
                    decos_possible@,
                    yes_deco_skills@,
                    no_deco_skills@,
                ),
                -(i * 0x4000_0000_0000_0000) <= point <= i * 0x4000_0000_0000_0000,
            decreases n - i,
        {
            let id = skills.key_at(i);
            let level = *skills.value_at(i);
            let mut term: i128 = 0;
            match yes_deco_skills.get(id) {
                Some(req_level) => {
                    assert(decos_possible@.contains_key(mine[i as int].0));
                    match decos_possible.get(id) {
                        Some(decos) => {
                            let max_slot_size = largest_slot_size(decos) as i128;
                            let counted = (if level <= *req_level {
                                level
                            } else {
                                *req_level
                            }) as i128;
                            assert(-0x4000_0000_0000_0000 <= counted * max_slot_size
                                <= 0x4000_0000_0000_0000) by (nonlinear_arith)
                                requires
                                    -0x8000_0000 <= counted <= 0x7fff_ffff,
                                    -0x8000_0000 <= max_slot_size <= 0x7fff_ffff,
                            ;
                            term = counted * max_slot_size;
                        },
                        None => {},
                    }
                },
                None => {
                    match no_deco_skills.get(id) {
                        Some(req_level) => {
                            let counted = (if level <= *req_level {
                                level
                            } else {
                                *req_level
                            }) as i128;
                            assert(NO_DECO_WEIGHT == 1000);
                            term = counted * 1000;
                        },
                        None => {},
                    }
                },
            }
            assert(term == skill_term(
                mine[i as int].0,
                mine[i as int].1,
                decos_possible@,
                yes_deco_skills@,
                no_deco_skills@,
            ));
            point = point + term;
            i += 1;
        }
        point + CalcDeco::get_point_wide(self.slots()) as i128
    }

    /// The score of the piece against a requirement split into skills with
    /// decorations and skills without: for each of its skills the levels
    /// that count towards the requirement, times the largest socket size of
    /// the skill's decorations or, without decorations, times
    /// `NO_DECO_WEIGHT`; and the score of its sockets.
    fn get_point(
        &self,
        decos_possible: &StrMap<Vec<Decoration>>,
        yes_deco_skills: &StrMap<i32>,
        no_deco_skills: &StrMap<i32>,
    ) -> (point: i32)
        requires
            decos_cover(self.spec_skills(), decos_possible@, yes_deco_skills@),
            i32::MIN <= piece_point(
                self.spec_skills(),
                self.spec_slots(),
                decos_possible@,
                yes_deco_skills@,
                no_deco_skills@,
            ) <= i32::MAX,
        ensures
            point == piece_point(
                self.spec_skills(),
                self.spec_slots(),
                decos_possible@,
                yes_deco_skills@,
                no_deco_skills@,
            ),
    {
        self.get_point_wide(decos_possible, yes_deco_skills, no_deco_skills) as i32
    }

    /// Sets the piece's skills against the requirement: each skill of both
    /// gives the smaller of the two levels, which is taken off the piece and
    /// off the requirement; a skill that reaches zero leaves its map. Returns
    /// what was taken, by skill.
    fn subtract_skills(&mut self, req_skills: &mut StrMap<i32>) -> (diffs: StrMap<i32>)
        requires
            map_nonneg(old(req_skills)@),
        ensures
            final(req_skills)@ == residual(old(req_skills)@, entries_map(old(self).spec_skills())),
            entries_map(final(self).spec_skills()) == residual(
                entries_map(old(self).spec_skills()),
                old(req_skills)@,
            ),
            diffs@ == taken(old(req_skills)@, entries_map(old(self).spec_skills())),
            map_nonneg(final(req_skills)@),
            final(self).spec_slots() == old(self).spec_slots(),
            final(self).spec_id() == old(self).spec_id(),
            final(self).spec_part() == old(self).spec_part(),
    {
        let own = self.skills().duplicate();
        let mut mine = self.skills().duplicate();
        let mut diffs: StrMap<i32> = StrMap::new();
        let ghost entries = own.entries();
        let ghost own_map = own@;
        let ghost req0 = req_skills@;
        let n = own.len();
        let mut i: usize = 0;
        assert(entries.subrange(0, 0) =~= Seq::<(Seq<char>, i32)>::empty());
        assert(entries_map(entries.subrange(0, 0)) =~= Map::<Seq<char>, i32>::empty());
        assert(req_skills@ =~= residual(req0, entries_map(entries.subrange(0, 0))));
        assert(diffs@ =~= taken(req0, entries_map(entries.subrange(0, 0))));
        assert(mine@ =~= residual_on(own_map, req0, entries_map(entries.subrange(0, 0))));
        while i < n
            invariant
                i <= n,
                n == entries.len(),
                entries == own.entries(),
                own_map == entries_map(entries),
                distinct_keys(entries),
                map_nonneg(own_map),
                map_nonneg(req0),
                req_skills@ == residual(req0, entries_map(entries.subrange(0, i as int))),
                diffs@ == taken(req0, entries_map(entries.subrange(0, i as int))),
                mine@ == residual_on(own_map, req0, entries_map(entries.subrange(0, i as int))),
            decreases n - i,
        {
            let id = own.key_at(i);
            let level = *own.value_at(i);
            let ghost seen = entries_map(entries.subrange(0, i as int));
            let ghost next = entries_map(entries.subrange(0, i + 1));
            proof {
                lemma_map_take(entries, i as int);
                lemma_entry_in_map(entries, i as int);
                assert(next == seen.insert(id@, level));
                assert(!seen.contains_key(id@));
            }
            let found = match req_skills.get(id) {
                Some(v) => Some(*v),
                None => None,
            };
            match found {
                None => {
                    assert(req_skills@ =~= residual(req0, next));
                    assert(diffs@ =~= taken(req0, next));
                    assert(mine@ =~= residual_on(own_map, req0, next));
                },
                Some(req_level) => {
                    assert(req0.contains_key(id@) && req0[id@] == req_level);
                    assert(0 <= req_level);
                    assert(0 <= level);
                    let took = if level <= req_level {
                        level
                    } else {
                        req_level
                    };
                    let rest = req_level - took;
                    if rest == 0 {
                        req_skills.remove(id);
                    } else {
                        req_skills.insert(id.clone(), rest);
                    }
                    diffs.insert(id.clone(), took);
                    let left = level - took;
                    if left == 0 {
                        mine.remove(id);
                    } else {
                        mine.insert(id.clone(), left);
                    }
                    assert(req_skills@ =~= residual(req0, next));
                    assert(diffs@ =~= taken(req0, next));
                    assert(mine@ =~= residual_on(own_map, req0, next));
                },
            }
            i += 1;
        }
        proof {
            assert(entries.subrange(0, n as int) =~= entries);
            assert(mine@ =~= residual(own_map, req0));
            assert forall|k: Seq<char>| mine@.contains_key(k) implies 0 <= #[trigger] mine@[k] by {}
            assert forall|k: Seq<char>| req_skills@.contains_key(k) implies 0
                <= #[trigger] req_skills@[k] by {}
        }
        self.set_skills(mine);
        diffs
    }
}

} // verus!
