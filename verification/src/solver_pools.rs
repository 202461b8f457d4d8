//! The pieces among which the search chooses.

use crate::calc::armor::{CalcArmor, count_of, levels_of};
use crate::calc::calc_equipment::{CalcEquipment, dominated};
use crate::calc::equipment::Equipment;
use crate::calc::talisman::{CalcTalisman, talisman_levels};
use crate::data::armor::{ArmorPart, BaseArmor, SexType, Talisman};
use crate::data::data_manager::{BODY_PARTS, DataManager, body_part};
use crate::str_map::{StrMap, entries_map};
use vstd::prelude::*;

verus! {

/// A piece for wearers of `piece` can be worn under the filter `filter`.
pub open spec fn sex_ok(piece: SexType, filter: SexType) -> bool {
    piece == SexType::All || filter == SexType::All || piece == filter
}

/// Whether a piece for wearers of `piece` can be worn under the filter
/// `filter`.
pub fn sex_fits(piece: SexType, filter: SexType) -> (b: bool)
    ensures
        b == sex_ok(piece, filter),
{
    piece == SexType::All || filter == SexType::All || piece == filter
}

/// The part at position `k` of a build: the body parts, then the charm.
pub open spec fn build_part(k: int) -> ArmorPart {
    if k == 5 {
        ArmorPart::Talisman
    } else {
        body_part(k)
    }
}

/// The part at position `k` of a build.
pub fn part_at(k: usize) -> (part: ArmorPart)
    requires
        k < 6,
    ensures
        part == build_part(k as int),
        part.spec_index() == k,
{
    if k == 0 {
        ArmorPart::Helm
    } else if k == 1 {
        ArmorPart::Torso
    } else if k == 2 {
        ArmorPart::Arm
    } else if k == 3 {
        ArmorPart::Waist
    } else if k == 4 {
        ArmorPart::Feet
    } else {
        ArmorPart::Talisman
    }
}

/// The body piece `b` is a piece of the catalog for the body part at
/// position `p`: one of its pieces, augmented or not, its empty placeholder
/// or one of its socket-only pieces.
pub open spec fn armor_of(dm: &DataManager, p: int, b: &BaseArmor) -> bool {
    ||| exists|i: int| 0 <= i < dm.bases_by_part@[p]@.len() && b == &#[trigger] dm.bases_by_part@[p]@[i]
    ||| exists|i: int|
        0 <= i < dm.anomalies_by_part@[p]@.len() && b == &#[trigger] dm.anomalies_by_part@[p]@[i]
    ||| b == &dm.empty_armors@[p]
    ||| exists|i: int|
        0 <= i < dm.slot_only_armors@[p].entries().len() && b == &(
        #[trigger] dm.slot_only_armors@[p].entries()[i]).1
}

/// The charm `t` is a charm of the catalog, its empty placeholder or one
/// of its socket-only charms.
pub open spec fn charm_of(dm: &DataManager, t: &Talisman) -> bool {
    ||| exists|i: int| 0 <= i < dm.talismans@.len() && t == &#[trigger] dm.talismans@[i]
    ||| t == &dm.empty_talisman
    ||| exists|i: int|
        0 <= i < dm.slot_only_talismans.entries().len() && t == &(
        #[trigger] dm.slot_only_talismans.entries()[i]).1
}

/// The sockets of a piece with the socket sizes `sizes`, counted by size.
pub open spec fn slot_counts(sizes: Seq<i32>) -> Seq<i32> {
    Seq::new(4, |s: int| count_of(sizes, s + 1, sizes.len() as int) as i32)
}

/// The piece `e` has the skills and the sockets of the piece of the catalog
/// that it stands for.
pub open spec fn seen_right<'a>(e: Equipment<'a>) -> bool {
    match e {
        Equipment::Armor(a) => e.spec_skills() == levels_of(a.spec_base().skills.entries())
            && e.spec_slots() == slot_counts(a.spec_base().slots@),
        Equipment::Talisman(t) => entries_map(e.spec_skills()) == talisman_levels(
            t.spec_tali().skills@,
            t.spec_tali().skills@.len() as int,
        ) && e.spec_slots() == slot_counts(t.spec_tali().slot_sizes@),
    }
}

/// The piece that an answer cites for the body piece `b`: for an augmented
/// piece that the catalog keeps, the piece that it was made from; else the
/// piece itself.
pub open spec fn cited<'a>(dm: &'a DataManager, b: &'a BaseArmor) -> &'a BaseArmor {
    if "__anomaly"@.is_prefix_of(b.id@) && dm.anomaly_armors@.contains_key(b.id@) {
        &dm.anomaly_armors@[b.id@].original
    } else {
        b
    }
}

/// The piece that an answer cites for the body piece `b`.
pub fn cited_piece<'a>(dm: &'a DataManager, b: &'a BaseArmor) -> (r: &'a BaseArmor)
    ensures
        r == cited(dm, b),
{
    match dm.get_anomaly_armor(b.id()) {
        Some(anomaly) => &anomaly.original,
        None => b,
    }
}

/// The piece `e` is a piece of the catalog for position `k` of a build that
/// can be worn under the filter `sex`, with the skills and sockets that it
/// has there; a body piece cites the piece that the catalog gives for it.
pub open spec fn piece_ok<'a>(e: Equipment<'a>, dm: &DataManager, k: int, sex: SexType) -> bool {
    &&& e.spec_part() == build_part(k)
    &&& seen_right(e)
    &&& match e {
        Equipment::Armor(a) => 0 <= k < BODY_PARTS && armor_of(dm, k, a.spec_base()) && sex_ok(
            a.spec_base().sex_type,
            sex,
        ) && a.spec_original() == cited(dm, a.spec_base()),
        Equipment::Talisman(t) => k == 5 && charm_of(dm, t.spec_tali()),
    }
}

/// The pool holds the piece `b` of the catalog.
pub open spec fn has_armor<'a>(pool: Seq<Equipment<'a>>, b: &BaseArmor) -> bool {
    exists|j: int| 0 <= j < pool.len() && (#[trigger] pool[j]) is Armor && pool[j]->Armor_0.spec_base() == b
}

/// The pool holds the charm `t` of the catalog.
pub open spec fn has_charm<'a>(pool: Seq<Equipment<'a>>, t: &Talisman) -> bool {
    exists|j: int|
        0 <= j < pool.len() && (#[trigger] pool[j]) is Talisman && pool[j]->Talisman_0.spec_tali() == t
}

/// The piece `b` can stand at position `k` of a build under the filter
/// `sex`: it belongs to the position, has socket sizes and no negative
/// level, and can be worn.
pub open spec fn usable_armor(b: &BaseArmor, k: int, sex: SexType) -> bool {
    b.part == build_part(k) && sex_ok(b.sex_type, sex) && b.valid()
}

/// Every piece of the pool is a piece of the catalog for position `k`.
pub open spec fn pool_ok<'a>(pool: Seq<Equipment<'a>>, dm: &DataManager, k: int, sex: SexType) -> bool {
    forall|i: int| 0 <= i < pool.len() ==> piece_ok(#[trigger] pool[i], dm, k, sex)
}

/// The piece `a` is dominated by the piece `b`.
pub open spec fn piece_le<'a>(a: Equipment<'a>, b: Equipment<'a>) -> bool {
    dominated(
        a.spec_slots(),
        entries_map(a.spec_skills()),
        b.spec_slots(),
        entries_map(b.spec_skills()),
    )
}

/// No piece of the pool is dominated by another piece of the pool.
pub open spec fn undominated<'a>(pool: Seq<Equipment<'a>>) -> bool {
    forall|i: int, j: int|
        0 <= i < pool.len() && 0 <= j < pool.len() && i != j ==> !piece_le(
            #[trigger] pool[i],
            #[trigger] pool[j],
        )
}

/// Some piece of the pool dominates `e`.
pub open spec fn covered_by<'a>(pool: Seq<Equipment<'a>>, e: Equipment<'a>) -> bool {
    exists|i: int| 0 <= i < pool.len() && piece_le(e, #[trigger] pool[i])
}

/// `kept` is what the dominance filter may keep of `pool`: copies of pieces
/// of the pool, none dominated by another, and for every piece of the pool
/// one that dominates it.
pub open spec fn filtered_of<'a>(kept: Seq<Equipment<'a>>, pool: Seq<Equipment<'a>>) -> bool {
    &&& undominated(kept)
    &&& all_drawn_from(kept, pool)
    &&& forall|j: int| 0 <= j < pool.len() ==> covered_by(kept, #[trigger] pool[j])
}

/// `a` and `b` have the same identifier, part, skills and sockets.
pub open spec fn same_piece<'a>(a: Equipment<'a>, b: Equipment<'a>) -> bool {
    &&& a.spec_id() == b.spec_id()
    &&& a.spec_part() == b.spec_part()
    &&& a.spec_skills() == b.spec_skills()
    &&& a.spec_slots() == b.spec_slots()
}

/// `a` is a copy of `b`: it stands for the same piece of the catalog and
/// has the same skills and sockets.
pub open spec fn is_copy<'a>(a: Equipment<'a>, b: Equipment<'a>) -> bool {
    &&& same_piece(a, b)
    &&& a is Armor ==> b is Armor && a->Armor_0.spec_base() == b->Armor_0.spec_base()
        && a->Armor_0.spec_original() == b->Armor_0.spec_original()
    &&& a is Talisman ==> b is Talisman && a->Talisman_0.spec_tali() == b->Talisman_0.spec_tali()
}

/// `e` is a copy of a piece of `source`.
pub open spec fn drawn_from<'a>(e: Equipment<'a>, source: Seq<Equipment<'a>>) -> bool {
    exists|j: int| 0 <= j < source.len() && is_copy(e, #[trigger] source[j])
}

/// Every piece of `pool` is a copy of a piece of `source`.
pub open spec fn all_drawn_from<'a>(pool: Seq<Equipment<'a>>, source: Seq<Equipment<'a>>) -> bool {
    forall|i: int| 0 <= i < pool.len() ==> drawn_from(#[trigger] pool[i], source)
}

/// Dominance carries over: what is dominated by a dominated piece is
/// dominated by the piece that dominates it.
pub proof fn lemma_piece_le_trans<'a>(a: Equipment<'a>, b: Equipment<'a>, c: Equipment<'a>)
    requires
        piece_le(a, b),
        piece_le(b, c),
    ensures
        piece_le(a, c),
{
    let ma = entries_map(a.spec_skills());
    let mb = entries_map(b.spec_skills());
    let mc = entries_map(c.spec_skills());
    assert forall|k: Seq<char>| #[trigger] ma.contains_key(k) implies mc.contains_key(k) && ma[k]
        <= mc[k] by {
        assert(mb.contains_key(k));
    }
    assert forall|i: int| 0 <= i < a.spec_slots().len() implies #[trigger] a.spec_slots()[i]
        <= c.spec_slots()[i] by {
        assert(a.spec_slots()[i] <= b.spec_slots()[i]);
        assert(b.spec_slots()[i] <= c.spec_slots()[i]);
    }
}

/// The piece `base`, made from `original`, as a piece of a build.
pub fn armor_piece<'a>(base: &'a BaseArmor, original: &'a BaseArmor) -> (e: Equipment<'a>)
    requires
        base.valid(),
    ensures
        e is Armor,
        e->Armor_0.spec_base() == base,
        e->Armor_0.spec_original() == original,
        e.spec_part() == base.part,
        e.spec_id() == base.id@,
        seen_right(e),
{
    let piece = CalcArmor::new_anomaly(base, original);
    assert(piece.spec_slots() =~= slot_counts(base.slots@));
    Equipment::Armor(piece)
}

/// The charm `tali` as a piece of a build.
pub fn charm_piece<'a>(tali: &'a Talisman) -> (e: Equipment<'a>)
    requires
        tali.valid(),
    ensures
        e is Talisman,
        e->Talisman_0.spec_tali() == tali,
        e.spec_part() == ArmorPart::Talisman,
        e.spec_id() == tali.id@,
        seen_right(e),
{
    let piece = CalcTalisman::new(tali);
    assert(piece.spec_slots() =~= slot_counts(tali.slot_sizes@));
    Equipment::Talisman(piece)
}

/// Pushing a piece of the catalog onto a pool of such pieces gives a pool
/// of such pieces that holds what the pool held.
proof fn lemma_pool_push<'a>(
    before: Seq<Equipment<'a>>,
    e: Equipment<'a>,
    dm: &DataManager,
    k: int,
    sex: SexType,
)
    requires
        pool_ok(before, dm, k, sex),
        piece_ok(e, dm, k, sex),
    ensures
        pool_ok(before.push(e), dm, k, sex),
        forall|b: &BaseArmor| #[trigger] has_armor(before, b) ==> has_armor(before.push(e), b),
        forall|t: &Talisman| #[trigger] has_charm(before, t) ==> has_charm(before.push(e), t),
        e is Armor ==> has_armor(before.push(e), e->Armor_0.spec_base()),
        e is Talisman ==> has_charm(before.push(e), e->Talisman_0.spec_tali()),
{
    let now = before.push(e);
    assert forall|i: int| 0 <= i < now.len() implies piece_ok(#[trigger] now[i], dm, k, sex) by {
        if i < before.len() {
            assert(now[i] == before[i]);
        }
    }
    assert forall|b: &BaseArmor| #[trigger] has_armor(before, b) implies has_armor(now, b) by {
        let j = choose|j: int|
            0 <= j < before.len() && (#[trigger] before[j]) is Armor && before[j]->Armor_0.spec_base()
                == b;
        assert(now[j] == before[j]);
    }
    assert forall|t: &Talisman| #[trigger] has_charm(before, t) implies has_charm(now, t) by {
        let j = choose|j: int|
            0 <= j < before.len() && (#[trigger] before[j]) is Talisman
                && before[j]->Talisman_0.spec_tali() == t;
        assert(now[j] == before[j]);
    }
    assert(now[before.len() as int] == e);
}

/// The body pieces of the catalog for the body part at position `p` that
/// are valid, belong to this part and can be worn under the filter `sex`:
/// the pieces of the catalog first, then the augmented ones.
pub fn armor_pool<'a>(dm: &'a DataManager, p: usize, sex: SexType) -> (pool: Vec<Equipment<'a>>)
    requires
        dm.wf(),
        p < BODY_PARTS,
    ensures
        pool_ok(pool@, dm, p as int, sex),
        forall|i: int|
            0 <= i < dm.bases_by_part@[p as int]@.len() && usable_armor(
                &#[trigger] dm.bases_by_part@[p as int]@[i],
                p as int,
                sex,
            ) ==> has_armor(pool@, &dm.bases_by_part@[p as int]@[i]),
        forall|i: int|
            0 <= i < dm.anomalies_by_part@[p as int]@.len() && usable_armor(
                &#[trigger] dm.anomalies_by_part@[p as int]@[i],
                p as int,
                sex,
            ) ==> has_armor(pool@, &dm.anomalies_by_part@[p as int]@[i]),
{
    let part = part_at(p);
    let mut pool: Vec<Equipment<'a>> = Vec::new();
    let bases = &dm.bases_by_part[p];
    let mut i: usize = 0;
    while i < bases.len()
        invariant
            i <= bases@.len(),
            p < BODY_PARTS,
            bases == &dm.bases_by_part@[p as int],
            part == build_part(p as int),
            pool_ok(pool@, dm, p as int, sex),
            forall|j: int|
                0 <= j < i && usable_armor(&#[trigger] bases@[j], p as int, sex) ==> has_armor(
                    pool@,
                    &bases@[j],
                ),
        decreases bases.len() - i,
    {
        let base = &bases[i];
        if base.part == part && sex_fits(base.sex_type, sex) && base.is_valid() {
            let piece = armor_piece(base, cited_piece(dm, base));
            proof {
                assert(base == &dm.bases_by_part@[p as int]@[i as int]);
                assert(armor_of(dm, p as int, base));
                lemma_pool_push(pool@, piece, dm, p as int, sex);
            }
            pool.push(piece);
        }
        i += 1;
    }
    let anomalies = &dm.anomalies_by_part[p];
    let mut j: usize = 0;
    while j < anomalies.len()
        invariant
            j <= anomalies@.len(),
            p < BODY_PARTS,
            bases == &dm.bases_by_part@[p as int],
            anomalies == &dm.anomalies_by_part@[p as int],
            part == build_part(p as int),
            pool_ok(pool@, dm, p as int, sex),
            forall|q: int|
                0 <= q < bases@.len() && usable_armor(&#[trigger] bases@[q], p as int, sex)
                    ==> has_armor(pool@, &bases@[q]),
            forall|q: int|
                0 <= q < j && usable_armor(&#[trigger] anomalies@[q], p as int, sex) ==> has_armor(
                    pool@,
                    &anomalies@[q],
                ),
        decreases anomalies.len() - j,
    {
        let affected = &anomalies[j];
        if affected.part == part && sex_fits(affected.sex_type, sex) && affected.is_valid() {
            let piece = armor_piece(affected, cited_piece(dm, affected));
            proof {
                assert(affected == &dm.anomalies_by_part@[p as int]@[j as int]);
                assert(armor_of(dm, p as int, affected));
                lemma_pool_push(pool@, piece, dm, p as int, sex);
            }
            pool.push(piece);
        }
        j += 1;
    }
    pool
}

/// The socket-only pieces of the catalog for the body part at position `p`
/// that are valid, belong to this part and can be worn under the filter
/// `sex`.
pub fn slot_only_pool<'a>(dm: &'a DataManager, p: usize, sex: SexType) -> (pool: Vec<Equipment<'a>>)
    requires
        dm.wf(),
        p < BODY_PARTS,
    ensures
        pool_ok(pool@, dm, p as int, sex),
        forall|i: int|
            0 <= i < dm.slot_only_armors@[p as int].entries().len() && usable_armor(
                &(#[trigger] dm.slot_only_armors@[p as int].entries()[i]).1,
                p as int,
                sex,
            ) ==> has_armor(pool@, &dm.slot_only_armors@[p as int].entries()[i].1),
        forall|j: int| 0 <= j < pool@.len() ==> socket_only(#[trigger] pool@[j], dm, p as int),
{
    let part = part_at(p);
    let mut pool: Vec<Equipment<'a>> = Vec::new();
    let table = &dm.slot_only_armors[p];
    let n = table.len();
    let mut i: usize = 0;
    while i < n
        invariant
            i <= n,
            n == table.entries().len(),
            p < BODY_PARTS,
            table == &dm.slot_only_armors@[p as int],
            part == build_part(p as int),
            pool_ok(pool@, dm, p as int, sex),
            forall|j: int|
                0 <= j < i && usable_armor(&(#[trigger] table.entries()[j]).1, p as int, sex)
                    ==> has_armor(pool@, &table.entries()[j].1),
            forall|j: int| 0 <= j < pool@.len() ==> socket_only(#[trigger] pool@[j], dm, p as int),
        decreases n - i,
    {
        let base = table.value_at(i);
        if base.part == part && sex_fits(base.sex_type, sex) && base.is_valid() {
            let piece = armor_piece(base, cited_piece(dm, base));
            let ghost before = pool@;
            proof {
                assert(base == &dm.slot_only_armors@[p as int].entries()[i as int].1);
                assert(armor_of(dm, p as int, base));
                lemma_pool_push(pool@, piece, dm, p as int, sex);
                assert(socket_only(piece, dm, p as int));
            }
            pool.push(piece);
            proof {
                assert forall|j: int| 0 <= j < pool@.len() implies socket_only(
                    #[trigger] pool@[j],
                    dm,
                    p as int,
                ) by {
                    if j < before.len() {
                        assert(pool@[j] == before[j]);
                    }
                }
            }
        }
        i += 1;
    }
    pool
}

/// The valid charms of the catalog.
pub fn charm_pool<'a>(dm: &'a DataManager, sex: SexType) -> (pool: Vec<Equipment<'a>>)
    ensures
        pool_ok(pool@, dm, 5, sex),
        forall|i: int|
            0 <= i < dm.talismans@.len() && (#[trigger] dm.talismans@[i]).valid() ==> has_charm(
                pool@,
                &dm.talismans@[i],
            ),
{
    let mut pool: Vec<Equipment<'a>> = Vec::new();
    let mut i: usize = 0;
    while i < dm.talismans.len()
        invariant
            i <= dm.talismans@.len(),
            pool_ok(pool@, dm, 5, sex),
            forall|j: int|
                0 <= j < i && (#[trigger] dm.talismans@[j]).valid() ==> has_charm(
                    pool@,
                    &dm.talismans@[j],
                ),
        decreases dm.talismans.len() - i,
    {
        let tali = &dm.talismans[i];
        if tali.is_valid() {
            let piece = charm_piece(tali);
            proof {
                assert(tali == &dm.talismans@[i as int]);
                assert(charm_of(dm, tali));
                lemma_pool_push(pool@, piece, dm, 5, sex);
            }
            pool.push(piece);
        }
        i += 1;
    }
    pool
}

/// The piece `e` stands for the empty placeholder of position `k`.
pub open spec fn stands_for_empty<'a>(e: Equipment<'a>, dm: &DataManager, k: int) -> bool {
    match e {
        Equipment::Armor(a) => 0 <= k < BODY_PARTS && a.spec_base() == &dm.empty_armors@[k],
        Equipment::Talisman(t) => k == 5 && t.spec_tali() == &dm.empty_talisman,
    }
}

/// The empty placeholder of position `k` can stand in a build: it belongs
/// to the position, has no skill, has socket sizes, and can be worn under
/// the filter `sex`.
pub open spec fn empty_usable(dm: &DataManager, k: int, sex: SexType) -> bool {
    if k < BODY_PARTS {
        let base = dm.empty_armors@[k];
        &&& base.part == build_part(k)
        &&& sex_ok(base.sex_type, sex)
        &&& base.valid()
        &&& base.skills.entries().len() == 0
    } else {
        dm.empty_talisman.valid() && dm.empty_talisman.skills@.len() == 0
    }
}

/// The empty placeholder for position `k` of a build, where it can stand in
/// a build.
pub fn empty_piece<'a>(dm: &'a DataManager, k: usize, sex: SexType) -> (r: Option<Equipment<'a>>)
    requires
        dm.wf(),
        k < 6,
    ensures
        r is Some <==> empty_usable(dm, k as int, sex),
        r matches Some(e) ==> piece_ok(e, dm, k as int, sex) && e.spec_skills().len() == 0
            && stands_for_empty(e, dm, k as int),
{
    if k < BODY_PARTS {
        let base = &dm.empty_armors[k];
        if base.part == part_at(k) && sex_fits(base.sex_type, sex) && base.is_valid()
            && base.skills.len() == 0 {
            let piece = armor_piece(base, cited_piece(dm, base));
            assert(armor_of(dm, k as int, base));
            assert(piece.spec_skills() =~= Seq::<(Seq<char>, i32)>::empty());
            Some(piece)
        } else {
            None
        }
    } else {
        let tali = &dm.empty_talisman;
        if tali.is_valid() && tali.skills.len() == 0 {
            let piece = charm_piece(tali);
            assert(charm_of(dm, tali));
            let skills = piece.skills();
            proof {
                crate::str_map::lemma_map_len(skills.entries());
                assert(talisman_levels(tali.skills@, 0) =~= Map::<Seq<char>, i32>::empty());
            }
            assert(piece.spec_skills().len() == 0);
            Some(piece)
        } else {
            None
        }
    }
}

/// The skill list `own` names one of the skills of `skills`.
pub open spec fn names_some(own: Seq<(Seq<char>, i32)>, skills: Map<Seq<char>, i32>) -> bool {
    exists|i: int| 0 <= i < own.len() && skills.contains_key((#[trigger] own[i]).0)
}

/// The piece grants one of the skills of `skills`.
pub open spec fn grants_some<'a>(e: Equipment<'a>, skills: Map<Seq<char>, i32>) -> bool {
    names_some(e.spec_skills(), skills)
}

/// The pool holds a copy of the piece `x`.
pub open spec fn holds_copy<'a>(pool: Seq<Equipment<'a>>, x: Equipment<'a>) -> bool {
    exists|j: int| 0 <= j < pool.len() && is_copy(#[trigger] pool[j], x)
}

/// Some piece of the pool has at least the sockets `slots` and the skills
/// `skills`.
pub open spec fn above<'a>(pool: Seq<Equipment<'a>>, slots: Seq<i32>, skills: Map<Seq<char>, i32>) -> bool {
    exists|j: int|
        0 <= j < pool.len() && dominated(
            slots,
            skills,
            (#[trigger] pool[j]).spec_slots(),
            entries_map(pool[j].spec_skills()),
        )
}

/// Whether the piece grants one of the skills of `skills`.
pub fn grants_any<'a>(e: &Equipment<'a>, skills: &StrMap<i32>) -> (b: bool)
    ensures
        b == grants_some(*e, skills@),
{
    let own = e.skills();
    let n = own.len();
    let mut i: usize = 0;
    while i < n
        invariant
            i <= n,
            n == own.entries().len(),
            own.entries() == e.spec_skills(),
            forall|j: int| 0 <= j < i ==> !skills@.contains_key((#[trigger] own.entries()[j]).0),
        decreases n - i,
    {
        if skills.contains_key(own.key_at(i)) {
            return true;
        }
        i += 1;
    }
    false
}

/// Drops the pieces that another piece of the pool dominates. Of pieces
/// that dominate each other, the first stays.
pub fn drop_dominated<'a>(pool: Vec<Equipment<'a>>) -> (kept: Vec<Equipment<'a>>)
    ensures
        filtered_of(kept@, pool@),
{
    let mut kept: Vec<Equipment<'a>> = Vec::new();
    let n = pool.len();
    let mut i: usize = 0;
    while i < n
        invariant
            i <= n,
            n == pool@.len(),
            undominated(kept@),
            all_drawn_from(kept@, pool@),
            forall|j: int| 0 <= j < i ==> covered_by(kept@, #[trigger] pool@[j]),
        decreases n - i,
    {
        kept = insert_undominated(kept, &pool[i], Ghost(pool@), Ghost(i as int));
        i += 1;
    }
    kept
}

/// Adds a copy of `piece` to a pool in which no piece is dominated by
/// another, unless a piece of the pool dominates it; the pieces that it
/// dominates leave the pool.
fn insert_undominated<'a>(
    pool: Vec<Equipment<'a>>,
    piece: &Equipment<'a>,
    Ghost(source): Ghost<Seq<Equipment<'a>>>,
    Ghost(at): Ghost<int>,
) -> (kept: Vec<Equipment<'a>>)
    requires
        undominated(pool@),
        0 <= at < source.len(),
        *piece == source[at],
        all_drawn_from(pool@, source),
        forall|j: int| 0 <= j < at ==> covered_by(pool@, #[trigger] source[j]),
    ensures
        undominated(kept@),
        all_drawn_from(kept@, source),
        forall|j: int| 0 <= j < at + 1 ==> covered_by(kept@, #[trigger] source[j]),
{
    let ghost old_pool = pool@;
    let mut k: usize = 0;
    while k < pool.len()
        invariant
            k <= pool@.len(),
            old_pool == pool@,
            undominated(old_pool),
            0 <= at < source.len(),
            *piece == source[at],
            all_drawn_from(old_pool, source),
            forall|j: int| 0 <= j < at ==> covered_by(old_pool, #[trigger] source[j]),
            forall|a: int| 0 <= a < k ==> !piece_le(*piece, #[trigger] old_pool[a]),
        decreases pool.len() - k,
    {
        if piece.is_le(&pool[k]) {
            proof {
                assert(piece_le(source[at], old_pool[k as int]));
                assert(covered_by(old_pool, source[at]));
            }
            return pool;
        }
        k += 1;
    }
    let mut kept: Vec<Equipment<'a>> = Vec::new();
    let ghost mut from: Seq<int> = Seq::empty();
    let mut k: usize = 0;
    while k < pool.len()
        invariant
            k <= pool@.len(),
            old_pool == pool@,
            undominated(old_pool),
            forall|a: int| 0 <= a < old_pool.len() ==> !piece_le(*piece, #[trigger] old_pool[a]),
            from.len() == kept@.len(),
            forall|a: int|
                0 <= a < from.len() ==> 0 <= #[trigger] from[a] < k && is_copy(
                    kept@[a],
                    old_pool[from[a]],
                ) && !piece_le(old_pool[from[a]], *piece),
            forall|a: int, b: int| 0 <= a < b < from.len() ==> #[trigger] from[a] < #[trigger] from[b],
            forall|i: int|
                0 <= i < k ==> piece_le(#[trigger] old_pool[i], *piece) || exists|a: int|
                    0 <= a < from.len() && #[trigger] from[a] == i,
        decreases pool.len() - k,
    {
        if !pool[k].is_le(piece) {
            let copy = clone_piece(&pool[k]);
            let ghost prev = from;
            let ghost prev_kept = kept@;
            kept.push(copy);
            proof {
                from = from.push(k as int);
                assert forall|a: int| 0 <= a < from.len() implies 0 <= #[trigger] from[a] < k + 1
                    && is_copy(kept@[a], old_pool[from[a]]) && !piece_le(
                    old_pool[from[a]],
                    *piece,
                ) by {
                    if a < prev.len() {
                        assert(from[a] == prev[a]);
                        assert(kept@[a] == prev_kept[a]);
                    }
                }
                assert forall|a: int, b: int| 0 <= a < b < from.len() implies #[trigger] from[a]
                    < #[trigger] from[b] by {
                    if b < prev.len() {
                        assert(from[a] == prev[a]);
                        assert(from[b] == prev[b]);
                    } else {
                        assert(from[a] == prev[a]);
                    }
                }
                assert forall|i: int| 0 <= i < k + 1 implies piece_le(#[trigger] old_pool[i], *piece)
                    || exists|a: int| 0 <= a < from.len() && #[trigger] from[a] == i by {
                    if i < k {
                        if !piece_le(old_pool[i], *piece) {
                            let a = choose|a: int| 0 <= a < prev.len() && #[trigger] prev[a] == i;
                            assert(from[a] == i);
                        }
                    } else {
                        assert(from[prev.len() as int] == i);
                    }
                }
            }
        }
        k += 1;
    }
    let ghost kept_before = kept@;
    let copy = clone_piece(piece);
    kept.push(copy);
    proof {
        let out = kept@;
        let last = kept_before.len() as int;
        assert(is_copy(out[last], *piece));
        assert forall|i: int, j: int|
            0 <= i < out.len() && 0 <= j < out.len() && i != j implies !piece_le(
            #[trigger] out[i],
            #[trigger] out[j],
        ) by {
            if i < last && j < last {
                assert(out[i] == kept_before[i]);
                assert(out[j] == kept_before[j]);
                if i < j {
                    assert(from[i] < from[j]);
                } else {
                    assert(from[j] < from[i]);
                }
                assert(!piece_le(old_pool[from[i]], old_pool[from[j]]));
            } else if i < last {
                assert(out[i] == kept_before[i]);
            } else {
                assert(out[j] == kept_before[j]);
            }
        }
        assert forall|a: int| 0 <= a < out.len() implies drawn_from(#[trigger] out[a], source) by {
            if a < last {
                assert(out[a] == kept_before[a]);
                let q = from[a];
                assert(drawn_from(old_pool[q], source));
                let j = choose|j: int| 0 <= j < source.len() && is_copy(old_pool[q], #[trigger] source[j]);
                assert(is_copy(out[a], source[j]));
            } else {
                assert(is_copy(out[a], source[at]));
            }
        }
        assert forall|j: int| 0 <= j < at + 1 implies covered_by(out, #[trigger] source[j]) by {
            if j < at {
                let i = choose|i: int| 0 <= i < old_pool.len() && piece_le(source[j], #[trigger] old_pool[i]);
                if piece_le(old_pool[i], *piece) {
                    lemma_piece_le_trans(source[j], old_pool[i], *piece);
                    assert(piece_le(source[j], out[last]));
                } else {
                    let a = choose|a: int| 0 <= a < from.len() && #[trigger] from[a] == i;
                    assert(out[a] == kept_before[a]);
                    assert(piece_le(source[j], out[a]));
                }
            } else {
                assert(piece_le(source[j], out[last]));
            }
        }
    }
    kept
}

/// A copy of a piece that stands for the same piece of the catalog.
pub fn clone_piece<'a>(e: &Equipment<'a>) -> (r: Equipment<'a>)
    ensures
        is_copy(r, *e),
        r is Armor ==> r->Armor_0.spec_original() == e->Armor_0.spec_original(),
{
    match e {
        Equipment::Armor(a) => Equipment::Armor(a.clone()),
        Equipment::Talisman(t) => Equipment::Talisman(t.clone()),
    }
}

/// The valid socket-only charms of the catalog.
pub fn slot_charm_pool<'a>(dm: &'a DataManager, sex: SexType) -> (pool: Vec<Equipment<'a>>)
    ensures
        pool_ok(pool@, dm, 5, sex),
        forall|i: int|
            0 <= i < dm.slot_only_talismans.entries().len() && (
            #[trigger] dm.slot_only_talismans.entries()[i]).1.valid() ==> has_charm(
                pool@,
                &dm.slot_only_talismans.entries()[i].1,
            ),
        forall|j: int| 0 <= j < pool@.len() ==> socket_only(#[trigger] pool@[j], dm, 5),
{
    let mut pool: Vec<Equipment<'a>> = Vec::new();
    let table = &dm.slot_only_talismans;
    let n = table.len();
    let mut i: usize = 0;
    while i < n
        invariant
            i <= n,
            n == table.entries().len(),
            table == &dm.slot_only_talismans,
            pool_ok(pool@, dm, 5, sex),
            forall|j: int|
                0 <= j < i && (#[trigger] table.entries()[j]).1.valid() ==> has_charm(
                    pool@,
                    &table.entries()[j].1,
                ),
            forall|j: int| 0 <= j < pool@.len() ==> socket_only(#[trigger] pool@[j], dm, 5),
        decreases n - i,
    {
        let tali = table.value_at(i);
        if tali.is_valid() {
            let piece = charm_piece(tali);
            let ghost before = pool@;
            proof {
                assert(tali == &dm.slot_only_talismans.entries()[i as int].1);
                assert(charm_of(dm, tali));
                lemma_pool_push(pool@, piece, dm, 5, sex);
                assert(socket_only(piece, dm, 5));
            }
            pool.push(piece);
            proof {
                assert forall|j: int| 0 <= j < pool@.len() implies socket_only(#[trigger] pool@[j], dm, 5) by {
                    if j < before.len() {
                        assert(pool@[j] == before[j]);
                    }
                }
            }
        }
        i += 1;
    }
    pool
}

/// A copy of a piece of the catalog is a piece of the catalog.
pub proof fn lemma_copy_ok<'a>(a: Equipment<'a>, b: Equipment<'a>, dm: &DataManager, k: int, sex: SexType)
    requires
        is_copy(a, b),
        piece_ok(b, dm, k, sex),
    ensures
        piece_ok(a, dm, k, sex),
{
}

/// Copies of pieces of a pool of pieces of the catalog are pieces of the
/// catalog.
pub proof fn lemma_drawn_ok<'a>(
    pool: Seq<Equipment<'a>>,
    source: Seq<Equipment<'a>>,
    dm: &DataManager,
    k: int,
    sex: SexType,
)
    requires
        all_drawn_from(pool, source),
        pool_ok(source, dm, k, sex),
    ensures
        pool_ok(pool, dm, k, sex),
{
    assert forall|i: int| 0 <= i < pool.len() implies piece_ok(#[trigger] pool[i], dm, k, sex) by {
        assert(drawn_from(pool[i], source));
        let j = choose|j: int| 0 <= j < source.len() && is_copy(pool[i], #[trigger] source[j]);
        lemma_copy_ok(pool[i], source[j], dm, k, sex);
    }
}

/// A pool with one more piece holds the copies that it held.
proof fn lemma_holds_copy_push<'a>(before: Seq<Equipment<'a>>, e: Equipment<'a>)
    ensures
        forall|x: Equipment<'a>| #[trigger] holds_copy(before, x) ==> holds_copy(before.push(e), x),
        forall|x: Equipment<'a>| is_copy(e, x) ==> #[trigger] holds_copy(before.push(e), x),
{
    let now = before.push(e);
    assert forall|x: Equipment<'a>| #[trigger] holds_copy(before, x) implies holds_copy(now, x) by {
        let j = choose|j: int| 0 <= j < before.len() && is_copy(#[trigger] before[j], x);
        assert(now[j] == before[j]);
    }
    assert forall|x: Equipment<'a>| is_copy(e, x) implies #[trigger] holds_copy(now, x) by {
        assert(now[before.len() as int] == e);
    }
}

/// The piece `x` is one that `append_granting` takes: it grants a skill of
/// `first`, or else, where `second` is given, a skill of `second` but none
/// of `first`.
pub open spec fn taken_granting<'a>(
    x: Equipment<'a>,
    first: Map<Seq<char>, i32>,
    second: Option<Map<Seq<char>, i32>>,
) -> bool {
    match second {
        None => grants_some(x, first),
        Some(other) => !grants_some(x, first) && grants_some(x, other),
    }
}

/// `now` is `before` and then copies of the pieces of `src` at the
/// positions `from`, which rise.
pub open spec fn appended<'a>(
    now: Seq<Equipment<'a>>,
    before: Seq<Equipment<'a>>,
    src: Seq<Equipment<'a>>,
    from: Seq<int>,
) -> bool {
    &&& now.len() == before.len() + from.len()
    &&& forall|i: int| 0 <= i < before.len() ==> #[trigger] now[i] == before[i]
    &&& forall|j: int|
        0 <= j < from.len() ==> 0 <= #[trigger] from[j] < src.len() && is_copy(
            now[before.len() + j],
            src[from[j]],
        )
    &&& forall|i: int, j: int| 0 <= i < j < from.len() ==> #[trigger] from[i] < #[trigger] from[j]
}

/// One more copy at the end of what was appended.
proof fn lemma_appended_push<'a>(
    now: Seq<Equipment<'a>>,
    before: Seq<Equipment<'a>>,
    src: Seq<Equipment<'a>>,
    from: Seq<int>,
    copy: Equipment<'a>,
    i: int,
)
    requires
        appended(now, before, src, from),
        0 <= i < src.len(),
        is_copy(copy, src[i]),
        forall|j: int| 0 <= j < from.len() ==> #[trigger] from[j] < i,
    ensures
        appended(now.push(copy), before, src, from.push(i)),
{
    let next = now.push(copy);
    let more = from.push(i);
    assert forall|j: int| 0 <= j < more.len() implies 0 <= #[trigger] more[j] < src.len() && is_copy(
        next[before.len() + j],
        src[more[j]],
    ) by {
        if j < from.len() {
            assert(more[j] == from[j]);
            assert(next[before.len() + j] == now[before.len() + j]);
        }
    }
    assert forall|a: int, b: int| 0 <= a < b < more.len() implies #[trigger] more[a] < #[trigger] more[b] by {
        if b < from.len() {
            assert(from[a] < from[b]);
        } else {
            assert(from[a] < i);
        }
    }
}

/// Appends to `dst` copies of the pieces of `src` that grant a skill of
/// `first`, or else, where `second` is given, a skill of `second` but none
/// of `first`.
fn append_granting<'a>(
    dst: &mut Vec<Equipment<'a>>,
    src: &Vec<Equipment<'a>>,
    first: &StrMap<i32>,
    second: Option<&StrMap<i32>>,
    Ghost(dm): Ghost<&DataManager>,
    Ghost(k): Ghost<int>,
    Ghost(sex): Ghost<SexType>,
) -> (from: Ghost<Seq<int>>)
    requires
        pool_ok(old(dst)@, dm, k, sex),
        pool_ok(src@, dm, k, sex),
    ensures
        pool_ok(final(dst)@, dm, k, sex),
        forall|x: Equipment<'a>| #[trigger] holds_copy(old(dst)@, x) ==> holds_copy(final(dst)@, x),
        forall|i: int|
            0 <= i < src@.len() && taken_granting(
                #[trigger] src@[i],
                first@,
                match second {
                    None => None,
                    Some(other) => Some(other@),
                },
            ) ==> holds_copy(final(dst)@, src@[i]),
        appended(final(dst)@, old(dst)@, src@, from@),
        forall|j: int|
            0 <= j < from@.len() ==> taken_granting(
                src@[#[trigger] from@[j]],
                first@,
                match second {
                    None => None,
                    Some(other) => Some(other@),
                },
            ),
{
    let ghost other = match second {
        None => None,
        Some(o) => Some(o@),
    };
    let ghost mut from: Seq<int> = Seq::empty();
    let mut i: usize = 0;
    while i < src.len()
        invariant
            i <= src@.len(),
            pool_ok(dst@, dm, k, sex),
            pool_ok(src@, dm, k, sex),
            appended(dst@, old(dst)@, src@, from),
            forall|j: int| 0 <= j < from.len() ==> #[trigger] from[j] < i,
            forall|j: int| 0 <= j < from.len() ==> taken_granting(src@[#[trigger] from[j]], first@, other),
            other == match second {
                None => None,
                Some(o) => Some(o@),
            },
            forall|x: Equipment<'a>| #[trigger] holds_copy(old(dst)@, x) ==> holds_copy(dst@, x),
            forall|j: int|
                0 <= j < i && taken_granting(#[trigger] src@[j], first@, other) ==> holds_copy(
                    dst@,
                    src@[j],
                ),
        decreases src.len() - i,
    {
        let in_first = grants_any(&src[i], first);
        let wanted = match second {
            None => in_first,
            Some(o) => !in_first && grants_any(&src[i], o),
        };
        assert(wanted == taken_granting(src@[i as int], first@, other));
        if wanted {
            let copy = clone_piece(&src[i]);
            proof {
                lemma_copy_ok(copy, src@[i as int], dm, k, sex);
                lemma_pool_push(dst@, copy, dm, k, sex);
                lemma_holds_copy_push(dst@, copy);
                lemma_appended_push(dst@, old(dst)@, src@, from, copy, i as int);
                from = from.push(i as int);
            }
            dst.push(copy);
        }
        i += 1;
    }
    Ghost(from)
}

/// Appends to `dst` copies of all pieces of `src`, or of those that grant
/// no skill of `without`.
fn append_all<'a>(
    dst: &mut Vec<Equipment<'a>>,
    src: &Vec<Equipment<'a>>,
    without: Option<&StrMap<i32>>,
    Ghost(dm): Ghost<&DataManager>,
    Ghost(k): Ghost<int>,
    Ghost(sex): Ghost<SexType>,
) -> (from: Ghost<Seq<int>>)
    requires
        pool_ok(old(dst)@, dm, k, sex),
        pool_ok(src@, dm, k, sex),
    ensures
        pool_ok(final(dst)@, dm, k, sex),
        final(dst)@.len() >= old(dst)@.len(),
        forall|i: int| 0 <= i < old(dst)@.len() ==> #[trigger] final(dst)@[i] == old(dst)@[i],
        forall|x: Equipment<'a>| #[trigger] holds_copy(old(dst)@, x) ==> holds_copy(final(dst)@, x),
        forall|i: int|
            0 <= i < src@.len() && (match without {
                None => true,
                Some(skills) => !grants_some(#[trigger] src@[i], skills@),
            }) ==> holds_copy(final(dst)@, src@[i]),
        appended(final(dst)@, old(dst)@, src@, from@),
        forall|j: int|
            0 <= j < from@.len() ==> (match without {
                None => true,
                Some(skills) => !grants_some(src@[#[trigger] from@[j]], skills@),
            }),
{
    let ghost mut from: Seq<int> = Seq::empty();
    let mut i: usize = 0;
    while i < src.len()
        invariant
            i <= src@.len(),
            pool_ok(dst@, dm, k, sex),
            pool_ok(src@, dm, k, sex),
            appended(dst@, old(dst)@, src@, from),
            forall|j: int| 0 <= j < from.len() ==> #[trigger] from[j] < i,
            forall|j: int|
                0 <= j < from.len() ==> (match without {
                    None => true,
                    Some(skills) => !grants_some(src@[#[trigger] from[j]], skills@),
                }),
            dst@.len() >= old(dst)@.len(),
            forall|j: int| 0 <= j < old(dst)@.len() ==> #[trigger] dst@[j] == old(dst)@[j],
            forall|x: Equipment<'a>| #[trigger] holds_copy(old(dst)@, x) ==> holds_copy(dst@, x),
            forall|j: int|
                0 <= j < i && (match without {
                    None => true,
                    Some(skills) => !grants_some(#[trigger] src@[j], skills@),
                }) ==> holds_copy(dst@, src@[j]),
        decreases src.len() - i,
    {
        let wanted = match without {
            None => true,
            Some(skills) => !grants_any(&src[i], skills),
        };
        if wanted {
            let copy = clone_piece(&src[i]);
            proof {
                lemma_copy_ok(copy, src@[i as int], dm, k, sex);
                lemma_pool_push(dst@, copy, dm, k, sex);
                lemma_holds_copy_push(dst@, copy);
                lemma_appended_push(dst@, old(dst)@, src@, from, copy, i as int);
                from = from.push(i as int);
            }
            dst.push(copy);
        }
        i += 1;
    }
    Ghost(from)
}

/// The body piece `b` grants a skill of `no_deco` or of `yes_deco`.
pub open spec fn armor_wanted(b: &BaseArmor, no_deco: Map<Seq<char>, i32>, yes_deco: Map<Seq<char>, i32>) -> bool {
    names_some(levels_of(b.skills.entries()), no_deco) || names_some(
        levels_of(b.skills.entries()),
        yes_deco,
    )
}

/// One of the two pools holds a piece with at least the sockets and skills
/// of the body piece `b`.
pub open spec fn armor_covered<'a>(b: &BaseArmor, unique: Seq<Equipment<'a>>, open: Seq<Equipment<'a>>) -> bool {
    above(unique, slot_counts(b.slots@), entries_map(levels_of(b.skills.entries()))) || above(
        open,
        slot_counts(b.slots@),
        entries_map(levels_of(b.skills.entries())),
    )
}

/// One of the two pools holds a piece with at least the sockets and skills
/// of the charm `t`.
pub open spec fn charm_covered<'a>(t: &Talisman, unique: Seq<Equipment<'a>>, open: Seq<Equipment<'a>>) -> bool {
    above(
        unique,
        slot_counts(t.slot_sizes@),
        talisman_levels(t.skills@, t.skills@.len() as int),
    ) || above(open, slot_counts(t.slot_sizes@), talisman_levels(t.skills@, t.skills@.len() as int))
}

/// The charm `t` grants a skill of `no_deco` or of `yes_deco`.
pub open spec fn charm_wanted(t: &Talisman, no_deco: Map<Seq<char>, i32>, yes_deco: Map<Seq<char>, i32>) -> bool {
    exists|id: Seq<char>| #[trigger]
        talisman_levels(t.skills@, t.skills@.len() as int).contains_key(id) && (no_deco.contains_key(
            id,
        ) || yes_deco.contains_key(id))
}

/// The pools of a position hold, for every piece of the catalog that can
/// stand at the position and grants a required skill, and for every
/// socket-only piece that can stand there, a piece with at least its
/// sockets and skills.
pub open spec fn catalog_covered<'a>(
    dm: &DataManager,
    k: int,
    sex: SexType,
    no_deco: Map<Seq<char>, i32>,
    yes_deco: Map<Seq<char>, i32>,
    unique: Seq<Equipment<'a>>,
    open: Seq<Equipment<'a>>,
) -> bool {
    if k < BODY_PARTS {
        &&& forall|i: int|
            0 <= i < dm.bases_by_part@[k]@.len() && usable_armor(
                &#[trigger] dm.bases_by_part@[k]@[i],
                k,
                sex,
            ) && armor_wanted(&dm.bases_by_part@[k]@[i], no_deco, yes_deco) ==> armor_covered(
                &dm.bases_by_part@[k]@[i],
                unique,
                open,
            )
        &&& forall|i: int|
            0 <= i < dm.anomalies_by_part@[k]@.len() && usable_armor(
                &#[trigger] dm.anomalies_by_part@[k]@[i],
                k,
                sex,
            ) && armor_wanted(&dm.anomalies_by_part@[k]@[i], no_deco, yes_deco) ==> armor_covered(
                &dm.anomalies_by_part@[k]@[i],
                unique,
                open,
            )
        &&& forall|i: int|
            0 <= i < dm.slot_only_armors@[k].entries().len() && usable_armor(
                &(#[trigger] dm.slot_only_armors@[k].entries()[i]).1,
                k,
                sex,
            ) ==> armor_covered(&dm.slot_only_armors@[k].entries()[i].1, unique, open)
    } else {
        &&& forall|i: int|
            0 <= i < dm.talismans@.len() && (#[trigger] dm.talismans@[i]).valid() && charm_wanted(
                &dm.talismans@[i],
                no_deco,
                yes_deco,
            ) ==> charm_covered(&dm.talismans@[i], unique, open)
        &&& forall|i: int|
            0 <= i < dm.slot_only_talismans.entries().len() && (
            #[trigger] dm.slot_only_talismans.entries()[i]).1.valid() ==> charm_covered(
                &dm.slot_only_talismans.entries()[i].1,
                unique,
                open,
            )
    }
}

/// The piece `e` stands for a socket-only piece of the catalog for position
/// `k`.
pub open spec fn socket_only<'a>(e: Equipment<'a>, dm: &DataManager, k: int) -> bool {
    match e {
        Equipment::Armor(a) => 0 <= k < BODY_PARTS && exists|i: int|
            0 <= i < dm.slot_only_armors@[k].entries().len() && a.spec_base() == &(
            #[trigger] dm.slot_only_armors@[k].entries()[i]).1,
        Equipment::Talisman(t) => exists|i: int|
            0 <= i < dm.slot_only_talismans.entries().len() && t.spec_tali() == &(
            #[trigger] dm.slot_only_talismans.entries()[i]).1,
    }
}

/// The piece `e` is worth trying at position `k`: it grants a skill of the
/// requirement, or it stands for a socket-only piece.
pub open spec fn needed<'a>(
    e: Equipment<'a>,
    dm: &DataManager,
    k: int,
    no_deco: Map<Seq<char>, i32>,
    yes_deco: Map<Seq<char>, i32>,
) -> bool {
    grants_some(e, no_deco) || grants_some(e, yes_deco) || socket_only(e, dm, k)
}

/// Every piece of the pool is worth trying, or stands for the empty
/// placeholder.
pub open spec fn pool_needed<'a>(
    pool: Seq<Equipment<'a>>,
    dm: &DataManager,
    k: int,
    no_deco: Map<Seq<char>, i32>,
    yes_deco: Map<Seq<char>, i32>,
) -> bool {
    forall|i: int|
        0 <= i < pool.len() ==> needed(#[trigger] pool[i], dm, k, no_deco, yes_deco) || stands_for_empty(
            pool[i],
            dm,
            k,
        )
}

/// A copy of a piece that is worth trying, or that stands for the empty
/// placeholder, is so too.
proof fn lemma_copy_needed<'a>(
    a: Equipment<'a>,
    b: Equipment<'a>,
    dm: &DataManager,
    k: int,
    no_deco: Map<Seq<char>, i32>,
    yes_deco: Map<Seq<char>, i32>,
)
    requires
        is_copy(a, b),
        needed(b, dm, k, no_deco, yes_deco) || stands_for_empty(b, dm, k),
    ensures
        needed(a, dm, k, no_deco, yes_deco) || stands_for_empty(a, dm, k),
{
}

/// A pool of pieces worth trying, with copies of pieces worth trying behind
/// it, is a pool of pieces worth trying.
proof fn lemma_appended_needed<'a>(
    now: Seq<Equipment<'a>>,
    before: Seq<Equipment<'a>>,
    src: Seq<Equipment<'a>>,
    from: Seq<int>,
    dm: &DataManager,
    k: int,
    no_deco: Map<Seq<char>, i32>,
    yes_deco: Map<Seq<char>, i32>,
)
    requires
        appended(now, before, src, from),
        pool_needed(before, dm, k, no_deco, yes_deco),
        forall|j: int|
            0 <= j < from.len() ==> needed(src[#[trigger] from[j]], dm, k, no_deco, yes_deco)
                || stands_for_empty(src[from[j]], dm, k),
    ensures
        pool_needed(now, dm, k, no_deco, yes_deco),
{
    assert forall|i: int| 0 <= i < now.len() implies needed(#[trigger] now[i], dm, k, no_deco, yes_deco)
        || stands_for_empty(now[i], dm, k) by {
        if i < before.len() {
            assert(now[i] == before[i]);
        } else {
            let j = i - before.len();
            assert(0 <= from[j] < src.len());
            assert(is_copy(now[before.len() + j], src[from[j]]));
            lemma_copy_needed(now[i], src[from[j]], dm, k, no_deco, yes_deco);
        }
    }
}

/// Copies of pieces of a pool of pieces worth trying are worth trying.
proof fn lemma_drawn_needed<'a>(
    pool: Seq<Equipment<'a>>,
    source: Seq<Equipment<'a>>,
    dm: &DataManager,
    k: int,
    no_deco: Map<Seq<char>, i32>,
    yes_deco: Map<Seq<char>, i32>,
)
    requires
        all_drawn_from(pool, source),
        pool_needed(source, dm, k, no_deco, yes_deco),
    ensures
        pool_needed(pool, dm, k, no_deco, yes_deco),
{
    assert forall|i: int| 0 <= i < pool.len() implies needed(#[trigger] pool[i], dm, k, no_deco, yes_deco)
        || stands_for_empty(pool[i], dm, k) by {
        assert(drawn_from(pool[i], source));
        let j = choose|j: int| 0 <= j < source.len() && is_copy(pool[i], #[trigger] source[j]);
        lemma_copy_needed(pool[i], source[j], dm, k, no_deco, yes_deco);
    }
}

/// The pools of a position hold nothing that the search can do without:
/// the placeholder aside (the last piece of the first pool and the first
/// piece of the second, where `placeholder` holds), every piece of the first
/// pool grants a skill of `no_deco`, no piece of the second pool does, and
/// no piece of the two pools is dominated by another.
pub open spec fn pools_lean<'a>(
    unique: Seq<Equipment<'a>>,
    open: Seq<Equipment<'a>>,
    no_deco: Map<Seq<char>, i32>,
    placeholder: bool,
) -> bool {
    let first = if placeholder {
        unique.drop_last()
    } else {
        unique
    };
    let second = if placeholder {
        open.drop_first()
    } else {
        open
    };
    &&& forall|i: int| 0 <= i < first.len() ==> grants_some(#[trigger] first[i], no_deco)
    &&& forall|i: int| 0 <= i < second.len() ==> !grants_some(#[trigger] second[i], no_deco)
    &&& undominated(first + second)
}

/// Copies of different pieces of a pool in which no piece is dominated by
/// another are not dominated by one another.
proof fn lemma_copies_undominated<'a>(
    kept: Seq<Equipment<'a>>,
    x: Equipment<'a>,
    i: int,
    y: Equipment<'a>,
    j: int,
)
    requires
        undominated(kept),
        0 <= i < kept.len(),
        0 <= j < kept.len(),
        i != j,
        is_copy(x, kept[i]),
        is_copy(y, kept[j]),
    ensures
        !piece_le(x, y),
{
    assert(!piece_le(kept[i], kept[j]));
}

/// A piece of the pool `listed` that is taken into `relevant`, of which
/// `kept` holds a piece that dominates each, of which `unique` or `open`
/// holds a copy, is dominated by a piece of `unique` or `open`.
proof fn lemma_chain<'a>(
    e: Equipment<'a>,
    relevant: Seq<Equipment<'a>>,
    kept: Seq<Equipment<'a>>,
    unique: Seq<Equipment<'a>>,
    open: Seq<Equipment<'a>>,
)
    requires
        holds_copy(relevant, e),
        forall|j: int| 0 <= j < relevant.len() ==> covered_by(kept, #[trigger] relevant[j]),
        forall|m: int|
            0 <= m < kept.len() ==> holds_copy(unique, #[trigger] kept[m]) || holds_copy(open, kept[m]),
    ensures
        above(unique, e.spec_slots(), entries_map(e.spec_skills())) || above(
            open,
            e.spec_slots(),
            entries_map(e.spec_skills()),
        ),
{
    let j = choose|j: int| 0 <= j < relevant.len() && is_copy(#[trigger] relevant[j], e);
    assert(covered_by(kept, relevant[j]));
    let m = choose|m: int| 0 <= m < kept.len() && piece_le(relevant[j], #[trigger] kept[m]);
    if holds_copy(unique, kept[m]) {
        let y = choose|y: int| 0 <= y < unique.len() && is_copy(#[trigger] unique[y], kept[m]);
        assert(dominated(
            e.spec_slots(),
            entries_map(e.spec_skills()),
            unique[y].spec_slots(),
            entries_map(unique[y].spec_skills()),
        ));
    } else {
        let y = choose|y: int| 0 <= y < open.len() && is_copy(#[trigger] open[y], kept[m]);
        assert(dominated(
            e.spec_slots(),
            entries_map(e.spec_skills()),
            open[y].spec_slots(),
            entries_map(open[y].spec_skills()),
        ));
    }
}

/// The pools of position `k` of a build for a requirement split into the
/// skills without decoration (`no_deco`) and the skills with one
/// (`yes_deco`).
///
/// The pieces of the position that grant a required skill and its
/// socket-only pieces are taken together, and those that another of them
/// dominates are dropped. The first pool holds the pieces left that grant a
/// skill without decoration, and the empty placeholder. The second pool
/// holds the empty placeholder and the other pieces left: what can stand in
/// the place of the empty placeholder of the first.
pub fn position_pools<'a>(
    dm: &'a DataManager,
    k: usize,
    no_deco: &StrMap<i32>,
    yes_deco: &StrMap<i32>,
    sex: SexType,
) -> (r: (Vec<Equipment<'a>>, Vec<Equipment<'a>>))
    requires
        dm.wf(),
        k < 6,
    ensures
        pool_ok(r.0@, dm, k as int, sex),
        pool_ok(r.1@, dm, k as int, sex),
        empty_usable(dm, k as int, sex) ==> r.0@.len() > 0 && stands_for_empty(
            r.0@[r.0@.len() - 1],
            dm,
            k as int,
        ) && r.1@.len() > 0 && stands_for_empty(r.1@[0], dm, k as int),
        catalog_covered(dm, k as int, sex, no_deco@, yes_deco@, r.0@, r.1@),
        pools_lean(r.0@, r.1@, no_deco@, empty_usable(dm, k as int, sex)),
        pool_needed(r.0@, dm, k as int, no_deco@, yes_deco@),
        pool_needed(r.1@, dm, k as int, no_deco@, yes_deco@),
{
    let listed = if k < BODY_PARTS {
        armor_pool(dm, k, sex)
    } else {
        charm_pool(dm, sex)
    };
    let slot_only = if k < BODY_PARTS {
        slot_only_pool(dm, k, sex)
    } else {
        slot_charm_pool(dm, sex)
    };
    let mut relevant: Vec<Equipment<'a>> = Vec::new();
    let ghost stage0 = relevant@;
    let from_no = append_granting(
        &mut relevant,
        &listed,
        no_deco,
        None,
        Ghost(dm),
        Ghost(k as int),
        Ghost(sex),
    );
    let ghost stage1 = relevant@;
    proof {
        lemma_appended_needed(stage1, stage0, listed@, from_no@, dm, k as int, no_deco@, yes_deco@);
    }
    let from_yes = append_granting(
        &mut relevant,
        &listed,
        no_deco,
        Some(yes_deco),
        Ghost(dm),
        Ghost(k as int),
        Ghost(sex),
    );
    let ghost stage2 = relevant@;
    proof {
        lemma_appended_needed(stage2, stage1, listed@, from_yes@, dm, k as int, no_deco@, yes_deco@);
    }
    let from_slots = append_all(
        &mut relevant,
        &slot_only,
        None,
        Ghost(dm),
        Ghost(k as int),
        Ghost(sex),
    );
    let ghost source = relevant@;
    let kept = drop_dominated(relevant);
    proof {
        lemma_drawn_ok(kept@, source, dm, k as int, sex);
        assert forall|j: int| 0 <= j < from_slots@.len() implies needed(
            slot_only@[#[trigger] from_slots@[j]],
            dm,
            k as int,
            no_deco@,
            yes_deco@,
        ) by {
            assert(socket_only(slot_only@[from_slots@[j]], dm, k as int));
        }
        lemma_appended_needed(source, stage2, slot_only@, from_slots@, dm, k as int, no_deco@, yes_deco@);
        lemma_drawn_needed(kept@, source, dm, k as int, no_deco@, yes_deco@);
    }
    let mut unique: Vec<Equipment<'a>> = Vec::new();
    let from_first = append_granting(
        &mut unique,
        &kept,
        no_deco,
        None,
        Ghost(dm),
        Ghost(k as int),
        Ghost(sex),
    );
    let ghost first = unique@;
    proof {
        lemma_appended_needed(
            first,
            Seq::empty(),
            kept@,
            from_first@,
            dm,
            k as int,
            no_deco@,
            yes_deco@,
        );
    }
    match empty_piece(dm, k, sex) {
        Some(e) => {
            proof {
                lemma_pool_push(unique@, e, dm, k as int, sex);
                lemma_holds_copy_push(unique@, e);
            }
            unique.push(e);
        },
        None => {},
    }
    let mut open: Vec<Equipment<'a>> = Vec::new();
    match empty_piece(dm, k, sex) {
        Some(e) => {
            proof {
                lemma_pool_push(open@, e, dm, k as int, sex);
            }
            open.push(e);
        },
        None => {},
    }
    let ghost head = open@;
    let from_second = append_all(
        &mut open,
        &kept,
        Some(no_deco),
        Ghost(dm),
        Ghost(k as int),
        Ghost(sex),
    );
    proof {
        lemma_appended_needed(open@, head, kept@, from_second@, dm, k as int, no_deco@, yes_deco@);
    }
    proof {
        let placeholder = empty_usable(dm, k as int, sex);
        let second = open@.subrange(head.len() as int, open@.len() as int);
        assert(first =~= if placeholder {
            unique@.drop_last()
        } else {
            unique@
        });
        assert(second =~= if placeholder {
            open@.drop_first()
        } else {
            open@
        });
        assert forall|i: int| 0 <= i < first.len() implies grants_some(#[trigger] first[i], no_deco@) by {
            assert(taken_granting(kept@[from_first@[i]], no_deco@, None));
            assert(is_copy(first[i], kept@[from_first@[i]]));
        }
        assert forall|i: int| 0 <= i < second.len() implies !grants_some(#[trigger] second[i], no_deco@) by {
            assert(!grants_some(kept@[from_second@[i]], no_deco@));
            assert(is_copy(open@[head.len() + i], kept@[from_second@[i]]));
        }
        let both = first + second;
        assert forall|i: int, j: int| 0 <= i < both.len() && 0 <= j < both.len() && i != j implies !piece_le(
            #[trigger] both[i],
            #[trigger] both[j],
        ) by {
            let a = if i < first.len() {
                from_first@[i]
            } else {
                from_second@[i - first.len()]
            };
            let b = if j < first.len() {
                from_first@[j]
            } else {
                from_second@[j - first.len()]
            };
            if i < first.len() {
                assert(is_copy(first[i], kept@[from_first@[i]]));
                assert(taken_granting(kept@[from_first@[i]], no_deco@, None));
            } else {
                assert(is_copy(open@[head.len() + (i - first.len())], kept@[from_second@[i - first.len()]]));
                assert(!grants_some(kept@[from_second@[i - first.len()]], no_deco@));
            }
            if j < first.len() {
                assert(is_copy(first[j], kept@[from_first@[j]]));
                assert(taken_granting(kept@[from_first@[j]], no_deco@, None));
            } else {
                assert(is_copy(open@[head.len() + (j - first.len())], kept@[from_second@[j - first.len()]]));
                assert(!grants_some(kept@[from_second@[j - first.len()]], no_deco@));
            }
            if i < first.len() && j < first.len() {
                if i < j {
                    assert(from_first@[i] < from_first@[j]);
                } else {
                    assert(from_first@[j] < from_first@[i]);
                }
            } else if i >= first.len() && j >= first.len() {
                if i < j {
                    assert(from_second@[i - first.len()] < from_second@[j - first.len()]);
                } else {
                    assert(from_second@[j - first.len()] < from_second@[i - first.len()]);
                }
            }
            assert(a != b);
            lemma_copies_undominated(kept@, both[i], a, both[j], b);
        }
        assert(pools_lean(unique@, open@, no_deco@, placeholder));
    }
    proof {
        assert forall|m: int| 0 <= m < kept@.len() implies holds_copy(unique@, #[trigger] kept@[m])
            || holds_copy(open@, kept@[m]) by {
            if grants_some(kept@[m], no_deco@) {
                assert(taken_granting(kept@[m], no_deco@, None));
            }
        }
        assert forall|e: Equipment<'a>|
            #![trigger holds_copy(source, e)]
            holds_copy(source, e) implies above(unique@, e.spec_slots(), entries_map(e.spec_skills()))
            || above(open@, e.spec_slots(), entries_map(e.spec_skills())) by {
            lemma_chain(e, source, kept@, unique@, open@);
        }
        if k < BODY_PARTS {
            assert forall|b: &BaseArmor|
                #![trigger has_armor(listed@, b)]
                has_armor(listed@, b) && armor_wanted(b, no_deco@, yes_deco@) implies armor_covered(
                b,
                unique@,
                open@,
            ) by {
                let j = choose|j: int|
                    0 <= j < listed@.len() && (#[trigger] listed@[j]) is Armor
                        && listed@[j]->Armor_0.spec_base() == b;
                let e = listed@[j];
                assert(piece_ok(e, dm, k as int, sex));
                assert(e.spec_skills() == levels_of(b.skills.entries()));
                if grants_some(e, no_deco@) {
                    assert(taken_granting(e, no_deco@, None));
                } else {
                    assert(taken_granting(e, no_deco@, Some(yes_deco@)));
                }
                assert(holds_copy(source, e));
            }
            assert forall|b: &BaseArmor|
                #![trigger has_armor(slot_only@, b)]
                has_armor(slot_only@, b) implies armor_covered(b, unique@, open@) by {
                let j = choose|j: int|
                    0 <= j < slot_only@.len() && (#[trigger] slot_only@[j]) is Armor
                        && slot_only@[j]->Armor_0.spec_base() == b;
                let e = slot_only@[j];
                assert(piece_ok(e, dm, k as int, sex));
                assert(holds_copy(source, e));
            }
            assert forall|i: int|
                0 <= i < dm.bases_by_part@[k as int]@.len() && usable_armor(
                    &#[trigger] dm.bases_by_part@[k as int]@[i],
                    k as int,
                    sex,
                ) && armor_wanted(&dm.bases_by_part@[k as int]@[i], no_deco@, yes_deco@) implies armor_covered(
                &dm.bases_by_part@[k as int]@[i],
                unique@,
                open@,
            ) by {
                assert(has_armor(listed@, &dm.bases_by_part@[k as int]@[i]));
            }
            assert forall|i: int|
                0 <= i < dm.anomalies_by_part@[k as int]@.len() && usable_armor(
                    &#[trigger] dm.anomalies_by_part@[k as int]@[i],
                    k as int,
                    sex,
                ) && armor_wanted(&dm.anomalies_by_part@[k as int]@[i], no_deco@, yes_deco@) implies armor_covered(
                &dm.anomalies_by_part@[k as int]@[i],
                unique@,
                open@,
            ) by {
                assert(has_armor(listed@, &dm.anomalies_by_part@[k as int]@[i]));
            }
            assert forall|i: int|
                0 <= i < dm.slot_only_armors@[k as int].entries().len() && usable_armor(
                    &(#[trigger] dm.slot_only_armors@[k as int].entries()[i]).1,
                    k as int,
                    sex,
                ) implies armor_covered(&dm.slot_only_armors@[k as int].entries()[i].1, unique@, open@) by {
                assert(has_armor(slot_only@, &dm.slot_only_armors@[k as int].entries()[i].1));
            }
        } else {
            assert forall|t: &Talisman|
                #![trigger has_charm(listed@, t)]
                has_charm(listed@, t) && charm_wanted(t, no_deco@, yes_deco@) implies charm_covered(
                t,
                unique@,
                open@,
            ) by {
                let j = choose|j: int|
                    0 <= j < listed@.len() && (#[trigger] listed@[j]) is Talisman
                        && listed@[j]->Talisman_0.spec_tali() == t;
                let e = listed@[j];
                assert(piece_ok(e, dm, k as int, sex));
                let id = choose|id: Seq<char>| #[trigger]
                    talisman_levels(t.skills@, t.skills@.len() as int).contains_key(id) && (
                    no_deco@.contains_key(id) || yes_deco@.contains_key(id));
                assert(entries_map(e.spec_skills()).contains_key(id));
                let i = crate::str_map::key_index(e.spec_skills(), id);
                assert(e.spec_skills()[i].0 == id);
                if grants_some(e, no_deco@) {
                    assert(taken_granting(e, no_deco@, None));
                } else {
                    assert(yes_deco@.contains_key(e.spec_skills()[i].0));
                    assert(grants_some(e, yes_deco@));
                    assert(taken_granting(e, no_deco@, Some(yes_deco@)));
                }
                assert(holds_copy(source, e));
            }
            assert forall|t: &Talisman|
                #![trigger has_charm(slot_only@, t)]
                has_charm(slot_only@, t) implies charm_covered(t, unique@, open@) by {
                let j = choose|j: int|
                    0 <= j < slot_only@.len() && (#[trigger] slot_only@[j]) is Talisman
                        && slot_only@[j]->Talisman_0.spec_tali() == t;
                let e = slot_only@[j];
                assert(piece_ok(e, dm, k as int, sex));
                assert(holds_copy(source, e));
            }
            assert forall|i: int|
                0 <= i < dm.talismans@.len() && (#[trigger] dm.talismans@[i]).valid() && charm_wanted(
                    &dm.talismans@[i],
                    no_deco@,
                    yes_deco@,
                ) implies charm_covered(&dm.talismans@[i], unique@, open@) by {
                assert(has_charm(listed@, &dm.talismans@[i]));
            }
            assert forall|i: int|
                0 <= i < dm.slot_only_talismans.entries().len() && (
                #[trigger] dm.slot_only_talismans.entries()[i]).1.valid() implies charm_covered(
                &dm.slot_only_talismans.entries()[i].1,
                unique@,
                open@,
            ) by {
                assert(has_charm(slot_only@, &dm.slot_only_talismans.entries()[i].1));
            }
        }
    }
    (unique, open)
}

} // verus!
