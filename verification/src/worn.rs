//! What the pools of a search never hold.
//!
//! A piece of the catalog that grants a required skill, and that a piece of
//! the catalog which can be worn dominates without being dominated by it,
//! stands in no pool of the search, and so in no build of an answer. Nor
//! does a piece that grants no required skill: a socket-only piece stands
//! for it.

use crate::calc::armor::levels_of;
use crate::calc::calc_equipment::{CalcEquipment, dominated};
use crate::calc::equipment::Equipment;
use crate::counter::in_range;
use crate::data::armor::{BaseArmor, SexType};
use crate::data::data_manager::{BODY_PARTS, DataManager};
use crate::solver::{
    chosen, grants_all, is_copy_tuple, is_open, pool_widths, searched, widened, widths,
};
use crate::solver_pools::{
    above, armor_covered, armor_wanted, catalog_covered, empty_usable, names_some, needed, piece_le,
    piece_ok, pool_needed, pool_ok, pools_lean, seen_right, slot_counts, stands_for_empty,
    undominated, usable_armor,
};
use crate::solver_pools::is_copy;
use crate::str_map::{StrMap, entries_map, has_key};
use vstd::prelude::*;

verus! {

/// The body piece `low` is dominated by the body piece `high` and does not
/// dominate it.
pub open spec fn outdone(low: &BaseArmor, high: &BaseArmor) -> bool {
    &&& dominated(
        slot_counts(low.slots@),
        entries_map(levels_of(low.skills.entries())),
        slot_counts(high.slots@),
        entries_map(levels_of(high.skills.entries())),
    )
    &&& !dominated(
        slot_counts(high.slots@),
        entries_map(levels_of(high.skills.entries())),
        slot_counts(low.slots@),
        entries_map(levels_of(low.skills.entries())),
    )
}

/// The pools of position `k` are as a search makes them for the skills
/// without decoration `no_deco` and the skills with one `yes_deco`.
pub open spec fn pools_made<'a>(
    unique: Seq<Equipment<'a>>,
    open: Seq<Equipment<'a>>,
    dm: &DataManager,
    k: int,
    sex: SexType,
    no_deco: Map<Seq<char>, i32>,
    yes_deco: Map<Seq<char>, i32>,
) -> bool {
    &&& pool_ok(unique, dm, k, sex)
    &&& pool_ok(open, dm, k, sex)
    &&& empty_usable(dm, k, sex) ==> unique.len() > 0 && stands_for_empty(
        unique[unique.len() - 1],
        dm,
        k,
    ) && open.len() > 0 && stands_for_empty(open[0], dm, k)
    &&& catalog_covered(dm, k, sex, no_deco, yes_deco, unique, open)
    &&& pools_lean(unique, open, no_deco, empty_usable(dm, k, sex))
    &&& pool_needed(unique, dm, k, no_deco, yes_deco)
    &&& pool_needed(open, dm, k, no_deco, yes_deco)
}

/// A piece that grants a skill of the requirement has a skill.
proof fn lemma_wanted_has_skill(
    b: &BaseArmor,
    no_deco: Map<Seq<char>, i32>,
    yes_deco: Map<Seq<char>, i32>,
)
    requires
        armor_wanted(b, no_deco, yes_deco),
    ensures
        b.skills.entries().len() > 0,
        exists|id: Seq<char>| entries_map(levels_of(b.skills.entries())).contains_key(id),
{
    let own = levels_of(b.skills.entries());
    let i = if names_some(own, no_deco) {
        choose|i: int| 0 <= i < own.len() && no_deco.contains_key((#[trigger] own[i]).0)
    } else {
        choose|i: int| 0 <= i < own.len() && yes_deco.contains_key((#[trigger] own[i]).0)
    };
    assert(has_key(own, own[i].0));
    assert(entries_map(own).contains_key(own[i].0));
}

/// The piece of a pool that stands for the empty placeholder has no skill.
proof fn lemma_placeholder_bare<'a>(e: Equipment<'a>, dm: &DataManager, k: int, sex: SexType)
    requires
        0 <= k < BODY_PARTS,
        empty_usable(dm, k, sex),
        stands_for_empty(e, dm, k),
        piece_ok(e, dm, k, sex),
    ensures
        e.spec_skills().len() == 0,
        forall|id: Seq<char>| !entries_map(e.spec_skills()).contains_key(id),
{
    assert(seen_right(e));
    assert(e is Armor);
    assert(e.spec_skills().len() == 0);
    assert forall|id: Seq<char>| !entries_map(e.spec_skills()).contains_key(id) by {
        if has_key(e.spec_skills(), id) {
            let i = choose|i: int| 0 <= i < e.spec_skills().len() && (#[trigger] e.spec_skills()[i]).0 == id;
        }
    }
}

/// The pieces of the two pools of a position without the placeholder.
pub open spec fn pooled<'a>(unique: Seq<Equipment<'a>>, open: Seq<Equipment<'a>>, placeholder: bool) -> Seq<
    Equipment<'a>,
> {
    (if placeholder {
        unique.drop_last()
    } else {
        unique
    }) + (if placeholder {
        open.drop_first()
    } else {
        open
    })
}

/// A piece of one of the pools of a position that has a skill is one of the
/// pieces of the pools without the placeholder.
proof fn lemma_in_pooled<'a>(
    unique: Seq<Equipment<'a>>,
    open: Seq<Equipment<'a>>,
    dm: &DataManager,
    k: int,
    sex: SexType,
    no_deco: Map<Seq<char>, i32>,
    yes_deco: Map<Seq<char>, i32>,
    first: bool,
    j: int,
) -> (at: int)
    requires
        0 <= k < BODY_PARTS,
        pools_made(unique, open, dm, k, sex, no_deco, yes_deco),
        if first {
            0 <= j < unique.len() && unique[j].spec_skills().len() > 0
        } else {
            0 <= j < open.len() && open[j].spec_skills().len() > 0
        },
    ensures
        0 <= at < pooled(unique, open, empty_usable(dm, k, sex)).len(),
        pooled(unique, open, empty_usable(dm, k, sex))[at] == if first {
            unique[j]
        } else {
            open[j]
        },
{
    let placeholder = empty_usable(dm, k, sex);
    let head = if placeholder {
        unique.drop_last()
    } else {
        unique
    };
    if placeholder {
        lemma_placeholder_bare(unique[unique.len() - 1], dm, k, sex);
        lemma_placeholder_bare(open[0], dm, k, sex);
    }
    if first {
        assert(head[j] == unique[j]);
        j
    } else if placeholder {
        assert(open.drop_first()[j - 1] == open[j]);
        head.len() + j - 1
    } else {
        head.len() + j
    }
}

/// A body piece of the catalog that grants a required skill, and that a
/// piece of the catalog for the same position which can be worn dominates
/// without being dominated by it, stands in neither pool of the position.
pub proof fn lemma_outdone_not_pooled<'a>(
    unique: Seq<Equipment<'a>>,
    open: Seq<Equipment<'a>>,
    dm: &DataManager,
    k: int,
    sex: SexType,
    no_deco: Map<Seq<char>, i32>,
    yes_deco: Map<Seq<char>, i32>,
    low: &BaseArmor,
    i: int,
    first: bool,
    j: int,
)
    requires
        0 <= k < BODY_PARTS,
        pools_made(unique, open, dm, k, sex, no_deco, yes_deco),
        armor_wanted(low, no_deco, yes_deco),
        0 <= i < dm.bases_by_part@[k]@.len(),
        usable_armor(&dm.bases_by_part@[k]@[i], k, sex),
        armor_wanted(&dm.bases_by_part@[k]@[i], no_deco, yes_deco),
        outdone(low, &dm.bases_by_part@[k]@[i]),
        if first {
            0 <= j < unique.len()
        } else {
            0 <= j < open.len()
        },
    ensures
        match (if first {
            unique[j]
        } else {
            open[j]
        }) {
            Equipment::Armor(a) => a.spec_base() != low,
            Equipment::Talisman(_) => true,
        },
{
    let x = if first {
        unique[j]
    } else {
        open[j]
    };
    let high = &dm.bases_by_part@[k]@[i];
    let placeholder = empty_usable(dm, k, sex);
    if x is Armor && x->Armor_0.spec_base() == low {
        assert(piece_ok(x, dm, k, sex));
        assert(seen_right(x));
        lemma_wanted_has_skill(low, no_deco, yes_deco);
        lemma_wanted_has_skill(high, no_deco, yes_deco);
        assert(x.spec_skills() == levels_of(low.skills.entries()));
        let ax = lemma_in_pooled(unique, open, dm, k, sex, no_deco, yes_deco, first, j);
        assert(armor_covered(high, unique, open));
        let in_first = above(
            unique,
            slot_counts(high.slots@),
            entries_map(levels_of(high.skills.entries())),
        );
        let pool = if in_first {
            unique
        } else {
            open
        };
        let y = choose|y: int|
            0 <= y < pool.len() && dominated(
                slot_counts(high.slots@),
                entries_map(levels_of(high.skills.entries())),
                (#[trigger] pool[y]).spec_slots(),
                entries_map(pool[y].spec_skills()),
            );
        let z = pool[y];
        let id = choose|id: Seq<char>| entries_map(levels_of(high.skills.entries())).contains_key(id);
        assert(entries_map(z.spec_skills()).contains_key(id));
        assert(has_key(z.spec_skills(), id));
        assert(z.spec_skills().len() > 0);
        let az = lemma_in_pooled(unique, open, dm, k, sex, no_deco, yes_deco, in_first, y);
        lemma_chain_le(
            x.spec_slots(),
            entries_map(x.spec_skills()),
            slot_counts(high.slots@),
            entries_map(levels_of(high.skills.entries())),
            z.spec_slots(),
            entries_map(z.spec_skills()),
        );
        assert(piece_le(x, z));
        let all = pooled(unique, open, placeholder);
        assert(undominated(all));
        if ax != az {
            assert(!piece_le(all[ax], all[az]));
        }
        assert(false);
    }
}

/// Dominance carries over.
proof fn lemma_chain_le(
    sa: Seq<i32>,
    ma: Map<Seq<char>, i32>,
    sb: Seq<i32>,
    mb: Map<Seq<char>, i32>,
    sc: Seq<i32>,
    mc: Map<Seq<char>, i32>,
)
    requires
        dominated(sa, ma, sb, mb),
        dominated(sb, mb, sc, mc),
    ensures
        dominated(sa, ma, sc, mc),
{
    assert forall|k: Seq<char>| #[trigger] ma.contains_key(k) implies mc.contains_key(k) && ma[k]
        <= mc[k] by {
        assert(mb.contains_key(k));
    }
    assert forall|i: int| 0 <= i < sa.len() implies #[trigger] sa[i] <= sc[i] by {
        assert(sa[i] <= sb[i]);
        assert(sb[i] <= sc[i]);
    }
}

/// A body piece of the catalog that grants a required skill, and that a
/// piece of the catalog for the same position which can be worn dominates
/// without being dominated by it, stands in no build that a search tries,
/// and so in no build of its answer.
pub proof fn lemma_outdone_never_worn<'a>(
    t: Seq<Equipment<'a>>,
    unique: Seq<Vec<Equipment<'a>>>,
    open: Seq<Vec<Equipment<'a>>>,
    dm: &DataManager,
    k: int,
    sex: SexType,
    no_deco: StrMap<i32>,
    yes_deco: Map<Seq<char>, i32>,
    low: &BaseArmor,
    i: int,
)
    requires
        0 <= k < BODY_PARTS,
        unique.len() == 6,
        open.len() == 6,
        searched(t, unique, open, no_deco.entries()),
        pools_made(unique[k]@, open[k]@, dm, k, sex, no_deco@, yes_deco),
        armor_wanted(low, no_deco@, yes_deco),
        0 <= i < dm.bases_by_part@[k]@.len(),
        usable_armor(&dm.bases_by_part@[k]@[i], k, sex),
        armor_wanted(&dm.bases_by_part@[k]@[i], no_deco@, yes_deco),
        outdone(low, &dm.bases_by_part@[k]@[i]),
    ensures
        match t[k] {
            Equipment::Armor(a) => a.spec_base() != low,
            Equipment::Talisman(_) => true,
        },
{
    let (u, e) = choose|u: Seq<int>, e: Seq<int>|
        #![trigger widened(unique, open, u, e)]
        in_range(u, pool_widths(unique)) && grants_all(no_deco.entries(), chosen(unique, u))
            && in_range(e, widths(unique, open, u)) && is_copy_tuple(t, widened(unique, open, u, e));
    let w = widened(unique, open, u, e);
    assert(is_copy(t[k], w[k]));
    assert(0 <= u[k] < pool_widths(unique)[k]);
    assert(0 <= e[k] < widths(unique, open, u)[k]);
    if is_open(unique, open, u, k) {
        lemma_outdone_not_pooled(
            unique[k]@,
            open[k]@,
            dm,
            k,
            sex,
            no_deco@,
            yes_deco,
            low,
            i,
            false,
            e[k],
        );
    } else {
        lemma_outdone_not_pooled(
            unique[k]@,
            open[k]@,
            dm,
            k,
            sex,
            no_deco@,
            yes_deco,
            low,
            i,
            true,
            u[k],
        );
    }
}

/// The body piece `b` is a piece of its own: neither a socket-only piece of
/// the catalog for position `k` nor its empty placeholder.
pub open spec fn own_piece(b: &BaseArmor, dm: &DataManager, k: int) -> bool {
    &&& b != &dm.empty_armors@[k]
    &&& forall|i: int|
        0 <= i < dm.slot_only_armors@[k].entries().len() ==> b != &(
        #[trigger] dm.slot_only_armors@[k].entries()[i]).1
}

/// A body piece of its own that grants no skill of the requirement stands
/// in neither pool of its position: a socket-only piece stands for it.
pub proof fn lemma_unneeded_not_pooled<'a>(
    unique: Seq<Equipment<'a>>,
    open: Seq<Equipment<'a>>,
    dm: &DataManager,
    k: int,
    sex: SexType,
    no_deco: Map<Seq<char>, i32>,
    yes_deco: Map<Seq<char>, i32>,
    b: &BaseArmor,
    first: bool,
    j: int,
)
    requires
        0 <= k < BODY_PARTS,
        pools_made(unique, open, dm, k, sex, no_deco, yes_deco),
        own_piece(b, dm, k),
        !armor_wanted(b, no_deco, yes_deco),
        if first {
            0 <= j < unique.len()
        } else {
            0 <= j < open.len()
        },
    ensures
        match (if first {
            unique[j]
        } else {
            open[j]
        }) {
            Equipment::Armor(a) => a.spec_base() != b,
            Equipment::Talisman(_) => true,
        },
{
    let x = if first {
        unique[j]
    } else {
        open[j]
    };
    if x is Armor && x->Armor_0.spec_base() == b {
        assert(piece_ok(x, dm, k, sex));
        assert(seen_right(x));
        assert(needed(x, dm, k, no_deco, yes_deco) || stands_for_empty(x, dm, k));
        assert(x.spec_skills() == levels_of(b.skills.entries()));
        assert(false);
    }
}

/// A body piece of its own that grants no skill of the requirement stands
/// in no build that a search tries, and so in no build of its answer.
pub proof fn lemma_unneeded_never_worn<'a>(
    t: Seq<Equipment<'a>>,
    unique: Seq<Vec<Equipment<'a>>>,
    open: Seq<Vec<Equipment<'a>>>,
    dm: &DataManager,
    k: int,
    sex: SexType,
    no_deco: StrMap<i32>,
    yes_deco: Map<Seq<char>, i32>,
    b: &BaseArmor,
)
    requires
        0 <= k < BODY_PARTS,
        unique.len() == 6,
        open.len() == 6,
        searched(t, unique, open, no_deco.entries()),
        pools_made(unique[k]@, open[k]@, dm, k, sex, no_deco@, yes_deco),
        own_piece(b, dm, k),
        !armor_wanted(b, no_deco@, yes_deco),
    ensures
        match t[k] {
            Equipment::Armor(a) => a.spec_base() != b,
            Equipment::Talisman(_) => true,
        },
{
    let (u, e) = choose|u: Seq<int>, e: Seq<int>|
        #![trigger widened(unique, open, u, e)]
        in_range(u, pool_widths(unique)) && grants_all(no_deco.entries(), chosen(unique, u))
            && in_range(e, widths(unique, open, u)) && is_copy_tuple(t, widened(unique, open, u, e));
    let w = widened(unique, open, u, e);
    assert(is_copy(t[k], w[k]));
    assert(0 <= u[k] < pool_widths(unique)[k]);
    assert(0 <= e[k] < widths(unique, open, u)[k]);
    if is_open(unique, open, u, k) {
        lemma_unneeded_not_pooled(unique[k]@, open[k]@, dm, k, sex, no_deco@, yes_deco, b, false, e[k]);
    } else {
        lemma_unneeded_not_pooled(unique[k]@, open[k]@, dm, k, sex, no_deco@, yes_deco, b, true, u[k]);
    }
}

} // verus!
