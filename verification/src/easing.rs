//! Asking for less.
//!
//! A demand *eases* another when it can be placed wherever the other can.
//! The table's costs for a lower level ease those for a higher one, so a
//! requirement that decorations can meet can still be met once levels are
//! lowered.

use crate::counter::in_range;
use crate::data::data_manager::{DataManager, table_built};
use crate::data::deco::Decoration;
use crate::data::deco_build::{
    MAX_LEVEL_LIMIT, bucket_ok, copies_needed, cost_matches, decos_valid, granted, rows,
};
use crate::data::deco_combination::{
    choice_sum, is_choice, levels_ok, list_lens, lists_slots, sum_fits, sum_vec,
};
use crate::data::deco_complete::{
    counts_nonneg, lemma_bucket_complete, lemma_cost_sums, lighter, serves, sizes_rise, used_from,
};
use crate::data::deco_walk::{lemma_choice_sum_bounds, some_choice_fits};
use crate::data::skill::MAX_SLOT_LEVEL;
use crate::laws::{grants, lemma_combo_grants, lemma_lists_slots};
use crate::slots::{
    eases, fits, is_slots, lemma_fits_by_suffix, lemma_le_eases, slots_le, suffix_sum,
};
use crate::str_map::{entries_map, key_index, lemma_entry_in_map};
use vstd::arithmetic::div_mod::{lemma_fundamental_div_mod, lemma_mod_bound};
use vstd::prelude::*;

verus! {

/// Every cost of `high` is eased by some cost of `low`.
pub open spec fn list_eases(low: Seq<Seq<i32>>, high: Seq<Seq<i32>>) -> bool {
    forall|j: int| 0 <= j < high.len() ==> eased_by(low, #[trigger] high[j])
}

/// Some cost of `low` eases `v`.
pub open spec fn eased_by(low: Seq<Seq<i32>>, v: Seq<i32>) -> bool {
    exists|i: int| 0 <= i < low.len() && eases(#[trigger] low[i], v)
}

/// Skill by skill, every cost of `high` is eased by some cost of `low`.
pub open spec fn lists_ease(low: Seq<Seq<Seq<i32>>>, high: Seq<Seq<Seq<i32>>>) -> bool {
    &&& low.len() == high.len()
    &&& forall|k: int| 0 <= k < high.len() ==> list_eases(#[trigger] low[k], high[k])
}

/// The sockets of the sizes from index `t` on that the first `k` choices of
/// `c` cost.
pub open spec fn choice_tail(lists: Seq<Seq<Seq<i32>>>, c: Seq<int>, k: int, t: int) -> int
    decreases k,
{
    if k <= 0 {
        0
    } else {
        choice_tail(lists, c, k - 1, t) + suffix_sum(lists[k - 1][c[k - 1]], t)
    }
}

/// What eases a demand that fits, fits.
pub proof fn lemma_eases_fits(free: Seq<i32>, a: Seq<i32>, b: Seq<i32>)
    requires
        is_slots(free),
        is_slots(a),
        is_slots(b),
        eases(a, b),
        fits(free, b),
    ensures
        fits(free, a),
{
    lemma_fits_by_suffix(free, b);
    lemma_fits_by_suffix(free, a);
    assert forall|t: int| 0 <= t < MAX_SLOT_LEVEL implies #[trigger] suffix_sum(a, t) <= suffix_sum(
        free,
        t,
    ) by {
        assert(suffix_sum(b, t) <= suffix_sum(free, t));
    }
}

/// The sockets from a size on that the choices cost are those of each size
/// from it on, taken together.
proof fn lemma_tail_by_size(lists: Seq<Seq<Seq<i32>>>, c: Seq<int>, k: int)
    requires
        0 <= k <= lists.len(),
    ensures
        choice_tail(lists, c, k, 3) == choice_sum(lists, c, k, 3),
        choice_tail(lists, c, k, 2) == choice_sum(lists, c, k, 2) + choice_tail(lists, c, k, 3),
        choice_tail(lists, c, k, 1) == choice_sum(lists, c, k, 1) + choice_tail(lists, c, k, 2),
        choice_tail(lists, c, k, 0) == choice_sum(lists, c, k, 0) + choice_tail(lists, c, k, 1),
    decreases k,
{
    reveal_with_fuel(suffix_sum, 5);
    if k > 0 {
        lemma_tail_by_size(lists, c, k - 1);
    }
}

/// Choices that ease other choices skill by skill cost no more from any size
/// on.
proof fn lemma_tail_eases(
    low: Seq<Seq<Seq<i32>>>,
    c2: Seq<int>,
    high: Seq<Seq<Seq<i32>>>,
    c: Seq<int>,
    k: int,
    t: int,
)
    requires
        0 <= k <= high.len(),
        low.len() == high.len(),
        0 <= t < MAX_SLOT_LEVEL,
        forall|i: int| 0 <= i < high.len() ==> eases(#[trigger] low[i][c2[i]], high[i][c[i]]),
    ensures
        choice_tail(low, c2, k, t) <= choice_tail(high, c, k, t),
    decreases k,
{
    if k > 0 {
        lemma_tail_eases(low, c2, high, c, k - 1, t);
        assert(eases(low[k - 1][c2[k - 1]], high[k - 1][c[k - 1]]));
    }
}

/// Choices that cost no more from any size on than choices that fit the
/// free sockets fit them too.
pub proof fn lemma_lighter_choice_fits(
    low: Seq<Seq<Seq<i32>>>,
    c2: Seq<int>,
    high: Seq<Seq<Seq<i32>>>,
    c: Seq<int>,
    free: Seq<i32>,
)
    requires
        lists_slots(low),
        lists_slots(high),
        is_slots(free),
        suffix_sum(free, 0) <= i32::MAX,
        is_choice(high, c),
        fits(free, sum_vec(high, c)),
        in_range(c2, list_lens(low)),
        forall|t: int|
            0 <= t < MAX_SLOT_LEVEL ==> #[trigger] choice_tail(low, c2, low.len() as int, t)
                <= choice_tail(high, c, high.len() as int, t),
    ensures
        is_choice(low, c2),
        fits(free, sum_vec(low, c2)),
{
    let n = high.len() as int;
    let m = low.len() as int;
    let a = sum_vec(low, c2);
    let b = sum_vec(high, c);
    assert forall|s: int| 0 <= s < MAX_SLOT_LEVEL implies 0 <= #[trigger] b[s] && b[s] == choice_sum(
        high,
        c,
        n,
        s,
    ) by {
        lemma_choice_sum_bounds(high, c, n, s);
        assert(choice_sum(high, c, high.len() as int, s) <= i32::MAX);
    }
    assert(is_slots(b));
    lemma_fits_by_suffix(free, b);
    lemma_tail_by_size(low, c2, m);
    lemma_tail_by_size(high, c, n);
    reveal_with_fuel(suffix_sum, 5);
    assert forall|t: int| 0 <= t < MAX_SLOT_LEVEL implies 0 <= #[trigger] choice_sum(low, c2, m, t)
        && choice_tail(high, c, n, t) == suffix_sum(b, t) && suffix_sum(b, t) <= suffix_sum(free, t) by {
        lemma_choice_sum_bounds(low, c2, m, t);
    }
    assert(choice_sum(low, c2, m, 0) >= 0 && choice_sum(low, c2, m, 1) >= 0 && choice_sum(
        low,
        c2,
        m,
        2,
    ) >= 0 && choice_sum(low, c2, m, 3) >= 0);
    assert(choice_tail(low, c2, m, 0) <= choice_tail(high, c, n, 0) <= suffix_sum(free, 0));
    assert(choice_tail(low, c2, m, 1) <= choice_tail(high, c, n, 1) <= suffix_sum(free, 1));
    assert(choice_tail(low, c2, m, 2) <= choice_tail(high, c, n, 2) <= suffix_sum(free, 2));
    assert(choice_tail(low, c2, m, 3) <= choice_tail(high, c, n, 3) <= suffix_sum(free, 3));
    assert forall|s: int| 0 <= s < MAX_SLOT_LEVEL implies #[trigger] choice_sum(
        low,
        c2,
        low.len() as int,
        s,
    ) <= i32::MAX by {
        assert(s == 0 || s == 1 || s == 2 || s == 3);
    }
    assert(sum_fits(low, c2));
    assert forall|s: int| 0 <= s < MAX_SLOT_LEVEL implies #[trigger] a[s] == choice_sum(low, c2, m, s) by {
        assert(choice_sum(low, c2, low.len() as int, s) <= i32::MAX);
    }
    assert(is_slots(a));
    assert(eases(a, b)) by {
        assert forall|t: int| 0 <= t < MAX_SLOT_LEVEL implies #[trigger] suffix_sum(a, t)
            <= suffix_sum(b, t) by {
            assert(t == 0 || t == 1 || t == 2 || t == 3);
            assert(suffix_sum(a, t) == choice_tail(low, c2, m, t));
        }
    }
    lemma_eases_fits(free, a, b);
}

/// Where some packing fits the free sockets, and every cost on offer is
/// eased by a cost of other lists, some packing from those lists fits too.
pub proof fn lemma_easier_lists_fit(
    low: Seq<Seq<Seq<i32>>>,
    high: Seq<Seq<Seq<i32>>>,
    free: Seq<i32>,
)
    requires
        lists_slots(low),
        lists_slots(high),
        lists_ease(low, high),
        is_slots(free),
        suffix_sum(free, 0) <= i32::MAX,
        some_choice_fits(high, free),
    ensures
        some_choice_fits(low, free),
{
    let c = choose|c: Seq<int>| is_choice(high, c) && fits(free, sum_vec(high, c));
    let n = high.len() as int;
    let c2 = Seq::new(
        high.len(),
        |k: int| choose|i: int| 0 <= i < low[k].len() && eases(#[trigger] low[k][i], high[k][c[k]]),
    );
    assert forall|k: int| 0 <= k < n implies 0 <= #[trigger] c2[k] < low[k].len() && eases(
        low[k][c2[k]],
        high[k][c[k]],
    ) by {
        assert(0 <= c[k] < list_lens(high)[k]);
        assert(list_eases(low[k], high[k]));
        assert(eased_by(low[k], high[k][c[k]]));
    }
    assert(in_range(c2, list_lens(low)));
    assert forall|t: int| 0 <= t < MAX_SLOT_LEVEL implies #[trigger] choice_tail(
        low,
        c2,
        low.len() as int,
        t,
    ) <= choice_tail(high, c, high.len() as int, t) by {
        lemma_tail_eases(low, c2, high, c, n, t);
    }
    lemma_lighter_choice_fits(low, c2, high, c, free);
}

/// As many copies as a level needs are enough for a lower level.
proof fn lemma_copies_grow(low: int, high: int, per_copy: int)
    requires
        0 <= low <= high,
        per_copy >= 1,
    ensures
        0 <= copies_needed(low, per_copy) <= copies_needed(high, per_copy),
{
    lemma_fundamental_div_mod(low, per_copy);
    lemma_fundamental_div_mod(high, per_copy);
    lemma_mod_bound(low, per_copy);
    lemma_mod_bound(high, per_copy);
    let a = low / per_copy;
    let b = high / per_copy;
    assert(a <= b && 0 <= a && (a == b ==> low % per_copy <= high % per_copy)) by (nonlinear_arith)
        requires
            low == per_copy * a + low % per_copy,
            high == per_copy * b + high % per_copy,
            0 <= low % per_copy < per_copy,
            0 <= high % per_copy < per_copy,
            0 <= low <= high,
            per_copy >= 1,
    ;
}

/// For a skill with a single decoration, the cost of a lower level asks for
/// no more at any size than the cost of a higher one.
pub proof fn lemma_single_lower(
    decos: Seq<Decoration>,
    low: int,
    high: int,
    a: Seq<Seq<i32>>,
    b: Seq<Seq<i32>>,
)
    requires
        decos.len() == 1,
        decos_valid(decos),
        0 <= low <= high,
        bucket_ok(decos, low, a),
        bucket_ok(decos, high, b),
    ensures
        a.len() == 1,
        b.len() == 1,
        slots_le(a[0], b[0]),
        list_eases(a, b),
{
    assert(decos[0].valid());
    lemma_copies_grow(low, high, decos[0].skill_level as int);
    assert forall|s: int| 0 <= s < a[0].len() implies #[trigger] a[0][s] <= b[0][s] by {
        assert(b[0][s] == if s + 1 == decos[0].slot_size {
            copies_needed(high, decos[0].skill_level as int)
        } else {
            0
        });
    }
    lemma_le_eases(a[0], b[0]);
    assert forall|j: int| 0 <= j < b.len() implies eased_by(a, #[trigger] b[j]) by {
        assert(eases(a[0], b[j]));
    }
}

/// For a skill with a single decoration, the table offers one cost for a
/// level that it lists and one for each lower level from 1 on, and the cost
/// of the lower level asks for no more at any size.
pub proof fn lemma_single_offers(dm: &DataManager, id: Seq<char>, low: int, high: int)
    requires
        table_built(dm),
        dm.deco_count(id) == 1,
        1 <= low <= high,
        dm.deco_combinations.combos(id, high).len() > 0,
    ensures
        dm.deco_combinations.combos(id, low).len() == 1,
        dm.deco_combinations.combos(id, high).len() == 1,
        slots_le(dm.deco_combinations.combos(id, low)[0], dm.deco_combinations.combos(id, high)[0]),
        list_eases(dm.deco_combinations.combos(id, low), dm.deco_combinations.combos(id, high)),
{
    let table = dm.deco_combinations;
    let m = entries_map(table.table());
    assert(m.contains_key(id));
    let i = key_index(table.table(), id);
    lemma_entry_in_map(table.table(), i);
    lemma_entry_in_map(dm.decos_by_skill.entries(), i);
    let levels = table.table()[i].1@;
    let decos = dm.decos_by_skill.entries()[i].1@;
    let max_level = dm.skills@[id].max_level as int;
    assert(levels_ok(decos, max_level, levels));
    assert(decos.len() == 1);
    assert(bucket_ok(decos, low, rows(levels[low - 1]@)));
    assert(bucket_ok(decos, high, rows(levels[high - 1]@)));
    lemma_single_lower(
        decos,
        low,
        high,
        table.combos(id, low),
        table.combos(id, high),
    );
}

/// A cost that asks for no more sockets of any size and above than counts
/// take eases the cost of the counts.
proof fn lemma_lighter_eases(w: Seq<i32>, v: Seq<i32>, decos: Seq<Decoration>, c: Seq<int>)
    requires
        decos_valid(decos),
        cost_matches(v, decos, c),
        lighter(w, decos, c),
    ensures
        eases(w, v),
{
    lemma_cost_sums(v, decos, c);
    assert forall|t: int| 0 <= t < MAX_SLOT_LEVEL implies #[trigger] suffix_sum(w, t) <= suffix_sum(
        v,
        t,
    ) by {
        assert(suffix_sum(w, t) <= used_from(decos, c, decos.len() as int, t));
    }
}

/// The cost of counts that grant a level is eased by a cost that the table
/// holds for the level.
proof fn lemma_cost_eased(
    decos: Seq<Decoration>,
    level: int,
    a: Seq<Seq<i32>>,
    v: Seq<i32>,
    c: Seq<int>,
)
    requires
        decos_valid(decos),
        sizes_rise(decos),
        1 <= level <= MAX_LEVEL_LIMIT,
        bucket_ok(decos, level, a),
        c.len() == decos.len(),
        counts_nonneg(c),
        cost_matches(v, decos, c),
        granted(decos, c, decos.len() as int) >= level,
    ensures
        eased_by(a, v),
{
    lemma_bucket_complete(decos, level, a, c);
    let i = choose|i: int| 0 <= i < a.len() && lighter(#[trigger] a[i], decos, c);
    lemma_lighter_eases(a[i], v, decos, c);
}

/// A cost that the table holds for a level is eased by a cost that it holds
/// for a lower level.
proof fn lemma_row_eased(
    decos: Seq<Decoration>,
    low: int,
    high: int,
    a: Seq<Seq<i32>>,
    v: Seq<i32>,
)
    requires
        decos_valid(decos),
        sizes_rise(decos),
        1 <= low <= high <= MAX_LEVEL_LIMIT,
        bucket_ok(decos, low, a),
        grants(decos, v, high),
    ensures
        eased_by(a, v),
{
    let c = choose|c: Seq<int>|
        c.len() == decos.len() && counts_nonneg(c) && #[trigger] cost_matches(v, decos, c)
            && granted(decos, c, decos.len() as int) >= high;
    lemma_cost_eased(decos, low, a, v, c);
}

/// The costs that the table holds for a lower level ease those that it
/// holds for a higher one; where it holds one for the higher level, it holds
/// one for the lower.
pub proof fn lemma_lower_eases(
    decos: Seq<Decoration>,
    low: int,
    high: int,
    a: Seq<Seq<i32>>,
    b: Seq<Seq<i32>>,
)
    requires
        decos_valid(decos),
        sizes_rise(decos),
        1 <= low <= high <= MAX_LEVEL_LIMIT,
        bucket_ok(decos, low, a),
        bucket_ok(decos, high, b),
    ensures
        list_eases(a, b),
        b.len() > 0 ==> a.len() > 0,
{
    assert forall|j: int| 0 <= j < b.len() implies eased_by(a, #[trigger] b[j]) by {
        lemma_combo_grants(decos, high, b, j);
        lemma_row_eased(decos, low, high, a, b[j]);
    }
    if b.len() > 0 {
        assert(eased_by(a, b[0]));
    }
}

/// The costs that the table of a catalog offers for a lower level of a
/// skill ease those that it offers for a higher level; where it offers one
/// for the higher level, it offers one for the lower.
pub proof fn lemma_offers_ease(dm: &DataManager, id: Seq<char>, low: int, high: int)
    requires
        table_built(dm),
        1 <= low <= high,
        dm.deco_combinations.combos(id, high).len() > 0,
    ensures
        dm.deco_combinations.combos(id, low).len() > 0,
        list_eases(dm.deco_combinations.combos(id, low), dm.deco_combinations.combos(id, high)),
{
    let table = dm.deco_combinations;
    let m = entries_map(table.table());
    assert(m.contains_key(id));
    let i = key_index(table.table(), id);
    lemma_entry_in_map(table.table(), i);
    lemma_entry_in_map(dm.decos_by_skill.entries(), i);
    let levels = table.table()[i].1@;
    let decos = dm.decos_by_skill.entries()[i].1@;
    let max_level = dm.skills@[id].max_level as int;
    assert(levels_ok(decos, max_level, levels));
    assert(bucket_ok(decos, low, rows(levels[low - 1]@)));
    assert(bucket_ok(decos, high, rows(levels[high - 1]@)));
    lemma_lower_eases(decos, low, high, table.combos(id, low), table.combos(id, high));
}

/// `low` asks for the skills of `high` in the same order, each at a level
/// from 1 up to its level in `high`.
pub open spec fn lowers(low: Seq<(Seq<char>, i32)>, high: Seq<(Seq<char>, i32)>) -> bool {
    &&& low.len() == high.len()
    &&& forall|k: int|
        0 <= k < high.len() ==> (#[trigger] low[k]).0 == high[k].0 && 1 <= low[k].1 <= high[k].1
}

/// Lowering levels: where some packing for a requirement fits the free
/// sockets, some packing for the lowered requirement fits them too.
pub proof fn lemma_lower_levels_fit(
    dm: &DataManager,
    low: Seq<(Seq<char>, i32)>,
    high: Seq<(Seq<char>, i32)>,
    free: Seq<i32>,
)
    requires
        table_built(dm),
        dm.deco_combinations.wf(),
        lowers(low, high),
        is_slots(free),
        suffix_sum(free, 0) <= i32::MAX,
        some_choice_fits(dm.deco_combinations.lists(high), free),
    ensures
        some_choice_fits(dm.deco_combinations.lists(low), free),
{
    let table = dm.deco_combinations;
    let l = table.lists(low);
    let h = table.lists(high);
    lemma_lists_slots(table, low);
    lemma_lists_slots(table, high);
    let c = choose|c: Seq<int>| is_choice(h, c) && fits(free, sum_vec(h, c));
    assert forall|k: int| 0 <= k < h.len() implies list_eases(#[trigger] l[k], h[k]) by {
        assert(0 <= c[k] < list_lens(h)[k]);
        assert(low[k].0 == high[k].0);
        lemma_offers_ease(dm, high[k].0, low[k].1 as int, high[k].1 as int);
    }
    lemma_easier_lists_fit(l, h, free);
}

/// The table of a catalog misses nothing: whatever counts of the
/// decorations of a skill grant a level of the skill up to its maximum, a
/// cost that the table offers for the level asks for no more sockets of any
/// size and above.
pub proof fn lemma_table_complete(dm: &DataManager, id: Seq<char>, level: int, c: Seq<int>)
    requires
        table_built(dm),
        dm.decos_by_skill@.contains_key(id),
        1 <= level <= dm.skills@[id].max_level,
        c.len() == dm.decos_by_skill@[id]@.len(),
        counts_nonneg(c),
        granted(dm.decos_by_skill@[id]@, c, c.len() as int) >= level,
    ensures
        serves(dm.deco_combinations.combos(id, level), dm.decos_by_skill@[id]@, c),
{
    let table = dm.deco_combinations;
    let listed = dm.decos_by_skill.entries();
    let i = key_index(listed, id);
    lemma_entry_in_map(listed, i);
    assert(table.table()[i].0 == id);
    lemma_entry_in_map(table.table(), i);
    let levels = table.table()[i].1@;
    let decos = listed[i].1@;
    let max_level = dm.skills@[id].max_level as int;
    assert(levels_ok(decos, max_level, levels));
    assert(bucket_ok(decos, level, rows(levels[level - 1]@)));
    lemma_bucket_complete(decos, level, table.combos(id, level), c);
}

} // verus!
