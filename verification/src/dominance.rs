//! Putting a better piece into a build.
//!
//! A piece dominates another when it has at least its sockets and grants at
//! least its levels. A build that meets a requirement still meets it, and
//! scores no less, once a piece is replaced by one that dominates it, or
//! once less is required.

use crate::calc::calc_equipment::{CalcEquipment, map_nonneg};
use crate::calc::deco::slot_point;
use crate::calc::equipment::Equipment;
use crate::counter::in_range;
use crate::data::data_manager::{DataManager, table_built};
use crate::data::deco_build::all_slots;
use crate::data::deco_combination::{DecorationCombinations, choice_sum, is_choice, sum_vec};
use crate::data::deco_combination::list_lens;
use crate::data::deco_walk::{lemma_choice_sum_bounds, some_choice_fits};
use crate::data::skill::MAX_SLOT_LEVEL;
use crate::easing::{choice_tail, eased_by, lemma_offers_ease, lemma_single_offers, list_eases};
use crate::easing::lemma_lighter_choice_fits;
use crate::full_equipments::{build_slots, free_rest, lemma_count_nonneg};
use crate::full_equipments::{lemma_totals_nonneg, level_in, pieces_sound, total_level, total_slots};
use crate::laws::lemma_lists_slots;
use crate::slots::{carry_after, fits, free_after, lemma_fits_monotone, slots_le};
use crate::slots::eases;
use crate::slots::{is_slots, suffix_sum};
use crate::solver_eval::{
    Candidate, acceptable, all_decorated, all_listed, avail_vec, candidate_of, decos_suffice,
    demand_vec, min_cost, multi_floor, offers, row_sum, single_demand, spare_of,
};
use crate::solver_parts::{left_after, minus};
use crate::solver_pools::{
    all_drawn_from, covered_by, drawn_from, filtered_of, is_copy, lemma_piece_le_trans, piece_le,
    undominated,
};
use crate::str_map::entries_map;
use vstd::prelude::*;

verus! {

/// Every level of the requirement is 1 or more.
pub open spec fn levels_positive(req: Seq<(Seq<char>, i32)>) -> bool {
    forall|i: int| 0 <= i < req.len() ==> 1 <= (#[trigger] req[i]).1
}

/// No skill is had at a negative level.
pub open spec fn never_negative(have: spec_fn(Seq<char>) -> int) -> bool {
    forall|id: Seq<char>| 0 <= #[trigger] have(id)
}

/// Of the first `k` entries of the requirement `req`, what is left once the
/// levels `have` are taken off: each skill that is had at a lower level than
/// required keeps the difference; all in their order.
pub open spec fn cut(req: Seq<(Seq<char>, i32)>, have: spec_fn(Seq<char>) -> int, k: int) -> Seq<
    (Seq<char>, i32),
>
    decreases k,
{
    if k <= 0 {
        Seq::empty()
    } else {
        let rest = cut(req, have, k - 1);
        let e = req[k - 1];
        if e.1 > have(e.0) {
            rest.push((e.0, (e.1 - have(e.0)) as i32))
        } else {
            rest
        }
    }
}

/// What is left of the first entries depends on these entries and on the
/// levels had of their skills only.
pub proof fn lemma_cut_same(
    a: Seq<(Seq<char>, i32)>,
    f: spec_fn(Seq<char>) -> int,
    b: Seq<(Seq<char>, i32)>,
    g: spec_fn(Seq<char>) -> int,
    k: int,
)
    requires
        0 <= k <= a.len(),
        k <= b.len(),
        forall|i: int| 0 <= i < k ==> #[trigger] a[i] == b[i],
        forall|i: int| 0 <= i < k ==> f((#[trigger] a[i]).0) == g(a[i].0),
    ensures
        cut(a, f, k) == cut(b, g, k),
    decreases k,
{
    if k > 0 {
        lemma_cut_same(a, f, b, g, k - 1);
        assert(a[k - 1] == b[k - 1]);
        assert(f(a[k - 1].0) == g(a[k - 1].0));
    }
}

/// What is left holds no more entries than were looked at, each at a level
/// of 1 or more.
pub proof fn lemma_cut_shape(req: Seq<(Seq<char>, i32)>, have: spec_fn(Seq<char>) -> int, k: int)
    requires
        0 <= k <= req.len(),
        never_negative(have),
    ensures
        cut(req, have, k).len() <= k,
        levels_positive(cut(req, have, k)),
    decreases k,
{
    if k > 0 {
        lemma_cut_shape(req, have, k - 1);
        let e = req[k - 1];
        assert(0 <= have(e.0));
    }
}

/// With nothing had, everything is left.
proof fn lemma_cut_nothing(req: Seq<(Seq<char>, i32)>, have: spec_fn(Seq<char>) -> int, k: int)
    requires
        0 <= k <= req.len(),
        levels_positive(req),
        forall|id: Seq<char>| #[trigger] have(id) == 0,
    ensures
        cut(req, have, k) == req.subrange(0, k),
    decreases k,
{
    if k > 0 {
        lemma_cut_nothing(req, have, k - 1);
        let e = req[k - 1];
        assert(have(e.0) == 0);
        assert(1 <= e.1);
        assert(cut(req, have, k) =~= req.subrange(0, k));
    } else {
        assert(cut(req, have, k) =~= req.subrange(0, k));
    }
}

/// The levels at which the skill map `got` grants each skill.
pub open spec fn levels_of(got: Map<Seq<char>, i32>) -> spec_fn(Seq<char>) -> int {
    |id: Seq<char>|
        if got.contains_key(id) {
            got[id] as int
        } else {
            0
        }
}

/// Taking the levels of a skill map off a requirement whose levels are 1 or
/// more leaves what `cut` says.
proof fn lemma_minus_is_cut(req: Seq<(Seq<char>, i32)>, got: Map<Seq<char>, i32>, k: int)
    requires
        0 <= k <= req.len(),
        levels_positive(req),
    ensures
        minus(req, got, k) == cut(req, levels_of(got), k),
    decreases k,
{
    if k > 0 {
        lemma_minus_is_cut(req, got, k - 1);
        let e = req[k - 1];
        assert(1 <= e.1);
        if !got.contains_key(e.0) {
            assert((e.0, (e.1 - 0) as i32) == e);
        }
    }
}

/// Taking off levels twice leaves what taking off their sum leaves.
proof fn lemma_cut_twice(
    req: Seq<(Seq<char>, i32)>,
    f: spec_fn(Seq<char>) -> int,
    g: spec_fn(Seq<char>) -> int,
    h: spec_fn(Seq<char>) -> int,
    n: int,
)
    requires
        0 <= n <= req.len(),
        never_negative(f),
        never_negative(g),
        forall|id: Seq<char>| #[trigger] h(id) == f(id) + g(id),
    ensures
        cut(cut(req, f, n), g, cut(req, f, n).len() as int) == cut(req, h, n),
    decreases n,
{
    if n > 0 {
        lemma_cut_twice(req, f, g, h, n - 1);
        let before = cut(req, f, n - 1);
        let now = cut(req, f, n);
        let e = req[n - 1];
        assert(0 <= f(e.0));
        assert(0 <= g(e.0));
        assert(h(e.0) == f(e.0) + g(e.0));
        if e.1 > f(e.0) {
            lemma_cut_same(now, g, before, g, before.len() as int);
        }
    }
}

/// What the pieces leave of a requirement whose levels are 1 or more: each
/// skill that they grant together at a lower level than required keeps the
/// difference; all in their order.
pub proof fn lemma_left_is_cut<'a>(
    req: Seq<(Seq<char>, i32)>,
    pieces: Seq<Equipment<'a>>,
    k: int,
    have: spec_fn(Seq<char>) -> int,
)
    requires
        levels_positive(req),
        pieces_sound(pieces),
        0 <= k <= pieces.len(),
        forall|id: Seq<char>| #[trigger] have(id) == total_level(pieces, k, id),
    ensures
        left_after(req, pieces, k) == cut(req, have, req.len() as int),
    decreases k,
{
    if k <= 0 {
        lemma_cut_nothing(req, have, req.len() as int);
        assert(req.subrange(0, req.len() as int) =~= req);
    } else {
        let before = |id: Seq<char>| total_level(pieces, k - 1, id);
        lemma_left_is_cut(req, pieces, k - 1, before);
        let prev = left_after(req, pieces, k - 1);
        let got = entries_map(pieces[k - 1].spec_skills());
        assert forall|id: Seq<char>| 0 <= #[trigger] before(id) by {
            lemma_totals_nonneg(pieces, k - 1, id, 0);
        }
        assert(map_nonneg(got));
        assert forall|id: Seq<char>| 0 <= #[trigger] levels_of(got)(id) by {
            if got.contains_key(id) {
                assert(0 <= got[id]);
            }
        }
        lemma_cut_shape(req, before, req.len() as int);
        lemma_minus_is_cut(prev, got, prev.len() as int);
        assert forall|id: Seq<char>| #[trigger] have(id) == before(id) + levels_of(got)(id) by {
            assert(have(id) == total_level(pieces, k, id));
        }
        lemma_cut_twice(req, before, levels_of(got), have, req.len() as int);
    }
}

/// The levels and sockets of a build in which one piece was replaced: those
/// of the build, without those of the old piece, with those of the new one.
pub proof fn lemma_replaced_totals<'a>(
    pieces: Seq<Equipment<'a>>,
    k: int,
    b: Equipment<'a>,
    n: int,
    id: Seq<char>,
    s: int,
)
    requires
        0 <= k < pieces.len(),
        0 <= n <= pieces.len(),
    ensures
        total_level(pieces.update(k, b), n, id) == total_level(pieces, n, id) + if n > k {
            level_in(b.spec_skills(), id) - level_in(pieces[k].spec_skills(), id)
        } else {
            0
        },
        total_slots(pieces.update(k, b), n, s) == total_slots(pieces, n, s) + if n > k {
            b.spec_slots()[s] - pieces[k].spec_slots()[s]
        } else {
            0
        },
    decreases n,
{
    if n > 0 {
        lemma_replaced_totals(pieces, k, b, n - 1, id, s);
    }
}

/// The sockets that the first skills cost depend on these skills only.
proof fn lemma_demand_same(
    a: Seq<(Seq<char>, i32)>,
    b: Seq<(Seq<char>, i32)>,
    dm: &DataManager,
    k: int,
    s: int,
)
    requires
        0 <= k <= a.len(),
        k <= b.len(),
        forall|i: int| 0 <= i < k ==> #[trigger] a[i] == b[i],
    ensures
        single_demand(a, dm, k, s) == single_demand(b, dm, k, s),
        multi_floor(a, dm, k) == multi_floor(b, dm, k),
    decreases k,
{
    if k > 0 {
        lemma_demand_same(a, b, dm, k - 1, s);
        assert(a[k - 1] == b[k - 1]);
    }
}

/// The fewest sockets of a list of socket vectors are not negative.
proof fn lemma_min_cost_nonneg(list: Seq<Seq<i32>>, k: int)
    requires
        all_slots(list),
        1 <= k <= list.len(),
    ensures
        0 <= min_cost(list, k),
    decreases k,
{
    assert(is_slots(list[k - 1]));
    assert(is_slots(list[0]));
    if k > 1 {
        lemma_min_cost_nonneg(list, k - 1);
    }
}

/// The sockets that the first choices cost depend on these choices only.
proof fn lemma_tail_same(
    l1: Seq<Seq<Seq<i32>>>,
    c1: Seq<int>,
    l2: Seq<Seq<Seq<i32>>>,
    c2: Seq<int>,
    k: int,
    t: int,
)
    requires
        0 <= k <= l1.len(),
        k <= l2.len(),
        k <= c1.len(),
        k <= c2.len(),
        forall|i: int| 0 <= i < k ==> #[trigger] l1[i] == l2[i],
        forall|i: int| 0 <= i < k ==> #[trigger] c1[i] == c2[i],
    ensures
        choice_tail(l1, c1, k, t) == choice_tail(l2, c2, k, t),
    decreases k,
{
    if k > 0 {
        lemma_tail_same(l1, c1, l2, c2, k - 1, t);
        assert(l1[k - 1] == l2[k - 1]);
        assert(c1[k - 1] == c2[k - 1]);
    }
}

/// The levels `lo` are not negative, and the levels `hi` are no lower.
pub open spec fn raises(lo: spec_fn(Seq<char>) -> int, hi: spec_fn(Seq<char>) -> int) -> bool {
    &&& never_negative(lo)
    &&& forall|id: Seq<char>| #[trigger] lo(id) <= hi(id)
}

/// The fewest sockets of a list are no more than those of any of its costs.
proof fn lemma_min_cost_least(list: Seq<Seq<i32>>, k: int, j: int)
    requires
        0 <= j < k <= list.len(),
    ensures
        min_cost(list, k) <= row_sum(list[j]),
    decreases k,
{
    if k > 1 && j < k - 1 {
        lemma_min_cost_least(list, k - 1, j);
    }
}

/// The fewest sockets of a list are those of one of its costs.
proof fn lemma_min_cost_row(list: Seq<Seq<i32>>, k: int) -> (j: int)
    requires
        1 <= k <= list.len(),
    ensures
        0 <= j < k,
        row_sum(list[j]) == min_cost(list, k),
    decreases k,
{
    if k <= 1 {
        0
    } else if row_sum(list[k - 1]) < min_cost(list, k - 1) {
        k - 1
    } else {
        lemma_min_cost_row(list, k - 1)
    }
}

/// What the table offers for a lower level of a skill, against what it
/// offers for a higher one: a cost where there is one for the higher level,
/// costs that ease those of the higher level, no more sockets at the least,
/// and for a skill with one decoration no more sockets of any size.
proof fn lemma_lower_offer(dm: &DataManager, id: Seq<char>, low: i32, high: i32)
    requires
        table_built(dm),
        dm.deco_combinations.wf(),
        1 <= low <= high,
        dm.deco_combinations.combos(id, high as int).len() > 0,
    ensures
        dm.deco_combinations.combos(id, low as int).len() > 0,
        all_slots(dm.deco_combinations.combos(id, low as int)),
        all_slots(dm.deco_combinations.combos(id, high as int)),
        list_eases(
            dm.deco_combinations.combos(id, low as int),
            dm.deco_combinations.combos(id, high as int),
        ),
        0 <= min_cost(
            dm.deco_combinations.combos(id, low as int),
            dm.deco_combinations.combos(id, low as int).len() as int,
        ) <= min_cost(
            dm.deco_combinations.combos(id, high as int),
            dm.deco_combinations.combos(id, high as int).len() as int,
        ),
        dm.deco_count(id) == 1 ==> slots_le(
            dm.deco_combinations.combos(id, low as int)[0],
            dm.deco_combinations.combos(id, high as int)[0],
        ),
{
    let table = dm.deco_combinations;
    let a = table.combos(id, low as int);
    let b = table.combos(id, high as int);
    lemma_offers_ease(dm, id, low as int, high as int);
    let ra = seq![(id, low)];
    let rb = seq![(id, high)];
    lemma_lists_slots(table, ra);
    lemma_lists_slots(table, rb);
    assert(table.lists(ra)[0] == a);
    assert(table.lists(rb)[0] == b);
    assert(all_slots(a));
    assert(all_slots(b));
    lemma_min_cost_nonneg(a, a.len() as int);
    let j = lemma_min_cost_row(b, b.len() as int);
    assert(eased_by(a, b[j]));
    let i = choose|i: int| 0 <= i < a.len() && eases(#[trigger] a[i], b[j]);
    lemma_min_cost_least(a, a.len() as int, i);
    assert(row_sum(a[i]) <= row_sum(b[j])) by {
        reveal_with_fuel(suffix_sum, 5);
        assert(suffix_sum(a[i], 0) <= suffix_sum(b[j], 0));
        assert(is_slots(a[i]));
        assert(is_slots(b[j]));
    }
    if dm.deco_count(id) == 1 {
        lemma_single_offers(dm, id, low as int, high as int);
    }
}

/// What one more skill adds to what the decorations have to meet.
proof fn lemma_one_more(res: Seq<(Seq<char>, i32)>, x: (Seq<char>, i32), dm: &DataManager)
    ensures
        all_decorated(res.push(x), dm) == (all_decorated(res, dm) && dm.deco_count(x.0) > 0),
        all_listed(res.push(x), dm) == (all_listed(res, dm) && dm.deco_combinations.combos(
            x.0,
            x.1 as int,
        ).len() > 0),
        forall|s: int|
            #![trigger single_demand(res.push(x), dm, res.push(x).len() as int, s)]
            single_demand(res.push(x), dm, res.push(x).len() as int, s) == single_demand(
                res,
                dm,
                res.len() as int,
                s,
            ) + if dm.deco_count(x.0) == 1 {
                dm.deco_combinations.combos(x.0, x.1 as int)[0][s] as int
            } else {
                0
            },
        multi_floor(res.push(x), dm, res.push(x).len() as int) == multi_floor(res, dm, res.len() as int)
            + if dm.deco_count(x.0) > 1 {
            min_cost(
                dm.deco_combinations.combos(x.0, x.1 as int),
                dm.deco_combinations.combos(x.0, x.1 as int).len() as int,
            )
        } else {
            0
        },
{
    let more = res.push(x);
    let n = res.len() as int;
    assert(more[n] == x);
    assert(offers(more, dm, n) == dm.deco_combinations.combos(x.0, x.1 as int));
    if all_decorated(res, dm) && dm.deco_count(x.0) > 0 {
        assert forall|i: int| 0 <= i < more.len() implies dm.deco_count((#[trigger] more[i]).0) > 0 by {
            if i < n {
                assert(more[i] == res[i]);
            }
        }
    }
    if all_decorated(more, dm) {
        assert forall|i: int| 0 <= i < res.len() implies dm.deco_count((#[trigger] res[i]).0) > 0 by {
            assert(more[i] == res[i]);
        }
        assert(dm.deco_count(more[n].0) > 0);
    }
    if all_listed(res, dm) && dm.deco_combinations.combos(x.0, x.1 as int).len() > 0 {
        assert forall|i: int| 0 <= i < more.len() implies (#[trigger] offers(more, dm, i)).len() > 0 by {
            if i < n {
                assert(more[i] == res[i]);
                assert(offers(res, dm, i).len() > 0);
            }
        }
    }
    if all_listed(more, dm) {
        assert forall|i: int| 0 <= i < res.len() implies (#[trigger] offers(res, dm, i)).len() > 0 by {
            assert(more[i] == res[i]);
            assert(offers(more, dm, i).len() > 0);
        }
        assert(offers(more, dm, n).len() > 0);
    }
    assert forall|s: int|
        #![trigger single_demand(res.push(x), dm, res.push(x).len() as int, s)]
        single_demand(more, dm, more.len() as int, s) == single_demand(res, dm, n, s) + if dm.deco_count(x.0)
            == 1 {
            dm.deco_combinations.combos(x.0, x.1 as int)[0][s] as int
        } else {
            0
        } by {
        lemma_demand_same(more, res, dm, n, s);
    }
    lemma_demand_same(more, res, dm, n, 0);
}

/// With more levels had, what is left of a requirement needs no more from
/// the decorations: where every skill left with fewer levels had has
/// decorations and a cost in the table, so has every skill left with more,
/// and the skills left cost no more sockets.
pub proof fn lemma_cut_needs_less(
    req: Seq<(Seq<char>, i32)>,
    lo: spec_fn(Seq<char>) -> int,
    hi: spec_fn(Seq<char>) -> int,
    dm: &DataManager,
    k: int,
)
    requires
        0 <= k <= req.len(),
        raises(lo, hi),
        table_built(dm),
        dm.deco_combinations.wf(),
        all_decorated(cut(req, lo, k), dm),
        all_listed(cut(req, lo, k), dm),
    ensures
        cut(req, hi, k).len() <= cut(req, lo, k).len(),
        all_decorated(cut(req, hi, k), dm),
        all_listed(cut(req, hi, k), dm),
        forall|s: int|
            0 <= s < MAX_SLOT_LEVEL ==> 0 <= #[trigger] single_demand(
                cut(req, hi, k),
                dm,
                cut(req, hi, k).len() as int,
                s,
            ) <= single_demand(cut(req, lo, k), dm, cut(req, lo, k).len() as int, s),
        0 <= multi_floor(cut(req, hi, k), dm, cut(req, hi, k).len() as int) <= multi_floor(
            cut(req, lo, k),
            dm,
            cut(req, lo, k).len() as int,
        ),
    decreases k,
{
    if k > 0 {
        let a0 = cut(req, lo, k - 1);
        let b0 = cut(req, hi, k - 1);
        let e = req[k - 1];
        let id = e.0;
        assert(0 <= lo(id) <= hi(id));
        if e.1 > lo(id) {
            let x = (id, (e.1 - lo(id)) as i32);
            lemma_one_more(a0, x, dm);
            lemma_cut_needs_less(req, lo, hi, dm, k - 1);
            let high = dm.deco_combinations.combos(id, x.1 as int);
            lemma_lower_offer(dm, id, x.1, x.1);
            assert(is_slots(high[0]));
            if e.1 > hi(id) {
                let y = (id, (e.1 - hi(id)) as i32);
                lemma_one_more(b0, y, dm);
                lemma_lower_offer(dm, id, y.1, x.1);
                let low = dm.deco_combinations.combos(id, y.1 as int);
                assert(is_slots(low[0]));
                assert forall|s: int| 0 <= s < MAX_SLOT_LEVEL implies 0 <= #[trigger] single_demand(
                    b0.push(y),
                    dm,
                    b0.push(y).len() as int,
                    s,
                ) <= single_demand(a0.push(x), dm, a0.push(x).len() as int, s) by {
                    assert(0 <= single_demand(b0, dm, b0.len() as int, s) <= single_demand(
                        a0,
                        dm,
                        a0.len() as int,
                        s,
                    ));
                    assert(0 <= low[0][s]);
                    if dm.deco_count(id) == 1 {
                        assert(low[0][s] <= high[0][s]);
                    }
                }
            } else {
                assert forall|s: int| 0 <= s < MAX_SLOT_LEVEL implies 0 <= #[trigger] single_demand(
                    b0,
                    dm,
                    b0.len() as int,
                    s,
                ) <= single_demand(a0.push(x), dm, a0.push(x).len() as int, s) by {
                    assert(0 <= single_demand(b0, dm, b0.len() as int, s) <= single_demand(
                        a0,
                        dm,
                        a0.len() as int,
                        s,
                    ));
                    assert(0 <= high[0][s]);
                }
            }
        } else {
            lemma_cut_needs_less(req, lo, hi, dm, k - 1);
        }
    }
}

/// What the table offers for a requirement with one more skill: what it
/// offers for the requirement, and then what it offers for the skill.
proof fn lemma_lists_push(table: DecorationCombinations, res: Seq<(Seq<char>, i32)>, x: (Seq<char>, i32))
    ensures
        table.lists(res.push(x)) == table.lists(res).push(table.combos(x.0, x.1 as int)),
{
    let more = res.push(x);
    assert forall|i: int| 0 <= i < more.len() implies #[trigger] table.lists(more)[i] == table.lists(
        res,
    ).push(table.combos(x.0, x.1 as int))[i] by {
        if i < res.len() {
            assert(more[i] == res[i]);
        }
    }
    assert(table.lists(more) =~= table.lists(res).push(table.combos(x.0, x.1 as int)));
}

/// A choice for one more skill: a choice for the skills before, and a cost
/// of the skill; it costs what both cost.
proof fn lemma_choice_push(lists: Seq<Seq<Seq<i32>>>, l: Seq<Seq<i32>>, c: Seq<int>, j: int)
    requires
        c.len() == lists.len(),
    ensures
        in_range(c.push(j), list_lens(lists.push(l))) == (in_range(c, list_lens(lists)) && 0 <= j
            < l.len()),
        forall|t: int|
            #![trigger choice_tail(lists.push(l), c.push(j), lists.push(l).len() as int, t)]
            choice_tail(lists.push(l), c.push(j), lists.push(l).len() as int, t) == choice_tail(
                lists,
                c,
                lists.len() as int,
                t,
            ) + suffix_sum(l[j], t),
{
    let more = lists.push(l);
    let d = c.push(j);
    let n = lists.len() as int;
    if in_range(c, list_lens(lists)) && 0 <= j < l.len() {
        assert forall|i: int| 0 <= i < d.len() implies 0 <= #[trigger] d[i] < list_lens(more)[i] by {
            if i < n {
                assert(d[i] == c[i]);
                assert(more[i] == lists[i]);
                assert(0 <= c[i] < list_lens(lists)[i]);
            }
        }
    }
    if in_range(d, list_lens(more)) {
        assert forall|i: int| 0 <= i < c.len() implies 0 <= #[trigger] c[i] < list_lens(lists)[i] by {
            assert(d[i] == c[i]);
            assert(more[i] == lists[i]);
            assert(0 <= d[i] < list_lens(more)[i]);
        }
        assert(0 <= d[n] < list_lens(more)[n]);
    }
    assert forall|t: int|
        #![trigger choice_tail(lists.push(l), c.push(j), lists.push(l).len() as int, t)]
        choice_tail(more, d, more.len() as int, t) == choice_tail(lists, c, n, t) + suffix_sum(
            l[j],
            t,
        ) by {
        lemma_tail_same(more, d, lists, c, n, t);
    }
}

/// A choice that costs no more than another still costs no more once each
/// takes one more cost, the first one that eases the second's.
proof fn lemma_step_both(
    la: Seq<Seq<Seq<i32>>>,
    high: Seq<Seq<i32>>,
    c: Seq<int>,
    j: int,
    lb: Seq<Seq<Seq<i32>>>,
    low: Seq<Seq<i32>>,
    d: Seq<int>,
    j2: int,
)
    requires
        c.len() == la.len(),
        d.len() == lb.len(),
        in_range(d, list_lens(lb)),
        0 <= j < high.len(),
        0 <= j2 < low.len(),
        eases(low[j2], high[j]),
        forall|t: int|
            0 <= t < MAX_SLOT_LEVEL ==> #[trigger] choice_tail(lb, d, lb.len() as int, t)
                <= choice_tail(la, c, la.len() as int, t),
    ensures
        in_range(d.push(j2), list_lens(lb.push(low))),
        forall|t: int|
            0 <= t < MAX_SLOT_LEVEL ==> #[trigger] choice_tail(
                lb.push(low),
                d.push(j2),
                lb.push(low).len() as int,
                t,
            ) <= choice_tail(la.push(high), c.push(j), la.push(high).len() as int, t),
{
    lemma_choice_push(la, high, c, j);
    lemma_choice_push(lb, low, d, j2);
    assert forall|t: int| 0 <= t < MAX_SLOT_LEVEL implies #[trigger] choice_tail(
        lb.push(low),
        d.push(j2),
        lb.push(low).len() as int,
        t,
    ) <= choice_tail(la.push(high), c.push(j), la.push(high).len() as int, t) by {
        assert(choice_tail(lb, d, lb.len() as int, t) <= choice_tail(la, c, la.len() as int, t));
        assert(suffix_sum(low[j2], t) <= suffix_sum(high[j], t));
    }
}

/// A choice that costs no more than another costs no more than the other
/// with one more cost.
proof fn lemma_step_one(
    la: Seq<Seq<Seq<i32>>>,
    high: Seq<Seq<i32>>,
    c: Seq<int>,
    j: int,
    lb: Seq<Seq<Seq<i32>>>,
    d: Seq<int>,
)
    requires
        c.len() == la.len(),
        0 <= j < high.len(),
        is_slots(high[j]),
        forall|t: int|
            0 <= t < MAX_SLOT_LEVEL ==> #[trigger] choice_tail(lb, d, lb.len() as int, t)
                <= choice_tail(la, c, la.len() as int, t),
    ensures
        forall|t: int|
            0 <= t < MAX_SLOT_LEVEL ==> #[trigger] choice_tail(lb, d, lb.len() as int, t)
                <= choice_tail(la.push(high), c.push(j), la.push(high).len() as int, t),
{
    lemma_choice_push(la, high, c, j);
    reveal_with_fuel(suffix_sum, 5);
    assert forall|t: int| 0 <= t < MAX_SLOT_LEVEL implies #[trigger] choice_tail(
        lb,
        d,
        lb.len() as int,
        t,
    ) <= choice_tail(la.push(high), c.push(j), la.push(high).len() as int, t) by {
        assert(choice_tail(lb, d, lb.len() as int, t) <= choice_tail(la, c, la.len() as int, t));
        assert(0 <= suffix_sum(high[j], t));
    }
}

/// For a cost that the table offers for a level of a skill, a cost that it
/// offers for a lower level and that eases it.
proof fn lemma_pick_eased(dm: &DataManager, id: Seq<char>, low: i32, high: i32, j: int) -> (j2: int)
    requires
        table_built(dm),
        dm.deco_combinations.wf(),
        1 <= low <= high,
        0 <= j < dm.deco_combinations.combos(id, high as int).len(),
    ensures
        0 <= j2 < dm.deco_combinations.combos(id, low as int).len(),
        eases(
            dm.deco_combinations.combos(id, low as int)[j2],
            dm.deco_combinations.combos(id, high as int)[j],
        ),
        is_slots(dm.deco_combinations.combos(id, high as int)[j]),
{
    lemma_lower_offer(dm, id, low, high);
    let a = dm.deco_combinations.combos(id, low as int);
    let b = dm.deco_combinations.combos(id, high as int);
    assert(eased_by(a, b[j]));
    choose|i: int| 0 <= i < a.len() && eases(#[trigger] a[i], b[j])
}

/// With more levels had, a choice of costs for the skills left can be
/// answered by a choice for the fewer skills left that costs no more from
/// any size on.
pub proof fn lemma_cut_choice(
    req: Seq<(Seq<char>, i32)>,
    lo: spec_fn(Seq<char>) -> int,
    hi: spec_fn(Seq<char>) -> int,
    dm: &DataManager,
    k: int,
    c: Seq<int>,
) -> (c2: Seq<int>)
    requires
        0 <= k <= req.len(),
        raises(lo, hi),
        table_built(dm),
        dm.deco_combinations.wf(),
        in_range(c, list_lens(dm.deco_combinations.lists(cut(req, lo, k)))),
    ensures
        in_range(c2, list_lens(dm.deco_combinations.lists(cut(req, hi, k)))),
        c2.len() == cut(req, hi, k).len(),
        forall|t: int|
            0 <= t < MAX_SLOT_LEVEL ==> #[trigger] choice_tail(
                dm.deco_combinations.lists(cut(req, hi, k)),
                c2,
                dm.deco_combinations.lists(cut(req, hi, k)).len() as int,
                t,
            ) <= choice_tail(
                dm.deco_combinations.lists(cut(req, lo, k)),
                c,
                dm.deco_combinations.lists(cut(req, lo, k)).len() as int,
                t,
            ),
    decreases k,
{
    let table = dm.deco_combinations;
    if k <= 0 {
        Seq::empty()
    } else {
        let a0 = cut(req, lo, k - 1);
        let b0 = cut(req, hi, k - 1);
        let e = req[k - 1];
        let id = e.0;
        assert(0 <= lo(id) <= hi(id));
        if e.1 > lo(id) {
            let x = (id, (e.1 - lo(id)) as i32);
            let high = table.combos(id, x.1 as int);
            let c0 = c.drop_last();
            let j = c.last();
            assert(c =~= c0.push(j));
            lemma_lists_push(table, a0, x);
            lemma_choice_push(table.lists(a0), high, c0, j);
            let d0 = lemma_cut_choice(req, lo, hi, dm, k - 1, c0);
            if e.1 > hi(id) {
                let y = (id, (e.1 - hi(id)) as i32);
                let low = table.combos(id, y.1 as int);
                let j2 = lemma_pick_eased(dm, id, y.1, x.1, j);
                lemma_lists_push(table, b0, y);
                lemma_step_both(table.lists(a0), high, c0, j, table.lists(b0), low, d0, j2);
                d0.push(j2)
            } else {
                let same = lemma_pick_eased(dm, id, x.1, x.1, j);
                lemma_step_one(table.lists(a0), high, c0, j, table.lists(b0), d0);
                d0
            }
        } else {
            lemma_cut_choice(req, lo, hi, dm, k - 1, c)
        }
    }
}

/// With more free sockets and less to place, no fewer sockets stay free at
/// any size, and never more than were free.
pub proof fn lemma_free_rest_grows(f1: Seq<i32>, r1: Seq<i32>, f2: Seq<i32>, r2: Seq<i32>)
    requires
        is_slots(f1),
        is_slots(r1),
        is_slots(f2),
        is_slots(r2),
        slots_le(f1, f2),
        slots_le(r2, r1),
    ensures
        is_slots(free_rest(f1, r1)),
        is_slots(free_rest(f2, r2)),
        slots_le(free_rest(f1, r1), free_rest(f2, r2)),
        slots_le(free_rest(f1, r1), f1),
{
    reveal_with_fuel(carry_after, 5);
    let a = free_rest(f1, r1);
    let b = free_rest(f2, r2);
    assert forall|i: int| 0 <= i < MAX_SLOT_LEVEL implies 0 <= #[trigger] a[i] <= b[i] && a[i]
        <= f1[i] by {
        assert(i == 0 || i == 1 || i == 2 || i == 3);
        assert(0 <= carry_after(f2, r2, i) <= carry_after(f1, r1, i));
        assert(0 <= free_after(f1, r1)[i] <= f1[i]);
        assert(0 <= free_after(f2, r2)[i] <= f2[i]);
        assert(free_after(f1, r1)[i] <= free_after(f2, r2)[i]);
    }
}

/// The score of a build that the search keeps is the score of its spare
/// sockets.
pub proof fn lemma_candidate_score<'a>(
    c: Candidate<'a>,
    pieces: Seq<Equipment<'a>>,
    weapon: Seq<i32>,
    req: Seq<(Seq<char>, i32)>,
    free: Seq<i32>,
    dm: &DataManager,
)
    requires
        candidate_of(c, pieces, weapon, req, free, dm),
    ensures
        c.score == slot_point(spare_of(pieces, weapon, req, free, dm)),
{
}

/// The sockets of a build whose sockets can be written down, size by size.
proof fn lemma_avail<'a>(weapon: Seq<i32>, pieces: Seq<Equipment<'a>>)
    requires
        pieces_sound(pieces),
        forall|s: int| 0 <= s < MAX_SLOT_LEVEL ==> #[trigger] build_slots(weapon, pieces, s) <= i32::MAX,
    ensures
        is_slots(avail_vec(weapon, pieces)),
        forall|s: int|
            0 <= s < MAX_SLOT_LEVEL ==> #[trigger] avail_vec(weapon, pieces)[s] == build_slots(
                weapon,
                pieces,
                s,
            ),
{
    let empty = Seq::<char>::empty();
    assert forall|s: int| 0 <= s < MAX_SLOT_LEVEL implies 0 <= #[trigger] build_slots(
        weapon,
        pieces,
        s,
    ) by {
        lemma_totals_nonneg(pieces, pieces.len() as int, empty, s);
        lemma_count_nonneg(weapon, s + 1, weapon.len() as int);
    }
    assert forall|s: int| 0 <= s < MAX_SLOT_LEVEL implies #[trigger] avail_vec(weapon, pieces)[s]
        == build_slots(weapon, pieces, s) by {
        assert(0 <= build_slots(weapon, pieces, s) <= i32::MAX);
    }
}

/// The sockets that stay spare of the sockets `rest` once the skills left
/// with one decoration were met.
pub open spec fn spare_after(res: Seq<(Seq<char>, i32)>, rest: Seq<i32>, dm: &DataManager) -> Seq<i32> {
    if res.len() == 0 {
        rest
    } else {
        free_rest(rest, demand_vec(res, dm))
    }
}

/// With more levels had and no fewer sockets, the decorations that could
/// meet what was left of a requirement can meet what is left now, and the
/// sockets that stay spare score no less.
pub proof fn lemma_more_had_serves(
    req: Seq<(Seq<char>, i32)>,
    lo: spec_fn(Seq<char>) -> int,
    hi: spec_fn(Seq<char>) -> int,
    rest: Seq<i32>,
    rest2: Seq<i32>,
    dm: &DataManager,
)
    requires
        raises(lo, hi),
        table_built(dm),
        dm.deco_combinations.wf(),
        is_slots(rest),
        is_slots(rest2),
        slots_le(rest, rest2),
        suffix_sum(rest, 0) <= i32::MAX,
        cut(req, lo, req.len() as int).len() == 0 || decos_suffice(
            cut(req, lo, req.len() as int),
            rest,
            dm,
        ),
    ensures
        cut(req, hi, req.len() as int).len() == 0 || decos_suffice(
            cut(req, hi, req.len() as int),
            rest2,
            dm,
        ),
        slot_point(spare_after(cut(req, lo, req.len() as int), rest, dm)) <= slot_point(
            spare_after(cut(req, hi, req.len() as int), rest2, dm),
        ),
{
    let m = req.len() as int;
    let table = dm.deco_combinations;
    let res = cut(req, lo, m);
    let res2 = cut(req, hi, m);
    lemma_cut_needs_less(req, lo, hi, dm, m);
    assert(rest[0] <= rest2[0] && rest[1] <= rest2[1] && rest[2] <= rest2[2] && rest[3] <= rest2[3]);
    if res.len() > 0 {
        let demand = demand_vec(res, dm);
        let demand2 = demand_vec(res2, dm);
        assert forall|s: int| 0 <= s < MAX_SLOT_LEVEL implies 0 <= #[trigger] demand2[s]
            <= demand[s] by {
            assert(0 <= single_demand(res2, dm, res2.len() as int, s) <= single_demand(
                res,
                dm,
                res.len() as int,
                s,
            ));
            assert(single_demand(res, dm, res.len() as int, s) <= i32::MAX);
        }
        assert forall|s: int| 0 <= s < MAX_SLOT_LEVEL implies 0 <= #[trigger] demand[s] by {
            assert(0 <= demand2[s] <= demand[s]);
        }
        assert(is_slots(demand));
        assert(is_slots(demand2));
        assert(slots_le(demand2, demand));
        lemma_fits_monotone(rest, demand, rest2, demand2);
        lemma_free_rest_grows(rest, demand, rest2, demand2);
        let spare = free_rest(rest, demand);
        let spare2 = free_rest(rest2, demand2);
        assert(spare[0] <= spare2[0] && spare[1] <= spare2[1] && spare[2] <= spare2[2] && spare[3]
            <= spare2[3]);
        assert(spare[0] <= rest[0] && spare[1] <= rest[1] && spare[2] <= rest[2] && spare[3]
            <= rest[3]);
        if res2.len() > 0 {
            let c = choose|c: Seq<int>|
                is_choice(table.lists(res), c) && fits(rest, sum_vec(table.lists(res), c));
            let c2 = lemma_cut_choice(req, lo, hi, dm, m, c);
            lemma_lists_slots(table, res);
            lemma_lists_slots(table, res2);
            lemma_lighter_choice_fits(table.lists(res2), c2, table.lists(res), c, rest);
            let sum2 = sum_vec(table.lists(res2), c2);
            assert forall|s: int| 0 <= s < MAX_SLOT_LEVEL implies 0 <= #[trigger] sum2[s] by {
                lemma_choice_sum_bounds(table.lists(res2), c2, res2.len() as int, s);
                assert(choice_sum(table.lists(res2), c2, table.lists(res2).len() as int, s)
                    <= i32::MAX);
            }
            assert(is_slots(sum2));
            assert(slots_le(sum2, sum2));
            lemma_fits_monotone(rest, sum2, rest2, sum2);
            assert(some_choice_fits(table.lists(res2), rest2));
            assert(forall|s: int|
                0 <= s < MAX_SLOT_LEVEL ==> #[trigger] single_demand(res2, dm, res2.len() as int, s)
                    <= i32::MAX);
            assert(decos_suffice(res2, rest2, dm));
        }
    }
}

/// The sockets left of a build once the sockets to leave free were set
/// aside are not more than the build has.
proof fn lemma_rest_small(avail: Seq<i32>, free: Seq<i32>, top: Seq<i32>)
    requires
        is_slots(avail),
        is_slots(free),
        is_slots(top),
        slots_le(avail, top),
        top[0] + top[1] + top[2] + top[3] <= i32::MAX,
    ensures
        is_slots(free_rest(avail, free)),
        suffix_sum(free_rest(avail, free), 0) <= i32::MAX,
{
    lemma_free_rest_grows(avail, free, avail, free);
    let rest = free_rest(avail, free);
    reveal_with_fuel(suffix_sum, 5);
    assert(rest[0] <= avail[0] <= top[0]);
    assert(rest[1] <= avail[1] <= top[1]);
    assert(rest[2] <= avail[2] <= top[2]);
    assert(rest[3] <= avail[3] <= top[3]);
}

/// A build that meets a requirement still meets it once a piece is replaced
/// by one that dominates it, and its score is no lower then.
pub proof fn lemma_dominator_serves<'a>(
    pieces: Seq<Equipment<'a>>,
    k: int,
    b: Equipment<'a>,
    weapon: Seq<i32>,
    req: Seq<(Seq<char>, i32)>,
    free: Seq<i32>,
    dm: &DataManager,
)
    requires
        0 <= k < pieces.len(),
        pieces_sound(pieces),
        pieces_sound(seq![b]),
        piece_le(pieces[k], b),
        levels_positive(req),
        is_slots(free),
        table_built(dm),
        dm.deco_combinations.wf(),
        build_slots(weapon, pieces.update(k, b), 0) + build_slots(weapon, pieces.update(k, b), 1)
            + build_slots(weapon, pieces.update(k, b), 2) + build_slots(
            weapon,
            pieces.update(k, b),
            3,
        ) <= i32::MAX,
        acceptable(pieces, weapon, req, free, dm),
    ensures
        acceptable(pieces.update(k, b), weapon, req, free, dm),
        slot_point(spare_of(pieces, weapon, req, free, dm)) <= slot_point(
            spare_of(pieces.update(k, b), weapon, req, free, dm),
        ),
{
    let swapped = pieces.update(k, b);
    let n = pieces.len() as int;
    assert(seq![b][0] == b);
    assert(is_slots(b.spec_slots()));
    assert(pieces_sound(swapped));
    let lo = |id: Seq<char>| total_level(pieces, n, id);
    let hi = |id: Seq<char>| total_level(swapped, n, id);
    lemma_left_is_cut(req, pieces, n, lo);
    lemma_left_is_cut(req, swapped, n, hi);
    let ma = entries_map(pieces[k].spec_skills());
    let mb = entries_map(b.spec_skills());
    assert forall|id: Seq<char>| 0 <= #[trigger] lo(id) <= hi(id) by {
        lemma_totals_nonneg(pieces, n, id, 0);
        lemma_replaced_totals(pieces, k, b, n, id, 0);
        let la = level_in(pieces[k].spec_skills(), id);
        let lb = level_in(b.spec_skills(), id);
        if ma.contains_key(id) {
            assert(mb.contains_key(id) && ma[id] <= mb[id]);
        } else if mb.contains_key(id) {
            assert(0 <= mb[id]);
        }
        assert(la <= lb);
        assert(hi(id) == lo(id) + lb - la);
    }
    assert(raises(lo, hi));
    let empty = Seq::<char>::empty();
    assert(is_slots(pieces[k].spec_slots()));
    assert forall|s: int| 0 <= s < MAX_SLOT_LEVEL implies 0 <= #[trigger] build_slots(
        weapon,
        pieces,
        s,
    ) <= build_slots(weapon, swapped, s) by {
        lemma_totals_nonneg(pieces, n, empty, s);
        lemma_count_nonneg(weapon, s + 1, weapon.len() as int);
        lemma_replaced_totals(pieces, k, b, n, empty, s);
        assert(pieces[k].spec_slots()[s] <= b.spec_slots()[s]);
    }
    assert(0 <= build_slots(weapon, pieces, 0) <= build_slots(weapon, swapped, 0));
    assert(0 <= build_slots(weapon, pieces, 1) <= build_slots(weapon, swapped, 1));
    assert(0 <= build_slots(weapon, pieces, 2) <= build_slots(weapon, swapped, 2));
    assert(0 <= build_slots(weapon, pieces, 3) <= build_slots(weapon, swapped, 3));
    assert forall|s: int| 0 <= s < MAX_SLOT_LEVEL implies #[trigger] build_slots(weapon, swapped, s)
        <= i32::MAX by {
        assert(s == 0 || s == 1 || s == 2 || s == 3);
    }
    lemma_avail(weapon, pieces);
    lemma_avail(weapon, swapped);
    let avail = avail_vec(weapon, pieces);
    let avail2 = avail_vec(weapon, swapped);
    assert(slots_le(avail, avail2));
    assert(slots_le(free, free));
    lemma_fits_monotone(avail, free, avail2, free);
    lemma_free_rest_grows(avail, free, avail2, free);
    lemma_rest_small(avail, free, avail2);
    lemma_more_had_serves(req, lo, hi, free_rest(avail, free), free_rest(avail2, free), dm);
}

/// A build that meets a requirement meets every lower one, and its score is
/// no lower then: a requirement of which the levels `less` were taken off.
pub proof fn lemma_lower_requirement_serves<'a>(
    pieces: Seq<Equipment<'a>>,
    weapon: Seq<i32>,
    req: Seq<(Seq<char>, i32)>,
    less: spec_fn(Seq<char>) -> int,
    free: Seq<i32>,
    dm: &DataManager,
)
    requires
        pieces_sound(pieces),
        levels_positive(req),
        never_negative(less),
        is_slots(free),
        table_built(dm),
        dm.deco_combinations.wf(),
        build_slots(weapon, pieces, 0) + build_slots(weapon, pieces, 1) + build_slots(
            weapon,
            pieces,
            2,
        ) + build_slots(weapon, pieces, 3) <= i32::MAX,
        acceptable(pieces, weapon, req, free, dm),
    ensures
        acceptable(pieces, weapon, cut(req, less, req.len() as int), free, dm),
        slot_point(spare_of(pieces, weapon, req, free, dm)) <= slot_point(
            spare_of(pieces, weapon, cut(req, less, req.len() as int), free, dm),
        ),
{
    let n = pieces.len() as int;
    let m = req.len() as int;
    let lower = cut(req, less, m);
    let lo = |id: Seq<char>| total_level(pieces, n, id);
    let hi = |id: Seq<char>| less(id) + total_level(pieces, n, id);
    lemma_cut_shape(req, less, m);
    lemma_left_is_cut(req, pieces, n, lo);
    lemma_left_is_cut(lower, pieces, n, lo);
    assert forall|id: Seq<char>| 0 <= #[trigger] lo(id) by {
        lemma_totals_nonneg(pieces, n, id, 0);
    }
    assert forall|id: Seq<char>| #[trigger] hi(id) == less(id) + lo(id) by {}
    lemma_cut_twice(req, less, lo, hi, m);
    assert(left_after(lower, pieces, n) == cut(req, hi, m));
    assert forall|id: Seq<char>| #[trigger] lo(id) <= hi(id) by {
        assert(0 <= less(id));
    }
    assert(raises(lo, hi));
    let empty = Seq::<char>::empty();
    assert forall|s: int| 0 <= s < MAX_SLOT_LEVEL implies 0 <= #[trigger] build_slots(
        weapon,
        pieces,
        s,
    ) by {
        lemma_totals_nonneg(pieces, n, empty, s);
        lemma_count_nonneg(weapon, s + 1, weapon.len() as int);
    }
    assert(0 <= build_slots(weapon, pieces, 0) && 0 <= build_slots(weapon, pieces, 1) && 0
        <= build_slots(weapon, pieces, 2) && 0 <= build_slots(weapon, pieces, 3));
    lemma_avail(weapon, pieces);
    let avail = avail_vec(weapon, pieces);
    assert(slots_le(avail, avail));
    lemma_rest_small(avail, free, avail);
    let rest = free_rest(avail, free);
    assert(slots_le(rest, rest));
    lemma_more_had_serves(req, lo, hi, rest, rest, dm);
}

/// What dominates a piece dominates its copies, and what a piece dominates
/// its copies dominate.
proof fn lemma_copy_le<'a>(x: Equipment<'a>, a: Equipment<'a>, b: Equipment<'a>)
    requires
        is_copy(x, a),
    ensures
        piece_le(a, b) == piece_le(x, b),
        piece_le(b, a) == piece_le(b, x),
{
}

/// The filter keeps no copy of a piece that another piece of the pool
/// dominates without being dominated by it.
proof fn lemma_not_kept<'a>(
    kept: Seq<Equipment<'a>>,
    a: Equipment<'a>,
    b: Equipment<'a>,
    x: int,
)
    requires
        undominated(kept),
        covered_by(kept, b),
        piece_le(a, b),
        !piece_le(b, a),
        0 <= x < kept.len(),
    ensures
        !is_copy(kept[x], a),
{
    if is_copy(kept[x], a) {
        let y = choose|y: int| 0 <= y < kept.len() && piece_le(b, #[trigger] kept[y]);
        lemma_piece_le_trans(a, b, kept[y]);
        lemma_copy_le(kept[x], a, kept[y]);
        lemma_copy_le(kept[x], a, b);
        if x != y {
            assert(!piece_le(kept[x], kept[y]));
        }
    }
}

/// What covers every piece of a pool covers every piece of the pool without
/// one of them.
proof fn lemma_without_covered<'a>(kept: Seq<Equipment<'a>>, pool: Seq<Equipment<'a>>, i: int)
    requires
        0 <= i < pool.len(),
        forall|j: int| 0 <= j < pool.len() ==> covered_by(kept, #[trigger] pool[j]),
    ensures
        forall|m: int| 0 <= m < pool.remove(i).len() ==> covered_by(kept, #[trigger] pool.remove(i)[m]),
{
    let less = pool.remove(i);
    assert forall|m: int| 0 <= m < less.len() implies covered_by(kept, #[trigger] less[m]) by {
        if m < i {
            assert(less[m] == pool[m]);
        } else {
            assert(less[m] == pool[m + 1]);
        }
    }
}

/// Copies of pieces of a pool, none of them a copy of one piece of the
/// pool, are copies of pieces of the pool without that piece.
proof fn lemma_without_drawn<'a>(kept: Seq<Equipment<'a>>, pool: Seq<Equipment<'a>>, i: int)
    requires
        0 <= i < pool.len(),
        all_drawn_from(kept, pool),
        forall|x: int| 0 <= x < kept.len() ==> !is_copy(#[trigger] kept[x], pool[i]),
    ensures
        all_drawn_from(kept, pool.remove(i)),
{
    let less = pool.remove(i);
    assert forall|x: int| 0 <= x < kept.len() implies drawn_from(#[trigger] kept[x], less) by {
        assert(drawn_from(kept[x], pool));
        let m = choose|m: int| 0 <= m < pool.len() && is_copy(kept[x], #[trigger] pool[m]);
        if m < i {
            assert(less[m] == pool[m]);
        } else {
            assert(m != i);
            assert(less[m - 1] == pool[m]);
        }
    }
}

/// What the filter may keep of a pool, it may keep of the pool without a
/// piece that another piece dominates without being dominated by it.
proof fn lemma_filter_without<'a>(kept: Seq<Equipment<'a>>, pool: Seq<Equipment<'a>>, i: int, j: int)
    requires
        0 <= i < pool.len(),
        0 <= j < pool.len(),
        piece_le(pool[i], pool[j]),
        !piece_le(pool[j], pool[i]),
        filtered_of(kept, pool),
    ensures
        filtered_of(kept, pool.remove(i)),
{
    assert(covered_by(kept, pool[j]));
    assert forall|x: int| 0 <= x < kept.len() implies !is_copy(#[trigger] kept[x], pool[i]) by {
        lemma_not_kept(kept, pool[i], pool[j], x);
    }
    lemma_without_covered(kept, pool, i);
    lemma_without_drawn(kept, pool, i);
}

/// Copies of pieces of a pool without one of its pieces are copies of
/// pieces of the pool.
proof fn lemma_with_drawn<'a>(kept: Seq<Equipment<'a>>, pool: Seq<Equipment<'a>>, i: int)
    requires
        0 <= i < pool.len(),
        all_drawn_from(kept, pool.remove(i)),
    ensures
        all_drawn_from(kept, pool),
{
    let less = pool.remove(i);
    assert forall|x: int| 0 <= x < kept.len() implies drawn_from(#[trigger] kept[x], pool) by {
        assert(drawn_from(kept[x], less));
        let m = choose|m: int| 0 <= m < less.len() && is_copy(kept[x], #[trigger] less[m]);
        if m < i {
            assert(less[m] == pool[m]);
        } else {
            assert(less[m] == pool[m + 1]);
        }
    }
}

/// What covers every piece of a pool without one of its pieces covers that
/// piece too, where another piece of the pool dominates it.
proof fn lemma_with_covered<'a>(kept: Seq<Equipment<'a>>, pool: Seq<Equipment<'a>>, i: int, j: int)
    requires
        0 <= i < pool.len(),
        0 <= j < pool.len(),
        i != j,
        piece_le(pool[i], pool[j]),
        forall|m: int| 0 <= m < pool.remove(i).len() ==> covered_by(kept, #[trigger] pool.remove(i)[m]),
    ensures
        forall|m: int| 0 <= m < pool.len() ==> covered_by(kept, #[trigger] pool[m]),
{
    let less = pool.remove(i);
    let at = if j < i {
        j
    } else {
        j - 1
    };
    assert(less[at] == pool[j]);
    assert(covered_by(kept, less[at]));
    let y = choose|y: int| 0 <= y < kept.len() && piece_le(pool[j], #[trigger] kept[y]);
    lemma_piece_le_trans(pool[i], pool[j], kept[y]);
    assert(covered_by(kept, pool[i]));
    assert forall|m: int| 0 <= m < pool.len() implies covered_by(kept, #[trigger] pool[m]) by {
        if m < i {
            assert(less[m] == pool[m]);
            assert(covered_by(kept, less[m]));
        } else if m > i {
            assert(less[m - 1] == pool[m]);
            assert(covered_by(kept, less[m - 1]));
        }
    }
}

/// What the filter may keep of a pool without a piece that another piece of
/// the pool dominates, it may keep of the pool.
proof fn lemma_filter_with<'a>(kept: Seq<Equipment<'a>>, pool: Seq<Equipment<'a>>, i: int, j: int)
    requires
        0 <= i < pool.len(),
        0 <= j < pool.len(),
        i != j,
        piece_le(pool[i], pool[j]),
        filtered_of(kept, pool.remove(i)),
    ensures
        filtered_of(kept, pool),
{
    lemma_with_drawn(kept, pool, i);
    lemma_with_covered(kept, pool, i, j);
}

/// A piece that another piece of the pool dominates without being dominated
/// by it does not count for the dominance filter: what the filter may keep
/// of the pool is what it may keep of the pool without the piece.
pub proof fn lemma_filter_ignores_dominated<'a>(
    kept: Seq<Equipment<'a>>,
    pool: Seq<Equipment<'a>>,
    i: int,
    j: int,
)
    requires
        0 <= i < pool.len(),
        0 <= j < pool.len(),
        piece_le(pool[i], pool[j]),
        !piece_le(pool[j], pool[i]),
    ensures
        filtered_of(kept, pool) <==> filtered_of(kept, pool.remove(i)),
{
    if filtered_of(kept, pool) {
        lemma_filter_without(kept, pool, i, j);
    }
    if filtered_of(kept, pool.remove(i)) {
        lemma_filter_with(kept, pool, i, j);
    }
}

} // verus!
