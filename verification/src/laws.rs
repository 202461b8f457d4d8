//! What holds of the table, of the promotion rule and of the search.

use crate::calc::calc_equipment::{
    CalcEquipment, dominated, map_nonneg, max_slot_size, min_level, piece_point, skill_term,
    skills_point,
};
use crate::calc::equipment::Equipment;
use crate::counter::in_range;
use crate::data::armor::SexType;
use crate::data::data_manager::{DataManager, table_built};
use crate::data::deco::Decoration;
use crate::data::deco_build::{
    bucket_ok, candidate_at, copies_needed, cost_matches, count_limit, decos_valid, granted,
    is_candidate, lemma_copies_needed, lemma_granted_tail, sockets_used,
};
use crate::data::deco_build::{all_slots, rows};
use crate::data::deco_combination::{
    DecorationCombinations, choice_sum, is_choice, is_packing, levels_ok, levels_sound, list_lens,
    lists_slots, req_ids, sum_vec,
};
use crate::data::deco_complete::counts_nonneg;
use crate::data::deco_walk::{lemma_choice_sum_bounds, some_choice_fits};
use crate::data::skill::MAX_SLOT_LEVEL;
use crate::full_equipments::enumerates_fitting;
use crate::full_equipments::{level_in, pieces_sound, total_level};
use crate::slots::{fits, is_slots, lemma_fits_monotone, slots_le};
use crate::solver::build_ok;
use crate::solver_bag::SolvedBuild;
use crate::solver_parts::{left_after, lemma_left_after, lemma_minus, levels_nonneg, minus};
use crate::str_map::{distinct_keys, entries_map, has_key, key_index, lemma_entry_in_map};
use vstd::prelude::*;

verus! {

/// `v` is the socket cost of some counts of the decorations `decos`, none
/// negative, that grant at least `level` levels.
pub open spec fn grants(decos: Seq<Decoration>, v: Seq<i32>, level: int) -> bool {
    exists|c: Seq<int>|
        c.len() == decos.len() && counts_nonneg(c) && #[trigger] cost_matches(v, decos, c)
            && granted(decos, c, decos.len() as int) >= level
}

/// The cost of a number of copies of a single decoration is the cost of the
/// count vector that holds this number.
proof fn lemma_single_cost(decos: Seq<Decoration>, copies: int, v: Seq<i32>)
    requires
        decos.len() == 1,
        v.len() == MAX_SLOT_LEVEL,
        forall|s: int|
            0 <= s < MAX_SLOT_LEVEL ==> #[trigger] v[s] == if s + 1 == decos[0].slot_size {
                copies
            } else {
                0
            },
    ensures
        cost_matches(v, decos, seq![copies]),
        granted(decos, seq![copies], 1) == copies * decos[0].skill_level,
{
    let c = seq![copies];
    assert(granted(decos, c, 0) == 0);
    assert(granted(decos, c, 1) == granted(decos, c, 0) + c[0] * decos[0].skill_level);
    assert forall|s: int| 0 <= s < MAX_SLOT_LEVEL implies #[trigger] v[s] == sockets_used(
        decos,
        c,
        decos.len() as int,
        s + 1,
    ) by {
        assert(sockets_used(decos, c, 0, s + 1) == 0);
        assert(sockets_used(decos, c, 1, s + 1) == sockets_used(decos, c, 0, s + 1) + if decos[0].slot_size
            == s + 1 {
            c[0]
        } else {
            0
        });
    }
}

/// The cost of a candidate for a level is the cost of decorations that
/// grant the level or more.
proof fn lemma_candidate_grants(decos: Seq<Decoration>, level: int, c: Seq<int>, v: Seq<i32>)
    requires
        is_candidate(decos, level, c),
        cost_matches(v, decos, c),
    ensures
        grants(decos, v, level),
{
    let j = choose|j: int| candidate_at(decos, level, c, j);
    lemma_granted_tail(decos, c, j, decos.len() as int);
    assert(c.len() == decos.len());
    assert forall|i: int| 0 <= i < c.len() implies 0 <= #[trigger] c[i] by {
        assert(0 <= c[i] <= count_limit(decos, level, i));
    }
    assert(granted(decos, c, decos.len() as int) >= level);
}

/// As many copies of a single decoration as a level needs grant the level.
proof fn lemma_single_grants(decos: Seq<Decoration>, level: int, v: Seq<i32>)
    requires
        decos.len() == 1,
        decos[0].valid(),
        1 <= level,
        v.len() == MAX_SLOT_LEVEL,
        forall|s: int|
            0 <= s < MAX_SLOT_LEVEL ==> #[trigger] v[s] == if s + 1 == decos[0].slot_size {
                copies_needed(level, decos[0].skill_level as int)
            } else {
                0
            },
    ensures
        grants(decos, v, level),
{
    let per_copy = decos[0].skill_level as int;
    let copies = copies_needed(level, per_copy);
    lemma_copies_needed(level, per_copy);
    lemma_single_cost(decos, copies, v);
    let c = seq![copies];
    assert(c.len() == decos.len());
    assert(counts_nonneg(c));
    assert(cost_matches(v, decos, c));
    assert(granted(decos, c, decos.len() as int) >= level);
}

/// Every cost that the table holds for a level of a skill is the socket cost
/// of decorations of the skill that grant the level or more.
pub proof fn lemma_combo_grants(decos: Seq<Decoration>, level: int, b: Seq<Seq<i32>>, i: int)
    requires
        decos_valid(decos),
        1 <= level,
        bucket_ok(decos, level, b),
        0 <= i < b.len(),
    ensures
        grants(decos, b[i], level),
{
    if decos.len() == 1 {
        assert(decos[0].valid());
        assert(i == 0);
        lemma_single_grants(decos, level, b[0]);
    } else {
        let v = b[i];
        assert(exists|c: Seq<int>| is_candidate(decos, level, c) && cost_matches(v, decos, c));
        let c = choose|c: Seq<int>|
            is_candidate(decos, level, c) && cost_matches(v, decos, c);
        lemma_candidate_grants(decos, level, c, v);
    }
}

/// The level that is left of a skill once the levels `got` were taken off
/// the first `k` entries of a requirement: what `got` lacks of it, and
/// nothing where `got` grants it in full or the requirement does not name it.
pub proof fn lemma_minus_level(
    req: Seq<(Seq<char>, i32)>,
    got: Map<Seq<char>, i32>,
    k: int,
    id: Seq<char>,
)
    requires
        distinct_keys(req),
        levels_nonneg(req),
        map_nonneg(got),
        0 <= k <= req.len(),
    ensures
        level_in(minus(req, got, k), id) == if has_key(req.subrange(0, k), id) {
            let asked = level_in(req, id);
            let have = if got.contains_key(id) {
                got[id] as int
            } else {
                0
            };
            if asked > have {
                asked - have
            } else {
                0
            }
        } else {
            0
        },
    decreases k,
{
    lemma_minus(req, got, k);
    let now = minus(req, got, k);
    if k > 0 {
        lemma_minus_level(req, got, k - 1, id);
        lemma_minus(req, got, k - 1);
        let rest = minus(req, got, k - 1);
        let e = req[k - 1];
        lemma_entry_in_map(req, k - 1);
        let head = req.subrange(0, k);
        let before = req.subrange(0, k - 1);
        assert(head[k - 1] == e);
        if e.0 == id {
            assert(has_key(head, id));
            if has_key(before, id) {
                let j = key_index(before, id);
                assert(req[j].0 != req[k - 1].0);
            }
            assert(has_key(req, id)) by {
                assert(req[k - 1].0 == id);
            }
            assert(level_in(req, id) == e.1);
            if has_key(rest, id) {
                let j = choose|j: int| 0 <= j < k - 1 && (#[trigger] req[j]).0 == id;
                assert(req[j].0 != req[k - 1].0);
            }
            if now.len() > rest.len() {
                lemma_entry_in_map(now, rest.len() as int);
                assert(has_key(now, id)) by {
                    assert(now[rest.len() as int].0 == id);
                }
            } else {
                assert(now == rest);
            }
        } else {
            assert(has_key(head, id) == has_key(before, id)) by {
                if has_key(head, id) {
                    let j = key_index(head, id);
                    assert(j < k - 1);
                    assert(before[j].0 == id);
                }
                if has_key(before, id) {
                    let j = key_index(before, id);
                    assert(head[j].0 == id);
                }
            }
            assert(has_key(now, id) == has_key(rest, id)) by {
                if has_key(now, id) {
                    let j = key_index(now, id);
                    assert(j < rest.len());
                    assert(rest[j].0 == id);
                }
                if has_key(rest, id) {
                    let j = key_index(rest, id);
                    assert(now[j].0 == id);
                }
            }
            if has_key(rest, id) {
                let j = key_index(rest, id);
                lemma_entry_in_map(rest, j);
                assert(now[j] == rest[j]);
                lemma_entry_in_map(now, j);
            }
        }
    } else {
        assert(!has_key(req.subrange(0, 0), id));
        assert(!has_key(now, id));
    }
}

/// The level that is left of a skill once the first `k` pieces were taken
/// off a requirement: what their levels together lack of the required one.
pub proof fn lemma_left_after_level<'a>(
    req: Seq<(Seq<char>, i32)>,
    equips: Seq<Equipment<'a>>,
    k: int,
    id: Seq<char>,
)
    requires
        distinct_keys(req),
        levels_nonneg(req),
        pieces_sound(equips),
        0 <= k <= equips.len(),
    ensures
        level_in(left_after(req, equips, k), id) == if level_in(req, id) > total_level(equips, k, id) {
            level_in(req, id) - total_level(equips, k, id)
        } else {
            0
        },
        0 <= total_level(equips, k, id),
        0 <= level_in(req, id),
    decreases k,
{
    if has_key(req, id) {
        let j = key_index(req, id);
        lemma_entry_in_map(req, j);
    }
    if k > 0 {
        lemma_left_after_level(req, equips, k - 1, id);
        lemma_left_after(req, equips, k - 1);
        let prev = left_after(req, equips, k - 1);
        let skills = equips[k - 1].spec_skills();
        let got = entries_map(skills);
        assert(map_nonneg(got));
        lemma_minus_level(prev, got, prev.len() as int, id);
        assert(prev.subrange(0, prev.len() as int) =~= prev);
        if has_key(skills, id) {
            assert(got.contains_key(id));
            assert(0 <= got[id]);
        }
    }
}

/// The sockets that the choices cost without the choice for skill `i`: as
/// much less as that choice costs.
proof fn lemma_choice_sum_remove(
    lists: Seq<Seq<Seq<i32>>>,
    c: Seq<int>,
    i: int,
    k: int,
    s: int,
)
    requires
        c.len() == lists.len(),
        0 <= i < lists.len(),
        0 <= k <= lists.len() - 1,
    ensures
        choice_sum(lists.remove(i), c.remove(i), k, s) == if k <= i {
            choice_sum(lists, c, k, s)
        } else {
            choice_sum(lists, c, k + 1, s) - lists[i][c[i]][s]
        },
    decreases k,
{
    if k > 0 {
        lemma_choice_sum_remove(lists, c, i, k - 1, s);
        let l2 = lists.remove(i);
        let c2 = c.remove(i);
        if k - 1 < i {
            assert(l2[k - 1] == lists[k - 1]);
            assert(c2[k - 1] == c[k - 1]);
        } else {
            assert(l2[k - 1] == lists[k]);
            assert(c2[k - 1] == c[k]);
        }
    }
}

/// Where a packing for a requirement fits, a packing for the requirement
/// without one of its skills fits too.
pub proof fn lemma_drop_skill_fits(lists: Seq<Seq<Seq<i32>>>, free: Seq<i32>, i: int)
    requires
        lists_slots(lists),
        is_slots(free),
        0 <= i < lists.len(),
        some_choice_fits(lists, free),
    ensures
        some_choice_fits(lists.remove(i), free),
{
    let c = choose|c: Seq<int>| is_choice(lists, c) && fits(free, sum_vec(lists, c));
    let l2 = lists.remove(i);
    let c2 = c.remove(i);
    let n = lists.len() as int;
    assert forall|k: int| 0 <= k < l2.len() implies all_slots(#[trigger] l2[k]) by {
        if k < i {
            assert(l2[k] == lists[k]);
        } else {
            assert(l2[k] == lists[k + 1]);
        }
    }
    assert forall|k: int| 0 <= k < c2.len() implies 0 <= #[trigger] c2[k] < list_lens(l2)[k] by {
        if k < i {
            assert(c2[k] == c[k]);
            assert(l2[k] == lists[k]);
            assert(0 <= c[k] < list_lens(lists)[k]);
        } else {
            assert(c2[k] == c[k + 1]);
            assert(l2[k] == lists[k + 1]);
            assert(0 <= c[k + 1] < list_lens(lists)[k + 1]);
        }
    }
    assert(in_range(c2, list_lens(l2)));
    assert(0 <= c[i] < list_lens(lists)[i]);
    assert(all_slots(lists[i]));
    assert(is_slots(lists[i][c[i]]));
    assert forall|s: int| 0 <= s < MAX_SLOT_LEVEL implies #[trigger] choice_sum(l2, c2, l2.len() as int, s)
        <= i32::MAX && 0 <= choice_sum(l2, c2, l2.len() as int, s) <= choice_sum(lists, c, n, s) by {
        lemma_choice_sum_remove(lists, c, i, n - 1, s);
        lemma_choice_sum_bounds(l2, c2, n - 1, s);
        lemma_choice_sum_bounds(lists, c, n, s);
        assert(0 <= lists[i][c[i]][s]);
        if n - 1 <= i {
            lemma_choice_sum_bounds(lists, c, n - 1, s);
        }
        assert(choice_sum(lists, c, lists.len() as int, s) <= i32::MAX);
    }
    assert(is_choice(l2, c2));
    let a = sum_vec(lists, c);
    let b = sum_vec(l2, c2);
    assert forall|s: int| 0 <= s < MAX_SLOT_LEVEL implies 0 <= #[trigger] a[s] by {
        lemma_choice_sum_bounds(lists, c, n, s);
        assert(choice_sum(lists, c, lists.len() as int, s) <= i32::MAX);
    }
    assert(is_slots(a));
    assert(is_slots(b));
    assert(slots_le(b, a));
    assert(slots_le(free, free));
    lemma_fits_monotone(free, a, free, b);
}

/// The largest socket size of a list of decorations is not negative.
proof fn lemma_max_size_nonneg(decos: Seq<Decoration>, k: int)
    ensures
        0 <= max_slot_size(decos, k),
    decreases k,
{
    if k > 0 {
        lemma_max_size_nonneg(decos, k - 1);
    }
}

/// A skill scores no less at a higher level, and nothing below zero where
/// no level is negative.
proof fn lemma_term_grows(
    id: Seq<char>,
    low: i32,
    high: i32,
    decos: Map<Seq<char>, Vec<Decoration>>,
    yes: Map<Seq<char>, i32>,
    no: Map<Seq<char>, i32>,
)
    requires
        0 <= low <= high,
        map_nonneg(yes),
        map_nonneg(no),
    ensures
        0 <= skill_term(id, low, decos, yes, no) <= skill_term(id, high, decos, yes, no),
{
    if yes.contains_key(id) {
        let w = max_slot_size(decos[id]@, decos[id]@.len() as int);
        lemma_max_size_nonneg(decos[id]@, decos[id]@.len() as int);
        let a = min_level(low, yes[id]);
        let b = min_level(high, yes[id]);
        assert(0 <= yes[id]);
        assert(0 <= a * w <= b * w) by (nonlinear_arith)
            requires
                0 <= a <= b,
                0 <= w,
        ;
    } else if no.contains_key(id) {
        assert(0 <= no[id]);
    }
}

/// The score of a list of skills is the score of the list without one of
/// them and the score of that one.
proof fn lemma_point_remove(
    skills: Seq<(Seq<char>, i32)>,
    j: int,
    k: int,
    decos: Map<Seq<char>, Vec<Decoration>>,
    yes: Map<Seq<char>, i32>,
    no: Map<Seq<char>, i32>,
)
    requires
        0 <= j < skills.len(),
        0 <= k <= skills.len() - 1,
    ensures
        skills_point(skills.remove(j), k, decos, yes, no) == if k <= j {
            skills_point(skills, k, decos, yes, no)
        } else {
            skills_point(skills, k + 1, decos, yes, no) - skill_term(
                skills[j].0,
                skills[j].1,
                decos,
                yes,
                no,
            )
        },
    decreases k,
{
    if k > 0 {
        lemma_point_remove(skills, j, k - 1, decos, yes, no);
        let r = skills.remove(j);
        if k - 1 < j {
            assert(r[k - 1] == skills[k - 1]);
        } else {
            assert(r[k - 1] == skills[k]);
        }
    }
}

/// A list of skills scores no more than a list that holds each of its
/// skills at the same level or above.
proof fn lemma_point_le(
    ea: Seq<(Seq<char>, i32)>,
    eb: Seq<(Seq<char>, i32)>,
    decos: Map<Seq<char>, Vec<Decoration>>,
    yes: Map<Seq<char>, i32>,
    no: Map<Seq<char>, i32>,
)
    requires
        distinct_keys(ea),
        distinct_keys(eb),
        levels_nonneg(ea),
        levels_nonneg(eb),
        map_nonneg(yes),
        map_nonneg(no),
        forall|i: int|
            0 <= i < ea.len() ==> has_key(eb, (#[trigger] ea[i]).0) && ea[i].1 <= entries_map(
                eb,
            )[ea[i].0],
    ensures
        0 <= skills_point(ea, ea.len() as int, decos, yes, no) <= skills_point(
            eb,
            eb.len() as int,
            decos,
            yes,
            no,
        ),
    decreases ea.len(),
{
    if ea.len() == 0 {
        lemma_point_nonneg(eb, eb.len() as int, decos, yes, no);
    } else {
        let n = ea.len() as int;
        let last = ea[n - 1];
        let rest = ea.drop_last();
        assert(has_key(eb, last.0));
        let j = key_index(eb, last.0);
        lemma_entry_in_map(eb, j);
        let eb2 = eb.remove(j);
        crate::str_map::lemma_map_remove(eb, j);
        assert forall|a: int, b: int| 0 <= a < b < rest.len() implies (#[trigger] rest[a]).0 != (
        #[trigger] rest[b]).0 by {
            assert(ea[a].0 != ea[b].0);
        }
        assert forall|i: int| 0 <= i < rest.len() implies 0 <= (#[trigger] rest[i]).1 by {
            assert(0 <= ea[i].1);
        }
        assert forall|i: int| 0 <= i < eb2.len() implies 0 <= (#[trigger] eb2[i]).1 by {
            if i < j {
                assert(eb2[i] == eb[i]);
            } else {
                assert(eb2[i] == eb[i + 1]);
            }
        }
        assert forall|i: int| 0 <= i < rest.len() implies has_key(eb2, (#[trigger] rest[i]).0)
            && rest[i].1 <= entries_map(eb2)[rest[i].0] by {
            assert(rest[i] == ea[i]);
            assert(ea[i].0 != ea[n - 1].0);
            assert(has_key(eb, ea[i].0));
            let m = key_index(eb, ea[i].0);
            lemma_entry_in_map(eb, m);
            assert(entries_map(eb2) == entries_map(eb).remove(last.0));
            assert(entries_map(eb2).contains_key(ea[i].0));
        }
        lemma_point_le(rest, eb2, decos, yes, no);
        lemma_point_remove(eb, j, eb.len() - 1, decos, yes, no);
        if eb.len() - 1 <= j {
            assert(j == eb.len() - 1);
            assert(eb2 =~= eb.drop_last());
        }
        assert(0 <= last.1);
        assert(0 <= eb[j].1);
        lemma_term_grows(last.0, last.1, eb[j].1, decos, yes, no);
        lemma_point_prefix(ea, n - 1, decos, yes, no);
        lemma_point_prefix(eb, eb.len() - 1, decos, yes, no);
    }
}

/// The score of the first `k` skills of a list is the score of the first
/// `k` skills of its beginning.
proof fn lemma_point_prefix(
    skills: Seq<(Seq<char>, i32)>,
    k: int,
    decos: Map<Seq<char>, Vec<Decoration>>,
    yes: Map<Seq<char>, i32>,
    no: Map<Seq<char>, i32>,
)
    requires
        0 <= k < skills.len(),
    ensures
        skills_point(skills.drop_last(), k, decos, yes, no) == skills_point(skills, k, decos, yes, no),
    decreases k,
{
    if k > 0 {
        lemma_point_prefix(skills, k - 1, decos, yes, no);
        assert(skills.drop_last()[k - 1] == skills[k - 1]);
    }
}

/// Skills at no negative level score nothing below zero.
proof fn lemma_point_nonneg(
    skills: Seq<(Seq<char>, i32)>,
    k: int,
    decos: Map<Seq<char>, Vec<Decoration>>,
    yes: Map<Seq<char>, i32>,
    no: Map<Seq<char>, i32>,
)
    requires
        0 <= k <= skills.len(),
        levels_nonneg(skills),
        map_nonneg(yes),
        map_nonneg(no),
    ensures
        0 <= skills_point(skills, k, decos, yes, no),
    decreases k,
{
    if k > 0 {
        lemma_point_nonneg(skills, k - 1, decos, yes, no);
        assert(0 <= skills[k - 1].1);
        lemma_term_grows(skills[k - 1].0, skills[k - 1].1, skills[k - 1].1, decos, yes, no);
    }
}

/// A piece that another piece dominates scores no more than that piece.
pub proof fn lemma_dominated_point(
    ea: Seq<(Seq<char>, i32)>,
    sa: Seq<i32>,
    eb: Seq<(Seq<char>, i32)>,
    sb: Seq<i32>,
    decos: Map<Seq<char>, Vec<Decoration>>,
    yes: Map<Seq<char>, i32>,
    no: Map<Seq<char>, i32>,
)
    requires
        distinct_keys(ea),
        distinct_keys(eb),
        levels_nonneg(ea),
        levels_nonneg(eb),
        is_slots(sa),
        is_slots(sb),
        map_nonneg(yes),
        map_nonneg(no),
        dominated(sa, entries_map(ea), sb, entries_map(eb)),
    ensures
        piece_point(ea, sa, decos, yes, no) <= piece_point(eb, sb, decos, yes, no),
{
    assert forall|i: int| 0 <= i < ea.len() implies has_key(eb, (#[trigger] ea[i]).0) && ea[i].1
        <= entries_map(eb)[ea[i].0] by {
        lemma_entry_in_map(ea, i);
        assert(entries_map(ea).contains_key(ea[i].0));
    }
    lemma_point_le(ea, eb, decos, yes, no);
    assert(sa[0] <= sb[0]);
    assert(sa[1] <= sb[1]);
    assert(sa[2] <= sb[2]);
    assert(sa[3] <= sb[3]);
}

/// A cost that the table of a catalog offers for a level of a skill is the
/// socket cost of decorations of the skill that grant the level or more.
pub proof fn lemma_offer_grants(dm: &DataManager, id: Seq<char>, level: int, j: int)
    requires
        table_built(dm),
        0 <= j < dm.deco_combinations.combos(id, level).len(),
    ensures
        dm.decos_by_skill@.contains_key(id),
        grants(dm.decos_by_skill@[id]@, dm.deco_combinations.combos(id, level)[j], level),
{
    let table = dm.deco_combinations.table();
    let listed = dm.decos_by_skill.entries();
    let m = entries_map(table);
    assert(m.contains_key(id) && 1 <= level <= m[id]@.len());
    let i = key_index(table, id);
    lemma_entry_in_map(table, i);
    lemma_entry_in_map(listed, i);
    let t = table[i];
    let d = listed[i];
    assert(t.0 == d.0);
    let max_level = dm.skills@[t.0].max_level as int;
    assert(levels_ok(d.1@, max_level, t.1@));
    let bucket = rows(t.1@[level - 1]@);
    assert(bucket_ok(d.1@, level, bucket));
    lemma_combo_grants(d.1@, level, bucket, j);
}

/// Every build of an answer meets the requirement: for each skill, the
/// pieces grant the required level, or each packing holds for the skill the
/// socket cost of decorations that grant what the pieces lack. And each
/// packing fits the sockets of the pieces and the weapon that are left once
/// the sockets to leave free were set aside.
pub proof fn lemma_build_meets_requirement<'a>(
    b: SolvedBuild<'a>,
    weapon: Seq<i32>,
    req: Seq<(Seq<char>, i32)>,
    free: Seq<i32>,
    dm: &DataManager,
    sex: SexType,
    p: int,
    id: Seq<char>,
)
    requires
        table_built(dm),
        distinct_keys(req),
        levels_nonneg(req),
        pieces_sound(b.equipments@),
        build_ok(b, weapon, req, free, dm, sex),
        0 <= p < b.deco_combs@.len(),
    ensures
        level_in(req, id) <= total_level(b.equipments@, 6, id) || exists|k: int|
            0 <= k < b.deco_combs@[p].combs_per_skill.entries().len() && (
            #[trigger] b.deco_combs@[p].combs_per_skill.entries()[k]).0 == id
                && dm.decos_by_skill@.contains_key(id) && grants(
                dm.decos_by_skill@[id]@,
                b.deco_combs@[p].combs_per_skill.entries()[k].1@,
                level_in(req, id) - total_level(b.equipments@, 6, id),
            ),
        b.residual.entries().len() > 0 ==> fits(b.rest_slots@, b.deco_combs@[p].sum@),
{
    let equips = b.equipments@;
    let res = b.residual.entries();
    let table = &dm.deco_combinations;
    lemma_left_after_level(req, equips, 6, id);
    lemma_left_after(req, equips, 6);
    if res.len() > 0 {
        let lists = table.lists(res);
        let cs = choose|cs: Seq<Seq<int>>|
            enumerates_fitting(b.deco_combs@, cs, req_ids(res), lists, b.rest_slots@);
        let c = cs[p];
        assert(is_choice(lists, c));
        assert(is_packing(b.deco_combs@[p], req_ids(res), lists, c));
        if level_in(req, id) > total_level(equips, 6, id) {
            let lack = level_in(req, id) - total_level(equips, 6, id);
            assert(has_key(res, id));
            let k = key_index(res, id);
            lemma_entry_in_map(res, k);
            assert(res[k].1 == lack);
            let entries = b.deco_combs@[p].combs_per_skill.entries();
            assert(entries[k].0 == req_ids(res)[k]);
            assert(entries[k].1@ == lists[k][c[k]]);
            assert(0 <= c[k] < list_lens(lists)[k]);
            assert(lists[k] == table.combos(id, lack));
            lemma_offer_grants(dm, id, lack, c[k]);
        }
    } else {
        assert(!has_key(res, id));
    }
}

/// Every cost that a table offers for a requirement is a socket vector.
pub proof fn lemma_lists_slots(table: DecorationCombinations, req: Seq<(Seq<char>, i32)>)
    requires
        table.wf(),
    ensures
        lists_slots(table.lists(req)),
{
    let lists = table.lists(req);
    assert forall|k: int| 0 <= k < lists.len() implies all_slots(#[trigger] lists[k]) by {
        let m = entries_map(table.table());
        let id = req[k].0;
        let level = req[k].1 as int;
        if m.contains_key(id) && 1 <= level <= m[id]@.len() {
            let i = key_index(table.table(), id);
            lemma_entry_in_map(table.table(), i);
            assert(levels_sound(table.table()[i].1@));
        }
    }
}

/// Where some packing for a requirement fits the free sockets, some packing
/// for the requirement without one of its skills fits them too.
pub proof fn lemma_fewer_skills_fit(
    table: DecorationCombinations,
    req: Seq<(Seq<char>, i32)>,
    i: int,
    free: Seq<i32>,
)
    requires
        table.wf(),
        is_slots(free),
        0 <= i < req.len(),
        some_choice_fits(table.lists(req), free),
    ensures
        some_choice_fits(table.lists(req.remove(i)), free),
{
    lemma_lists_slots(table, req);
    lemma_drop_skill_fits(table.lists(req), free, i);
    assert(table.lists(req.remove(i)) =~= table.lists(req).remove(i));
}

/// The sum of the first `k` numbers of `b`.
pub open spec fn total(b: Seq<int>, k: int) -> int
    decreases k,
{
    if k <= 0 {
        0
    } else {
        total(b, k - 1) + b[k - 1]
    }
}

/// The sum of numbers of which one was changed.
proof fn lemma_total_changed(b: Seq<int>, j: int, v: int, k: int)
    requires
        0 <= j < b.len(),
        0 <= k <= b.len(),
    ensures
        total(b.update(j, v), k) == total(b, k) + if j < k {
            v - b[j]
        } else {
            0
        },
    decreases k,
{
    if k > 0 {
        lemma_total_changed(b, j, v, k - 1);
    }
}

/// Sums of numbers that agree are the same.
proof fn lemma_total_same(a: Seq<int>, b: Seq<int>, k: int)
    requires
        0 <= k <= a.len(),
        k <= b.len(),
        forall|i: int| 0 <= i < k ==> #[trigger] a[i] == b[i],
    ensures
        total(a, k) == total(b, k),
    decreases k,
{
    if k > 0 {
        lemma_total_same(a, b, k - 1);
    }
}

/// Numbers that are not negative add up to no negative number.
proof fn lemma_total_nonneg(b: Seq<int>, k: int)
    requires
        0 <= k <= b.len(),
        forall|i: int| 0 <= i < b.len() ==> 0 <= #[trigger] b[i],
    ensures
        0 <= total(b, k),
    decreases k,
{
    if k > 0 {
        lemma_total_nonneg(b, k - 1);
    }
}

/// The positions `at` are positions of a list of `n` entries, no two the
/// same.
pub open spec fn picks(at: Seq<int>, n: int) -> bool {
    &&& forall|i: int| 0 <= i < at.len() ==> 0 <= #[trigger] at[i] < n
    &&& forall|i: int, j: int| 0 <= i < j < at.len() ==> #[trigger] at[i] != #[trigger] at[j]
}

/// Numbers picked out of numbers that are not negative, each position once
/// at most, add up to no more than all of them.
proof fn lemma_picked_total(b: Seq<int>, at: Seq<int>, got: Seq<int>)
    requires
        forall|i: int| 0 <= i < b.len() ==> 0 <= #[trigger] b[i],
        picks(at, b.len() as int),
        got.len() == at.len(),
        forall|i: int| 0 <= i < at.len() ==> #[trigger] got[i] == b[at[i]],
    ensures
        0 <= total(got, at.len() as int) <= total(b, b.len() as int),
    decreases at.len(),
{
    let m = at.len() as int;
    if m <= 0 {
        lemma_total_nonneg(b, b.len() as int);
    } else {
        let j = at[m - 1];
        let rest = at.drop_last();
        let b2 = b.update(j, 0);
        assert forall|i: int| 0 <= i < b2.len() implies 0 <= #[trigger] b2[i] by {
            assert(0 <= b[i]);
        }
        assert forall|i: int| 0 <= i < rest.len() implies 0 <= #[trigger] rest[i] < b2.len() by {
            assert(rest[i] == at[i]);
        }
        assert forall|x: int, y: int| 0 <= x < y < rest.len() implies #[trigger] rest[x]
            != #[trigger] rest[y] by {
            assert(rest[x] == at[x] && rest[y] == at[y]);
        }
        let got2 = got.drop_last();
        assert forall|i: int| 0 <= i < rest.len() implies #[trigger] got2[i] == b2[rest[i]] by {
            assert(rest[i] == at[i]);
            assert(got2[i] == got[i]);
            assert(at[i] != at[m - 1]);
        }
        lemma_picked_total(b2, rest, got2);
        lemma_total_same(got, got2, m - 1);
        lemma_total_changed(b, j, 0, b.len() as int);
        assert(got[m - 1] == b[j]);
    }
}

/// The sockets of a size that choices cost are the sum of what each costs.
proof fn lemma_sum_is_total(lists: Seq<Seq<Seq<i32>>>, c: Seq<int>, k: int, s: int)
    requires
        0 <= k <= lists.len(),
    ensures
        choice_sum(lists, c, k, s) == total(
            Seq::new(lists.len(), |i: int| lists[i][c[i]][s] as int),
            k,
        ),
    decreases k,
{
    if k > 0 {
        lemma_sum_is_total(lists, c, k - 1, s);
    }
}

/// The requirement `part` asks for skills of the requirement `req` at their
/// levels there, each once at most, in any order: entry by entry, it holds
/// the entry of `req` at the position that `at` gives.
pub open spec fn part_of(
    part: Seq<(Seq<char>, i32)>,
    req: Seq<(Seq<char>, i32)>,
    at: Seq<int>,
) -> bool {
    &&& at.len() == part.len()
    &&& picks(at, req.len() as int)
    &&& forall|i: int| 0 <= i < part.len() ==> #[trigger] part[i] == req[at[i]]
}

/// Where some packing for a requirement fits the free sockets, some packing
/// fits them for any requirement that asks for some of its skills at their
/// levels, in whatever order.
pub proof fn lemma_any_part_fits(
    table: DecorationCombinations,
    req: Seq<(Seq<char>, i32)>,
    part: Seq<(Seq<char>, i32)>,
    at: Seq<int>,
    free: Seq<i32>,
)
    requires
        table.wf(),
        is_slots(free),
        part_of(part, req, at),
        some_choice_fits(table.lists(req), free),
    ensures
        some_choice_fits(table.lists(part), free),
{
    let lr = table.lists(req);
    let lp = table.lists(part);
    lemma_lists_slots(table, req);
    lemma_lists_slots(table, part);
    let c = choose|c: Seq<int>| is_choice(lr, c) && fits(free, sum_vec(lr, c));
    let d = Seq::new(part.len(), |i: int| c[at[i]]);
    assert forall|i: int| 0 <= i < d.len() implies 0 <= #[trigger] d[i] < list_lens(lp)[i] by {
        assert(part[i] == req[at[i]]);
        assert(lp[i] == lr[at[i]]);
        assert(0 <= c[at[i]] < list_lens(lr)[at[i]]);
    }
    assert(in_range(d, list_lens(lp)));
    let n = req.len() as int;
    let m = part.len() as int;
    assert forall|s: int| 0 <= s < MAX_SLOT_LEVEL implies 0 <= #[trigger] choice_sum(lp, d, m, s)
        <= choice_sum(lr, c, n, s) by {
        let b = Seq::new(lr.len(), |i: int| lr[i][c[i]][s] as int);
        let got = Seq::new(at.len(), |i: int| b[at[i]]);
        let mine = Seq::new(lp.len(), |i: int| lp[i][d[i]][s] as int);
        assert forall|i: int| 0 <= i < b.len() implies 0 <= #[trigger] b[i] by {
            assert(0 <= c[i] < list_lens(lr)[i]);
            assert(all_slots(lr[i]));
            assert(is_slots(lr[i][c[i]]));
        }
        assert forall|i: int| 0 <= i < at.len() implies #[trigger] got[i] == b[at[i]] by {}
        lemma_picked_total(b, at, got);
        lemma_sum_is_total(lr, c, n, s);
        lemma_sum_is_total(lp, d, m, s);
        assert forall|i: int| 0 <= i < m implies #[trigger] mine[i] == got[i] by {
            assert(part[i] == req[at[i]]);
            assert(lp[i] == lr[at[i]]);
        }
        lemma_total_same(mine, got, m);
    }
    assert forall|s: int| 0 <= s < MAX_SLOT_LEVEL implies #[trigger] choice_sum(lp, d, lp.len() as int, s)
        <= i32::MAX by {
        assert(choice_sum(lr, c, lr.len() as int, s) <= i32::MAX);
        assert(0 <= choice_sum(lp, d, m, s) <= choice_sum(lr, c, n, s));
    }
    assert(is_choice(lp, d));
    let a = sum_vec(lr, c);
    let b = sum_vec(lp, d);
    assert forall|s: int| 0 <= s < MAX_SLOT_LEVEL implies 0 <= #[trigger] b[s] <= a[s] by {
        assert(0 <= choice_sum(lp, d, m, s) <= choice_sum(lr, c, n, s));
        assert(choice_sum(lr, c, lr.len() as int, s) <= i32::MAX);
    }
    assert forall|s: int| 0 <= s < MAX_SLOT_LEVEL implies 0 <= #[trigger] a[s] by {
        assert(0 <= b[s] <= a[s]);
    }
    assert(is_slots(a));
    assert(is_slots(b));
    assert(slots_le(b, a));
    assert(slots_le(free, free));
    lemma_fits_monotone(free, a, free, b);
}

} // verus!
