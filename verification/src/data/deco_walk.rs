//! Walking the packings that the decoration table offers for a requirement.

use crate::counter::{
    in_range, ints, lemma_rank_bound, lemma_rank_injective, lemma_rank_max, lemma_rank_succ,
    lemma_rank_zero, lemma_weight_pos, positive, rank, weight, zero_counter,
};
use crate::data::deco_build::{all_slots, rows};
use crate::data::deco_combination::{
    DecorationCombination, DecorationCombinations, choice_sum, enumerates, id_views, is_choice,
    is_packing, list_lens, lists_slots, lists_view, req_ids, sum_fits, sum_vec,
};
use crate::data::skill::MAX_SLOT_LEVEL;
use crate::slots::{copy_slots, fits, is_slots};
use crate::str_map::{StrMap, has_key, key_index};
use vstd::prelude::*;

verus! {

/// No identifier occurs twice.
pub open spec fn distinct_ids(ids: Seq<Seq<char>>) -> bool {
    forall|i: int, j: int| 0 <= i < j < ids.len() ==> #[trigger] ids[i] != #[trigger] ids[j]
}

/// `f` gives the verdict `verdict` on the packing of the choices `c`.
pub open spec fn verdict_on<F: Fn(DecorationCombination) -> bool>(
    f: F,
    ids: Seq<Seq<char>>,
    lists: Seq<Seq<Seq<i32>>>,
    c: Seq<int>,
    verdict: bool,
) -> bool {
    exists|comb: DecorationCombination|
        is_packing(comb, ids, lists, c) && call_ensures(f, (comb,), verdict)
}

/// Some choice for the requirement has a sum that fits `free`.
pub open spec fn some_choice_fits(lists: Seq<Seq<Seq<i32>>>, free: Seq<i32>) -> bool {
    exists|c: Seq<int>| is_choice(lists, c) && fits(free, sum_vec(lists, c))
}

/// The sum of the first `k` choices is not negative and grows with `k`.
pub proof fn lemma_choice_sum_bounds(lists: Seq<Seq<Seq<i32>>>, c: Seq<int>, k: int, s: int)
    requires
        lists_slots(lists),
        in_range(c, list_lens(lists)),
        0 <= k <= lists.len(),
        0 <= s < MAX_SLOT_LEVEL,
    ensures
        0 <= choice_sum(lists, c, k, s) <= k * i32::MAX,
        k < lists.len() ==> choice_sum(lists, c, k, s) <= choice_sum(lists, c, k + 1, s),
    decreases k,
{
    if k > 0 {
        lemma_choice_sum_bounds(lists, c, k - 1, s);
        assert(0 <= c[k - 1] < list_lens(lists)[k - 1]);
        assert(all_slots(lists[k - 1]));
        assert(is_slots(lists[k - 1][c[k - 1]]));
        assert(0 <= lists[k - 1][c[k - 1]][s]);
    }
    if k < lists.len() {
        assert(0 <= c[k] < list_lens(lists)[k]);
        assert(all_slots(lists[k]));
        assert(is_slots(lists[k][c[k]]));
        assert(0 <= lists[k][c[k]][s]);
    }
}

impl DecorationCombinations {
    /// What a walk over the packings for `req_skills` starts from: the
    /// skills in the requirement's order, the costs on offer for each, and a
    /// counter at zero.
    pub fn get_iter_init_data<'a>(&self, req_skills: &'a StrMap<i32>) -> (r: (
        Vec<&'a String>,
        Vec<Vec<Vec<i32>>>,
        Vec<usize>,
    ))
        ensures
            r.0@.len() == req_skills.entries().len(),
            r.1@.len() == req_skills.entries().len(),
            id_views(r.0@) == req_ids(req_skills.entries()),
            distinct_ids(id_views(r.0@)),
            lists_view(r.1@) == self.lists(req_skills.entries()),
            lists_slots(lists_view(r.1@)),
            r.2@.len() == req_skills.entries().len(),
            forall|k: int| 0 <= k < r.2@.len() ==> #[trigger] r.2@[k] == 0,
    {
        let n = req_skills.len();
        let ghost req = req_skills.entries();
        let mut skill_ids: Vec<&'a String> = Vec::new();
        let mut combs_per_skill: Vec<Vec<Vec<i32>>> = Vec::new();
        let mut k: usize = 0;
        while k < n
            invariant
                k <= n,
                n == req.len(),
                req == req_skills.entries(),
                skill_ids@.len() == k,
                combs_per_skill@.len() == k,
                forall|i: int| 0 <= i < k ==> (#[trigger] skill_ids@[i])@ == req[i].0,
                forall|i: int|
                    0 <= i < k ==> rows((#[trigger] combs_per_skill@[i])@) == self.combos(
                        req[i].0,
                        req[i].1 as int,
                    ) && all_slots(rows(combs_per_skill@[i]@)),
            decreases n - k,
        {
            let skill_id = req_skills.key_at(k);
            let level = *req_skills.value_at(k);
            let combs = self.costs_of_level(skill_id, level);
            skill_ids.push(skill_id);
            combs_per_skill.push(combs);
            k += 1;
        }
        let level_indices = zero_counter(n);
        proof {
            assert(id_views(skill_ids@) =~= req_ids(req));
            assert(lists_view(combs_per_skill@) =~= self.lists(req));
            assert forall|i: int, j: int| 0 <= i < j < n implies #[trigger] id_views(
                skill_ids@,
            )[i] != #[trigger] id_views(skill_ids@)[j] by {
                assert(req[i].0 != req[j].0);
            }
            assert forall|i: int| 0 <= i < n implies all_slots(
                #[trigger] lists_view(combs_per_skill@)[i],
            ) by {
                assert(all_slots(rows(combs_per_skill@[i]@)));
            }
        }
        (skill_ids, combs_per_skill, level_indices)
    }

    /// The packing that the counter `level_indices` stands for: for each
    /// skill the cost at the skill's digit, and the sum of these costs.
    /// `None` where a socket count of the sum cannot be written down.
    pub fn get_next_deco_comb(
        &self,
        skill_ids: &Vec<&String>,
        combs_per_skill: &Vec<Vec<Vec<i32>>>,
        level_indices: &Vec<usize>,
    ) -> (r: Option<DecorationCombination>)
        requires
            skill_ids@.len() == combs_per_skill@.len(),
            distinct_ids(id_views(skill_ids@)),
            lists_slots(lists_view(combs_per_skill@)),
            in_range(ints(level_indices@), list_lens(lists_view(combs_per_skill@))),
        ensures
            match r {
                Some(comb) => sum_fits(lists_view(combs_per_skill@), ints(level_indices@))
                    && is_packing(
                    comb,
                    id_views(skill_ids@),
                    lists_view(combs_per_skill@),
                    ints(level_indices@),
                ) && is_slots(comb.sum@),
                None => !sum_fits(lists_view(combs_per_skill@), ints(level_indices@)),
            },
    {
        let ghost lists = lists_view(combs_per_skill@);
        let ghost c = ints(level_indices@);
        let ghost ids = id_views(skill_ids@);
        let n = level_indices.len();
        let mut sums: Vec<i128> = Vec::new();
        sums.push(0);
        sums.push(0);
        sums.push(0);
        sums.push(0);
        let mut all_skill_combs: StrMap<Vec<i32>> = StrMap::new();
        let mut k: usize = 0;
        while k < n
            invariant
                k <= n,
                n == level_indices@.len(),
                n == combs_per_skill@.len(),
                n == skill_ids@.len(),
                lists == lists_view(combs_per_skill@),
                c == ints(level_indices@),
                ids == id_views(skill_ids@),
                distinct_ids(ids),
                lists_slots(lists),
                in_range(c, list_lens(lists)),
                sums@.len() == MAX_SLOT_LEVEL,
                forall|s: int|
                    0 <= s < MAX_SLOT_LEVEL ==> #[trigger] sums@[s] == choice_sum(lists, c, k as int, s),
                all_skill_combs.wf(),
                all_skill_combs.entries().len() == k,
                forall|i: int|
                    0 <= i < k ==> (#[trigger] all_skill_combs.entries()[i]).0 == ids[i]
                        && all_skill_combs.entries()[i].1@ == lists[i][c[i]],
            decreases n - k,
        {
            assert(0 <= c[k as int] < list_lens(lists)[k as int]);
            let inside_level_index = level_indices[k];
            assert(lists[k as int] == rows(combs_per_skill@[k as int]@));
            let skill_comb = &combs_per_skill[k][inside_level_index];
            assert(skill_comb@ == lists[k as int][c[k as int]]);
            assert(all_slots(lists[k as int]));
            assert(is_slots(skill_comb@));
            let ghost before = all_skill_combs.entries();
            proof {
                if has_key(before, skill_ids@[k as int]@) {
                    let i = key_index(before, skill_ids@[k as int]@);
                    assert(before[i].0 == ids[i]);
                    assert(ids[i] != ids[k as int]);
                }
            }
            let row = copy_slots(skill_comb);
            all_skill_combs.insert(skill_ids[k].clone(), row);
            proof {
                let after = all_skill_combs.entries();
                assert(after == before.push((skill_ids@[k as int]@, row)));
                assert forall|i: int| 0 <= i < k + 1 implies (#[trigger] after[i]).0 == ids[i]
                    && after[i].1@ == lists[i][c[i]] by {
                    if i < k {
                        assert(after[i] == before[i]);
                    }
                }
            }
            let mut s: usize = 0;
            while s < MAX_SLOT_LEVEL
                invariant
                    s <= MAX_SLOT_LEVEL,
                    k < n,
                    n == lists.len(),
                    lists_slots(lists),
                    in_range(c, list_lens(lists)),
                    sums@.len() == MAX_SLOT_LEVEL,
                    skill_comb@ == lists[k as int][c[k as int]],
                    is_slots(skill_comb@),
                    forall|t: int|
                        0 <= t < s ==> #[trigger] sums@[t] == choice_sum(lists, c, k + 1, t),
                    forall|t: int|
                        s <= t < MAX_SLOT_LEVEL ==> #[trigger] sums@[t] == choice_sum(
                            lists,
                            c,
                            k as int,
                            t,
                        ),
                decreases MAX_SLOT_LEVEL - s,
            {
                proof {
                    lemma_choice_sum_bounds(lists, c, k as int, s as int);
                }
                assert(0 <= skill_comb@[s as int]);
                let next = sums[s] + skill_comb[s] as i128;
                sums.set(s, next);
                s += 1;
            }
            k += 1;
        }
        let mut sum: Vec<i32> = Vec::new();
        let mut s: usize = 0;
        while s < MAX_SLOT_LEVEL
            invariant
                s <= MAX_SLOT_LEVEL,
                n == lists.len(),
                lists == lists_view(combs_per_skill@),
                c == ints(level_indices@),
                lists_slots(lists),
                in_range(c, list_lens(lists)),
                sums@.len() == MAX_SLOT_LEVEL,
                forall|t: int|
                    0 <= t < MAX_SLOT_LEVEL ==> #[trigger] sums@[t] == choice_sum(
                        lists,
                        c,
                        n as int,
                        t,
                    ),
                sum@.len() == s,
                forall|t: int|
                    0 <= t < s ==> #[trigger] sum@[t] == choice_sum(lists, c, n as int, t) && 0
                        <= sum@[t],
            decreases MAX_SLOT_LEVEL - s,
        {
            proof {
                lemma_choice_sum_bounds(lists, c, n as int, s as int);
            }
            if sums[s] > 0x7fff_ffff {
                assert(choice_sum(lists, c, lists.len() as int, s as int) > i32::MAX);
                return None;
            }
            sum.push(sums[s] as i32);
            s += 1;
        }
        assert(sum@ =~= sum_vec(lists, c));
        assert forall|t: int| 0 <= t < MAX_SLOT_LEVEL implies #[trigger] choice_sum(
            lists,
            c,
            lists.len() as int,
            t,
        ) <= i32::MAX by {
            assert(sum@[t] == choice_sum(lists, c, n as int, t));
        }
        Some(DecorationCombination { combs_per_skill: all_skill_combs, sum })
    }

    /// Moves the counter one step on: the first digit that is not at its
    /// last value goes up by one and the digits before it go back to zero.
    /// Returns `false`, with the counter back at zero, when every digit was
    /// at its last value.
    pub fn proceed_next_iter(
        &self,
        level_indices: &mut Vec<usize>,
        combs_per_skill: &Vec<Vec<Vec<i32>>>,
    ) -> (more: bool)
        requires
            in_range(ints(old(level_indices)@), list_lens(lists_view(combs_per_skill@))),
        ensures
            in_range(ints(final(level_indices)@), list_lens(lists_view(combs_per_skill@))),
            more ==> rank(
                ints(final(level_indices)@),
                list_lens(lists_view(combs_per_skill@)),
                combs_per_skill@.len() as int,
            ) == rank(
                ints(old(level_indices)@),
                list_lens(lists_view(combs_per_skill@)),
                combs_per_skill@.len() as int,
            ) + 1,
            !more ==> rank(
                ints(old(level_indices)@),
                list_lens(lists_view(combs_per_skill@)),
                combs_per_skill@.len() as int,
            ) == weight(list_lens(lists_view(combs_per_skill@)), combs_per_skill@.len() as int) - 1,
            !more ==> forall|j: int|
                0 <= j < combs_per_skill@.len() ==> #[trigger] final(level_indices)@[j] == 0,
    {
        let n = level_indices.len();
        let ghost before = ints(level_indices@);
        let ghost radices = list_lens(lists_view(combs_per_skill@));
        let mut index: usize = 0;
        while index < n
            invariant
                index <= n,
                n == combs_per_skill@.len(),
                level_indices@.len() == n,
                before.len() == n,
                before == ints(old(level_indices)@),
                radices == list_lens(lists_view(combs_per_skill@)),
                in_range(before, radices),
                forall|j: int| 0 <= j < index ==> #[trigger] before[j] == radices[j] - 1,
                forall|j: int| 0 <= j < index ==> #[trigger] level_indices@[j] == 0,
                forall|j: int| index <= j < n ==> #[trigger] level_indices@[j] == before[j],
            decreases n - index,
        {
            assert(before[index as int] == level_indices@[index as int]);
            assert(0 <= before[index as int] < radices[index as int]);
            assert(radices[index as int] == combs_per_skill@[index as int]@.len());
            let digit = level_indices[index];
            let radix = combs_per_skill[index].len();
            assert(digit == before[index as int]);
            assert(radix == radices[index as int]);
            if digit + 1 < radix {
                let next = digit + 1;
                level_indices.set(index, next);
                proof {
                    let after = ints(level_indices@);
                    assert forall|j: int| 0 <= j < n implies 0 <= #[trigger] after[j]
                        < radices[j] by {
                        if j < index {
                            assert(level_indices@[j] == 0);
                            assert(before[j] == radices[j] - 1);
                        } else if j > index {
                            assert(level_indices@[j] == before[j]);
                        }
                    }
                    assert forall|j: int| 0 <= j < index implies #[trigger] after[j] == 0 by {
                        assert(level_indices@[j] == 0);
                    }
                    assert forall|j: int| index < j < n implies #[trigger] after[j] == before[j] by {
                        assert(level_indices@[j] == before[j]);
                    }
                    lemma_rank_succ(before, after, radices, index as int);
                }
                return true;
            }
            level_indices.set(index, 0);
            index += 1;
        }
        proof {
            let after = ints(level_indices@);
            assert forall|j: int| 0 <= j < n implies 0 <= #[trigger] after[j] < radices[j] by {
                assert(level_indices@[j] == 0);
                assert(before[j] == radices[j] - 1);
            }
            lemma_rank_max(before, radices, n as int);
        }
        false
    }
}

/// Whether every skill has at least one cost on offer.
fn all_nonempty(combs_per_skill: &Vec<Vec<Vec<i32>>>) -> (b: bool)
    ensures
        b == positive(list_lens(lists_view(combs_per_skill@))),
{
    let ghost radices = list_lens(lists_view(combs_per_skill@));
    let mut k: usize = 0;
    while k < combs_per_skill.len()
        invariant
            k <= combs_per_skill@.len(),
            radices == list_lens(lists_view(combs_per_skill@)),
            forall|i: int| 0 <= i < k ==> 1 <= #[trigger] radices[i],
        decreases combs_per_skill.len() - k,
    {
        assert(radices[k as int] == combs_per_skill@[k as int]@.len());
        if combs_per_skill[k].len() == 0 {
            return false;
        }
        k += 1;
    }
    true
}

/// Where a skill has no cost on offer, there is no choice at all.
proof fn lemma_no_choice(lists: Seq<Seq<Seq<i32>>>, c: Seq<int>)
    requires
        !positive(list_lens(lists)),
    ensures
        !is_choice(lists, c),
{
    if is_choice(lists, c) {
        let k = choose|k: int| 0 <= k < list_lens(lists).len() && !(1 <= #[trigger] list_lens(lists)[k]);
        assert(0 <= c[k] < list_lens(lists)[k]);
    }
}

impl DecorationCombinations {
    /// All packings for `req_skills` whose sums can be written down, in the
    /// order of the counter. An empty requirement gives no packing.
    pub fn get_possible_combs(&self, req_skills: &StrMap<i32>) -> (out: Vec<DecorationCombination>)
        ensures
            req_skills.entries().len() == 0 ==> out@.len() == 0,
            req_skills.entries().len() > 0 ==> exists|cs: Seq<Seq<int>>|
                enumerates(
                    out@,
                    cs,
                    req_ids(req_skills.entries()),
                    self.lists(req_skills.entries()),
                ),
            forall|i: int| 0 <= i < out@.len() ==> is_slots((#[trigger] out@[i]).sum@),
    {
        let mut out: Vec<DecorationCombination> = Vec::new();
        if req_skills.len() == 0 {
            return out;
        }
        let (skill_ids, combs_per_skill, mut level_indices) = self.get_iter_init_data(req_skills);
        let ghost ids = req_ids(req_skills.entries());
        let ghost lists = self.lists(req_skills.entries());
        let ghost radices = list_lens(lists);
        let n = level_indices.len();
        let ghost mut cs: Seq<Seq<int>> = Seq::empty();
        if !all_nonempty(&combs_per_skill) {
            proof {
                assert forall|c: Seq<int>| #[trigger] is_choice(lists, c) implies cs.contains(c) by {
                    lemma_no_choice(lists, c);
                }
                assert(enumerates(out@, cs, ids, lists));
            }
            return out;
        }
        let ghost mut r: int = 0;
        let mut more = true;
        proof {
            assert forall|i: int| 0 <= i < n implies 0 <= #[trigger] ints(level_indices@)[i]
                < radices[i] by {
                assert(level_indices@[i] == 0);
                assert(1 <= radices[i]);
            }
            assert forall|i: int| 0 <= i < n implies #[trigger] ints(level_indices@)[i] == 0 by {
                assert(level_indices@[i] == 0);
            }
            lemma_rank_zero(ints(level_indices@), radices, n as int);
            lemma_weight_pos(radices, n as int);
            assert forall|c: Seq<int>|
                #[trigger] is_choice(lists, c) && rank(c, radices, n as int) < 0 implies cs.contains(
                c,
            ) by {
                lemma_rank_bound(c, radices, n as int);
            }
        }
        while more
            invariant
                n == lists.len(),
                n == combs_per_skill@.len(),
                n == skill_ids@.len(),
                ids == id_views(skill_ids@),
                ids == req_ids(req_skills.entries()),
                lists == self.lists(req_skills.entries()),
                distinct_ids(ids),
                lists == lists_view(combs_per_skill@),
                lists_slots(lists),
                radices == list_lens(lists),
                positive(radices),
                in_range(ints(level_indices@), radices),
                more ==> rank(ints(level_indices@), radices, n as int) == r,
                0 <= r <= weight(radices, n as int),
                more ==> r < weight(radices, n as int),
                !more ==> r == weight(radices, n as int),
                cs.len() == out@.len(),
                forall|i: int|
                    0 <= i < out@.len() ==> is_choice(lists, #[trigger] cs[i]) && is_packing(
                        out@[i],
                        ids,
                        lists,
                        cs[i],
                    ) && rank(cs[i], radices, n as int) < r,
                forall|i: int| 0 <= i < out@.len() ==> is_slots((#[trigger] out@[i]).sum@),
                forall|i: int, j: int|
                    0 <= i < j < cs.len() ==> rank(#[trigger] cs[i], radices, n as int) < rank(
                        #[trigger] cs[j],
                        radices,
                        n as int,
                    ),
                forall|c: Seq<int>|
                    #[trigger] is_choice(lists, c) && rank(c, radices, n as int) < r
                        ==> cs.contains(c),
            decreases weight(radices, n as int) - r,
        {
            let ghost here = ints(level_indices@);
            let ghost before = cs;
            let next = self.get_next_deco_comb(&skill_ids, &combs_per_skill, &level_indices);
            match next {
                Some(comb) => {
                    out.push(comb);
                    proof {
                        cs = cs.push(here);
                    }
                },
                None => {},
            }
            proof {
                assert forall|c: Seq<int>|
                    #[trigger] is_choice(lists, c) && rank(c, radices, n as int) < r + 1 implies cs.contains(
                    c,
                ) by {
                    if rank(c, radices, n as int) < r {
                        assert(before.contains(c));
                        let i = choose|i: int| 0 <= i < before.len() && before[i] == c;
                        assert(cs[i] == c);
                    } else {
                        lemma_rank_injective(c, here, radices, n as int);
                        assert(c =~= here);
                        assert(cs[cs.len() - 1] == here);
                    }
                }
            }
            more = self.proceed_next_iter(&mut level_indices, &combs_per_skill);
            proof {
                r = r + 1;
                lemma_rank_bound(ints(level_indices@), radices, n as int);
            }
        }
        proof {
            assert forall|c: Seq<int>| #[trigger] is_choice(lists, c) implies cs.contains(c) by {
                lemma_rank_bound(c, radices, n as int);
            }
            assert(enumerates(out@, cs, ids, lists));
        }
        out
    }

    /// Hands the packings for `req_skills` to `f`, in the order of the
    /// counter, until `f` accepts one. Returns whether one was accepted; an
    /// empty requirement is accepted without asking.
    pub fn iter_possible_combs<F>(&self, req_skills: &StrMap<i32>, f: F) -> (found: bool) where
        F: Fn(DecorationCombination) -> bool,

        requires
            forall|comb: DecorationCombination|
                is_slots(comb.sum@) ==> #[trigger] call_requires(f, (comb,)),
        ensures
            req_skills.entries().len() == 0 ==> found,
            req_skills.entries().len() > 0 && found ==> exists|c: Seq<int>|
                is_choice(self.lists(req_skills.entries()), c) && verdict_on(
                    f,
                    req_ids(req_skills.entries()),
                    self.lists(req_skills.entries()),
                    c,
                    true,
                ),
            req_skills.entries().len() > 0 && !found ==> forall|c: Seq<int>| #[trigger]
                is_choice(self.lists(req_skills.entries()), c) ==> verdict_on(
                    f,
                    req_ids(req_skills.entries()),
                    self.lists(req_skills.entries()),
                    c,
                    false,
                ),
    {
        if req_skills.len() == 0 {
            return true;
        }
        let (skill_ids, combs_per_skill, mut level_indices) = self.get_iter_init_data(req_skills);
        let ghost ids = req_ids(req_skills.entries());
        let ghost lists = self.lists(req_skills.entries());
        let ghost radices = list_lens(lists);
        let n = level_indices.len();
        if !all_nonempty(&combs_per_skill) {
            proof {
                assert forall|c: Seq<int>| #[trigger] is_choice(lists, c) implies verdict_on(
                    f,
                    ids,
                    lists,
                    c,
                    false,
                ) by {
                    lemma_no_choice(lists, c);
                }
            }
            return false;
        }
        let ghost mut r: int = 0;
        let mut more = true;
        proof {
            assert forall|i: int| 0 <= i < n implies 0 <= #[trigger] ints(level_indices@)[i]
                < radices[i] by {
                assert(level_indices@[i] == 0);
                assert(1 <= radices[i]);
            }
            assert forall|i: int| 0 <= i < n implies #[trigger] ints(level_indices@)[i] == 0 by {
                assert(level_indices@[i] == 0);
            }
            lemma_rank_zero(ints(level_indices@), radices, n as int);
            lemma_weight_pos(radices, n as int);
            assert forall|c: Seq<int>|
                #[trigger] is_choice(lists, c) && rank(c, radices, n as int) < 0 implies verdict_on(
                f,
                ids,
                lists,
                c,
                false,
            ) by {
                lemma_rank_bound(c, radices, n as int);
            }
        }
        while more
            invariant
                n == lists.len(),
                n == combs_per_skill@.len(),
                n == skill_ids@.len(),
                ids == id_views(skill_ids@),
                ids == req_ids(req_skills.entries()),
                lists == self.lists(req_skills.entries()),
                distinct_ids(ids),
                lists == lists_view(combs_per_skill@),
                lists_slots(lists),
                radices == list_lens(lists),
                positive(radices),
                in_range(ints(level_indices@), radices),
                more ==> rank(ints(level_indices@), radices, n as int) == r,
                0 <= r <= weight(radices, n as int),
                more ==> r < weight(radices, n as int),
                !more ==> r == weight(radices, n as int),
                forall|comb: DecorationCombination|
                    is_slots(comb.sum@) ==> #[trigger] call_requires(f, (comb,)),
                forall|c: Seq<int>|
                    #[trigger] is_choice(lists, c) && rank(c, radices, n as int) < r ==> verdict_on(
                        f,
                        ids,
                        lists,
                        c,
                        false,
                    ),
            decreases weight(radices, n as int) - r,
        {
            let ghost here = ints(level_indices@);
            let next = self.get_next_deco_comb(&skill_ids, &combs_per_skill, &level_indices);
            match next {
                Some(deco_comb) => {
                    let ghost shown = deco_comb;
                    let result = f(deco_comb);
                    assert(is_packing(shown, ids, lists, here) && call_ensures(f, (shown,), result));
                    if result {
                        assert(verdict_on(f, ids, lists, here, true));
                        assert(is_choice(lists, here));
                        return true;
                    }
                    assert(verdict_on(f, ids, lists, here, false));
                },
                None => {},
            }
            proof {
                assert forall|c: Seq<int>|
                    #[trigger] is_choice(lists, c) && rank(c, radices, n as int) < r + 1 implies verdict_on(
                    f,
                    ids,
                    lists,
                    c,
                    false,
                ) by {
                    if rank(c, radices, n as int) >= r {
                        lemma_rank_injective(c, here, radices, n as int);
                        assert(c =~= here);
                    }
                }
            }
            more = self.proceed_next_iter(&mut level_indices, &combs_per_skill);
            proof {
                r = r + 1;
                lemma_rank_bound(ints(level_indices@), radices, n as int);
            }
        }
        proof {
            assert forall|c: Seq<int>| #[trigger] is_choice(lists, c) implies verdict_on(
                f,
                ids,
                lists,
                c,
                false,
            ) by {
                lemma_rank_bound(c, radices, n as int);
            }
        }
        false
    }

    /// Whether some packing for `req_skills` can be placed in `armor_slots`
    /// under the promotion rule. An empty requirement can.
    pub fn has_possible_combs(&self, req_skills: &StrMap<i32>, armor_slots: &Vec<i32>) -> (b: bool)
        requires
            is_slots(armor_slots@),
        ensures
            b == (req_skills.entries().len() == 0 || some_choice_fits(
                self.lists(req_skills.entries()),
                armor_slots@,
            )),
    {
        let ghost lists = self.lists(req_skills.entries());
        let ghost ids = req_ids(req_skills.entries());
        let check = |deco_comb: DecorationCombination| -> (ok: bool)
            requires
                is_slots(deco_comb.sum@),
            ensures
                ok == fits(armor_slots@, deco_comb.sum@),
            { DecorationCombination::is_possible_static(armor_slots, &deco_comb.sum) };
        let b = self.iter_possible_combs(req_skills, check);
        proof {
            if req_skills.entries().len() > 0 {
                if b {
                    let c = choose|c: Seq<int>|
                        is_choice(lists, c) && verdict_on(check, ids, lists, c, true);
                    let comb = choose|comb: DecorationCombination|
                        is_packing(comb, ids, lists, c) && call_ensures(check, (comb,), true);
                    assert(fits(armor_slots@, sum_vec(lists, c)));
                } else {
                    if some_choice_fits(lists, armor_slots@) {
                        let c = choose|c: Seq<int>|
                            is_choice(lists, c) && fits(armor_slots@, sum_vec(lists, c));
                        assert(verdict_on(check, ids, lists, c, false));
                        let comb = choose|comb: DecorationCombination|
                            is_packing(comb, ids, lists, c) && call_ensures(check, (comb,), false);
                        assert(!fits(armor_slots@, comb.sum@));
                    }
                }
            }
        }
        b
    }
}

} // verus!
