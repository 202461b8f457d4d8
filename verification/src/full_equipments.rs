//! A build: six pieces and a weapon, with their skills and sockets added up.

use crate::calc::armor::count_of;
use crate::calc::calc_equipment::{CalcEquipment, map_nonneg};
use crate::calc::equipment::Equipment;
use crate::counter::rank;
use crate::data::armor::{ArmorPart, is_base_slots};
use crate::data::deco_combination::{
    DecorationCombination, DecorationCombinations, enumerates, is_choice, is_packing, list_lens,
    req_ids, sum_vec,
};
use crate::data::skill::MAX_SLOT_LEVEL;
use crate::slots::{fits, free_after, is_slots, reserve, zero_slots};
use crate::str_map::{
    StrMap, distinct_keys, entries_map, has_key, key_index, lemma_entry_in_map, lemma_map_take,
};
use vstd::prelude::*;
use vstd::string::*;

verus! {

/// The level at which the skill list `e` grants `id`: 0 where it does not.
pub open spec fn level_in(e: Seq<(Seq<char>, i32)>, id: Seq<char>) -> int {
    if has_key(e, id) {
        entries_map(e)[id] as int
    } else {
        0
    }
}

/// The levels of `id` that the first `k` pieces grant together.
pub open spec fn total_level<'a>(equips: Seq<Equipment<'a>>, k: int, id: Seq<char>) -> int
    decreases k,
{
    if k <= 0 {
        0
    } else {
        total_level(equips, k - 1, id) + level_in(equips[k - 1].spec_skills(), id)
    }
}

/// One of the first `k` pieces grants `id`.
pub open spec fn some_has<'a>(equips: Seq<Equipment<'a>>, k: int, id: Seq<char>) -> bool
    decreases k,
{
    if k <= 0 {
        false
    } else {
        some_has(equips, k - 1, id) || has_key(equips[k - 1].spec_skills(), id)
    }
}

/// The sockets of size index `s` that the first `k` pieces have together.
pub open spec fn total_slots<'a>(equips: Seq<Equipment<'a>>, k: int, s: int) -> int
    decreases k,
{
    if k <= 0 {
        0
    } else {
        total_slots(equips, k - 1, s) + equips[k - 1].spec_slots()[s]
    }
}

/// The skills of a build: each skill that a piece grants, at the sum of the
/// levels at which the pieces grant it.
pub open spec fn build_skills<'a>(equips: Seq<Equipment<'a>>) -> Map<Seq<char>, i32> {
    Map::new(
        |id: Seq<char>| some_has(equips, equips.len() as int, id),
        |id: Seq<char>| total_level(equips, equips.len() as int, id) as i32,
    )
}

/// The sockets of size index `s` of a build: those of its pieces and those
/// of the weapon.
pub open spec fn build_slots<'a>(weapon: Seq<i32>, equips: Seq<Equipment<'a>>, s: int) -> int {
    total_slots(equips, equips.len() as int, s) + count_of(weapon, s + 1, weapon.len() as int)
}

/// The skills and sockets of the build can be written down.
pub open spec fn build_fits<'a>(weapon: Seq<i32>, equips: Seq<Equipment<'a>>) -> bool {
    &&& forall|id: Seq<char>| #[trigger] total_level(equips, equips.len() as int, id) <= i32::MAX
    &&& forall|s: int| 0 <= s < MAX_SLOT_LEVEL ==> #[trigger] build_slots(weapon, equips, s) <= i32::MAX
}

/// Every piece has a socket vector and no negative level.
pub open spec fn pieces_sound<'a>(equips: Seq<Equipment<'a>>) -> bool {
    forall|i: int|
        0 <= i < equips.len() ==> is_slots((#[trigger] equips[i]).spec_slots()) && map_nonneg(
            entries_map(equips[i].spec_skills()),
        ) && distinct_keys(equips[i].spec_skills())
}

/// The skills of a build so far: those of the first `k` pieces, and of the
/// next piece those that `seen` holds.
pub open spec fn skills_so_far<'a>(
    equips: Seq<Equipment<'a>>,
    k: int,
    seen: Map<Seq<char>, i32>,
) -> Map<Seq<char>, i32> {
    Map::new(
        |id: Seq<char>| some_has(equips, k, id) || seen.contains_key(id),
        |id: Seq<char>|
            (total_level(equips, k, id) + if seen.contains_key(id) {
                seen[id] as int
            } else {
                0
            }) as i32,
    )
}

/// The position of the last of the first `k` pieces that is worn on `part`.
pub open spec fn part_pos<'a>(equips: Seq<Equipment<'a>>, part: ArmorPart, k: int) -> Option<int>
    decreases k,
{
    if k <= 0 {
        None
    } else if equips[k - 1].spec_part() == part {
        Some(k - 1)
    } else {
        part_pos(equips, part, k - 1)
    }
}

/// The identifier of a build: `FULLEQUIP-` and the identifiers of its six
/// pieces, joined by `-`.
pub open spec fn full_id_text(
    helm: Seq<char>,
    torso: Seq<char>,
    arm: Seq<char>,
    waist: Seq<char>,
    feet: Seq<char>,
    tali: Seq<char>,
) -> Seq<char> {
    "FULLEQUIP"@ + seq!['-'] + helm + seq!['-'] + torso + seq!['-'] + arm + seq!['-'] + waist
        + seq!['-'] + feet + seq!['-'] + tali
}

/// The levels and sockets of the first pieces are not negative and not
/// more than those of all pieces.
pub proof fn lemma_totals_grow<'a>(equips: Seq<Equipment<'a>>, k: int, id: Seq<char>, s: int)
    requires
        pieces_sound(equips),
        0 <= k <= equips.len(),
        0 <= s < MAX_SLOT_LEVEL,
    ensures
        0 <= total_level(equips, k, id) <= total_level(equips, equips.len() as int, id),
        0 <= total_slots(equips, k, s) <= total_slots(equips, equips.len() as int, s),
        !some_has(equips, k, id) ==> total_level(equips, k, id) == 0,
    decreases equips.len() - k,
{
    lemma_totals_nonneg(equips, k, id, s);
    if k < equips.len() {
        lemma_totals_grow(equips, k + 1, id, s);
        lemma_totals_nonneg(equips, k + 1, id, s);
        let e = equips[k].spec_skills();
        assert(is_slots(equips[k].spec_slots()));
        if has_key(e, id) {
            assert(entries_map(e).contains_key(id));
        }
    }
}

/// The levels and sockets of the first pieces are not negative.
pub proof fn lemma_totals_nonneg<'a>(equips: Seq<Equipment<'a>>, k: int, id: Seq<char>, s: int)
    requires
        pieces_sound(equips),
        0 <= k <= equips.len(),
        0 <= s < MAX_SLOT_LEVEL,
    ensures
        0 <= total_level(equips, k, id),
        0 <= total_slots(equips, k, s),
        !some_has(equips, k, id) ==> total_level(equips, k, id) == 0,
    decreases k,
{
    if k > 0 {
        lemma_totals_nonneg(equips, k - 1, id, s);
        let e = equips[k - 1].spec_skills();
        assert(is_slots(equips[k - 1].spec_slots()));
        if has_key(e, id) {
            assert(entries_map(e).contains_key(id));
        }
    }
}

/// Looks at every piece once, to learn that each has a socket vector and no
/// negative level.
pub fn check_pieces<'a>(equipments: &Vec<Equipment<'a>>)
    ensures
        pieces_sound(equipments@),
{
    let mut i: usize = 0;
    while i < equipments.len()
        invariant
            i <= equipments@.len(),
            forall|j: int|
                0 <= j < i ==> is_slots((#[trigger] equipments@[j]).spec_slots()) && map_nonneg(
                    entries_map(equipments@[j].spec_skills()),
                ) && distinct_keys(equipments@[j].spec_skills()),
        decreases equipments.len() - i,
    {
        let skills = equipments[i].skills();
        let slots = equipments[i].slots();
        i += 1;
    }
}

/// `table` keeps for each part the piece of `equipments` that is worn on
/// it, with its identifier, skills and sockets: the piece that `part_pos`
/// gives, and none where it gives none.
#[verifier::opaque]
pub open spec fn kept_by_part<'a>(
    table: Seq<Option<Equipment<'a>>>,
    equipments: Seq<Equipment<'a>>,
) -> bool {
    &&& table.len() == 6
    &&& forall|p: ArmorPart|
        match (#[trigger] part_pos(equipments, p, equipments.len() as int), table[p.spec_index()]) {
            (Some(i), Some(e)) => e.spec_id() == equipments[i].spec_id() && e.spec_part() == p
                && e.spec_skills() == equipments[i].spec_skills() && e.spec_slots()
                == equipments[i].spec_slots(),
            (None, None) => true,
            _ => false,
        }
}

/// A build: the weapon's sockets, the pieces, and the skills and sockets
/// that they add up to.
pub struct FullEquipments<'a> {
    weapon_slots: Vec<i32>,
    equipments: Vec<Equipment<'a>>,
    all_skills: StrMap<i32>,
    avail_slots: Vec<i32>,
    equipments_by_part: Vec<Option<Equipment<'a>>>,
}

impl<'a> FullEquipments<'a> {
    /// Every build satisfies this: its sockets are a socket vector, its
    /// levels are not negative, and it keeps for each part the piece that
    /// is worn on it.
    #[verifier::type_invariant]
    pub closed spec fn wf(&self) -> bool {
        &&& is_slots(self.avail_slots@)
        &&& map_nonneg(self.all_skills@)
        &&& self.equipments_by_part@.len() == 6
        &&& kept_by_part(self.equipments_by_part@, self.equipments@)
    }

    /// The socket sizes of the weapon.
    pub closed spec fn spec_weapon_slots(&self) -> Seq<i32> {
        self.weapon_slots@
    }

    /// The pieces of the build.
    pub closed spec fn spec_equipments(&self) -> Seq<Equipment<'a>> {
        self.equipments@
    }

    /// The skills of the build with their levels.
    pub closed spec fn spec_all_skills(&self) -> Map<Seq<char>, i32> {
        self.all_skills@
    }

    /// The socket vector of the build.
    pub closed spec fn spec_avail_slots(&self) -> Seq<i32> {
        self.avail_slots@
    }

    /// The piece kept for each part, by the position of the part.
    pub closed spec fn spec_by_part(&self) -> Seq<Option<Equipment<'a>>> {
        self.equipments_by_part@
    }

    /// The skills and the socket vector that the pieces and the weapon add
    /// up to: each skill at the sum of its levels, each socket size at the
    /// sum of its counts, the weapon's sockets counted by size.
    pub fn calculate_skills_slots(weapon_slots: &Vec<i32>, equipments: &Vec<Equipment<'a>>) -> (r: (
        StrMap<i32>,
        Vec<i32>,
    ))
        requires
            is_base_slots(weapon_slots@),
            build_fits(weapon_slots@, equipments@),
        ensures
            r.0@ == build_skills(equipments@),
            map_nonneg(r.0@),
            is_slots(r.1@),
            forall|s: int|
                0 <= s < MAX_SLOT_LEVEL ==> #[trigger] r.1@[s] == build_slots(
                    weapon_slots@,
                    equipments@,
                    s,
                ),
    {
        let ghost equips = equipments@;
        let ghost weapon = weapon_slots@;
        let n = equipments.len();
        check_pieces(equipments);
        let mut skills: StrMap<i32> = StrMap::new();
        let mut slots = zero_slots();
        assert(skills@ =~= skills_so_far(equips, 0, Map::<Seq<char>, i32>::empty()));
        let mut i: usize = 0;
        while i < n
            invariant
                i <= n,
                n == equips.len(),
                equips == equipments@,
                weapon == weapon_slots@,
                pieces_sound(equips),
                build_fits(weapon, equips),
                is_base_slots(weapon),
                skills.wf(),
                skills@ == skills_so_far(equips, i as int, Map::<Seq<char>, i32>::empty()),
                slots@.len() == MAX_SLOT_LEVEL,
                forall|s: int|
                    0 <= s < MAX_SLOT_LEVEL ==> #[trigger] slots@[s] == total_slots(
                        equips,
                        i as int,
                        s,
                    ),
            decreases n - i,
        {
            let equip = &equipments[i];
            let own = equip.skills();
            let ghost e = own.entries();
            let m = own.len();
            let mut j: usize = 0;
            assert(e.subrange(0, 0) =~= Seq::<(Seq<char>, i32)>::empty());
            assert(entries_map(e.subrange(0, 0)) =~= Map::<Seq<char>, i32>::empty());
            while j < m
                invariant
                    j <= m,
                    i < n,
                    n == equips.len(),
                    m == e.len(),
                    e == own.entries(),
                    e == equips[i as int].spec_skills(),
                    distinct_keys(e),
                    pieces_sound(equips),
                    build_fits(weapon, equips),
                    skills.wf(),
                    skills@ == skills_so_far(
                        equips,
                        i as int,
                        entries_map(e.subrange(0, j as int)),
                    ),
                decreases m - j,
            {
                let id = own.key_at(j);
                let level = *own.value_at(j);
                let ghost seen = entries_map(e.subrange(0, j as int));
                let ghost next = entries_map(e.subrange(0, j + 1));
                proof {
                    lemma_map_take(e, j as int);
                    lemma_entry_in_map(e, j as int);
                    lemma_totals_grow(equips, i as int, id@, 0);
                    lemma_totals_grow(equips, i + 1, id@, 0);
                    assert(has_key(e, id@));
                    assert(level_in(e, id@) == level);
                    assert(total_level(equips, equips.len() as int, id@) <= i32::MAX);
                    assert(map_nonneg(entries_map(e)));
                    assert(0 <= level);
                }
                let existing = match skills.get(id) {
                    Some(v) => *v,
                    None => 0,
                };
                assert(existing == total_level(equips, i as int, id@));
                let level_sum = level + existing;
                skills.insert(id.clone(), level_sum);
                assert(skills@ =~= skills_so_far(equips, i as int, next));
                j += 1;
            }
            proof {
                assert(e.subrange(0, m as int) =~= e);
                assert forall|id: Seq<char>|
                    some_has(equips, i + 1, id) == (some_has(equips, i as int, id) || entries_map(
                        e,
                    ).contains_key(id)) by {}
                assert(skills@ =~= skills_so_far(equips, i + 1, Map::<Seq<char>, i32>::empty()));
            }
            let own_slots = equip.slots();
            let mut s: usize = 0;
            while s < MAX_SLOT_LEVEL
                invariant
                    s <= MAX_SLOT_LEVEL,
                    i < n,
                    n == equips.len(),
                    pieces_sound(equips),
                    build_fits(weapon, equips),
                    is_base_slots(weapon),
                    own_slots@ == equips[i as int].spec_slots(),
                    is_slots(own_slots@),
                    slots@.len() == MAX_SLOT_LEVEL,
                    forall|t: int|
                        0 <= t < s ==> #[trigger] slots@[t] == total_slots(equips, i + 1, t),
                    forall|t: int|
                        s <= t < MAX_SLOT_LEVEL ==> #[trigger] slots@[t] == total_slots(
                            equips,
                            i as int,
                            t,
                        ),
                decreases MAX_SLOT_LEVEL - s,
            {
                proof {
                    lemma_totals_grow(equips, i + 1, Seq::<char>::empty(), s as int);
                    lemma_count_nonneg(weapon, s + 1, weapon.len() as int);
                    assert(build_slots(weapon, equips, s as int) <= i32::MAX);
                }
                let sum = slots[s] + own_slots[s];
                slots.set(s, sum);
                s += 1;
            }
            i += 1;
        }
        let mut w: usize = 0;
        while w < weapon_slots.len()
            invariant
                w <= weapon.len(),
                n == equips.len(),
                weapon == weapon_slots@,
                pieces_sound(equips),
                build_fits(weapon, equips),
                is_base_slots(weapon),
                slots@.len() == MAX_SLOT_LEVEL,
                forall|s: int|
                    0 <= s < MAX_SLOT_LEVEL ==> #[trigger] slots@[s] == total_slots(
                        equips,
                        n as int,
                        s,
                    ) + count_of(weapon, s + 1, w as int),
            decreases weapon_slots.len() - w,
        {
            let weapon_slot = weapon_slots[w];
            assert(0 <= weapon[w as int] <= MAX_SLOT_LEVEL);
            if weapon_slot != 0 {
                let index = (weapon_slot - 1) as usize;
                proof {
                    lemma_count_grows(weapon, weapon_slot as int, w + 1, weapon.len() as int);
                    assert(build_slots(weapon, equips, index as int) <= i32::MAX);
                }
                let sum = slots[index] + 1;
                slots.set(index, sum);
            }
            w += 1;
        }
        proof {
            assert(skills@ =~= build_skills(equips));
            assert forall|id: Seq<char>| skills@.contains_key(id) implies 0 <= #[trigger] skills@[id] by {
                lemma_totals_grow(equips, n as int, id, 0);
                assert(total_level(equips, equips.len() as int, id) <= i32::MAX);
            }
            assert forall|s: int| 0 <= s < slots@.len() implies 0 <= #[trigger] slots@[s] by {
                lemma_totals_grow(equips, n as int, Seq::<char>::empty(), s);
                lemma_count_nonneg(weapon, s + 1, weapon.len() as int);
            }
        }
        (skills, slots)
    }
}

/// A count is not negative.
pub proof fn lemma_count_nonneg(s: Seq<i32>, size: int, k: int)
    requires
        0 <= k <= s.len(),
    ensures
        0 <= count_of(s, size, k) <= k,
    decreases k,
{
    if k > 0 {
        lemma_count_nonneg(s, size, k - 1);
    }
}

/// A count grows with the number of entries counted.
pub proof fn lemma_count_grows(s: Seq<i32>, size: int, k: int, n: int)
    requires
        0 <= k <= n <= s.len(),
    ensures
        count_of(s, size, k) <= count_of(s, size, n),
    decreases n - k,
{
    if k < n {
        lemma_count_grows(s, size, k, n - 1);
    }
}

/// The build grants the skill of the entry `e` at its level or above.
pub open spec fn is_covered(e: (Seq<char>, i32), have: Map<Seq<char>, i32>) -> bool {
    have.contains_key(e.0) && e.1 <= have[e.0]
}

/// Of the first `k` entries of a requirement, those that the levels `have`
/// do not cover, in their order and with their levels.
pub open spec fn uncovered(req: Seq<(Seq<char>, i32)>, have: Map<Seq<char>, i32>, k: int) -> Seq<
    (Seq<char>, i32),
>
    decreases k,
{
    if k <= 0 {
        Seq::empty()
    } else if is_covered(req[k - 1], have) {
        uncovered(req, have, k - 1)
    } else {
        uncovered(req, have, k - 1).push(req[k - 1])
    }
}

/// The sockets that stay free once `req` was placed in `free`.
pub open spec fn free_rest(free: Seq<i32>, req: Seq<i32>) -> Seq<i32> {
    Seq::new(MAX_SLOT_LEVEL as nat, |i: int| free_after(free, req)[i] as i32)
}

/// One of the skills `req` is a skill of `no_deco`.
pub open spec fn names_one_of(req: Seq<(Seq<char>, i32)>, no_deco: Map<Seq<char>, i32>) -> bool {
    exists|i: int| 0 <= i < req.len() && no_deco.contains_key((#[trigger] req[i]).0)
}

/// `out` lists the packings of the choices `cs`, and `cs` holds every choice
/// whose sum fits `free` once, in the order of the counter.
pub open spec fn enumerates_fitting(
    out: Seq<DecorationCombination>,
    cs: Seq<Seq<int>>,
    ids: Seq<Seq<char>>,
    lists: Seq<Seq<Seq<i32>>>,
    free: Seq<i32>,
) -> bool {
    &&& cs.len() == out.len()
    &&& forall|i: int|
        0 <= i < out.len() ==> is_choice(lists, #[trigger] cs[i]) && fits(
            free,
            sum_vec(lists, cs[i]),
        ) && is_packing(out[i], ids, lists, cs[i])
    &&& forall|i: int, j: int|
        0 <= i < j < cs.len() ==> rank(#[trigger] cs[i], list_lens(lists), lists.len() as int)
            < rank(#[trigger] cs[j], list_lens(lists), lists.len() as int)
    &&& forall|c: Seq<int>|
        #[trigger] is_choice(lists, c) && fits(free, sum_vec(lists, c)) ==> cs.contains(c)
}

/// Every skill left uncovered is a skill of the requirement.
pub proof fn lemma_uncovered_keys(
    req: Seq<(Seq<char>, i32)>,
    have: Map<Seq<char>, i32>,
    k: int,
    id: Seq<char>,
)
    requires
        0 <= k <= req.len(),
        has_key(uncovered(req, have, k), id),
    ensures
        exists|j: int| 0 <= j < k && (#[trigger] req[j]).0 == id,
    decreases k,
{
    if k > 0 {
        let u = uncovered(req, have, k);
        let i = key_index(u, id);
        let before = uncovered(req, have, k - 1);
        if is_covered(req[k - 1], have) {
            lemma_uncovered_keys(req, have, k - 1, id);
        } else if i < before.len() {
            assert(before[i].0 == id);
            lemma_uncovered_keys(req, have, k - 1, id);
        } else {
            assert(req[k - 1].0 == id);
        }
    }
}

/// Of the packings `combs`, those whose sockets fit `avail_slots`, in their
/// order.
pub(crate) fn select_fitting(
    combs: &Vec<DecorationCombination>,
    avail_slots: &Vec<i32>,
    Ghost(ids): Ghost<Seq<Seq<char>>>,
    Ghost(lists): Ghost<Seq<Seq<Seq<i32>>>>,
) -> (out: Vec<DecorationCombination>)
    requires
        is_slots(avail_slots@),
        forall|a: int| 0 <= a < combs@.len() ==> is_slots((#[trigger] combs@[a]).sum@),
        exists|all: Seq<Seq<int>>| enumerates(combs@, all, ids, lists),
    ensures
        exists|cs: Seq<Seq<int>>| enumerates_fitting(out@, cs, ids, lists, avail_slots@),
{
    let mut out: Vec<DecorationCombination> = Vec::new();
    let ghost all = choose|all: Seq<Seq<int>>| enumerates(combs@, all, ids, lists);
    let ghost free = avail_slots@;
    let ghost mut cs: Seq<Seq<int>> = Seq::empty();
    let ghost mut from: Seq<int> = Seq::empty();
    let total = combs.len();
    let mut j: usize = 0;
    while j < total
        invariant
            j <= total,
            total == combs@.len(),
            enumerates(combs@, all, ids, lists),
            is_slots(free),
            free == avail_slots@,
            forall|a: int| 0 <= a < total ==> is_slots((#[trigger] combs@[a]).sum@),
            cs.len() == out@.len(),
            from.len() == out@.len(),
            forall|a: int|
                0 <= a < from.len() ==> 0 <= #[trigger] from[a] < j && cs[a] == all[from[a]]
                    && fits(free, sum_vec(lists, cs[a])) && is_packing(out@[a], ids, lists, cs[a]),
            forall|a: int, b: int| 0 <= a < b < from.len() ==> #[trigger] from[a] < #[trigger] from[b],
            forall|a: int|
                0 <= a < j && fits(free, sum_vec(lists, #[trigger] all[a])) ==> cs.contains(all[a]),
        decreases total - j,
    {
        let comb = &combs[j];
        assert(is_packing(combs@[j as int], ids, lists, all[j as int]));
        assert(is_slots(combs@[j as int].sum@));
        let ghost before = cs;
        let ghost before_from = from;
        let ghost before_out = out@;
        if comb.is_possible(avail_slots) {
            let kept = comb.clone();
            out.push(kept);
            proof {
                cs = cs.push(all[j as int]);
                from = from.push(j as int);
                assert(is_packing(kept, ids, lists, all[j as int]));
                assert(cs[cs.len() - 1] == all[j as int]);
                assert(comb.sum@ == sum_vec(lists, all[j as int]));
                assert forall|a: int| 0 <= a < from.len() implies 0 <= #[trigger] from[a] < j + 1
                    && cs[a] == all[from[a]] && fits(free, sum_vec(lists, cs[a])) && is_packing(
                    out@[a],
                    ids,
                    lists,
                    cs[a],
                ) by {
                    if a < before_from.len() {
                        assert(from[a] == before_from[a]);
                        assert(cs[a] == before[a]);
                        assert(out@[a] == before_out[a]);
                    }
                }
                assert forall|a: int, b: int| 0 <= a < b < from.len() implies #[trigger] from[a]
                    < #[trigger] from[b] by {
                    if b < before_from.len() {
                        assert(from[a] == before_from[a]);
                        assert(from[b] == before_from[b]);
                    } else {
                        assert(from[a] == before_from[a]);
                    }
                }
            }
        }
        proof {
            assert forall|a: int|
                0 <= a < j + 1 && fits(free, sum_vec(lists, #[trigger] all[a])) implies cs.contains(
                all[a],
            ) by {
                if a < j {
                    assert(before.contains(all[a]));
                    let b = choose|b: int| 0 <= b < before.len() && before[b] == all[a];
                    assert(cs[b] == all[a]);
                } else {
                    assert(cs[cs.len() - 1] == all[a]);
                }
            }
        }
        j += 1;
    }
    proof {
        assert forall|c: Seq<int>|
            #[trigger] is_choice(lists, c) && fits(free, sum_vec(lists, c)) implies cs.contains(c) by {
            assert(all.contains(c));
            let a = choose|a: int| 0 <= a < all.len() && all[a] == c;
            assert(fits(free, sum_vec(lists, all[a])));
        }
        assert forall|a: int, b: int| 0 <= a < b < cs.len() implies rank(
            #[trigger] cs[a],
            list_lens(lists),
            lists.len() as int,
        ) < rank(#[trigger] cs[b], list_lens(lists), lists.len() as int) by {
            assert(from[a] < from[b]);
            assert(cs[a] == all[from[a]]);
            assert(cs[b] == all[from[b]]);
        }
        assert forall|a: int| 0 <= a < out@.len() implies is_choice(lists, #[trigger] cs[a])
            && fits(free, sum_vec(lists, cs[a])) && is_packing(out@[a], ids, lists, cs[a]) by {
            assert(cs[a] == all[from[a]]);
        }
        assert(enumerates_fitting(out@, cs, ids, lists, free));
    }
    out
}

impl<'a> FullEquipments<'a> {
    /// The build of the pieces `equipments` with a weapon that has the
    /// socket sizes `weapon_slots`.
    pub fn new(weapon_slots: Vec<i32>, equipments: Vec<Equipment<'a>>) -> (r: FullEquipments<'a>)
        requires
            is_base_slots(weapon_slots@),
            build_fits(weapon_slots@, equipments@),
        ensures
            r.spec_weapon_slots() == weapon_slots@,
            r.spec_equipments() == equipments@,
            r.spec_all_skills() == build_skills(equipments@),
            is_slots(r.spec_avail_slots()),
            forall|s: int|
                0 <= s < MAX_SLOT_LEVEL ==> #[trigger] r.spec_avail_slots()[s] == build_slots(
                    weapon_slots@,
                    equipments@,
                    s,
                ),
            kept_by_part(r.spec_by_part(), equipments@),
    {
        let equipments_by_part = Self::save_by_part_clone(&equipments);
        proof {
            reveal(kept_by_part);
            assert(kept_by_part(equipments_by_part@, equipments@));
        }
        let (all_skills, avail_slots) = Self::calculate_skills_slots(&weapon_slots, &equipments);
        FullEquipments { weapon_slots, equipments, all_skills, avail_slots, equipments_by_part }
    }

    /// The socket sizes of the weapon.
    pub fn weapon_slots(&self) -> (r: &Vec<i32>)
        ensures
            r@ == self.spec_weapon_slots(),
    {
        &self.weapon_slots
    }

    /// The pieces of the build.
    pub fn equipments(&self) -> (r: &Vec<Equipment<'a>>)
        ensures
            r@ == self.spec_equipments(),
    {
        &self.equipments
    }

    /// The skills of the build with their levels.
    pub fn all_skills(&self) -> (r: &StrMap<i32>)
        ensures
            r@ == self.spec_all_skills(),
            map_nonneg(r@),
    {
        proof {
            use_type_invariant(self);
        }
        &self.all_skills
    }

    /// The socket vector of the build.
    pub fn avail_slots(&self) -> (r: &Vec<i32>)
        ensures
            r@ == self.spec_avail_slots(),
            is_slots(r@),
    {
        proof {
            use_type_invariant(self);
        }
        &self.avail_slots
    }

    /// The piece that the build wears on `part`, if it wears one.
    pub fn get_by_part(&self, part: &ArmorPart) -> (r: Option<&Equipment<'a>>)
        ensures
            self.spec_by_part().len() == 6,
            kept_by_part(self.spec_by_part(), self.spec_equipments()),
            match r {
                Some(e) => self.spec_by_part()[part.spec_index()] == Some(*e),
                None => self.spec_by_part()[part.spec_index()] is None,
            },
    {
        proof {
            use_type_invariant(self);
        }
        match &self.equipments_by_part[part.index()] {
            Some(e) => Some(e),
            None => None,
        }
    }

    /// Whether the build grants every skill of `req_skills` at the required
    /// level or above.
    pub fn contains_skills(&self, req_skills: &StrMap<i32>) -> (b: bool)
        ensures
            b == forall|i: int|
                0 <= i < req_skills.entries().len() ==> is_covered(
                    #[trigger] req_skills.entries()[i],
                    self.spec_all_skills(),
                ),
    {
        let n = req_skills.len();
        let mut i: usize = 0;
        while i < n
            invariant
                i <= n,
                n == req_skills.entries().len(),
                forall|j: int|
                    0 <= j < i ==> is_covered(
                        #[trigger] req_skills.entries()[j],
                        self.spec_all_skills(),
                    ),
            decreases n - i,
        {
            let id = req_skills.key_at(i);
            let req_level = *req_skills.value_at(i);
            let covered = match self.all_skills.get(id) {
                Some(existing) => req_level <= *existing,
                None => false,
            };
            if !covered {
                assert(!is_covered(req_skills.entries()[i as int], self.spec_all_skills()));
                return false;
            }
            i += 1;
        }
        true
    }

    /// The packings with which the build meets `req_skills` while leaving
    /// the sockets `req_slots` free.
    ///
    /// The sockets to leave free are placed first, under the promotion rule;
    /// where they do not fit, the build fails. The skills that the build
    /// grants at the required level are met. Where none is left, the build
    /// succeeds with the one packing without sockets. Where one is left that has no
    /// decoration, the build fails. Else the result lists, in the order of
    /// the counter, the packings for the skills left, each at its full
    /// level, that fit the sockets still free; the build succeeds if there
    /// is one.
    pub fn get_possible_combs(
        &self,
        req_skills: StrMap<i32>,
        req_slots: &Vec<i32>,
        no_deco_skills: &StrMap<i32>,
        deco_comb_calculator: &DecorationCombinations,
    ) -> (r: (bool, Vec<DecorationCombination>))
        requires
            is_slots(req_slots@),
        ensures
            ({
                let left = uncovered(
                    req_skills.entries(),
                    self.spec_all_skills(),
                    req_skills.entries().len() as int,
                );
                let free = free_rest(self.spec_avail_slots(), req_slots@);
                if !fits(self.spec_avail_slots(), req_slots@) {
                    !r.0 && r.1@.len() == 0
                } else if left.len() == 0 {
                    r.0 && r.1@.len() == 1 && r.1@[0].sum@ == Seq::new(
                        MAX_SLOT_LEVEL as nat,
                        |s: int| 0i32,
                    )
                        && r.1@[0].combs_per_skill.entries().len() == 0
                } else if names_one_of(left, no_deco_skills@) {
                    !r.0 && r.1@.len() == 0
                } else {
                    r.0 == (r.1@.len() != 0) && exists|cs: Seq<Seq<int>>|
                        enumerates_fitting(
                            r.1@,
                            cs,
                            req_ids(left),
                            deco_comb_calculator.lists(left),
                            free,
                        )
                }
            }),
    {
        proof {
            use_type_invariant(self);
        }
        let ghost req = req_skills.entries();
        let ghost have = self.all_skills@;
        let mut none: Vec<DecorationCombination> = Vec::new();
        let avail_slots = match reserve(&self.avail_slots, req_slots) {
            Some(rest) => rest,
            None => {
                return (false, none);
            },
        };
        assert(avail_slots@ =~= free_rest(self.avail_slots@, req_slots@));
        let n = req_skills.len();
        let mut left: StrMap<i32> = StrMap::new();
        let mut i: usize = 0;
        while i < n
            invariant
                i <= n,
                n == req.len(),
                req == req_skills.entries(),
                have == self.all_skills@,
                distinct_keys(req),
                left.wf(),
                left.entries() == uncovered(req, have, i as int),
            decreases n - i,
        {
            let id = req_skills.key_at(i);
            let level = *req_skills.value_at(i);
            let covered = match self.all_skills.get(id) {
                Some(existing) => level <= *existing,
                None => false,
            };
            if !covered {
                proof {
                    if has_key(left.entries(), id@) {
                        lemma_uncovered_keys(req, have, i as int, id@);
                        let j = choose|j: int| 0 <= j < i && (#[trigger] req[j]).0 == id@;
                        assert(req[j].0 != req[i as int].0);
                    }
                }
                left.insert(id.clone(), level);
            }
            i += 1;
        }
        let ghost rest_req = left.entries();
        if left.len() == 0 {
            let sum = zero_slots();
            assert(sum@ =~= Seq::new(MAX_SLOT_LEVEL as nat, |s: int| 0i32));
            none.push(DecorationCombination { combs_per_skill: StrMap::new(), sum });
            return (true, none);
        }
        let m = left.len();
        let mut k: usize = 0;
        while k < m
            invariant
                k <= m,
                m == rest_req.len(),
                m > 0,
                rest_req == left.entries(),
                rest_req == uncovered(
                    req_skills.entries(),
                    self.spec_all_skills(),
                    req_skills.entries().len() as int,
                ),
                fits(self.spec_avail_slots(), req_slots@),
                none@.len() == 0,
                forall|j: int|
                    0 <= j < k ==> !no_deco_skills@.contains_key((#[trigger] rest_req[j]).0),
            decreases m - k,
        {
            if no_deco_skills.contains_key(left.key_at(k)) {
                assert(no_deco_skills@.contains_key(rest_req[k as int].0));
                assert(names_one_of(rest_req, no_deco_skills@));
                return (false, none);
            }
            k += 1;
        }
        let req_deco_combs = deco_comb_calculator.get_possible_combs(&left);
        let out = select_fitting(
            &req_deco_combs,
            &avail_slots,
            Ghost(req_ids(rest_req)),
            Ghost(deco_comb_calculator.lists(rest_req)),
        );
        (out.len() != 0, out)
    }

    /// For each part, by its position, a copy of the last of `equipments`
    /// that is worn on it.
    pub fn save_by_part_clone(equipments: &Vec<Equipment<'a>>) -> (r: Vec<Option<Equipment<'a>>>)
        ensures
            r@.len() == 6,
            forall|p: ArmorPart|
                match (#[trigger] part_pos(equipments@, p, equipments@.len() as int), r@[p.spec_index()]) {
                    (Some(i), Some(e)) => e.spec_id() == equipments@[i].spec_id() && e.spec_part()
                        == p && e.spec_skills() == equipments@[i].spec_skills() && e.spec_slots()
                        == equipments@[i].spec_slots(),
                    (None, None) => true,
                    _ => false,
                },
    {
        let mut r: Vec<Option<Equipment<'a>>> = Vec::new();
        r.push(None);
        r.push(None);
        r.push(None);
        r.push(None);
        r.push(None);
        r.push(None);
        let mut i: usize = 0;
        while i < equipments.len()
            invariant
                i <= equipments@.len(),
                r@.len() == 6,
                forall|p: ArmorPart|
                    match (#[trigger] part_pos(equipments@, p, i as int), r@[p.spec_index()]) {
                        (Some(k), Some(e)) => e.spec_id() == equipments@[k].spec_id()
                            && e.spec_part() == p && e.spec_skills() == equipments@[k].spec_skills()
                            && e.spec_slots() == equipments@[k].spec_slots(),
                        (None, None) => true,
                        _ => false,
                    },
            decreases equipments.len() - i,
        {
            let part = *equipments[i].part();
            let copy = equipments[i].clone();
            let ghost before = r@;
            r.set(part.index(), Some(copy));
            proof {
                assert forall|p: ArmorPart|
                    match (#[trigger] part_pos(equipments@, p, i + 1), r@[p.spec_index()]) {
                        (Some(k), Some(e)) => e.spec_id() == equipments@[k].spec_id()
                            && e.spec_part() == p && e.spec_skills() == equipments@[k].spec_skills()
                            && e.spec_slots() == equipments@[k].spec_slots(),
                        (None, None) => true,
                        _ => false,
                    } by {
                    if p != part {
                        assert(p.spec_index() != part.spec_index());
                        assert(part_pos(equipments@, p, i + 1) == part_pos(equipments@, p, i as int));
                    }
                }
            }
            i += 1;
        }
        r
    }

    /// For each part, by its position, the last of `equipments` that is worn
    /// on it.
    pub fn _save_by_part<'b>(equipments: &'b Vec<Equipment<'a>>) -> (r: Vec<Option<&'b Equipment<'a>>>)
        ensures
            r@.len() == 6,
            forall|p: ArmorPart|
                match (#[trigger] part_pos(equipments@, p, equipments@.len() as int), r@[p.spec_index()]) {
                    (Some(i), Some(e)) => *e == equipments@[i],
                    (None, None) => true,
                    _ => false,
                },
    {
        let mut r: Vec<Option<&'b Equipment<'a>>> = Vec::new();
        r.push(None);
        r.push(None);
        r.push(None);
        r.push(None);
        r.push(None);
        r.push(None);
        let mut i: usize = 0;
        while i < equipments.len()
            invariant
                i <= equipments@.len(),
                r@.len() == 6,
                forall|p: ArmorPart|
                    match (#[trigger] part_pos(equipments@, p, i as int), r@[p.spec_index()]) {
                        (Some(k), Some(e)) => *e == equipments@[k],
                        (None, None) => true,
                        _ => false,
                    },
            decreases equipments.len() - i,
        {
            let part = *equipments[i].part();
            r.set(part.index(), Some(&equipments[i]));
            proof {
                assert forall|p: ArmorPart|
                    match (#[trigger] part_pos(equipments@, p, i + 1), r@[p.spec_index()]) {
                        (Some(k), Some(e)) => *e == equipments@[k],
                        (None, None) => true,
                        _ => false,
                    } by {
                    if p != part {
                        assert(p.spec_index() != part.spec_index());
                        assert(part_pos(equipments@, p, i + 1) == part_pos(equipments@, p, i as int));
                    }
                }
            }
            i += 1;
        }
        r
    }

    /// The identifier of the build made of `equipments`, one piece for every
    /// part: `FULLEQUIP-` and the identifiers of the helm, the torso, the
    /// arm, the waist and the feet piece and of the charm, joined by `-`.
    pub fn get_full_equip_id(equipments: &Vec<Equipment<'a>>) -> (id: String)
        requires
            forall|p: ArmorPart| #[trigger] part_pos(equipments@, p, equipments@.len() as int) is Some,
        ensures
            id@ == full_id_text(
                equipments@[part_pos(equipments@, ArmorPart::Helm, equipments@.len() as int)->0].spec_id(),
                equipments@[part_pos(equipments@, ArmorPart::Torso, equipments@.len() as int)->0].spec_id(),
                equipments@[part_pos(equipments@, ArmorPart::Arm, equipments@.len() as int)->0].spec_id(),
                equipments@[part_pos(equipments@, ArmorPart::Waist, equipments@.len() as int)->0].spec_id(),
                equipments@[part_pos(equipments@, ArmorPart::Feet, equipments@.len() as int)->0].spec_id(),
                equipments@[part_pos(
                    equipments@,
                    ArmorPart::Talisman,
                    equipments@.len() as int,
                )->0].spec_id(),
            ),
    {
        let by_part = Self::_save_by_part(equipments);
        let ghost n = equipments@.len() as int;
        assert(part_pos(equipments@, ArmorPart::Helm, n) is Some);
        assert(part_pos(equipments@, ArmorPart::Torso, n) is Some);
        assert(part_pos(equipments@, ArmorPart::Arm, n) is Some);
        assert(part_pos(equipments@, ArmorPart::Waist, n) is Some);
        assert(part_pos(equipments@, ArmorPart::Feet, n) is Some);
        assert(part_pos(equipments@, ArmorPart::Talisman, n) is Some);
        match (by_part[0], by_part[1], by_part[2], by_part[3], by_part[4], by_part[5]) {
            (Some(helm), Some(torso), Some(arm), Some(waist), Some(feet), Some(tali)) => {
                Self::format_full_equip_id(
                    helm.id(),
                    torso.id(),
                    arm.id(),
                    waist.id(),
                    feet.id(),
                    tali.id(),
                )
            },
            _ => String::from_str(""),
        }
    }

    /// `FULLEQUIP-` and the six identifiers, joined by `-`.
    pub fn format_full_equip_id(
        helm: &String,
        torso: &String,
        arm: &String,
        waist: &String,
        feet: &String,
        tali: &String,
    ) -> (id: String)
        ensures
            id@ == full_id_text(helm@, torso@, arm@, waist@, feet@, tali@),
    {
        proof {
            reveal_strlit("-");
        }
        let mut id = String::from_str("FULLEQUIP");
        id.append("-");
        id.append(helm.as_str());
        id.append("-");
        id.append(torso.as_str());
        id.append("-");
        id.append(arm.as_str());
        id.append("-");
        id.append(waist.as_str());
        id.append("-");
        id.append(feet.as_str());
        id.append("-");
        id.append(tali.as_str());
        assert("-"@ =~= seq!['-']);
        id
    }
}

} // verus!
