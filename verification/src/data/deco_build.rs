//! Building one skill's part of the decoration table.
//!
//! A skill's decorations are listed in a fixed order. A *count vector* says
//! how many of each are used; it grants the sum of their levels and costs one
//! socket of a decoration's size per copy. For a required level the table
//! keeps the cheapest socket costs among the count vectors that reach the
//! level and cannot be replaced at once by smaller decorations.

use crate::counter::{
    advance, in_range, ints, lemma_rank_bound, lemma_rank_injective, lemma_rank_zero,
    lemma_weight_pos, positive, rank, weight, zero_counter,
};
use crate::data::deco::Decoration;
use crate::data::skill::MAX_SLOT_LEVEL;
use crate::slots::{
    eases, eases_exec, is_slots, lemma_eases_trans, lemma_le_eases, slots_le, zero_slots,
};
use vstd::prelude::*;

verus! {

/// The largest maximum level of a skill for which every socket count of the
/// table is sure to fit its integer type.
pub const MAX_LEVEL_LIMIT: i32 = 0x3fff_ffff;

/// Every decoration grants at least one level and has a socket size.
pub open spec fn decos_valid(decos: Seq<Decoration>) -> bool {
    forall|i: int| 0 <= i < decos.len() ==> (#[trigger] decos[i]).valid()
}

/// The levels that the first `k` counts of `c` grant.
pub open spec fn granted(decos: Seq<Decoration>, c: Seq<int>, k: int) -> int
    decreases k,
{
    if k <= 0 {
        0
    } else {
        granted(decos, c, k - 1) + c[k - 1] * decos[k - 1].skill_level
    }
}

/// The number of sockets of size `size` that the first `k` counts of `c` take.
pub open spec fn sockets_used(decos: Seq<Decoration>, c: Seq<int>, k: int, size: int) -> int
    decreases k,
{
    if k <= 0 {
        0
    } else {
        sockets_used(decos, c, k - 1, size) + if decos[k - 1].slot_size == size {
            c[k - 1]
        } else {
            0
        }
    }
}

/// The number of decorations that the first `k` counts of `c` use.
pub open spec fn pieces_used(c: Seq<int>, k: int) -> int
    decreases k,
{
    if k <= 0 {
        0
    } else {
        pieces_used(c, k - 1) + c[k - 1]
    }
}

/// The least number of copies of a decoration of `per_copy` levels that
/// reaches `level`.
pub open spec fn copies_needed(level: int, per_copy: int) -> int {
    if level % per_copy == 0 {
        level / per_copy
    } else {
        level / per_copy + 1
    }
}

/// The most copies of decoration `i` that are of use for `level`: as many as
/// reach the level alone.
pub open spec fn count_limit(decos: Seq<Decoration>, level: int, i: int) -> int {
    copies_needed(level, decos[i].skill_level as int)
}

/// `c` has one count per decoration, each within its limit.
pub open spec fn counts_in_bounds(decos: Seq<Decoration>, level: int, c: Seq<int>) -> bool {
    &&& c.len() == decos.len()
    &&& forall|i: int| 0 <= i < c.len() ==> 0 <= #[trigger] c[i] <= count_limit(decos, level, i)
}

/// `c` is a candidate for `level` whose last decoration in use is `j`: it
/// reaches the level, and as many copies of an earlier decoration in place of
/// `j`'s would not.
pub open spec fn candidate_at(
    decos: Seq<Decoration>,
    level: int,
    c: Seq<int>,
    j: int,
) -> bool {
    &&& counts_in_bounds(decos, level, c)
    &&& 0 <= j < c.len()
    &&& c[j] >= 1
    &&& forall|i: int| j < i < c.len() ==> #[trigger] c[i] == 0
    &&& granted(decos, c, j + 1) >= level
    &&& forall|i: int|
        0 <= i < j ==> granted(decos, c, j) + c[j] * (#[trigger] decos[i]).skill_level < level
}

/// `c` is a candidate for `level`.
pub open spec fn is_candidate(decos: Seq<Decoration>, level: int, c: Seq<int>) -> bool {
    exists|j: int| candidate_at(decos, level, c, j)
}

/// `v` is the socket cost of the count vector `c`.
pub open spec fn cost_matches(v: Seq<i32>, decos: Seq<Decoration>, c: Seq<int>) -> bool {
    &&& v.len() == MAX_SLOT_LEVEL
    &&& forall|s: int|
        0 <= s < MAX_SLOT_LEVEL ==> #[trigger] v[s] == sockets_used(
            decos,
            c,
            decos.len() as int,
            s + 1,
        )
}

/// The cost `a` can stand in for the cost `b`: it eases it, so that it can
/// be placed wherever `b` can.
#[verifier::opaque]
pub open spec fn stands_in(a: Seq<i32>, b: Seq<i32>) -> bool {
    eases(a, b)
}

/// Some entry of `list` can stand in for `w`.
pub open spec fn has_below(list: Seq<Seq<i32>>, w: Seq<i32>) -> bool {
    exists|i: int| 0 <= i < list.len() && stands_in(#[trigger] list[i], w)
}

/// No entry of `b` costs no more than another at every socket size.
pub open spec fn antichain(b: Seq<Seq<i32>>) -> bool {
    forall|i: int, j: int|
        0 <= i < b.len() && 0 <= j < b.len() && i != j ==> !slots_le(
            #[trigger] b[i],
            #[trigger] b[j],
        )
}

/// No entry of `b` can stand in for another.
pub open spec fn unrivalled(b: Seq<Seq<i32>>) -> bool {
    forall|i: int, j: int|
        0 <= i < b.len() && 0 <= j < b.len() && i != j ==> !stands_in(
            #[trigger] b[i],
            #[trigger] b[j],
        )
}

/// Socket vectors of which none eases another: none costs no more than
/// another at every socket size.
pub proof fn lemma_unrivalled(b: Seq<Seq<i32>>)
    requires
        unrivalled(b),
        forall|i: int| 0 <= i < b.len() ==> is_slots(#[trigger] b[i]),
    ensures
        antichain(b),
{
    assert forall|i: int, j: int| 0 <= i < b.len() && 0 <= j < b.len() && i != j implies !slots_le(
        #[trigger] b[i],
        #[trigger] b[j],
    ) by {
        if slots_le(b[i], b[j]) {
            assert(is_slots(b[i]));
            lemma_le_eases(b[i], b[j]);
            reveal(stands_in);
        }
    }
}

/// What the table holds for one skill and one required level.
///
/// With a single decoration: the one cost of as many copies as the level
/// needs. With several: socket costs of candidates, one that can stand in
/// for the cost of every candidate, and none that can stand in for another.
pub open spec fn bucket_ok(
    decos: Seq<Decoration>,
    level: int,
    b: Seq<Seq<i32>>,
) -> bool {
    if decos.len() == 1 {
        &&& b.len() == 1
        &&& b[0].len() == MAX_SLOT_LEVEL
        &&& forall|s: int|
            0 <= s < MAX_SLOT_LEVEL ==> #[trigger] b[0][s] == if s + 1 == decos[0].slot_size {
                copies_needed(level, decos[0].skill_level as int)
            } else {
                0
            }
    } else {
        &&& forall|i: int|
            0 <= i < b.len() ==> is_slots(#[trigger] b[i]) && exists|c: Seq<int>|
                is_candidate(decos, level, c) && cost_matches(b[i], decos, c)
        &&& forall|c: Seq<int>| #[trigger]
            is_candidate(decos, level, c) ==> has_below(b, cost_vec(decos, c))
        &&& unrivalled(b)
    }
}

/// Counts of zero grant nothing beyond the last decoration in use.
pub proof fn lemma_granted_tail(decos: Seq<Decoration>, c: Seq<int>, j: int, k: int)
    requires
        0 <= j < k <= c.len(),
        forall|i: int| j < i < c.len() ==> #[trigger] c[i] == 0,
    ensures
        granted(decos, c, k) == granted(decos, c, j + 1),
    decreases k,
{
    if k > j + 1 {
        lemma_granted_tail(decos, c, j, k - 1);
        assert(c[k - 1] == 0);
        assert(0 * decos[k - 1].skill_level == 0);
    }
}

/// Every decoration in use grants at least one level, takes one socket, and
/// the sockets of one size are among the sockets of all sizes.
pub proof fn lemma_used_bounds(decos: Seq<Decoration>, c: Seq<int>, k: int, size: int)
    requires
        decos_valid(decos),
        c.len() == decos.len(),
        0 <= k <= c.len(),
        forall|i: int| 0 <= i < c.len() ==> 0 <= #[trigger] c[i],
    ensures
        0 <= sockets_used(decos, c, k, size) <= pieces_used(c, k) <= granted(decos, c, k),
    decreases k,
{
    if k > 0 {
        lemma_used_bounds(decos, c, k - 1, size);
        let x = c[k - 1];
        let l = decos[k - 1].skill_level as int;
        assert(decos[k - 1].valid());
        assert(0 <= x);
        assert(x <= x * l) by (nonlinear_arith)
            requires
                0 <= x,
                1 <= l,
        ;
    }
}

/// Counts of zero use nothing beyond the last decoration in use.
pub proof fn lemma_pieces_tail(c: Seq<int>, j: int, k: int)
    requires
        0 <= j < k <= c.len(),
        forall|i: int| j < i < c.len() ==> #[trigger] c[i] == 0,
    ensures
        pieces_used(c, k) == pieces_used(c, j + 1),
    decreases k,
{
    if k > j + 1 {
        lemma_pieces_tail(c, j, k - 1);
        assert(c[k - 1] == 0);
    }
}

/// As many copies as reach a level are no more than the level, reach it,
/// and one fewer would not.
pub proof fn lemma_copies_needed(level: int, per_copy: int)
    requires
        0 <= level,
        1 <= per_copy,
    ensures
        0 <= copies_needed(level, per_copy) <= level,
        level <= copies_needed(level, per_copy) * per_copy < level + per_copy,
        level >= 1 ==> copies_needed(level, per_copy) >= 1,
{
    let q = level / per_copy;
    let r = level % per_copy;
    vstd::arithmetic::div_mod::lemma_fundamental_div_mod(level, per_copy);
    vstd::arithmetic::div_mod::lemma_mod_bound(level, per_copy);
    assert(0 <= q && q <= level && (r > 0 ==> q + 1 <= level) && (q + 1) * per_copy == q * per_copy
        + per_copy && q * per_copy == per_copy * q) by (nonlinear_arith)
        requires
            level == per_copy * q + r,
            0 <= r < per_copy,
            0 <= level,
            1 <= per_copy,
    ;
}

/// A candidate uses fewer than twice the level of decorations, so each of
/// its socket counts fits.
pub proof fn lemma_candidate_cost_fits(
    decos: Seq<Decoration>,
    level: int,
    c: Seq<int>,
    size: int,
)
    requires
        decos_valid(decos),
        1 <= level <= MAX_LEVEL_LIMIT,
        is_candidate(decos, level, c),
    ensures
        0 <= sockets_used(decos, c, decos.len() as int, size) <= i32::MAX,
{
    let j = choose|j: int| candidate_at(decos, level, c, j);
    let n = decos.len() as int;
    lemma_used_bounds(decos, c, n, size);
    lemma_used_bounds(decos, c, j, size);
    lemma_pieces_tail(c, j, n);
    assert(pieces_used(c, n) == pieces_used(c, j) + c[j]);
    let l = decos[j].skill_level as int;
    assert(decos[j].valid());
    assert(c[j] <= count_limit(decos, level, j));
    lemma_copies_needed(level, l);
    if j > 0 {
        assert(decos[0].valid());
        let x = c[j];
        let l0 = decos[0].skill_level as int;
        assert(granted(decos, c, j) + x * l0 < level);
        assert(0 <= x * l0) by (nonlinear_arith)
            requires
                0 <= x,
                1 <= l0,
        ;
    } else {
        assert(pieces_used(c, 0) == 0);
    }
}

/// The views of the rows of a list of vectors.
pub open spec fn rows(b: Seq<Vec<i32>>) -> Seq<Seq<i32>> {
    Seq::new(b.len(), |i: int| b[i]@)
}

/// The socket cost of the count vector `c`, as a socket vector.
pub open spec fn cost_vec(decos: Seq<Decoration>, c: Seq<int>) -> Seq<i32> {
    Seq::new(
        MAX_SLOT_LEVEL as nat,
        |s: int| sockets_used(decos, c, decos.len() as int, s + 1) as i32,
    )
}

/// `v` is the socket cost of some candidate for `level`.
pub open spec fn realized(decos: Seq<Decoration>, level: int, v: Seq<i32>) -> bool {
    exists|c: Seq<int>| is_candidate(decos, level, c) && cost_matches(v, decos, c)
}

/// Every row is a socket vector.
pub open spec fn all_slots(b: Seq<Seq<i32>>) -> bool {
    forall|i: int| 0 <= i < b.len() ==> is_slots(#[trigger] b[i])
}

/// The radices of the count vectors: one more than each decoration's limit.
fn count_radices(decos: &Vec<Decoration>, level: i32) -> (lens: Vec<usize>)
    requires
        decos_valid(decos@),
        1 <= level <= MAX_LEVEL_LIMIT,
    ensures
        lens@.len() == decos@.len(),
        forall|i: int|
            0 <= i < lens@.len() ==> #[trigger] lens@[i] == count_limit(
                decos@,
                level as int,
                i,
            ) + 1,
        positive(ints(lens@)),
{
    let mut lens: Vec<usize> = Vec::new();
    let mut i: usize = 0;
    while i < decos.len()
        invariant
            i <= decos@.len(),
            lens@.len() == i,
            decos_valid(decos@),
            1 <= level <= MAX_LEVEL_LIMIT,
            forall|k: int|
                0 <= k < i ==> #[trigger] lens@[k] == count_limit(decos@, level as int, k) + 1,
            forall|k: int| 0 <= k < i ==> 1 <= #[trigger] lens@[k],
        decreases decos.len() - i,
    {
        assert(decos@[i as int].valid());
        let per_copy = decos[i].skill_level as usize;
        proof {
            lemma_copies_needed(level as int, per_copy as int);
            vstd::arithmetic::div_mod::lemma_fundamental_div_mod(level as int, per_copy as int);
            vstd::arithmetic::div_mod::lemma_mod_bound(level as int, per_copy as int);
            assert(0 <= (level as int) / (per_copy as int) <= level) by (nonlinear_arith)
                requires
                    0 <= level,
                    1 <= per_copy,
            ;
        }
        let whole = (level as usize) / per_copy;
        let limit = if (level as usize) % per_copy == 0 {
            whole
        } else {
            whole + 1
        };
        lens.push(limit + 1);
        i += 1;
    }
    assert forall|k: int| 0 <= k < ints(lens@).len() implies 1 <= #[trigger] ints(lens@)[k] by {
        assert(1 <= lens@[k]);
    }
    lens
}

/// Whether the count vector `cur` is a candidate for `level`.
fn check_candidate(decos: &Vec<Decoration>, level: i32, cur: &Vec<usize>) -> (b:
    bool)
    requires
        decos_valid(decos@),
        1 <= level <= MAX_LEVEL_LIMIT,
        counts_in_bounds(decos@, level as int, ints(cur@)),
    ensures
        b == is_candidate(decos@, level as int, ints(cur@)),
{
    let ghost c = ints(cur@);
    let ghost m = level as int;
    let n = cur.len();
    proof {
        assert forall|i: int| 0 <= i < n implies 0 <= #[trigger] cur@[i] <= MAX_LEVEL_LIMIT by {
            assert(0 <= c[i] <= count_limit(decos@, m, i));
            assert(decos@[i].valid());
            let l = decos@[i].skill_level as int;
            lemma_copies_needed(m, l);
        }
    }
    let mut j: usize = n;
    while j > 0 && cur[j - 1] == 0
        invariant
            j <= n,
            n == cur@.len(),
            forall|i: int| j <= i < n ==> #[trigger] cur@[i] == 0,
        decreases j,
    {
        j -= 1;
    }
    if j == 0 {
        proof {
            if is_candidate(decos@, level as int, c) {
                let k = choose|k: int| candidate_at(decos@, level as int, c, k);
                assert(cur@[k] == 0);
                assert(c[k] >= 1);
            }
        }
        return false;
    }
    let top: usize = j - 1;
    assert(cur@[top as int] != 0);
    proof {
        assert forall|i: int| top < i < c.len() implies #[trigger] c[i] == 0 by {
            assert(cur@[i] == 0);
        }
        if is_candidate(decos@, level as int, c) {
            let k = choose|k: int| candidate_at(decos@, level as int, c, k);
            if k < top {
                assert(c[top as int] == 0);
            }
            if k > top {
                assert(c[k] == 0);
            }
            assert(k == top);
        }
        assert(is_candidate(decos@, level as int, c) ==> candidate_at(
            decos@,
            level as int,
            c,
            top as int,
));
    }
    let mut prefix: i128 = 0;
    let mut i: usize = 0;
    while i < top
        invariant
            i <= top < n,
            n == cur@.len(),
            n == decos@.len(),
            c == ints(cur@),
            decos_valid(decos@),
            forall|k: int| 0 <= k < n ==> 0 <= #[trigger] cur@[k] <= MAX_LEVEL_LIMIT,
            prefix == granted(decos@, c, i as int),
            0 <= prefix <= i * 0x2000_0000_0000_0000,
        decreases top - i,
    {
        assert(decos@[i as int].valid());
        assert(0 <= cur@[i as int] <= MAX_LEVEL_LIMIT);
        let x = cur[i] as i128;
        let l = decos[i].skill_level as i128;
        assert(0 <= x * l <= 0x2000_0000_0000_0000) by (nonlinear_arith)
            requires
                0 <= x <= 0x3fff_ffff,
                1 <= l <= 0x7fff_ffff,
        ;
        prefix = prefix + x * l;
        i += 1;
    }
    assert(decos@[top as int].valid());
    assert(0 <= cur@[top as int] <= MAX_LEVEL_LIMIT);
    let x = cur[top] as i128;
    let own = decos[top].skill_level as i128;
    assert(0 <= x * own <= 0x2000_0000_0000_0000) by (nonlinear_arith)
        requires
            0 <= x <= 0x3fff_ffff,
            1 <= own <= 0x7fff_ffff,
    ;
    let total = prefix + x * own;
    assert(total == granted(decos@, c, top + 1));
    if total < level as i128 {
        return false;
    }
    let mut i: usize = 0;
    while i < top
        invariant
            i <= top < n,
            n == cur@.len(),
            n == decos@.len(),
            c == ints(cur@),
            x == c[top as int],
            0 <= x <= 0x3fff_ffff,
            0 <= prefix <= top * 0x2000_0000_0000_0000,
            prefix == granted(decos@, c, top as int),
            decos_valid(decos@),
            m == level,
            is_candidate(decos@, level as int, c) ==> candidate_at(
                decos@,
                level as int,
                c,
                top as int,
),
            forall|k: int|
                0 <= k < i ==> prefix + x * (#[trigger] decos@[k]).skill_level < level,
        decreases top - i,
    {
        assert(decos@[i as int].valid());
        let l = decos[i].skill_level as i128;
        assert(0 <= x * l <= 0x2000_0000_0000_0000) by (nonlinear_arith)
            requires
                0 <= x <= 0x3fff_ffff,
                1 <= l <= 0x7fff_ffff,
        ;
        if prefix + x * l >= level as i128 {
            proof {
                if is_candidate(decos@, level as int, c) {
                    assert(candidate_at(decos@, level as int, c, top as int));
                    assert(granted(decos@, c, top as int) + c[top as int] * decos@[i as int].skill_level
                        < level);
                }
            }
            return false;
        }
        i += 1;
    }
    assert(candidate_at(decos@, level as int, c, top as int));
    true
}

/// The socket cost of the candidate `cur`.
fn socket_cost(decos: &Vec<Decoration>, level: i32, cur: &Vec<usize>) -> (v: Vec<
    i32,
>)
    requires
        decos_valid(decos@),
        1 <= level <= MAX_LEVEL_LIMIT,
        is_candidate(decos@, level as int, ints(cur@)),
    ensures
        is_slots(v@),
        cost_matches(v@, decos@, ints(cur@)),
        v@ == cost_vec(decos@, ints(cur@)),
{
    let ghost c = ints(cur@);
    let n = cur.len();
    proof {
        let k = choose|k: int| candidate_at(decos@, level as int, c, k);
        assert(counts_in_bounds(decos@, level as int, c));
        let m = level as int;
        assert forall|i: int| 0 <= i < n implies 0 <= #[trigger] cur@[i] <= MAX_LEVEL_LIMIT by {
            assert(0 <= c[i] <= count_limit(decos@, m, i));
            assert(decos@[i].valid());
            let l = decos@[i].skill_level as int;
            lemma_copies_needed(m, l);
        }
    }
    let mut v = zero_slots();
    let mut s: usize = 0;
    while s < MAX_SLOT_LEVEL
        invariant
            s <= MAX_SLOT_LEVEL,
            v@.len() == MAX_SLOT_LEVEL,
            n == cur@.len(),
            n == decos@.len(),
            c == ints(cur@),
            decos_valid(decos@),
            1 <= level <= MAX_LEVEL_LIMIT,
            is_candidate(decos@, level as int, c),
            counts_in_bounds(decos@, level as int, c),
            forall|k: int| 0 <= k < n ==> 0 <= #[trigger] cur@[k] <= MAX_LEVEL_LIMIT,
            forall|t: int|
                0 <= t < s ==> #[trigger] v@[t] == sockets_used(decos@, c, n as int, t + 1),
            forall|t: int| 0 <= t < v@.len() ==> 0 <= #[trigger] v@[t],
        decreases MAX_SLOT_LEVEL - s,
    {
        let size: i32 = (s + 1) as i32;
        let mut used: i128 = 0;
        let mut i: usize = 0;
        while i < n
            invariant
                i <= n,
                n == cur@.len(),
                n == decos@.len(),
                c == ints(cur@),
                size == s + 1,
                used == sockets_used(decos@, c, i as int, size as int),
                0 <= used <= i * 0x4000_0000,
                forall|k: int| 0 <= k < n ==> 0 <= #[trigger] cur@[k] <= MAX_LEVEL_LIMIT,
            decreases n - i,
        {
            assert(0 <= cur@[i as int] <= MAX_LEVEL_LIMIT);
            if decos[i].slot_size == size {
                used = used + cur[i] as i128;
            }
            i += 1;
        }
        proof {
            lemma_candidate_cost_fits(decos@, level as int, c, size as int);
        }
        v.set(s, used as i32);
        s += 1;
    }
    assert(v@ =~= cost_vec(decos@, c));
    v
}

/// Adds `w` to a list in which no row can stand in for another, unless a
/// row of the list can stand in for `w`; the rows that `w` can stand in for
/// leave the list.
fn insert_minimal(bucket: Vec<Vec<i32>>, w: Vec<i32>) -> (r: Vec<Vec<i32>>)
    requires
        unrivalled(rows(bucket@)),
        all_slots(rows(bucket@)),
        is_slots(w@),
    ensures
        unrivalled(rows(r@)),
        all_slots(rows(r@)),
        forall|i: int|
            0 <= i < r@.len() ==> (#[trigger] r@[i])@ == w@ || exists|k: int|
                0 <= k < bucket@.len() && (#[trigger] bucket@[k])@ == r@[i]@,
        has_below(rows(r@), w@),
        forall|u: Seq<i32>| #[trigger]
            has_below(rows(bucket@), u) ==> has_below(rows(r@), u),
{
    proof {
        reveal(stands_in);
    }
    let ghost old_rows = rows(bucket@);
    let mut k: usize = 0;
    while k < bucket.len()
        invariant
            k <= bucket@.len(),
            old_rows == rows(bucket@),
            is_slots(w@),
            all_slots(old_rows),
            unrivalled(old_rows),
            forall|i: int| 0 <= i < k ==> !stands_in(#[trigger] old_rows[i], w@),
        decreases bucket.len() - k,
    {
        proof {
            reveal(stands_in);
        }
        assert(is_slots(old_rows[k as int]));
        if eases_exec(&bucket[k], &w) {
            assert(stands_in(rows(bucket@)[k as int], w@));
            assert forall|i: int| 0 <= i < bucket@.len() implies (#[trigger] bucket@[i])@ == w@
                || exists|k: int| 0 <= k < bucket@.len() && (#[trigger] bucket@[k])@ == bucket@[i]@ by {
                assert(bucket@[i]@ == bucket@[i]@);
            }
            return bucket;
        }
        k += 1;
    }
    let mut kept: Vec<Vec<i32>> = Vec::new();
    let ghost mut from: Seq<int> = Seq::empty();
    let mut k: usize = 0;
    while k < bucket.len()
        invariant
            k <= bucket@.len(),
            old_rows == rows(bucket@),
            is_slots(w@),
            all_slots(old_rows),
            unrivalled(old_rows),
            forall|i: int| 0 <= i < old_rows.len() ==> !stands_in(#[trigger] old_rows[i], w@),
            from.len() == kept@.len(),
            forall|a: int|
                0 <= a < from.len() ==> 0 <= #[trigger] from[a] < k && kept@[a]@ == old_rows[from[a]]
                    && !stands_in(w@, old_rows[from[a]]),
            forall|a: int, b: int| 0 <= a < b < from.len() ==> #[trigger] from[a] < #[trigger] from[b],
            forall|i: int|
                0 <= i < k ==> stands_in(w@, #[trigger] old_rows[i]) || exists|a: int|
                    0 <= a < from.len() && #[trigger] from[a] == i,
        decreases bucket.len() - k,
    {
        proof {
            reveal(stands_in);
        }
        assert(is_slots(old_rows[k as int]));
        if !eases_exec(&w, &bucket[k]) {
            let row = crate::slots::copy_slots(&bucket[k]);
            let ghost prev = from;
            kept.push(row);
            proof {
                from = from.push(k as int);
                assert forall|i: int| 0 <= i < k + 1 implies stands_in(w@, #[trigger] old_rows[i])
                    || exists|a: int| 0 <= a < from.len() && #[trigger] from[a] == i by {
                    if i < k {
                        if !stands_in(w@, old_rows[i]) {
                            let a = choose|a: int| 0 <= a < prev.len() && #[trigger] prev[a] == i;
                            assert(from[a] == i);
                        }
                    } else {
                        assert(from[prev.len() as int] == i);
                    }
                }
            }
        }
        k += 1;
    }
    let ghost kept_rows = rows(kept@);
    kept.push(w);
    proof {
        reveal(stands_in);
        let out = rows(kept@);
        let last = kept_rows.len() as int;
        assert(out[last] == w@);
        assert forall|i: int| 0 <= i < out.len() implies is_slots(#[trigger] out[i]) by {
            if i < last {
                assert(out[i] == old_rows[from[i]]);
            }
        }
        assert forall|i: int, j: int|
            0 <= i < out.len() && 0 <= j < out.len() && i != j implies !stands_in(
            #[trigger] out[i],
            #[trigger] out[j],
        ) by {
            if i < last && j < last {
                assert(out[i] == old_rows[from[i]]);
                assert(out[j] == old_rows[from[j]]);
                if i < j {
                    assert(from[i] < from[j]);
                } else {
                    assert(from[j] < from[i]);
                }
            } else if i < last {
                assert(out[i] == old_rows[from[i]]);
            } else {
                assert(out[j] == old_rows[from[j]]);
            }
        }
        assert forall|i: int| 0 <= i < kept@.len() implies (#[trigger] kept@[i])@ == w@
            || exists|k: int| 0 <= k < bucket@.len() && (#[trigger] bucket@[k])@ == kept@[i]@ by {
            if i < last {
                assert(bucket@[from[i]]@ == kept@[i]@);
            }
        }
        assert(stands_in(w@, w@));
        assert(stands_in(out[last], w@));
        assert forall|u: Seq<i32>| #[trigger] has_below(old_rows, u) implies has_below(out, u) by {
            let i = choose|i: int| 0 <= i < old_rows.len() && stands_in(#[trigger] old_rows[i], u);
            if stands_in(w@, old_rows[i]) {
                lemma_eases_trans(w@, old_rows[i], u);
                assert(stands_in(out[last], u));
            } else {
                let a = choose|a: int| 0 <= a < from.len() && #[trigger] from[a] == i;
                assert(out[a] == old_rows[i]);
                assert(stands_in(out[a], u));
            }
        }
    }
    kept
}

/// A count vector within the radices is a count vector within the limits.
proof fn lemma_range_is_bounds(decos: Seq<Decoration>, level: int, lens: Seq<int>, c: Seq<int>)
    requires
        lens.len() == decos.len(),
        forall|i: int| 0 <= i < lens.len() ==> #[trigger] lens[i] == count_limit(decos, level, i) + 1,
    ensures
        in_range(c, lens) <==> counts_in_bounds(decos, level, c),
{
    if in_range(c, lens) {
        assert forall|i: int| 0 <= i < c.len() implies 0 <= #[trigger] c[i] <= count_limit(
            decos,
            level,
            i,
        ) by {
            assert(0 <= c[i] < lens[i]);
        }
    }
    if counts_in_bounds(decos, level, c) {
        assert forall|i: int| 0 <= i < c.len() implies 0 <= #[trigger] c[i] < lens[i] by {
            assert(0 <= c[i] <= count_limit(decos, level, i));
            assert(lens[i] == count_limit(decos, level, i) + 1);
        }
    }
}

/// The table's entry for a skill with several decorations (or none) and one
/// required level.
pub fn build_bucket(decos: &Vec<Decoration>, level: i32) -> (b: Vec<Vec<i32>>)
    requires
        decos_valid(decos@),
        decos@.len() != 1,
        1 <= level <= MAX_LEVEL_LIMIT,
    ensures
        bucket_ok(decos@, level as int, rows(b@)),
        all_slots(rows(b@)),
        antichain(rows(b@)),
{
    let n = decos.len();
    let lens = count_radices(decos, level);
    let mut cur = zero_counter(n);
    let mut bucket: Vec<Vec<i32>> = Vec::new();
    let ghost m = level as int;
    let ghost lv = level as int;
    let ghost radices = ints(lens@);
    let ghost mut r: int = 0;
    let mut more = true;
    proof {
        assert forall|i: int| 0 <= i < n implies 0 <= #[trigger] ints(cur@)[i] < radices[i] by {
            assert(cur@[i] == 0);
            assert(1 <= radices[i]);
        }
        assert forall|i: int| 0 <= i < n implies #[trigger] ints(cur@)[i] == 0 by {
            assert(cur@[i] == 0);
        }
        lemma_rank_zero(ints(cur@), radices, n as int);
        lemma_weight_pos(radices, n as int);
        assert forall|c: Seq<int>|
            #[trigger] in_range(c, radices) && rank(c, radices, n as int) < 0 && is_candidate(
                decos@,
                lv,
                c,
) implies has_below(rows(bucket@), cost_vec(decos@, c)) by {
            lemma_rank_bound(c, radices, n as int);
        }
    }
    while more
        invariant
            n == decos@.len(),
            lens@.len() == n,
            radices == ints(lens@),
            positive(radices),
            forall|i: int|
                0 <= i < radices.len() ==> #[trigger] radices[i] == count_limit(decos@, m, i) + 1,
            m == level,
            lv == level,
            decos_valid(decos@),
            1 <= level <= MAX_LEVEL_LIMIT,
            in_range(ints(cur@), radices),
            more ==> rank(ints(cur@), radices, n as int) == r,
            0 <= r <= weight(radices, n as int),
            more ==> r < weight(radices, n as int),
            !more ==> r == weight(radices, n as int),
            unrivalled(rows(bucket@)),
            all_slots(rows(bucket@)),
            forall|i: int| 0 <= i < bucket@.len() ==> realized(decos@, lv, (#[trigger] bucket@[i])@),
            forall|c: Seq<int>|
                #[trigger] in_range(c, radices) && rank(c, radices, n as int) < r && is_candidate(
                    decos@,
                    lv,
                    c,
) ==> has_below(rows(bucket@), cost_vec(decos@, c)),
        decreases weight(radices, n as int) - r,
    {
        let ghost here = ints(cur@);
        let ghost before = bucket@;
        proof {
            lemma_range_is_bounds(decos@, m, radices, here);
        }
        if check_candidate(decos, level, &cur) {
            let w = socket_cost(decos, level, &cur);
            bucket = insert_minimal(bucket, w);
            proof {
                assert forall|i: int| 0 <= i < bucket@.len() implies realized(
                    decos@,
                    lv,
                    (#[trigger] bucket@[i])@,
) by {
                    if bucket@[i]@ == w@ {
                        assert(is_candidate(decos@, lv, here) && cost_matches(w@, decos@, here));
                    } else {
                        let k = choose|k: int|
                            0 <= k < before.len() && (#[trigger] before[k])@ == bucket@[i]@;
                        assert(realized(decos@, lv, before[k]@));
                    }
                }
            }
        }
        proof {
            assert forall|c: Seq<int>|
                #[trigger] in_range(c, radices) && rank(c, radices, n as int) < r + 1
                    && is_candidate(decos@, lv, c) implies has_below(
                rows(bucket@),
                cost_vec(decos@, c),
            ) by {
                if rank(c, radices, n as int) < r {
                    assert(has_below(rows(before), cost_vec(decos@, c)));
                } else {
                    lemma_rank_injective(c, here, radices, n as int);
                    assert(c =~= here);
                }
            }
        }
        more = advance(&mut cur, &lens);
        proof {
            r = r + 1;
            lemma_rank_bound(ints(cur@), radices, n as int);
        }
    }
    proof {
        let b = rows(bucket@);
        assert forall|i: int| 0 <= i < b.len() implies is_slots(#[trigger] b[i]) && exists|
            c: Seq<int>,
        |
            is_candidate(decos@, lv, c) && cost_matches(b[i], decos@, c) by {
            assert(realized(decos@, lv, bucket@[i]@));
        }
        assert forall|c: Seq<int>| #[trigger] is_candidate(decos@, lv, c) implies has_below(
            b,
            cost_vec(decos@, c),
        ) by {
            lemma_range_is_bounds(decos@, m, radices, c);
            lemma_rank_bound(c, radices, n as int);
            assert(in_range(c, radices));
        }
        lemma_unrivalled(b);
    }
    bucket
}

/// The table's entry for a skill with the single decoration `deco` and one
/// required level: as many copies as the level needs.
pub fn single_bucket(deco: &Decoration, level: i32) -> (b: Vec<Vec<i32>>)
    requires
        deco.valid(),
        1 <= level,
    ensures
        b@.len() == 1,
        is_slots(b@[0]@),
        forall|s: int|
            0 <= s < MAX_SLOT_LEVEL ==> #[trigger] b@[0]@[s] == if s + 1 == deco.slot_size {
                copies_needed(level as int, deco.skill_level as int)
            } else {
                0
            },
{
    let per_copy = deco.skill_level;
    let mut count = level / per_copy;
    proof {
        let x = level as int;
        let l = per_copy as int;
        assert(0 <= x / l <= x) by (nonlinear_arith)
            requires
                1 <= x,
                1 <= l,
        ;
        assert(x % l != 0 ==> x / l < x) by (nonlinear_arith)
            requires
                1 <= x,
                1 <= l,
        ;
    }
    if level % per_copy != 0 {
        count = count + 1;
    }
    let mut row = zero_slots();
    row.set((deco.slot_size - 1) as usize, count);
    let mut b: Vec<Vec<i32>> = Vec::new();
    b.push(row);
    b
}

/// The table's entries for one skill: for each level from 1 to `max_level`,
/// at index `level - 1`, the socket costs that realise it.
pub fn build_levels(decos: &Vec<Decoration>, max_level: i32) -> (t: Vec<Vec<Vec<i32>>>)
    requires
        decos_valid(decos@),
        max_level <= MAX_LEVEL_LIMIT,
    ensures
        t@.len() == if max_level > 0 {
            max_level as int
        } else {
            0
        },
        forall|l: int|
            0 <= l < t@.len() ==> bucket_ok(
                decos@,
                l + 1,
                rows((#[trigger] t@[l])@),
) && all_slots(rows(t@[l]@)),
{
    let mut t: Vec<Vec<Vec<i32>>> = Vec::new();
    let mut level: i32 = 1;
    while level <= max_level
        invariant
            1 <= level <= max_level + 1 || (max_level < 1 && level == 1),
            max_level <= MAX_LEVEL_LIMIT,
            decos_valid(decos@),
            t@.len() == level - 1,
            forall|l: int|
                0 <= l < t@.len() ==> bucket_ok(
                    decos@,
                    l + 1,
                    rows((#[trigger] t@[l])@),
) && all_slots(rows(t@[l]@)),
        decreases max_level + 1 - level,
    {
        let bucket = if decos.len() == 1 {
            assert(decos@[0].valid());
            let b = single_bucket(&decos[0], level);
            assert(rows(b@)[0] == b@[0]@);
            b
        } else {
            build_bucket(decos, level)
        };
        t.push(bucket);
        level = level + 1;
    }
    t
}

} // verus!
