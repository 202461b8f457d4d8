//! The table misses nothing.
//!
//! Whatever decorations of a skill grant a level, the table holds for the
//! level a cost that can be placed wherever theirs can: it asks for no more
//! sockets of any size and above. This holds for decorations listed in the
//! order of their socket sizes, and makes the costs of a lower level easier
//! than those of a higher one.

use crate::data::deco::Decoration;
use crate::data::deco_build::{
    MAX_LEVEL_LIMIT, bucket_ok, candidate_at, copies_needed, cost_matches, cost_vec, count_limit,
    counts_in_bounds, decos_valid, granted, has_below, is_candidate, lemma_candidate_cost_fits,
    lemma_copies_needed, sockets_used, stands_in,
};
use crate::data::skill::MAX_SLOT_LEVEL;
use crate::slots::{eases, suffix_sum};
use vstd::prelude::*;

verus! {

/// The decorations are listed in the order of their socket sizes.
pub open spec fn sizes_rise(decos: Seq<Decoration>) -> bool {
    forall|i: int, j: int|
        0 <= i < j < decos.len() ==> (#[trigger] decos[i]).slot_size <= (#[trigger] decos[j]).slot_size
}

/// No count is negative.
pub open spec fn counts_nonneg(c: Seq<int>) -> bool {
    forall|i: int| 0 <= i < c.len() ==> 0 <= #[trigger] c[i]
}

/// The sockets of the sizes above index `t` that the first `k` counts of `c`
/// take.
pub open spec fn used_from(decos: Seq<Decoration>, c: Seq<int>, k: int, t: int) -> int
    decreases k,
{
    if k <= 0 {
        0
    } else {
        used_from(decos, c, k - 1, t) + if decos[k - 1].slot_size > t {
            c[k - 1]
        } else {
            0
        }
    }
}

/// `v` asks for no more sockets of any size and above than the count vector
/// `c` takes.
pub open spec fn lighter(v: Seq<i32>, decos: Seq<Decoration>, c: Seq<int>) -> bool {
    forall|t: int|
        0 <= t < MAX_SLOT_LEVEL ==> #[trigger] suffix_sum(v, t) <= used_from(
            decos,
            c,
            decos.len() as int,
            t,
        )
}

/// Some cost of the list asks for no more sockets of any size and above
/// than the count vector `c` takes.
pub open spec fn serves(b: Seq<Seq<i32>>, decos: Seq<Decoration>, c: Seq<int>) -> bool {
    exists|i: int| 0 <= i < b.len() && lighter(#[trigger] b[i], decos, c)
}

/// The sockets from a size on are the sockets of each size from it on.
proof fn lemma_used_by_size(decos: Seq<Decoration>, c: Seq<int>, k: int)
    requires
        decos_valid(decos),
        0 <= k <= decos.len(),
    ensures
        used_from(decos, c, k, 3) == sockets_used(decos, c, k, 4),
        used_from(decos, c, k, 2) == sockets_used(decos, c, k, 3) + used_from(decos, c, k, 3),
        used_from(decos, c, k, 1) == sockets_used(decos, c, k, 2) + used_from(decos, c, k, 2),
        used_from(decos, c, k, 0) == sockets_used(decos, c, k, 1) + used_from(decos, c, k, 1),
    decreases k,
{
    if k > 0 {
        lemma_used_by_size(decos, c, k - 1);
        assert(decos[k - 1].valid());
    }
}

/// The levels and sockets of a count vector in which one count was changed.
proof fn lemma_changed(decos: Seq<Decoration>, c: Seq<int>, i: int, v: int, k: int, t: int)
    requires
        0 <= i < c.len(),
        0 <= k <= c.len(),
    ensures
        granted(decos, c.update(i, v), k) == granted(decos, c, k) + if i < k {
            (v - c[i]) * decos[i].skill_level
        } else {
            0
        },
        used_from(decos, c.update(i, v), k, t) == used_from(decos, c, k, t) + if i < k
            && decos[i].slot_size > t {
            v - c[i]
        } else {
            0
        },
    decreases k,
{
    if k > 0 {
        lemma_changed(decos, c, i, v, k - 1, t);
        if i == k - 1 {
            let l = decos[i].skill_level as int;
            let old = c[i];
            assert(v * l == old * l + (v - old) * l) by (nonlinear_arith);
        }
    }
}

/// Counts that are not negative take no negative number of sockets.
proof fn lemma_used_nonneg(decos: Seq<Decoration>, c: Seq<int>, k: int, t: int)
    requires
        counts_nonneg(c),
        0 <= k <= c.len(),
    ensures
        0 <= used_from(decos, c, k, t),
    decreases k,
{
    if k > 0 {
        lemma_used_nonneg(decos, c, k - 1, t);
    }
}

/// Counts of zero grant nothing and take nothing.
proof fn lemma_nothing(decos: Seq<Decoration>, c: Seq<int>, k: int, t: int)
    requires
        0 <= k <= c.len(),
        forall|i: int| 0 <= i < c.len() ==> #[trigger] c[i] == 0,
    ensures
        granted(decos, c, k) == 0,
        used_from(decos, c, k, t) == 0,
    decreases k,
{
    if k > 0 {
        lemma_nothing(decos, c, k - 1, t);
        assert(c[k - 1] == 0);
        assert(0 * decos[k - 1].skill_level == 0);
    }
}

/// As many copies of decoration `i` alone as reach the level: counts within
/// the limits that reach the level and take no more sockets of any size and
/// above than counts that hold as many copies of it, or of it and of a
/// later decoration together.
proof fn lemma_alone(decos: Seq<Decoration>, level: int, c: Seq<int>, i: int, j: int) -> (d: Seq<int>)
    requires
        decos_valid(decos),
        sizes_rise(decos),
        1 <= level,
        c.len() == decos.len(),
        counts_nonneg(c),
        0 <= i <= j < c.len(),
        if i == j {
            c[i] >= count_limit(decos, level, i)
        } else {
            c[i] + c[j] >= count_limit(decos, level, i)
        },
    ensures
        counts_in_bounds(decos, level, d),
        forall|x: int| i < x < d.len() ==> #[trigger] d[x] == 0,
        granted(decos, d, i + 1) >= level,
        forall|t: int|
            0 <= t < MAX_SLOT_LEVEL ==> #[trigger] used_from(decos, d, decos.len() as int, t)
                <= used_from(decos, c, decos.len() as int, t),
{
    let n = decos.len() as int;
    let zeros = Seq::new(c.len(), |x: int| 0int);
    let cn = count_limit(decos, level, i);
    let d = zeros.update(i, cn);
    assert(decos[i].valid());
    lemma_copies_needed(level, decos[i].skill_level as int);
    assert forall|x: int| 0 <= x < d.len() implies 0 <= #[trigger] d[x] <= count_limit(
        decos,
        level,
        x,
    ) by {
        assert(decos[x].valid());
        lemma_copies_needed(level, decos[x].skill_level as int);
    }
    lemma_nothing(decos, zeros, i + 1, 0);
    lemma_changed(decos, zeros, i, cn, i + 1, 0);
    assert forall|t: int| 0 <= t < MAX_SLOT_LEVEL implies #[trigger] used_from(decos, d, n, t)
        <= used_from(decos, c, n, t) by {
        lemma_nothing(decos, zeros, n, t);
        lemma_changed(decos, zeros, i, cn, n, t);
        let rest = c.update(i, 0).update(j, 0);
        assert forall|x: int| 0 <= x < rest.len() implies 0 <= #[trigger] rest[x] by {
            assert(0 <= c[x]);
        }
        lemma_used_nonneg(decos, rest, n, t);
        lemma_changed(decos, c, i, 0, n, t);
        lemma_changed(decos, c.update(i, 0), j, 0, n, t);
        assert(decos[i].slot_size <= decos[j].slot_size);
        assert(0 <= c[i] && 0 <= c[j]);
    }
    d
}

/// Counts within the limits that reach a level have a candidate for the
/// level that takes no more sockets of any size and above.
proof fn lemma_candidate_below(decos: Seq<Decoration>, level: int, c: Seq<int>, j: int) -> (d: Seq<
    int,
>)
    requires
        decos_valid(decos),
        sizes_rise(decos),
        1 <= level,
        counts_in_bounds(decos, level, c),
        0 <= j < c.len(),
        forall|x: int| j < x < c.len() ==> #[trigger] c[x] == 0,
        granted(decos, c, j + 1) >= level,
    ensures
        is_candidate(decos, level, d),
        forall|t: int|
            0 <= t < MAX_SLOT_LEVEL ==> #[trigger] used_from(decos, d, decos.len() as int, t)
                <= used_from(decos, c, decos.len() as int, t),
    decreases j,
{
    let n = decos.len() as int;
    assert(counts_nonneg(c)) by {
        assert forall|x: int| 0 <= x < c.len() implies 0 <= #[trigger] c[x] by {
            assert(0 <= c[x] <= count_limit(decos, level, x));
        }
    }
    if c[j] == 0 {
        assert(0 * decos[j].skill_level == 0);
        assert(granted(decos, c, j) == granted(decos, c, j + 1));
        assert(j > 0);
        lemma_candidate_below(decos, level, c, j - 1)
    } else if forall|i: int|
        0 <= i < j ==> granted(decos, c, j) + c[j] * (#[trigger] decos[i]).skill_level < level {
        assert(0 <= c[j] <= count_limit(decos, level, j));
        assert(candidate_at(decos, level, c, j));
        c
    } else {
        let i = choose|i: int|
            0 <= i < j && !(granted(decos, c, j) + c[j] * (#[trigger] decos[i]).skill_level < level);
        let tot = c[i] + c[j];
        if tot >= count_limit(decos, level, i) {
            let alone = lemma_alone(decos, level, c, i, j);
            let d = lemma_candidate_below(decos, level, alone, i);
            assert forall|t: int| 0 <= t < MAX_SLOT_LEVEL implies #[trigger] used_from(decos, d, n, t)
                <= used_from(decos, c, n, t) by {
                assert(used_from(decos, alone, n, t) <= used_from(decos, c, n, t));
            }
            d
        } else {
            let moved = c.update(j, 0).update(i, tot);
            assert forall|x: int| 0 <= x < moved.len() implies 0 <= #[trigger] moved[x]
                <= count_limit(decos, level, x) by {
                assert(0 <= c[x] <= count_limit(decos, level, x));
                assert(decos[x].valid());
                lemma_copies_needed(level, decos[x].skill_level as int);
            }
            assert forall|x: int| j - 1 < x < moved.len() implies #[trigger] moved[x] == 0 by {
                if x > j {
                    assert(c[x] == 0);
                }
            }
            lemma_changed(decos, c, j, 0, j, 0);
            lemma_changed(decos, c.update(j, 0), i, tot, j, 0);
            assert(granted(decos, moved, j) == granted(decos, c, j) + c[j] * decos[i].skill_level);
            let d = lemma_candidate_below(decos, level, moved, j - 1);
            assert forall|t: int| 0 <= t < MAX_SLOT_LEVEL implies #[trigger] used_from(decos, d, n, t)
                <= used_from(decos, c, n, t) by {
                lemma_changed(decos, c, j, 0, n, t);
                lemma_changed(decos, c.update(j, 0), i, tot, n, t);
                assert(decos[i].slot_size <= decos[j].slot_size);
                assert(used_from(decos, moved, n, t) <= used_from(decos, c, n, t));
                assert(used_from(decos, d, n, t) <= used_from(decos, moved, n, t));
            }
            d
        }
    }
}

/// Whatever counts reach a level, some candidate for the level takes no more
/// sockets of any size and above.
pub proof fn lemma_candidate_for(decos: Seq<Decoration>, level: int, c: Seq<int>) -> (d: Seq<int>)
    requires
        decos_valid(decos),
        sizes_rise(decos),
        1 <= level,
        c.len() == decos.len(),
        counts_nonneg(c),
        granted(decos, c, decos.len() as int) >= level,
    ensures
        is_candidate(decos, level, d),
        forall|t: int|
            0 <= t < MAX_SLOT_LEVEL ==> #[trigger] used_from(decos, d, decos.len() as int, t)
                <= used_from(decos, c, decos.len() as int, t),
{
    let n = decos.len() as int;
    assert(n > 0);
    if exists|i: int| 0 <= i < n && #[trigger] c[i] >= count_limit(decos, level, i) {
        let i = choose|i: int| 0 <= i < n && #[trigger] c[i] >= count_limit(decos, level, i);
        let alone = lemma_alone(decos, level, c, i, i);
        let d = lemma_candidate_below(decos, level, alone, i);
        assert forall|t: int| 0 <= t < MAX_SLOT_LEVEL implies #[trigger] used_from(decos, d, n, t)
            <= used_from(decos, c, n, t) by {
            assert(used_from(decos, alone, n, t) <= used_from(decos, c, n, t));
        }
        d
    } else {
        assert forall|i: int| 0 <= i < c.len() implies 0 <= #[trigger] c[i] <= count_limit(
            decos,
            level,
            i,
        ) by {
            assert(0 <= c[i]);
        }
        lemma_candidate_below(decos, level, c, n - 1)
    }
}

/// The one cost of a skill with a single decoration asks for no more sockets
/// than any number of copies that reaches the level.
proof fn lemma_single_complete(decos: Seq<Decoration>, level: int, v: Seq<i32>, c: Seq<int>)
    requires
        decos.len() == 1,
        decos[0].valid(),
        1 <= level,
        v.len() == MAX_SLOT_LEVEL,
        forall|s: int|
            0 <= s < MAX_SLOT_LEVEL ==> #[trigger] v[s] == if s + 1 == decos[0].slot_size {
                copies_needed(level, decos[0].skill_level as int)
            } else {
                0
            },
        c.len() == 1,
        0 <= c[0],
        granted(decos, c, 1) >= level,
    ensures
        lighter(v, decos, c),
{
    reveal_with_fuel(suffix_sum, 5);
    let l = decos[0].skill_level as int;
    lemma_copies_needed(level, l);
    let cn = copies_needed(level, l);
    let k = c[0];
    assert(granted(decos, c, 1) == granted(decos, c, 0) + k * l);
    assert(cn <= k) by (nonlinear_arith)
        requires
            k * l >= level,
            cn * l < level + l,
            1 <= l,
    ;
    assert(v[0] == if 1 == decos[0].slot_size { cn } else { 0 });
    assert(v[1] == if 2 == decos[0].slot_size { cn } else { 0 });
    assert(v[2] == if 3 == decos[0].slot_size { cn } else { 0 });
    assert(v[3] == if 4 == decos[0].slot_size { cn } else { 0 });
    assert forall|t: int| 0 <= t < MAX_SLOT_LEVEL implies #[trigger] suffix_sum(v, t) <= used_from(
        decos,
        c,
        1,
        t,
    ) by {
        assert(used_from(decos, c, 1, t) == used_from(decos, c, 0, t) + if decos[0].slot_size > t {
            k
        } else {
            0
        });
        assert(t == 0 || t == 1 || t == 2 || t == 3);
    }
}

/// The sockets of a size and above that a cost asks for are those that its
/// count vector takes.
pub proof fn lemma_cost_sums(v: Seq<i32>, decos: Seq<Decoration>, c: Seq<int>)
    requires
        decos_valid(decos),
        cost_matches(v, decos, c),
    ensures
        forall|t: int|
            0 <= t < MAX_SLOT_LEVEL ==> #[trigger] suffix_sum(v, t) == used_from(
                decos,
                c,
                decos.len() as int,
                t,
            ),
{
    reveal_with_fuel(suffix_sum, 5);
    let n = decos.len() as int;
    lemma_used_by_size(decos, c, n);
    assert(v[0] == sockets_used(decos, c, n, 1));
    assert(v[1] == sockets_used(decos, c, n, 2));
    assert(v[2] == sockets_used(decos, c, n, 3));
    assert(v[3] == sockets_used(decos, c, n, 4));
    assert forall|t: int| 0 <= t < MAX_SLOT_LEVEL implies #[trigger] suffix_sum(v, t) == used_from(
        decos,
        c,
        n,
        t,
    ) by {
        assert(t == 0 || t == 1 || t == 2 || t == 3);
    }
}

/// A cost that eases the cost of a candidate asks for no more sockets of
/// any size and above than the candidate takes, and than any count vector
/// that takes as many.
proof fn lemma_eases_lighter(
    v: Seq<i32>,
    decos: Seq<Decoration>,
    level: int,
    d: Seq<int>,
    c: Seq<int>,
)
    requires
        decos_valid(decos),
        1 <= level <= MAX_LEVEL_LIMIT,
        is_candidate(decos, level, d),
        eases(v, cost_vec(decos, d)),
        forall|t: int|
            0 <= t < MAX_SLOT_LEVEL ==> #[trigger] used_from(decos, d, decos.len() as int, t)
                <= used_from(decos, c, decos.len() as int, t),
    ensures
        lighter(v, decos, c),
{
    let w = cost_vec(decos, d);
    assert forall|s: int| 0 <= s < MAX_SLOT_LEVEL implies #[trigger] w[s] == sockets_used(
        decos,
        d,
        decos.len() as int,
        s + 1,
    ) by {
        lemma_candidate_cost_fits(decos, level, d, s + 1);
    }
    lemma_cost_sums(w, decos, d);
    assert forall|t: int| 0 <= t < MAX_SLOT_LEVEL implies #[trigger] suffix_sum(v, t) <= used_from(
        decos,
        c,
        decos.len() as int,
        t,
    ) by {
        assert(suffix_sum(v, t) <= suffix_sum(w, t));
        assert(used_from(decos, d, decos.len() as int, t) <= used_from(
            decos,
            c,
            decos.len() as int,
            t,
        ));
    }
}

/// The table misses nothing: whatever counts of a skill's decorations grant
/// a level, a cost that the table holds for the level asks for no more
/// sockets of any size and above.
pub proof fn lemma_bucket_complete(decos: Seq<Decoration>, level: int, b: Seq<Seq<i32>>, c: Seq<int>)
    requires
        decos_valid(decos),
        sizes_rise(decos),
        1 <= level <= MAX_LEVEL_LIMIT,
        bucket_ok(decos, level, b),
        c.len() == decos.len(),
        counts_nonneg(c),
        granted(decos, c, decos.len() as int) >= level,
    ensures
        serves(b, decos, c),
{
    if decos.len() == 1 {
        assert(decos[0].valid());
        assert(0 <= c[0]);
        lemma_single_complete(decos, level, b[0], c);
    } else {
        let d = lemma_candidate_for(decos, level, c);
        assert(has_below(b, cost_vec(decos, d)));
        let i = choose|i: int| 0 <= i < b.len() && stands_in(#[trigger] b[i], cost_vec(decos, d));
        assert(eases(b[i], cost_vec(decos, d))) by {
            reveal(stands_in);
        }
        lemma_eases_lighter(b[i], decos, level, d, c);
    }
}

} // verus!
