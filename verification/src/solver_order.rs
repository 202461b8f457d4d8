//! The order of a search.
//!
//! A search tries the tuples of the first pools that grant every skill
//! without decoration, best score first and tuples of one score in the
//! order of the counter, and widens each like a counter whose positions
//! turn in the turn order. A *place* of the search names a tuple and one of
//! its widenings.

use crate::calc::equipment::Equipment;
use crate::counter::{in_range, rank};
use crate::data::data_manager::DataManager;
use crate::data::deco::Decoration;
use crate::solver::{
    chosen, grants_all, is_copy_tuple, pool_widths, same_ids, tuple_points, turn_order, widened,
    widths,
};
use crate::solver_eval::acceptable;
use vstd::prelude::*;

verus! {

/// The score by which the search orders the tuple that `u` names.
pub open spec fn points_of<'a>(
    unique: Seq<Vec<Equipment<'a>>>,
    u: Seq<int>,
    decos: Map<Seq<char>, Vec<Decoration>>,
    yes: Map<Seq<char>, i32>,
    no: Map<Seq<char>, i32>,
) -> int {
    tuple_points(chosen(unique, u), 6, decos, yes, no)
}

/// The search tries the tuple that `a` names before the tuple that `b`
/// names: it scores more, or as much and comes first in the order of the
/// counter.
pub open spec fn tuple_before<'a>(
    unique: Seq<Vec<Equipment<'a>>>,
    a: Seq<int>,
    b: Seq<int>,
    decos: Map<Seq<char>, Vec<Decoration>>,
    yes: Map<Seq<char>, i32>,
    no: Map<Seq<char>, i32>,
) -> bool {
    let x = points_of(unique, a, decos, yes, no);
    let y = points_of(unique, b, decos, yes, no);
    x > y || (x == y && rank(a, pool_widths(unique), 6) < rank(b, pool_widths(unique), 6))
}

/// The digits of the counter that stands at the widening `e`: for each
/// place of the turn order `order`, the pick of the position that turns
/// there.
pub open spec fn turned(order: Seq<int>, e: Seq<int>) -> Seq<int> {
    Seq::new(6, |j: int| e[order[j]])
}

/// The number of the widening `e` among the widenings of the tuple that `u`
/// names, in the order in which the search makes them.
pub open spec fn walk_rank<'a>(
    unique: Seq<Vec<Equipment<'a>>>,
    open: Seq<Vec<Equipment<'a>>>,
    u: Seq<int>,
    e: Seq<int>,
) -> int {
    let lens = widths(unique, open, u);
    let order = turn_order(lens, 6);
    rank(turned(order, e), turned(order, lens), 6)
}

/// The search comes to the place `a` before the widening number `step` of
/// the tuple that `u` names.
pub open spec fn found_by<'a>(
    unique: Seq<Vec<Equipment<'a>>>,
    open: Seq<Vec<Equipment<'a>>>,
    decos: Map<Seq<char>, Vec<Decoration>>,
    yes: Map<Seq<char>, i32>,
    no: Map<Seq<char>, i32>,
    a: (Seq<int>, Seq<int>),
    u: Seq<int>,
    step: int,
) -> bool {
    tuple_before(unique, a.0, u, decos, yes, no) || (a.0 == u && walk_rank(unique, open, u, a.1)
        < step)
}

/// The search comes to the place `a` before the place `b`.
pub open spec fn found_before<'a>(
    unique: Seq<Vec<Equipment<'a>>>,
    open: Seq<Vec<Equipment<'a>>>,
    decos: Map<Seq<char>, Vec<Decoration>>,
    yes: Map<Seq<char>, i32>,
    no: Map<Seq<char>, i32>,
    a: (Seq<int>, Seq<int>),
    b: (Seq<int>, Seq<int>),
) -> bool {
    found_by(unique, open, decos, yes, no, a, b.0, walk_rank(unique, open, b.0, b.1))
}

/// `w` is a place of the search: a tuple of the first pools that grants
/// every skill of `no_deco`, and one of its widenings.
pub open spec fn place_ok<'a>(
    unique: Seq<Vec<Equipment<'a>>>,
    open: Seq<Vec<Equipment<'a>>>,
    no_deco: Seq<(Seq<char>, i32)>,
    w: (Seq<int>, Seq<int>),
) -> bool {
    &&& in_range(w.0, pool_widths(unique))
    &&& grants_all(no_deco, chosen(unique, w.0))
    &&& in_range(w.1, widths(unique, open, w.0))
}

/// The pieces `t` are copies of the pieces at the place `w` of the search.
pub open spec fn found_at<'a>(
    t: Seq<Equipment<'a>>,
    unique: Seq<Vec<Equipment<'a>>>,
    open: Seq<Vec<Equipment<'a>>>,
    no_deco: Seq<(Seq<char>, i32)>,
    w: (Seq<int>, Seq<int>),
) -> bool {
    place_ok(unique, open, no_deco, w) && is_copy_tuple(t, widened(unique, open, w.0, w.1))
}

/// One of the tuples has the identifiers of the pieces `t`.
pub open spec fn named<'a>(tuples: Seq<Seq<Equipment<'a>>>, t: Seq<Equipment<'a>>) -> bool {
    exists|k: int| 0 <= k < tuples.len() && same_ids(#[trigger] tuples[k], t)
}

/// What a search is about: its pools, the skills without decoration and
/// with one, the sockets of the weapon, the requirement, the sockets to
/// leave free and the catalog.
pub struct Quest<'a> {
    pub unique: Seq<Vec<Equipment<'a>>>,
    pub open: Seq<Vec<Equipment<'a>>>,
    pub no_deco: Seq<(Seq<char>, i32)>,
    pub yes: Map<Seq<char>, i32>,
    pub no: Map<Seq<char>, i32>,
    pub weapon: Seq<i32>,
    pub req: Seq<(Seq<char>, i32)>,
    pub free: Seq<i32>,
}

/// The pieces at the place `w` meet the requirement of the search.
pub open spec fn meets<'a>(q: Quest<'a>, dm: &DataManager, w: (Seq<int>, Seq<int>)) -> bool {
    place_ok(q.unique, q.open, q.no_deco, w) && acceptable(
        widened(q.unique, q.open, w.0, w.1),
        q.weapon,
        q.req,
        q.free,
        dm,
    )
}

/// The place `a` comes before the place `b` in the search `q`.
pub open spec fn earlier<'a>(
    q: Quest<'a>,
    dm: &DataManager,
    a: (Seq<int>, Seq<int>),
    b: (Seq<int>, Seq<int>),
) -> bool {
    found_before(q.unique, q.open, dm.decos_by_skill@, q.yes, q.no, a, b)
}

/// The builds of the tuples `tuples` with the scores `scores` were found at
/// the places `found` and are kept as a search keeps them:
/// - each tuple is made of copies of the pieces at its place;
/// - the scores do not rise, and of two builds of one score the one found
///   first comes first;
/// - for every place before the place of a build whose pieces meet the
///   requirement, a build with the identifiers of these pieces is kept.
pub open spec fn kept_in_order<'a>(
    q: Quest<'a>,
    dm: &DataManager,
    tuples: Seq<Seq<Equipment<'a>>>,
    scores: Seq<i64>,
    found: Seq<(Seq<int>, Seq<int>)>,
) -> bool {
    &&& tuples.len() == found.len()
    &&& scores.len() == found.len()
    &&& forall|i: int|
        0 <= i < found.len() ==> found_at(#[trigger] tuples[i], q.unique, q.open, q.no_deco, found[i])
    &&& forall|i: int, j: int|
        0 <= i < j < found.len() ==> (#[trigger] scores[i]) > (#[trigger] scores[j]) || (scores[i]
            == scores[j] && earlier(q, dm, found[i], found[j]))
    &&& forall|i: int, w: (Seq<int>, Seq<int>)|
        0 <= i < found.len() && #[trigger] meets(q, dm, w) && #[trigger] earlier(q, dm, w, found[i])
            ==> named(tuples, widened(q.unique, q.open, w.0, w.1))
}

/// A tuple among tuples is a tuple among these with one more.
pub proof fn lemma_named_insert<'a>(
    tuples: Seq<Seq<Equipment<'a>>>,
    pos: int,
    t: Seq<Equipment<'a>>,
    x: Seq<Equipment<'a>>,
)
    requires
        0 <= pos <= tuples.len(),
        named(tuples, x) || same_ids(t, x),
    ensures
        named(tuples.insert(pos, t), x),
{
    let now = tuples.insert(pos, t);
    if same_ids(t, x) {
        assert(now[pos] == t);
    } else {
        let k = choose|k: int| 0 <= k < tuples.len() && same_ids(#[trigger] tuples[k], x);
        if k < pos {
            assert(now[k] == tuples[k]);
        } else {
            assert(now[k + 1] == tuples[k]);
        }
    }
}

/// Builds kept as a search keeps them stay so with a build that the search
/// finds after all of them, where every earlier place whose pieces meet the
/// requirement has its build among them: the new build goes behind the
/// builds whose score is not lower.
pub proof fn lemma_kept_insert<'a>(
    q: Quest<'a>,
    dm: &DataManager,
    tuples: Seq<Seq<Equipment<'a>>>,
    scores: Seq<i64>,
    found: Seq<(Seq<int>, Seq<int>)>,
    pos: int,
    t: Seq<Equipment<'a>>,
    score: i64,
    now: (Seq<int>, Seq<int>),
)
    requires
        kept_in_order(q, dm, tuples, scores, found),
        0 <= pos <= found.len(),
        found_at(t, q.unique, q.open, q.no_deco, now),
        forall|i: int| 0 <= i < pos ==> #[trigger] scores[i] >= score,
        forall|i: int| pos <= i < scores.len() ==> #[trigger] scores[i] < score,
        forall|i: int| 0 <= i < found.len() ==> earlier(q, dm, #[trigger] found[i], now),
        forall|w: (Seq<int>, Seq<int>)|
            #[trigger] meets(q, dm, w) && earlier(q, dm, w, now) ==> named(
                tuples,
                widened(q.unique, q.open, w.0, w.1),
            ),
    ensures
        kept_in_order(
            q,
            dm,
            tuples.insert(pos, t),
            scores.insert(pos, score),
            found.insert(pos, now),
        ),
{
    let tuples2 = tuples.insert(pos, t);
    let scores2 = scores.insert(pos, score);
    let found2 = found.insert(pos, now);
    assert forall|i: int| 0 <= i < found2.len() implies found_at(
        #[trigger] tuples2[i],
        q.unique,
        q.open,
        q.no_deco,
        found2[i],
    ) by {
        if i < pos {
            assert(tuples2[i] == tuples[i] && found2[i] == found[i]);
        } else if i > pos {
            assert(tuples2[i] == tuples[i - 1] && found2[i] == found[i - 1]);
        }
    }
    assert forall|i: int, j: int| 0 <= i < j < found2.len() implies (#[trigger] scores2[i]) > (
    #[trigger] scores2[j]) || (scores2[i] == scores2[j] && earlier(q, dm, found2[i], found2[j])) by {
        let a = if i < pos {
            i
        } else {
            i - 1
        };
        let b = if j < pos {
            j
        } else {
            j - 1
        };
        if i == pos {
            assert(scores2[j] == scores[b]);
            assert(scores[b] < score);
        } else if j == pos {
            assert(scores2[i] == scores[a] && found2[i] == found[a]);
            assert(scores[a] >= score);
            assert(earlier(q, dm, found[a], now));
        } else {
            assert(scores2[i] == scores[a] && found2[i] == found[a]);
            assert(scores2[j] == scores[b] && found2[j] == found[b]);
            assert(a < b);
            assert(scores[a] > scores[b] || (scores[a] == scores[b] && earlier(
                q,
                dm,
                found[a],
                found[b],
            )));
        }
    }
    assert forall|i: int, w: (Seq<int>, Seq<int>)|
        0 <= i < found2.len() && #[trigger] meets(q, dm, w) && #[trigger] earlier(
            q,
            dm,
            w,
            found2[i],
        ) implies named(tuples2, widened(q.unique, q.open, w.0, w.1)) by {
        let x = widened(q.unique, q.open, w.0, w.1);
        if i == pos {
            assert(named(tuples, x));
        } else {
            let a = if i < pos {
                i
            } else {
                i - 1
            };
            assert(found2[i] == found[a]);
            assert(named(tuples, x));
        }
        lemma_named_insert(tuples, pos, t, x);
    }
}

} // verus!
