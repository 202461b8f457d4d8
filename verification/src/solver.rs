//! The search for the builds that meet a requirement.
//!
//! For a requirement the skills are split into those that no decoration
//! grants and the others. Each position of a build (helm, torso, arm, waist,
//! feet, charm) gets a first pool, of pieces that grant a skill without
//! decoration and the empty placeholder, and a second pool, of the empty
//! placeholder and the other pieces worth wearing. The tuples of the first
//! pools that grant every skill without decoration are listed, best score
//! first; each is widened by putting the pieces of the second pool in the
//! place of its empty placeholders, and each build so found is offered to
//! the answer if it meets the requirement.

use crate::calc::calc_equipment::CalcEquipment;
use crate::calc::calc_equipment::piece_point;
use crate::calc::deco::slot_point;
use crate::calc::equipment::Equipment;
use crate::counter::{
    advance, in_range, ints, lemma_rank_bound, lemma_rank_injective, lemma_rank_zero,
    lemma_weight_pos, positive, rank, weight, zero_counter,
};
use crate::data::armor::{BaseArmor, SexType, base_slots_ok, is_base_slots};
use crate::data::data_manager::DataManager;
use crate::data::deco::Decoration;
use crate::full_equipments::{build_slots, free_rest, total_slots};
use crate::slots::{is_slots, is_slots_exec};
use crate::solver_bag::{
    MAX_ANSWER_LENGTH, SolvedBuild, bag_pos, finish, lemma_bag_pos, offer, packings_of, solved_from,
    sorted_desc,
};
use crate::solver_eval::{Candidate, acceptable, avail_vec, candidate_of, evaluate, spare_of};
use crate::solver_order::{
    Quest, earlier, found_at, found_by, kept_in_order, lemma_kept_insert, meets, named, place_ok,
    tuple_before, turned, walk_rank,
};
use crate::solver_parts::{left_after, levels_nonneg, residual_after};
use crate::solver_pools::{
    catalog_covered, clone_piece, empty_usable, is_copy, lemma_copy_ok, piece_ok, pool_needed,
    pool_ok, pools_lean, position_pools, stands_for_empty,
};
use crate::str_map::{StrMap, distinct_keys, has_key, key_index};
use vstd::prelude::*;

verus! {

/// The answer of a search: the builds found, best score first, and what
/// they were chosen from.
pub struct CalculateResult<'a> {
    /// The builds found, best score first.
    pub builds: Vec<SolvedBuild<'a>>,
    /// The skills of the requirement that no decoration grants.
    pub no_deco: StrMap<i32>,
    /// The skills of the requirement that decorations grant.
    pub yes_deco: StrMap<i32>,
    /// For each position, the pieces that grant a skill without
    /// decoration, and the empty placeholder.
    pub unique: Vec<Vec<Equipment<'a>>>,
    /// For each position, the empty placeholder and the other pieces worth
    /// wearing.
    pub open: Vec<Vec<Equipment<'a>>>,
}

/// Of the first `k` entries of a requirement, those with a level above
/// zero, in their order: a level of zero or below asks for nothing.
pub open spec fn asked(req: Seq<(Seq<char>, i32)>, k: int) -> Seq<(Seq<char>, i32)>
    decreases k,
{
    if k <= 0 {
        Seq::empty()
    } else if req[k - 1].1 >= 1 {
        asked(req, k - 1).push(req[k - 1])
    } else {
        asked(req, k - 1)
    }
}

/// There is one pool per position, of pieces of the catalog for it.
pub open spec fn pools_ok<'a>(pools: Seq<Vec<Equipment<'a>>>, dm: &DataManager, sex: SexType) -> bool {
    &&& pools.len() == 6
    &&& forall|k: int| 0 <= k < 6 ==> pool_ok((#[trigger] pools[k])@, dm, k, sex)
}

/// Where the empty placeholder of a position can stand in a build, it is
/// the last piece of the position's first pool and the first piece of its
/// second pool.
pub open spec fn pools_hold_empty<'a>(
    unique: Seq<Vec<Equipment<'a>>>,
    open: Seq<Vec<Equipment<'a>>>,
    dm: &DataManager,
    sex: SexType,
) -> bool {
    forall|k: int|
        0 <= k < 6 && #[trigger] empty_usable(dm, k, sex) ==> unique[k]@.len() > 0 && stands_for_empty(
            unique[k]@[unique[k]@.len() - 1],
            dm,
            k,
        ) && open[k]@.len() > 0 && stands_for_empty(open[k]@[0], dm, k)
}

/// The pieces are six pieces of the catalog, one per position.
pub open spec fn pieces_ok<'a>(pieces: Seq<Equipment<'a>>, dm: &DataManager, sex: SexType) -> bool {
    &&& pieces.len() == 6
    &&& forall|k: int| 0 <= k < 6 ==> piece_ok(#[trigger] pieces[k], dm, k, sex)
}

/// The number of pieces of each pool.
pub open spec fn pool_widths<'a>(pools: Seq<Vec<Equipment<'a>>>) -> Seq<int> {
    Seq::new(pools.len(), |k: int| pools[k]@.len() as int)
}

/// The tuple of the first pools that the positions `u` name.
pub open spec fn chosen<'a>(unique: Seq<Vec<Equipment<'a>>>, u: Seq<int>) -> Seq<Equipment<'a>> {
    Seq::new(6, |k: int| unique[k]@[u[k]])
}

/// Position `k` of the tuple that `u` names holds the empty placeholder,
/// and there are pieces to put in its place.
pub open spec fn is_open<'a>(
    unique: Seq<Vec<Equipment<'a>>>,
    open: Seq<Vec<Equipment<'a>>>,
    u: Seq<int>,
    k: int,
) -> bool {
    open[k]@.len() > 0 && "__empty"@.is_prefix_of(unique[k]@[u[k]].spec_id())
}

/// For each position of the tuple that `u` names, the number of pieces that
/// can stand there when the tuple is widened.
pub open spec fn widths<'a>(
    unique: Seq<Vec<Equipment<'a>>>,
    open: Seq<Vec<Equipment<'a>>>,
    u: Seq<int>,
) -> Seq<int> {
    Seq::new(
        6,
        |k: int|
            if is_open(unique, open, u, k) {
                open[k]@.len() as int
            } else {
                1
            },
    )
}

/// The tuple that `u` names, widened: each open position holds the piece of
/// the second pool that `e` names, the others keep their piece.
pub open spec fn widened<'a>(
    unique: Seq<Vec<Equipment<'a>>>,
    open: Seq<Vec<Equipment<'a>>>,
    u: Seq<int>,
    e: Seq<int>,
) -> Seq<Equipment<'a>> {
    Seq::new(
        6,
        |k: int|
            if is_open(unique, open, u, k) {
                open[k]@[e[k]]
            } else {
                unique[k]@[u[k]]
            },
    )
}

/// The pieces grant every skill of `no_deco` at its level.
pub open spec fn grants_all<'a>(no_deco: Seq<(Seq<char>, i32)>, pieces: Seq<Equipment<'a>>) -> bool {
    left_after(no_deco, pieces, 6).len() == 0
}

/// `a` is made of copies of the six pieces `t`.
pub open spec fn is_copy_tuple<'a>(a: Seq<Equipment<'a>>, t: Seq<Equipment<'a>>) -> bool {
    &&& a.len() == 6
    &&& t.len() == 6
    &&& forall|k: int| 0 <= k < 6 ==> is_copy(#[trigger] a[k], t[k])
}

/// `a` and `t` are six pieces each, with the same identifiers position by
/// position.
pub open spec fn same_ids<'a>(a: Seq<Equipment<'a>>, t: Seq<Equipment<'a>>) -> bool {
    &&& a.len() == 6
    &&& t.len() == 6
    &&& forall|k: int| 0 <= k < 6 ==> (#[trigger] a[k]).spec_id() == t[k].spec_id()
}

/// The bag holds a build of pieces with the identifiers of the pieces `t`.
pub open spec fn holds<'a>(bag: Seq<Candidate<'a>>, t: Seq<Equipment<'a>>) -> bool {
    exists|i: int| 0 <= i < bag.len() && same_ids((#[trigger] bag[i]).equipments@, t)
}

/// The answer holds a build of pieces with the identifiers of the pieces
/// `t`.
pub open spec fn answers<'a>(builds: Seq<SolvedBuild<'a>>, t: Seq<Equipment<'a>>) -> bool {
    exists|i: int| 0 <= i < builds.len() && same_ids((#[trigger] builds[i]).equipments@, t)
}

/// No two builds of the bag have the same identifiers position by
/// position.
pub open spec fn bag_distinct<'a>(bag: Seq<Candidate<'a>>) -> bool {
    forall|i: int, j: int|
        0 <= i < j < bag.len() ==> !same_ids((#[trigger] bag[i]).equipments@, (#[trigger] bag[j]).equipments@)
}

/// Copies of six pieces have their identifiers.
pub proof fn lemma_copies_named<'a>(a: Seq<Equipment<'a>>, t: Seq<Equipment<'a>>)
    requires
        is_copy_tuple(a, t),
    ensures
        same_ids(a, t),
        same_ids(t, a),
{
    assert forall|k: int| 0 <= k < 6 implies (#[trigger] a[k]).spec_id() == t[k].spec_id() by {
        assert(is_copy(a[k], t[k]));
    }
    assert forall|k: int| 0 <= k < 6 implies (#[trigger] t[k]).spec_id() == a[k].spec_id() by {
        assert(is_copy(a[k], t[k]));
    }
}

/// A bag that holds a build with the identifiers of six pieces holds one
/// with the identifiers of any six pieces named alike.
pub proof fn lemma_holds_alike<'a>(bag: Seq<Candidate<'a>>, a: Seq<Equipment<'a>>, t: Seq<Equipment<'a>>)
    requires
        same_ids(a, t),
    ensures
        holds(bag, a) == holds(bag, t),
{
    if holds(bag, a) {
        let i = choose|i: int| 0 <= i < bag.len() && same_ids((#[trigger] bag[i]).equipments@, a);
        let x = bag[i].equipments@;
        assert forall|k: int| 0 <= k < 6 implies (#[trigger] x[k]).spec_id() == t[k].spec_id() by {
            assert(a[k].spec_id() == t[k].spec_id());
        }
        assert(same_ids(bag[i].equipments@, t));
    }
    if holds(bag, t) {
        let i = choose|i: int| 0 <= i < bag.len() && same_ids((#[trigger] bag[i]).equipments@, t);
        let x = bag[i].equipments@;
        assert forall|k: int| 0 <= k < 6 implies (#[trigger] x[k]).spec_id() == a[k].spec_id() by {
            assert(a[k].spec_id() == t[k].spec_id());
        }
        assert(same_ids(bag[i].equipments@, a));
    }
}

/// Whether the bag holds a build of pieces with the identifiers of
/// `pieces`.
fn bag_names<'a>(bag: &Vec<Candidate<'a>>, pieces: &Vec<Equipment<'a>>) -> (b: bool)
    requires
        pieces@.len() == 6,
        forall|i: int| 0 <= i < bag@.len() ==> (#[trigger] bag@[i]).equipments@.len() == 6,
    ensures
        b == holds(bag@, pieces@),
{
    let mut i: usize = 0;
    while i < bag.len()
        invariant
            i <= bag@.len(),
            pieces@.len() == 6,
            forall|j: int| 0 <= j < bag@.len() ==> (#[trigger] bag@[j]).equipments@.len() == 6,
            forall|j: int| 0 <= j < i ==> !same_ids((#[trigger] bag@[j]).equipments@, pieces@),
        decreases bag.len() - i,
    {
        let other = &bag[i].equipments;
        let mut k: usize = 0;
        let mut alike = true;
        while k < 6 && alike
            invariant
                k <= 6,
                other@.len() == 6,
                pieces@.len() == 6,
                alike ==> forall|q: int| 0 <= q < k ==> (#[trigger] other@[q]).spec_id() == pieces@[q].spec_id(),
                !alike ==> !same_ids(other@, pieces@),
            decreases 6 - k + if alike { 1int } else { 0int },
        {
            if *other[k].id() == *pieces[k].id() {
                k += 1;
            } else {
                assert(other@[k as int].spec_id() != pieces@[k as int].spec_id());
                alike = false;
            }
        }
        if alike {
            assert(same_ids(bag@[i as int].equipments@, pieces@));
            return true;
        }
        i += 1;
    }
    false
}

/// The pieces `t` are copies of a tuple that the search tries: a tuple of
/// the first pools that grants every skill of `no_deco`, widened.
pub open spec fn searched<'a>(
    t: Seq<Equipment<'a>>,
    unique: Seq<Vec<Equipment<'a>>>,
    open: Seq<Vec<Equipment<'a>>>,
    no_deco: Seq<(Seq<char>, i32)>,
) -> bool {
    exists|u: Seq<int>, e: Seq<int>|
        #![trigger widened(unique, open, u, e)]
        in_range(u, pool_widths(unique)) && grants_all(no_deco, chosen(unique, u)) && in_range(
            e,
            widths(unique, open, u),
        ) && is_copy_tuple(t, widened(unique, open, u, e))
}

/// Every build of the bag is made of copies of a tuple that the search
/// tries.
pub open spec fn bag_searched<'a>(
    bag: Seq<Candidate<'a>>,
    unique: Seq<Vec<Equipment<'a>>>,
    open: Seq<Vec<Equipment<'a>>>,
    no_deco: Seq<(Seq<char>, i32)>,
) -> bool {
    forall|i: int| 0 <= i < bag.len() ==> searched((#[trigger] bag[i]).equipments@, unique, open, no_deco)
}

/// `c` is an accepted build of the search for the requirement `req`.
pub open spec fn cand_ok<'a>(
    c: Candidate<'a>,
    weapon: Seq<i32>,
    req: Seq<(Seq<char>, i32)>,
    free: Seq<i32>,
    dm: &DataManager,
    sex: SexType,
) -> bool {
    &&& pieces_ok(c.equipments@, dm, sex)
    &&& acceptable(c.equipments@, weapon, req, free, dm)
    &&& candidate_of(c, c.equipments@, weapon, req, free, dm)
}

/// The bag holds accepted builds of the search, best score first, no two
/// with the same identifiers, and no more than `MAX_ANSWER_LENGTH`.
pub open spec fn bag_ok<'a>(
    bag: Seq<Candidate<'a>>,
    weapon: Seq<i32>,
    req: Seq<(Seq<char>, i32)>,
    free: Seq<i32>,
    dm: &DataManager,
    sex: SexType,
) -> bool {
    &&& sorted_desc(bag)
    &&& bag_distinct(bag)
    &&& bag.len() <= MAX_ANSWER_LENGTH
    &&& forall|i: int| 0 <= i < bag.len() ==> cand_ok(#[trigger] bag[i], weapon, req, free, dm, sex)
}

/// `b` is a build of the answer to the search for the requirement `req`
/// with a weapon of the socket sizes `weapon` and the sockets `free` to
/// leave free: six pieces of the catalog that meet the requirement, the
/// sockets that they and the weapon have, the sockets left once the free
/// ones were set aside, what the pieces leave of the requirement, the score
/// of the sockets that stay spare, and the packings that meet what is left
/// within the sockets left.
pub open spec fn build_ok<'a>(
    b: SolvedBuild<'a>,
    weapon: Seq<i32>,
    req: Seq<(Seq<char>, i32)>,
    free: Seq<i32>,
    dm: &DataManager,
    sex: SexType,
) -> bool {
    &&& pieces_ok(b.equipments@, dm, sex)
    &&& acceptable(b.equipments@, weapon, req, free, dm)
    &&& b.avail_slots@ == avail_vec(weapon, b.equipments@)
    &&& b.rest_slots@ == free_rest(b.avail_slots@, free)
    &&& b.residual.entries() == left_after(req, b.equipments@, 6)
    &&& b.score == slot_point(spare_of(b.equipments@, weapon, req, free, dm))
    &&& packings_of(b.deco_combs@, b.residual.entries(), &dm.deco_combinations, b.rest_slots@)
}

/// Every build that meets the requirement and is made by widening the
/// tuple that `u` names is held by the bag.
pub open spec fn widened_held<'a>(
    bag: Seq<Candidate<'a>>,
    unique: Seq<Vec<Equipment<'a>>>,
    open: Seq<Vec<Equipment<'a>>>,
    u: Seq<int>,
    weapon: Seq<i32>,
    req: Seq<(Seq<char>, i32)>,
    free: Seq<i32>,
    dm: &DataManager,
) -> bool {
    forall|e: Seq<int>|
        #[trigger] in_range(e, widths(unique, open, u)) && acceptable(
            widened(unique, open, u, e),
            weapon,
            req,
            free,
            dm,
        ) ==> holds(bag, widened(unique, open, u, e))
}

/// Pieces with the same sockets have the same sockets together.
pub proof fn lemma_total_slots_same<'a>(a: Seq<Equipment<'a>>, b: Seq<Equipment<'a>>, k: int, s: int)
    requires
        0 <= k <= a.len(),
        k <= b.len(),
        forall|j: int| 0 <= j < k ==> (#[trigger] a[j]).spec_slots() == b[j].spec_slots(),
    ensures
        total_slots(a, k, s) == total_slots(b, k, s),
    decreases k,
{
    if k > 0 {
        lemma_total_slots_same(a, b, k - 1, s);
    }
}

/// Pieces with the same skills leave the same of a requirement.
pub proof fn lemma_left_after_same<'a>(
    req: Seq<(Seq<char>, i32)>,
    a: Seq<Equipment<'a>>,
    b: Seq<Equipment<'a>>,
    k: int,
)
    requires
        0 <= k <= a.len(),
        k <= b.len(),
        forall|j: int| 0 <= j < k ==> (#[trigger] a[j]).spec_skills() == b[j].spec_skills(),
    ensures
        left_after(req, a, k) == left_after(req, b, k),
    decreases k,
{
    if k > 0 {
        lemma_left_after_same(req, a, b, k - 1);
    }
}

/// Whether a build meets a requirement depends on the skills and sockets of
/// its pieces alone.
pub proof fn lemma_acceptable_same<'a>(
    a: Seq<Equipment<'a>>,
    b: Seq<Equipment<'a>>,
    weapon: Seq<i32>,
    req: Seq<(Seq<char>, i32)>,
    free: Seq<i32>,
    dm: &DataManager,
)
    requires
        is_copy_tuple(a, b),
    ensures
        acceptable(a, weapon, req, free, dm) == acceptable(b, weapon, req, free, dm),
        left_after(req, a, 6) == left_after(req, b, 6),
{
    assert forall|j: int| 0 <= j < 6 implies (#[trigger] a[j]).spec_slots() == b[j].spec_slots()
        && a[j].spec_skills() == b[j].spec_skills() by {
        assert(is_copy(a[j], b[j]));
    }
    lemma_left_after_same(req, a, b, 6);
    assert forall|s: int|
        #![trigger build_slots(weapon, a, s)]
        #![trigger build_slots(weapon, b, s)]
        0 <= s < 4 implies build_slots(weapon, a, s) == build_slots(weapon, b, s) by {
        lemma_total_slots_same(a, b, 6, s);
    }
    assert(avail_vec(weapon, a) =~= avail_vec(weapon, b));
    assert(left_after(req, a, a.len() as int) == left_after(req, b, b.len() as int));
}

/// A build that the bag holds is held by the bag with one more build.
pub proof fn lemma_holds_insert<'a>(
    bag: Seq<Candidate<'a>>,
    pos: int,
    c: Candidate<'a>,
    t: Seq<Equipment<'a>>,
)
    requires
        0 <= pos <= bag.len(),
        holds(bag, t) || same_ids(c.equipments@, t),
    ensures
        holds(bag.insert(pos, c), t),
{
    let now = bag.insert(pos, c);
    if same_ids(c.equipments@, t) {
        assert(now[pos] == c);
    } else {
        let i = choose|i: int| 0 <= i < bag.len() && same_ids((#[trigger] bag[i]).equipments@, t);
        if i < pos {
            assert(now[i] == bag[i]);
        } else {
            assert(now[i + 1] == bag[i]);
        }
    }
}

/// The entries of a requirement with a level above zero.
pub fn asked_part(req: &StrMap<i32>) -> (r: StrMap<i32>)
    ensures
        r.entries() == asked(req.entries(), req.entries().len() as int),
        levels_nonneg(r.entries()),
{
    let ghost e = req.entries();
    let mut r: StrMap<i32> = StrMap::new();
    let n = req.len();
    let mut i: usize = 0;
    while i < n
        invariant
            i <= n,
            n == e.len(),
            e == req.entries(),
            distinct_keys(e),
            r.wf(),
            r.entries() == asked(e, i as int),
            levels_nonneg(r.entries()),
            forall|id: Seq<char>| #[trigger]
                has_key(r.entries(), id) ==> exists|j: int| 0 <= j < i && (#[trigger] e[j]).0 == id,
        decreases n - i,
    {
        let id = req.key_at(i);
        let level = *req.value_at(i);
        if level >= 1 {
            proof {
                if has_key(r.entries(), id@) {
                    let j = choose|j: int| 0 <= j < i && (#[trigger] e[j]).0 == id@;
                    assert(e[j].0 != e[i as int].0);
                }
            }
            let ghost before = r.entries();
            r.insert(id.clone(), level);
            proof {
                let now = r.entries();
                assert forall|a: int| 0 <= a < now.len() implies 0 <= (#[trigger] now[a]).1 by {
                    if a < before.len() {
                        assert(now[a] == before[a]);
                    }
                }
                assert forall|k: Seq<char>| #[trigger] has_key(now, k) implies exists|j: int|
                    0 <= j < i + 1 && (#[trigger] e[j]).0 == k by {
                    let a = key_index(now, k);
                    if a < before.len() {
                        assert(now[a] == before[a]);
                        assert(has_key(before, k));
                        let j = choose|j: int| 0 <= j < i && (#[trigger] e[j]).0 == k;
                        assert(0 <= j < i + 1);
                    } else {
                        assert(e[i as int].0 == k);
                    }
                }
            }
        } else {
            proof {
                assert forall|k: Seq<char>| #[trigger] has_key(r.entries(), k) implies exists|j: int|
                    0 <= j < i + 1 && (#[trigger] e[j]).0 == k by {
                    let j = choose|j: int| 0 <= j < i && (#[trigger] e[j]).0 == k;
                    assert(0 <= j < i + 1);
                }
            }
        }
        i += 1;
    }
    r
}

/// The number of pieces of each pool.
fn pool_lens<'a>(pools: &Vec<Vec<Equipment<'a>>>) -> (lens: Vec<usize>)
    ensures
        lens@.len() == pools@.len(),
        forall|k: int| 0 <= k < lens@.len() ==> #[trigger] lens@[k] == pools@[k]@.len(),
        ints(lens@) == pool_widths(pools@),
{
    let mut lens: Vec<usize> = Vec::new();
    let mut k: usize = 0;
    while k < pools.len()
        invariant
            k <= pools@.len(),
            lens@.len() == k,
            forall|j: int| 0 <= j < k ==> #[trigger] lens@[j] == pools@[j]@.len(),
        decreases pools.len() - k,
    {
        lens.push(pools[k].len());
        k += 1;
    }
    assert(ints(lens@) =~= pool_widths(pools@));
    lens
}

/// Whether every number is at least one.
fn all_positive(lens: &Vec<usize>) -> (b: bool)
    ensures
        b == positive(ints(lens@)),
{
    let mut k: usize = 0;
    while k < lens.len()
        invariant
            k <= lens@.len(),
            forall|j: int| 0 <= j < k ==> 1 <= #[trigger] ints(lens@)[j],
        decreases lens.len() - k,
    {
        if lens[k] == 0 {
            assert(ints(lens@)[k as int] == 0);
            return false;
        }
        assert(ints(lens@)[k as int] == lens@[k as int]);
        k += 1;
    }
    true
}

/// The pool from which position `k` takes its piece: the first pool where
/// the position is fixed, the second where it is not.
pub open spec fn pool_at<'a>(
    unique: Seq<Vec<Equipment<'a>>>,
    open: Seq<Vec<Equipment<'a>>>,
    fixed: Seq<bool>,
    k: int,
) -> Seq<Equipment<'a>> {
    if fixed[k] {
        unique[k]@
    } else {
        open[k]@
    }
}

/// The pieces that the picks name, each out of the pool of its position.
pub open spec fn picked<'a>(
    unique: Seq<Vec<Equipment<'a>>>,
    open: Seq<Vec<Equipment<'a>>>,
    fixed: Seq<bool>,
    pick: Seq<int>,
) -> Seq<Equipment<'a>> {
    Seq::new(6, |k: int| pool_at(unique, open, fixed, k)[pick[k]])
}

/// Copies of the pieces that the picks name: for each position the piece
/// at the position's pick, out of the first pool where the position is
/// fixed and out of the second where it is not. `None` where a pick names
/// no piece.
fn assemble<'a>(
    unique: &Vec<Vec<Equipment<'a>>>,
    open: &Vec<Vec<Equipment<'a>>>,
    fixed: &Vec<bool>,
    pick: &Vec<usize>,
    Ghost(dm): Ghost<&DataManager>,
    Ghost(sex): Ghost<SexType>,
) -> (r: Option<Vec<Equipment<'a>>>)
    requires
        pools_ok(unique@, dm, sex),
        pools_ok(open@, dm, sex),
    ensures
        r is Some <==> fixed@.len() == 6 && pick@.len() == 6 && forall|k: int|
            0 <= k < 6 ==> #[trigger] pick@[k] < pool_at(unique@, open@, fixed@, k).len(),
        r matches Some(pieces) ==> pieces_ok(pieces@, dm, sex) && is_copy_tuple(
            pieces@,
            picked(unique@, open@, fixed@, ints(pick@)),
        ),
{
    if fixed.len() != 6 || pick.len() != 6 {
        return None;
    }
    let mut pieces: Vec<Equipment<'a>> = Vec::new();
    let mut k: usize = 0;
    while k < 6
        invariant
            k <= 6,
            fixed@.len() == 6,
            pick@.len() == 6,
            pools_ok(unique@, dm, sex),
            pools_ok(open@, dm, sex),
            pieces@.len() == k,
            forall|j: int| 0 <= j < k ==> #[trigger] pick@[j] < pool_at(unique@, open@, fixed@, j).len(),
            forall|j: int|
                0 <= j < k ==> piece_ok(#[trigger] pieces@[j], dm, j, sex) && is_copy(
                    pieces@[j],
                    pool_at(unique@, open@, fixed@, j)[pick@[j] as int],
                ),
        decreases 6 - k,
    {
        let pool = if fixed[k] {
            &unique[k]
        } else {
            &open[k]
        };
        assert(pool@ == pool_at(unique@, open@, fixed@, k as int));
        assert(pool_ok(pool@, dm, k as int, sex));
        if pick[k] >= pool.len() {
            return None;
        }
        let copy = clone_piece(&pool[pick[k]]);
        let ghost before = pieces@;
        pieces.push(copy);
        proof {
            lemma_copy_ok(copy, pool@[pick@[k as int] as int], dm, k as int, sex);
            assert forall|j: int| 0 <= j < k + 1 implies piece_ok(#[trigger] pieces@[j], dm, j, sex)
                && is_copy(pieces@[j], pool_at(unique@, open@, fixed@, j)[pick@[j] as int]) by {
                if j < k {
                    assert(pieces@[j] == before[j]);
                }
            }
        }
        k += 1;
    }
    proof {
        let t = picked(unique@, open@, fixed@, ints(pick@));
        assert forall|j: int| 0 <= j < 6 implies is_copy(#[trigger] pieces@[j], t[j]) by {
            assert(ints(pick@)[j] == pick@[j]);
        }
    }
    Some(pieces)
}

/// A score within the range in which six scores can be added up.
fn clamp_score(x: i128) -> (r: i64)
    ensures
        r == clamped(x as int),
{
    if x > 0x1000_0000_0000_0000 {
        0x1000_0000_0000_0000
    } else if x < -0x1000_0000_0000_0000 {
        -0x1000_0000_0000_0000
    } else {
        x as i64
    }
}

/// Every skill with a decoration is listed with its decorations.
pub open spec fn decos_listed(yes_deco: Map<Seq<char>, i32>, dm: &DataManager) -> bool {
    forall|k: Seq<char>| #[trigger] yes_deco.contains_key(k) ==> dm.deco_count(k) > 0
}

/// A score, kept within the range in which six of them can be added.
pub open spec fn clamped(x: int) -> int {
    if x > 0x1000_0000_0000_0000 {
        0x1000_0000_0000_0000
    } else if x < -0x1000_0000_0000_0000 {
        -0x1000_0000_0000_0000
    } else {
        x
    }
}

/// The sum of the scores of the first `k` pieces, each kept within range.
pub open spec fn tuple_points<'a>(
    pieces: Seq<Equipment<'a>>,
    k: int,
    decos: Map<Seq<char>, Vec<Decoration>>,
    yes: Map<Seq<char>, i32>,
    no: Map<Seq<char>, i32>,
) -> int
    decreases k,
{
    if k <= 0 {
        0
    } else {
        tuple_points(pieces, k - 1, decos, yes, no) + clamped(
            piece_point(pieces[k - 1].spec_skills(), pieces[k - 1].spec_slots(), decos, yes, no),
        )
    }
}

/// Pieces with the same skills and sockets score the same.
proof fn lemma_points_same<'a>(
    a: Seq<Equipment<'a>>,
    b: Seq<Equipment<'a>>,
    k: int,
    decos: Map<Seq<char>, Vec<Decoration>>,
    yes: Map<Seq<char>, i32>,
    no: Map<Seq<char>, i32>,
)
    requires
        0 <= k <= a.len(),
        k <= b.len(),
        forall|j: int|
            0 <= j < k ==> (#[trigger] a[j]).spec_skills() == b[j].spec_skills() && a[j].spec_slots()
                == b[j].spec_slots(),
    ensures
        tuple_points(a, k, decos, yes, no) == tuple_points(b, k, decos, yes, no),
    decreases k,
{
    if k > 0 {
        lemma_points_same(a, b, k - 1, decos, yes, no);
        assert(a[k - 1].spec_skills() == b[k - 1].spec_skills());
    }
}

/// The sum of the scores of the pieces, each kept within range.
fn tuple_score<'a>(
    pieces: &Vec<Equipment<'a>>,
    dm: &DataManager,
    yes_deco: &StrMap<i32>,
    no_deco: &StrMap<i32>,
) -> (score: i64)
    requires
        decos_listed(yes_deco@, dm),
        pieces@.len() <= 6,
    ensures
        score == tuple_points(
            pieces@,
            pieces@.len() as int,
            dm.decos_by_skill@,
            yes_deco@,
            no_deco@,
        ),
{
    let mut score: i64 = 0;
    let mut k: usize = 0;
    while k < pieces.len()
        invariant
            k <= pieces@.len(),
            pieces@.len() <= 6,
            decos_listed(yes_deco@, dm),
            -(k * 0x1000_0000_0000_0000) <= score <= k * 0x1000_0000_0000_0000,
            score == tuple_points(pieces@, k as int, dm.decos_by_skill@, yes_deco@, no_deco@),
        decreases pieces.len() - k,
    {
        proof {
            let skills = pieces@[k as int].spec_skills();
            assert forall|i: int|
                0 <= i < skills.len() && yes_deco@.contains_key((#[trigger] skills[i]).0) implies dm.decos_by_skill@.contains_key(
                skills[i].0,
            ) && dm.decos_by_skill@[skills[i].0]@.len() > 0 by {
                assert(dm.deco_count(skills[i].0) > 0);
            }
        }
        let point = pieces[k].get_point_wide(&dm.decos_by_skill, yes_deco, no_deco);
        score = score + clamp_score(point);
        k += 1;
    }
    score
}

/// The list is in the order of the search: best score first, tuples of one
/// score in the order of the counter.
pub open spec fn in_search_order(list: Seq<(i64, Vec<usize>)>, radices: Seq<int>) -> bool {
    forall|i: int, j: int|
        0 <= i < j < list.len() ==> (#[trigger] list[i]).0 > (#[trigger] list[j]).0 || (list[i].0
            == list[j].0 && rank(ints(list[i].1@), radices, 6) < rank(ints(list[j].1@), radices, 6))
}

/// Enters a tuple that the counter reaches after all tuples of the list:
/// behind the tuples that score as much or more.
fn insert_tuple(
    r: &mut Vec<(i64, Vec<usize>)>,
    score: i64,
    digits: Vec<usize>,
    Ghost(radices): Ghost<Seq<int>>,
) -> (pos: usize)
    requires
        in_search_order(old(r)@, radices),
        forall|i: int|
            0 <= i < old(r)@.len() ==> rank(ints((#[trigger] old(r)@[i]).1@), radices, 6) < rank(
                ints(digits@),
                radices,
                6,
            ),
    ensures
        pos <= old(r)@.len(),
        final(r)@ == old(r)@.insert(pos as int, (score, digits)),
        in_search_order(final(r)@, radices),
{
    let ghost before = r@;
    let mut pos: usize = r.len();
    while pos > 0 && r[pos - 1].0 < score
        invariant
            pos <= r@.len(),
            r@ == before,
            forall|j: int| pos <= j < r@.len() ==> (#[trigger] r@[j]).0 < score,
        decreases pos,
    {
        pos -= 1;
    }
    let entry = (score, digits);
    r.insert(pos, entry);
    proof {
        let now = r@;
        assert(now == before.insert(pos as int, entry));
        assert forall|i: int| 0 <= i < pos implies (#[trigger] before[i]).0 >= score by {
            if i < pos - 1 {
                assert(before[i].0 > before[pos - 1].0 || before[i].0 == before[pos - 1].0);
            }
        }
        assert forall|i: int, j: int| 0 <= i < j < now.len() implies (#[trigger] now[i]).0 > (
        #[trigger] now[j]).0 || (now[i].0 == now[j].0 && rank(ints(now[i].1@), radices, 6) < rank(
            ints(now[j].1@),
            radices,
            6,
        )) by {
            let a = if i < pos {
                i
            } else {
                i - 1
            };
            let b = if j < pos {
                j
            } else {
                j - 1
            };
            if i == pos {
                assert(now[j] == before[b]);
                assert(before[b].0 < score);
            } else if j == pos {
                assert(now[i] == before[a]);
                assert(before[a].0 >= score);
            } else {
                assert(now[i] == before[a]);
                assert(now[j] == before[b]);
                assert(a < b);
            }
        }
    }
    pos
}

/// The list names the tuple `u`.
pub open spec fn names(list: Seq<(i64, Vec<usize>)>, u: Seq<int>) -> bool {
    exists|i: int| 0 <= i < list.len() && ints((#[trigger] list[i]).1@) == u
}

/// The tuples of the first pools that grant every skill of `no_deco` at the
/// required level, each by the positions of its pieces in their pools, best
/// score first; tuples of one score in the order of the counter.
fn unique_tuples<'a>(
    unique: &Vec<Vec<Equipment<'a>>>,
    no_deco: &StrMap<i32>,
    yes_deco: &StrMap<i32>,
    dm: &DataManager,
    Ghost(sex): Ghost<SexType>,
) -> (r: Vec<(i64, Vec<usize>)>)
    requires
        pools_ok(unique@, dm, sex),
        levels_nonneg(no_deco.entries()),
        decos_listed(yes_deco@, dm),
    ensures
        forall|i: int|
            0 <= i < r@.len() ==> in_range(ints((#[trigger] r@[i]).1@), pool_widths(unique@))
                && grants_all(no_deco.entries(), chosen(unique@, ints(r@[i].1@))),
        forall|u: Seq<int>|
            #[trigger] in_range(u, pool_widths(unique@)) && grants_all(
                no_deco.entries(),
                chosen(unique@, u),
            ) ==> names(r@, u),
        in_search_order(r@, pool_widths(unique@)),
        forall|i: int|
            0 <= i < r@.len() ==> (#[trigger] r@[i]).0 == tuple_points(
                chosen(unique@, ints(r@[i].1@)),
                6,
                dm.decos_by_skill@,
                yes_deco@,
                no_deco@,
            ),
{
    let mut r: Vec<(i64, Vec<usize>)> = Vec::new();
    let lens = pool_lens(unique);
    let ghost radices = ints(lens@);
    if !all_positive(&lens) {
        proof {
            assert forall|u: Seq<int>|
                #[trigger] in_range(u, pool_widths(unique@)) && grants_all(
                    no_deco.entries(),
                    chosen(unique@, u),
                ) implies names(r@, u) by {
                let k = choose|k: int| 0 <= k < radices.len() && !(1 <= #[trigger] radices[k]);
                assert(0 <= u[k] < radices[k]);
            }
        }
        return r;
    }
    let mut digits = zero_counter(6);
    let always = all_fixed();
    let ghost mut step: int = 0;
    let mut more = true;
    proof {
        assert forall|i: int| 0 <= i < 6 implies 0 <= #[trigger] ints(digits@)[i] < radices[i] by {
            assert(digits@[i] == 0);
            assert(1 <= radices[i]);
        }
        assert forall|i: int| 0 <= i < 6 implies #[trigger] ints(digits@)[i] == 0 by {
            assert(digits@[i] == 0);
        }
        lemma_rank_zero(ints(digits@), radices, 6);
        lemma_weight_pos(radices, 6);
        assert forall|u: Seq<int>|
            #[trigger] in_range(u, radices) && rank(u, radices, 6) < 0 && grants_all(
                no_deco.entries(),
                chosen(unique@, u),
            ) implies names(r@, u) by {
            lemma_rank_bound(u, radices, 6);
        }
    }
    while more
        invariant
            lens@.len() == 6,
            radices == ints(lens@),
            radices == pool_widths(unique@),
            positive(radices),
            pools_ok(unique@, dm, sex),
            levels_nonneg(no_deco.entries()),
            decos_listed(yes_deco@, dm),
            always@.len() == 6,
            forall|k: int| 0 <= k < 6 ==> #[trigger] always@[k],
            in_range(ints(digits@), radices),
            more ==> rank(ints(digits@), radices, 6) == step,
            0 <= step <= weight(radices, 6),
            more ==> step < weight(radices, 6),
            !more ==> step == weight(radices, 6),
            forall|i: int|
                0 <= i < r@.len() ==> in_range(ints((#[trigger] r@[i]).1@), radices) && grants_all(
                    no_deco.entries(),
                    chosen(unique@, ints(r@[i].1@)),
                ),
            in_search_order(r@, radices),
            forall|i: int| 0 <= i < r@.len() ==> rank(ints((#[trigger] r@[i]).1@), radices, 6) < step,
            forall|i: int|
                0 <= i < r@.len() ==> (#[trigger] r@[i]).0 == tuple_points(
                    chosen(unique@, ints(r@[i].1@)),
                    6,
                    dm.decos_by_skill@,
                    yes_deco@,
                    no_deco@,
                ),
            forall|u: Seq<int>|
                #[trigger] in_range(u, radices) && rank(u, radices, 6) < step && grants_all(
                    no_deco.entries(),
                    chosen(unique@, u),
                ) ==> names(r@, u),
        decreases weight(radices, 6) - step,
    {
        let ghost here = ints(digits@);
        let ghost before = r@;
        proof {
            assert forall|k: int| 0 <= k < 6 implies #[trigger] digits@[k] < pool_at(
                unique@,
                unique@,
                always@,
                k,
            ).len() by {
                assert(0 <= here[k] < radices[k]);
            }
        }
        match assemble(unique, unique, &always, &digits, Ghost(dm), Ghost(sex)) {
            Some(pieces) => {
                proof {
                    assert(picked(unique@, unique@, always@, here) =~= chosen(unique@, here));
                    lemma_acceptable_same(
                        pieces@,
                        chosen(unique@, here),
                        Seq::empty(),
                        no_deco.entries(),
                        Seq::empty(),
                        dm,
                    );
                }
                let left = residual_after(no_deco, &pieces);
                if left.len() == 0 {
                    let score = tuple_score(&pieces, dm, yes_deco, no_deco);
                    proof {
                        assert forall|j: int| 0 <= j < 6 implies (#[trigger] pieces@[j]).spec_skills()
                            == chosen(unique@, here)[j].spec_skills() && pieces@[j].spec_slots()
                            == chosen(unique@, here)[j].spec_slots() by {
                            assert(is_copy(pieces@[j], chosen(unique@, here)[j]));
                        }
                        lemma_points_same(
                            pieces@,
                            chosen(unique@, here),
                            6,
                            dm.decos_by_skill@,
                            yes_deco@,
                            no_deco@,
                        );
                    }
                    let copy = copy_digits(&digits);
                    let pos = insert_tuple(&mut r, score, copy, Ghost(radices));
                    proof {
                        let now = r@;
                        let entry = (score, copy);
                        assert(now[pos as int] == entry);
                        assert(ints(entry.1@) == here);
                        assert(grants_all(no_deco.entries(), chosen(unique@, here)));
                        assert forall|i: int| 0 <= i < now.len() implies in_range(
                            ints((#[trigger] now[i]).1@),
                            radices,
                        ) && grants_all(no_deco.entries(), chosen(unique@, ints(now[i].1@))) && rank(
                            ints(now[i].1@),
                            radices,
                            6,
                        ) < step + 1 && now[i].0 == tuple_points(
                            chosen(unique@, ints(now[i].1@)),
                            6,
                            dm.decos_by_skill@,
                            yes_deco@,
                            no_deco@,
                        ) by {
                            if i < pos {
                                assert(now[i] == before[i]);
                            } else if i > pos {
                                assert(now[i] == before[i - 1]);
                            }
                        }
                    }
                }
            },
            None => {},
        }
        proof {
            let now = r@;
            assert forall|u: Seq<int>|
                #[trigger] in_range(u, radices) && rank(u, radices, 6) < step + 1 && grants_all(
                    no_deco.entries(),
                    chosen(unique@, u),
                ) implies names(now, u) by {
                if rank(u, radices, 6) < step {
                    assert(names(before, u));
                    let i = choose|i: int| 0 <= i < before.len() && ints((#[trigger] before[i]).1@) == u;
                    if now.len() == before.len() {
                        assert(now == before);
                    } else {
                        let pos = choose|pos: int| 0 <= pos <= before.len() && now == before.insert(pos, now[pos]);
                        if i < pos {
                            assert(now[i] == before[i]);
                        } else {
                            assert(now[i + 1] == before[i]);
                        }
                    }
                } else {
                    lemma_rank_injective(u, here, radices, 6);
                    assert(u =~= here);
                    assert(now.len() == before.len() + 1);
                    let pos = choose|pos: int| 0 <= pos <= before.len() && now == before.insert(pos, now[pos]) && ints(now[pos].1@) == here;
                    assert(ints(now[pos].1@) == u);
                }
            }
        }
        more = advance(&mut digits, &lens);
        proof {
            step = step + 1;
            lemma_rank_bound(ints(digits@), radices, 6);
        }
    }
    proof {
        assert forall|u: Seq<int>|
            #[trigger] in_range(u, pool_widths(unique@)) && grants_all(
                no_deco.entries(),
                chosen(unique@, u),
            ) implies names(r@, u) by {
            lemma_rank_bound(u, radices, 6);
        }
    }
    r
}

/// Six times `true`.
fn all_fixed() -> (v: Vec<bool>)
    ensures
        v@.len() == 6,
        forall|k: int| 0 <= k < 6 ==> #[trigger] v@[k],
{
    let mut v: Vec<bool> = Vec::new();
    v.push(true);
    v.push(true);
    v.push(true);
    v.push(true);
    v.push(true);
    v.push(true);
    v
}

/// A copy of a vector of positions.
fn copy_digits(v: &Vec<usize>) -> (r: Vec<usize>)
    ensures
        r@ == v@,
{
    let mut r: Vec<usize> = Vec::new();
    let mut i: usize = 0;
    while i < v.len()
        invariant
            i <= v@.len(),
            r@ == v@.subrange(0, i as int),
        decreases v.len() - i,
    {
        r.push(v[i]);
        assert(r@ =~= v@.subrange(0, i + 1));
        i += 1;
    }
    assert(v@.subrange(0, v@.len() as int) =~= v@);
    r
}

/// `order` lists the position `k`.
pub open spec fn lists_position(order: Seq<usize>, k: int) -> bool {
    exists|j: int| 0 <= j < order.len() && #[trigger] order[j] == k
}

/// `order` lists each of the positions `0..n` once.
pub open spec fn is_order(order: Seq<usize>, n: int) -> bool {
    &&& order.len() == n
    &&& forall|j: int| 0 <= j < n ==> #[trigger] order[j] < n
    &&& forall|a: int, b: int| 0 <= a < b < n ==> #[trigger] order[a] != #[trigger] order[b]
    &&& forall|k: int| 0 <= k < n ==> #[trigger] lists_position(order, k)
}

/// Where position `k` goes into the turn order `order`: before the
/// positions at its end that have smaller numbers, looking back from
/// `pos`.
pub open spec fn turn_pos(order: Seq<int>, lens: Seq<int>, k: int, pos: int) -> int
    decreases pos,
{
    if pos > 0 && lens[order[pos - 1]] < lens[k] {
        turn_pos(order, lens, k, pos - 1)
    } else {
        pos
    }
}

/// The order in which the first `k` positions turn: those with the larger
/// numbers first, positions with the same number in their own order.
pub open spec fn turn_order(lens: Seq<int>, k: int) -> Seq<int>
    decreases k,
{
    if k <= 0 {
        Seq::empty()
    } else {
        let before = turn_order(lens, k - 1);
        before.insert(turn_pos(before, lens, k - 1, before.len() as int), k - 1)
    }
}

/// The positions `0..lens.len()`, those with the larger numbers first;
/// positions with one number stay in their order.
fn order_by_len(lens: &Vec<usize>) -> (order: Vec<usize>)
    ensures
        is_order(order@, lens@.len() as int),
        ints(order@) == turn_order(ints(lens@), lens@.len() as int),
{
    let mut order: Vec<usize> = Vec::new();
    let mut k: usize = 0;
    proof {
        assert(ints(order@) =~= turn_order(ints(lens@), 0));
    }
    while k < lens.len()
        invariant
            k <= lens@.len(),
            is_order(order@, k as int),
            ints(order@) == turn_order(ints(lens@), k as int),
        decreases lens.len() - k,
    {
        let mut pos: usize = order.len();
        while pos > 0 && lens[order[pos - 1]] < lens[k]
            invariant
                pos <= order@.len(),
                k < lens@.len(),
                is_order(order@, k as int),
                turn_pos(ints(order@), ints(lens@), k as int, order@.len() as int) == turn_pos(
                    ints(order@),
                    ints(lens@),
                    k as int,
                    pos as int,
                ),
            decreases pos,
        {
            assert(order@[pos - 1] < k);
            assert(ints(order@)[pos - 1] == order@[pos - 1]);
            assert(ints(lens@)[order@[pos - 1] as int] == lens@[order@[pos - 1] as int]);
            assert(ints(lens@)[k as int] == lens@[k as int]);
            pos -= 1;
        }
        let ghost before = order@;
        proof {
            if pos > 0 {
                assert(order@[pos - 1] < k);
                assert(ints(order@)[pos - 1] == order@[pos - 1]);
                assert(ints(lens@)[order@[pos - 1] as int] == lens@[order@[pos - 1] as int]);
                assert(ints(lens@)[k as int] == lens@[k as int]);
            }
            assert(turn_pos(ints(before), ints(lens@), k as int, before.len() as int) == pos);
        }
        order.insert(pos, k);
        proof {
            assert(ints(order@) =~= ints(before).insert(pos as int, k as int));
            let now = order@;
            assert forall|j: int| 0 <= j < k + 1 implies #[trigger] now[j] < k + 1 by {
                if j < pos {
                    assert(now[j] == before[j]);
                } else if j > pos {
                    assert(now[j] == before[j - 1]);
                }
            }
            assert forall|a: int, b: int| 0 <= a < b < k + 1 implies #[trigger] now[a] != #[trigger] now[b] by {
                let a0 = if a < pos { a } else { a - 1 };
                let b0 = if b < pos { b } else { b - 1 };
                if a != pos {
                    assert(now[a] == before[a0]);
                    assert(before[a0] < k);
                }
                if b != pos {
                    assert(now[b] == before[b0]);
                    assert(before[b0] < k);
                }
                if a != pos && b != pos {
                    assert(a0 < b0);
                    assert(before[a0] != before[b0]);
                }
            }
            assert forall|q: int| 0 <= q < k + 1 implies #[trigger] lists_position(now, q) by {
                if q < k {
                    assert(lists_position(before, q));
                    let j = choose|j: int| 0 <= j < k && #[trigger] before[j] == q;
                    if j < pos {
                        assert(now[j] == q);
                    } else {
                        assert(now[j + 1] == q);
                    }
                } else {
                    assert(now[pos as int] == q);
                }
            }
        }
        k += 1;
    }
    order
}

/// The picks that the counter `d` stands for: a fixed position keeps the
/// pick of `u`, an open position takes the digit that turns for it.
pub open spec fn picks_of(order: Seq<usize>, fixed: Seq<bool>, u: Seq<int>, d: Seq<int>) -> Seq<int> {
    Seq::new(
        6,
        |k: int|
            if fixed[k] {
                u[k]
            } else {
                d[choose|j: int| 0 <= j < 6 && #[trigger] order[j] == k]
            },
    )
}

/// The walk over the widenings of the tuple that `u` names is set up: the
/// positions turn in the turn order `order`, `fixed` tells the positions
/// that keep their piece, and `radices` holds the number of pieces of each
/// position in the turn order.
pub open spec fn walk_set<'a>(
    unique: Seq<Vec<Equipment<'a>>>,
    open: Seq<Vec<Equipment<'a>>>,
    u: Seq<int>,
    order: Seq<usize>,
    fixed: Seq<bool>,
    radices: Seq<int>,
) -> bool {
    let wide = widths(unique, open, u);
    &&& is_order(order, 6)
    &&& ints(order) == turn_order(wide, 6)
    &&& fixed.len() == 6
    &&& forall|i: int| 0 <= i < 6 ==> #[trigger] fixed[i] == !is_open(unique, open, u, i)
    &&& radices.len() == 6
    &&& forall|j: int| 0 <= j < 6 ==> #[trigger] radices[j] == wide[order[j] as int]
}

/// The counter of the walk at a widening: its digits are within the
/// radices, its value is the number of the widening, and it stands for the
/// pieces of the widening.
proof fn lemma_walk_digits<'a>(
    unique: Seq<Vec<Equipment<'a>>>,
    open: Seq<Vec<Equipment<'a>>>,
    u: Seq<int>,
    order: Seq<usize>,
    fixed: Seq<bool>,
    radices: Seq<int>,
    e: Seq<int>,
)
    requires
        walk_set(unique, open, u, order, fixed, radices),
        in_range(e, widths(unique, open, u)),
    ensures
        in_range(turned(ints(order), e), radices),
        rank(turned(ints(order), e), radices, 6) == walk_rank(unique, open, u, e),
        picked(unique, open, fixed, picks_of(order, fixed, u, turned(ints(order), e))) == widened(
            unique,
            open,
            u,
            e,
        ),
{
    let wide = widths(unique, open, u);
    let d = turned(ints(order), e);
    assert(radices =~= turned(ints(order), wide)) by {
        assert forall|j: int| 0 <= j < 6 implies #[trigger] radices[j] == turned(ints(order), wide)[j] by {
            assert(ints(order)[j] == order[j]);
        }
    }
    assert forall|j: int| 0 <= j < 6 implies 0 <= #[trigger] d[j] < radices[j] by {
        assert(order[j] < 6);
        assert(ints(order)[j] == order[j]);
        assert(0 <= e[order[j] as int] < wide[order[j] as int]);
    }
    let p = picks_of(order, fixed, u, d);
    assert forall|k: int| 0 <= k < 6 implies pool_at(unique, open, fixed, k)[p[k]] == #[trigger] widened(
        unique,
        open,
        u,
        e,
    )[k] by {
        if !fixed[k] {
            assert(lists_position(order, k));
            let j = choose|j: int| 0 <= j < 6 && #[trigger] order[j] == k;
            assert(ints(order)[j] == order[j]);
            assert(d[j] == e[k]);
        }
    }
    assert(picked(unique, open, fixed, p) =~= widened(unique, open, u, e));
}

/// The widening at which the counter of the walk stands has the counter's
/// digits.
proof fn lemma_walk_here<'a>(
    unique: Seq<Vec<Equipment<'a>>>,
    open: Seq<Vec<Equipment<'a>>>,
    u: Seq<int>,
    order: Seq<usize>,
    fixed: Seq<bool>,
    radices: Seq<int>,
    here: Seq<int>,
    e: Seq<int>,
)
    requires
        walk_set(unique, open, u, order, fixed, radices),
        in_range(here, radices),
        e.len() == 6,
        forall|i: int|
            0 <= i < 6 ==> #[trigger] e[i] == if fixed[i] {
                0
            } else {
                picks_of(order, fixed, u, here)[i]
            },
    ensures
        turned(ints(order), e) == here,
        walk_rank(unique, open, u, e) == rank(here, radices, 6),
{
    let wide = widths(unique, open, u);
    let d = turned(ints(order), e);
    assert forall|j: int| 0 <= j < 6 implies #[trigger] d[j] == here[j] by {
        let k = order[j] as int;
        assert(order[j] < 6);
        assert(ints(order)[j] == order[j]);
        assert(0 <= here[j] < radices[j]);
        assert(radices[j] == wide[k]);
        if fixed[k] {
            assert(!is_open(unique, open, u, k));
        } else {
            let j2 = choose|j2: int| 0 <= j2 < 6 && #[trigger] order[j2] == k;
            if j2 != j {
                if j2 < j {
                    assert(order[j2] != order[j]);
                } else {
                    assert(order[j] != order[j2]);
                }
            }
        }
    }
    assert(d =~= here);
    assert(radices =~= turned(ints(order), wide)) by {
        assert forall|j: int| 0 <= j < 6 implies #[trigger] radices[j] == turned(ints(order), wide)[j] by {
            assert(ints(order)[j] == order[j]);
        }
    }
}

/// Where the bag holds the builds of the earlier tuples and of the earlier
/// widenings of the tuple that `u` names, it holds the build of every place
/// before widening number `step` of the tuple whose pieces meet the
/// requirement.
proof fn lemma_before_held<'a>(
    q: Quest<'a>,
    dm: &DataManager,
    bag: Seq<Candidate<'a>>,
    u: Seq<int>,
    order: Seq<usize>,
    fixed: Seq<bool>,
    radices: Seq<int>,
    step: int,
)
    requires
        walk_set(q.unique, q.open, u, order, fixed, radices),
        forall|w: (Seq<int>, Seq<int>)|
            #[trigger] meets(q, dm, w) && tuple_before(
                q.unique,
                w.0,
                u,
                dm.decos_by_skill@,
                q.yes,
                q.no,
            ) ==> holds(bag, widened(q.unique, q.open, w.0, w.1)),
        forall|d: Seq<int>|
            #[trigger] in_range(d, radices) && rank(d, radices, 6) < step && acceptable(
                picked(q.unique, q.open, fixed, picks_of(order, fixed, u, d)),
                q.weapon,
                q.req,
                q.free,
                dm,
            ) ==> holds(bag, picked(q.unique, q.open, fixed, picks_of(order, fixed, u, d))),
    ensures
        forall|w: (Seq<int>, Seq<int>)|
            #[trigger] meets(q, dm, w) && found_by(
                q.unique,
                q.open,
                dm.decos_by_skill@,
                q.yes,
                q.no,
                w,
                u,
                step,
            ) ==> holds(bag, widened(q.unique, q.open, w.0, w.1)),
{
    assert forall|w: (Seq<int>, Seq<int>)|
        #[trigger] meets(q, dm, w) && found_by(
            q.unique,
            q.open,
            dm.decos_by_skill@,
            q.yes,
            q.no,
            w,
            u,
            step,
        ) implies holds(bag, widened(q.unique, q.open, w.0, w.1)) by {
        if !tuple_before(q.unique, w.0, u, dm.decos_by_skill@, q.yes, q.no) {
            lemma_walk_digits(q.unique, q.open, u, order, fixed, radices, w.1);
            let d = turned(ints(order), w.1);
            assert(in_range(d, radices));
        }
    }
}

/// The pieces of the builds of the bag.
pub open spec fn bag_tuples<'a>(bag: Seq<Candidate<'a>>) -> Seq<Seq<Equipment<'a>>> {
    Seq::new(bag.len(), |i: int| bag[i].equipments@)
}

/// The scores of the builds of the bag.
pub open spec fn bag_scores<'a>(bag: Seq<Candidate<'a>>) -> Seq<i64> {
    Seq::new(bag.len(), |i: int| bag[i].score)
}

/// The pieces of the builds of an answer.
pub open spec fn build_tuples<'a>(builds: Seq<SolvedBuild<'a>>) -> Seq<Seq<Equipment<'a>>> {
    Seq::new(builds.len(), |i: int| builds[i].equipments@)
}

/// The scores of the builds of an answer.
pub open spec fn build_scores<'a>(builds: Seq<SolvedBuild<'a>>) -> Seq<i64> {
    Seq::new(builds.len(), |i: int| builds[i].score)
}

/// The bag holds a build with the identifiers of `t` exactly when one of
/// its tuples has them.
proof fn lemma_holds_named<'a>(bag: Seq<Candidate<'a>>, t: Seq<Equipment<'a>>)
    ensures
        holds(bag, t) == named(bag_tuples(bag), t),
{
    let tuples = bag_tuples(bag);
    if holds(bag, t) {
        let i = choose|i: int| 0 <= i < bag.len() && same_ids((#[trigger] bag[i]).equipments@, t);
        assert(same_ids(tuples[i], t));
    }
    if named(tuples, t) {
        let k = choose|k: int| 0 <= k < tuples.len() && same_ids(#[trigger] tuples[k], t);
        assert(same_ids(bag[k].equipments@, t));
    }
}

/// The bag with one more build, as the search keeps its builds.
proof fn lemma_bag_kept_insert<'a>(
    q: Quest<'a>,
    dm: &DataManager,
    bag: Seq<Candidate<'a>>,
    found: Seq<(Seq<int>, Seq<int>)>,
    c: Candidate<'a>,
    now: (Seq<int>, Seq<int>),
)
    requires
        sorted_desc(bag),
        kept_in_order(q, dm, bag_tuples(bag), bag_scores(bag), found),
        found_at(c.equipments@, q.unique, q.open, q.no_deco, now),
        forall|i: int| 0 <= i < found.len() ==> earlier(q, dm, #[trigger] found[i], now),
        forall|w: (Seq<int>, Seq<int>)|
            #[trigger] meets(q, dm, w) && earlier(q, dm, w, now) ==> holds(
                bag,
                widened(q.unique, q.open, w.0, w.1),
            ),
    ensures
        kept_in_order(
            q,
            dm,
            bag_tuples(bag.insert(bag_pos(bag, c.score), c)),
            bag_scores(bag.insert(bag_pos(bag, c.score), c)),
            found.insert(bag_pos(bag, c.score), now),
        ),
{
    let pos = bag_pos(bag, c.score);
    lemma_bag_pos(bag, c.score);
    let tuples = bag_tuples(bag);
    let scores = bag_scores(bag);
    assert forall|i: int| 0 <= i < pos implies #[trigger] scores[i] >= c.score by {
        assert(bag[i].score >= c.score);
    }
    assert forall|i: int| pos <= i < scores.len() implies #[trigger] scores[i] < c.score by {
        assert(bag[i].score < c.score);
    }
    assert forall|w: (Seq<int>, Seq<int>)| #[trigger] meets(q, dm, w) && earlier(q, dm, w, now) implies named(
        tuples,
        widened(q.unique, q.open, w.0, w.1),
    ) by {
        lemma_holds_named(bag, widened(q.unique, q.open, w.0, w.1));
    }
    lemma_kept_insert(q, dm, tuples, scores, found, pos, c.equipments@, c.score, now);
    let after = bag.insert(pos, c);
    assert(bag_tuples(after) =~= tuples.insert(pos, c.equipments@));
    assert(bag_scores(after) =~= scores.insert(pos, c.score));
}

/// Takes the build of `pieces` into the bag where it meets the requirement
/// and the bag holds no build with its identifiers yet.
fn consider<'a>(
    bag: &mut Vec<Candidate<'a>>,
    pieces: Vec<Equipment<'a>>,
    weapon_slots: &Vec<i32>,
    req_skills: &StrMap<i32>,
    free_slots: &Vec<i32>,
    dm: &DataManager,
    Ghost(sex): Ghost<SexType>,
    Ghost(unique): Ghost<Seq<Vec<Equipment<'a>>>>,
    Ghost(open): Ghost<Seq<Vec<Equipment<'a>>>>,
    Ghost(no_deco): Ghost<Seq<(Seq<char>, i32)>>,
    Ghost(q): Ghost<Quest<'a>>,
    Ghost(found): Ghost<Seq<(Seq<int>, Seq<int>)>>,
    Ghost(now): Ghost<(Seq<int>, Seq<int>)>,
) -> (kept: Ghost<Seq<(Seq<int>, Seq<int>)>>)
    requires
        q.weapon == weapon_slots@,
        q.req == req_skills.entries(),
        q.free == free_slots@,
        kept_in_order(q, dm, bag_tuples(old(bag)@), bag_scores(old(bag)@), found),
        found_at(pieces@, q.unique, q.open, q.no_deco, now),
        forall|i: int| 0 <= i < found.len() ==> earlier(q, dm, #[trigger] found[i], now),
        forall|w: (Seq<int>, Seq<int>)|
            #[trigger] meets(q, dm, w) && earlier(q, dm, w, now) ==> holds(
                old(bag)@,
                widened(q.unique, q.open, w.0, w.1),
            ),
        old(bag)@.len() < MAX_ANSWER_LENGTH,
        bag_ok(old(bag)@, weapon_slots@, req_skills.entries(), free_slots@, dm, sex),
        bag_searched(old(bag)@, unique, open, no_deco),
        pieces_ok(pieces@, dm, sex),
        searched(pieces@, unique, open, no_deco),
        is_base_slots(weapon_slots@),
        is_slots(free_slots@),
        levels_nonneg(req_skills.entries()),
    ensures
        bag_ok(final(bag)@, weapon_slots@, req_skills.entries(), free_slots@, dm, sex),
        bag_searched(final(bag)@, unique, open, no_deco),
        forall|t: Seq<Equipment<'a>>| #[trigger] holds(old(bag)@, t) ==> holds(final(bag)@, t),
        final(bag)@.len() >= old(bag)@.len(),
        acceptable(pieces@, weapon_slots@, req_skills.entries(), free_slots@, dm) ==> holds(
            final(bag)@,
            pieces@,
        ),
        kept_in_order(q, dm, bag_tuples(final(bag)@), bag_scores(final(bag)@), kept@),
        forall|i: int| 0 <= i < kept@.len() ==> #[trigger] kept@[i] == now || earlier(q, dm, kept@[i], now),
{
    let ghost before = bag@;
    let ghost req = req_skills.entries();
    let ghost tuple = pieces@;
    assert forall|i: int| 0 <= i < bag@.len() implies (#[trigger] bag@[i]).equipments@.len() == 6 by {
        assert(cand_ok(bag@[i], weapon_slots@, req, free_slots@, dm, sex));
    }
    if bag_names(bag, &pieces) {
        return Ghost(found);
    }
    match evaluate(pieces, weapon_slots, req_skills, free_slots, dm) {
        Some(c) => {
            proof {
                lemma_bag_kept_insert(q, dm, before, found, c, now);
                let pos = bag_pos(before, c.score);
                lemma_bag_pos(before, c.score);
                let kept = found.insert(pos, now);
                assert forall|i: int| 0 <= i < kept.len() implies #[trigger] kept[i] == now || earlier(
                    q,
                    dm,
                    kept[i],
                    now,
                ) by {
                    if i < pos {
                        assert(kept[i] == found[i]);
                    } else if i > pos {
                        assert(kept[i] == found[i - 1]);
                    }
                }
            }
            let ghost place = bag_pos(before, c.score);
            let taken = offer(bag, c);
            proof {
                let now = bag@;
                let pos = bag_pos(before, c.score);
                lemma_bag_pos(before, c.score);
                assert(taken);
                assert(now == before.insert(pos, c));
                assert(now[pos] == c);
                assert(c.equipments@ == tuple);
                assert(cand_ok(c, weapon_slots@, req, free_slots@, dm, sex));
                assert forall|i: int| 0 <= i < now.len() implies cand_ok(
                    #[trigger] now[i],
                    weapon_slots@,
                    req,
                    free_slots@,
                    dm,
                    sex,
                ) && searched(now[i].equipments@, unique, open, no_deco) by {
                    if i < pos {
                        assert(now[i] == before[i]);
                    } else if i > pos {
                        assert(now[i] == before[i - 1]);
                    }
                }
                assert forall|t: Seq<Equipment<'a>>| #[trigger] holds(before, t) implies holds(now, t) by {
                    lemma_holds_insert(before, pos, c, t);
                }
                lemma_distinct_insert(before, pos, c);
                assert(same_ids(tuple, tuple));
                lemma_holds_insert(before, pos, c, tuple);
            }
            Ghost(found.insert(place, now))
        },
        None => Ghost(found),
    }
}

/// A bag without two builds of the same identifiers stays so with one more
/// build whose identifiers it does not hold.
proof fn lemma_distinct_insert<'a>(bag: Seq<Candidate<'a>>, pos: int, c: Candidate<'a>)
    requires
        0 <= pos <= bag.len(),
        bag_distinct(bag),
        !holds(bag, c.equipments@),
    ensures
        bag_distinct(bag.insert(pos, c)),
{
    let now = bag.insert(pos, c);
    assert forall|i: int, j: int| 0 <= i < j < now.len() implies !same_ids(
        (#[trigger] now[i]).equipments@,
        (#[trigger] now[j]).equipments@,
    ) by {
        let a = if i < pos {
            i
        } else {
            i - 1
        };
        let b = if j < pos {
            j
        } else {
            j - 1
        };
        if i == pos {
            assert(now[j] == bag[b]);
            if same_ids(now[i].equipments@, now[j].equipments@) {
                let x = bag[b].equipments@;
                let y = c.equipments@;
                assert forall|k: int| 0 <= k < 6 implies (#[trigger] x[k]).spec_id() == y[k].spec_id() by {
                    assert(y[k].spec_id() == x[k].spec_id());
                }
                assert(same_ids(bag[b].equipments@, c.equipments@));
            }
        } else if j == pos {
            assert(now[i] == bag[a]);
        } else {
            assert(now[i] == bag[a]);
            assert(now[j] == bag[b]);
            assert(a < b);
        }
    }
}

/// Widens the tuple `chosen` of the first pools and offers the builds so
/// found to the bag: a position that holds the empty placeholder takes
/// every piece of its second pool in turn, the other positions keep their
/// piece. The positions with the larger pools turn fastest. Stops when the
/// bag is full.
fn walk_expansion<'a>(
    unique: &Vec<Vec<Equipment<'a>>>,
    open: &Vec<Vec<Equipment<'a>>>,
    chosen: &Vec<usize>,
    bag: &mut Vec<Candidate<'a>>,
    weapon_slots: &Vec<i32>,
    req_skills: &StrMap<i32>,
    free_slots: &Vec<i32>,
    dm: &DataManager,
    Ghost(sex): Ghost<SexType>,
    Ghost(no_deco): Ghost<Seq<(Seq<char>, i32)>>,
    Ghost(q): Ghost<Quest<'a>>,
    Ghost(found): Ghost<Seq<(Seq<int>, Seq<int>)>>,
) -> (kept: Ghost<Seq<(Seq<int>, Seq<int>)>>)
    requires
        q.unique == unique@,
        q.open == open@,
        q.no_deco == no_deco,
        q.weapon == weapon_slots@,
        q.req == req_skills.entries(),
        q.free == free_slots@,
        kept_in_order(q, dm, bag_tuples(old(bag)@), bag_scores(old(bag)@), found),
        forall|i: int|
            0 <= i < found.len() ==> tuple_before(
                q.unique,
                (#[trigger] found[i]).0,
                ints(chosen@),
                dm.decos_by_skill@,
                q.yes,
                q.no,
            ),
        forall|w: (Seq<int>, Seq<int>)|
            #[trigger] meets(q, dm, w) && tuple_before(
                q.unique,
                w.0,
                ints(chosen@),
                dm.decos_by_skill@,
                q.yes,
                q.no,
            ) ==> holds(old(bag)@, widened(q.unique, q.open, w.0, w.1)),
        pools_ok(unique@, dm, sex),
        pools_ok(open@, dm, sex),
        in_range(ints(chosen@), pool_widths(unique@)),
        grants_all(no_deco, self::chosen(unique@, ints(chosen@))),
        is_base_slots(weapon_slots@),
        is_slots(free_slots@),
        levels_nonneg(req_skills.entries()),
        bag_ok(old(bag)@, weapon_slots@, req_skills.entries(), free_slots@, dm, sex),
        bag_searched(old(bag)@, unique@, open@, no_deco),
    ensures
        bag_ok(final(bag)@, weapon_slots@, req_skills.entries(), free_slots@, dm, sex),
        bag_searched(final(bag)@, unique@, open@, no_deco),
        forall|t: Seq<Equipment<'a>>| #[trigger] holds(old(bag)@, t) ==> holds(final(bag)@, t),
        final(bag)@.len() >= old(bag)@.len(),
        final(bag)@.len() == MAX_ANSWER_LENGTH || widened_held(
            final(bag)@,
            unique@,
            open@,
            ints(chosen@),
            weapon_slots@,
            req_skills.entries(),
            free_slots@,
            dm,
        ),
        kept_in_order(q, dm, bag_tuples(final(bag)@), bag_scores(final(bag)@), kept@),
        forall|i: int|
            0 <= i < kept@.len() ==> (#[trigger] kept@[i]).0 == ints(chosen@) || tuple_before(
                q.unique,
                kept@[i].0,
                ints(chosen@),
                dm.decos_by_skill@,
                q.yes,
                q.no,
            ),
{
    let ghost u = ints(chosen@);
    let ghost req = req_skills.entries();
    let ghost bag0 = bag@;
    let mut fixed: Vec<bool> = Vec::new();
    let mut lens: Vec<usize> = Vec::new();
    let mut k: usize = 0;
    while k < 6
        invariant
            k <= 6,
            chosen@.len() == 6,
            u == ints(chosen@),
            pools_ok(unique@, dm, sex),
            pools_ok(open@, dm, sex),
            in_range(u, pool_widths(unique@)),
            fixed@.len() == k,
            lens@.len() == k,
            forall|j: int| 0 <= j < k ==> #[trigger] fixed@[j] == !is_open(unique@, open@, u, j),
            forall|j: int| 0 <= j < k ==> #[trigger] lens@[j] == widths(unique@, open@, u)[j] && 1 <= lens@[j],
        decreases 6 - k,
    {
        assert(0 <= u[k as int] < pool_widths(unique@)[k as int]);
        assert(u[k as int] == chosen@[k as int]);
        let is_open_here = open[k].len() > 0 && BaseArmor::is_empty_armor(unique[k][chosen[k]].id());
        assert(is_open_here == is_open(unique@, open@, u, k as int));
        if is_open_here {
            fixed.push(false);
            lens.push(open[k].len());
        } else {
            fixed.push(true);
            lens.push(1);
        }
        k += 1;
    }
    let order = order_by_len(&lens);
    let mut radix: Vec<usize> = Vec::new();
    let mut j: usize = 0;
    while j < 6
        invariant
            j <= 6,
            is_order(order@, 6),
            lens@.len() == 6,
            forall|i: int| 0 <= i < 6 ==> 1 <= #[trigger] lens@[i],
            radix@.len() == j,
            forall|i: int| 0 <= i < j ==> #[trigger] radix@[i] == lens@[order@[i] as int] && 1 <= radix@[i],
        decreases 6 - j,
    {
        assert(order@[j as int] < 6);
        radix.push(lens[order[j]]);
        j += 1;
    }
    let ghost radices = ints(radix@);
    let ghost wide = widths(unique@, open@, u);
    let mut digits = zero_counter(6);
    let ghost mut step: int = 0;
    let ghost mut trail = found;
    let mut more = true;
    proof {
        assert(ints(lens@) =~= wide);
        assert forall|i: int| 0 <= i < 6 implies #[trigger] radices[i] == wide[order@[i] as int] by {
            assert(radix@[i] == lens@[order@[i] as int]);
            assert(order@[i] < 6);
        }
        assert(walk_set(unique@, open@, u, order@, fixed@, radices));
        assert forall|i: int| 0 <= i < 6 implies 1 <= #[trigger] radices[i] by {
            assert(1 <= radix@[i]);
        }
        assert forall|i: int| 0 <= i < 6 implies 0 <= #[trigger] ints(digits@)[i] < radices[i] by {
            assert(digits@[i] == 0);
            assert(1 <= radices[i]);
        }
        assert forall|i: int| 0 <= i < 6 implies #[trigger] ints(digits@)[i] == 0 by {
            assert(digits@[i] == 0);
        }
        lemma_rank_zero(ints(digits@), radices, 6);
        lemma_weight_pos(radices, 6);
        assert forall|d: Seq<int>|
            #[trigger] in_range(d, radices) && rank(d, radices, 6) < 0 && acceptable(
                picked(unique@, open@, fixed@, picks_of(order@, fixed@, u, d)),
                weapon_slots@,
                req,
                free_slots@,
                dm,
            ) implies holds(
            bag@,
            picked(unique@, open@, fixed@, picks_of(order@, fixed@, u, d)),
        ) by {
            lemma_rank_bound(d, radices, 6);
        }
    }
    while more && bag.len() < MAX_ANSWER_LENGTH
        invariant
            radix@.len() == 6,
            digits@.len() == 6,
            lens@.len() == 6,
            is_order(order@, 6),
            chosen@.len() == 6,
            fixed@.len() == 6,
            u == ints(chosen@),
            req == req_skills.entries(),
            radices == ints(radix@),
            positive(radices),
            wide == widths(unique@, open@, u),
            in_range(u, pool_widths(unique@)),
            forall|i: int| 0 <= i < 6 ==> #[trigger] fixed@[i] == !is_open(unique@, open@, u, i),
            forall|i: int| 0 <= i < 6 ==> #[trigger] lens@[i] == wide[i],
            forall|i: int| 0 <= i < 6 ==> #[trigger] radix@[i] == lens@[order@[i] as int],
            pools_ok(unique@, dm, sex),
            pools_ok(open@, dm, sex),
            is_base_slots(weapon_slots@),
            is_slots(free_slots@),
            levels_nonneg(req),
            bag_ok(bag@, weapon_slots@, req, free_slots@, dm, sex),
            bag_searched(bag@, unique@, open@, no_deco),
            grants_all(no_deco, self::chosen(unique@, u)),
            forall|t: Seq<Equipment<'a>>| #[trigger] holds(bag0, t) ==> holds(bag@, t),
            q.unique == unique@,
            q.open == open@,
            q.no_deco == no_deco,
            q.weapon == weapon_slots@,
            q.req == req,
            q.free == free_slots@,
            walk_set(unique@, open@, u, order@, fixed@, radices),
            kept_in_order(q, dm, bag_tuples(bag@), bag_scores(bag@), trail),
            forall|i: int|
                0 <= i < trail.len() ==> found_by(
                    q.unique,
                    q.open,
                    dm.decos_by_skill@,
                    q.yes,
                    q.no,
                    #[trigger] trail[i],
                    u,
                    step,
                ),
            forall|w: (Seq<int>, Seq<int>)|
                #[trigger] meets(q, dm, w) && tuple_before(
                    q.unique,
                    w.0,
                    u,
                    dm.decos_by_skill@,
                    q.yes,
                    q.no,
                ) ==> holds(bag0, widened(q.unique, q.open, w.0, w.1)),
            bag@.len() >= bag0.len(),
            in_range(ints(digits@), radices),
            more ==> rank(ints(digits@), radices, 6) == step,
            0 <= step <= weight(radices, 6),
            more ==> step < weight(radices, 6),
            !more ==> step == weight(radices, 6),
            bag@.len() == MAX_ANSWER_LENGTH || forall|d: Seq<int>|
                #[trigger] in_range(d, radices) && rank(d, radices, 6) < step && acceptable(
                    picked(unique@, open@, fixed@, picks_of(order@, fixed@, u, d)),
                    weapon_slots@,
                    req,
                    free_slots@,
                    dm,
                ) ==> holds(bag@, picked(unique@, open@, fixed@, picks_of(order@, fixed@, u, d))),
        decreases weight(radices, 6) - step,
    {
        let ghost here = ints(digits@);
        let ghost before = bag@;
        let mut pick: Vec<usize> = Vec::new();
        let mut k: usize = 0;
        while k < 6
            invariant
                k <= 6,
                chosen@.len() == 6,
                pick@.len() == k,
                forall|i: int| 0 <= i < k ==> #[trigger] pick@[i] == chosen@[i],
            decreases 6 - k,
        {
            pick.push(chosen[k]);
            k += 1;
        }
        let mut j: usize = 0;
        while j < 6
            invariant
                j <= 6,
                pick@.len() == 6,
                digits@.len() == 6,
                chosen@.len() == 6,
                is_order(order@, 6),
                fixed@.len() == 6,
                here == ints(digits@),
                forall|i: int| 0 <= i < 6 && fixed@[i] ==> #[trigger] pick@[i] == chosen@[i],
                forall|i: int|
                    0 <= i < j && !fixed@[order@[i] as int] ==> pick@[#[trigger] order@[i] as int]
                        == digits@[i],
            decreases 6 - j,
        {
            assert(order@[j as int] < 6);
            let at = order[j];
            if !fixed[at] {
                let ghost prev = pick@;
                pick.set(at, digits[j]);
                proof {
                    assert forall|i: int|
                        0 <= i < j + 1 && !fixed@[order@[i] as int] implies pick@[#[trigger] order@[i] as int]
                        == digits@[i] by {
                        if i < j {
                            assert(order@[i] != order@[j as int]);
                            assert(pick@[order@[i] as int] == prev[order@[i] as int]);
                        }
                    }
                }
            }
            j += 1;
        }
        let ghost target = picked(unique@, open@, fixed@, picks_of(order@, fixed@, u, here));
        proof {
            let p = picks_of(order@, fixed@, u, here);
            assert forall|i: int| 0 <= i < 6 implies ints(pick@)[i] == #[trigger] p[i] && pick@[i]
                < pool_at(unique@, open@, fixed@, i).len() by {
                if fixed@[i] {
                    assert(pick@[i] == chosen@[i]);
                    assert(u[i] == chosen@[i]);
                    assert(0 <= u[i] < pool_widths(unique@)[i]);
                } else {
                    assert(lists_position(order@, i));
                    let slot = choose|slot: int| 0 <= slot < 6 && #[trigger] order@[slot] == i;
                    assert(pick@[order@[slot] as int] == digits@[slot]);
                    assert(0 <= here[slot] < radices[slot]);
                    assert(radix@[slot] == lens@[order@[slot] as int]);
                    assert(lens@[i] == wide[i]);
                    assert(is_open(unique@, open@, u, i));
                }
            }
            assert(ints(pick@) =~= p);
            assert forall|i: int| 0 <= i < 6 implies #[trigger] pick@[i] < pool_at(
                unique@,
                open@,
                fixed@,
                i,
            ).len() by {
                assert(ints(pick@)[i] == p[i]);
            }
        }
        match assemble(unique, open, &fixed, &pick, Ghost(dm), Ghost(sex)) {
            Some(pieces) => {
                let ghost tuple = pieces@;
                proof {
                    lemma_acceptable_same(tuple, target, weapon_slots@, req, free_slots@, dm);
                }
                let ghost now = (
                    u,
                    Seq::new(
                        6,
                        |i: int|
                            if fixed@[i] {
                                0
                            } else {
                                picks_of(order@, fixed@, u, here)[i]
                            },
                    ),
                );
                proof {
                    lemma_copies_named(tuple, target);
                    let p = picks_of(order@, fixed@, u, here);
                    let e = now.1;
                    assert forall|i: int| 0 <= i < 6 implies 0 <= #[trigger] e[i] < wide[i] by {
                        if !fixed@[i] {
                            assert(ints(pick@)[i] == p[i]);
                            assert(pick@[i] < pool_at(unique@, open@, fixed@, i).len());
                            assert(is_open(unique@, open@, u, i));
                        }
                    }
                    assert(in_range(e, wide));
                    assert(target =~= widened(unique@, open@, u, e)) by {
                        assert forall|i: int| 0 <= i < 6 implies #[trigger] target[i] == widened(
                            unique@,
                            open@,
                            u,
                            e,
                        )[i] by {
                            assert(ints(pick@)[i] == p[i]);
                            if fixed@[i] {
                                assert(pick@[i] == chosen@[i]);
                                assert(u[i] == chosen@[i]);
                            }
                        }
                    }
                    assert(searched(tuple, unique@, open@, no_deco));
                    lemma_walk_here(unique@, open@, u, order@, fixed@, radices, here, e);
                    assert(found_at(tuple, q.unique, q.open, q.no_deco, now));
                    lemma_before_held(q, dm, bag@, u, order@, fixed@, radices, step);
                }
                let kept = consider(
                    bag,
                    pieces,
                    weapon_slots,
                    req_skills,
                    free_slots,
                    dm,
                    Ghost(sex),
                    Ghost(unique@),
                    Ghost(open@),
                    Ghost(no_deco),
                    Ghost(q),
                    Ghost(trail),
                    Ghost(now),
                );
                proof {
                    trail = kept@;
                    lemma_holds_alike(bag@, tuple, target);
                    assert forall|i: int| 0 <= i < trail.len() implies found_by(
                        q.unique,
                        q.open,
                        dm.decos_by_skill@,
                        q.yes,
                        q.no,
                        #[trigger] trail[i],
                        u,
                        step + 1,
                    ) by {
                        assert(trail[i] == now || earlier(q, dm, trail[i], now));
                    }
                }
            },
            None => {
                assert(false);
            },
        }
        assert(bag@.len() == MAX_ANSWER_LENGTH || (acceptable(
            target,
            weapon_slots@,
            req,
            free_slots@,
            dm,
        ) ==> holds(bag@, target)));
        proof {
            let now = bag@;
            if now.len() != MAX_ANSWER_LENGTH {
                assert forall|d: Seq<int>|
                    #[trigger] in_range(d, radices) && rank(d, radices, 6) < step + 1 && acceptable(
                        picked(unique@, open@, fixed@, picks_of(order@, fixed@, u, d)),
                        weapon_slots@,
                        req,
                        free_slots@,
                        dm,
                    ) implies holds(
                    now,
                    picked(unique@, open@, fixed@, picks_of(order@, fixed@, u, d)),
                ) by {
                    if rank(d, radices, 6) < step {
                        assert(holds(
                            before,
                            picked(unique@, open@, fixed@, picks_of(order@, fixed@, u, d)),
                        ));
                    } else {
                        lemma_rank_injective(d, here, radices, 6);
                        assert(d =~= here);
                    }
                }
            }
        }
        more = advance(&mut digits, &radix);
        proof {
            step = step + 1;
            lemma_rank_bound(ints(digits@), radices, 6);
        }
    }
    proof {
        if bag@.len() != MAX_ANSWER_LENGTH {
            assert(!more);
            assert forall|e: Seq<int>|
                #[trigger] in_range(e, wide) && acceptable(
                    widened(unique@, open@, u, e),
                    weapon_slots@,
                    req,
                    free_slots@,
                    dm,
                ) implies holds(bag@, widened(unique@, open@, u, e)) by {
                let d = Seq::new(6, |j: int| if fixed@[order@[j] as int] { 0 } else { e[order@[j] as int] });
                assert forall|j: int| 0 <= j < 6 implies 0 <= #[trigger] d[j] < radices[j] by {
                    let at = order@[j] as int;
                    assert(radix@[j] == lens@[at]);
                    assert(lens@[at] == wide[at]);
                    assert(0 <= e[at] < wide[at]);
                }
                assert(in_range(d, radices));
                lemma_rank_bound(d, radices, 6);
                let p = picks_of(order@, fixed@, u, d);
                assert(picked(unique@, open@, fixed@, p) =~= widened(unique@, open@, u, e)) by {
                    assert forall|i: int| 0 <= i < 6 implies pool_at(unique@, open@, fixed@, i)[p[i]]
                        == #[trigger] widened(unique@, open@, u, e)[i] by {
                        if !fixed@[i] {
                            assert(lists_position(order@, i));
                            let slot = choose|slot: int| 0 <= slot < 6 && #[trigger] order@[slot] == i;
                            assert(d[slot] == e[i]);
                        }
                    }
                }
                assert(acceptable(
                    picked(unique@, open@, fixed@, p),
                    weapon_slots@,
                    req,
                    free_slots@,
                    dm,
                ));
                assert(holds(bag@, picked(unique@, open@, fixed@, p)));
            }
        }
    }
    Ghost(trail)
}

/// What the search of an answer was about.
pub open spec fn quest_of<'a>(
    r: CalculateResult<'a>,
    weapon: Seq<i32>,
    req: Seq<(Seq<char>, i32)>,
    free: Seq<i32>,
) -> Quest<'a> {
    Quest {
        unique: r.unique@,
        open: r.open@,
        no_deco: r.no_deco.entries(),
        yes: r.yes_deco@,
        no: r.no_deco@,
        weapon: weapon,
        req: req,
        free: free,
    }
}

/// The builds of the answer are kept as the search of `q` keeps them, for
/// some places at which it found them.
pub open spec fn answer_in_order<'a>(q: Quest<'a>, dm: &DataManager, builds: Seq<SolvedBuild<'a>>) -> bool {
    exists|found: Seq<(Seq<int>, Seq<int>)>|
        kept_in_order(q, dm, build_tuples(builds), build_scores(builds), found)
}

/// The list of tuples is the list that the search walks: in its order, each
/// with its score, each a tuple that grants every skill without decoration,
/// and every such tuple is listed.
pub open spec fn tuples_listed<'a>(q: Quest<'a>, dm: &DataManager, tuples: Seq<(i64, Vec<usize>)>) -> bool {
    &&& in_search_order(tuples, pool_widths(q.unique))
    &&& forall|i: int|
        0 <= i < tuples.len() ==> (#[trigger] tuples[i]).0 == tuple_points(
            chosen(q.unique, ints(tuples[i].1@)),
            6,
            dm.decos_by_skill@,
            q.yes,
            q.no,
        )
    &&& forall|u: Seq<int>|
        #[trigger] in_range(u, pool_widths(q.unique)) && grants_all(q.no_deco, chosen(q.unique, u))
            ==> names(tuples, u)
}

/// The tuple `u` is one of the first `t` tuples of the list.
pub open spec fn tried(tuples: Seq<(i64, Vec<usize>)>, u: Seq<int>, t: int) -> bool {
    exists|a: int| 0 <= a < t && a < tuples.len() && ints((#[trigger] tuples[a]).1@) == u
}

/// Of two tuples of the list, the search tries first the one that the list
/// holds first.
proof fn lemma_listed_order<'a>(
    q: Quest<'a>,
    dm: &DataManager,
    tuples: Seq<(i64, Vec<usize>)>,
    a: int,
    b: int,
)
    requires
        tuples_listed(q, dm, tuples),
        0 <= a < tuples.len(),
        0 <= b < tuples.len(),
    ensures
        a < b <==> tuple_before(
            q.unique,
            ints(tuples[a].1@),
            ints(tuples[b].1@),
            dm.decos_by_skill@,
            q.yes,
            q.no,
        ),
{
    let x = tuples[a];
    let y = tuples[b];
    if a < b {
        assert(x.0 > y.0 || (x.0 == y.0 && rank(ints(x.1@), pool_widths(q.unique), 6) < rank(
            ints(y.1@),
            pool_widths(q.unique),
            6,
        )));
    } else if b < a {
        assert(y.0 > x.0 || (y.0 == x.0 && rank(ints(y.1@), pool_widths(q.unique), 6) < rank(
            ints(x.1@),
            pool_widths(q.unique),
            6,
        )));
    }
}

/// A place of the search whose tuple is the tuple number `t` of the list,
/// or is tried before it, has one of the first `t + 1` tuples of the list.
proof fn lemma_tried<'a>(
    q: Quest<'a>,
    dm: &DataManager,
    tuples: Seq<(i64, Vec<usize>)>,
    t: int,
    w: (Seq<int>, Seq<int>),
)
    requires
        tuples_listed(q, dm, tuples),
        0 <= t < tuples.len(),
        place_ok(q.unique, q.open, q.no_deco, w),
        w.0 == ints(tuples[t].1@) || tuple_before(
            q.unique,
            w.0,
            ints(tuples[t].1@),
            dm.decos_by_skill@,
            q.yes,
            q.no,
        ),
    ensures
        tried(tuples, w.0, t + 1),
        w.0 != ints(tuples[t].1@) ==> tried(tuples, w.0, t),
{
    if w.0 == ints(tuples[t].1@) {
        assert(ints(tuples[t].1@) == w.0);
    } else {
        assert(names(tuples, w.0));
        let a = choose|a: int| 0 <= a < tuples.len() && ints((#[trigger] tuples[a]).1@) == w.0;
        lemma_listed_order(q, dm, tuples, a, t);
    }
}

/// Where the bag holds the builds of the widenings of the first `t` tuples
/// of the list, it holds the build of every place with a tuple tried before
/// the tuple number `t` whose pieces meet the requirement.
proof fn lemma_earlier_held<'a>(
    q: Quest<'a>,
    dm: &DataManager,
    bag: Seq<Candidate<'a>>,
    tuples: Seq<(i64, Vec<usize>)>,
    t: int,
)
    requires
        tuples_listed(q, dm, tuples),
        0 <= t < tuples.len(),
        forall|i: int|
            0 <= i < t ==> widened_held(
                bag,
                q.unique,
                q.open,
                ints((#[trigger] tuples[i]).1@),
                q.weapon,
                q.req,
                q.free,
                dm,
            ),
    ensures
        forall|w: (Seq<int>, Seq<int>)|
            #[trigger] meets(q, dm, w) && tuple_before(
                q.unique,
                w.0,
                ints(tuples[t].1@),
                dm.decos_by_skill@,
                q.yes,
                q.no,
            ) ==> holds(bag, widened(q.unique, q.open, w.0, w.1)),
{
    assert forall|w: (Seq<int>, Seq<int>)|
        #[trigger] meets(q, dm, w) && tuple_before(
            q.unique,
            w.0,
            ints(tuples[t].1@),
            dm.decos_by_skill@,
            q.yes,
            q.no,
        ) implies holds(bag, widened(q.unique, q.open, w.0, w.1)) by {
        lemma_tried(q, dm, tuples, t, w);
        let a = choose|a: int| 0 <= a < t && a < tuples.len() && ints((#[trigger] tuples[a]).1@) == w.0;
        assert(widened_held(bag, q.unique, q.open, ints(tuples[a].1@), q.weapon, q.req, q.free, dm));
        assert(in_range(w.1, widths(q.unique, q.open, w.0)));
    }
}

/// Searches the catalog for the builds that meet the requirement
/// `selected_skills` with a weapon of the socket sizes `weapon_slots`,
/// leave the sockets `free_slots` free and can be worn under the filter
/// `sex_type`.
///
/// The answer holds at most `MAX_ANSWER_LENGTH` builds, best score first,
/// no two of them with the same six identifiers. Each is made of six pieces
/// of the catalog, one per position, that meet the requirement, and lists
/// the packings that meet what the pieces leave to decorations within the
/// sockets left. Each is made by widening a tuple of the first pools that
/// grants every skill without decoration; where the answer holds fewer than
/// `MAX_ANSWER_LENGTH` builds, it holds, for every build so made that meets
/// the requirement, a build with its identifiers. The builds are kept as
/// the search finds them: of two builds of one score the one found first
/// comes first, and for every place of the search before the place of a
/// build of the answer whose pieces meet the requirement, the answer holds
/// a build with their identifiers; so a full answer holds the builds that
/// the search came to first. A query whose weapon sockets are no socket
/// sizes, or whose free sockets are no socket vector, has no build.
pub fn calculate_skillset<'a>(
    weapon_slots: Vec<i32>,
    selected_skills: StrMap<i32>,
    free_slots: Vec<i32>,
    sex_type: SexType,
    dm: &'a DataManager,
) -> (r: CalculateResult<'a>)
    requires
        dm.wf(),
    ensures
        r.builds@.len() <= MAX_ANSWER_LENGTH,
        forall|i: int, j: int|
            0 <= i < j < r.builds@.len() ==> (#[trigger] r.builds@[i]).score >= (
            #[trigger] r.builds@[j]).score,
        forall|i: int|
            0 <= i < r.builds@.len() ==> build_ok(
                #[trigger] r.builds@[i],
                weapon_slots@,
                asked(selected_skills.entries(), selected_skills.entries().len() as int),
                free_slots@,
                dm,
                sex_type,
            ),
        !(is_base_slots(weapon_slots@) && is_slots(free_slots@)) ==> r.builds@.len() == 0,
        is_base_slots(weapon_slots@) && is_slots(free_slots@) ==> {
            let req = asked(selected_skills.entries(), selected_skills.entries().len() as int);
            &&& pools_ok(r.unique@, dm, sex_type)
            &&& pools_ok(r.open@, dm, sex_type)
            &&& pools_hold_empty(r.unique@, r.open@, dm, sex_type)
            &&& forall|k: int|
                0 <= k < 6 ==> catalog_covered(
                    dm,
                    k,
                    sex_type,
                    r.no_deco@,
                    r.yes_deco@,
                    (#[trigger] r.unique@[k])@,
                    r.open@[k]@,
                )
            &&& forall|k: int|
                0 <= k < 6 ==> pools_lean(
                    (#[trigger] r.unique@[k])@,
                    r.open@[k]@,
                    r.no_deco@,
                    empty_usable(dm, k, sex_type),
                )
            &&& forall|k: int|
                0 <= k < 6 ==> pool_needed((#[trigger] r.unique@[k])@, dm, k, r.no_deco@, r.yes_deco@)
                    && pool_needed(r.open@[k]@, dm, k, r.no_deco@, r.yes_deco@)
            &&& forall|id: Seq<char>|
                #![trigger r.no_deco@.contains_key(id)]
                #![trigger r.yes_deco@.contains_key(id)]
                {
                    &&& r.no_deco@.contains_key(id) <==> has_key(req, id) && dm.deco_count(id) == 0
                    &&& r.yes_deco@.contains_key(id) <==> has_key(req, id) && dm.deco_count(id) > 0
                    &&& r.no_deco@.contains_key(id) ==> r.no_deco@[id] == crate::str_map::entries_map(
                        req,
                    )[id]
                    &&& r.yes_deco@.contains_key(id) ==> r.yes_deco@[id]
                        == crate::str_map::entries_map(req)[id]
                }
            &&& r.builds@.len() < MAX_ANSWER_LENGTH ==> forall|u: Seq<int>, e: Seq<int>|
                #![trigger widened(r.unique@, r.open@, u, e)]
                in_range(u, pool_widths(r.unique@)) && grants_all(
                    r.no_deco.entries(),
                    chosen(r.unique@, u),
                ) && in_range(e, widths(r.unique@, r.open@, u)) && acceptable(
                    widened(r.unique@, r.open@, u, e),
                    weapon_slots@,
                    req,
                    free_slots@,
                    dm,
                ) ==> answers(r.builds@, widened(r.unique@, r.open@, u, e))
            &&& forall|i: int|
                0 <= i < r.builds@.len() ==> searched(
                    (#[trigger] r.builds@[i]).equipments@,
                    r.unique@,
                    r.open@,
                    r.no_deco.entries(),
                )
            &&& answer_in_order(quest_of(r, weapon_slots@, req, free_slots@), dm, r.builds@)
        },
        forall|i: int, j: int|
            0 <= i < j < r.builds@.len() ==> !same_ids(
                (#[trigger] r.builds@[i]).equipments@,
                (#[trigger] r.builds@[j]).equipments@,
            ),
{
    let mut builds: Vec<SolvedBuild<'a>> = Vec::new();
    if !base_slots_ok(&weapon_slots) || !is_slots_exec(&free_slots) {
        return CalculateResult {
            builds,
            no_deco: StrMap::new(),
            yes_deco: StrMap::new(),
            unique: Vec::new(),
            open: Vec::new(),
        };
    }
    let req_skills = asked_part(&selected_skills);
    let ghost req = req_skills.entries();
    let (no_deco, yes_deco) = dm.get_leftover_skills(&req_skills);
    let mut unique: Vec<Vec<Equipment<'a>>> = Vec::new();
    let mut open: Vec<Vec<Equipment<'a>>> = Vec::new();
    let mut k: usize = 0;
    while k < 6
        invariant
            k <= 6,
            dm.wf(),
            unique@.len() == k,
            open@.len() == k,
            forall|j: int| 0 <= j < k ==> pool_ok((#[trigger] unique@[j])@, dm, j, sex_type),
            forall|j: int| 0 <= j < k ==> pool_ok((#[trigger] open@[j])@, dm, j, sex_type),
            forall|j: int|
                0 <= j < k && #[trigger] empty_usable(dm, j, sex_type) ==> unique@[j]@.len() > 0
                    && stands_for_empty(unique@[j]@[unique@[j]@.len() - 1], dm, j) && open@[j]@.len()
                    > 0 && stands_for_empty(open@[j]@[0], dm, j),
            forall|j: int|
                0 <= j < k ==> catalog_covered(
                    dm,
                    j,
                    sex_type,
                    no_deco@,
                    yes_deco@,
                    (#[trigger] unique@[j])@,
                    open@[j]@,
                ),
            forall|j: int|
                0 <= j < k ==> pools_lean(
                    (#[trigger] unique@[j])@,
                    open@[j]@,
                    no_deco@,
                    empty_usable(dm, j, sex_type),
                ),
            forall|j: int|
                0 <= j < k ==> pool_needed((#[trigger] unique@[j])@, dm, j, no_deco@, yes_deco@)
                    && pool_needed(open@[j]@, dm, j, no_deco@, yes_deco@),
        decreases 6 - k,
    {
        let (first, second) = position_pools(dm, k, &no_deco, &yes_deco, sex_type);
        unique.push(first);
        open.push(second);
        k += 1;
    }
    let mut bag: Vec<Candidate<'a>> = Vec::new();
    proof {
        use_type_invariant(&no_deco);
    }
    let ghost q = Quest {
        unique: unique@,
        open: open@,
        no_deco: no_deco.entries(),
        yes: yes_deco@,
        no: no_deco@,
        weapon: weapon_slots@,
        req: req,
        free: free_slots@,
    };
    let ghost mut found: Seq<(Seq<int>, Seq<int>)> = Seq::empty();
    if nonneg_levels(&no_deco) {
        let tuples = unique_tuples(&unique, &no_deco, &yes_deco, dm, Ghost(sex_type));
        let mut t: usize = 0;
        proof {
            assert(tuples_listed(q, dm, tuples@));
        }
        while t < tuples.len() && bag.len() < MAX_ANSWER_LENGTH
            invariant
                t <= tuples@.len(),
                q.unique == unique@,
                q.open == open@,
                q.no_deco == no_deco.entries(),
                q.weapon == weapon_slots@,
                q.req == req,
                q.free == free_slots@,
                tuples_listed(q, dm, tuples@),
                kept_in_order(q, dm, bag_tuples(bag@), bag_scores(bag@), found),
                forall|i: int| 0 <= i < found.len() ==> tried(tuples@, (#[trigger] found[i]).0, t as int),
                pools_ok(unique@, dm, sex_type),
                pools_ok(open@, dm, sex_type),
                is_base_slots(weapon_slots@),
                is_slots(free_slots@),
                req == req_skills.entries(),
                levels_nonneg(req),
                bag_ok(bag@, weapon_slots@, req, free_slots@, dm, sex_type),
                bag_searched(bag@, unique@, open@, no_deco.entries()),
                forall|i: int|
                    0 <= i < tuples@.len() ==> in_range(
                        ints((#[trigger] tuples@[i]).1@),
                        pool_widths(unique@),
                    ) && grants_all(no_deco.entries(), chosen(unique@, ints(tuples@[i].1@))),
                bag@.len() == MAX_ANSWER_LENGTH || forall|i: int|
                    0 <= i < t ==> widened_held(
                        bag@,
                        unique@,
                        open@,
                        ints((#[trigger] tuples@[i]).1@),
                        weapon_slots@,
                        req,
                        free_slots@,
                        dm,
                    ),
            decreases tuples.len() - t,
        {
            let ghost before = bag@;
            proof {
                lemma_earlier_held(q, dm, bag@, tuples@, t as int);
                assert forall|i: int| 0 <= i < found.len() implies tuple_before(
                    q.unique,
                    (#[trigger] found[i]).0,
                    ints(tuples@[t as int].1@),
                    dm.decos_by_skill@,
                    q.yes,
                    q.no,
                ) by {
                    assert(tried(tuples@, found[i].0, t as int));
                    let a = choose|a: int|
                        0 <= a < t && a < tuples@.len() && ints((#[trigger] tuples@[a]).1@) == found[i].0;
                    lemma_listed_order(q, dm, tuples@, a, t as int);
                }
            }
            let kept = walk_expansion(
                &unique,
                &open,
                &tuples[t].1,
                &mut bag,
                &weapon_slots,
                &req_skills,
                &free_slots,
                dm,
                Ghost(sex_type),
                Ghost(no_deco.entries()),
                Ghost(q),
                Ghost(found),
            );
            proof {
                found = kept@;
                assert forall|i: int| 0 <= i < found.len() implies tried(
                    tuples@,
                    (#[trigger] found[i]).0,
                    t + 1,
                ) by {
                    assert(found_at(bag_tuples(bag@)[i], q.unique, q.open, q.no_deco, found[i]));
                    lemma_tried(q, dm, tuples@, t as int, found[i]);
                }
            }
            proof {
                if bag@.len() != MAX_ANSWER_LENGTH {
                    assert(before.len() != MAX_ANSWER_LENGTH);
                    assert forall|i: int| 0 <= i < t + 1 implies widened_held(
                        bag@,
                        unique@,
                        open@,
                        ints((#[trigger] tuples@[i]).1@),
                        weapon_slots@,
                        req,
                        free_slots@,
                        dm,
                    ) by {
                        if i < t {
                            let u = ints(tuples@[i].1@);
                            assert(widened_held(
                                before,
                                unique@,
                                open@,
                                u,
                                weapon_slots@,
                                req,
                                free_slots@,
                                dm,
                            ));
                            assert forall|e: Seq<int>|
                                #[trigger] in_range(e, widths(unique@, open@, u)) && acceptable(
                                    widened(unique@, open@, u, e),
                                    weapon_slots@,
                                    req,
                                    free_slots@,
                                    dm,
                                ) implies holds(bag@, widened(unique@, open@, u, e)) by {
                                assert(holds(before, widened(unique@, open@, u, e)));
                            }
                        }
                    }
                }
            }
            t += 1;
        }
        proof {
            if bag@.len() != MAX_ANSWER_LENGTH {
                assert(t == tuples@.len());
                assert forall|u: Seq<int>, e: Seq<int>|
                    #![trigger widened(unique@, open@, u, e)]
                    in_range(u, pool_widths(unique@)) && grants_all(
                        no_deco.entries(),
                        chosen(unique@, u),
                    ) && in_range(e, widths(unique@, open@, u)) && acceptable(
                        widened(unique@, open@, u, e),
                        weapon_slots@,
                        req,
                        free_slots@,
                        dm,
                    ) implies holds(bag@, widened(unique@, open@, u, e)) by {
                    assert(names(tuples@, u));
                    let i = choose|i: int| 0 <= i < tuples@.len() && ints((#[trigger] tuples@[i]).1@) == u;
                    assert(widened_held(
                        bag@,
                        unique@,
                        open@,
                        ints(tuples@[i].1@),
                        weapon_slots@,
                        req,
                        free_slots@,
                        dm,
                    ));
                }
            }
        }
    } else {
        proof {
            let none = no_deco.entries();
            let i = choose|i: int| 0 <= i < none.len() && !(0 <= (#[trigger] none[i]).1);
            crate::str_map::lemma_entry_in_map(none, i);
            assert(no_deco@.contains_key(none[i].0));
            let id = none[i].0;
            assert(has_key(req, id));
            let j = key_index(req, id);
            crate::str_map::lemma_entry_in_map(req, j);
            assert(0 <= req[j].1);
            assert(false);
        }
    }
    let ghost whole = bag@;
    assert(bag_searched(whole, unique@, open@, no_deco.entries()));
    assert(kept_in_order(q, dm, bag_tuples(whole), bag_scores(whole), found));
    while bag.len() > 0
        invariant
            bag_ok(whole, weapon_slots@, req, free_slots@, dm, sex_type),
            builds@.len() + bag@.len() == whole.len(),
            forall|i: int| 0 <= i < bag@.len() ==> #[trigger] bag@[i] == whole[builds@.len() + i],
            forall|i: int|
                0 <= i < builds@.len() ==> solved_from(
                    #[trigger] builds@[i],
                    whole[i],
                    &dm.deco_combinations,
                ),
        decreases bag.len(),
    {
        let ghost at = builds@.len() as int;
        let c = bag.remove(0);
        assert(c == whole[at]);
        assert(cand_ok(c, weapon_slots@, req, free_slots@, dm, sex_type));
        let ghost before = builds@;
        let b = finish(c, &dm.deco_combinations);
        builds.push(b);
        proof {
            assert forall|i: int| 0 <= i < builds@.len() implies solved_from(
                #[trigger] builds@[i],
                whole[i],
                &dm.deco_combinations,
            ) by {
                if i < before.len() {
                    assert(builds@[i] == before[i]);
                }
            }
        }
    }
    proof {
        assert forall|i: int, j: int| 0 <= i < j < builds@.len() implies (#[trigger] builds@[i]).score >= (
        #[trigger] builds@[j]).score by {
            assert(solved_from(builds@[i], whole[i], &dm.deco_combinations));
            assert(solved_from(builds@[j], whole[j], &dm.deco_combinations));
            assert(whole[i].score >= whole[j].score);
        }
        assert forall|i: int| 0 <= i < builds@.len() implies build_ok(
            #[trigger] builds@[i],
            weapon_slots@,
            req,
            free_slots@,
            dm,
            sex_type,
        ) by {
            assert(solved_from(builds@[i], whole[i], &dm.deco_combinations));
            assert(cand_ok(whole[i], weapon_slots@, req, free_slots@, dm, sex_type));
        }
        assert forall|i: int| 0 <= i < builds@.len() implies searched(
            (#[trigger] builds@[i]).equipments@,
            unique@,
            open@,
            no_deco.entries(),
        ) by {
            assert(solved_from(builds@[i], whole[i], &dm.deco_combinations));
            assert(searched(whole[i].equipments@, unique@, open@, no_deco.entries()));
        }
        assert forall|i: int, j: int| 0 <= i < j < builds@.len() implies !same_ids(
            (#[trigger] builds@[i]).equipments@,
            (#[trigger] builds@[j]).equipments@,
        ) by {
            assert(solved_from(builds@[i], whole[i], &dm.deco_combinations));
            assert(solved_from(builds@[j], whole[j], &dm.deco_combinations));
            assert(!same_ids(whole[i].equipments@, whole[j].equipments@));
        }
        assert(build_tuples(builds@) =~= bag_tuples(whole)) by {
            assert forall|i: int| 0 <= i < builds@.len() implies #[trigger] build_tuples(builds@)[i]
                == bag_tuples(whole)[i] by {
                assert(solved_from(builds@[i], whole[i], &dm.deco_combinations));
            }
        }
        assert(build_scores(builds@) =~= bag_scores(whole)) by {
            assert forall|i: int| 0 <= i < builds@.len() implies #[trigger] build_scores(builds@)[i]
                == bag_scores(whole)[i] by {
                assert(solved_from(builds@[i], whole[i], &dm.deco_combinations));
            }
        }
        assert(kept_in_order(q, dm, build_tuples(builds@), build_scores(builds@), found));
        assert forall|t: Seq<Equipment<'a>>| #[trigger] holds(whole, t) implies answers(builds@, t) by {
            let i = choose|i: int| 0 <= i < whole.len() && same_ids((#[trigger] whole[i]).equipments@, t);
            assert(solved_from(builds@[i], whole[i], &dm.deco_combinations));
            assert(same_ids(builds@[i].equipments@, t));
        }
    }
    CalculateResult { builds, no_deco, yes_deco, unique, open }
}

/// Whether no level of the requirement is negative.
fn nonneg_levels(req: &StrMap<i32>) -> (b: bool)
    ensures
        b == levels_nonneg(req.entries()),
{
    let n = req.len();
    let mut i: usize = 0;
    while i < n
        invariant
            i <= n,
            n == req.entries().len(),
            forall|j: int| 0 <= j < i ==> 0 <= (#[trigger] req.entries()[j]).1,
        decreases n - i,
    {
        if *req.value_at(i) < 0 {
            return false;
        }
        i += 1;
    }
    true
}

} // verus!
