//! The builds that a search has accepted, best first.

use crate::calc::equipment::Equipment;
use crate::data::deco_combination::{
    DecorationCombination, DecorationCombinations, is_choice, req_ids,
};
use crate::data::deco_walk::some_choice_fits;
use crate::data::skill::MAX_SLOT_LEVEL;
use crate::full_equipments::{enumerates_fitting, select_fitting};
use crate::slots::{is_slots, zero_slots};
use crate::solver_eval::Candidate;
use crate::str_map::StrMap;
use vstd::prelude::*;

verus! {

/// The most builds that a search accepts.
pub const MAX_ANSWER_LENGTH: usize = 200;

/// A build of the answer: its pieces, its sockets, what its pieces leave to
/// decorations, and the packings that meet this.
pub struct SolvedBuild<'a> {
    /// The pieces of the build: helm, torso, arm, waist, feet and charm.
    pub equipments: Vec<Equipment<'a>>,
    /// The sockets of the pieces and the weapon.
    pub avail_slots: Vec<i32>,
    /// The sockets left once the sockets to leave free were set aside.
    pub rest_slots: Vec<i32>,
    /// The skills that the pieces leave to decorations, with their levels.
    pub residual: StrMap<i32>,
    /// The packings that meet the skills left and fit the sockets left.
    pub deco_combs: Vec<DecorationCombination>,
    /// The score by which the builds are ordered.
    pub score: i64,
}

/// The scores of the bag do not rise.
pub open spec fn sorted_desc<'a>(bag: Seq<Candidate<'a>>) -> bool {
    forall|i: int, j: int| 0 <= i < j < bag.len() ==> (#[trigger] bag[i]).score >= (#[trigger] bag[j]).score
}

/// Where a build of the score `score` goes into the bag: behind the last
/// build whose score is not lower.
pub open spec fn bag_pos<'a>(bag: Seq<Candidate<'a>>, score: i64) -> int
    decreases bag.len(),
{
    if bag.len() == 0 {
        0
    } else if bag.last().score >= score {
        bag.len() as int
    } else {
        bag_pos(bag.drop_last(), score)
    }
}

/// The place at which a build goes into the bag is within the bag, behind
/// the builds whose score is not lower and before the builds whose score is.
pub proof fn lemma_bag_pos<'a>(bag: Seq<Candidate<'a>>, score: i64)
    requires
        sorted_desc(bag),
    ensures
        0 <= bag_pos(bag, score) <= bag.len(),
        forall|a: int| 0 <= a < bag_pos(bag, score) ==> (#[trigger] bag[a]).score >= score,
        forall|a: int| bag_pos(bag, score) <= a < bag.len() ==> (#[trigger] bag[a]).score < score,
    decreases bag.len(),
{
    if bag.len() > 0 {
        if bag.last().score >= score {
            assert forall|a: int| 0 <= a < bag.len() implies (#[trigger] bag[a]).score >= score by {
                if a < bag.len() - 1 {
                    assert(bag[a].score >= bag[bag.len() - 1].score);
                }
            }
        } else {
            let rest = bag.drop_last();
            assert forall|a: int, b: int| 0 <= a < b < rest.len() implies (#[trigger] rest[a]).score >= (
            #[trigger] rest[b]).score by {
                assert(bag[a].score >= bag[b].score);
            }
            lemma_bag_pos(rest, score);
            assert forall|a: int| 0 <= a < bag_pos(bag, score) implies (#[trigger] bag[a]).score
                >= score by {
                assert(rest[a].score >= score);
            }
            assert forall|a: int| bag_pos(bag, score) <= a < bag.len() implies (
            #[trigger] bag[a]).score < score by {
                if a < rest.len() {
                    assert(rest[a].score < score);
                }
            }
        }
    }
}

/// Offers an accepted build to the bag. A bag that holds
/// `MAX_ANSWER_LENGTH` builds takes no more; else the build goes behind the
/// builds whose score is not lower. Returns whether the bag took it.
pub fn offer<'a>(bag: &mut Vec<Candidate<'a>>, c: Candidate<'a>) -> (taken: bool)
    requires
        sorted_desc(old(bag)@),
    ensures
        taken == (old(bag)@.len() < MAX_ANSWER_LENGTH),
        !taken ==> final(bag)@ == old(bag)@,
        taken ==> final(bag)@ == old(bag)@.insert(bag_pos(old(bag)@, c.score), c),
        sorted_desc(final(bag)@),
{
    if bag.len() >= MAX_ANSWER_LENGTH {
        return false;
    }
    let ghost before = bag@;
    let mut pos: usize = bag.len();
    assert(before.subrange(0, pos as int) =~= before);
    while pos > 0 && bag[pos - 1].score < c.score
        invariant
            pos <= bag@.len(),
            before == bag@,
            bag_pos(before, c.score) == bag_pos(before.subrange(0, pos as int), c.score),
        decreases pos,
    {
        assert(before.subrange(0, pos as int).drop_last() =~= before.subrange(0, pos - 1));
        assert(before.subrange(0, pos as int).last() == before[pos - 1]);
        pos -= 1;
    }
    proof {
        if pos > 0 {
            assert(before.subrange(0, pos as int).last() == before[pos - 1]);
        }
        assert(bag_pos(before, c.score) == pos);
        lemma_bag_pos(before, c.score);
    }
    bag.insert(pos, c);
    proof {
        let now = bag@;
        assert forall|i: int, j: int| 0 <= i < j < now.len() implies (#[trigger] now[i]).score >= (
        #[trigger] now[j]).score by {
            if i < pos && j < pos {
                assert(before[i].score >= before[j].score);
            } else if i < pos && j == pos {
                assert(before[i].score >= c.score);
            } else if i < pos && j > pos {
                assert(before[i].score >= c.score);
                assert(before[j - 1].score < c.score);
            } else if i == pos {
                assert(before[j - 1].score < c.score);
            } else {
                assert(before[i - 1].score >= before[j - 1].score);
            }
        }
    }
    true
}

/// The packings `out` meet the skills `res` left to decorations within the
/// sockets `rest`: where no skill is left, the one packing without sockets;
/// else, in
/// the order of the counter, every packing for the skills left that fits.
pub open spec fn packings_of(
    out: Seq<DecorationCombination>,
    res: Seq<(Seq<char>, i32)>,
    table: &DecorationCombinations,
    rest: Seq<i32>,
) -> bool {
    if res.len() == 0 {
        out.len() == 1 && out[0].sum@ == Seq::new(MAX_SLOT_LEVEL as nat, |s: int| 0i32)
            && out[0].combs_per_skill.entries().len() == 0
    } else {
        out.len() > 0 && exists|cs: Seq<Seq<int>>|
            enumerates_fitting(out, cs, req_ids(res), table.lists(res), rest)
    }
}

/// `b` is the build of the pieces of the accepted candidate `c`, with the
/// packings that meet what the pieces leave to decorations.
pub open spec fn solved_from<'a>(b: SolvedBuild<'a>, c: Candidate<'a>, table: &DecorationCombinations) -> bool {
    &&& b.equipments@ == c.equipments@
    &&& b.avail_slots@ == c.avail_slots@
    &&& b.rest_slots@ == c.rest_slots@
    &&& b.residual.entries() == c.residual.entries()
    &&& b.score == c.score
    &&& packings_of(b.deco_combs@, b.residual.entries(), table, b.rest_slots@)
}

/// Turns an accepted build into a build of the answer: lists the packings
/// that meet what its pieces leave to decorations.
pub fn finish<'a>(c: Candidate<'a>, table: &DecorationCombinations) -> (b: SolvedBuild<'a>)
    requires
        is_slots(c.rest_slots@),
        c.residual.entries().len() == 0 || some_choice_fits(
            table.lists(c.residual.entries()),
            c.rest_slots@,
        ),
    ensures
        solved_from(b, c, table),
{
    let deco_combs = if c.residual.len() == 0 {
        let mut one: Vec<DecorationCombination> = Vec::new();
        let sum = zero_slots();
        assert(sum@ =~= Seq::new(MAX_SLOT_LEVEL as nat, |s: int| 0i32));
        one.push(DecorationCombination { combs_per_skill: StrMap::new(), sum });
        one
    } else {
        let all = table.get_possible_combs(&c.residual);
        let fitting = select_fitting(
            &all,
            &c.rest_slots,
            Ghost(req_ids(c.residual.entries())),
            Ghost(table.lists(c.residual.entries())),
        );
        proof {
            let lists = table.lists(c.residual.entries());
            let cs = choose|cs: Seq<Seq<int>>|
                enumerates_fitting(
                    fitting@,
                    cs,
                    req_ids(c.residual.entries()),
                    lists,
                    c.rest_slots@,
                );
            let pick = choose|pick: Seq<int>|
                is_choice(lists, pick) && crate::slots::fits(
                    c.rest_slots@,
                    crate::data::deco_combination::sum_vec(lists, pick),
                );
            assert(cs.contains(pick));
            assert(fitting@.len() > 0);
        }
        fitting
    };
    SolvedBuild {
        equipments: c.equipments,
        avail_slots: c.avail_slots,
        rest_slots: c.rest_slots,
        residual: c.residual,
        deco_combs,
        score: c.score,
    }
}

} // verus!
