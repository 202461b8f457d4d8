use mhr_calculator::data::deco::Decoration;
use mhr_calculator::data::deco_combination::{DecorationCombination, DecorationCombinations};
use mhr_calculator::data::skill::{Skill, MAX_SLOT_LEVEL};
use mhr_calculator::str_map::StrMap;
use std::cmp::Ordering;

fn skill(id: &str, max_level: i32) -> Skill {
    Skill { id: id.to_string(), max_level, names: StrMap::new(), texts: StrMap::new() }
}

fn deco(id: &str, skill_id: &str, skill_level: i32, slot_size: i32) -> Decoration {
    Decoration {
        id: id.to_string(),
        names: StrMap::new(),
        skill_names: StrMap::new(),
        skill_id: skill_id.to_string(),
        skill_level,
        slot_size,
    }
}

fn table() -> DecorationCombinations {
    let mut skills = StrMap::new();
    skills.insert("guard".to_string(), skill("guard", 3));
    skills.insert("atk".to_string(), skill("atk", 3));
    skills.insert("plain".to_string(), skill("plain", 2));
    let mut by_skill = StrMap::new();
    by_skill.insert("guard".to_string(), vec![deco("g1", "guard", 1, 1), deco("g2", "guard", 3, 2)]);
    by_skill.insert("atk".to_string(), vec![deco("a", "atk", 2, 2)]);
    DecorationCombinations::new(&by_skill, &skills)
}

fn req(skills: &[(&str, i32)]) -> StrMap<i32> {
    let mut q = StrMap::new();
    for (name, level) in skills {
        q.insert(name.to_string(), *level);
    }
    q
}

#[test]
fn number_of_socket_sizes() {
    assert_eq!(MAX_SLOT_LEVEL, 4);
}

#[test]
fn single_decoration_needs_rounded_up_copies() {
    let t = table();
    assert_eq!(t.costs_of_level(&"atk".to_string(), 1), vec![vec![0, 1, 0, 0]]);
    assert_eq!(t.costs_of_level(&"atk".to_string(), 2), vec![vec![0, 1, 0, 0]]);
    assert_eq!(t.costs_of_level(&"atk".to_string(), 3), vec![vec![0, 2, 0, 0]]);
}

#[test]
fn several_decorations_give_the_cheapest_costs() {
    let t = table();
    assert_eq!(t.costs_of_level(&"guard".to_string(), 1), vec![vec![1, 0, 0, 0]]);
    assert_eq!(t.costs_of_level(&"guard".to_string(), 2), vec![vec![2, 0, 0, 0], vec![0, 1, 0, 0]]);
    assert_eq!(t.costs_of_level(&"guard".to_string(), 3), vec![vec![3, 0, 0, 0], vec![0, 1, 0, 0]]);
}

#[test]
fn no_cost_is_at_or_below_another() {
    let mut skills = StrMap::new();
    skills.insert("s".to_string(), skill("s", 7));
    let mut by_skill = StrMap::new();
    by_skill.insert(
        "s".to_string(),
        vec![deco("d1", "s", 1, 1), deco("d2", "s", 2, 2), deco("d3", "s", 3, 3), deco("d4", "s", 4, 4)],
    );
    let t = DecorationCombinations::new(&by_skill, &skills);
    for level in 1..=7 {
        let costs = t.costs_of_level(&"s".to_string(), level);
        assert!(!costs.is_empty());
        for (i, a) in costs.iter().enumerate() {
            assert_eq!(a.len(), 4);
            let granted = a[0] + 2 * a[1] + 3 * a[2] + 4 * a[3];
            assert!(granted >= level);
            for (j, b) in costs.iter().enumerate() {
                if i != j {
                    assert!(!(0..4).all(|s| a[s] <= b[s]));
                }
            }
        }
    }
}

#[test]
fn unknown_skill_or_level_has_no_cost() {
    let t = table();
    assert_eq!(t.costs_of_level(&"other".to_string(), 1), Vec::<Vec<i32>>::new());
    assert_eq!(t.costs_of_level(&"plain".to_string(), 1), Vec::<Vec<i32>>::new());
    assert_eq!(t.costs_of_level(&"guard".to_string(), 0), Vec::<Vec<i32>>::new());
    assert_eq!(t.costs_of_level(&"guard".to_string(), 4), Vec::<Vec<i32>>::new());
    assert_eq!(t.costs_of_level(&"guard".to_string(), -1), Vec::<Vec<i32>>::new());
    assert!(t.get(&"other".to_string()).is_none());
    assert_eq!(t.get(&"guard".to_string()).map(|l| l.len()), Some(3));
    assert_eq!(t.get(&"atk".to_string()).map(|l| l.len()), Some(3));
}

#[test]
fn costs_that_another_cost_can_stand_in_for_are_left_out() {
    let mut skills = StrMap::new();
    skills.insert("s".to_string(), skill("s", 3));
    let mut by_skill = StrMap::new();
    by_skill.insert("s".to_string(), vec![deco("small", "s", 1, 2), deco("large", "s", 2, 4)]);
    let t = DecorationCombinations::new(&by_skill, &skills);
    assert_eq!(t.costs_of_level(&"s".to_string(), 1), vec![vec![0, 1, 0, 0]]);
    assert_eq!(t.costs_of_level(&"s".to_string(), 2), vec![vec![0, 2, 0, 0], vec![0, 0, 0, 1]]);
    assert_eq!(t.costs_of_level(&"s".to_string(), 3), vec![vec![0, 3, 0, 0], vec![0, 1, 0, 1]]);
    assert_eq!(t.get(&"s".to_string()).unwrap().len(), 3);
    assert_eq!(t.get_by_level(&"s".to_string(), 0), vec![vec![0, 1, 0, 0]]);
    assert_eq!(t.get_by_level(&"s".to_string(), 2), vec![vec![0, 3, 0, 0], vec![0, 1, 0, 1]]);
    assert_eq!(t.get_by_level(&"other".to_string(), 5), Vec::<Vec<i32>>::new());
}

#[test]
fn packings_in_the_order_of_the_counter() {
    let t = table();
    let combs = t.get_possible_combs(&req(&[("guard", 3), ("atk", 3)]));
    assert_eq!(combs.len(), 2);
    assert_eq!(combs[0].sum, vec![3, 2, 0, 0]);
    assert_eq!(combs[1].sum, vec![0, 3, 0, 0]);
    assert_eq!(combs[0].combs_per_skill.get(&"guard".to_string()), Some(&vec![3, 0, 0, 0]));
    assert_eq!(combs[0].combs_per_skill.get(&"atk".to_string()), Some(&vec![0, 2, 0, 0]));
    assert_eq!(combs[1].combs_per_skill.get(&"guard".to_string()), Some(&vec![0, 1, 0, 0]));
    assert_eq!(combs[1].combs_per_skill.get(&"atk".to_string()), Some(&vec![0, 2, 0, 0]));
    let combs = t.get_possible_combs(&req(&[("guard", 2), ("guard2", 1)]));
    assert_eq!(combs.len(), 0);
    let combs = t.get_possible_combs(&req(&[]));
    assert_eq!(combs.len(), 0);
    let mut skills = StrMap::new();
    skills.insert("guard".to_string(), skill("guard", 3));
    skills.insert("ward".to_string(), skill("ward", 3));
    let mut by_skill = StrMap::new();
    by_skill.insert("guard".to_string(), vec![deco("g1", "guard", 1, 1), deco("g2", "guard", 3, 2)]);
    by_skill.insert("ward".to_string(), vec![deco("w1", "ward", 1, 1), deco("w2", "ward", 3, 3)]);
    let t = DecorationCombinations::new(&by_skill, &skills);
    let combs = t.get_possible_combs(&req(&[("guard", 3), ("ward", 2)]));
    let sums: Vec<Vec<i32>> = combs.iter().map(|c| c.sum.clone()).collect();
    assert_eq!(sums, vec![vec![5, 0, 0, 0], vec![2, 1, 0, 0], vec![3, 0, 1, 0], vec![0, 1, 1, 0]]);
}

#[test]
fn some_packing_fits_or_none() {
    let t = table();
    let q = req(&[("guard", 3), ("atk", 3)]);
    assert!(t.has_possible_combs(&q, &vec![0, 0, 3, 0]));
    assert!(t.has_possible_combs(&q, &vec![3, 2, 0, 0]));
    assert!(t.has_possible_combs(&q, &vec![0, 3, 0, 0]));
    assert!(!t.has_possible_combs(&q, &vec![0, 0, 2, 0]));
    assert!(!t.has_possible_combs(&q, &vec![9, 1, 0, 0]));
    assert!(t.has_possible_combs(&q, &vec![9, 2, 0, 0]));
    assert!(t.has_possible_combs(&req(&[]), &vec![0, 0, 0, 0]));
    assert!(!t.has_possible_combs(&req(&[("other", 1)]), &vec![9, 9, 9, 9]));
    assert!(t.has_possible_combs(&req(&[("atk", 3)]), &vec![0, 3, 0, 0]));
}

#[test]
fn packings_are_handed_out_until_one_is_accepted() {
    let t = table();
    let q = req(&[("guard", 3), ("atk", 3)]);
    assert!(t.iter_possible_combs(&q, |c: DecorationCombination| c.sum[0] == 0));
    assert!(t.iter_possible_combs(&q, |c: DecorationCombination| c.sum[0] == 3));
    assert!(!t.iter_possible_combs(&q, |c: DecorationCombination| c.sum[2] > 0));
    assert!(t.iter_possible_combs(&req(&[]), |_c: DecorationCombination| false));
}

#[test]
fn walk_starts_at_zero_and_steps_on() {
    let t = table();
    let q = req(&[("guard", 3), ("atk", 3)]);
    let (ids, lists, mut indices) = t.get_iter_init_data(&q);
    assert_eq!(ids, vec![&"guard".to_string(), &"atk".to_string()]);
    assert_eq!(lists, vec![vec![vec![3, 0, 0, 0], vec![0, 1, 0, 0]], vec![vec![0, 2, 0, 0]]]);
    assert_eq!(indices, vec![0, 0]);
    let first = t.get_next_deco_comb(&ids, &lists, &indices).unwrap();
    assert_eq!(first.sum, vec![3, 2, 0, 0]);
    assert!(t.proceed_next_iter(&mut indices, &lists));
    assert_eq!(indices, vec![1, 0]);
    let second = t.get_next_deco_comb(&ids, &lists, &indices).unwrap();
    assert_eq!(second.sum, vec![0, 3, 0, 0]);
    assert!(!t.proceed_next_iter(&mut indices, &lists));
    assert_eq!(indices, vec![0, 0]);
}

#[test]
fn sum_that_cannot_be_written_down_is_no_packing() {
    let t = table();
    let a = "a".to_string();
    let b = "b".to_string();
    let ids = vec![&a, &b];
    let lists = vec![vec![vec![i32::MAX, 0, 0, 0]], vec![vec![1, 0, 0, 0]]];
    assert!(t.get_next_deco_comb(&ids, &lists, &vec![0, 0]).is_none());
    let lists = vec![vec![vec![i32::MAX - 1, 0, 0, 0]], vec![vec![1, 0, 0, 0]]];
    assert_eq!(t.get_next_deco_comb(&ids, &lists, &vec![0, 0]).unwrap().sum, vec![i32::MAX, 0, 0, 0]);
}

#[test]
fn slot_promotion() {
    assert!(DecorationCombination::is_possible_static(&vec![0, 0, 2, 0], &vec![0, 1, 0, 0]));
    assert!(DecorationCombination::is_possible_static(&vec![0, 0, 1, 0], &vec![1, 0, 0, 0]));
    assert!(!DecorationCombination::is_possible_static(&vec![2, 0, 0, 0], &vec![0, 1, 0, 0]));
    assert!(DecorationCombination::is_possible_static(&vec![0, 0, 0, 0], &vec![0, 0, 0, 0]));
    assert!(!DecorationCombination::is_possible_static(&vec![0, 0, 0, 3], &vec![1, 1, 1, 1]));
    assert!(DecorationCombination::is_possible_static(&vec![0, 0, 0, 4], &vec![1, 1, 1, 1]));
    assert!(DecorationCombination::is_possible_static(&vec![1, 1, 1, 1], &vec![1, 1, 1, 1]));
    assert!(!DecorationCombination::is_possible_static(&vec![1, 1, 1, 1], &vec![0, 0, 0, 2]));
    assert!(DecorationCombination::is_possible_static(
        &vec![i32::MAX, i32::MAX, i32::MAX, i32::MAX],
        &vec![i32::MAX, i32::MAX, i32::MAX, i32::MAX]
    ));
    let c = DecorationCombination { combs_per_skill: StrMap::new(), sum: vec![0, 2, 0, 0] };
    assert!(c.is_possible(&vec![0, 1, 1, 0]));
    assert!(!c.is_possible(&vec![5, 1, 0, 0]));
}

#[test]
fn slot_promotion_in_place() {
    let mut free = vec![3, 0, 2, 0];
    let mut asked = vec![3, 2, 0, 0];
    assert!(DecorationCombination::is_possible_static_mut(&mut free, &mut asked));
    assert_eq!(free, vec![0, 0, 0, 0]);
    assert_eq!(asked, vec![0, 2, 0, 0]);
    let mut free = vec![1, 0, 5, 1];
    let mut asked = vec![2, 1, 0, 0];
    assert!(DecorationCombination::is_possible_static_mut(&mut free, &mut asked));
    assert_eq!(free, vec![0, 0, 3, 1]);
    assert_eq!(asked, vec![1, 2, 0, 0]);
    let mut free = vec![1, 0, 0, 1];
    let mut asked = vec![2, 1, 0, 0];
    assert!(!DecorationCombination::is_possible_static_mut(&mut free, &mut asked));
    assert_eq!(free, vec![0, 0, 0, 0]);
    assert_eq!(asked, vec![1, 2, 2, 1]);
}

#[test]
fn vectors_are_compared_position_by_position() {
    assert_eq!(DecorationCombinations::compare(&vec![1, 2, 3], &vec![1, 2, 3]), Ordering::Equal);
    assert_eq!(DecorationCombinations::compare(&vec![1, 2, 3], &vec![1, 3, 0]), Ordering::Less);
    assert_eq!(DecorationCombinations::compare(&vec![2, 0, 0], &vec![1, 9, 9]), Ordering::Greater);
    assert_eq!(DecorationCombinations::compare(&vec![1, 2], &vec![1, 2, 3]), Ordering::Equal);
    assert_eq!(DecorationCombinations::compare(&vec![], &vec![1]), Ordering::Equal);
    assert_eq!(DecorationCombinations::compare(&vec![0, 0, 0, 1], &vec![0, 0, 0, 0]), Ordering::Greater);
}

#[test]
fn copy_of_a_packing() {
    let t = table();
    let combs = t.get_possible_combs(&req(&[("guard", 3), ("atk", 3)]));
    let copy = combs[1].clone();
    assert_eq!(copy.sum, vec![0, 3, 0, 0]);
    assert_eq!(copy.combs_per_skill.get(&"guard".to_string()), Some(&vec![0, 1, 0, 0]));
    assert_eq!(copy.combs_per_skill.len(), 2);
}

#[test]
fn lower_levels_fit_where_the_higher_did() {
    let t = table();
    for high in 1..=3 {
        for low in 1..=high {
            for a in 0..3 {
                for b in 0..3 {
                    let free = vec![a, b, 0, 1];
                    if t.has_possible_combs(&req(&[("atk", high), ("guard", 3)]), &free) {
                        assert!(t.has_possible_combs(&req(&[("atk", low), ("guard", 2)]), &free));
                        assert!(t.has_possible_combs(&req(&[("atk", low), ("guard", 1)]), &free));
                    }
                }
            }
        }
    }
    assert!(t.has_possible_combs(&req(&[("atk", 3)]), &vec![0, 1, 1, 0]));
    assert!(!t.has_possible_combs(&req(&[("atk", 3)]), &vec![0, 1, 0, 0]));
    assert!(t.has_possible_combs(&req(&[("atk", 2)]), &vec![0, 1, 0, 0]));
}

#[test]
fn fewer_skills_fit_where_more_did() {
    let t = table();
    let free = vec![1, 1, 0, 0];
    assert!(t.has_possible_combs(&req(&[("atk", 2), ("guard", 1)]), &free));
    assert!(t.has_possible_combs(&req(&[("atk", 2)]), &free));
    assert!(t.has_possible_combs(&req(&[("guard", 1)]), &free));
}

#[test]
fn every_level_within_reach_has_a_cost() {
    let mut skills = StrMap::new();
    skills.insert("s".to_string(), skill("s", 7));
    skills.insert("t".to_string(), skill("t", 3));
    skills.insert("u".to_string(), skill("u", 5));
    let mut by_skill = StrMap::new();
    by_skill.insert("s".to_string(), vec![deco("d1", "s", 4, 1), deco("d2", "s", 2, 1), deco("d3", "s", 5, 1)]);
    by_skill.insert("t".to_string(), vec![deco("e1", "t", 2, 1), deco("e2", "t", 2, 2)]);
    by_skill.insert("u".to_string(), vec![deco("f1", "u", 3, 1), deco("f2", "u", 1, 2)]);
    let t = DecorationCombinations::new(&by_skill, &skills);
    assert_eq!(t.costs_of_level(&"s".to_string(), 7), vec![vec![2, 0, 0, 0]]);
    assert_eq!(t.costs_of_level(&"s".to_string(), 6), vec![vec![2, 0, 0, 0]]);
    assert_eq!(t.costs_of_level(&"s".to_string(), 5), vec![vec![1, 0, 0, 0]]);
    assert_eq!(t.costs_of_level(&"t".to_string(), 3), vec![vec![2, 0, 0, 0]]);
    assert_eq!(t.costs_of_level(&"t".to_string(), 2), vec![vec![1, 0, 0, 0]]);
    assert_eq!(t.costs_of_level(&"u".to_string(), 3), vec![vec![1, 0, 0, 0]]);
    assert_eq!(t.costs_of_level(&"u".to_string(), 4), vec![vec![2, 0, 0, 0]]);
    assert_eq!(t.costs_of_level(&"u".to_string(), 5), vec![vec![2, 0, 0, 0]]);
    assert!(t.has_possible_combs(&req(&[("s", 7)]), &vec![2, 0, 0, 0]));
    assert!(t.has_possible_combs(&req(&[("s", 6)]), &vec![2, 0, 0, 0]));
    assert!(t.has_possible_combs(&req(&[("t", 3)]), &vec![0, 2, 0, 0]));
    for level in 1..=5 {
        for lower in 1..=level {
            for a in 0..3 {
                for b in 0..3 {
                    let free = vec![a, b, 0, 0];
                    if t.has_possible_combs(&req(&[("u", level), ("s", 7)]), &free) {
                        assert!(t.has_possible_combs(&req(&[("u", lower), ("s", 6)]), &free));
                    }
                }
            }
        }
    }
}
