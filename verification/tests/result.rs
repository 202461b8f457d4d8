use mhr_calculator::calc::calc_equipment::CalcEquipment;
use mhr_calculator::data::armor::{
    AnomalyArmor, ArmorPart, ArmorSkill, ArmorStat, BaseArmor, SexType, Talisman, TalismanSkill,
};
use mhr_calculator::data::data_manager::DataManager;
use mhr_calculator::data::deco::Decoration;
use mhr_calculator::data::skill::Skill;
use mhr_calculator::solver::{asked_part, calculate_skillset};
use mhr_calculator::solver_bag::{finish, offer, MAX_ANSWER_LENGTH};
use mhr_calculator::solver_eval::{evaluate, Candidate};
use mhr_calculator::solver_pools::{
    armor_piece, armor_pool, charm_piece, charm_pool, clone_piece, drop_dominated, empty_piece, grants_any,
    part_at, position_pools, sex_fits, slot_charm_pool, slot_only_pool,
};
use mhr_calculator::solver_result::{
    alternatives, concrete_builds, copy_packings, show_armor, show_base, show_build, show_talisman,
};
use mhr_calculator::str_map::StrMap;

fn armor(id: &str, part: ArmorPart, skills: &[(&str, i32)], slots: [i32; 3]) -> BaseArmor {
    let mut map = StrMap::new();
    for (name, level) in skills {
        map.insert(name.to_string(), ArmorSkill { level: *level });
    }
    BaseArmor {
        id: id.to_string(),
        part,
        sex_type: SexType::All,
        names: StrMap::new(),
        rarity: 7,
        stat: ArmorStat { defense: 0, fire_res: 0, water_res: 0, ice_res: 0, elec_res: 0, dragon_res: 0 },
        skills: map,
        slots: slots.to_vec(),
    }
}

fn catalog() -> DataManager {
    let mut armors = StrMap::new();
    for a in [
        armor("crit_helm", ArmorPart::Helm, &[("crit", 2)], [1, 0, 0]),
        armor("atk_helm", ArmorPart::Helm, &[("atk", 1)], [2, 0, 0]),
        armor("plain_helm_a", ArmorPart::Helm, &[("other", 1)], [3, 0, 0]),
        armor("plain_helm_b", ArmorPart::Helm, &[("fish", 1)], [3, 0, 0]),
        armor("weak_helm", ArmorPart::Helm, &[("atk", 1)], [0, 0, 0]),
        armor("broken_helm", ArmorPart::Helm, &[("atk", 9)], [7, 0, 0]),
        armor("plain_torso", ArmorPart::Torso, &[], [2, 1, 0]),
    ] {
        armors.insert(a.id.clone(), a);
    }
    let mut skills = StrMap::new();
    for (id, max) in [("crit", 3), ("atk", 3)] {
        skills.insert(
            id.to_string(),
            Skill { id: id.to_string(), max_level: max, names: StrMap::new(), texts: StrMap::new() },
        );
    }
    let mut decos = StrMap::new();
    decos.insert(
        "a".to_string(),
        Decoration {
            id: "a".to_string(),
            names: StrMap::new(),
            skill_names: StrMap::new(),
            skill_id: "atk".to_string(),
            skill_level: 1,
            slot_size: 2,
        },
    );
    DataManager::new(armors, skills, decos)
}

fn levels(skills: &[(&str, i32)]) -> StrMap<i32> {
    let mut q = StrMap::new();
    for (name, level) in skills {
        q.insert(name.to_string(), *level);
    }
    q
}

fn ids(pool: &Vec<mhr_calculator::calc::equipment::Equipment>) -> Vec<String> {
    pool.iter().map(|e| e.id().clone()).collect()
}

#[test]
fn positions_and_filters() {
    assert_eq!(part_at(0), ArmorPart::Helm);
    assert_eq!(part_at(4), ArmorPart::Feet);
    assert_eq!(part_at(5), ArmorPart::Talisman);
    assert!(sex_fits(SexType::All, SexType::Male));
    assert!(sex_fits(SexType::Female, SexType::All));
    assert!(sex_fits(SexType::Male, SexType::Male));
    assert!(!sex_fits(SexType::Male, SexType::Female));
}

#[test]
fn pools_of_the_catalog() {
    let mut dm = catalog();
    assert_eq!(
        ids(&armor_pool(&dm, 0, SexType::All)),
        vec!["crit_helm", "atk_helm", "plain_helm_a", "plain_helm_b", "weak_helm"]
    );
    assert_eq!(ids(&armor_pool(&dm, 2, SexType::All)), Vec::<String>::new());
    assert_eq!(ids(&slot_only_pool(&dm, 0, SexType::All)), vec!["__slot_1-0-0", "__slot_2-0-0", "__slot_3-0-0", "__slot_0-0-0"]);
    assert_eq!(ids(&slot_only_pool(&dm, 1, SexType::All)), vec!["__slot_2-1-0"]);
    assert_eq!(ids(&charm_pool(&dm, SexType::All)), Vec::<String>::new());
    dm.set_talismans(vec![
        Talisman { id: "c1".to_string(), skills: vec![], slot_sizes: vec![2, 0, 0] },
        Talisman { id: "bad".to_string(), skills: vec![], slot_sizes: vec![9, 0, 0] },
    ]);
    assert_eq!(ids(&charm_pool(&dm, SexType::All)), vec!["c1"]);
    assert_eq!(ids(&slot_charm_pool(&dm, SexType::All)), vec!["__slot_2-0-0"]);
    assert_eq!(empty_piece(&dm, 3, SexType::Female).map(|e| e.id().clone()), Some("__empty_waist".to_string()));
    assert_eq!(empty_piece(&dm, 5, SexType::Female).map(|e| e.id().clone()), Some("__empty_talisman".to_string()));
}

#[test]
fn pools_of_a_position() {
    let dm = catalog();
    let (unique, open) = position_pools(&dm, 0, &levels(&[("crit", 2)]), &levels(&[("atk", 2)]), SexType::All);
    assert_eq!(ids(&unique), vec!["crit_helm", "__empty_helm"]);
    assert_eq!(ids(&open), vec!["__empty_helm", "atk_helm", "__slot_3-0-0"]);
    let (unique, open) = position_pools(&dm, 1, &levels(&[("crit", 2)]), &levels(&[("atk", 2)]), SexType::All);
    assert_eq!(ids(&unique), vec!["__empty_torso"]);
    assert_eq!(ids(&open), vec!["__empty_torso", "__slot_2-1-0"]);
    let (unique, open) = position_pools(&dm, 5, &levels(&[]), &levels(&[]), SexType::All);
    assert_eq!(ids(&unique), vec!["__empty_talisman"]);
    assert_eq!(ids(&open), vec!["__empty_talisman"]);
}

#[test]
fn dominated_pieces_are_dropped() {
    let dm = catalog();
    let pool = armor_pool(&dm, 0, SexType::All);
    let kept = drop_dominated(pool);
    assert_eq!(ids(&kept), vec!["crit_helm", "atk_helm", "plain_helm_a", "plain_helm_b"]);
    let twice = vec![
        armor("a", ArmorPart::Helm, &[("x", 1)], [1, 0, 0]),
        armor("b", ArmorPart::Helm, &[("x", 1)], [1, 0, 0]),
        armor("c", ArmorPart::Helm, &[("x", 2)], [1, 1, 0]),
        armor("d", ArmorPart::Helm, &[], [4, 0, 0]),
    ];
    let pool: Vec<_> = twice.iter().map(|b| armor_piece(b, b)).collect();
    assert_eq!(ids(&drop_dominated(pool)), vec!["c", "d"]);
    let same = vec![
        armor("a", ArmorPart::Helm, &[("x", 1)], [1, 0, 0]),
        armor("b", ArmorPart::Helm, &[("x", 1)], [1, 0, 0]),
    ];
    let pool: Vec<_> = same.iter().map(|b| armor_piece(b, b)).collect();
    assert_eq!(ids(&drop_dominated(pool)), vec!["a"]);
    assert_eq!(ids(&drop_dominated(vec![])), Vec::<String>::new());
}

#[test]
fn pieces_grant_skills_or_not() {
    let base = armor("a", ArmorPart::Helm, &[("x", 1), ("y", 2)], [1, 0, 0]);
    let piece = armor_piece(&base, &base);
    assert!(grants_any(&piece, &levels(&[("y", 1)])));
    assert!(grants_any(&piece, &levels(&[("z", 1), ("x", 5)])));
    assert!(!grants_any(&piece, &levels(&[("z", 1)])));
    assert!(!grants_any(&piece, &levels(&[])));
    let copy = clone_piece(&piece);
    assert_eq!(copy.id(), "a");
    assert_eq!(copy.slots(), &vec![1, 0, 0, 0]);
    let tali = Talisman {
        id: "t".to_string(),
        skills: vec![TalismanSkill { id: "x".to_string(), level: 1 }],
        slot_sizes: vec![0, 0, 0],
    };
    assert!(grants_any(&charm_piece(&tali), &levels(&[("x", 1)])));
}

#[test]
fn levels_above_zero_are_asked() {
    let r = asked_part(&levels(&[("a", 2), ("b", 0), ("c", -1), ("d", 1)]));
    assert_eq!(r.len(), 2);
    assert_eq!(r.key_at(0), "a");
    assert_eq!(r.key_at(1), "d");
    assert_eq!(r.get(&"d".to_string()), Some(&1));
}

#[test]
fn answer_tells_what_it_chose_from() {
    let dm = catalog();
    let r = calculate_skillset(
        vec![0, 0, 0],
        levels(&[("crit", 2), ("atk", 1), ("nothing", 0)]),
        vec![0, 0, 0, 0],
        SexType::All,
        &dm,
    );
    assert_eq!(r.no_deco.len(), 1);
    assert_eq!(r.no_deco.get(&"crit".to_string()), Some(&2));
    assert_eq!(r.yes_deco.len(), 1);
    assert_eq!(r.yes_deco.get(&"atk".to_string()), Some(&1));
    assert_eq!(r.unique.len(), 6);
    assert_eq!(r.open.len(), 6);
    assert_eq!(ids(&r.unique[0]), vec!["crit_helm", "__empty_helm"]);
    assert_eq!(ids(&r.open[0]), vec!["__empty_helm", "atk_helm", "__slot_3-0-0"]);
    assert_eq!(r.builds.len(), 1);
    let b = &r.builds[0];
    assert_eq!(ids(&b.equipments), vec![
        "crit_helm",
        "__slot_2-1-0",
        "__empty_arm",
        "__empty_waist",
        "__empty_feet",
        "__empty_talisman"
    ]);
    assert_eq!(b.deco_combs.len(), 1);
    assert_eq!(b.deco_combs[0].sum, vec![0, 1, 0, 0]);
    assert_eq!(b.avail_slots, vec![2, 1, 0, 0]);
    assert_eq!(b.score, 2);
}

#[test]
fn build_as_it_is_handed_out() {
    let dm = catalog();
    let r = calculate_skillset(vec![2, 0, 0], levels(&[("crit", 2)]), vec![0, 0, 0, 0], SexType::All, &dm);
    assert!(r.builds.len() >= 1);
    let best = &r.builds[0];
    assert_eq!(ids(&best.equipments)[0], "crit_helm");
    let shown = show_build(&best.equipments, &best.deco_combs).unwrap();
    assert_eq!(shown.armors.len(), 5);
    assert_eq!(shown.armors[0].base_id, "crit_helm");
    assert!(!shown.armors[0].is_anomaly);
    assert_eq!(shown.armors[0].skills.get(&"crit".to_string()), Some(&2));
    assert_eq!(shown.armors[0].slots, vec![1, 0, 0]);
    assert_eq!(shown.talisman.slots, vec![0, 0, 0]);
    assert_eq!(shown.talisman.skills.len(), 0);
    assert_eq!(shown.deco_combs.len(), best.deco_combs.len());
    let mut short = Vec::new();
    short.push(clone_piece(&best.equipments[0]));
    assert!(show_build(&short, &best.deco_combs).is_none());
    let mut wrong: Vec<_> = best.equipments.iter().map(|e| clone_piece(e)).collect();
    wrong.swap(0, 5);
    assert!(show_build(&wrong, &best.deco_combs).is_none());
}

#[test]
fn socket_only_pieces_stand_for_pieces_of_the_catalog() {
    let dm = catalog();
    let r = calculate_skillset(vec![0, 0, 0], levels(&[("atk", 1)]), vec![0, 0, 0, 0], SexType::All, &dm);
    let with_slot_helm =
        r.builds.iter().find(|b| ids(&b.equipments)[0] == "__slot_3-0-0" && ids(&b.equipments)[1] == "__empty_torso");
    let build = with_slot_helm.unwrap();
    let alts = alternatives(&build.equipments[0], &dm, 0, SexType::All);
    let names: Vec<&str> = alts.iter().map(|a| a.id().as_str()).collect();
    assert_eq!(names, vec!["plain_helm_a", "plain_helm_b"]);
    assert_eq!(alternatives(&build.equipments[1], &dm, 1, SexType::All).len(), 0);
    assert_eq!(alternatives(&build.equipments[0], &dm, 1, SexType::All).len(), 0);
    let shown = concrete_builds(build, &dm, SexType::All);
    assert_eq!(shown.len(), 2);
    assert_eq!(shown[0].armors[0].base_id, "plain_helm_a");
    assert_eq!(shown[1].armors[0].base_id, "plain_helm_b");
    assert_eq!(shown[0].armors[0].skills.get(&"other".to_string()), Some(&1));
    assert_eq!(shown[1].armors[0].slots, vec![3, 0, 0]);
    assert_eq!(shown[0].armors[1].base_id, "__empty_torso");
    assert_eq!(shown[0].deco_combs.len(), build.deco_combs.len());
    assert_eq!(shown[0].deco_combs[0].sum, build.deco_combs[0].sum);

    let both = r.builds.iter().find(|b| ids(&b.equipments)[0] == "__slot_3-0-0" && ids(&b.equipments)[1] == "__slot_2-1-0");
    let shown = concrete_builds(both.unwrap(), &dm, SexType::All);
    let heads: Vec<(String, String)> =
        shown.iter().map(|b| (b.armors[0].base_id.clone(), b.armors[1].base_id.clone())).collect();
    assert_eq!(
        heads,
        vec![
            ("plain_helm_a".to_string(), "plain_torso".to_string()),
            ("plain_helm_b".to_string(), "plain_torso".to_string())
        ]
    );
}

#[test]
fn pieces_and_charms_as_they_are_handed_out() {
    let original = armor("helm", ArmorPart::Helm, &[("x", 1)], [1, 0, 0]);
    let affected = armor("__anomaly_0_helm", ArmorPart::Helm, &[("x", 2)], [2, 0, 0]);
    let piece = armor_piece(&affected, &original);
    let shown = show_armor(piece.as_armor().unwrap());
    assert_eq!(shown.base_id, "helm");
    assert!(shown.is_anomaly);
    assert_eq!(shown.skills.get(&"x".to_string()), Some(&2));
    assert_eq!(shown.slots, vec![2, 0, 0]);
    let plain = show_base(&original);
    assert_eq!(plain.base_id, "helm");
    assert!(!plain.is_anomaly);
    assert_eq!(plain.skills.get(&"x".to_string()), Some(&1));
    assert_eq!(plain.slots, vec![1, 0, 0]);
    let tali = Talisman {
        id: "t".to_string(),
        skills: vec![TalismanSkill { id: "x".to_string(), level: 1 }],
        slot_sizes: vec![3, 1, 0],
    };
    let charm = charm_piece(&tali);
    let shown = show_talisman(charm.as_talisman().unwrap());
    assert_eq!(shown.slots, vec![3, 1, 0]);
    assert_eq!(shown.skills.get(&"x".to_string()), Some(&1));
    assert_eq!(copy_packings(&vec![]).len(), 0);
}

fn candidate<'a>(dm: &'a DataManager, weapon: Vec<i32>) -> Candidate<'a> {
    let pieces = (0..6).map(|k| empty_piece(dm, k, SexType::All).unwrap()).collect();
    evaluate(pieces, &weapon, &levels(&[]), &vec![0, 0, 0, 0], dm).unwrap()
}

#[test]
fn bag_orders_by_score_and_is_capped() {
    let dm = catalog();
    let mut bag = Vec::new();
    assert!(offer(&mut bag, candidate(&dm, vec![1, 0, 0])));
    assert!(offer(&mut bag, candidate(&dm, vec![3, 0, 0])));
    assert!(offer(&mut bag, candidate(&dm, vec![2, 0, 0])));
    assert!(offer(&mut bag, candidate(&dm, vec![1, 1, 0])));
    assert!(offer(&mut bag, candidate(&dm, vec![2, 0, 0])));
    let scores: Vec<i64> = bag.iter().map(|c| c.score).collect();
    assert_eq!(scores, vec![3, 2, 2, 2, 1]);
    let sockets: Vec<Vec<i32>> = bag.iter().map(|c| c.avail_slots.clone()).collect();
    assert_eq!(
        sockets,
        vec![vec![0, 0, 1, 0], vec![0, 1, 0, 0], vec![2, 0, 0, 0], vec![0, 1, 0, 0], vec![1, 0, 0, 0]]
    );
    while bag.len() < MAX_ANSWER_LENGTH {
        assert!(offer(&mut bag, candidate(&dm, vec![0, 0, 0])));
    }
    assert!(!offer(&mut bag, candidate(&dm, vec![4, 4, 4])));
    assert_eq!(bag.len(), MAX_ANSWER_LENGTH);
    assert_eq!(bag[0].score, 3);
    let solved = finish(candidate(&dm, vec![4, 0, 0]), &dm.deco_combinations);
    assert_eq!(solved.score, 6);
    assert_eq!(solved.deco_combs.len(), 1);
    assert_eq!(solved.deco_combs[0].sum, vec![0, 0, 0, 0]);
}

#[test]
fn dominating_piece_serves_where_the_dominated_did() {
    let dm = catalog();
    let weak = armor("weak", ArmorPart::Helm, &[("atk", 1)], [1, 0, 0]);
    let strong = armor("strong", ArmorPart::Helm, &[("atk", 2), ("crit", 1)], [2, 1, 0]);
    assert!(armor_piece(&weak, &weak).is_le(&armor_piece(&strong, &strong)));
    let mut with_weak = vec![armor_piece(&weak, &weak)];
    let mut with_strong = vec![armor_piece(&strong, &strong)];
    for k in 1..6 {
        with_weak.push(empty_piece(&dm, k, SexType::All).unwrap());
        with_strong.push(empty_piece(&dm, k, SexType::All).unwrap());
    }
    let query = levels(&[("atk", 2)]);
    let free = vec![0, 0, 0, 0];
    let first = evaluate(with_weak, &vec![2, 0, 0], &query, &free, &dm).unwrap();
    let second = evaluate(with_strong, &vec![2, 0, 0], &query, &free, &dm).unwrap();
    assert_eq!(first.residual.get(&"atk".to_string()), Some(&1));
    assert_eq!(first.spare_slots, vec![1, 0, 0, 0]);
    assert_eq!(first.score, 1);
    assert_eq!(second.residual.len(), 0);
    assert_eq!(second.spare_slots, vec![1, 2, 0, 0]);
    assert_eq!(second.score, 5);
}

#[test]
fn pieces_are_equal_by_sockets_and_skills() {
    let one = armor("one", ArmorPart::Helm, &[("x", 1), ("y", 2)], [1, 2, 0]);
    let two = armor("two", ArmorPart::Torso, &[("y", 2), ("x", 1)], [2, 1, 0]);
    let more = armor("more", ArmorPart::Helm, &[("x", 1), ("y", 3)], [1, 2, 0]);
    let wider = armor("wider", ArmorPart::Helm, &[("x", 1), ("y", 2)], [1, 3, 0]);
    assert!(armor_piece(&one, &one) == armor_piece(&two, &two));
    assert!(armor_piece(&one, &one) != armor_piece(&more, &more));
    assert!(armor_piece(&more, &more) != armor_piece(&one, &one));
    assert!(armor_piece(&one, &one) != armor_piece(&wider, &wider));
    let tali = Talisman {
        id: "t".to_string(),
        skills: vec![TalismanSkill { id: "x".to_string(), level: 1 }, TalismanSkill { id: "y".to_string(), level: 2 }],
        slot_sizes: vec![2, 1, 0],
    };
    assert!(charm_piece(&tali) == armor_piece(&one, &one));
}

#[test]
fn filter_keeps_the_same_without_a_dominated_piece() {
    let listed = vec![
        armor("a", ArmorPart::Helm, &[("x", 1)], [1, 0, 0]),
        armor("b", ArmorPart::Helm, &[("x", 2)], [1, 1, 0]),
        armor("c", ArmorPart::Helm, &[("y", 1)], [4, 0, 0]),
        armor("d", ArmorPart::Helm, &[], [1, 1, 0]),
    ];
    let with_all: Vec<_> = listed.iter().map(|b| armor_piece(b, b)).collect();
    let without_a: Vec<_> = listed.iter().skip(1).map(|b| armor_piece(b, b)).collect();
    let without_d: Vec<_> = listed.iter().take(3).map(|b| armor_piece(b, b)).collect();
    assert_eq!(ids(&drop_dominated(with_all)), vec!["b", "c"]);
    assert_eq!(ids(&drop_dominated(without_a)), vec!["b", "c"]);
    assert_eq!(ids(&drop_dominated(without_d)), vec!["b", "c"]);
}

fn with_helm<'a>(helm: &'a BaseArmor, dm: &'a DataManager) -> Vec<mhr_calculator::calc::equipment::Equipment<'a>> {
    let mut v = vec![armor_piece(helm, helm)];
    for k in 1..6 {
        v.push(empty_piece(dm, k, SexType::All).unwrap());
    }
    v
}

#[test]
fn build_meets_a_lower_requirement_too() {
    let dm = catalog();
    let helm = armor("helm", ArmorPart::Helm, &[("crit", 1)], [2, 0, 0]);
    let free = vec![0, 0, 0, 0];
    let weapon = vec![2, 1, 0];
    let high = evaluate(with_helm(&helm, &dm), &weapon, &levels(&[("crit", 1), ("atk", 2)]), &free, &dm).unwrap();
    assert_eq!(high.spare_slots, vec![1, 0, 0, 0]);
    assert_eq!(high.score, 1);
    let lower = evaluate(with_helm(&helm, &dm), &weapon, &levels(&[("crit", 1), ("atk", 1)]), &free, &dm).unwrap();
    assert_eq!(lower.spare_slots, vec![1, 1, 0, 0]);
    assert_eq!(lower.score, 3);
    let fewer = evaluate(with_helm(&helm, &dm), &weapon, &levels(&[("atk", 1)]), &free, &dm).unwrap();
    assert_eq!(fewer.score, 3);
    let none = evaluate(with_helm(&helm, &dm), &weapon, &levels(&[]), &free, &dm).unwrap();
    assert_eq!(none.spare_slots, vec![1, 2, 0, 0]);
    assert_eq!(none.score, 5);
    assert!(evaluate(with_helm(&helm, &dm), &weapon, &levels(&[("crit", 1), ("atk", 3)]), &free, &dm).is_none());
}

#[test]
fn no_build_comes_twice() {
    let dm = catalog();
    for query in [levels(&[("atk", 1)]), levels(&[("crit", 2), ("atk", 1)]), levels(&[])] {
        for weapon in [vec![0, 0, 0], vec![2, 2, 0]] {
            let r = calculate_skillset(weapon, levels_copy(&query), vec![0, 0, 0, 0], SexType::All, &dm);
            let names: Vec<Vec<String>> = r.builds.iter().map(|b| ids(&b.equipments)).collect();
            for i in 0..names.len() {
                for j in (i + 1)..names.len() {
                    assert_ne!(names[i], names[j]);
                }
            }
        }
    }
}

fn levels_copy(q: &StrMap<i32>) -> StrMap<i32> {
    let mut r = StrMap::new();
    for i in 0..q.len() {
        r.insert(q.key_at(i).clone(), *q.value_at(i));
    }
    r
}

#[test]
fn pieces_cite_what_they_were_made_from() {
    let mut dm = catalog();
    let helm = armor("crit_helm", ArmorPart::Helm, &[("crit", 2)], [1, 0, 0]);
    let mut more = StrMap::new();
    more.insert("atk".to_string(), ArmorSkill { level: 1 });
    let no_change = ArmorStat { defense: 0, fire_res: 0, water_res: 0, ice_res: 0, elec_res: 0, dragon_res: 0 };
    dm.set_anomalies(vec![AnomalyArmor::new(helm, no_change, vec![1, 0, 0], more)]);
    let pool = armor_pool(&dm, 0, SexType::All);
    let shown: Vec<(String, bool)> =
        pool.iter().map(|e| show_armor(e.as_armor().unwrap())).map(|a| (a.base_id, a.is_anomaly)).collect();
    assert_eq!(shown.len(), 6);
    assert_eq!(shown[0], ("crit_helm".to_string(), false));
    assert_eq!(shown[4], ("weak_helm".to_string(), false));
    assert_eq!(shown[5], ("crit_helm".to_string(), true));
    assert_eq!(pool[5].id(), "__anomaly_0_crit_helm");
    let placeholder = empty_piece(&dm, 0, SexType::All).unwrap();
    assert_eq!(show_armor(placeholder.as_armor().unwrap()).base_id, "__empty_helm");
    let socket_only = slot_only_pool(&dm, 0, SexType::All);
    assert_eq!(show_armor(socket_only[0].as_armor().unwrap()).base_id, "__slot_1-0-0");
}
