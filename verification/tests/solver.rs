use mhr_calculator::calc::calc_equipment::CalcEquipment;
use mhr_calculator::data::armor::{ArmorPart, ArmorSkill, ArmorStat, BaseArmor, SexType, Talisman, TalismanSkill};
use mhr_calculator::data::data_manager::DataManager;
use mhr_calculator::data::deco::Decoration;
use mhr_calculator::data::skill::Skill;
use mhr_calculator::solver::calculate_skillset;
use mhr_calculator::solver_bag::MAX_ANSWER_LENGTH;
use mhr_calculator::str_map::StrMap;

fn skill(id: &str, max_level: i32) -> Skill {
    Skill { id: id.to_string(), max_level, names: StrMap::new(), texts: StrMap::new() }
}

fn deco(id: &str, skill_id: &str, skill_level: i32, slot_size: i32) -> Decoration {
    Decoration {
        id: id.to_string(),
        names: StrMap::new(),
        skill_names: StrMap::new(),
        skill_id: skill_id.to_string(),
        skill_level,
        slot_size,
    }
}

fn armor(id: &str, part: ArmorPart, skills: &[(&str, i32)], slots: [i32; 3]) -> BaseArmor {
    let mut map = StrMap::new();
    for (name, level) in skills {
        map.insert(name.to_string(), ArmorSkill { level: *level });
    }
    BaseArmor {
        id: id.to_string(),
        part,
        sex_type: SexType::All,
        names: StrMap::new(),
        rarity: 7,
        stat: ArmorStat { defense: 0, fire_res: 0, water_res: 0, ice_res: 0, elec_res: 0, dragon_res: 0 },
        skills: map,
        slots: slots.to_vec(),
    }
}

fn catalog(armors: Vec<BaseArmor>, skills: Vec<Skill>, decos: Vec<Decoration>) -> DataManager {
    let mut a = StrMap::new();
    for x in armors {
        a.insert(x.id.clone(), x);
    }
    let mut s = StrMap::new();
    for x in skills {
        s.insert(x.id.clone(), x);
    }
    let mut d = StrMap::new();
    for x in decos {
        d.insert(x.id.clone(), x);
    }
    DataManager::new(a, s, d)
}

fn query(skills: &[(&str, i32)]) -> StrMap<i32> {
    let mut q = StrMap::new();
    for (name, level) in skills {
        q.insert(name.to_string(), *level);
    }
    q
}

fn ids(build: &mhr_calculator::solver_bag::SolvedBuild) -> Vec<String> {
    build.equipments.iter().map(|e| e.id().clone()).collect()
}

#[test]
fn single_deco_skill_uses_weapon_sockets() {
    let dm = catalog(vec![], vec![skill("stamina_surge", 3)], vec![deco("d1", "stamina_surge", 1, 2)]);
    let r = calculate_skillset(
        vec![2, 2, 0],
        query(&[("stamina_surge", 2)]),
        vec![0, 0, 0, 0],
        SexType::Female,
        &dm,
    );
    assert_eq!(r.builds.len(), 1);
    let b = &r.builds[0];
    assert_eq!(
        ids(b),
        vec!["__empty_helm", "__empty_torso", "__empty_arm", "__empty_waist", "__empty_feet", "__empty_talisman"]
    );
    assert_eq!(b.avail_slots, vec![0, 2, 0, 0]);
    assert_eq!(b.deco_combs.len(), 1);
    assert_eq!(b.deco_combs[0].sum, vec![0, 2, 0, 0]);
    assert_eq!(b.deco_combs[0].combs_per_skill.len(), 1);
    assert_eq!(
        b.deco_combs[0].combs_per_skill.get(&"stamina_surge".to_string()),
        Some(&vec![0, 2, 0, 0])
    );
    assert_eq!(b.score, 0);
}

#[test]
fn no_deco_skill_comes_from_the_armor() {
    let dm = catalog(
        vec![armor("crit_helm", ArmorPart::Helm, &[("critical_exploit", 3)], [0, 0, 0])],
        vec![skill("critical_exploit", 3)],
        vec![],
    );
    let r = calculate_skillset(
        vec![0, 0, 0],
        query(&[("critical_exploit", 3)]),
        vec![0, 0, 0, 0],
        SexType::Female,
        &dm,
    );
    assert_eq!(r.builds.len(), 1);
    let b = &r.builds[0];
    assert_eq!(ids(b)[0], "crit_helm");
    assert_eq!(b.residual.len(), 0);
    assert_eq!(b.deco_combs.len(), 1);
    assert_eq!(b.deco_combs[0].combs_per_skill.len(), 0);
    assert_eq!(b.deco_combs[0].sum, vec![0, 0, 0, 0]);
}

#[test]
fn dominated_helm_never_appears() {
    let dm = catalog(
        vec![
            armor("small_helm", ArmorPart::Helm, &[("attack", 1)], [1, 0, 0]),
            armor("big_helm", ArmorPart::Helm, &[("attack", 1)], [2, 1, 0]),
        ],
        vec![skill("attack", 3)],
        vec![deco("atk", "attack", 1, 2)],
    );
    let r = calculate_skillset(
        vec![2, 0, 0],
        query(&[("attack", 2)]),
        vec![0, 0, 0, 0],
        SexType::All,
        &dm,
    );
    assert!(r.builds.len() >= 1);
    for b in &r.builds {
        assert!(!ids(b).contains(&"small_helm".to_string()));
    }
    assert!(r.builds.iter().any(|b| ids(b)[0] == "big_helm"));
}

#[test]
fn answer_is_capped_and_ordered() {
    let parts = [ArmorPart::Helm, ArmorPart::Torso, ArmorPart::Arm, ArmorPart::Waist, ArmorPart::Feet];
    let mut armors = Vec::new();
    for (p, part) in parts.iter().enumerate() {
        for i in 0..4 {
            let name = format!("piece_{}_{}", p, i);
            let own = format!("own_{}_{}", p, i);
            armors.push(armor(&name, *part, &[("attack", 1), (own.as_str(), 1)], [1, 0, 0]));
        }
    }
    let dm = catalog(armors, vec![skill("attack", 7)], vec![deco("atk", "attack", 1, 1)]);
    let r = calculate_skillset(
        vec![1, 1, 1],
        query(&[("attack", 1)]),
        vec![0, 0, 0, 0],
        SexType::All,
        &dm,
    );
    assert_eq!(r.builds.len(), MAX_ANSWER_LENGTH);
    for w in r.builds.windows(2) {
        assert!(w[0].score >= w[1].score);
    }
    for b in &r.builds {
        assert!(!b.deco_combs.is_empty());
    }
}

#[test]
fn absent_skill_gives_no_build() {
    let dm = catalog(
        vec![armor("helm", ArmorPart::Helm, &[("attack", 1)], [1, 0, 0])],
        vec![skill("attack", 3)],
        vec![deco("atk", "attack", 1, 1)],
    );
    let r = calculate_skillset(
        vec![3, 0, 0],
        query(&[("no_such_skill", 1)]),
        vec![0, 0, 0, 0],
        SexType::All,
        &dm,
    );
    assert_eq!(r.builds.len(), 0);
}

#[test]
fn empty_catalog_gives_no_build_for_a_skill() {
    let dm = catalog(vec![], vec![], vec![]);
    let r = calculate_skillset(vec![0, 0, 0], query(&[("attack", 1)]), vec![0, 0, 0, 0], SexType::All, &dm);
    assert_eq!(r.builds.len(), 0);
    let r = calculate_skillset(vec![0, 0, 0], query(&[]), vec![0, 0, 0, 0], SexType::All, &dm);
    assert_eq!(r.builds.len(), 1);
}

#[test]
fn malformed_query_gives_no_build() {
    let dm = catalog(vec![], vec![], vec![]);
    let r = calculate_skillset(vec![7, 0, 0], query(&[]), vec![0, 0, 0, 0], SexType::All, &dm);
    assert_eq!(r.builds.len(), 0);
    let r = calculate_skillset(vec![0, 0, 0], query(&[]), vec![0, 0, 0], SexType::All, &dm);
    assert_eq!(r.builds.len(), 0);
    let r = calculate_skillset(vec![0, 0, 0], query(&[]), vec![0, -1, 0, 0], SexType::All, &dm);
    assert_eq!(r.builds.len(), 0);
}

#[test]
fn free_sockets_are_left_free() {
    let dm = catalog(vec![], vec![skill("attack", 3)], vec![deco("atk", "attack", 1, 2)]);
    let r = calculate_skillset(
        vec![2, 2, 0],
        query(&[("attack", 2)]),
        vec![0, 1, 0, 0],
        SexType::All,
        &dm,
    );
    assert_eq!(r.builds.len(), 0);
    let r = calculate_skillset(
        vec![2, 2, 3],
        query(&[("attack", 2)]),
        vec![0, 1, 0, 0],
        SexType::All,
        &dm,
    );
    assert_eq!(r.builds.len(), 1);
    assert_eq!(r.builds[0].rest_slots, vec![0, 1, 1, 0]);
    assert_eq!(r.builds[0].deco_combs[0].sum, vec![0, 2, 0, 0]);
}

#[test]
fn armor_levels_are_taken_off_the_requirement() {
    let dm = catalog(
        vec![armor("helm", ArmorPart::Helm, &[("attack", 2)], [1, 0, 0])],
        vec![skill("attack", 3)],
        vec![deco("atk", "attack", 1, 1)],
    );
    let r = calculate_skillset(
        vec![0, 0, 0],
        query(&[("attack", 3)]),
        vec![0, 0, 0, 0],
        SexType::All,
        &dm,
    );
    assert_eq!(r.builds.len(), 1);
    let b = &r.builds[0];
    assert_eq!(ids(b)[0], "helm");
    assert_eq!(b.residual.get(&"attack".to_string()), Some(&1));
    assert_eq!(b.deco_combs.len(), 1);
    assert_eq!(b.deco_combs[0].sum, vec![1, 0, 0, 0]);
}

#[test]
fn sex_filter_drops_pieces_for_others() {
    let mut male = armor("male_helm", ArmorPart::Helm, &[("crit", 1)], [0, 0, 0]);
    male.sex_type = SexType::Male;
    let dm = catalog(vec![male], vec![skill("crit", 1)], vec![]);
    let r = calculate_skillset(vec![0, 0, 0], query(&[("crit", 1)]), vec![0, 0, 0, 0], SexType::Female, &dm);
    assert_eq!(r.builds.len(), 0);
    let r = calculate_skillset(vec![0, 0, 0], query(&[("crit", 1)]), vec![0, 0, 0, 0], SexType::Male, &dm);
    assert_eq!(r.builds.len(), 1);
}

#[test]
fn charm_takes_part_in_the_search() {
    let mut dm = catalog(vec![], vec![skill("crit", 2)], vec![]);
    dm.set_talismans(vec![Talisman {
        id: "charm_1".to_string(),
        skills: vec![TalismanSkill { id: "crit".to_string(), level: 2 }],
        slot_sizes: vec![1, 0, 0],
    }]);
    let r = calculate_skillset(vec![0, 0, 0], query(&[("crit", 2)]), vec![0, 0, 0, 0], SexType::All, &dm);
    assert_eq!(r.builds.len(), 1);
    assert_eq!(ids(&r.builds[0])[5], "charm_1");
    assert_eq!(r.builds[0].avail_slots, vec![1, 0, 0, 0]);
    assert_eq!(r.builds[0].score, 1);
}

#[test]
fn same_query_gives_the_same_answer() {
    let dm = catalog(
        vec![
            armor("h1", ArmorPart::Helm, &[("attack", 1)], [2, 1, 0]),
            armor("h2", ArmorPart::Helm, &[("attack", 2)], [1, 0, 0]),
            armor("t1", ArmorPart::Torso, &[("guard", 1)], [3, 0, 0]),
        ],
        vec![skill("attack", 3), skill("guard", 2)],
        vec![deco("atk", "attack", 1, 2), deco("grd1", "guard", 1, 1), deco("grd2", "guard", 2, 3)],
    );
    let run = || {
        let r = calculate_skillset(
            vec![3, 2, 0],
            query(&[("attack", 2), ("guard", 2)]),
            vec![0, 0, 0, 0],
            SexType::All,
            &dm,
        );
        r.builds
            .iter()
            .map(|b| {
                (
                    ids(b),
                    b.score,
                    b.deco_combs.iter().map(|c| c.sum.clone()).collect::<Vec<_>>(),
                )
            })
            .collect::<Vec<_>>()
    };
    let first = run();
    let second = run();
    assert!(!first.is_empty());
    assert_eq!(first, second);
}

#[test]
fn it_works() {
    let dm = catalog(
        vec![
            armor("helm_a", ArmorPart::Helm, &[("critical_exploit", 3)], [2, 0, 0]),
            armor("torso_a", ArmorPart::Torso, &[("water_attack", 2), ("spread_shot", 1)], [3, 1, 0]),
            armor("arm_a", ArmorPart::Arm, &[("bow_charge_plus", 1)], [2, 2, 0]),
            armor("waist_a", ArmorPart::Waist, &[("constitution", 2), ("chain_crit", 1)], [2, 1, 0]),
            armor("feet_a", ArmorPart::Feet, &[("element_exploint", 1), ("stamina_surge", 1)], [1, 1, 1]),
        ],
        vec![
            skill("water_attack", 5),
            skill("element_exploint", 3),
            skill("bow_charge_plus", 1),
            skill("spread_shot", 3),
            skill("critical_exploit", 3),
            skill("chain_crit", 3),
            skill("constitution", 5),
            skill("stamina_surge", 3),
        ],
        vec![
            deco("d_water", "water_attack", 1, 1),
            deco("d_spread", "spread_shot", 1, 3),
            deco("d_const", "constitution", 1, 2),
            deco("d_stamina", "stamina_surge", 1, 2),
        ],
    );
    let mut selected_skills = StrMap::new();
    let weapon_slots = vec![3, 0, 0];
    let free_slots = vec![0, 0, 0, 0];

    selected_skills.insert("water_attack".to_string(), 5);
    selected_skills.insert("element_exploint".to_string(), 1);

    selected_skills.insert("bow_charge_plus".to_string(), 1);
    selected_skills.insert("spread_shot".to_string(), 3);

    selected_skills.insert("critical_exploit".to_string(), 3);
    selected_skills.insert("chain_crit".to_string(), 1);

    selected_skills.insert("constitution".to_string(), 5);
    selected_skills.insert("stamina_surge".to_string(), 3);

    calculate_skillset(weapon_slots, selected_skills, free_slots, SexType::Female, &dm);
}

#[test]
fn builds_of_one_score_come_in_the_order_of_the_search() {
    let dm = catalog(
        vec![armor("torso", ArmorPart::Torso, &[], [1, 0, 0]), armor("arm", ArmorPart::Arm, &[], [1, 0, 0])],
        vec![skill("s", 1)],
        vec![deco("d", "s", 1, 1)],
    );
    let r = calculate_skillset(vec![0, 0, 0], query(&[("s", 1)]), vec![0, 0, 0, 0], SexType::All, &dm);
    let found: Vec<(i64, String, String)> =
        r.builds.iter().map(|b| (b.score, ids(b)[1].clone(), ids(b)[2].clone())).collect();
    assert_eq!(
        found,
        vec![
            (1, "__slot_1-0-0".to_string(), "__slot_1-0-0".to_string()),
            (0, "__slot_1-0-0".to_string(), "__empty_arm".to_string()),
            (0, "__empty_torso".to_string(), "__slot_1-0-0".to_string()),
        ]
    );
}

#[test]
fn empty_placeholders_can_be_worn_by_everyone() {
    let dm = catalog(vec![], vec![skill("stamina_surge", 3)], vec![deco("d1", "stamina_surge", 1, 2)]);
    for sex in [SexType::Female, SexType::Male, SexType::All] {
        let r = calculate_skillset(vec![2, 2, 0], query(&[("stamina_surge", 2)]), vec![0, 0, 0, 0], sex, &dm);
        assert_eq!(r.builds.len(), 1);
        assert_eq!(
            ids(&r.builds[0]),
            vec!["__empty_helm", "__empty_torso", "__empty_arm", "__empty_waist", "__empty_feet", "__empty_talisman"]
        );
    }
    assert!(dm.empty_armors.iter().all(|a| a.sex_type == SexType::All));
    assert_eq!(dm.empty_talisman.id, "__empty_talisman");
    assert!(dm.slot_only_armors.iter().all(|m| (0..m.len()).all(|i| m.value_at(i).sex_type == SexType::All)));
}
