use mhr_calculator::calc::armor::CalcArmor;
use mhr_calculator::calc::calc_equipment::CalcEquipment;
use mhr_calculator::calc::equipment::Equipment;
use mhr_calculator::calc::talisman::CalcTalisman;
use mhr_calculator::data::armor::{ArmorPart, ArmorSkill, ArmorStat, BaseArmor, SexType, Talisman, TalismanSkill};
use mhr_calculator::data::data_manager::DataManager;
use mhr_calculator::data::deco::Decoration;
use mhr_calculator::data::deco_combination::DecorationCombinations;
use mhr_calculator::data::skill::Skill;
use mhr_calculator::full_equipments::FullEquipments;
use mhr_calculator::solver_eval::evaluate;
use mhr_calculator::solver_parts::{residual_after, take_off, total_sockets};
use mhr_calculator::str_map::StrMap;

fn armor(id: &str, part: ArmorPart, skills: &[(&str, i32)], slots: Vec<i32>) -> BaseArmor {
    let mut map = StrMap::new();
    for (name, level) in skills {
        map.insert(name.to_string(), ArmorSkill { level: *level });
    }
    BaseArmor {
        id: id.to_string(),
        part,
        sex_type: SexType::All,
        names: StrMap::new(),
        rarity: 9,
        stat: ArmorStat { defense: 0, fire_res: 0, water_res: 0, ice_res: 0, elec_res: 0, dragon_res: 0 },
        skills: map,
        slots,
    }
}

fn pieces_of() -> (Vec<BaseArmor>, Talisman) {
    (
        vec![
            armor("helm", ArmorPart::Helm, &[("guard", 1), ("crit", 2)], vec![2, 0, 0]),
            armor("torso", ArmorPart::Torso, &[("guard", 1)], vec![3, 1, 0]),
            armor("arm", ArmorPart::Arm, &[], vec![0, 0, 0]),
            armor("waist", ArmorPart::Waist, &[("atk", 1)], vec![1, 1, 1]),
            armor("feet", ArmorPart::Feet, &[("crit", 1)], vec![4, 0, 0]),
        ],
        Talisman {
            id: "charm".to_string(),
            skills: vec![TalismanSkill { id: "atk".to_string(), level: 1 }],
            slot_sizes: vec![2, 0, 0],
        },
    )
}

fn build<'a>(armors: &'a Vec<BaseArmor>, tali: &'a Talisman) -> Vec<Equipment<'a>> {
    let mut v: Vec<Equipment<'a>> = armors.iter().map(|a| Equipment::Armor(CalcArmor::new(a))).collect();
    v.push(Equipment::Talisman(CalcTalisman::new(tali)));
    v
}

fn levels(skills: &[(&str, i32)]) -> StrMap<i32> {
    let mut q = StrMap::new();
    for (name, level) in skills {
        q.insert(name.to_string(), *level);
    }
    q
}

fn entries(m: &StrMap<i32>) -> Vec<(String, i32)> {
    (0..m.len()).map(|i| (m.key_at(i).clone(), *m.value_at(i))).collect()
}

fn table() -> DecorationCombinations {
    let mut skills = StrMap::new();
    for (id, max) in [("guard", 3), ("atk", 3), ("crit", 3)] {
        skills.insert(
            id.to_string(),
            Skill { id: id.to_string(), max_level: max, names: StrMap::new(), texts: StrMap::new() },
        );
    }
    let deco = |id: &str, skill_id: &str, level: i32, size: i32| Decoration {
        id: id.to_string(),
        names: StrMap::new(),
        skill_names: StrMap::new(),
        skill_id: skill_id.to_string(),
        skill_level: level,
        slot_size: size,
    };
    let mut by_skill = StrMap::new();
    by_skill.insert("guard".to_string(), vec![deco("g1", "guard", 1, 1), deco("g2", "guard", 3, 2)]);
    by_skill.insert("atk".to_string(), vec![deco("a", "atk", 2, 2)]);
    DecorationCombinations::new(&by_skill, &skills)
}

#[test]
fn skills_and_sockets_add_up() {
    let (armors, tali) = pieces_of();
    let full = FullEquipments::new(vec![3, 3, 0], build(&armors, &tali));
    assert_eq!(full.avail_slots(), &vec![4, 2, 3, 1]);
    assert_eq!(
        entries(full.all_skills()),
        vec![("guard".to_string(), 2), ("crit".to_string(), 3), ("atk".to_string(), 2)]
    );
    assert_eq!(full.weapon_slots(), &vec![3, 3, 0]);
    assert_eq!(full.equipments().len(), 6);
    let (skills, slots) = FullEquipments::calculate_skills_slots(&vec![0, 0, 0], &build(&armors, &tali));
    assert_eq!(slots, vec![4, 2, 1, 1]);
    assert_eq!(skills.get(&"crit".to_string()), Some(&3));
    let (skills, slots) = FullEquipments::calculate_skills_slots(&vec![4, 1, 1], &vec![]);
    assert_eq!(slots, vec![2, 0, 0, 1]);
    assert_eq!(skills.len(), 0);
}

#[test]
fn piece_by_part() {
    let (armors, tali) = pieces_of();
    let full = FullEquipments::new(vec![0, 0, 0], build(&armors, &tali));
    assert_eq!(full.get_by_part(&ArmorPart::Helm).map(|e| e.id().clone()), Some("helm".to_string()));
    assert_eq!(full.get_by_part(&ArmorPart::Feet).map(|e| e.id().clone()), Some("feet".to_string()));
    assert_eq!(full.get_by_part(&ArmorPart::Talisman).map(|e| e.id().clone()), Some("charm".to_string()));
    let some = FullEquipments::new(vec![0, 0, 0], build(&armors, &tali).into_iter().take(2).collect());
    assert!(some.get_by_part(&ArmorPart::Arm).is_none());
    let by_part = FullEquipments::save_by_part_clone(&build(&armors, &tali));
    assert_eq!(by_part.len(), 6);
    assert_eq!(by_part[3].as_ref().map(|e| e.id().clone()), Some("waist".to_string()));
    let list = build(&armors, &tali);
    let refs = FullEquipments::_save_by_part(&list);
    assert_eq!(refs[5].map(|e| e.id().clone()), Some("charm".to_string()));
}

#[test]
fn identifier_of_a_build() {
    let (armors, tali) = pieces_of();
    assert_eq!(
        FullEquipments::get_full_equip_id(&build(&armors, &tali)),
        "FULLEQUIP-helm-torso-arm-waist-feet-charm"
    );
    let mut mixed = build(&armors, &tali);
    mixed.reverse();
    assert_eq!(FullEquipments::get_full_equip_id(&mixed), "FULLEQUIP-helm-torso-arm-waist-feet-charm");
    assert_eq!(
        FullEquipments::format_full_equip_id(
            &"a".to_string(),
            &"b".to_string(),
            &"".to_string(),
            &"__slot_1-0-0".to_string(),
            &"e".to_string(),
            &"f".to_string()
        ),
        "FULLEQUIP-a-b--__slot_1-0-0-e-f"
    );
}

#[test]
fn build_holds_the_skills_or_not() {
    let (armors, tali) = pieces_of();
    let full = FullEquipments::new(vec![0, 0, 0], build(&armors, &tali));
    assert!(full.contains_skills(&levels(&[("guard", 2), ("crit", 3)])));
    assert!(full.contains_skills(&levels(&[])));
    assert!(full.contains_skills(&levels(&[("atk", 1)])));
    assert!(!full.contains_skills(&levels(&[("guard", 3)])));
    assert!(!full.contains_skills(&levels(&[("other", 1)])));
}

#[test]
fn packings_of_a_build() {
    let (armors, tali) = pieces_of();
    let full = FullEquipments::new(vec![0, 0, 0], build(&armors, &tali));
    let t = table();
    let none = levels(&[("crit", 1)]);

    let (ok, combs) = full.get_possible_combs(levels(&[("guard", 2), ("crit", 3)]), &vec![0, 0, 0, 0], &none, &t);
    assert!(ok);
    assert_eq!(combs.len(), 1);
    assert_eq!(combs[0].sum, vec![0, 0, 0, 0]);
    assert_eq!(combs[0].combs_per_skill.len(), 0);

    let (ok, combs) = full.get_possible_combs(levels(&[("crit", 4)]), &vec![0, 0, 0, 0], &none, &t);
    assert!(!ok);
    assert_eq!(combs.len(), 0);

    let (ok, combs) = full.get_possible_combs(levels(&[("guard", 3)]), &vec![0, 0, 0, 9], &none, &t);
    assert!(!ok);
    assert_eq!(combs.len(), 0);

    let (ok, combs) = full.get_possible_combs(levels(&[("guard", 3), ("atk", 3)]), &vec![0, 0, 0, 0], &none, &t);
    assert!(ok);
    let sums: Vec<Vec<i32>> = combs.iter().map(|c| c.sum.clone()).collect();
    assert_eq!(sums, vec![vec![3, 2, 0, 0], vec![0, 3, 0, 0]]);

    let (ok, combs) = full.get_possible_combs(levels(&[("guard", 3), ("atk", 3)]), &vec![4, 0, 0, 1], &none, &t);
    assert!(ok);
    let sums: Vec<Vec<i32>> = combs.iter().map(|c| c.sum.clone()).collect();
    assert_eq!(sums, vec![vec![0, 3, 0, 0]]);

    let (ok, combs) = full.get_possible_combs(levels(&[("guard", 3), ("atk", 3)]), &vec![3, 2, 0, 0], &none, &t);
    assert!(!ok);
    assert_eq!(combs.len(), 0);
}

#[test]
fn levels_left_after_the_pieces() {
    let (armors, tali) = pieces_of();
    let pieces = build(&armors, &tali);
    let left = residual_after(&levels(&[("guard", 3), ("crit", 3), ("atk", 5), ("other", 1)]), &pieces);
    assert_eq!(
        entries(&left),
        vec![("guard".to_string(), 1), ("atk".to_string(), 3), ("other".to_string(), 1)]
    );
    let r = take_off(&levels(&[("a", 3), ("b", 1), ("c", 2)]), &levels(&[("c", 2), ("a", 1), ("d", 9)]));
    assert_eq!(entries(&r), vec![("a".to_string(), 2), ("b".to_string(), 1)]);
    assert_eq!(total_sockets(&vec![3, 3, 0], &pieces), Some(vec![4, 2, 3, 1]));
}

#[test]
fn build_is_accepted_or_not() {
    let deco = |id: &str, skill_id: &str, level: i32, size: i32| Decoration {
        id: id.to_string(),
        names: StrMap::new(),
        skill_names: StrMap::new(),
        skill_id: skill_id.to_string(),
        skill_level: level,
        slot_size: size,
    };
    let mut skills = StrMap::new();
    for (id, max) in [("guard", 3), ("atk", 3), ("crit", 3)] {
        skills.insert(
            id.to_string(),
            Skill { id: id.to_string(), max_level: max, names: StrMap::new(), texts: StrMap::new() },
        );
    }
    let mut decos = StrMap::new();
    for d in [deco("g1", "guard", 1, 1), deco("g2", "guard", 3, 2), deco("a", "atk", 2, 2)] {
        decos.insert(d.id.clone(), d);
    }
    let dm = DataManager::new(StrMap::new(), skills, decos);
    let (armors, tali) = pieces_of();

    let c = evaluate(build(&armors, &tali), &vec![0, 0, 0], &levels(&[("guard", 3), ("atk", 3)]), &vec![0, 0, 0, 0], &dm)
        .unwrap();
    assert_eq!(c.avail_slots, vec![4, 2, 1, 1]);
    assert_eq!(c.rest_slots, vec![4, 2, 1, 1]);
    assert_eq!(entries(&c.residual), vec![("guard".to_string(), 1), ("atk".to_string(), 1)]);
    assert_eq!(c.spare_slots, vec![4, 1, 1, 1]);
    assert_eq!(c.score, 4 + 2 + 3 + 6);

    let c = evaluate(build(&armors, &tali), &vec![0, 0, 0], &levels(&[("crit", 3)]), &vec![1, 0, 0, 1], &dm).unwrap();
    assert_eq!(c.rest_slots, vec![3, 2, 1, 0]);
    assert_eq!(c.residual.len(), 0);
    assert_eq!(c.score, 3 + 4 + 3);

    assert!(evaluate(build(&armors, &tali), &vec![0, 0, 0], &levels(&[("crit", 4)]), &vec![0, 0, 0, 0], &dm).is_none());
    assert!(evaluate(build(&armors, &tali), &vec![0, 0, 0], &levels(&[]), &vec![0, 0, 0, 2], &dm).is_none());
    assert!(
        evaluate(build(&armors, &tali), &vec![0, 0, 0], &levels(&[("atk", 3)]), &vec![0, 2, 1, 1], &dm).is_none()
    );
    assert!(
        evaluate(build(&armors, &tali), &vec![0, 0, 0], &levels(&[("guard", 9)]), &vec![0, 0, 0, 0], &dm).is_none()
    );
}
