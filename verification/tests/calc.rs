use mhr_calculator::calc::armor::CalcArmor;
use mhr_calculator::calc::calc_equipment::{largest_slot_size, CalcEquipment};
use mhr_calculator::calc::deco::CalcDeco;
use mhr_calculator::calc::equipment::Equipment;
use mhr_calculator::calc::skill::CalcSkill;
use mhr_calculator::calc::talisman::CalcTalisman;
use mhr_calculator::data::armor::{ArmorPart, ArmorSkill, ArmorStat, BaseArmor, SexType, Talisman, TalismanSkill};
use mhr_calculator::data::deco::Decoration;
use mhr_calculator::data::deco_combination::DecorationCombination;
use mhr_calculator::data::skill::Skill;
use mhr_calculator::str_map::StrMap;

fn armor(id: &str, part: ArmorPart, skills: &[(&str, i32)], slots: Vec<i32>) -> BaseArmor {
    let mut map = StrMap::new();
    for (name, level) in skills {
        map.insert(name.to_string(), ArmorSkill { level: *level });
    }
    let mut names = StrMap::new();
    names.insert("en".to_string(), format!("{} (en)", id));
    BaseArmor {
        id: id.to_string(),
        part,
        sex_type: SexType::Female,
        names,
        rarity: 9,
        stat: ArmorStat { defense: 0, fire_res: 0, water_res: 0, ice_res: 0, elec_res: 0, dragon_res: 0 },
        skills: map,
        slots,
    }
}

fn deco(id: &str, skill_id: &str, skill_level: i32, slot_size: i32) -> Decoration {
    Decoration {
        id: id.to_string(),
        names: StrMap::new(),
        skill_names: StrMap::new(),
        skill_id: skill_id.to_string(),
        skill_level,
        slot_size,
    }
}

fn levels(skills: &[(&str, i32)]) -> StrMap<i32> {
    let mut q = StrMap::new();
    for (name, level) in skills {
        q.insert(name.to_string(), *level);
    }
    q
}

fn entries(m: &StrMap<i32>) -> Vec<(String, i32)> {
    (0..m.len()).map(|i| (m.key_at(i).clone(), *m.value_at(i))).collect()
}

#[test]
fn sockets_are_counted_by_size() {
    assert_eq!(CalcArmor::convert_from_base_slots(&vec![2, 1, 0]), vec![1, 1, 0, 0]);
    assert_eq!(CalcArmor::convert_from_base_slots(&vec![0, 0, 0]), vec![0, 0, 0, 0]);
    assert_eq!(CalcArmor::convert_from_base_slots(&vec![4, 4, 4]), vec![0, 0, 0, 3]);
    assert_eq!(CalcArmor::convert_from_base_slots(&vec![3, 3, 1, 2, 0, 4]), vec![1, 1, 2, 1]);
    assert_eq!(CalcArmor::convert_from_base_slots(&vec![]), vec![0, 0, 0, 0]);
}

#[test]
fn piece_as_the_search_sees_it() {
    let base = armor("guard_helm", ArmorPart::Helm, &[("guard", 2), ("crit", 1)], vec![2, 1, 0]);
    let piece = CalcArmor::new(&base);
    assert_eq!(piece.id(), "guard_helm");
    assert_eq!(*piece.part(), ArmorPart::Helm);
    assert_eq!(piece.slots(), &vec![1, 1, 0, 0]);
    assert_eq!(entries(piece.skills()), vec![("guard".to_string(), 2), ("crit".to_string(), 1)]);
    assert!(!piece.is_anomaly());
    assert_eq!(piece.original_id(), "guard_helm");
    assert_eq!(*piece.sex_type(), SexType::Female);
    assert_eq!(piece.rarity(), 9);
    assert_eq!(piece.name("en"), "guard_helm (en)");
    assert_eq!(piece.name("ko"), "SYSTEM_PART");
    assert_eq!(piece.base().id(), "guard_helm");
    let copy = piece.clone();
    assert_eq!(copy.id(), "guard_helm");
    assert_eq!(copy.slots(), &vec![1, 1, 0, 0]);
}

#[test]
fn augmented_piece_names_its_original() {
    let original = armor("guard_helm", ArmorPart::Helm, &[("guard", 2)], vec![2, 1, 0]);
    let mut affected = armor("__anomaly_3_guard_helm", ArmorPart::Helm, &[("guard", 3)], vec![3, 1, 1]);
    affected.rarity = 10;
    let piece = CalcArmor::new_anomaly(&affected, &original);
    assert!(piece.is_anomaly());
    assert_eq!(piece.id(), "__anomaly_3_guard_helm");
    assert_eq!(piece.original_id(), "guard_helm");
    assert_eq!(piece.rarity(), 10);
    assert_eq!(piece.slots(), &vec![2, 0, 1, 0]);
    assert_eq!(entries(piece.skills()), vec![("guard".to_string(), 3)]);
}

#[test]
fn demands_take_sockets_from_their_size_upwards() {
    let base = armor("a", ArmorPart::Arm, &[], vec![2, 1, 0]);
    let id = "s".to_string();
    let mut piece = CalcArmor::new(&base);
    let mut demands = vec![(&id, 1, 2)];
    assert!(piece.subtract_slots(&mut demands));
    assert_eq!(piece.slots(), &vec![0, 0, 0, 0]);
    assert_eq!(demands, vec![(&id, 1, 0)]);

    let mut piece = CalcArmor::new(&base);
    let mut demands = vec![(&id, 2, 2)];
    assert!(!piece.subtract_slots(&mut demands));
    assert_eq!(piece.slots(), &vec![1, 0, 0, 0]);
    assert_eq!(demands, vec![(&id, 2, 1)]);

    let wide = armor("b", ArmorPart::Arm, &[], vec![4, 3, 1]);
    let mut piece = CalcArmor::new(&wide);
    let mut demands = vec![(&id, 2, 1), (&id, 1, 0), (&id, 1, 2), (&id, 4, 1)];
    assert!(!piece.subtract_slots(&mut demands));
    assert_eq!(piece.slots(), &vec![0, 0, 0, 0]);
    assert_eq!(demands, vec![(&id, 2, 0), (&id, 1, 0), (&id, 1, 0), (&id, 4, 1)]);

    let mut piece = CalcArmor::new(&wide);
    let mut demands = vec![(&id, 3, 3), (&id, 1, 1)];
    assert!(!piece.subtract_slots(&mut demands));
    assert_eq!(piece.slots(), &vec![1, 0, 0, 0]);
    assert_eq!(demands, vec![(&id, 3, 1), (&id, 1, 1)]);
}

#[test]
fn score_of_sockets() {
    assert_eq!(CalcDeco::get_point(&vec![1, 1, 1, 1]), 12);
    assert_eq!(CalcDeco::get_point(&vec![0, 0, 0, 0]), 0);
    assert_eq!(CalcDeco::get_point(&vec![3, 0, 2, 1]), 15);
    assert_eq!(CalcDeco::get_point(&vec![0, 0, 0, 2]), 12);
    assert_eq!(CalcDeco::get_point_wide(&vec![i32::MAX, i32::MAX, i32::MAX, i32::MAX]), 12 * (i32::MAX as i64));
    let d = deco("d", "s", 1, 2);
    assert_eq!(CalcDeco::new(&d).base.slot_size, 2);
}

#[test]
fn demands_add_up_to_a_socket_vector() {
    let a = "a".to_string();
    let b = "b".to_string();
    assert_eq!(CalcDeco::convert_to_slots(&vec![(&a, 2, 3), (&b, 1, 1), (&a, 2, 1)]), vec![1, 4, 0, 0]);
    assert_eq!(CalcDeco::convert_to_slots(&vec![]), vec![0, 0, 0, 0]);
    assert_eq!(CalcDeco::convert_to_slots(&vec![(&a, 4, 2), (&b, 3, 0)]), vec![0, 0, 0, 2]);
}

#[test]
fn score_of_levels_of_a_skill() {
    let s = Skill { id: "s".to_string(), max_level: 3, names: StrMap::new(), texts: StrMap::new() };
    let small = deco("d1", "s", 1, 1);
    let large = deco("d2", "s", 2, 3);
    assert_eq!(CalcSkill::calculate_point(&s, 2, None), 2000);
    assert_eq!(CalcSkill::calculate_point(&s, 2, Some(vec![&small, &large])), 6);
    assert_eq!(CalcSkill::calculate_point(&s, 3, Some(vec![&small])), 3);
    assert_eq!(CalcSkill::calculate_point(&s, 0, None), 0);
    assert_eq!(CalcSkill::calculate_point(&s, 2, Some(vec![&large, &small])), 6);
    assert_eq!(CalcSkill::calculate_point(&s, 5, Some(vec![])), 0);
    let _ = CalcSkill::new(&s, Some(vec![&small]));
    assert_eq!(largest_slot_size(&vec![deco("x", "s", 1, 2), deco("y", "s", 1, 4), deco("z", "s", 1, 1)]), 4);
    assert_eq!(largest_slot_size(&vec![]), 0);
}

#[test]
fn charm_as_the_search_sees_it() {
    let tali = Talisman {
        id: "charm".to_string(),
        skills: vec![
            TalismanSkill { id: "guard".to_string(), level: 2 },
            TalismanSkill { id: "crit".to_string(), level: 1 },
        ],
        slot_sizes: vec![2, 2, 0],
    };
    let piece = CalcTalisman::new(&tali);
    assert_eq!(piece.id(), "charm");
    assert_eq!(*piece.part(), ArmorPart::Talisman);
    assert_eq!(piece.slots(), &vec![0, 2, 0, 0]);
    assert_eq!(entries(piece.skills()), vec![("guard".to_string(), 2), ("crit".to_string(), 1)]);
    assert_eq!(piece.tali().id(), "charm");
    let twice = Talisman {
        id: "twice".to_string(),
        skills: vec![
            TalismanSkill { id: "guard".to_string(), level: 2 },
            TalismanSkill { id: "guard".to_string(), level: 1 },
        ],
        slot_sizes: vec![0, 0, 0],
    };
    assert_eq!(entries(CalcTalisman::new(&twice).skills()), vec![("guard".to_string(), 1)]);
}

#[test]
fn dominated_or_not() {
    let small = armor("a", ArmorPart::Helm, &[("guard", 1)], vec![1, 0, 0]);
    let large = armor("b", ArmorPart::Helm, &[("guard", 2), ("crit", 1)], vec![1, 2, 0]);
    let other = armor("c", ArmorPart::Helm, &[("atk", 1)], vec![4, 4, 4]);
    let fewer = armor("d", ArmorPart::Helm, &[("guard", 1)], vec![0, 0, 0]);
    let a = CalcArmor::new(&small);
    let b = CalcArmor::new(&large);
    let c = CalcArmor::new(&other);
    let d = CalcArmor::new(&fewer);
    assert!(a.is_le(&b));
    assert!(!b.is_le(&a));
    assert!(a.is_le(&a));
    assert!(!a.is_le(&c));
    assert!(!c.is_le(&a));
    assert!(d.is_le(&a));
    assert!(!a.is_le(&d));
    let higher = armor("e", ArmorPart::Helm, &[("guard", 3)], vec![1, 0, 0]);
    assert!(!CalcArmor::new(&higher).is_le(&b));
    assert!(Equipment::Armor(a.clone()).is_le(&Equipment::Armor(b.clone())));
}

#[test]
fn score_of_a_piece() {
    let base = armor("a", ArmorPart::Helm, &[("guard", 2), ("crit", 1), ("other", 5)], vec![4, 2, 1]);
    let piece = CalcArmor::new(&base);
    let mut decos = StrMap::new();
    decos.insert("guard".to_string(), vec![deco("g1", "guard", 1, 1), deco("g2", "guard", 2, 2)]);
    let yes = levels(&[("guard", 3)]);
    let no = levels(&[("crit", 2)]);
    assert_eq!(piece.get_point(&decos, &yes, &no), 2 * 2 + 1000 + (1 + 2 + 6));
    let yes = levels(&[("guard", 1)]);
    let no = levels(&[("crit", 1), ("other", 2)]);
    assert_eq!(piece.get_point(&decos, &yes, &no), 2 + 1000 + 2000 + 9);
    assert_eq!(piece.get_point(&decos, &levels(&[]), &levels(&[])), 9);
    assert_eq!(piece.get_point_wide(&decos, &levels(&[]), &levels(&[("other", 9)])), 5009);
}

#[test]
fn levels_are_taken_off_both_sides() {
    let base = armor("a", ArmorPart::Helm, &[("guard", 2), ("crit", 1), ("spare", 4)], vec![0, 0, 0]);
    let mut piece = CalcArmor::new(&base);
    let mut req = levels(&[("guard", 3), ("crit", 1), ("atk", 2), ("spare", 1)]);
    let diffs = piece.subtract_skills(&mut req);
    assert_eq!(
        entries(&diffs),
        vec![("guard".to_string(), 2), ("crit".to_string(), 1), ("spare".to_string(), 1)]
    );
    assert_eq!(req.len(), 2);
    assert_eq!(req.get(&"guard".to_string()), Some(&1));
    assert_eq!(req.get(&"atk".to_string()), Some(&2));
    assert_eq!(piece.skills().len(), 1);
    assert_eq!(piece.skills().get(&"spare".to_string()), Some(&3));
    assert_eq!(piece.slots(), &vec![0, 0, 0, 0]);
    assert_eq!(piece.id(), "a");
}

#[test]
fn piece_of_either_kind() {
    let base = armor("a", ArmorPart::Waist, &[("guard", 2)], vec![1, 0, 0]);
    let tali = Talisman { id: "t".to_string(), skills: vec![], slot_sizes: vec![3, 0, 0] };
    let a = Equipment::Armor(CalcArmor::new(&base));
    let t = Equipment::Talisman(CalcTalisman::new(&tali));
    assert_eq!(a.id(), "a");
    assert_eq!(t.id(), "t");
    assert_eq!(*a.part(), ArmorPart::Waist);
    assert_eq!(*t.part(), ArmorPart::Talisman);
    assert!(a.as_armor().is_some());
    assert!(a.as_talisman().is_none());
    assert!(t.as_talisman().is_some());
    assert!(t.as_armor().is_none());
    assert_eq!(t.slots(), &vec![0, 0, 1, 0]);
    let mut b = a.clone();
    b.set_skills(levels(&[("crit", 1)]));
    assert_eq!(entries(b.skills()), vec![("crit".to_string(), 1)]);
    assert_eq!(entries(a.skills()), vec![("guard".to_string(), 2)]);
    assert_eq!(b.slots(), &vec![1, 0, 0, 0]);
}

#[test]
fn demands_are_placed_exactly_when_they_fit_together() {
    let id = "s".to_string();
    for sockets in [vec![1, 0, 0], vec![2, 1, 0], vec![4, 3, 1], vec![3, 3, 2], vec![4, 0, 0], vec![0, 0, 0]] {
        let base = armor("a", ArmorPart::Arm, &[], sockets);
        for first in 1..=4 {
            for second in 1..=4 {
                for n in 0..3 {
                    for m in 0..3 {
                        let mut piece = CalcArmor::new(&base);
                        let free = piece.slots().clone();
                        let mut demands = vec![(&id, first, n), (&id, second, m)];
                        let together = CalcDeco::convert_to_slots(&demands);
                        let placed = piece.subtract_slots(&mut demands);
                        assert_eq!(placed, DecorationCombination::is_possible_static(&free, &together));
                    }
                }
            }
        }
    }
}
