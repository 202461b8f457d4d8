use mhr_calculator::data::armor::{
    AnomalyArmor, ArmorPart, ArmorSkill, ArmorStat, BaseArmor, SexType, Talisman,
};
use mhr_calculator::str_map::StrMap;

fn stat(defense: i32) -> ArmorStat {
    ArmorStat { defense, fire_res: 1, water_res: 2, ice_res: 3, elec_res: 4, dragon_res: 5 }
}

fn helm() -> BaseArmor {
    let mut skills = StrMap::new();
    skills.insert("guard".to_string(), ArmorSkill { level: 1 });
    let mut names = StrMap::new();
    names.insert("en".to_string(), "Guard Helm".to_string());
    BaseArmor {
        id: "guard_helm".to_string(),
        part: ArmorPart::Helm,
        sex_type: SexType::All,
        names,
        rarity: 8,
        stat: stat(100),
        skills,
        slots: vec![2, 1, 0],
    }
}

#[test]
fn part_names() {
    assert_eq!(ArmorPart::Helm.as_str(), "helm");
    assert_eq!(ArmorPart::Torso.as_str(), "torso");
    assert_eq!(ArmorPart::Arm.as_str(), "arm");
    assert_eq!(ArmorPart::Waist.as_str(), "waist");
    assert_eq!(ArmorPart::Feet.as_str(), "feet");
    assert_eq!(ArmorPart::Talisman.as_str(), "talisman");
}

#[test]
fn all_body_parts_in_order() {
    assert_eq!(
        ArmorPart::get_all(),
        vec![ArmorPart::Helm, ArmorPart::Torso, ArmorPart::Arm, ArmorPart::Waist, ArmorPart::Feet]
    );
    assert_eq!(ArmorPart::Helm.index(), 0);
    assert_eq!(ArmorPart::Feet.index(), 4);
    assert_eq!(ArmorPart::Talisman.index(), 5);
}

#[test]
fn empty_piece_has_nothing() {
    let e = BaseArmor::create_empty(ArmorPart::Waist);
    assert_eq!(e.id(), "__empty_waist");
    assert_eq!(e.part, ArmorPart::Waist);
    assert_eq!(e.sex_type, SexType::All);
    assert_eq!(e.rarity, 10);
    assert_eq!(e.slots, vec![0, 0, 0]);
    assert_eq!(e.skills.len(), 0);
    assert_eq!(e.names.len(), 0);
    assert_eq!(e.stat, ArmorStat { defense: 0, fire_res: 0, water_res: 0, ice_res: 0, elec_res: 0, dragon_res: 0 });
    assert!(BaseArmor::is_empty_armor(e.id()));
    assert!(!BaseArmor::is_slot_armor(e.id()));
    assert!(e.is_valid());
}

#[test]
fn slot_armor_id_is_written_and_read() {
    assert_eq!(BaseArmor::get_slot_armor_id(&vec![3, 1, 0]), "__slot_3-1-0");
    assert_eq!(BaseArmor::get_slot_armor_id(&vec![4, 4, 4, 9]), "__slot_4-4-4");
    assert_eq!(BaseArmor::get_slot_armor_id(&vec![10, 0, 123]), "__slot_10-0-123");
    assert_eq!(BaseArmor::get_slot_armor_id(&vec![-2, 0, 2147483647]), "__slot_-2-0-2147483647");
    assert_eq!(BaseArmor::get_slot_armor_id(&vec![i32::MIN, 0, 0]), "__slot_-2147483648-0-0");
    assert_eq!(BaseArmor::parse_slot_armor_id(&"__slot_3-1-0".to_string()), vec![3, 1, 0]);
    assert_eq!(BaseArmor::parse_slot_armor_id(&"__slot_10-0-123".to_string()), vec![10, 0, 123]);
    assert_eq!(BaseArmor::parse_slot_armor_id(&"__slot_007-0-1".to_string()), vec![7, 0, 1]);
    assert_eq!(
        BaseArmor::parse_slot_armor_id(&"__slot_2147483647-0-0".to_string()),
        vec![2147483647, 0, 0]
    );
    for slots in [vec![0, 0, 0], vec![4, 2, 1], vec![1, 1, 1]] {
        assert_eq!(BaseArmor::parse_slot_armor_id(&BaseArmor::get_slot_armor_id(&slots)), slots);
    }
}

#[test]
fn other_text_is_no_slot_armor_id() {
    let none = Vec::<i32>::new();
    for text in [
        "",
        "__slot",
        "__slot_",
        "__slot_1",
        "__slot_1-2",
        "__slot_1-2-",
        "__slot_1--3",
        "__slot_-1-2-3",
        "__slot_1-2-3-4",
        "__slot_1-2-3x",
        "x__slot_1-2-3",
        "__slot_a-b-c",
        "__slot_2147483648-0-0",
        "__empty_helm",
        "slot_1-2-3",
    ] {
        assert_eq!(BaseArmor::parse_slot_armor_id(&text.to_string()), none, "{}", text);
    }
}

#[test]
fn slot_armor_prefixes() {
    assert!(BaseArmor::is_slot_armor(&"__slot_1-2-3".to_string()));
    assert!(BaseArmor::is_slot_armor(&"__slot".to_string()));
    assert!(BaseArmor::is_slot_armor(&"__slotted".to_string()));
    assert!(!BaseArmor::is_slot_armor(&"__slo".to_string()));
    assert!(!BaseArmor::is_slot_armor(&"_slot_1-2-3".to_string()));
    assert!(!BaseArmor::is_slot_armor(&"".to_string()));
    assert!(BaseArmor::is_anomaly_armor(&"__anomaly_0_x".to_string()));
    assert!(!BaseArmor::is_anomaly_armor(&"__slot_1-2-3".to_string()));
}

#[test]
fn slot_only_piece_reads_its_sockets() {
    let piece = BaseArmor::get_slot_armor(ArmorPart::Arm, "__slot_4-2-0".to_string());
    assert_eq!(piece.id(), "__slot_4-2-0");
    assert_eq!(piece.part, ArmorPart::Arm);
    assert_eq!(piece.slots, vec![4, 2, 0]);
    assert_eq!(piece.skills.len(), 0);
    assert_eq!(piece.rarity, 10);
    assert_eq!(piece.sex_type, SexType::All);
    let odd = BaseArmor::get_slot_armor(ArmorPart::Arm, "something".to_string());
    assert_eq!(odd.slots, Vec::<i32>::new());
}

#[test]
fn validity_of_pieces() {
    let mut a = helm();
    assert!(a.is_valid());
    a.slots = vec![5, 0, 0];
    assert!(!a.is_valid());
    a.slots = vec![-1, 0, 0];
    assert!(!a.is_valid());
    a.slots = vec![4, 4, 4];
    assert!(a.is_valid());
    a.skills.insert("weak".to_string(), ArmorSkill { level: -1 });
    assert!(!a.is_valid());
}

#[test]
fn anomaly_adds_the_differences() {
    let mut skill_diffs = StrMap::new();
    skill_diffs.insert("guard".to_string(), ArmorSkill { level: 1 });
    skill_diffs.insert("crit".to_string(), ArmorSkill { level: 2 });
    let diff = ArmorStat { defense: 10, fire_res: -1, water_res: 0, ice_res: 2, elec_res: -4, dragon_res: 1 };
    let a = AnomalyArmor::new(helm(), diff, vec![1, 0, 1], skill_diffs);
    assert_eq!(a.original.id(), "guard_helm");
    assert_eq!(a.original.slots, vec![2, 1, 0]);
    assert_eq!(a.affected.id(), "guard_helm");
    assert_eq!(a.affected.part, ArmorPart::Helm);
    assert_eq!(a.affected.rarity, 8);
    assert_eq!(a.affected.slots, vec![3, 1, 1]);
    assert_eq!(a.affected.skills.len(), 2);
    assert_eq!(a.affected.skills.get(&"guard".to_string()), Some(&ArmorSkill { level: 2 }));
    assert_eq!(a.affected.skills.get(&"crit".to_string()), Some(&ArmorSkill { level: 2 }));
    assert_eq!(
        a.affected.stat,
        ArmorStat { defense: 110, fire_res: 0, water_res: 2, ice_res: 5, elec_res: 0, dragon_res: 6 }
    );
    assert_eq!(a.stat_diff, diff);
    assert_eq!(a.slot_diffs, vec![1, 0, 1]);
    assert_eq!(a.skill_diffs.len(), 2);
    assert_eq!(a.affected.names.get(&"en".to_string()), Some(&"Guard Helm".to_string()));
}

#[test]
fn anomaly_with_other_lengths_of_sockets() {
    let a = AnomalyArmor::new(helm(), stat(0), vec![1], StrMap::new());
    assert_eq!(a.affected.slots, vec![3, 1, 0]);
    let a = AnomalyArmor::new(helm(), stat(0), vec![0, 0, 0, 2], StrMap::new());
    assert_eq!(a.affected.slots, vec![2, 1, 0, 2]);
    let a = AnomalyArmor::new(helm(), stat(0), vec![], StrMap::new());
    assert_eq!(a.affected.slots, vec![2, 1, 0]);
    assert_eq!(a.affected.skills.get(&"guard".to_string()), Some(&ArmorSkill { level: 1 }));
}

#[test]
fn charms_of_the_catalog() {
    let e = Talisman::create_empty();
    assert_eq!(e.id(), "__empty_talisman");
    assert_eq!(e.slot_sizes, vec![0, 0, 0]);
    assert_eq!(e.skills.len(), 0);
    assert!(e.is_valid());
    let s = Talisman::get_slot_talisman("__slot_2-1-1".to_string());
    assert_eq!(s.id(), "__slot_2-1-1");
    assert_eq!(s.slot_sizes, vec![2, 1, 1]);
    let copy = s.clone();
    assert_eq!(copy.id(), "__slot_2-1-1");
    assert_eq!(copy.slot_sizes, vec![2, 1, 1]);
}

#[test]
fn copy_of_a_piece_is_the_piece() {
    let a = helm();
    let b = a.clone();
    assert_eq!(b.id(), "guard_helm");
    assert_eq!(b.part, a.part);
    assert_eq!(b.slots, a.slots);
    assert_eq!(b.stat, a.stat);
    assert_eq!(b.rarity, a.rarity);
    assert_eq!(b.skills.get(&"guard".to_string()), Some(&ArmorSkill { level: 1 }));
    assert_eq!(b.names.get(&"en".to_string()), Some(&"Guard Helm".to_string()));
}

#[test]
fn sums_out_of_range_cannot_be_made() {
    let mut piece = helm();
    assert!(AnomalyArmor::can_augment(&piece, &stat(1), &vec![1, 0, 1], &StrMap::new()));
    assert!(AnomalyArmor::can_augment(&piece, &stat(0), &vec![], &StrMap::new()));
    assert!(!AnomalyArmor::can_augment(&piece, &stat(0), &vec![i32::MAX], &StrMap::new()));
    assert!(!AnomalyArmor::can_augment(&piece, &stat(i32::MAX), &vec![0], &StrMap::new()));
    let mut more = StrMap::new();
    more.insert("other".to_string(), ArmorSkill { level: i32::MAX });
    assert!(AnomalyArmor::can_augment(&piece, &stat(0), &vec![0], &more));
    piece.skills.insert("other".to_string(), ArmorSkill { level: 1 });
    assert!(!AnomalyArmor::can_augment(&piece, &stat(0), &vec![0], &more));
    piece.stat.defense = i32::MIN;
    assert!(!AnomalyArmor::can_augment(&piece, &stat(-1), &vec![0], &StrMap::new()));
}
