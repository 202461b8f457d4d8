use mhr_calculator::data::armor::{
    AnomalyArmor, ArmorPart, ArmorSkill, ArmorStat, BaseArmor, SexType, Talisman, TalismanSkill,
};
use mhr_calculator::data::data_manager::{add_names, group_decos, name_anomaly, part_tables, DataManager};
use mhr_calculator::data::deco::Decoration;
use mhr_calculator::data::skill::Skill;
use mhr_calculator::str_map::StrMap;

fn zero() -> ArmorStat {
    ArmorStat { defense: 0, fire_res: 0, water_res: 0, ice_res: 0, elec_res: 0, dragon_res: 0 }
}

fn armor(id: &str, part: ArmorPart, skills: &[(&str, i32)], slots: Vec<i32>, name: &str) -> BaseArmor {
    let mut map = StrMap::new();
    for (skill, level) in skills {
        map.insert(skill.to_string(), ArmorSkill { level: *level });
    }
    let mut names = StrMap::new();
    names.insert("en".to_string(), name.to_string());
    names.insert("ko".to_string(), format!("{}-ko", name));
    BaseArmor { id: id.to_string(), part, sex_type: SexType::All, names, rarity: 7, stat: zero(), skills: map, slots }
}

fn skill(id: &str, max_level: i32, name: &str) -> Skill {
    let mut names = StrMap::new();
    names.insert("en".to_string(), name.to_string());
    Skill { id: id.to_string(), max_level, names, texts: StrMap::new() }
}

fn deco(id: &str, skill_id: &str, skill_level: i32, slot_size: i32) -> Decoration {
    Decoration {
        id: id.to_string(),
        names: StrMap::new(),
        skill_names: StrMap::new(),
        skill_id: skill_id.to_string(),
        skill_level,
        slot_size,
    }
}

fn catalog() -> DataManager {
    let mut armors = StrMap::new();
    for a in [
        armor("helm_a", ArmorPart::Helm, &[("guard", 1)], vec![2, 1, 0], "Helm A"),
        armor("helm_b", ArmorPart::Helm, &[("atk", 1)], vec![2, 1, 0], "Helm B"),
        armor("helm_c", ArmorPart::Helm, &[], vec![4, 0, 0], "Helm C"),
        armor("feet_a", ArmorPart::Feet, &[("guard", 2)], vec![1, 0, 0], "Feet A"),
    ] {
        armors.insert(a.id.clone(), a);
    }
    let mut skills = StrMap::new();
    for s in [skill("guard", 3, "Guard"), skill("atk", 7, "Attack Boost"), skill("crit", 3, "Critical Eye")] {
        skills.insert(s.id.clone(), s);
    }
    let mut decos = StrMap::new();
    for d in [
        deco("g_big", "guard", 3, 3),
        deco("a", "atk", 1, 2),
        deco("g_small", "guard", 1, 1),
        deco("bad_level", "crit", 0, 1),
        deco("bad_size", "crit", 1, 5),
        deco("no_skill", "nothing", 1, 1),
        deco("g_mid", "guard", 2, 3),
    ] {
        decos.insert(d.id.clone(), d);
    }
    DataManager::new(armors, skills, decos)
}

fn levels(skills: &[(&str, i32)]) -> StrMap<i32> {
    let mut q = StrMap::new();
    for (name, level) in skills {
        q.insert(name.to_string(), *level);
    }
    q
}

fn keys<V>(m: &StrMap<V>) -> Vec<String> {
    (0..m.len()).map(|i| m.key_at(i).clone()).collect()
}

#[test]
fn catalog_keeps_what_it_was_given() {
    let dm = catalog();
    assert_eq!(dm.armors.len(), 4);
    assert_eq!(dm.skills.len(), 3);
    assert_eq!(dm.decos.len(), 7);
    assert_eq!(dm.talismans.len(), 0);
    assert_eq!(dm.anomaly_armors.len(), 0);
    assert_eq!(dm.empty_talisman.id(), "__empty_talisman");
}

#[test]
fn names_lead_to_identifiers() {
    let dm = catalog();
    assert_eq!(dm.armor_name_dict.get(&"Helm A".to_string()), Some(&"helm_a".to_string()));
    assert_eq!(dm.armor_name_dict.get(&"Helm A-ko".to_string()), Some(&"helm_a".to_string()));
    assert_eq!(dm.armor_name_dict.get(&"Feet A".to_string()), Some(&"feet_a".to_string()));
    assert_eq!(dm.armor_name_dict.len(), 8);
    assert_eq!(dm.skill_name_dict.get(&"Attack Boost".to_string()), Some(&"atk".to_string()));
    assert_eq!(dm.skill_name_dict.len(), 3);
    assert!(dm.armor_name_dict.get(&"helm_a".to_string()).is_none());
    let mut dict = StrMap::new();
    dict.insert("x".to_string(), "old".to_string());
    let mut names = StrMap::new();
    names.insert("en".to_string(), "x".to_string());
    names.insert("ko".to_string(), "y".to_string());
    add_names(&mut dict, &names, &"new".to_string());
    assert_eq!(dict.get(&"x".to_string()), Some(&"new".to_string()));
    assert_eq!(dict.get(&"y".to_string()), Some(&"new".to_string()));
    assert_eq!(dict.len(), 2);
}

#[test]
fn decorations_are_grouped_in_the_order_of_socket_sizes() {
    let dm = catalog();
    assert_eq!(keys(&dm.decos_by_skill), vec!["guard", "atk"]);
    let guard: Vec<&str> =
        dm.get_deco_by_skill_id(&"guard".to_string()).iter().map(|d| d.id.as_str()).collect();
    assert_eq!(guard, vec!["g_small", "g_big", "g_mid"]);
    let atk: Vec<&str> = dm.get_deco_by_skill_id(&"atk".to_string()).iter().map(|d| d.id.as_str()).collect();
    assert_eq!(atk, vec!["a"]);
    assert_eq!(dm.get_deco_by_skill_id(&"crit".to_string()).len(), 0);
    assert!(dm.has_decoration(&"guard".to_string()));
    assert!(!dm.has_decoration(&"crit".to_string()));
    assert!(!dm.has_decoration(&"nothing".to_string()));
    let grouped = group_decos(&dm.decos, &dm.skills);
    assert_eq!(keys(&grouped), vec!["guard", "atk"]);
}

#[test]
fn table_is_built_for_the_grouped_decorations() {
    let dm = catalog();
    assert_eq!(dm.deco_combinations.costs_of_level(&"atk".to_string(), 7), vec![vec![0, 7, 0, 0]]);
    assert_eq!(dm.deco_combinations.costs_of_level(&"guard".to_string(), 1), vec![vec![1, 0, 0, 0]]);
    assert_eq!(
        dm.deco_combinations.costs_of_level(&"guard".to_string(), 3),
        vec![vec![3, 0, 0, 0], vec![0, 0, 1, 0]]
    );
    assert_eq!(dm.deco_combinations.costs_of_level(&"crit".to_string(), 1), Vec::<Vec<i32>>::new());
}

#[test]
fn pieces_by_part() {
    let dm = catalog();
    let helms: Vec<&str> = dm.get_parts(ArmorPart::Helm).iter().map(|a| a.id().as_str()).collect();
    assert_eq!(helms, vec!["helm_a", "helm_b", "helm_c"]);
    let feet: Vec<String> = dm.get_parts_clone(ArmorPart::Feet).iter().map(|a| a.id().clone()).collect();
    assert_eq!(feet, vec!["feet_a"]);
    assert_eq!(dm.get_parts(ArmorPart::Arm).len(), 0);
    assert_eq!(dm.get_parts(ArmorPart::Talisman).len(), 0);
    assert_eq!(dm.empty_armors.len(), 5);
    assert_eq!(dm.empty_armors[2].id(), "__empty_arm");
    assert_eq!(dm.bases_by_part.len(), 5);
    let (bases, _, _) = part_tables(&dm.armors, ArmorPart::Helm);
    assert_eq!(bases.len(), 3);
}

#[test]
fn socket_only_pieces_stand_for_the_pieces() {
    let dm = catalog();
    assert_eq!(keys(&dm.slot_only_armors[0]), vec!["__slot_2-1-0", "__slot_4-0-0"]);
    assert_eq!(dm.slot_only_armors[0].get(&"__slot_2-1-0".to_string()).map(|a| a.slots.clone()), Some(vec![2, 1, 0]));
    assert_eq!(dm.slot_only_armors[0].get(&"__slot_2-1-0".to_string()).map(|a| a.part), Some(ArmorPart::Helm));
    let same: Vec<&str> = dm.armors_by_slot[0]
        .get(&"__slot_2-1-0".to_string())
        .unwrap()
        .iter()
        .map(|a| a.id().as_str())
        .collect();
    assert_eq!(same, vec!["helm_a", "helm_b"]);
    assert_eq!(keys(&dm.slot_only_armors[4]), vec!["__slot_1-0-0"]);
    assert_eq!(dm.slot_only_armors[1].len(), 0);
    assert_eq!(dm.armors_by_slot[1].len(), 0);
}

#[test]
fn requirement_is_split_by_decorations() {
    let dm = catalog();
    let (no, yes) = dm.get_leftover_skills(&levels(&[("guard", 2), ("crit", 1), ("atk", 3), ("other", 1)]));
    assert_eq!(keys(&no), vec!["crit", "other"]);
    assert_eq!(keys(&yes), vec!["guard", "atk"]);
    assert_eq!(no.get(&"crit".to_string()), Some(&1));
    assert_eq!(yes.get(&"atk".to_string()), Some(&3));
    let (no, single, multi) = dm.get_skils_by_deco(&levels(&[("guard", 2), ("crit", 1), ("atk", 3)]));
    assert_eq!(keys(&no), vec!["crit"]);
    assert_eq!(keys(&single), vec!["atk"]);
    assert_eq!(keys(&multi), vec!["guard"]);
    assert_eq!(single.get(&"atk".to_string()), Some(&(2, 3)));
    assert_eq!(multi.get(&"guard".to_string()), Some(&2));
}

#[test]
fn augmented_pieces_are_named_and_listed() {
    let mut dm = catalog();
    let helm = dm.armors.get(&"helm_a".to_string()).unwrap().clone();
    let feet = dm.armors.get(&"feet_a".to_string()).unwrap().clone();
    let mut more = StrMap::new();
    more.insert("guard".to_string(), ArmorSkill { level: 1 });
    let anomalies = vec![
        AnomalyArmor::new(helm, zero(), vec![1, 0, 0], more),
        AnomalyArmor::new(feet, zero(), vec![0, 1, 0], StrMap::new()),
    ];
    dm.set_anomalies(anomalies);
    assert_eq!(keys(&dm.anomaly_armors), vec!["__anomaly_0_helm_a", "__anomaly_1_feet_a"]);
    let first = dm.get_anomaly_armor(&"__anomaly_0_helm_a".to_string()).unwrap();
    assert_eq!(first.original.id(), "helm_a");
    assert_eq!(first.affected.id(), "__anomaly_0_helm_a");
    assert_eq!(first.affected.slots, vec![3, 1, 0]);
    assert_eq!(first.affected.skills.get(&"guard".to_string()), Some(&ArmorSkill { level: 2 }));
    assert!(dm.get_anomaly_armor(&"helm_a".to_string()).is_none());
    assert!(dm.get_anomaly_armor(&"__anomaly_7_helm_a".to_string()).is_none());
    let helms: Vec<&str> = dm.get_parts(ArmorPart::Helm).iter().map(|a| a.id().as_str()).collect();
    assert_eq!(helms, vec!["helm_a", "helm_b", "helm_c", "__anomaly_0_helm_a"]);
    let feet: Vec<&str> = dm.get_parts(ArmorPart::Feet).iter().map(|a| a.id().as_str()).collect();
    assert_eq!(feet, vec!["feet_a", "__anomaly_1_feet_a"]);
    dm.set_anomalies(vec![]);
    assert_eq!(dm.anomaly_armors.len(), 0);
    assert_eq!(dm.get_parts(ArmorPart::Helm).len(), 3);
    let named = name_anomaly(dm.armors.get(&"helm_b".to_string()).unwrap(), 12, &"orig".to_string());
    assert_eq!(named.id(), "__anomaly_12_orig");
    assert_eq!(named.slots, vec![2, 1, 0]);
}

#[test]
fn charms_are_kept_by_socket_signature() {
    let mut dm = catalog();
    let charm = |id: &str, slots: Vec<i32>| Talisman {
        id: id.to_string(),
        skills: vec![TalismanSkill { id: "guard".to_string(), level: 1 }],
        slot_sizes: slots,
    };
    dm.set_talismans(vec![charm("c1", vec![2, 1, 0]), charm("c2", vec![1, 0, 0]), charm("c3", vec![2, 1, 0])]);
    assert_eq!(dm.talismans.len(), 3);
    assert_eq!(keys(&dm.slot_only_talismans), vec!["__slot_2-1-0", "__slot_1-0-0"]);
    assert_eq!(
        dm.slot_only_talismans.get(&"__slot_2-1-0".to_string()).map(|t| t.slot_sizes.clone()),
        Some(vec![2, 1, 0])
    );
    let same: Vec<&str> = dm.talismans_by_slot
        .get(&"__slot_2-1-0".to_string())
        .unwrap()
        .iter()
        .map(|t| t.id().as_str())
        .collect();
    assert_eq!(same, vec!["c1", "c3"]);
    dm.set_talismans(vec![charm("c4", vec![3, 0, 0])]);
    assert_eq!(keys(&dm.slot_only_talismans), vec!["__slot_3-0-0"]);
    assert_eq!(keys(&dm.talismans_by_slot), vec!["__slot_3-0-0"]);
}
