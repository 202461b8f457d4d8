use mhr_calculator::data::armor::{ArmorPart, ArmorSkill, ArmorStat, BaseArmor, SexType};
use mhr_calculator::data::rows::{anomaly_of_row, read_numbers, read_pairs, talisman_of_row};
use mhr_calculator::str_map::StrMap;
use mhr_calculator::text::read_field;

fn row(fields: &[&str]) -> Vec<String> {
    fields.iter().map(|f| f.to_string()).collect()
}

fn dict(pairs: &[(&str, &str)]) -> StrMap<String> {
    let mut d = StrMap::new();
    for (name, id) in pairs {
        d.insert(name.to_string(), id.to_string());
    }
    d
}

fn armors() -> StrMap<BaseArmor> {
    let mut skills = StrMap::new();
    skills.insert("guard".to_string(), ArmorSkill { level: 1 });
    let mut m = StrMap::new();
    m.insert(
        "helm_a".to_string(),
        BaseArmor {
            id: "helm_a".to_string(),
            part: ArmorPart::Helm,
            sex_type: SexType::All,
            names: StrMap::new(),
            rarity: 8,
            stat: ArmorStat { defense: 100, fire_res: 1, water_res: 2, ice_res: 3, elec_res: 4, dragon_res: 5 },
            skills,
            slots: vec![2, 1, 0],
        },
    );
    m
}

#[test]
fn fields_read_as_numbers() {
    assert_eq!(read_field(&"".to_string()), Some(0));
    assert_eq!(read_field(&"0".to_string()), Some(0));
    assert_eq!(read_field(&"17".to_string()), Some(17));
    assert_eq!(read_field(&"-3".to_string()), Some(-3));
    assert_eq!(read_field(&"007".to_string()), Some(7));
    assert_eq!(read_field(&"2147483647".to_string()), Some(i32::MAX));
    assert_eq!(read_field(&"-2147483647".to_string()), Some(-i32::MAX));
    assert_eq!(read_field(&"2147483648".to_string()), None);
    assert_eq!(read_field(&"-".to_string()), None);
    assert_eq!(read_field(&"1.5".to_string()), None);
    assert_eq!(read_field(&"x".to_string()), None);
    assert_eq!(read_field(&"--1".to_string()), None);
    assert_eq!(read_numbers(&row(&["a", "1", "", "-2"]), 1, 3), Some(vec![1, 0, -2]));
    assert_eq!(read_numbers(&row(&["a", "1", "b", "-2"]), 1, 3), None);
    assert_eq!(read_numbers(&row(&["a"]), 1, 0), Some(vec![]));
}

#[test]
fn pairs_of_a_skill_and_a_level() {
    let skills = dict(&[("Guard", "guard"), ("Attack", "atk")]);
    let r = row(&["Guard", "2", "", "9", "Attack", "-1"]);
    assert_eq!(
        read_pairs(&r, 0, 6, &skills),
        Some(vec![("guard".to_string(), 2), ("atk".to_string(), -1)])
    );
    assert_eq!(read_pairs(&r, 0, 4, &skills), Some(vec![("guard".to_string(), 2)]));
    assert_eq!(read_pairs(&r, 2, 3, &skills), Some(vec![]));
    assert_eq!(read_pairs(&r, 4, 5, &skills), None);
    assert_eq!(read_pairs(&r, 6, 6, &skills), Some(vec![]));
    assert_eq!(read_pairs(&row(&["Other", "1"]), 0, 2, &skills), None);
    assert_eq!(read_pairs(&row(&["Guard", "x"]), 0, 2, &skills), None);
}

#[test]
fn row_of_an_augmented_piece() {
    let names = dict(&[("Helm A", "helm_a"), ("Lost", "lost")]);
    let skills = dict(&[("Guard", "guard"), ("Attack", "atk")]);
    let a = anomaly_of_row(
        &row(&["Helm A", "10", "1", "2", "3", "4", "5", "1", "0", "2", "Guard", "1", "Attack", "2", "Guard", "3"]),
        &armors(),
        &names,
        &skills,
    )
    .unwrap();
    assert_eq!(a.original.id, "helm_a");
    assert_eq!(
        a.stat_diff,
        ArmorStat { defense: 10, fire_res: 1, water_res: 2, elec_res: 3, ice_res: 4, dragon_res: 5 }
    );
    assert_eq!(a.slot_diffs, vec![1, 0, 2]);
    assert_eq!(a.skill_diffs.len(), 2);
    assert_eq!(a.skill_diffs.get(&"guard".to_string()), Some(&ArmorSkill { level: 3 }));
    assert_eq!(a.skill_diffs.get(&"atk".to_string()), Some(&ArmorSkill { level: 2 }));
    assert_eq!(a.affected.slots, vec![3, 1, 2]);
    assert_eq!(a.affected.stat.defense, 110);
    assert_eq!(a.affected.skills.get(&"guard".to_string()), Some(&ArmorSkill { level: 4 }));
    let plain = anomaly_of_row(&row(&["Helm A", "", "", "", "", "", "", "", "", ""]), &armors(), &names, &skills);
    assert_eq!(plain.unwrap().slot_diffs, vec![0, 0, 0]);
    let none = |fields: &[&str]| anomaly_of_row(&row(fields), &armors(), &names, &skills).is_none();
    assert!(none(&["Helm A", "1", "1", "1", "1", "1", "1", "1", "1"]));
    assert!(none(&["Helm B", "1", "1", "1", "1", "1", "1", "1", "1", "1"]));
    assert!(none(&["Lost", "1", "1", "1", "1", "1", "1", "1", "1", "1"]));
    assert!(none(&["Helm A", "1", "1", "x", "1", "1", "1", "1", "1", "1"]));
    assert!(none(&["Helm A", "1", "1", "1", "1", "1", "1", "1", "1", "1", "Other", "1"]));
    assert!(none(&["Helm A", "1", "1", "1", "1", "1", "1", "1", "1", "1", "Guard"]));
    assert!(none(&["Helm A", "2147483647", "1", "1", "1", "1", "1", "1", "1", "1"]));
    assert!(none(&["Helm A", "1", "1", "1", "1", "1", "1", "2147483647", "1", "1"]));
    assert!(none(&["Helm A", "1", "1", "1", "1", "1", "1", "1", "1", "1", "Guard", "2147483647"]));
}

#[test]
fn row_of_a_charm() {
    let skills = dict(&[("Guard", "guard"), ("Attack", "atk")]);
    let t = talisman_of_row(&row(&["Guard", "2", "", "", "2", "1", "0"]), 12, &skills).unwrap();
    assert_eq!(t.id, "talisman_12");
    assert_eq!(t.skills.len(), 1);
    assert_eq!(t.skills[0].id, "guard");
    assert_eq!(t.skills[0].level, 2);
    assert_eq!(t.slot_sizes, vec![2, 1, 0]);
    let t = talisman_of_row(&row(&["Guard", "2", "Attack", "1", "", "", "", "more"]), 0, &skills).unwrap();
    assert_eq!(t.id, "talisman_0");
    assert_eq!(t.skills.len(), 2);
    assert_eq!(t.skills[1].id, "atk");
    assert_eq!(t.slot_sizes, vec![0, 0, 0]);
    assert!(talisman_of_row(&row(&["Guard", "2", "", "", "2", "1"]), 0, &skills).is_none());
    assert!(talisman_of_row(&row(&["Other", "2", "", "", "2", "1", "0"]), 0, &skills).is_none());
    assert!(talisman_of_row(&row(&["Guard", "two", "", "", "2", "1", "0"]), 0, &skills).is_none());
    assert!(talisman_of_row(&row(&["Guard", "2", "", "", "2", "b", "0"]), 0, &skills).is_none());
}
