use mhr_calculator::counter::{advance, zero_counter};
use mhr_calculator::slots::{copy_slots, is_slots_exec, reserve, slots_le_exec, zero_slots};
use mhr_calculator::str_map::StrMap;
use mhr_calculator::text::{chars_of, find_char, has_prefix, parse_number, push_decimal, push_decimal_nat};

fn entries(m: &StrMap<i32>) -> Vec<(String, i32)> {
    (0..m.len()).map(|i| (m.key_at(i).clone(), *m.value_at(i))).collect()
}

#[test]
fn map_keeps_the_order_of_insertion() {
    let mut m: StrMap<i32> = StrMap::new();
    assert_eq!(m.len(), 0);
    m.insert("b".to_string(), 2);
    m.insert("a".to_string(), 1);
    m.insert("c".to_string(), 3);
    m.insert("a".to_string(), 10);
    assert_eq!(entries(&m), vec![("b".to_string(), 2), ("a".to_string(), 10), ("c".to_string(), 3)]);
    assert_eq!(m.get(&"a".to_string()), Some(&10));
    assert_eq!(m.get(&"x".to_string()), None);
    assert!(m.contains_key(&"c".to_string()));
    assert!(!m.contains_key(&"".to_string()));
    assert_eq!(m.index_of(&"c".to_string()), Some(2));
    assert_eq!(m.index_of(&"d".to_string()), None);
    m.remove(&"b".to_string());
    m.remove(&"missing".to_string());
    assert_eq!(entries(&m), vec![("a".to_string(), 10), ("c".to_string(), 3)]);
    m.set_value_at(1, 30);
    assert_eq!(m.swap_value_at(0, 11), 10);
    assert_eq!(entries(&m), vec![("a".to_string(), 11), ("c".to_string(), 30)]);
    let copy = m.duplicate();
    m.remove(&"a".to_string());
    assert_eq!(entries(&copy), vec![("a".to_string(), 11), ("c".to_string(), 30)]);
    assert_eq!(m.len(), 1);
}

#[test]
fn maps_of_texts_and_vectors_are_copied() {
    let mut names: StrMap<String> = StrMap::new();
    names.insert("en".to_string(), "Helm".to_string());
    let copy = names.duplicate_text();
    assert_eq!(copy.get(&"en".to_string()), Some(&"Helm".to_string()));
    let mut rows: StrMap<Vec<i32>> = StrMap::new();
    rows.insert("s".to_string(), vec![1, 2, 3]);
    let copy = rows.duplicate_rows();
    assert_eq!(copy.get(&"s".to_string()), Some(&vec![1, 2, 3]));
    assert_eq!(copy.len(), 1);
}

#[test]
fn counter_visits_every_value_once() {
    let lens = vec![2, 3, 1];
    let mut digits = zero_counter(3);
    let mut seen = vec![digits.clone()];
    while advance(&mut digits, &lens) {
        seen.push(digits.clone());
    }
    assert_eq!(
        seen,
        vec![vec![0, 0, 0], vec![1, 0, 0], vec![0, 1, 0], vec![1, 1, 0], vec![0, 2, 0], vec![1, 2, 0]]
    );
    assert_eq!(digits, vec![0, 0, 0]);
    let mut none = zero_counter(0);
    assert!(!advance(&mut none, &vec![]));
}

#[test]
fn socket_vectors() {
    assert_eq!(zero_slots(), vec![0, 0, 0, 0]);
    assert_eq!(copy_slots(&vec![1, 2, 3]), vec![1, 2, 3]);
    assert!(is_slots_exec(&vec![0, 1, 2, 3]));
    assert!(!is_slots_exec(&vec![0, 1, 2]));
    assert!(!is_slots_exec(&vec![0, 1, 2, -3]));
    assert!(slots_le_exec(&vec![0, 1, 2, 3], &vec![0, 1, 2, 3]));
    assert!(slots_le_exec(&vec![0, 0, 0, 0], &vec![1, 0, 0, 0]));
    assert!(!slots_le_exec(&vec![0, 2, 0, 0], &vec![9, 1, 9, 9]));
    assert_eq!(reserve(&vec![3, 0, 2, 0], &vec![3, 2, 0, 0]), Some(vec![0, 0, 0, 0]));
    assert_eq!(reserve(&vec![1, 0, 5, 1], &vec![2, 1, 0, 0]), Some(vec![0, 0, 3, 1]));
    assert_eq!(reserve(&vec![1, 0, 0, 1], &vec![2, 1, 0, 0]), None);
    assert_eq!(reserve(&vec![0, 0, 0, 0], &vec![0, 0, 0, 0]), Some(vec![0, 0, 0, 0]));
}

#[test]
fn numbers_are_written_in_decimal() {
    let mut s = "n=".to_string();
    push_decimal(&mut s, 0);
    push_decimal(&mut s, -45);
    push_decimal(&mut s, 1203);
    push_decimal_nat(&mut s, u64::MAX);
    assert_eq!(s, "n=0-45120318446744073709551615");
    let mut s = String::new();
    push_decimal(&mut s, i32::MIN);
    push_decimal(&mut s, i32::MAX);
    assert_eq!(s, "-21474836482147483647");
}

#[test]
fn numbers_are_read_from_decimal() {
    let chars: Vec<char> = "ab-0123-x9-".chars().collect();
    assert_eq!(parse_number(&chars, 3, 7), Some(123));
    assert_eq!(parse_number(&chars, 3, 3), None);
    assert_eq!(parse_number(&chars, 2, 7), None);
    assert_eq!(parse_number(&chars, 9, 10), Some(9));
    assert_eq!(parse_number(&chars, 8, 10), None);
    let big: Vec<char> = "2147483647".chars().collect();
    assert_eq!(parse_number(&big, 0, 10), Some(i32::MAX));
    let too_big: Vec<char> = "2147483648".chars().collect();
    assert_eq!(parse_number(&too_big, 0, 10), None);
    let long: Vec<char> = "99999999999999999999999999".chars().collect();
    assert_eq!(parse_number(&long, 0, long.len()), None);
    assert_eq!(find_char(&chars, 0, '-'), 2);
    assert_eq!(find_char(&chars, 3, '-'), 7);
    assert_eq!(find_char(&chars, 11, '-'), 11);
    assert_eq!(find_char(&chars, 0, 'z'), 11);
    assert_eq!(chars_of(&"héllo".to_string()), vec!['h', 'é', 'l', 'l', 'o']);
}

#[test]
fn prefixes() {
    assert!(has_prefix(&"__slot_1".to_string(), "__slot"));
    assert!(has_prefix(&"__slot".to_string(), "__slot"));
    assert!(has_prefix(&"anything".to_string(), ""));
    assert!(!has_prefix(&"__slo".to_string(), "__slot"));
    assert!(!has_prefix(&"x__slot".to_string(), "__slot"));
    assert!(has_prefix(&"äb".to_string(), "ä"));
}
