use std::collections::VecDeque;

use dining_philosophers::{
    longest, remove_all_fruits_manual, remove_all_fruits_retain, remove_at, remove_fruit, Fighter,
};

fn salad(items: &[&str]) -> Vec<String> {
    items.iter().map(|s| s.to_string()).collect()
}

#[test]
fn remove_fruit_takes_first_match_only() {
    let mut s = salad(&["apple", "mango", "pear", "mango"]);
    assert!(remove_fruit(&mut s, "mango"));
    assert_eq!(s, salad(&["apple", "pear", "mango"]));
    assert!(!remove_fruit(&mut s, "kiwi"));
    assert_eq!(s, salad(&["apple", "pear", "mango"]));
}

#[test]
fn remove_fruit_on_empty_list() {
    let mut s: Vec<String> = Vec::new();
    assert!(!remove_fruit(&mut s, "apple"));
    assert!(s.is_empty());
}

#[test]
fn remove_all_retain_counts_and_keeps_order() {
    let mut s = salad(&["mango", "apple", "mango", "pear", "mango"]);
    assert_eq!(remove_all_fruits_retain(&mut s, "mango"), 3);
    assert_eq!(s, salad(&["apple", "pear"]));
    assert_eq!(remove_all_fruits_retain(&mut s, "kiwi"), 0);
    assert_eq!(s, salad(&["apple", "pear"]));
}

#[test]
fn remove_all_manual_matches_retain() {
    let base = salad(&["mango", "apple", "mango", "pear", "mango", "kiwi"]);
    let mut a = base.clone();
    let mut b = base.clone();
    assert_eq!(remove_all_fruits_manual(&mut a, "mango"), 3);
    assert_eq!(remove_all_fruits_retain(&mut b, "mango"), 3);
    assert_eq!(a, b);
    assert_eq!(a, salad(&["apple", "pear", "kiwi"]));
}

#[test]
fn longest_prefers_longer_and_second_on_tie() {
    assert_eq!(longest("long string is long", "xyz"), "long string is long");
    assert_eq!(longest("ab", "abcd"), "abcd");
    assert_eq!(longest("ab", "cd"), "cd");
}

#[test]
fn fighter_keeps_name() {
    let f = Fighter::new("Khabib Nurmagomedov");
    assert_eq!(f.name, "Khabib Nurmagomedov");
}

#[test]
fn remove_at_takes_the_element_and_rotates() {
    let mut list: VecDeque<&str> = ["Pomegranate", "Apple", "Loquat", "Fig", "Cherry"]
        .into_iter()
        .collect();
    assert_eq!(remove_at(&mut list, 2), Some("Loquat"));
    let rest: Vec<&str> = list.iter().copied().collect();
    assert_eq!(rest, vec!["Fig", "Cherry", "Pomegranate", "Apple"]);
}

#[test]
fn remove_at_front_and_past_the_end() {
    let mut list: VecDeque<u32> = (1..=3).collect();
    assert_eq!(remove_at(&mut list, 0), Some(1));
    assert_eq!(list.iter().copied().collect::<Vec<_>>(), vec![2, 3]);
    assert_eq!(remove_at(&mut list, 2), None);
    assert_eq!(list.iter().copied().collect::<Vec<_>>(), vec![2, 3]);
    let mut empty: VecDeque<u32> = VecDeque::new();
    assert_eq!(remove_at(&mut empty, 0), None);
}
