//! Text, time, order and keyed collections.

use legal_service_router::distance::{distance, has_cost};
use legal_service_router::instant::Timestamp;
use legal_service_router::keyed::{TextMap, TextSet};
use legal_service_router::order::sort;
use legal_service_router::text::{
    blank, has_part, holds, join, less, relate, same, trim, Relation,
};

fn texts(items: &[&str]) -> Vec<String> {
    items.iter().map(|s| s.to_string()).collect()
}

#[test]
fn texts_stand_in_lexicographic_order() {
    assert!(matches!(relate("POINT-A", "POINT-B"), Relation::Before));
    assert!(matches!(relate("POINT-10", "POINT-2"), Relation::Before));
    assert!(matches!(relate("AB", "A"), Relation::After));
    assert!(matches!(relate("", ""), Relation::Same));
    assert!(less("a", "\u{e9}") && less("\u{ffff}", "\u{10000}"));
    assert!(same("x", "x") && !same("x", "y"));
}

#[test]
fn sorting_agrees_with_the_standard_library() {
    let list = texts(&["b", "", "aa", "a", "\u{10000}", "b", "\u{ffff}", "Z"]);
    let mut expected = list.clone();
    expected.sort();
    assert_eq!(sort(list), expected);
    assert!(sort(Vec::<String>::new()).is_empty());
}

#[test]
fn texts_are_joined_and_found() {
    assert_eq!(join(&texts(&[]), ", "), "");
    assert_eq!(join(&texts(&["a"]), ", "), "a");
    assert_eq!(join(&texts(&["a", "b", "c"]), ", "), "a, b, c");
    assert!(holds(&texts(&["a", "b"]), "b"));
    assert!(!holds(&texts(&["a", "b"]), "c"));
}

#[test]
fn blank_text_is_white_space_alone() {
    assert!(blank(""));
    assert!(blank(" \t\r\n\u{85}\u{a0}\u{2028}\u{3000}"));
    assert!(!blank(" x "));
    assert!(!blank("\u{200b}"));
}

#[test]
fn maps_are_walked_in_order_of_their_keys() {
    let mut m: TextMap<u32> = TextMap::new();
    m.insert("b".to_string(), 2);
    m.insert("c".to_string(), 3);
    m.insert("a".to_string(), 1);
    m.insert("b".to_string(), 20);
    assert_eq!(m.len(), 3);
    let walked: Vec<(String, u32)> = (0..m.len())
        .map(|i| (m.key_at(i).clone(), *m.value_at(i)))
        .collect();
    assert_eq!(
        walked,
        vec![("a".to_string(), 1), ("b".to_string(), 20), ("c".to_string(), 3)]
    );
    assert_eq!(m.get("b"), Some(&20));
    assert_eq!(m.get("d"), None);
    let kept = m.clone();
    assert_eq!(m.take("b"), Some(20));
    assert_eq!(m.take("b"), None);
    assert!(!m.contains_key("b"));
    assert_ne!(m, kept);
    m.clear();
    assert_eq!(m.len(), 0);
}

#[test]
fn sets_hold_every_text_once() {
    let mut s = TextSet::of(texts(&["b", "a", "b"]));
    assert_eq!(s.list(), vec!["a", "b"]);
    s.insert("aa".to_string());
    assert!(s.contains("aa") && !s.contains("c"));
    assert_eq!(s.clone().list(), vec!["a", "aa", "b"]);
}

#[test]
fn instants_are_written_and_read_back() {
    for text in [
        "0000-01-01T00:00:00+00:00",
        "1969-12-31T23:59:59.999999999+00:00",
        "2016-12-31T23:59:60+00:00",
        "2016-12-31T23:59:60.500+00:00",
        "2026-08-02T00:00:00.250+00:00",
        "9999-12-31T23:59:59+00:00",
    ] {
        let t = Timestamp::from_rfc3339(text).unwrap();
        assert_eq!(t.to_rfc3339(), text);
        assert_eq!(Timestamp::from_rfc3339(&t.to_rfc3339()).unwrap(), t);
        assert_eq!(Timestamp::new(t.seconds(), t.nanos()), Some(t));
    }
    let t = Timestamp::from_rfc3339("2026-08-02T02:00:00+02:00").unwrap();
    assert_eq!(t.shown(), "2026-08-02 00:00:00 UTC");
}

#[test]
fn instants_out_of_range_are_refused() {
    assert!(Timestamp::new(8_210_266_876_799, 999_999_999).is_some());
    assert!(Timestamp::new(8_210_266_876_800, 0).is_none());
    assert!(Timestamp::new(-8_334_601_228_800, 0).is_some());
    assert!(Timestamp::new(-8_334_601_228_801, 0).is_none());
    assert!(Timestamp::new(59, 1_500_000_000).is_some());
    assert!(Timestamp::new(-1, 1_500_000_000).is_some());
    assert!(Timestamp::new(58, 1_500_000_000).is_none());
    assert!(Timestamp::new(59, 2_000_000_000).is_none());
    for (seconds, nanos) in [
        (8_210_266_876_799, 999_999_999),
        (8_210_266_876_800, 0),
        (-8_334_601_228_800, 0),
        (-8_334_601_228_801, 0),
        (59, 1_500_000_000),
        (-1, 1_500_000_000),
        (58, 1_500_000_000),
        (59, 2_000_000_000),
    ] {
        assert_eq!(
            Timestamp::new(seconds, nanos).is_some(),
            chrono::DateTime::from_timestamp(seconds, nanos).is_some()
        );
    }
}

#[test]
fn intervals_are_half_open() {
    let from = Timestamp::new(10, 0).unwrap();
    let to = Timestamp::new(20, 0).unwrap();
    assert!(from.is_within(&from, &to));
    assert!(!to.is_within(&from, &to));
    assert!(Timestamp::new(19, 999_999_999).unwrap().is_within(&from, &to));
    assert!(!Timestamp::new(9, 999_999_999).unwrap().is_within(&from, &to));
    assert!(!from.is_within(&from, &from));
}

#[test]
fn the_clock_moves_forward() {
    let before = chrono::Utc::now();
    let now = Timestamp::now();
    let after = chrono::Utc::now();
    assert!(before.timestamp() <= now.seconds() && now.seconds() <= after.timestamp());
}

#[test]
fn distances_and_their_limits() {
    assert_eq!(distance(0, 0, -2, 3), 5);
    assert!(has_cost(&[0, 0], &[i64::MAX, 0], 0));
    assert!(!has_cost(&[0, 0], &[i64::MAX, 1], 0));
    assert!(!has_cost(&[0, 0], &[i64::MAX, 0], 1));
    assert!(has_cost(&[0, 0], &[i64::MAX, 0], i64::MIN));
    assert!(!has_cost(&[0, 0], &[i64::MIN, 0], -1));
    assert!(!has_cost(&[-1, 0], &[i64::MAX, 0], -1));
}

#[test]
fn white_space_is_trimmed_at_both_ends() {
    for s in ["", " ", "a", " a ", "\u{3000}\ta b\u{2009}\n", "\u{200b}a\u{200b}", "\u{85}\u{e9}\u{a0}"] {
        assert_eq!(trim(s), s.trim());
    }
}

#[test]
fn parts_are_found_in_texts() {
    for s in ["", "UNIQUE", "x UNIQUE constraint", "UNIQU", "UUNIQUE", "\u{e9}UNIQUE\u{e9}", "UNI QUE"] {
        for part in ["UNIQUE", "", "\u{e9}"] {
            assert_eq!(has_part(s, part), s.contains(part));
        }
    }
}
