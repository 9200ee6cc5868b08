use scrobble_recap::ranking::{largest_value, largest_value_hashmap, sort_counts, sort_value};
use scrobble_recap::textutil::{check_for_cyrillic, vec_substring};

#[test]
fn sort_value_orders_descending_stably() {
    // Counts B and C tie at nine and both beat A; the tie keeps the
    // original order, so B stays before C.
    let entries = vec![
        ("A".to_string(), "5".to_string()),
        ("B".to_string(), "9".to_string()),
        ("C".to_string(), "9".to_string()),
    ];
    let sorted = sort_value(&entries);
    let keys: Vec<&str> = sorted.iter().map(|e| e.0.as_str()).collect();
    assert_eq!(keys, vec!["B", "C", "A"]);
}

#[test]
fn sort_value_malformed_counts_as_zero() {
    let entries = vec![
        ("A".to_string(), "oops".to_string()),
        ("B".to_string(), "2".to_string()),
        ("C".to_string(), "-1".to_string()),
    ];
    let sorted = sort_value(&entries);
    let keys: Vec<&str> = sorted.iter().map(|e| e.0.as_str()).collect();
    // "oops" counts as zero and keeps its place ahead of the negative.
    assert_eq!(keys, vec!["B", "A", "C"]);
}

#[test]
fn largest_value_first_maximum_wins() {
    let entries = vec![("A".to_string(), 3i64), ("B".to_string(), 7i64)];
    let r = largest_value(&entries);
    assert_eq!(r, vec!["B".to_string(), "7".to_string()]);
    let entries = vec![
        ("A".to_string(), 7i64),
        ("B".to_string(), 7i64),
        ("C".to_string(), 2i64),
    ];
    let r = largest_value(&entries);
    assert_eq!(r, vec!["A".to_string(), "7".to_string()]);
}

#[test]
fn largest_value_without_positives() {
    let r = largest_value(&Vec::new());
    assert_eq!(r, vec!["".to_string(), "0".to_string()]);
    let entries = vec![("A".to_string(), -3i64), ("B".to_string(), 0i64)];
    let r = largest_value(&entries);
    assert_eq!(r, vec!["".to_string(), "0".to_string()]);
}

#[test]
fn largest_value_hashmap_by_key() {
    let entries = vec![(1000i64, 3i64), (2000i64, 7i64), (3000i64, 7i64)];
    let r = largest_value_hashmap(&entries);
    assert_eq!(r, vec![2000, 7]);
    let r = largest_value_hashmap(&Vec::new());
    assert_eq!(r, vec![0, 0]);
}

#[test]
fn sort_counts_descending_stable() {
    let entries = vec![
        ("X".to_string(), 5u64),
        ("Y".to_string(), 9u64),
        ("Z".to_string(), 9u64),
    ];
    let sorted = sort_counts(&entries);
    let keys: Vec<&str> = sorted.iter().map(|e| e.0.as_str()).collect();
    assert_eq!(keys, vec!["Y", "Z", "X"]);
}

#[test]
fn parse_count_reads_decimal_text() {
    assert_eq!(scrobble_recap::numtext::parse_count("365"), 365);
    assert_eq!(scrobble_recap::numtext::parse_count("-12"), -12);
    assert_eq!(scrobble_recap::numtext::parse_count("+7"), 7);
    assert_eq!(scrobble_recap::numtext::parse_count(""), 0);
    assert_eq!(scrobble_recap::numtext::parse_count("12a"), 0);
    assert_eq!(scrobble_recap::numtext::parse_count("2147483647"), 2147483647);
    assert_eq!(scrobble_recap::numtext::parse_count("2147483648"), 0);
    assert_eq!(scrobble_recap::numtext::parse_count("-2147483648"), -2147483648);
    assert_eq!(scrobble_recap::numtext::parse_count("-2147483649"), 0);
}

#[test]
fn latin_text_needs_no_fallback() {
    assert!(!check_for_cyrillic("hello, world! 42"));
    assert!(check_for_cyrillic("\u{43f}\u{440}\u{438}\u{432}\u{435}\u{442}"));
    assert!(check_for_cyrillic("\u{65e5}\u{672c}"));
    assert!(!check_for_cyrillic(""));
}

#[test]
fn vec_substring_finds_fragments() {
    let names = vec!["Foo Bar".to_string(), "Baz".to_string()];
    assert!(vec_substring(&names, "Bar"));
    assert!(vec_substring(&names, "az"));
    assert!(!vec_substring(&names, "Qux"));
    assert!(vec_substring(&names, ""));
    assert!(!vec_substring(&Vec::new(), "x"));
}
