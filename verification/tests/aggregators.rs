use scrobble_recap::aggregate::{calculate_year, day_windows, total_minutes, window_total};
use scrobble_recap::cache::GenreCache;
use scrobble_recap::months::{calculate_genre_months, month_windows, tally_counts, top_genres,
    GenreMonths};

#[test]
fn non_leap_year_has_363_windows() {
    let w = day_windows(2023);
    assert_eq!(w.len(), 363);
}

#[test]
fn leap_rule_year_has_364_windows() {
    let w = day_windows(2024);
    assert_eq!(w.len(), 364);
}

#[test]
fn day_windows_skip_day_zero_and_align() {
    // January 1st, 2023, 00:00:00 UTC.
    let start = 1672531200;
    let w = day_windows(2023);
    // The year's first day is never aggregated: the first window starts a
    // full day after the anchor.
    assert_eq!(w[0].0, start + 86400);
    assert_eq!(w[0].1, start + 2 * 86400);
    assert_eq!(w[362].1 - w[0].0, 363 * 86400);
}

#[test]
fn day_windows_anchor_at_known_epochs() {
    assert_eq!(day_windows(1970)[0].0, 86400);
    assert_eq!(day_windows(2000)[0].0, 946684800 + 86400);
    assert_eq!(day_windows(2024)[0].0, 1704067200 + 86400);
}

#[test]
fn window_total_sums_and_clamps() {
    assert_eq!(window_total(&vec![120000, 60000]), 180000);
    assert_eq!(window_total(&Vec::new()), 0);
    // Exactly one day of milliseconds is still plausible.
    assert_eq!(window_total(&vec![86_400_000]), 86_400_000);
    // Anything above is stored as zero, never the raw figure.
    assert_eq!(window_total(&vec![86_400_000, 1]), 0);
    assert_eq!(window_total(&vec![u64::MAX, u64::MAX]), 0);
}

#[test]
fn calculate_year_buckets() {
    let start = 1672531200;
    let mut windows: Vec<Vec<u64>> = vec![Vec::new(); 363];
    windows[0] = vec![60000, 60000];
    windows[1] = vec![90_000_000];
    let days = calculate_year(2023, &windows);
    assert_eq!(days.len(), 363);
    assert_eq!(days[0], (start + 86400, 120000));
    assert_eq!(days[1], (start + 2 * 86400, 0));
    assert_eq!(days[2], (start + 3 * 86400, 0));
}

#[test]
fn total_minutes_from_day_buckets() {
    let days = vec![(0i64, 120000u64), (86400, 60000), (172800, 0)];
    assert_eq!(total_minutes(&days), 3);
}

#[test]
fn month_windows_from_epoch() {
    let w = month_windows(0).unwrap();
    assert_eq!(w.len(), 3);
    // 1970: Jan 1 + 0/1 months, + 3/4 months, + 6/7 months.
    assert_eq!(w[0], (0, 31 * 86400));
    assert_eq!(w[1], (90 * 86400, 120 * 86400));
    assert_eq!(w[2], (181 * 86400, 212 * 86400));
}

#[test]
fn tally_counts_in_first_seen_order() {
    let names: Vec<String> = ["X", "Y", "X", "Z", "X", "Y"]
        .iter()
        .map(|s| s.to_string())
        .collect();
    let counts = tally_counts(&names);
    assert_eq!(
        counts,
        vec![
            ("X".to_string(), 3),
            ("Y".to_string(), 2),
            ("Z".to_string(), 1)
        ]
    );
}

#[test]
fn genre_top_three_excludes_fourth() {
    // Play counts X:10, Y:10, Z:5, W:1 over one month window: exactly
    // three snapshot entries, W excluded.
    let mut names: Vec<String> = Vec::new();
    for _ in 0..10 {
        names.push("X".to_string());
    }
    for _ in 0..10 {
        names.push("Y".to_string());
    }
    for _ in 0..5 {
        names.push("Z".to_string());
    }
    names.push("W".to_string());
    let mut cache = GenreCache::new();
    cache.insert("X".to_string(), vec!["rock".to_string()]);
    cache.insert("Y".to_string(), vec!["pop".to_string()]);
    cache.insert("Z".to_string(), vec!["jazz".to_string()]);
    cache.insert("W".to_string(), vec!["metal".to_string()]);
    let counts = tally_counts(&names);
    let snap = top_genres(&counts, &cache);
    assert_eq!(snap.len(), 3);
    let keys: Vec<&str> = snap.iter().map(|e| e.0.as_str()).collect();
    assert_eq!(keys, vec!["X", "Y", "Z"]);
    assert!(!keys.contains(&"W"));
    assert_eq!(snap[0].1, vec!["rock".to_string()]);
}

#[test]
fn genre_top_three_excludes_fourth_other_order() {
    // Same play counts, but the low-count artist is seen first: it is
    // still excluded, and the tie between the two leaders keeps their
    // first-seen order.
    let mut names: Vec<String> = vec!["W".to_string()];
    for _ in 0..5 {
        names.push("Z".to_string());
    }
    for _ in 0..10 {
        names.push("Y".to_string());
    }
    for _ in 0..10 {
        names.push("X".to_string());
    }
    let cache = GenreCache::new();
    let snap = top_genres(&tally_counts(&names), &cache);
    assert_eq!(snap.len(), 3);
    let keys: Vec<&str> = snap.iter().map(|e| e.0.as_str()).collect();
    assert_eq!(keys, vec!["Y", "X", "Z"]);
}

#[test]
fn month_windows_out_of_range_anchor_fails() {
    assert!(month_windows(i64::MAX).is_none());
}

#[test]
fn top_genres_with_fewer_than_three() {
    let cache = GenreCache::new();
    let counts = vec![("A".to_string(), 2u64)];
    let snap = top_genres(&counts, &cache);
    assert_eq!(snap.len(), 1);
    assert_eq!(snap[0].0, "A");
    assert!(snap[0].1.is_empty());
}

#[test]
fn calculate_genre_months_fills_all_three() {
    let mut cache = GenreCache::new();
    cache.insert("A".to_string(), vec!["rock".to_string()]);
    let w0: Vec<String> = vec!["A".to_string(), "A".to_string(), "B".to_string()];
    let w1: Vec<String> = vec!["B".to_string()];
    let w2: Vec<String> = Vec::new();
    let months = calculate_genre_months(&vec![w0, w1, w2], &cache);
    assert_eq!(months.january.len(), 2);
    assert_eq!(months.january[0].0, "A");
    assert_eq!(months.january[0].1, vec!["rock".to_string()]);
    assert_eq!(months.january[1].0, "B");
    assert!(months.january[1].1.is_empty());
    assert_eq!(months.april.len(), 1);
    assert_eq!(months.august.len(), 0);
}

#[test]
fn genre_months_set_get_and_labels() {
    let mut months = GenreMonths::default();
    assert!(months.january.is_empty());
    let snap = vec![("A".to_string(), vec!["rock".to_string()])];
    months.set(1, snap.clone());
    assert!(months.january.is_empty());
    assert!(months.august.is_empty());
    assert_eq!(months.april, snap);
    assert_eq!(months.get(1), snap);
}

#[test]
fn genre_month_labels() {
    let months = GenreMonths::new();
    assert_eq!(months.get_month_string(0), "January");
    let months = GenreMonths::new();
    assert_eq!(months.get_month_string(1), "April");
    let months = GenreMonths::new();
    assert_eq!(months.get_month_string(2), "August");
}
