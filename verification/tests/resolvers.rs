use scrobble_recap::cache::DurationCache;
use scrobble_recap::provider::{get_track_duration, user_processable, UnprocessableErrors};
use scrobble_recap::resolve::{
    find_artist_genres, find_artist_icon, find_song_cover, find_song_duration, primary_artist,
    resolved_duration_from_lookup, SearchResult,
};
use scrobble_recap::strutil::track_key;

fn hit(name: &str, duration: Option<u64>) -> SearchResult {
    SearchResult {
        name: name.to_string(),
        duration_ms: duration,
        genres: Vec::new(),
        image_url: None,
    }
}

#[test]
fn track_duration_parses_field() {
    assert_eq!(get_track_duration(Some("215000")), 215000);
    assert_eq!(get_track_duration(Some("0")), 0);
    assert_eq!(get_track_duration(Some("abc")), 0);
    assert_eq!(get_track_duration(Some("-5")), 0);
    assert_eq!(get_track_duration(Some("")), 0);
    assert_eq!(get_track_duration(None), 0);
    // Out of 32-bit range reads as zero, like a failed parse.
    assert_eq!(get_track_duration(Some("99999999999")), 0);
}

#[test]
fn fallback_chain_uses_catalog_duration() {
    // Track absent from cache, track-info lookup gives zero, catalog top
    // result matches case-insensitively: the catalog duration wins and is
    // cached under the composite key.
    let mut cache = DurationCache::new();
    let key = track_key("Artist", "My Song");
    assert!(cache.get(&key).is_none());
    let top = Some(hit("my song", Some(215000)));
    let dur = resolved_duration_from_lookup(0, &top, "My Song");
    assert_eq!(dur, 215000);
    cache.insert(key.clone(), dur);
    assert_eq!(cache.get(&key), Some(215000));
}

#[test]
fn mismatch_fallback_resolves_zero() {
    let mut cache = DurationCache::new();
    let key = track_key("Artist", "My Song");
    let top = Some(hit("a different song", Some(215000)));
    let dur = resolved_duration_from_lookup(0, &top, "My Song");
    assert_eq!(dur, 0);
    cache.insert(key.clone(), dur);
    assert_eq!(cache.get(&key), Some(0));
}

#[test]
fn nonzero_info_duration_wins() {
    let top = Some(hit("my song", Some(215000)));
    assert_eq!(resolved_duration_from_lookup(100, &top, "My Song"), 100);
}

#[test]
fn song_duration_match_rules() {
    assert_eq!(find_song_duration(&Some(hit("HELLO", Some(9))), "hello"), 9);
    assert_eq!(find_song_duration(&Some(hit("hello", None)), "hello"), 0);
    assert_eq!(find_song_duration(&Some(hit("other", Some(9))), "hello"), 0);
    assert_eq!(find_song_duration(&None, "hello"), 0);
}

#[test]
fn artist_genres_match_rules() {
    let mut top = hit("BAND", None);
    top.genres = vec!["rock".to_string(), "indie".to_string()];
    assert_eq!(
        find_artist_genres(&Some(top), "band"),
        vec!["rock".to_string(), "indie".to_string()]
    );
    let mut top = hit("someone else", None);
    top.genres = vec!["rock".to_string()];
    assert!(find_artist_genres(&Some(top), "band").is_empty());
    assert!(find_artist_genres(&None, "band").is_empty());
}

#[test]
fn cover_and_icon_match_rules() {
    let mut top = hit("Song", None);
    top.image_url = Some("http://img.example/cover.png".to_string());
    assert_eq!(
        find_song_cover(&Some(top), "song"),
        Some("http://img.example/cover.png".to_string())
    );
    let mut top = hit("Other", None);
    top.image_url = Some("http://img.example/cover.png".to_string());
    assert_eq!(find_song_cover(&Some(top), "song"), None);
    let mut top = hit("Artist", None);
    top.image_url = Some("http://img.example/icon.png".to_string());
    assert_eq!(
        find_artist_icon(&Some(top), "artist"),
        Some("http://img.example/icon.png".to_string())
    );
    assert_eq!(find_artist_icon(&None, "artist"), None);
}

#[test]
fn primary_artist_takes_first_listed() {
    assert_eq!(primary_artist("A; B"), "A");
    assert_eq!(primary_artist("X,Y,Z"), "X");
    assert_eq!(primary_artist("Solo"), "Solo");
    assert_eq!(primary_artist(""), "");
    assert_eq!(primary_artist(";lead"), "");
}

#[test]
fn user_processable_decisions() {
    assert!(matches!(
        user_processable(Some(6), 0),
        Err(UnprocessableErrors::UserNotFound)
    ));
    assert!(user_processable(Some(3), 0).is_ok());
    assert!(matches!(
        user_processable(None, 364),
        Err(UnprocessableErrors::NotEnoughScrobbles)
    ));
    assert!(user_processable(None, 365).is_ok());
}

#[test]
fn unprocessable_error_text() {
    assert_eq!(UnprocessableErrors::UserNotFound.as_text(), "UserNotFound");
    assert_eq!(
        UnprocessableErrors::NotEnoughScrobbles.as_text(),
        "NotEnoughScrobbles"
    );
}

#[test]
fn composite_key_shape() {
    assert_eq!(track_key("Artist", "Track"), "Artist - Track");
    assert_eq!(track_key("", ""), " - ");
}
