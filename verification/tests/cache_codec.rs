use scrobble_recap::cache::{DurationCache, GenreCache};
use scrobble_recap::codec::{parse_duration_doc, parse_genre_doc};

#[test]
fn duration_cache_insert_and_get() {
    let mut c = DurationCache::new();
    assert_eq!(c.get(&"Artist - Track".to_string()), None);
    c.insert("Artist - Track".to_string(), 215000);
    assert_eq!(c.get(&"Artist - Track".to_string()), Some(215000));
}

#[test]
fn duration_cache_overwrites() {
    let mut c = DurationCache::new();
    c.insert("k".to_string(), 1);
    c.insert("k".to_string(), 2);
    assert_eq!(c.get(&"k".to_string()), Some(2));
    assert_eq!(c.len(), 1);
}

#[test]
fn cache_hit_after_insert_no_second_lookup() {
    // Resolving the same track twice: the first pass misses and records,
    // the second is answered from the cache.
    let mut c = DurationCache::new();
    let key = scrobble_recap::strutil::track_key("Artist", "Track");
    assert!(c.get(&key).is_none());
    c.insert(key.clone(), 180000);
    assert_eq!(c.get(&key), Some(180000));
}

#[test]
fn duration_document_exact_text() {
    let mut c = DurationCache::new();
    c.insert("A - B".to_string(), 123);
    assert_eq!(c.to_text(), "{\"A - B\":123}");
}

#[test]
fn duration_document_empty_text() {
    let c = DurationCache::new();
    assert_eq!(c.to_text(), "{}");
}

#[test]
fn duration_round_trip() {
    let mut c = DurationCache::new();
    c.insert("Artist - Track".to_string(), 215000);
    c.insert("quo\"te - back\\slash".to_string(), 7);
    c.insert("Ünïcødé — Ťräçk".to_string(), 0);
    let text = c.to_text();
    let back = DurationCache::from_text(text.as_str());
    assert_eq!(back.get(&"Artist - Track".to_string()), Some(215000));
    assert_eq!(back.get(&"quo\"te - back\\slash".to_string()), Some(7));
    assert_eq!(back.get(&"Ünïcødé — Ťräçk".to_string()), Some(0));
    assert_eq!(back.len(), 3);
}

#[test]
fn duration_malformed_loads_empty() {
    let c = DurationCache::from_text("not json at all");
    assert_eq!(c.len(), 0);
    let c = DurationCache::from_text("{\"unterminated");
    assert_eq!(c.len(), 0);
    let c = DurationCache::from_text("{\"k\":12");
    assert_eq!(c.len(), 0);
    let c = DurationCache::from_text("");
    assert_eq!(c.len(), 0);
}

#[test]
fn duration_parse_last_duplicate_wins() {
    let c = DurationCache::from_text("{\"a\":1,\"a\":2}");
    assert_eq!(c.get(&"a".to_string()), Some(2));
}

#[test]
fn duration_parse_plain_document() {
    let parsed = parse_duration_doc("{\"k\":12,\"m\":0}").unwrap();
    assert_eq!(parsed.len(), 2);
    assert_eq!(parsed[0].0, "k");
    assert_eq!(parsed[0].1, 12);
    assert_eq!(parsed[1].0, "m");
    assert_eq!(parsed[1].1, 0);
}

#[test]
fn duration_parse_escaped_key() {
    let parsed = parse_duration_doc("{\"a\\\"b\":3}").unwrap();
    assert_eq!(parsed[0].0, "a\"b");
    assert_eq!(parsed[0].1, 3);
}

#[test]
fn duration_parse_pretty_printed_document() {
    // A conventionally pretty-printed document loads the same mapping as
    // its compact form.
    let c = DurationCache::from_text("{\n  \"A - B\": 123,\n  \"C\": 4\n}");
    assert_eq!(c.get(&"A - B".to_string()), Some(123));
    assert_eq!(c.get(&"C".to_string()), Some(4));
    assert_eq!(c.len(), 2);
}

#[test]
fn duration_parse_surrounding_whitespace() {
    let c = DurationCache::from_text("  { \"k\" : 1 }\n");
    assert_eq!(c.get(&"k".to_string()), Some(1));
    let c = DurationCache::from_text(" \t{}\r\n");
    assert_eq!(c.len(), 0);
    assert_eq!(c.get(&"k".to_string()), None);
    // Whitespace inside a quoted key is significant.
    let c = DurationCache::from_text("{\" k \":2}");
    assert_eq!(c.get(&" k ".to_string()), Some(2));
    assert_eq!(c.get(&"k".to_string()), None);
}

#[test]
fn genre_parse_pretty_printed_document() {
    let back = GenreCache::from_text("{\n  \"X\": [ \"rock\", \"pop\" ],\n  \"Y\": []\n}");
    assert_eq!(
        back.get(&"X".to_string()),
        Some(vec!["rock".to_string(), "pop".to_string()])
    );
    assert_eq!(back.get(&"Y".to_string()), Some(Vec::new()));
}

#[test]
fn duration_parse_overflow_fails() {
    assert!(parse_duration_doc("{\"k\":99999999999999999999999}").is_none());
}

#[test]
fn genre_cache_insert_and_get() {
    let mut c = GenreCache::new();
    assert!(c.get(&"X".to_string()).is_none());
    c.insert("X".to_string(), vec!["rock".to_string(), "pop".to_string()]);
    assert_eq!(c.get(&"X".to_string()), Some(vec!["rock".to_string(), "pop".to_string()]));
}

#[test]
fn genre_document_exact_text() {
    let mut c = GenreCache::new();
    c.insert("X".to_string(), vec!["rock".to_string(), "pop".to_string()]);
    c.insert("Y".to_string(), Vec::new());
    assert_eq!(c.to_text(), "{\"X\":[\"rock\",\"pop\"],\"Y\":[]}");
}

#[test]
fn genre_round_trip() {
    let mut c = GenreCache::new();
    c.insert("Band; Other".to_string(), vec!["synth \"wave\"".to_string()]);
    c.insert("Empty".to_string(), Vec::new());
    let text = c.to_text();
    let back = GenreCache::from_text(text.as_str());
    assert_eq!(
        back.get(&"Band; Other".to_string()),
        Some(vec!["synth \"wave\"".to_string()])
    );
    assert_eq!(back.get(&"Empty".to_string()), Some(Vec::new()));
}

#[test]
fn genre_malformed_loads_empty() {
    let c = GenreCache::from_text("{\"X\":[\"rock\"");
    assert!(c.get(&"X".to_string()).is_none());
    let c = GenreCache::from_text("[]");
    assert!(c.get(&"X".to_string()).is_none());
}

#[test]
fn genre_parse_plain_document() {
    let parsed = parse_genre_doc("{\"X\":[\"a\",\"b\"],\"Y\":[]}").unwrap();
    assert_eq!(parsed.len(), 2);
    assert_eq!(parsed[0].0, "X");
    assert_eq!(parsed[0].1, vec!["a".to_string(), "b".to_string()]);
    assert_eq!(parsed[1].0, "Y");
    assert!(parsed[1].1.is_empty());
}
