//! The fetch cache round trip and image interning.

use wildbow_scraper::fetch::{cache_key, FetchCache, Resource};
use wildbow_scraper::images::ImageManager;
use wildbow_scraper::strutil::{from_chars, to_chars};

#[test]
fn cache_key_escapes_path_separators() {
    let url = to_chars("https://host/a/b?q=1");
    assert_eq!(from_chars(&cache_key(&url)), "https:%2F%2Fhost%2Fa%2Fb?q=1");
}

#[test]
fn fetch_round_trip_serves_cached_bytes_with_network_unreachable() {
    let mut cache = FetchCache::new(true);
    let url = to_chars("https://host/page");
    let first = cache
        .fetch_bytes(&url, false, Some(vec![1u8, 2, 3]))
        .expect("first fetch");
    assert!(!first.is_cached());
    assert_eq!(first.contents(), &vec![1u8, 2, 3]);
    // network made unreachable: the cache must serve the same bytes
    let second = cache.fetch_bytes(&url, false, None).expect("second fetch");
    assert!(second.is_cached());
    assert_eq!(second.contents(), &vec![1u8, 2, 3]);
}

#[test]
fn skip_cache_forces_a_live_fetch() {
    let mut cache = FetchCache::new(true);
    let url = to_chars("https://host/page");
    cache.fetch_bytes(&url, false, Some(vec![1u8])).unwrap();
    let r = cache.fetch_bytes(&url, true, Some(vec![2u8])).unwrap();
    assert!(!r.is_cached());
    assert_eq!(r.contents(), &vec![2u8]);
}

#[test]
fn forced_refresh_replaces_the_cached_bytes() {
    let mut cache = FetchCache::new(true);
    let url = to_chars("https://host/page");
    cache.fetch_bytes(&url, false, Some(vec![1u8])).unwrap();
    let refreshed = cache.fetch_bytes(&url, true, Some(vec![2u8])).unwrap();
    assert!(!refreshed.is_cached());
    // the refresh rewrote the entry: later fetches serve the new bytes
    let after = cache.fetch_bytes(&url, false, None).unwrap();
    assert!(after.is_cached());
    assert_eq!(after.contents(), &vec![2u8]);
}

#[test]
fn invalid_utf8_decodes_lossily_instead_of_failing() {
    let mut cache = FetchCache::new(false);
    let url = to_chars("https://host/bin");
    let r = cache
        .fetch_text(&url, false, Some(vec![0xffu8, b'a']))
        .unwrap();
    assert_eq!(r.contents(), "\u{fffd}a");
}

#[test]
fn disabled_cache_always_fetches_and_fails_without_network() {
    let mut cache = FetchCache::new(false);
    let url = to_chars("https://host/page");
    let r = cache.fetch_bytes(&url, false, Some(vec![9u8])).unwrap();
    assert!(!r.is_cached());
    assert!(cache.fetch_bytes(&url, false, None).is_err());
}

#[test]
fn fetch_text_decodes_utf8() {
    let mut cache = FetchCache::new(true);
    let url = to_chars("https://host/t");
    let r = cache
        .fetch_text(&url, false, Some("hé<b>".as_bytes().to_vec()))
        .unwrap();
    assert_eq!(r.contents(), "hé<b>");
    let again = cache.fetch_text(&url, false, None).unwrap();
    assert!(again.is_cached());
    assert_eq!(again.contents(), "hé<b>");
}

#[test]
fn resource_tags_and_contents() {
    let f: Resource<Vec<u8>> = Resource::Fetched(vec![1u8]);
    let c: Resource<Vec<u8>> = Resource::Cached(vec![2u8]);
    assert!(!f.is_cached());
    assert!(c.is_cached());
    assert_eq!(f.contents(), &vec![1u8]);
    assert_eq!(c.contents(), &vec![2u8]);
}

#[test]
fn interning_identical_bytes_is_idempotent() {
    let mut images = ImageManager::new();
    let first = images.intern(
        vec![7u8, 8, 9],
        to_chars("images/a.png"),
        to_chars("image/png"),
    );
    assert_eq!(from_chars(&first), "images/a.png");
    // identical bytes under a different candidate path resolve to the first path
    let second = images.intern(
        vec![7u8, 8, 9],
        to_chars("images/elsewhere.png"),
        to_chars("image/png"),
    );
    assert_eq!(from_chars(&second), "images/a.png");
    // distinct bytes get their own record
    let third = images.intern(
        vec![7u8, 8, 8],
        to_chars("images/b.png"),
        to_chars("image/png"),
    );
    assert_eq!(from_chars(&third), "images/b.png");
    let entries = images.into_entries();
    assert_eq!(entries.len(), 2);
}
