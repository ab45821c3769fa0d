//! The per-book configuration catalog.

use wildbow_scraper::books::get_info;

#[test]
fn known_keys_yield_their_records() {
    let worm = get_info("worm").unwrap();
    assert_eq!(worm.title, "Worm");
    assert_eq!(worm.start, "https://parahumans.wordpress.com/2011/06/11/1-1/");
    assert_eq!(worm.final_chapter_title, Some("Interlude: End"));
    assert!(worm.cover.is_some());

    let pale = get_info("pale").unwrap();
    assert_eq!(pale.title, "Pale");
    assert_eq!(pale.final_chapter_title, None);

    let glow = get_info("glow").unwrap();
    assert_eq!(glow.title, "Glow-worm");
    assert_eq!(glow.cover, None);
    assert_eq!(glow.final_chapter_title, Some("P.9"));

    for key in ["worm", "pact", "twig", "glow", "ward", "pale", "claw"] {
        assert!(get_info(key).is_some());
    }
}

#[test]
fn unknown_keys_yield_nothing() {
    assert!(get_info("unknown").is_none());
    assert!(get_info("").is_none());
    assert!(get_info("Worm").is_none());
}
