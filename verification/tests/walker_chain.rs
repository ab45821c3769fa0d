//! The chapter-chain traversal state machine.

use wildbow_scraper::walker::{WalkCommand, Walker};

#[test]
fn two_page_chain_yields_two_chapters_without_a_retry() {
    let mut w = Walker::new(false, None, "https://host/page1");
    let cmd = w.on_page(
        "One".to_string(),
        "<p>first</p>\n".to_string(),
        Some("https://host/page2".to_string()),
        false,
    );
    match cmd {
        WalkCommand::FetchPage { url, skip_cache } => {
            assert_eq!(url, "https://host/page2");
            assert!(!skip_cache);
        },
        WalkCommand::Done => panic!("chain should continue to page 2"),
    }
    // page 2 is freshly fetched and has no next link: no cache-bypass retry
    let cmd = w.on_page(
        "Two".to_string(),
        "<p>second</p>\n".to_string(),
        None,
        false,
    );
    assert!(matches!(cmd, WalkCommand::Done));
    let chapters = w.into_chapters();
    assert_eq!(chapters.len(), 2);
    assert_eq!(chapters[0].index, 1);
    assert_eq!(chapters[0].title, "One");
    assert_eq!(chapters[1].index, 2);
    assert_eq!(chapters[1].title, "Two");
}

#[test]
fn cached_terminus_is_retried_once_with_cache_bypassed() {
    let mut w = Walker::new(false, None, "https://host/last");
    let cmd = w.on_page("End".to_string(), "<p>x</p>".to_string(), None, true);
    match cmd {
        WalkCommand::FetchPage { url, skip_cache } => {
            assert_eq!(url, "https://host/last");
            assert!(skip_cache);
        },
        WalkCommand::Done => panic!("a cached terminus must be retried"),
    }
    // the re-fetch still finds no next link: now the chain ends
    let cmd = w.on_page("End".to_string(), "<p>x</p>".to_string(), None, false);
    assert!(matches!(cmd, WalkCommand::Done));
    assert_eq!(w.into_chapters().len(), 1);
}

#[test]
fn final_chapter_title_halts_the_traversal() {
    let mut w = Walker::new(false, Some("Epilogue"), "https://host/1");
    let cmd = w.on_page(
        "Epilogue".to_string(),
        "<p>end</p>".to_string(),
        Some("https://host/retrospective".to_string()),
        false,
    );
    assert!(matches!(cmd, WalkCommand::Done));
    assert_eq!(w.into_chapters().len(), 1);
}

#[test]
fn bridge_chapters_are_skipped_where_configured() {
    let mut w = Walker::new(true, None, "https://host/1");
    let cmd = w.on_page(
        "Glow-worm P.1".to_string(),
        "<p>bridge</p>".to_string(),
        Some("https://host/2".to_string()),
        false,
    );
    assert!(matches!(cmd, WalkCommand::FetchPage { .. }));
    let cmd = w.on_page(
        "Daybreak 1.1".to_string(),
        "<p>story</p>".to_string(),
        None,
        false,
    );
    assert!(matches!(cmd, WalkCommand::Done));
    let chapters = w.into_chapters();
    assert_eq!(chapters.len(), 1);
    assert_eq!(chapters[0].title, "Daybreak 1.1");
    assert_eq!(chapters[0].index, 1);
}

#[test]
fn broken_next_link_is_patched_at_the_known_title() {
    let mut w = Walker::new(false, None, "https://host/1");
    let cmd = w.on_page(
        "Last \u{201a}\u{c4}\u{ec} 20.e6".to_string(),
        "<p>x</p>".to_string(),
        Some("https://host/wrong".to_string()),
        false,
    );
    match cmd {
        WalkCommand::FetchPage { url, .. } => {
            assert_eq!(url, "https://www.parahumans.net/2020/05/02/last-20-end/");
        },
        WalkCommand::Done => panic!("the override must keep the chain going"),
    }
}
