//! The page normalizer end to end: title cleanup, redirect and next-link
//! detection, content selection, image localization, and fragment
//! assembly.

use wildbow_scraper::dom::Dom;
use wildbow_scraper::errors::ScrapeError;
use wildbow_scraper::images::{clean_up_images, image_requests, ImageManager};
use wildbow_scraper::page::{
    chapter_xhtml, content_element_ids, extract_title, page_next_url, page_redirect, render_body,
};
use wildbow_scraper::serialize::inner_xml;
use wildbow_scraper::strutil::from_chars;

fn attrs(pairs: &[(&str, &str)]) -> Vec<(String, String)> {
    pairs.iter().map(|(k, v)| (k.to_string(), v.to_string())).collect()
}

fn page_skeleton(d: &mut Dom, title: &str) -> u64 {
    let head = d.append_element(0, "head", attrs(&[])).unwrap();
    let t = d.append_element(head, "title", attrs(&[])).unwrap();
    d.append_text(t, title.to_string());
    let body = d.append_element(0, "body", attrs(&[])).unwrap();
    d.append_element(body, "div", attrs(&[("class", "entry-content")])).unwrap()
}

#[test]
fn title_is_cleaned_and_remapped() {
    let mut d = Dom::new_fragment("html");
    page_skeleton(&mut d, "  Interlude 10 | Worm  ");
    assert_eq!(extract_title(&d).unwrap(), "Interlude 10");

    let mut d = Dom::new_fragment("html");
    page_skeleton(&mut d, "Insinuation 2.1 - Parahumans 2");
    assert_eq!(extract_title(&d).unwrap(), "Insinuation 2.1");

    let mut d = Dom::new_fragment("html");
    page_skeleton(&mut d, "1.01");
    assert_eq!(extract_title(&d).unwrap(), "Bonds 1.1");

    let mut d = Dom::new_fragment("html");
    d.append_element(0, "body", attrs(&[])).unwrap();
    assert!(matches!(extract_title(&d), Err(ScrapeError::Markup(_))));
}

#[test]
fn meta_refresh_redirect_is_followed() {
    let mut d = Dom::new_fragment("html");
    let head = d.append_element(0, "head", attrs(&[])).unwrap();
    d.append_element(
        head,
        "meta",
        attrs(&[("http-equiv", "refresh"), ("content", "0;url=/moved/here")]),
    )
    .unwrap();
    let r = page_redirect(&d, "https://host.example/old").unwrap();
    assert_eq!(r.unwrap(), "https://host.example/moved/here");

    let mut d = Dom::new_fragment("html");
    page_skeleton(&mut d, "t");
    assert!(page_redirect(&d, "https://host.example/old").unwrap().is_none());
}

#[test]
fn next_link_is_resolved() {
    let mut d = Dom::new_fragment("html");
    let div = page_skeleton(&mut d, "t");
    let a = d
        .append_element(div, "a", attrs(&[("rel", "next"), ("href", "/2011/06/19/1-2/")]))
        .unwrap();
    d.append_text(a, "Next Chapter".to_string());
    let r = page_next_url(&d, "https://host.example/2011/06/11/1-1/").unwrap();
    assert_eq!(r.unwrap(), "https://host.example/2011/06/19/1-2/");

    let mut d = Dom::new_fragment("html");
    page_skeleton(&mut d, "t");
    assert!(page_next_url(&d, "https://host.example/x").unwrap().is_none());

    let mut d = Dom::new_fragment("html");
    let div = page_skeleton(&mut d, "t");
    d.append_element(div, "a", attrs(&[("rel", "next")])).unwrap();
    assert!(matches!(
        page_next_url(&d, "https://host.example/x"),
        Err(ScrapeError::Markup(_))
    ));
}

#[test]
fn link_only_paragraphs_are_discarded() {
    let mut d = Dom::new_fragment("html");
    let div = page_skeleton(&mut d, "t");
    let p1 = d.append_element(div, "p", attrs(&[])).unwrap();
    d.append_text(p1, "Real prose.".to_string());
    let p2 = d.append_element(div, "p", attrs(&[])).unwrap();
    let a = d.append_element(p2, "a", attrs(&[("href", "x")])).unwrap();
    d.append_text(a, "Next Chapter".to_string());
    let h = d.append_element(div, "h1", attrs(&[])).unwrap();
    d.append_text(h, "Arc 1".to_string());
    let outside = d.append_element(0, "p", attrs(&[])).unwrap();
    d.append_text(outside, "nav junk".to_string());

    let ids = content_element_ids(&d);
    assert_eq!(ids, vec![p1, h]);
}

#[test]
fn single_image_paragraph_with_link_collapses_to_the_image() {
    let mut d = Dom::new_fragment("html");
    let div = page_skeleton(&mut d, "t");
    let p = d.append_element(div, "p", attrs(&[])).unwrap();
    let img = d
        .append_element(p, "img", attrs(&[("src", "/up/pic.png?w=30"), ("srcset", "a 1x, b 2x")]))
        .unwrap();
    let a = d.append_element(p, "a", attrs(&[("href", "/next")])).unwrap();
    d.append_text(a, "Next Chapter".to_string());

    let reqs = image_requests(&d, p, "https://host.example/ch1/").unwrap();
    assert_eq!(reqs.len(), 1);
    assert_eq!(reqs[0].0, img);
    let url = from_chars(&reqs[0].1);
    assert_eq!(url, "https://host.example/up/pic.png");

    let mut images = ImageManager::new();
    let fetched = vec![(img, reqs[0].1.clone(), vec![0x89u8, 0x50])];
    clean_up_images(&mut d, p, &mut images, &fetched).unwrap();
    assert_eq!(
        from_chars(&inner_xml(&d, p).unwrap()),
        "<img src=\"images/up/pic.png\"></img>"
    );
}

#[test]
fn image_sources_are_rewritten_in_place() {
    let mut d = Dom::new_fragment("html");
    let div = page_skeleton(&mut d, "t");
    let p = d.append_element(div, "p", attrs(&[])).unwrap();
    d.append_text(p, "Look: ".to_string());
    let img = d
        .append_element(
            p,
            "img",
            attrs(&[("src", "https://cdn.example/art.jpg"), ("loading", "lazy")]),
        )
        .unwrap();
    let reqs = image_requests(&d, p, "https://host.example/").unwrap();
    let mut images = ImageManager::new();
    let fetched = vec![(img, reqs[0].1.clone(), vec![1u8, 2, 3])];
    clean_up_images(&mut d, p, &mut images, &fetched).unwrap();
    assert_eq!(
        from_chars(&inner_xml(&d, p).unwrap()),
        "Look: <img src=\"images/art.jpg\"></img>"
    );
    // unsupported media type of NEW bytes aborts
    let img2 = d
        .append_element(p, "img", attrs(&[("src", "https://cdn.example/x.bmp")]))
        .unwrap();
    let fetched2 = vec![(img2, wildbow_scraper::strutil::to_chars("https://cdn.example/x.bmp"), vec![9u8])];
    assert!(matches!(
        clean_up_images(&mut d, p, &mut images, &fetched2),
        Err(ScrapeError::MediaType(_))
    ));
}

#[test]
fn body_and_envelope_are_assembled() {
    let mut d = Dom::new_fragment("html");
    let div = page_skeleton(&mut d, "t");
    let p = d
        .append_element(div, "p", attrs(&[("style", "text-align:center;")]))
        .unwrap();
    d.append_text(p, "\u{2617}".to_string());
    let body = render_body(&d, &vec![p]);
    assert_eq!(body, "<p class=\"center\">\u{2617}</p>\n");

    let doc = chapter_xhtml("A & B", &body);
    assert!(doc.starts_with(
        "<?xml version='1.0' encoding='utf-8' ?><html xmlns='http://www.w3.org/1999/xhtml'><head><title>A &amp; B</title>"
    ));
    assert!(doc.contains("<h1>A &amp; B</h1>\n<p class=\"center\">\u{2617}</p>\n</body></html>"));
}
