//! Media-type derivation and URL helpers.

use wildbow_scraper::errors::ScrapeError;
use wildbow_scraper::media::{url_path, MediaType};
use wildbow_scraper::strutil::{from_chars, to_chars};
use wildbow_scraper::urls::strip_query;

#[test]
fn media_type_from_url_extension() {
    let png = to_chars("https://i.example/img.png");
    assert!(matches!(MediaType::from_url(&png), Ok(MediaType::Png)));
    let svg = to_chars("https://i.example/a/b/pic.svg");
    assert!(matches!(MediaType::from_url(&svg), Ok(MediaType::Svg)));
    let jpg = to_chars("https://i.example/x.jpg");
    assert!(matches!(MediaType::from_url(&jpg), Ok(MediaType::Jpeg)));
    let jpeg = to_chars("https://i.example/x.jpeg");
    assert!(matches!(MediaType::from_url(&jpeg), Ok(MediaType::Jpeg)));
    let gif = to_chars("https://i.example/x.gif");
    assert!(matches!(MediaType::from_url(&gif), Err(ScrapeError::MediaType(_))));
    // the query string does not leak into the extension
    let q = to_chars("https://i.example/x.png?width=1410&format=png");
    assert!(matches!(MediaType::from_url(&q), Ok(MediaType::Png)));
}

#[test]
fn media_type_names() {
    assert_eq!(MediaType::Jpeg.content_type(), "image/jpeg");
    assert_eq!(MediaType::Png.content_type(), "image/png");
    assert_eq!(MediaType::Svg.content_type(), "image/svg+xml");
    assert_eq!(MediaType::Jpeg.extension(), "jpg");
    assert_eq!(MediaType::Png.extension(), "png");
    assert_eq!(MediaType::Svg.extension(), "svg");
}

#[test]
fn url_path_extraction() {
    let u = to_chars("https://host.example/a/b.png?w=1#frag");
    assert_eq!(from_chars(&url_path(&u)), "/a/b.png");
    let no_path = to_chars("https://host.example");
    assert_eq!(from_chars(&url_path(&no_path)), "/");
}

#[test]
fn query_stripping_keeps_the_fragment() {
    let u = to_chars("https://h/x.png?w=1&h=2");
    assert_eq!(from_chars(&strip_query(&u)), "https://h/x.png");
    let uf = to_chars("https://h/x.png?w=1#top");
    assert_eq!(from_chars(&strip_query(&uf)), "https://h/x.png#top");
    let plain = to_chars("https://h/x.png");
    assert_eq!(from_chars(&strip_query(&plain)), "https://h/x.png");
}

