//! Filtered text collection and XHTML serialization.

use wildbow_scraper::dom::Dom;
use wildbow_scraper::query::{text_content, text_excluding};
use wildbow_scraper::serialize::{inner_xml, outer_xml};
use wildbow_scraper::strutil::{from_chars, to_chars};

fn attrs(pairs: &[(&str, &str)]) -> Vec<(String, String)> {
    pairs.iter().map(|(k, v)| (k.to_string(), v.to_string())).collect()
}

#[test]
fn test_filter_text_iterator() {
    let mut d = Dom::new_fragment("html");
    let p = d.append_element(0, "p", attrs(&[])).unwrap();
    d.append_text(p, "hullo ".to_string());
    let a1 = d.append_element(p, "a", attrs(&[("href", "prev")])).unwrap();
    d.append_text(a1, "Prev chap".to_string());
    d.append_text(p, " hey ".to_string());
    let a2 = d.append_element(p, "a", attrs(&[("href", "prev")])).unwrap();
    d.append_text(a2, "Next ".to_string());
    let s = d.append_element(a2, "strong", attrs(&[])).unwrap();
    d.append_text(s, "chap".to_string());
    let em = d.append_element(p, "em", attrs(&[])).unwrap();
    d.append_text(em, "foo".to_string());

    let excl = to_chars("a");
    assert_eq!(from_chars(&text_excluding(&d, p, &excl)), "hullo  hey foo");
    assert_eq!(
        from_chars(&text_content(&d, p)),
        "hullo Prev chap hey Next chapfoo"
    );
}

#[test]
fn serializer_escapes_text_and_attributes() {
    let mut d = Dom::new_fragment("html");
    let p = d
        .append_element(0, "p", attrs(&[("title", "a<b&\"c\"")]))
        .unwrap();
    d.append_text(p, "x < y & z > w".to_string());
    assert_eq!(
        from_chars(&outer_xml(&d, p).unwrap()),
        "<p title=\"a&lt;b&amp;&quot;c&quot;\">x &lt; y &amp; z &gt; w</p>"
    );
    assert_eq!(
        from_chars(&inner_xml(&d, p).unwrap()),
        "x &lt; y &amp; z &gt; w"
    );
}
