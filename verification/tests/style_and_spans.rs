//! Style-to-class translation and useless-span removal.

use wildbow_scraper::dom::Dom;
use wildbow_scraper::page::remove_useless_spans;
use wildbow_scraper::serialize::inner_xml;
use wildbow_scraper::strutil::from_chars;
use wildbow_scraper::style::style_classes;

fn attrs(pairs: &[(&str, &str)]) -> Vec<(String, String)> {
    pairs.iter().map(|(k, v)| (k.to_string(), v.to_string())).collect()
}

#[test]
fn test_style_classes() {
    assert_eq!(
        style_classes(&attrs(&[("style", "text-align:center;")])),
        " class=\"center\""
    );
    assert_eq!(
        style_classes(&attrs(&[("style", "text-align:right;")])),
        " class=\"right\""
    );
    assert_eq!(style_classes(&attrs(&[("style", "text-align:left;")])), "");
    assert_eq!(
        style_classes(&attrs(&[("style", "text-align:left;"), ("align", "CENTER")])),
        ""
    );
    assert_eq!(
        style_classes(&attrs(&[("style", "padding-left:30px;"), ("align", "LEFT")])),
        " class=\"indent-one\""
    );
    assert_eq!(style_classes(&attrs(&[("align", "CENTER")])), " class=\"center\"");
}

#[test]
fn style_classes_indent_levels() {
    assert_eq!(
        style_classes(&attrs(&[("style", "padding-left:30px")])),
        " class=\"indent-one\""
    );
    assert_eq!(
        style_classes(&attrs(&[("style", "padding-left:40px")])),
        " class=\"indent-one\""
    );
    assert_eq!(
        style_classes(&attrs(&[("style", "padding-left:60px")])),
        " class=\"indent-two\""
    );
    assert_eq!(
        style_classes(&attrs(&[("style", "padding-left:80px")])),
        " class=\"indent-two\""
    );
    assert_eq!(style_classes(&attrs(&[("style", "padding-left:55px")])), "");
    assert_eq!(
        style_classes(&attrs(&[("style", "padding-left: 60px; text-align: center")])),
        " class=\"indent-two center\""
    );
}

#[test]
fn test_useless_span_removal() {
    let mut d = Dom::new_fragment("html");
    let p = d.append_element(0, "p", attrs(&[])).unwrap();
    d.append_text(p, "\u{201a}\u{c4}\u{fa}".to_string());
    let w1 = d
        .append_element(
            p,
            "span",
            attrs(&[("id", "result_box"), ("class", "short_text"), ("lang", "ga")]),
        )
        .unwrap();
    let h1 = d.append_element(w1, "span", attrs(&[("class", "hps")])).unwrap();
    d.append_text(h1, "Comhroinn".to_string());
    d.append_text(w1, " ".to_string());
    let w2 = d
        .append_element(
            p,
            "span",
            attrs(&[("id", "result_box"), ("class", "short_text"), ("lang", "ga")]),
        )
        .unwrap();
    let h2 = d.append_element(w2, "span", attrs(&[("class", "hps")])).unwrap();
    d.append_text(h2, "liom".to_string());
    let em = d.append_element(p, "em", attrs(&[])).unwrap();
    let w3 = em;
    let w3 = d
        .append_element(
            w3,
            "span",
            attrs(&[("id", "result_box"), ("class", "short_text"), ("lang", "ga")]),
        )
        .unwrap();
    d.append_text(w3, ",".to_string());
    d.append_text(p, "\u{201a}\u{c4}\u{f9} the woman rasped.".to_string());

    remove_useless_spans(&mut d);

    assert_eq!(
        from_chars(&inner_xml(&d, 0).unwrap()),
        "<p>\u{201a}\u{c4}\u{fa}Comhroinn liom<em>,</em>\u{201a}\u{c4}\u{f9} the woman rasped.</p>"
    );
}

#[test]
fn plain_span_dissolves_but_styled_span_stays() {
    let mut d = Dom::new_fragment("html");
    let p = d.append_element(0, "p", attrs(&[])).unwrap();
    let plain = d.append_element(p, "span", attrs(&[])).unwrap();
    d.append_text(plain, "a".to_string());
    let styled = d
        .append_element(p, "span", attrs(&[("style", "color:red")]))
        .unwrap();
    d.append_text(styled, "b".to_string());
    remove_useless_spans(&mut d);
    assert_eq!(
        from_chars(&inner_xml(&d, 0).unwrap()),
        "<p>a<span style=\"color:red\">b</span></p>"
    );
}
