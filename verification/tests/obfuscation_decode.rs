//! Decoding of the obfuscated-mailto anchors.

use wildbow_scraper::dom::Dom;
use wildbow_scraper::obfuscation::fix_obfuscated_links;
use wildbow_scraper::serialize::inner_xml;
use wildbow_scraper::strutil::from_chars;

fn attrs(pairs: &[(&str, &str)]) -> Vec<(String, String)> {
    pairs.iter().map(|(k, v)| (k.to_string(), v.to_string())).collect()
}

fn encode_payload(key: u8, text: &str) -> String {
    let mut bytes = vec![key];
    bytes.extend(text.as_bytes().iter().map(|b| b ^ key));
    bytes.iter().map(|b| format!("{:02x}", b)).collect()
}

#[test]
fn known_payload_decodes_to_the_exact_text() {
    // 'Point_Me_@_The_Sky' style mangling: the encoded address restores exactly
    let payload = encode_payload(0x42, "Point_Me_@_The_Sky");
    let mut d = Dom::new_fragment("html");
    let p = d.append_element(0, "p", attrs(&[])).unwrap();
    let a = d
        .append_element(
            p,
            "a",
            attrs(&[
                ("href", "/cdn-cgi/l/email-protection"),
                ("class", "__cf_email__"),
                ("data-cfemail", payload.as_str()),
            ]),
        )
        .unwrap();
    d.append_text(a, "[email protected]".to_string());
    d.append_text(p, "_The_Sky".to_string());

    fix_obfuscated_links(&mut d);

    assert_eq!(
        from_chars(&inner_xml(&d, 0).unwrap()),
        "<p>Point_Me_@_The_Sky_The_Sky</p>"
    );
}

#[test]
fn anchor_without_the_marker_class_is_left_alone() {
    let payload = encode_payload(7, "x@y.z");
    let mut d = Dom::new_fragment("html");
    let p = d.append_element(0, "p", attrs(&[])).unwrap();
    let a = d
        .append_element(p, "a", attrs(&[("data-cfemail", payload.as_str())]))
        .unwrap();
    d.append_text(a, "keep".to_string());
    fix_obfuscated_links(&mut d);
    assert_eq!(
        from_chars(&inner_xml(&d, 0).unwrap()),
        format!("<p><a data-cfemail=\"{}\">keep</a></p>", payload)
    );
}

#[test]
fn undecodable_payload_is_left_alone() {
    let mut d = Dom::new_fragment("html");
    let p = d.append_element(0, "p", attrs(&[])).unwrap();
    let a = d
        .append_element(
            p,
            "a",
            attrs(&[("class", "__cf_email__"), ("data-cfemail", "zz")]),
        )
        .unwrap();
    d.append_text(a, "keep".to_string());
    fix_obfuscated_links(&mut d);
    assert_eq!(
        from_chars(&inner_xml(&d, 0).unwrap()),
        "<p><a class=\"__cf_email__\" data-cfemail=\"zz\">keep</a></p>"
    );
}
