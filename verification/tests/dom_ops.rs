//! The atomic tree edits, exercised on small hand-built documents.

use wildbow_scraper::dom::{Dom, DomOperation};
use wildbow_scraper::serialize::inner_xml;
use wildbow_scraper::strutil::from_chars;

fn attrs(pairs: &[(&str, &str)]) -> Vec<(String, String)> {
    pairs.iter().map(|(k, v)| (k.to_string(), v.to_string())).collect()
}

fn inner(d: &Dom, id: u64) -> String {
    from_chars(&inner_xml(d, id).expect("element not found"))
}

/// Builds `<em title='foo'>Emphasis</em> <strong ...>Bold</strong> <del title='bar'>Wrong</del>`.
fn sample_inline(d: &mut Dom, strong_attrs: &[(&str, &str)]) -> u64 {
    let em = d.append_element(0, "em", attrs(&[("title", "foo")])).unwrap();
    d.append_text(em, "Emphasis".to_string());
    d.append_text(0, " ".to_string());
    let strong = d.append_element(0, "strong", attrs(strong_attrs)).unwrap();
    d.append_text(strong, "Bold".to_string());
    d.append_text(0, " ".to_string());
    let del = d.append_element(0, "del", attrs(&[("title", "bar")])).unwrap();
    d.append_text(del, "Wrong".to_string());
    strong
}

#[test]
fn test_remove_attribute() {
    let mut d = Dom::new_fragment("html");
    let strong = sample_inline(
        &mut d,
        &[("id", "important"), ("title", "bar"), ("data-test", "other")],
    );
    d.perform_operation(DomOperation::RemoveAttribute {
        node_id: strong,
        attr_name: "title".to_string(),
    });
    assert_eq!(
        inner(&d, 0),
        "<em title=\"foo\">Emphasis</em> <strong id=\"important\" data-test=\"other\">Bold</strong> <del title=\"bar\">Wrong</del>"
    );
}

#[test]
fn test_set_attribute() {
    let mut d = Dom::new_fragment("html");
    let strong = sample_inline(&mut d, &[("data-test", "other")]);
    d.perform_operation(DomOperation::SetAttribute {
        node_id: strong,
        attr_name: "id".to_string(),
        value: "Bar".to_string(),
    });
    assert_eq!(
        inner(&d, 0),
        "<em title=\"foo\">Emphasis</em> <strong data-test=\"other\" id=\"Bar\">Bold</strong> <del title=\"bar\">Wrong</del>"
    );
}

#[test]
fn test_set_attribute_existing() {
    let mut d = Dom::new_fragment("html");
    let strong = sample_inline(&mut d, &[("id", "Foo"), ("data-test", "other")]);
    d.perform_operation(DomOperation::SetAttribute {
        node_id: strong,
        attr_name: "id".to_string(),
        value: "Bar".to_string(),
    });
    assert_eq!(
        inner(&d, 0),
        "<em title=\"foo\">Emphasis</em> <strong id=\"Bar\" data-test=\"other\">Bold</strong> <del title=\"bar\">Wrong</del>"
    );
}

/// Builds the two-paragraph figure sample used by the child-level edits.
fn sample_figure(d: &mut Dom) -> u64 {
    let div = d.append_element(0, "div", attrs(&[])).unwrap();
    let p1 = d.append_element(div, "p", attrs(&[("class", "nop")])).unwrap();
    let em1 = d.append_element(p1, "em", attrs(&[])).unwrap();
    d.append_text(em1, "Foo".to_string());
    let fig = d.append_element(div, "p", attrs(&[("class", "figure")])).unwrap();
    let em2 = d.append_element(fig, "em", attrs(&[])).unwrap();
    d.append_text(em2, "Empha".to_string());
    let s1 = d.append_element(em2, "strong", attrs(&[("title", "secret")])).unwrap();
    d.append_text(s1, "sis".to_string());
    d.append_text(fig, " ".to_string());
    let s2 = d.append_element(fig, "strong", attrs(&[])).unwrap();
    d.append_text(s2, "Bold".to_string());
    d.append_text(div, " ".to_string());
    let a = d.append_element(div, "a", attrs(&[("href", "#")])).unwrap();
    d.append_text(a, "After".to_string());
    fig
}

#[test]
fn test_remove_children() {
    let mut d = Dom::new_fragment("html");
    let fig = sample_figure(&mut d);
    d.perform_operation(DomOperation::RemoveChildren { node_id: fig });
    assert_eq!(
        inner(&d, 0),
        "<div><p class=\"nop\"><em>Foo</em></p><p class=\"figure\"></p> <a href=\"#\">After</a></div>"
    );
}

#[test]
fn test_append_child() {
    let mut d = Dom::new_fragment("html");
    let strong = sample_inline(&mut d, &[]);
    d.perform_operation(DomOperation::AppendChild { parent_id: 0, child_id: strong });
    assert_eq!(
        inner(&d, 0),
        "<em title=\"foo\">Emphasis</em>  <del title=\"bar\">Wrong</del><strong>Bold</strong>"
    );
}

#[test]
fn test_replace_element() {
    let mut d = Dom::new_fragment("html");
    let strong = sample_inline(&mut d, &[]);
    d.perform_operation(DomOperation::ReplaceElement {
        node_id: strong,
        replacement: "Foo".to_string(),
    });
    assert_eq!(
        inner(&d, 0),
        "<em title=\"foo\">Emphasis</em> Foo <del title=\"bar\">Wrong</del>"
    );
}

#[test]
fn test_dissolve_element() {
    let mut d = Dom::new_fragment("html");
    let fig = sample_figure(&mut d);
    d.perform_operation(DomOperation::DissolveElement { node_id: fig });
    assert_eq!(
        inner(&d, 0),
        "<div><p class=\"nop\"><em>Foo</em></p><em>Empha<strong title=\"secret\">sis</strong></em> <strong>Bold</strong> <a href=\"#\">After</a></div>"
    );
}

#[test]
fn dissolve_keeps_children_and_drops_wrapper() {
    let mut d = Dom::new_fragment("html");
    let wrap = d.append_element(0, "span", attrs(&[])).unwrap();
    d.append_text(wrap, "a".to_string());
    let inner_el = d.append_element(wrap, "em", attrs(&[])).unwrap();
    d.append_text(inner_el, "b".to_string());
    d.append_text(wrap, "c".to_string());
    d.perform_operation(DomOperation::DissolveElement { node_id: wrap });
    assert_eq!(inner(&d, 0), "a<em>b</em>c");
    // the wrapper is gone: editing it changes nothing
    let before = inner(&d, 0);
    d.perform_operation(DomOperation::RemoveChildren { node_id: wrap });
    assert_eq!(inner(&d, 0), before);
}

#[test]
fn missing_handle_is_a_silent_no_op() {
    let mut d = Dom::new_fragment("html");
    let em = d.append_element(0, "em", attrs(&[])).unwrap();
    d.append_text(em, "x".to_string());
    let before = inner(&d, 0);
    d.perform_operation(DomOperation::DissolveElement { node_id: 999 });
    d.perform_operation(DomOperation::RemoveAttribute {
        node_id: 999,
        attr_name: "title".to_string(),
    });
    assert_eq!(inner(&d, 0), before);
}

#[test]
fn later_op_may_reattach_a_detached_node() {
    let mut d = Dom::new_fragment("html");
    let p = d.append_element(0, "p", attrs(&[])).unwrap();
    let img = d.append_element(p, "img", attrs(&[("src", "x")])).unwrap();
    d.append_text(p, "junk".to_string());
    d.perform_operations(vec![
        DomOperation::RemoveChildren { node_id: p },
        DomOperation::AppendChild { parent_id: p, child_id: img },
    ]);
    assert_eq!(inner(&d, 0), "<p><img src=\"x\"></img></p>");
}
