//! The page normalizer: meta-refresh redirect detection, title
//! extraction and cleanup, content-region selection, the "next chapter"
//! link, removal of structurally meaningless spans, and assembly of the
//! clean XHTML fragment.

use crate::dom::{
    attr_lookup, has_open, is_match, match_index, open_index, ops_applied, Dom, DomOperation,
    Token,
};
use crate::errors::ScrapeError;
use crate::query::{
    filtered_text_range, ids_named2_range, ids_named_range,
};
use crate::serialize::{esc_text, ser_range};
use crate::strutil::{find_ch, lower_spec, remove_all_spec, split_spec, trim_spec};
use crate::style::style_class_string;
use crate::urls::resolve_of;
use vstd::prelude::*;

verus! {

/// The display title a raw `<title>` text yields: the part before the
/// first `|`, trimmed, with known site banners removed, and one known
/// inconsistent source title remapped.
pub open spec fn title_cleanup(raw: Seq<char>) -> Seq<char> {
    let first = match find_ch(raw, '|') {
        Some(i) => raw.take(i),
        None => raw,
    };
    let t = trim_spec(first);
    let t1 = remove_all_spec(t, " - Parahumans 2"@);
    let t2 = remove_all_spec(t1, " \u{201a}\u{c4}\u{ec} Twig"@);
    let t3 = remove_all_spec(t2, "Glow-worm \u{201a}\u{c4}\u{ec} "@);
    let t4 = remove_all_spec(t3, "(Sequel is live!)"@);
    if t4 == "1.01"@ {
        "Bonds 1.1"@
    } else {
        t4
    }
}

/// The raw text of the page's first `<title>` element.
pub open spec fn raw_title(s: Seq<Token>) -> Seq<char> {
    let tid = ids_named_range(s, 0, s.len() as int, "title"@)[0];
    filtered_text_range(
        s,
        open_index(s, tid) + 1,
        match_index(s, open_index(s, tid)),
        Seq::empty(),
        0,
    )
}

/// The chapter's display title; a page without a `<title>` element is a
/// markup error.
pub fn extract_title(dom: &Dom) -> (r: Result<String, ScrapeError>)
    requires
        dom.wf(),
    ensures
        ({
            let s = dom.doc();
            let tids = ids_named_range(s, 0, s.len() as int, "title"@);
            match r {
                Ok(t) => tids.len() > 0 && t@ == title_cleanup(raw_title(s)),
                Err(e) => tids.len() == 0 && e is Markup,
            }
        }),
{
    let title_name = crate::strutil::to_chars("title");
    let tids = crate::query::elements_named(dom, &title_name);
    if tids.len() == 0 {
        return Err(ScrapeError::Markup("no element named 'title' on page".to_owned()));
    }
    proof {
        crate::query::lemma_named_id_props(&*dom, 0, dom.doc().len() as int, "title"@, 0);
    }
    let none: Vec<char> = Vec::new();
    let raw = crate::query::text_excluding(dom, tids[0], &none);
    let first = match crate::strutil::find_ch_at(&raw, '|') {
        Some(i) => {
            proof {
                assert(raw@.subrange(0, i as int) =~= raw@.take(i as int));
            }
            crate::strutil::copy_range(&raw, 0, i)
        },
        None => {
            proof {
                assert(raw@.subrange(0, raw@.len() as int) =~= raw@);
            }
            crate::strutil::copy_range(&raw, 0, raw.len())
        },
    };
    let t = crate::strutil::trim(&first);
    let p1 = crate::strutil::to_chars(" - Parahumans 2");
    let t1 = crate::strutil::remove_all(&t, &p1);
    let p2 = crate::strutil::to_chars(" \u{201a}\u{c4}\u{ec} Twig");
    let t2 = crate::strutil::remove_all(&t1, &p2);
    let p3 = crate::strutil::to_chars("Glow-worm \u{201a}\u{c4}\u{ec} ");
    let t3 = crate::strutil::remove_all(&t2, &p3);
    let p4 = crate::strutil::to_chars("(Sequel is live!)");
    let t4 = crate::strutil::remove_all(&t3, &p4);
    if crate::strutil::chars_eq_str(&t4, "1.01") {
        Ok("Bonds 1.1".to_owned())
    } else {
        Ok(crate::strutil::from_chars(&t4))
    }
}

/// Whether one `;`-separated segment of a refresh declaration names a
/// target: its trimmed, lower-cased form starts with `url=`.
pub open spec fn seg_is_url(g: Seq<char>) -> bool {
    let t = lower_spec(trim_spec(g));
    "url="@.len() <= t.len() && t.subrange(0, "url="@.len() as int) == "url="@
}

/// The first target-naming segment among `segs`.
pub open spec fn first_url_seg(segs: Seq<Seq<char>>) -> Option<Seq<char>>
    decreases segs.len(),
{
    if segs.len() == 0 {
        None
    } else if seg_is_url(segs[0]) {
        Some(segs[0])
    } else {
        first_url_seg(segs.drop_first())
    }
}

/// The redirect target the meta elements declare, if any: the first
/// `refresh` meta whose content holds a `url=` segment; the four
/// characters before the target stay untrimmed, as the site emits them.
pub open spec fn redirect_among(s: Seq<Token>, ids: Seq<u64>) -> Option<Seq<char>>
    decreases ids.len(),
{
    if ids.len() == 0 {
        None
    } else {
        let t = s[open_index(s, ids[0])];
        let found = if attr_lookup(t->Open_attrs@, "http-equiv"@) == Some("refresh"@) {
            match attr_lookup(t->Open_attrs@, "content"@) {
                Some(content) => first_url_seg(split_spec(content, ';')),
                None => None,
            }
        } else {
            None
        };
        match found {
            Some(g) => Some(g.skip(4)),
            None => redirect_among(s, ids.drop_first()),
        }
    }
}

fn first_url_seg_exec(segs: &Vec<Vec<char>>) -> (r: Option<usize>)
    ensures
        ({
            let sv = segs@.map_values(|x: Vec<char>| x@);
            match r {
                Some(i) => i < segs.len() && first_url_seg(sv) == Some(sv[i as int]) && seg_is_url(
                    sv[i as int],
                ),
                None => first_url_seg(sv) is None,
            }
        }),
{
    let ghost sv = segs@.map_values(|x: Vec<char>| x@);
    proof {
        assert(sv.skip(0) =~= sv);
    }
    let prefix = crate::strutil::to_chars("url=");
    let mut k: usize = 0;
    while k < segs.len()
        invariant
            0 <= k <= segs.len(),
            sv == segs@.map_values(|x: Vec<char>| x@),
            prefix@ == "url="@,
            first_url_seg(sv) == first_url_seg(sv.skip(k as int)),
        decreases segs.len() - k,
    {
        proof {
            assert(sv.skip(k as int)[0] == sv[k as int]);
            assert(sv.skip(k as int).drop_first() =~= sv.skip(k + 1));
        }
        let t = crate::strutil::trim(&segs[k]);
        let lt = crate::strutil::to_lower(&t);
        if crate::strutil::starts_with(&lt, &prefix) {
            return Some(k);
        }
        k += 1;
    }
    proof {
        assert(sv.skip(segs@.len() as int) =~= Seq::<Seq<char>>::empty());
    }
    None
}

/// The resolved redirect target of the page, if a meta refresh is
/// present; a target that does not resolve against the page URL is a
/// resolution error.
pub fn page_redirect(dom: &Dom, page_url: &str) -> (r: Result<Option<String>, ScrapeError>)
    requires
        dom.wf(),
    ensures
        ({
            let s = dom.doc();
            let metas = ids_named_range(s, 0, s.len() as int, "meta"@);
            match redirect_among(s, metas) {
                Some(target) => match resolve_of(page_url@, target) {
                    Some(u) => r matches Ok(o) && o matches Some(ru) && ru@ == u,
                    None => r matches Err(e) && e is Resolution,
                },
                None => r matches Ok(o) && o is None,
            }
        }),
{
    let ghost s = dom.doc();
    let meta_name = crate::strutil::to_chars("meta");
    let metas = crate::query::elements_named(dom, &meta_name);
    let ghost mids = metas@;
    let he_name = crate::strutil::to_chars("http-equiv");
    let content_name = crate::strutil::to_chars("content");
    let mut k: usize = 0;
    proof {
        assert(mids.skip(0) =~= mids);
    }
    while k < metas.len()
        invariant
            0 <= k <= metas.len(),
            dom.wf(),
            s == dom.doc(),
            mids == metas@,
            mids == ids_named_range(s, 0, s.len() as int, "meta"@),
            he_name@ == "http-equiv"@,
            content_name@ == "content"@,
            redirect_among(s, mids) == redirect_among(s, mids.skip(k as int)),
        decreases metas.len() - k,
    {
        proof {
            assert(mids.skip(k as int)[0] == mids[k as int]);
            assert(mids.skip(k as int).drop_first() =~= mids.skip(k + 1));
            crate::query::lemma_named_id_props(&*dom, 0, s.len() as int, "meta"@, k as int);
        }
        let id = metas[k];
        let is_refresh = match dom.attribute_of(id, &he_name) {
            Some(v) => crate::strutil::chars_eq_str(&v, "refresh"),
            None => false,
        };
        if is_refresh {
            match dom.attribute_of(id, &content_name) {
                Some(content) => {
                    let segs = crate::strutil::split_ch(&content, ';');
                    match first_url_seg_exec(&segs) {
                        Some(i) => {
                            let seg = &segs[i];
                            proof {
                                reveal_strlit("url=");
                                assert("url="@.len() == 4);
                                assert(seg_is_url(seg@));
                                assert(lower_spec(trim_spec(seg@)).len() >= 4);
                                assert(seg@.len() >= trim_spec(seg@).len()) by {
                                    lemma_trim_len(seg@);
                                }
                                assert(seg@.subrange(4, seg@.len() as int) =~= seg@.skip(4));
                            }
                            let target = crate::strutil::copy_range(seg, 4, seg.len());
                            let target_str = crate::strutil::from_chars(&target);
                            match crate::urls::resolve_url(page_url, target_str.as_str()) {
                                Some(u) => {
                                    return Ok(Some(u));
                                },
                                None => {
                                    let mut msg = crate::strutil::to_chars(
                                        "Could not resolve url '",
                                    );
                                    let mut tc = crate::strutil::to_chars(target_str.as_str());
                                    msg.append(&mut tc);
                                    msg.push('\'');
                                    return Err(
                                        ScrapeError::Resolution(crate::strutil::from_chars(&msg)),
                                    );
                                },
                            }
                        },
                        None => {},
                    }
                },
                None => {},
            }
        }
        k += 1;
    }
    proof {
        assert(redirect_among(s, mids.skip(metas@.len() as int)) is None);
    }
    Ok(None)
}

proof fn lemma_trim_len(s: Seq<char>)
    ensures
        trim_spec(s).len() <= s.len(),
{
    lemma_trim_left_len(s);
    lemma_trim_right_len(crate::strutil::trim_left_spec(s));
}

proof fn lemma_trim_left_len(s: Seq<char>)
    ensures
        crate::strutil::trim_left_spec(s).len() <= s.len(),
    decreases s.len(),
{
    if s.len() > 0 && crate::strutil::is_space(s[0]) {
        lemma_trim_left_len(s.drop_first());
    }
}

proof fn lemma_trim_right_len(s: Seq<char>)
    ensures
        crate::strutil::trim_right_spec(s).len() <= s.len(),
    decreases s.len(),
{
    if s.len() > 0 && crate::strutil::is_space(s[s.len() - 1]) {
        lemma_trim_right_len(s.drop_last());
    }
}

/// The first anchor among `ids` carrying `rel="next"`.
pub open spec fn first_next_link(s: Seq<Token>, ids: Seq<u64>) -> Option<u64>
    decreases ids.len(),
{
    if ids.len() == 0 {
        None
    } else if attr_lookup(s[open_index(s, ids[0])]->Open_attrs@, "rel"@) == Some("next"@) {
        Some(ids[0])
    } else {
        first_next_link(s, ids.drop_first())
    }
}

/// The resolved URL of the page's "next chapter" link, if one is
/// declared: the first `rel="next"` anchor's `href`, resolved against
/// the page URL.  A next link without `href` is a markup error; one that
/// does not resolve is a resolution error.
pub fn page_next_url(dom: &Dom, page_url: &str) -> (r: Result<Option<String>, ScrapeError>)
    requires
        dom.wf(),
    ensures
        ({
            let s = dom.doc();
            let anchors = ids_named_range(s, 0, s.len() as int, "a"@);
            match first_next_link(s, anchors) {
                Some(id) => {
                    match attr_lookup(s[open_index(s, id)]->Open_attrs@, "href"@) {
                        Some(href) => match resolve_of(page_url@, href) {
                            Some(u) => r matches Ok(o) && o matches Some(ru) && ru@ == u,
                            None => r matches Err(e) && e is Resolution,
                        },
                        None => r matches Err(e) && e is Markup,
                    }
                },
                None => r matches Ok(o) && o is None,
            }
        }),
{
    let ghost s = dom.doc();
    let a_name = crate::strutil::to_chars("a");
    let anchors = crate::query::elements_named(dom, &a_name);
    let ghost aids = anchors@;
    let rel_name = crate::strutil::to_chars("rel");
    let href_name = crate::strutil::to_chars("href");
    let mut k: usize = 0;
    proof {
        assert(aids.skip(0) =~= aids);
    }
    while k < anchors.len()
        invariant
            0 <= k <= anchors.len(),
            dom.wf(),
            s == dom.doc(),
            aids == anchors@,
            aids == ids_named_range(s, 0, s.len() as int, "a"@),
            rel_name@ == "rel"@,
            href_name@ == "href"@,
            first_next_link(s, aids) == first_next_link(s, aids.skip(k as int)),
        decreases anchors.len() - k,
    {
        proof {
            assert(aids.skip(k as int)[0] == aids[k as int]);
            assert(aids.skip(k as int).drop_first() =~= aids.skip(k + 1));
            crate::query::lemma_named_id_props(&*dom, 0, s.len() as int, "a"@, k as int);
        }
        let id = anchors[k];
        let is_next = match dom.attribute_of(id, &rel_name) {
            Some(v) => crate::strutil::chars_eq_str(&v, "next"),
            None => false,
        };
        if is_next {
            match dom.attribute_of(id, &href_name) {
                Some(href) => {
                    let href_str = crate::strutil::from_chars(&href);
                    match crate::urls::resolve_url(page_url, href_str.as_str()) {
                        Some(u) => {
                            return Ok(Some(u));
                        },
                        None => {
                            return Err(ScrapeError::Resolution("Could not resolve url".to_owned()));
                        },
                    }
                },
                None => {
                    return Err(
                        ScrapeError::Markup(
                            "<a> link with name 'next' does not have href attribute".to_owned(),
                        ),
                    );
                },
            }
        }
        k += 1;
    }
    proof {
        assert(first_next_link(s, aids.skip(anchors@.len() as int)) is None);
    }
    Ok(None)
}

/// Whether this token opens a content container: a `div` whose class
/// list holds `entry-content`.
pub open spec fn div_qualifies(t: Token) -> bool {
    &&& t is Open
    &&& t->Open_name@ == "div"@
    &&& match attr_lookup(t->Open_attrs@, "class"@) {
        Some(c) => split_spec(c, ' ').contains("entry-content"@),
        None => false,
    }
}

/// The paragraph- and heading-level elements inside the qualifying
/// containers among `div_ids`, in document order.
pub open spec fn content_among(s: Seq<Token>, div_ids: Seq<u64>) -> Seq<u64>
    decreases div_ids.len(),
{
    if div_ids.len() == 0 {
        Seq::empty()
    } else {
        let rest = content_among(s, div_ids.drop_first());
        let oi = open_index(s, div_ids[0]);
        if div_qualifies(s[oi]) {
            ids_named2_range(s, oi + 1, match_index(s, oi), "p"@, "h1"@) + rest
        } else {
            rest
        }
    }
}

/// Whether a selected element stays: it holds an image, or text outside
/// hyperlinks; elements whose only text sits in links are paginator
/// leftovers and go.
pub open spec fn keep_elem(s: Seq<Token>, id: u64) -> bool {
    let oi = open_index(s, id);
    let mi = match_index(s, oi);
    ids_named_range(s, oi + 1, mi, "img"@).len() > 0 || trim_spec(
        filtered_text_range(s, oi + 1, mi, "a"@, 0),
    ).len() > 0
}

/// The elements among `ids` that stay.
pub open spec fn kept_among(s: Seq<Token>, ids: Seq<u64>) -> Seq<u64>
    decreases ids.len(),
{
    if ids.len() == 0 {
        Seq::empty()
    } else {
        let rest = kept_among(s, ids.drop_first());
        if keep_elem(s, ids[0]) {
            seq![ids[0]] + rest
        } else {
            rest
        }
    }
}

/// The content elements of the page: paragraphs and headings inside the
/// content containers, with link-only paginator paragraphs discarded.
pub fn content_element_ids(dom: &Dom) -> (r: Vec<u64>)
    requires
        dom.wf(),
    ensures
        ({
            let s = dom.doc();
            r@ == kept_among(
                s,
                content_among(s, ids_named_range(s, 0, s.len() as int, "div"@)),
            )
        }),
        forall|m: int|
            0 <= m < r@.len() ==> has_open(dom.doc(), #[trigger] r@[m]) && dom.doc()[open_index(
                dom.doc(),
                r@[m],
            )] is Open,
{
    let ghost s = dom.doc();
    let div_name = crate::strutil::to_chars("div");
    let divs = crate::query::elements_named(dom, &div_name);
    let ghost dids = divs@;
    let class_name = crate::strutil::to_chars("class");
    let marker = crate::strutil::to_chars("entry-content");
    let p_name = crate::strutil::to_chars("p");
    let h1_name = crate::strutil::to_chars("h1");
    let mut collected: Vec<u64> = Vec::new();
    let mut k: usize = 0;
    proof {
        assert(dids.skip(0) =~= dids);
    }
    while k < divs.len()
        invariant
            0 <= k <= divs.len(),
            dom.wf(),
            s == dom.doc(),
            dids == divs@,
            dids == ids_named_range(s, 0, s.len() as int, "div"@),
            class_name@ == "class"@,
            marker@ == "entry-content"@,
            p_name@ == "p"@,
            h1_name@ == "h1"@,
            content_among(s, dids) == collected@ + content_among(s, dids.skip(k as int)),
            forall|m: int|
                0 <= m < collected@.len() ==> has_open(s, #[trigger] collected@[m]) && s[open_index(
                    s,
                    collected@[m],
                )] is Open,
        decreases divs.len() - k,
    {
        proof {
            assert(dids.skip(k as int)[0] == dids[k as int]);
            assert(dids.skip(k as int).drop_first() =~= dids.skip(k + 1));
            crate::query::lemma_named_id_props(&*dom, 0, s.len() as int, "div"@, k as int);
        }
        let id = divs[k];
        let qualifies = match dom.attribute_of(id, &class_name) {
            Some(c) => crate::strutil::split_contains(&c, ' ', &marker),
            None => false,
        };
        if qualifies {
            let ipos = match dom.position_of(id) {
                Some(i) => i,
                None => unreached(),
            };
            proof {
                assert(crate::dom::is_open_id(s[ipos as int], id));
            }
            let j = dom.close_of(ipos);
            let els = crate::query::elements_named2_range(dom, ipos + 1, j, &p_name, &h1_name);
            let ghost before = collected@;
            let ghost elsv = els@;
            let mut els = els;
            collected.append(&mut els);
            proof {
                assert(collected@ == before + elsv);
                assert(before + (elsv + content_among(s, dids.skip(k + 1))) =~= (before + elsv)
                    + content_among(s, dids.skip(k + 1)));
                assert forall|m: int| 0 <= m < collected@.len() implies has_open(
                    s,
                    #[trigger] collected@[m],
                ) && s[open_index(s, collected@[m])] is Open by {
                    if m >= before.len() {
                        crate::query::lemma_named2_id_props(
                            &*dom,
                            ipos + 1,
                            j as int,
                            "p"@,
                            "h1"@,
                            m - before.len(),
                        );
                        assert(collected@[m] == elsv[m - before.len()]);
                    }
                }
            }
        }
        k += 1;
    }
    proof {
        assert(content_among(s, dids.skip(divs@.len() as int)) =~= Seq::<u64>::empty());
        assert(collected@ + Seq::<u64>::empty() =~= collected@);
    }
    let ghost cids = collected@;
    let img_name = crate::strutil::to_chars("img");
    let a_name = crate::strutil::to_chars("a");
    let mut r: Vec<u64> = Vec::new();
    let mut k2: usize = 0;
    proof {
        assert(cids.skip(0) =~= cids);
    }
    while k2 < collected.len()
        invariant
            0 <= k2 <= collected.len(),
            dom.wf(),
            s == dom.doc(),
            cids == collected@,
            img_name@ == "img"@,
            a_name@ == "a"@,
            kept_among(s, cids) == r@ + kept_among(s, cids.skip(k2 as int)),
            forall|m: int|
                0 <= m < cids.len() ==> has_open(s, #[trigger] cids[m]) && s[open_index(
                    s,
                    cids[m],
                )] is Open,
            forall|m: int|
                0 <= m < r@.len() ==> has_open(s, #[trigger] r@[m]) && s[open_index(
                    s,
                    r@[m],
                )] is Open,
        decreases collected.len() - k2,
    {
        proof {
            assert(cids.skip(k2 as int)[0] == cids[k2 as int]);
            assert(cids.skip(k2 as int).drop_first() =~= cids.skip(k2 + 1));
        }
        let id = collected[k2];
        let ipos = match dom.position_of(id) {
            Some(i) => i,
            None => unreached(),
        };
        let j = dom.close_of(ipos);
        let imgs = crate::query::elements_named_range(dom, ipos + 1, j, &img_name);
        let keep = if imgs.len() > 0 {
            true
        } else {
            let text = crate::query::text_excluding(dom, id, &a_name);
            let t = crate::strutil::trim(&text);
            t.len() > 0
        };
        if keep {
            let ghost before = r@;
            r.push(id);
            proof {
                assert((before + (seq![cids[k2 as int]] + kept_among(s, cids.skip(k2 + 1)))) =~= (
                r@ + kept_among(s, cids.skip(k2 + 1))));
            }
        }
        k2 += 1;
    }
    proof {
        assert(kept_among(s, cids.skip(collected@.len() as int)) =~= Seq::<u64>::empty());
        assert(r@ + Seq::<u64>::empty() =~= r@);
    }
    r
}

/// A span with no class and no style: an editor artifact carrying no
/// styling of its own.
pub open spec fn span_plain(t: Token) -> bool {
    &&& t is Open
    &&& t->Open_name@ == "span"@
    &&& attr_lookup(t->Open_attrs@, "class"@) is None
    &&& attr_lookup(t->Open_attrs@, "style"@) is None
}

/// A machine-translation wrapper span: class list holds `short_text` and
/// the id reads `result_box`.
pub open spec fn span_marker(t: Token) -> bool {
    &&& t is Open
    &&& t->Open_name@ == "span"@
    &&& match attr_lookup(t->Open_attrs@, "class"@) {
        Some(c) => split_spec(c, ' ').contains("short_text"@),
        None => false,
    }
    &&& attr_lookup(t->Open_attrs@, "id"@) == Some("result_box"@)
}

/// A translation-segment span: class list holds `hps`.
pub open spec fn span_hps(t: Token) -> bool {
    &&& t is Open
    &&& t->Open_name@ == "span"@
    &&& match attr_lookup(t->Open_attrs@, "class"@) {
        Some(c) => split_spec(c, ' ').contains("hps"@),
        None => false,
    }
}

/// Whether position `pos` sits strictly inside some translation-wrapper
/// span.
pub open spec fn inside_marker(s: Seq<Token>, pos: int) -> bool {
    exists|p: int, q: int| #[trigger] is_match(s, p, q) && span_marker(s[p]) && p < pos < q
}

/// Whether the span with handle `id` dissolves: it styles nothing, or it
/// is a translation wrapper, or a translation segment inside one.
pub open spec fn span_dissolves(s: Seq<Token>, id: u64) -> bool {
    let t = s[open_index(s, id)];
    span_plain(t) || span_marker(t) || (span_hps(t) && inside_marker(s, open_index(s, id)))
}

/// The handles among `ids` whose span dissolves, in order.
pub open spec fn dissolvable_among(s: Seq<Token>, ids: Seq<u64>) -> Seq<u64>
    decreases ids.len(),
{
    if ids.len() == 0 {
        Seq::empty()
    } else {
        let rest = dissolvable_among(s, ids.drop_first());
        if span_dissolves(s, ids[0]) {
            seq![ids[0]] + rest
        } else {
            rest
        }
    }
}

/// One dissolution per useless span, in document order.
pub open spec fn span_ops_match(ops: Seq<DomOperation>, s: Seq<Token>) -> bool {
    let targets = dissolvable_among(s, ids_named_range(s, 0, s.len() as int, "span"@));
    &&& ops.len() == targets.len()
    &&& forall|k: int|
        0 <= k < ops.len() ==> (#[trigger] ops[k]) is DissolveElement
            && ops[k]->DissolveElement_node_id == targets[k]
}

/// Dissolves every span that styles nothing — no class and no style —
/// and the known machine-translation wrapper spans, preserving their
/// content's position and order.
pub fn remove_useless_spans(dom: &mut Dom)
    requires
        old(dom).wf(),
    ensures
        final(dom).wf(),
        final(dom).id_bound() == old(dom).id_bound(),
        exists|ops: Seq<DomOperation>|
            #![auto]
            span_ops_match(ops, old(dom).doc()) && ops_applied(
                ops,
                old(dom).doc(),
                old(dom).detached(),
                final(dom).doc(),
                final(dom).detached(),
            ),
{
    let ghost s = dom.doc();
    let span_name = crate::strutil::to_chars("span");
    let spans = crate::query::elements_named(dom, &span_name);
    let ghost sids = spans@;
    let class_name = crate::strutil::to_chars("class");
    let style_name = crate::strutil::to_chars("style");
    let id_name = crate::strutil::to_chars("id");
    let short_text = crate::strutil::to_chars("short_text");
    let hps = crate::strutil::to_chars("hps");
    // collect every translation-wrapper span's token range first
    let mut markers: Vec<(usize, usize)> = Vec::new();
    let mut k: usize = 0;
    while k < spans.len()
        invariant
            0 <= k <= spans.len(),
            dom.wf(),
            s == dom.doc(),
            sids == spans@,
            sids == ids_named_range(s, 0, s.len() as int, "span"@),
            class_name@ == "class"@,
            id_name@ == "id"@,
            short_text@ == "short_text"@,
            forall|x: int|
                0 <= x < markers@.len() ==> is_match(
                    s,
                    (#[trigger] markers@[x]).0 as int,
                    markers@[x].1 as int,
                ) && span_marker(s[markers@[x].0 as int]),
            forall|m: int|
                0 <= m < k && span_marker(s[open_index(s, #[trigger] sids[m])]) ==> exists|x: int|
                    0 <= x < markers@.len() && (#[trigger] markers@[x]).0 == open_index(s, sids[m]),
        decreases spans.len() - k,
    {
        proof {
            crate::query::lemma_named_id_props(&*dom, 0, s.len() as int, "span"@, k as int);
        }
        let id = spans[k];
        let is_marker = ({
            let cls = match dom.attribute_of(id, &class_name) {
                Some(c) => crate::strutil::split_contains(&c, ' ', &short_text),
                None => false,
            };
            if cls {
                match dom.attribute_of(id, &id_name) {
                    Some(v) => crate::strutil::chars_eq_str(&v, "result_box"),
                    None => false,
                }
            } else {
                false
            }
        });
        if is_marker {
            let ipos = match dom.position_of(id) {
                Some(i) => i,
                None => unreached(),
            };
            proof {
                assert(crate::dom::is_open_id(s[ipos as int], id));
            }
            let j = dom.close_of(ipos);
            let ghost before = markers@;
            markers.push((ipos, j));
            proof {
                assert(markers@[before.len() as int] == (ipos, j));
                assert forall|m: int|
                    0 <= m < k + 1 && span_marker(
                        s[open_index(s, #[trigger] sids[m])],
                    ) implies exists|x: int|
                    0 <= x < markers@.len() && (#[trigger] markers@[x]).0 == open_index(
                        s,
                        sids[m],
                    ) by {
                    if m < k {
                        let x0 = choose|x: int|
                            0 <= x < before.len() && (#[trigger] before[x]).0 == open_index(
                                s,
                                sids[m],
                            );
                        assert(markers@[x0].0 == open_index(s, sids[m]));
                    } else {
                        assert(markers@[before.len() as int].0 == open_index(s, sids[m]));
                    }
                }
            }
        } else {
            proof {
                assert(!span_marker(s[open_index(s, sids[k as int])]));
            }
        }
        k += 1;
    }
    // decide each span and schedule the dissolutions
    let mut ops: Vec<DomOperation> = Vec::new();
    let mut k2: usize = 0;
    proof {
        assert(sids.skip(0) =~= sids);
    }
    while k2 < spans.len()
        invariant
            0 <= k2 <= spans.len(),
            dom.wf(),
            s == dom.doc(),
            sids == spans@,
            sids == ids_named_range(s, 0, s.len() as int, "span"@),
            class_name@ == "class"@,
            style_name@ == "style"@,
            id_name@ == "id"@,
            short_text@ == "short_text"@,
            hps@ == "hps"@,
            forall|x: int|
                0 <= x < markers@.len() ==> is_match(
                    s,
                    (#[trigger] markers@[x]).0 as int,
                    markers@[x].1 as int,
                ) && span_marker(s[markers@[x].0 as int]),
            forall|m: int|
                0 <= m < sids.len() && span_marker(s[open_index(s, #[trigger] sids[m])])
                    ==> exists|x: int|
                    0 <= x < markers@.len() && (#[trigger] markers@[x]).0 == open_index(s, sids[m]),
            dissolvable_among(s, sids) == ops@.map_values(
                |op: DomOperation| op->DissolveElement_node_id,
            ) + dissolvable_among(s, sids.skip(k2 as int)),
            forall|m: int| 0 <= m < ops@.len() ==> (#[trigger] ops@[m]) is DissolveElement,
        decreases spans.len() - k2,
    {
        proof {
            assert(sids.skip(k2 as int)[0] == sids[k2 as int]);
            assert(sids.skip(k2 as int).drop_first() =~= sids.skip(k2 + 1));
            crate::query::lemma_named_id_props(&*dom, 0, s.len() as int, "span"@, k2 as int);
        }
        let id = spans[k2];
        let ghost mapped = ops@.map_values(|op: DomOperation| op->DissolveElement_node_id);
        let cls = dom.attribute_of(id, &class_name);
        let plain = cls.is_none() && dom.attribute_of(id, &style_name).is_none();
        let is_marker = ({
            let has_cls = match &cls {
                Some(c) => crate::strutil::split_contains(c, ' ', &short_text),
                None => false,
            };
            if has_cls {
                match dom.attribute_of(id, &id_name) {
                    Some(v) => crate::strutil::chars_eq_str(&v, "result_box"),
                    None => false,
                }
            } else {
                false
            }
        });
        let is_hps = match &cls {
            Some(c) => crate::strutil::split_contains(c, ' ', &hps),
            None => false,
        };
        let mut dissolve = plain || is_marker;
        if !dissolve && is_hps {
            let ipos = match dom.position_of(id) {
                Some(i) => i,
                None => unreached(),
            };
            let mut x: usize = 0;
            let mut inside = false;
            while x < markers.len()
                invariant
                    0 <= x <= markers.len(),
                    s == dom.doc(),
                    forall|y: int|
                        0 <= y < markers@.len() ==> is_match(
                            s,
                            (#[trigger] markers@[y]).0 as int,
                            markers@[y].1 as int,
                        ) && span_marker(s[markers@[y].0 as int]),
                    inside ==> inside_marker(s, ipos as int),
                    !inside ==> forall|y: int|
                        0 <= y < x ==> !((#[trigger] markers@[y]).0 < ipos && ipos < markers@[y].1),
                decreases markers.len() - x,
            {
                if markers[x].0 < ipos && ipos < markers[x].1 {
                    proof {
                        assert(is_match(s, markers@[x as int].0 as int, markers@[x as int].1 as int)
                            && span_marker(s[markers@[x as int].0 as int]) && markers@[x as int].0
                            < ipos < markers@[x as int].1);
                    }
                    inside = true;
                }
                x += 1;
            }
            proof {
                if !inside && inside_marker(s, ipos as int) {
                    let (p, q) = choose|p: int, q: int|
                        #[trigger] is_match(s, p, q) && span_marker(s[p]) && p < ipos < q;
                    let mid = s[p]->Open_id;
                    assert(s[p] is Open);
                    crate::query::lemma_ids_named_complete(s, 0, s.len() as int, "span"@, p);
                    let m = choose|m: int| 0 <= m < sids.len() && sids[m] == mid;
                    assert(crate::dom::is_open_id(s[p], mid));
                    dom.lemma_open_index_is(p, mid);
                    assert(span_marker(s[open_index(s, sids[m])]));
                    let xw = choose|x: int|
                        0 <= x < markers@.len() && (#[trigger] markers@[x]).0 == open_index(
                            s,
                            sids[m],
                        );
                    assert(is_match(s, p, markers@[xw].1 as int));
                    crate::dom::lemma_match_unique(s, p, q, markers@[xw].1 as int);
                    assert(markers@[xw].0 < ipos && ipos < markers@[xw].1);
                }
            }
            dissolve = inside;
        }
        proof {
            if !(plain || is_marker) && !is_hps {
                assert(!span_dissolves(s, sids[k2 as int]));
            }
        }
        if dissolve {
            ops.push(DomOperation::DissolveElement { node_id: id });
            proof {
                assert(span_dissolves(s, sids[k2 as int]));
                assert(ops@.map_values(|op: DomOperation| op->DissolveElement_node_id) =~= mapped
                    + seq![sids[k2 as int]]);
                assert(mapped + (seq![sids[k2 as int]] + dissolvable_among(s, sids.skip(k2 + 1)))
                    =~= (mapped + seq![sids[k2 as int]]) + dissolvable_among(s, sids.skip(k2 + 1)));
            }
        } else {
            proof {
                assert(!span_dissolves(s, sids[k2 as int]));
            }
        }
        k2 += 1;
    }
    proof {
        assert(dissolvable_among(s, sids.skip(spans@.len() as int)) =~= Seq::<u64>::empty());
        assert(ops@.map_values(|op: DomOperation| op->DissolveElement_node_id) + Seq::<
            u64,
        >::empty() =~= ops@.map_values(|op: DomOperation| op->DissolveElement_node_id));
        assert(span_ops_match(ops@, s));
    }
    let ghost built = ops@;
    dom.perform_operations(ops);
    proof {
        assert(span_ops_match(built, old(dom).doc()) && ops_applied(
            built,
            old(dom).doc(),
            old(dom).detached(),
            final(dom).doc(),
            final(dom).detached(),
        ));
    }
}

/// The rendered body: each content element re-wrapped as a paragraph
/// carrying only its derived class attribute, in document order;
/// elements no longer in the document contribute nothing.
pub open spec fn body_spec(s: Seq<Token>, ids: Seq<u64>) -> Seq<char>
    decreases ids.len(),
{
    if ids.len() == 0 {
        Seq::empty()
    } else {
        let rest = body_spec(s, ids.drop_first());
        if has_open(s, ids[0]) {
            let oi = open_index(s, ids[0]);
            "<p"@ + style_class_string(s[oi]->Open_attrs@) + ">"@ + ser_range(
                s,
                oi + 1,
                match_index(s, oi),
            ) + "</p>\n"@ + rest
        } else {
            rest
        }
    }
}

/// Renders the cleaned content elements into the chapter body fragment.
pub fn render_body(dom: &Dom, ids: &Vec<u64>) -> (r: String)
    requires
        dom.wf(),
    ensures
        r@ == body_spec(dom.doc(), ids@),
{
    let ghost s = dom.doc();
    let ghost iv = ids@;
    let mut out: Vec<char> = Vec::new();
    let mut k: usize = 0;
    proof {
        assert(iv.skip(0) =~= iv);
    }
    while k < ids.len()
        invariant
            0 <= k <= ids.len(),
            dom.wf(),
            s == dom.doc(),
            iv == ids@,
            body_spec(s, iv) == out@ + body_spec(s, iv.skip(k as int)),
        decreases ids.len() - k,
    {
        proof {
            assert(iv.skip(k as int)[0] == iv[k as int]);
            assert(iv.skip(k as int).drop_first() =~= iv.skip(k + 1));
        }
        let id = ids[k];
        match dom.position_of(id) {
            Some(i) => {
                proof {
                    assert(crate::dom::is_open_id(s[i as int], id));
                }
                let j = dom.close_of(i);
                let ghost before = out@;
                let mut open_tag = crate::strutil::to_chars("<p");
                out.append(&mut open_tag);
                let classes = match dom.tok(i) {
                    Token::Open { attrs, .. } => crate::style::style_classes(attrs),
                    _ => unreached(),
                };
                let mut cc = crate::strutil::to_chars(classes.as_str());
                out.append(&mut cc);
                let mut gt = crate::strutil::to_chars(">");
                out.append(&mut gt);
                let mut inner = crate::serialize::serialize_range(dom, i + 1, j);
                out.append(&mut inner);
                let mut close_tag = crate::strutil::to_chars("</p>\n");
                out.append(&mut close_tag);
                proof {
                    let oi = open_index(s, id);
                    assert(out@ =~= before + ("<p"@ + style_class_string(s[oi]->Open_attrs@) + ">"@
                        + ser_range(s, oi + 1, match_index(s, oi)) + "</p>\n"@));
                    assert(before + (("<p"@ + style_class_string(s[oi]->Open_attrs@) + ">"@
                        + ser_range(s, oi + 1, match_index(s, oi)) + "</p>\n"@) + body_spec(
                        s,
                        iv.skip(k + 1),
                    )) =~= out@ + body_spec(s, iv.skip(k + 1)));
                }
            },
            None => {},
        }
        k += 1;
    }
    proof {
        assert(body_spec(s, iv.skip(ids@.len() as int)) =~= Seq::<char>::empty());
        assert(out@ + Seq::<char>::empty() =~= out@);
    }
    crate::strutil::from_chars(&out)
}

/// The complete chapter document: the XHTML envelope around the escaped
/// title and the body fragment.
pub open spec fn chapter_xhtml_spec(title: Seq<char>, body: Seq<char>) -> Seq<char> {
    "<?xml version='1.0' encoding='utf-8' ?><html xmlns='http://www.w3.org/1999/xhtml'><head><title>"@
        + esc_text(title)
        + "</title><meta http-equiv='Content-Type' content ='text/html; charset=utf-8' />\n<link rel='stylesheet' type='text/css' href='stylesheet.css' />\n</head><body><h1>"@
        + esc_text(title) + "</h1>\n"@ + body + "</body></html>"@
}

/// Wraps a chapter body and its display title in the XHTML envelope.
pub fn chapter_xhtml(title: &str, body: &str) -> (r: String)
    ensures
        r@ == chapter_xhtml_spec(title@, body@),
{
    let tc = crate::strutil::to_chars(title);
    let mut out = crate::strutil::to_chars(
        "<?xml version='1.0' encoding='utf-8' ?><html xmlns='http://www.w3.org/1999/xhtml'><head><title>",
    );
    crate::serialize::push_esc_text(&mut out, &tc);
    let mut mid = crate::strutil::to_chars(
        "</title><meta http-equiv='Content-Type' content ='text/html; charset=utf-8' />\n<link rel='stylesheet' type='text/css' href='stylesheet.css' />\n</head><body><h1>",
    );
    out.append(&mut mid);
    crate::serialize::push_esc_text(&mut out, &tc);
    let mut h1c = crate::strutil::to_chars("</h1>\n");
    out.append(&mut h1c);
    let mut bc = crate::strutil::to_chars(body);
    out.append(&mut bc);
    let mut tail = crate::strutil::to_chars("</body></html>");
    out.append(&mut tail);
    crate::strutil::from_chars(&out)
}

} // verus!
