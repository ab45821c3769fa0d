//! Image localization and deduplication: every image is keyed by its
//! exact byte content, so identical payloads re-uploaded under different
//! URLs are stored once and every reference is rewritten to the one
//! canonical local path.

use crate::dom::{
    has_open, match_index, open_index, ops_applied, Dom, DomOperation,
};
use crate::errors::ScrapeError;
use crate::media::{content_type_spec, media_of, url_path_of, MediaType};
use crate::query::{filtered_text_range, ids_named_range};
use crate::strutil::trim_spec;
use vstd::prelude::*;

verus! {

/// The record an image byte content maps to: local path and content type.
pub open spec fn img_lookup(s: Seq<(Seq<u8>, (Seq<char>, Seq<char>))>, b: Seq<u8>) -> Option<
    (Seq<char>, Seq<char>),
>
    decreases s.len(),
{
    if s.len() == 0 {
        None
    } else if s[0].0 == b {
        Some(s[0].1)
    } else {
        img_lookup(s.drop_first(), b)
    }
}

/// The table after interning: known bytes leave it unchanged, new bytes
/// append their record.
pub open spec fn img_intern_state(
    s: Seq<(Seq<u8>, (Seq<char>, Seq<char>))>,
    b: Seq<u8>,
    path: Seq<char>,
    ct: Seq<char>,
) -> Seq<(Seq<u8>, (Seq<char>, Seq<char>))> {
    if img_lookup(s, b) is Some {
        s
    } else {
        s.push((b, (path, ct)))
    }
}

/// The path interning returns: the stored one for known bytes, else the
/// candidate.
pub open spec fn img_intern_path(
    s: Seq<(Seq<u8>, (Seq<char>, Seq<char>))>,
    b: Seq<u8>,
    candidate: Seq<char>,
) -> Seq<char> {
    match img_lookup(s, b) {
        Some(rec) => rec.0,
        None => candidate,
    }
}

/// Interning is idempotent: once bytes are interned, interning the same
/// bytes again returns the same path, whatever candidate the second call
/// offers, and leaves the table unchanged.
pub proof fn lemma_intern_idempotent(
    s: Seq<(Seq<u8>, (Seq<char>, Seq<char>))>,
    b: Seq<u8>,
    p1: Seq<char>,
    ct1: Seq<char>,
    p2: Seq<char>,
)
    ensures
        img_intern_path(img_intern_state(s, b, p1, ct1), b, p2) == img_intern_path(s, b, p1),
        img_intern_state(img_intern_state(s, b, p1, ct1), b, p2, ct1) == img_intern_state(
            s,
            b,
            p1,
            ct1,
        ),
    decreases s.len(),
{
    if s.len() > 0 && s[0].0 != b {
        lemma_intern_idempotent(s.drop_first(), b, p1, ct1, p2);
        if img_lookup(s, b) is None {
            assert(s.push((b, (p1, ct1))).drop_first() =~= s.drop_first().push((b, (p1, ct1))));
        }
    } else if s.len() == 0 {
        assert(s.push((b, (p1, ct1)))[0] == (b, (p1, ct1)));
    }
}

/// The content-addressed image table of one book traversal.
pub struct ImageManager {
    entries: Vec<(Vec<u8>, (Vec<char>, Vec<char>))>,
}

impl ImageManager {
    /// The records, in the order first seen.
    pub closed spec fn table(&self) -> Seq<(Seq<u8>, (Seq<char>, Seq<char>))> {
        self.entries@.map_values(
            |e: (Vec<u8>, (Vec<char>, Vec<char>))| (e.0@, (e.1.0@, e.1.1@)),
        )
    }

    pub fn new() -> (r: ImageManager)
        ensures
            r.table() =~= Seq::<(Seq<u8>, (Seq<char>, Seq<char>))>::empty(),
    {
        ImageManager { entries: Vec::new() }
    }

    /// The stored path for these exact bytes, if already interned.
    pub fn path_of(&self, bytes: &Vec<u8>) -> (r: Option<Vec<char>>)
        ensures
            match r {
                Some(p) => img_lookup(self.table(), bytes@) matches Some(rec) && rec.0 == p@,
                None => img_lookup(self.table(), bytes@) is None,
            },
    {
        let ghost ev = self.table();
        proof {
            assert(ev.skip(0) =~= ev);
        }
        let mut k: usize = 0;
        while k < self.entries.len()
            invariant
                0 <= k <= self.entries.len(),
                ev == self.table(),
                ev == self.entries@.map_values(
                    |e: (Vec<u8>, (Vec<char>, Vec<char>))| (e.0@, (e.1.0@, e.1.1@)),
                ),
                img_lookup(ev, bytes@) == img_lookup(ev.skip(k as int), bytes@),
            decreases self.entries.len() - k,
        {
            proof {
                assert(ev.skip(k as int)[0] == ev[k as int]);
                assert(ev.skip(k as int).drop_first() =~= ev.skip(k + 1));
            }
            if crate::strutil::bytes_eq(&self.entries[k].0, bytes) {
                let p = crate::strutil::copy_range(&self.entries[k].1.0, 0, self.entries[k].1.0.len());
                proof {
                    assert(p@ =~= ev[k as int].1.0);
                }
                return Some(p);
            }
            k += 1;
        }
        proof {
            assert(ev.skip(self.entries@.len() as int) =~= Seq::<(
                Seq<u8>,
                (Seq<char>, Seq<char>),
            )>::empty());
        }
        None
    }

    /// Interns image bytes: known bytes resolve to their first-seen path,
    /// new bytes are recorded under the candidate path and content type.
    pub fn intern(&mut self, bytes: Vec<u8>, candidate_path: Vec<char>, content_type: Vec<char>) -> (r:
        Vec<char>)
        ensures
            r@ == img_intern_path(old(self).table(), bytes@, candidate_path@),
            final(self).table() == img_intern_state(
                old(self).table(),
                bytes@,
                candidate_path@,
                content_type@,
            ),
    {
        match self.path_of(&bytes) {
            Some(p) => p,
            None => {
                let ghost before = self.table();
                let r = crate::strutil::copy_range(&candidate_path, 0, candidate_path.len());
                proof {
                    assert(r@ =~= candidate_path@);
                }
                self.entries.push((bytes, (candidate_path, content_type)));
                proof {
                    assert(self.table() =~= before.push((bytes@, (candidate_path@, content_type@))));
                }
                r
            },
        }
    }

    /// Hands the table out as plain records, in first-seen order.
    pub fn into_entries(self) -> (r: Vec<(Vec<u8>, (Vec<char>, Vec<char>))>)
        ensures
            r@.map_values(|e: (Vec<u8>, (Vec<char>, Vec<char>))| (e.0@, (e.1.0@, e.1.1@)))
                == self.table(),
    {
        self.entries
    }
}

/// The local path an image URL is interned under.
pub open spec fn img_candidate(url: Seq<char>) -> Seq<char> {
    "images"@ + url_path_of(url)
}

/// The content type recorded for an image URL on first sight.
pub open spec fn img_ct(url: Seq<char>) -> Seq<char> {
    content_type_spec(media_of(url)->Some_0)
}

/// The image table after the first `k` fetched images are interned.
pub open spec fn img_fold(
    st: Seq<(Seq<u8>, (Seq<char>, Seq<char>))>,
    fetched: Seq<(u64, Vec<char>, Vec<u8>)>,
    k: int,
) -> Seq<(Seq<u8>, (Seq<char>, Seq<char>))>
    decreases k,
{
    if k <= 0 {
        st
    } else {
        let p = img_fold(st, fetched, k - 1);
        let e = fetched[k - 1];
        img_intern_state(p, e.2@, img_candidate(e.1@), img_ct(e.1@))
    }
}

/// Whether processing entry `m` fails: its bytes are new at that point
/// and the URL has no supported media type.
pub open spec fn entry_fails(
    st: Seq<(Seq<u8>, (Seq<char>, Seq<char>))>,
    fetched: Seq<(u64, Vec<char>, Vec<u8>)>,
    m: int,
) -> bool {
    img_lookup(img_fold(st, fetched, m), fetched[m].2@) is None && media_of(fetched[m].1@) is None
}

/// The four rewrites of one image: drop the size-variant attributes and
/// point `src` at the local path.
pub open spec fn group_match(ops: Seq<DomOperation>, base: int, img: u64, path: Seq<char>) -> bool {
    &&& 0 <= base && base + 4 <= ops.len()
    &&& ops[base] is RemoveAttribute
    &&& ops[base]->RemoveAttribute_node_id == img
    &&& ops[base]->RemoveAttribute_attr_name@ == "srcset"@
    &&& ops[base + 1] is RemoveAttribute
    &&& ops[base + 1]->RemoveAttribute_node_id == img
    &&& ops[base + 1]->RemoveAttribute_attr_name@ == "sizes"@
    &&& ops[base + 2] is RemoveAttribute
    &&& ops[base + 2]->RemoveAttribute_node_id == img
    &&& ops[base + 2]->RemoveAttribute_attr_name@ == "loading"@
    &&& ops[base + 3] is SetAttribute
    &&& ops[base + 3]->SetAttribute_node_id == img
    &&& ops[base + 3]->SetAttribute_attr_name@ == "src"@
    &&& ops[base + 3]->SetAttribute_value@ == path
}

/// The batch of rewrites image cleanup performs: four per image in
/// order; under a collapse, only the first image's rewrites, then the
/// scope is emptied and the image re-attached as its only child.
pub open spec fn image_ops_match(
    ops: Seq<DomOperation>,
    st: Seq<(Seq<u8>, (Seq<char>, Seq<char>))>,
    fetched: Seq<(u64, Vec<char>, Vec<u8>)>,
    scope: u64,
    collapse: bool,
) -> bool {
    if collapse {
        if fetched.len() == 0 {
            ops.len() == 0
        } else {
            &&& ops.len() == 6
            &&& group_match(
                ops,
                0,
                fetched[0].0,
                img_intern_path(st, fetched[0].2@, img_candidate(fetched[0].1@)),
            )
            &&& ops[4] is RemoveChildren
            &&& ops[4]->RemoveChildren_node_id == scope
            &&& ops[5] is AppendChild
            &&& ops[5]->AppendChild_parent_id == scope
            &&& ops[5]->AppendChild_child_id == fetched[0].0
        }
    } else {
        &&& ops.len() == 4 * fetched.len()
        &&& forall|m: int|
            0 <= m < fetched.len() ==> group_match(
                ops,
                4 * m,
                (#[trigger] fetched[m]).0,
                img_intern_path(
                    img_fold(st, fetched, m),
                    fetched[m].2@,
                    img_candidate(fetched[m].1@),
                ),
            )
    }
}

/// Whether the scope element collapses to its one image: it holds exactly
/// one image, and some link inside it carries all of the scope's text.
pub open spec fn collapse_spec(s: Seq<crate::dom::Token>, scope: u64) -> bool {
    let i = open_index(s, scope);
    let j = match_index(s, i);
    let links = ids_named_range(s, i + 1, j, "a"@);
    &&& ids_named_range(s, i + 1, j, "img"@).len() == 1
    &&& links.len() > 0
    &&& {
        let li = open_index(s, links[0]);
        trim_spec(filtered_text_range(s, i + 1, j, Seq::empty(), 0)) == trim_spec(
            filtered_text_range(s, li + 1, match_index(s, li), Seq::empty(), 0),
        )
    }
}

/// Whether the scope element will collapse to its single image.
pub fn should_collapse(dom: &Dom, scope: u64) -> (r: bool)
    requires
        dom.wf(),
        has_open(dom.doc(), scope),
    ensures
        r == collapse_spec(dom.doc(), scope),
{
    let ipos = match dom.position_of(scope) {
        Some(i) => i,
        None => unreached(),
    };
    let j = dom.close_of(ipos);
    let img_name = crate::strutil::to_chars("img");
    let imgs = crate::query::elements_named_range(dom, ipos + 1, j, &img_name);
    if imgs.len() != 1 {
        return false;
    }
    let a_name = crate::strutil::to_chars("a");
    let links = crate::query::elements_named_range(dom, ipos + 1, j, &a_name);
    if links.len() == 0 {
        return false;
    }
    proof {
        crate::query::lemma_named_id_props(&*dom, ipos + 1, j as int, "a"@, 0);
    }
    let none: Vec<char> = Vec::new();
    let scope_text = crate::query::text_excluding(dom, scope, &none);
    let link_text = crate::query::text_excluding(dom, links[0], &none);
    let st = crate::strutil::trim(&scope_text);
    let lt = crate::strutil::trim(&link_text);
    crate::strutil::chars_eq(&st, &lt)
}

/// The images among `ids` that carry a `src`, with its raw value, in
/// document order.
pub open spec fn srcs_among(s: Seq<crate::dom::Token>, ids: Seq<u64>) -> Seq<(u64, Seq<char>)>
    decreases ids.len(),
{
    if ids.len() == 0 {
        Seq::empty()
    } else {
        let rest = srcs_among(s, ids.drop_first());
        match crate::dom::attr_lookup(s[open_index(s, ids[0])]->Open_attrs@, "src"@) {
            Some(src) => seq![(ids[0], src)] + rest,
            None => rest,
        }
    }
}

/// The fetch requests image cleanup needs for the scope element: each
/// image's `src` resolved against the page URL, with the query string
/// stripped to force the original resolution.  A `src` that does not
/// resolve is a resolution error.
#[verifier::rlimit(60)]
pub fn image_requests(dom: &Dom, scope: u64, page_url: &str) -> (r: Result<
    Vec<(u64, Vec<char>)>,
    ScrapeError,
>)
    requires
        dom.wf(),
        has_open(dom.doc(), scope),
    ensures
        ({
            let s = dom.doc();
            let oi = open_index(s, scope);
            let srcs = srcs_among(s, ids_named_range(s, oi + 1, match_index(s, oi), "img"@));
            match r {
                Ok(v) => {
                    &&& v@.len() == srcs.len()
                    &&& forall|j: int|
                        0 <= j < srcs.len() ==> (#[trigger] v@[j]).0 == srcs[j].0
                            && crate::urls::resolve_of(page_url@, srcs[j].1) is Some && v@[j].1@
                            == crate::urls::without_query(
                            crate::urls::resolve_of(page_url@, srcs[j].1)->Some_0,
                        )
                },
                Err(e) => e is Resolution && exists|j: int|
                    0 <= j < srcs.len() && crate::urls::resolve_of(
                        page_url@,
                        (#[trigger] srcs[j]).1,
                    ) is None,
            }
        }),
{
    let ghost s = dom.doc();
    let ipos = match dom.position_of(scope) {
        Some(i) => i,
        None => unreached(),
    };
    proof {
        assert(crate::dom::is_open_id(s[ipos as int], scope));
    }
    let j = dom.close_of(ipos);
    let img_name = crate::strutil::to_chars("img");
    let imgs = crate::query::elements_named_range(dom, ipos + 1, j, &img_name);
    let ghost iids = imgs@;
    let src_name = crate::strutil::to_chars("src");
    let ghost srcs = srcs_among(s, iids);
    let mut v: Vec<(u64, Vec<char>)> = Vec::new();
    let ghost mut done: Seq<(u64, Seq<char>)> = Seq::empty();
    let mut k: usize = 0;
    proof {
        assert(iids.skip(0) =~= iids);
        assert(done + srcs_among(s, iids) =~= srcs_among(s, iids));
    }
    while k < imgs.len()
        invariant
            0 <= k <= imgs.len(),
            dom.wf(),
            s == dom.doc(),
            iids == imgs@,
            has_open(s, scope),
            ipos as int == open_index(s, scope),
            j as int == match_index(s, ipos as int),
            ipos as int + 1 <= j as int <= s.len(),
            iids == ids_named_range(s, ipos as int + 1, j as int, "img"@),
            src_name@ == "src"@,
            srcs == srcs_among(s, iids),
            srcs == done + srcs_among(s, iids.skip(k as int)),
            v@.len() == done.len(),
            forall|m: int|
                #![trigger done[m]]
                0 <= m < done.len() ==> v@[m].0 == done[m].0 && crate::urls::resolve_of(
                    page_url@,
                    done[m].1,
                ) is Some && v@[m].1@ == crate::urls::without_query(
                    crate::urls::resolve_of(page_url@, done[m].1)->Some_0,
                ),
        decreases imgs.len() - k,
    {
        proof {
            assert(iids.skip(k as int)[0] == iids[k as int]);
            assert(iids.skip(k as int).drop_first() =~= iids.skip(k + 1));
            crate::query::lemma_named_id_props(&*dom, ipos as int + 1, j as int, "img"@, k as int);
        }
        let id = imgs[k];
        match dom.attribute_of(id, &src_name) {
            Some(src) => {
                let src_str = crate::strutil::from_chars(&src);
                match crate::urls::resolve_url(page_url, src_str.as_str()) {
                    Some(u) => {
                        let uc = crate::strutil::to_chars(u.as_str());
                        let stripped = crate::urls::strip_query(&uc);
                        let ghost done_before = done;
                        let ghost v_before = v@;
                        let ghost sv = stripped@;
                        v.push((id, stripped));
                        proof {
                            done = done_before.push((id, src@));
                            assert(done_before + (seq![(iids[k as int], src@)] + srcs_among(
                                s,
                                iids.skip(k + 1),
                            )) =~= done + srcs_among(s, iids.skip(k + 1)));
                            assert(crate::urls::resolve_of(page_url@, src@) is Some);
                            assert(sv == crate::urls::without_query(
                                crate::urls::resolve_of(page_url@, src@)->Some_0,
                            ));
                            assert forall|m: int|
                                #![trigger done[m]]
                                0 <= m < done.len() implies v@[m].0 == done[m].0
                                && crate::urls::resolve_of(page_url@, done[m].1) is Some && v@[m].1@
                                == crate::urls::without_query(
                                crate::urls::resolve_of(page_url@, done[m].1)->Some_0,
                            ) by {
                                if m < done_before.len() {
                                    assert(done[m] == done_before[m]);
                                    assert(v@[m] == v_before[m]);
                                } else {
                                    assert(done[m] == (id, src@));
                                    assert(v@[m].0 == id);
                                    assert(v@[m].1@ == sv);
                                }
                            }
                        }
                    },
                    None => {
                        proof {
                            assert(crate::urls::resolve_of(page_url@, src@) is None);
                            assert(srcs[done.len() as int] == (iids[k as int], src@));
                            assert(0 <= done.len() < srcs.len());
                        }
                        return Err(ScrapeError::Resolution("Could not resolve image URL".to_owned()));
                    },
                }
            },
            None => {},
        }
        k += 1;
    }
    proof {
        assert(srcs_among(s, iids.skip(imgs@.len() as int)) =~= Seq::<(u64, Seq<char>)>::empty());
        assert(done + Seq::<(u64, Seq<char>)>::empty() =~= done);
    }
    Ok(v)
}

/// The four rewrites that localize one image: the size-variant
/// attributes `srcset`, `sizes` and `loading` go — the other sizes are
/// generated upstream and not downloaded — and `src` points at the local
/// path.
pub fn clean_up_image(img_id: u64, new_src: &Vec<char>) -> (r: Vec<DomOperation>)
    ensures
        r@.len() == 4,
        group_match(r@, 0, img_id, new_src@),
{
    let src = crate::strutil::from_chars(new_src);
    let mut r: Vec<DomOperation> = Vec::new();
    r.push(DomOperation::RemoveAttribute { node_id: img_id, attr_name: "srcset".to_owned() });
    r.push(DomOperation::RemoveAttribute { node_id: img_id, attr_name: "sizes".to_owned() });
    r.push(DomOperation::RemoveAttribute { node_id: img_id, attr_name: "loading".to_owned() });
    r.push(DomOperation::SetAttribute {
        node_id: img_id,
        attr_name: "src".to_owned(),
        value: src,
    });
    r
}

fn process_entry(images: &mut ImageManager, url: &Vec<char>, bytes: &Vec<u8>) -> (r: Result<
    Vec<char>,
    ScrapeError,
>)
    ensures
        match r {
            Ok(p) => {
                &&& !(img_lookup(old(images).table(), bytes@) is None && media_of(url@) is None)
                &&& p@ == img_intern_path(old(images).table(), bytes@, img_candidate(url@))
                &&& final(images).table() == img_intern_state(
                    old(images).table(),
                    bytes@,
                    img_candidate(url@),
                    img_ct(url@),
                )
            },
            Err(e) => {
                &&& e is MediaType
                &&& img_lookup(old(images).table(), bytes@) is None
                &&& media_of(url@) is None
                &&& final(images).table() == old(images).table()
            },
        },
{
    match images.path_of(bytes) {
        Some(p) => Ok(p),
        None => {
            match MediaType::from_url(url) {
                Ok(m) => {
                    let ct = crate::strutil::to_chars(m.content_type());
                    let mut candidate = crate::strutil::to_chars("images");
                    let mut path_part = crate::media::url_path(url);
                    candidate.append(&mut path_part);
                    let b = crate::fetch::copy_bytes(bytes);
                    let r = images.intern(b, candidate, ct);
                    Ok(r)
                },
                Err(e) => Err(e),
            }
        },
    }
}

/// Rewrites every fetched image inside the scope element to its interned
/// local path, dropping size-variant attributes; where the scope is a
/// single-image paragraph whose text all sits in one link, its content
/// collapses to just the image.  An image whose bytes are new but whose
/// URL has no supported media type aborts with a media-type error before
/// any rewrite is applied.
pub fn clean_up_images(
    dom: &mut Dom,
    scope: u64,
    images: &mut ImageManager,
    fetched: &Vec<(u64, Vec<char>, Vec<u8>)>,
) -> (r: Result<(), ScrapeError>)
    requires
        old(dom).wf(),
        has_open(old(dom).doc(), scope),
    ensures
        final(dom).wf(),
        final(dom).id_bound() == old(dom).id_bound(),
        match r {
            Ok(()) => {
                &&& (forall|m: int|
                    0 <= m < (if collapse_spec(old(dom).doc(), scope) && fetched@.len() > 0 {
                        1int
                    } else {
                        fetched@.len() as int
                    }) ==> !entry_fails(old(images).table(), fetched@, m))
                &&& (if collapse_spec(old(dom).doc(), scope) && fetched@.len() > 0 {
                    final(images).table() == img_fold(old(images).table(), fetched@, 1)
                } else {
                    final(images).table() == img_fold(
                        old(images).table(),
                        fetched@,
                        fetched@.len() as int,
                    )
                })
                &&& exists|ops: Seq<DomOperation>|
                    #![auto]
                    image_ops_match(
                        ops,
                        old(images).table(),
                        fetched@,
                        scope,
                        collapse_spec(old(dom).doc(), scope),
                    ) && ops_applied(
                        ops,
                        old(dom).doc(),
                        old(dom).detached(),
                        final(dom).doc(),
                        final(dom).detached(),
                    )
            },
            Err(e) => {
                &&& e is MediaType
                &&& *final(dom) == *old(dom)
                &&& exists|m: int|
                    0 <= m < fetched@.len() && #[trigger] entry_fails(
                        old(images).table(),
                        fetched@,
                        m,
                    ) && final(images).table() == img_fold(old(images).table(), fetched@, m)
                        && forall|m2: int|
                        0 <= m2 < m ==> !entry_fails(old(images).table(), fetched@, m2)
            },
        },
{
    let ghost st0 = images.table();
    let ghost f = fetched@;
    let collapse = should_collapse(dom, scope);
    let mut ops: Vec<DomOperation> = Vec::new();
    if collapse && fetched.len() > 0 {
        let img = fetched[0].0;
        match process_entry(images, &fetched[0].1, &fetched[0].2) {
            Ok(path) => {
                let mut group = clean_up_image(img, &path);
                let ghost gview = group@;
                ops.append(&mut group);
                ops.push(DomOperation::RemoveChildren { node_id: scope });
                ops.push(DomOperation::AppendChild { parent_id: scope, child_id: img });
                proof {
                    assert(img_fold(st0, f, 0) == st0);
                    assert(img_fold(st0, f, 1) == images.table());
                    assert(ops@[0] == gview[0] && ops@[1] == gview[1] && ops@[2] == gview[2]
                        && ops@[3] == gview[3]);
                    assert(image_ops_match(ops@, st0, f, scope, true));
                }
            },
            Err(e) => {
                proof {
                    assert(img_fold(st0, f, 0) == st0);
                    assert(entry_fails(st0, f, 0));
                }
                return Err(e);
            },
        }
    } else {
        let mut k: usize = 0;
        while k < fetched.len()
            invariant
                0 <= k <= fetched.len(),
                f == fetched@,
                st0 == old(images).table(),
                *dom == *old(dom),
                old(dom).wf(),
                has_open(old(dom).doc(), scope),
                collapse == collapse_spec(old(dom).doc(), scope),
                !(collapse && fetched@.len() > 0),
                images.table() == img_fold(st0, f, k as int),
                ops@.len() == 4 * k,
                forall|m: int|
                    0 <= m < k ==> group_match(
                        ops@,
                        4 * m,
                        (#[trigger] f[m]).0,
                        img_intern_path(img_fold(st0, f, m), f[m].2@, img_candidate(f[m].1@)),
                    ),
                forall|m: int| 0 <= m < k ==> !entry_fails(st0, f, m),
            decreases fetched.len() - k,
        {
            let img = fetched[k].0;
            let ghost ops_before = ops@;
            match process_entry(images, &fetched[k].1, &fetched[k].2) {
                Ok(path) => {
                    let mut group = clean_up_image(img, &path);
                    let ghost gview = group@;
                    ops.append(&mut group);
                    proof {
                        assert(ops@[4 * k as int] == gview[0] && ops@[4 * k + 1] == gview[1]
                            && ops@[4 * k + 2] == gview[2] && ops@[4 * k + 3] == gview[3]);
                        assert(group_match(ops@, 4 * k as int, f[k as int].0, img_intern_path(
                            img_fold(st0, f, k as int),
                            f[k as int].2@,
                            img_candidate(f[k as int].1@),
                        )));
                        assert forall|m: int| 0 <= m < k implies group_match(
                            ops@,
                            4 * m,
                            (#[trigger] f[m]).0,
                            img_intern_path(img_fold(st0, f, m), f[m].2@, img_candidate(f[m].1@)),
                        ) by {
                            assert(group_match(
                                ops_before,
                                4 * m,
                                f[m].0,
                                img_intern_path(
                                    img_fold(st0, f, m),
                                    f[m].2@,
                                    img_candidate(f[m].1@),
                                ),
                            ));
                        }
                    }
                },
                Err(e) => {
                    proof {
                        assert(entry_fails(st0, f, k as int));
                    }
                    return Err(e);
                },
            }
            k += 1;
        }
    }
    let ghost built = ops@;
    dom.perform_operations(ops);
    proof {
        assert(image_ops_match(
            built,
            st0,
            f,
            scope,
            collapse_spec(old(dom).doc(), scope),
        ) && ops_applied(
            built,
            old(dom).doc(),
            old(dom).detached(),
            final(dom).doc(),
            final(dom).detached(),
        ));
    }
    Ok(())
}

} // verus!
