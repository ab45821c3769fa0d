//! Read-only queries over a parsed document: finding elements by name and
//! collecting descendant text, optionally pruning the subtrees of elements
//! with a given name.

use crate::dom::{
    attr_lookup, has_open, is_match, match_index, open_index, Dom, Token,
};
use vstd::prelude::*;

verus! {

/// Handles of the opening tokens at `a..b` whose element name is `name`,
/// in document order.
pub open spec fn ids_named_range(s: Seq<Token>, a: int, b: int, name: Seq<char>) -> Seq<u64>
    decreases b - a,
{
    if a >= b {
        Seq::empty()
    } else {
        let rest = ids_named_range(s, a + 1, b, name);
        match s[a] {
            Token::Open { id, name: nm, .. } => {
                if nm@ == name {
                    seq![id] + rest
                } else {
                    rest
                }
            },
            _ => rest,
        }
    }
}

/// Concatenation of the text tokens at `a..b`, skipping any text that sits
/// inside an element named `excl`; `lvl` counts how deep inside such
/// elements the position `a` already is.
pub open spec fn filtered_text_range(
    s: Seq<Token>,
    a: int,
    b: int,
    excl: Seq<char>,
    lvl: int,
) -> Seq<char>
    decreases b - a,
{
    if a >= b {
        Seq::empty()
    } else {
        match s[a] {
            Token::Open { name, .. } => filtered_text_range(
                s,
                a + 1,
                b,
                excl,
                if lvl > 0 || name@ == excl {
                    lvl + 1
                } else {
                    0
                },
            ),
            Token::Close { .. } => filtered_text_range(
                s,
                a + 1,
                b,
                excl,
                if lvl > 0 {
                    lvl - 1
                } else {
                    0
                },
            ),
            Token::Text { text } => (if lvl == 0 {
                text@
            } else {
                Seq::empty()
            }) + filtered_text_range(s, a + 1, b, excl, lvl),
        }
    }
}

/// Every handle that a name query returns opens an element of that name.
pub proof fn lemma_named_id_props(dom: &Dom, a: int, b: int, name: Seq<char>, k: int)
    requires
        dom.wf(),
        0 <= a <= b <= dom.doc().len(),
        0 <= k < ids_named_range(dom.doc(), a, b, name).len(),
    ensures
        ({
            let id = ids_named_range(dom.doc(), a, b, name)[k];
            &&& has_open(dom.doc(), id)
            &&& dom.doc()[open_index(dom.doc(), id)] is Open
            &&& dom.doc()[open_index(dom.doc(), id)]->Open_name@ == name
        }),
    decreases b - a,
{
    let s = dom.doc();
    if a < b {
        let rest = ids_named_range(s, a + 1, b, name);
        match s[a] {
            Token::Open { id, name: nm, .. } => {
                if nm@ == name {
                    if k == 0 {
                        assert(crate::dom::is_open_id(s[a], id));
                        dom.lemma_open_index_is(a, id);
                    } else {
                        lemma_named_id_props(dom, a + 1, b, name, k - 1);
                    }
                } else {
                    lemma_named_id_props(dom, a + 1, b, name, k);
                }
            },
            _ => {
                lemma_named_id_props(dom, a + 1, b, name, k);
            },
        }
    }
}

/// Every element of one of the two names opening at `a..b`, in document
/// order.
pub open spec fn ids_named2_range(
    s: Seq<Token>,
    a: int,
    b: int,
    n1: Seq<char>,
    n2: Seq<char>,
) -> Seq<u64>
    decreases b - a,
{
    if a >= b {
        Seq::empty()
    } else {
        let rest = ids_named2_range(s, a + 1, b, n1, n2);
        match s[a] {
            Token::Open { id, name: nm, .. } => {
                if nm@ == n1 || nm@ == n2 {
                    seq![id] + rest
                } else {
                    rest
                }
            },
            _ => rest,
        }
    }
}

/// An opening token of the right name in range has its handle in the
/// query's answer.
pub proof fn lemma_ids_named_complete(s: Seq<Token>, a: int, b: int, name: Seq<char>, p: int)
    requires
        a <= p < b,
        s[p] is Open,
        s[p]->Open_name@ == name,
    ensures
        ids_named_range(s, a, b, name).contains(s[p]->Open_id),
    decreases b - a,
{
    let r = ids_named_range(s, a, b, name);
    if p == a {
        assert(r[0] == s[p]->Open_id);
    } else {
        lemma_ids_named_complete(s, a + 1, b, name, p);
        let rest = ids_named_range(s, a + 1, b, name);
        let k = choose|k: int| 0 <= k < rest.len() && rest[k] == s[p]->Open_id;
        match s[a] {
            Token::Open { id, name: nm, .. } => {
                if nm@ == name {
                    assert(r[k + 1] == s[p]->Open_id);
                } else {
                    assert(r[k] == s[p]->Open_id);
                }
            },
            _ => {
                assert(r[k] == s[p]->Open_id);
            },
        }
    }
}

/// Like `lemma_named_id_props`, for a two-name query.
pub proof fn lemma_named2_id_props(dom: &Dom, a: int, b: int, n1: Seq<char>, n2: Seq<char>, k: int)
    requires
        dom.wf(),
        0 <= a <= b <= dom.doc().len(),
        0 <= k < ids_named2_range(dom.doc(), a, b, n1, n2).len(),
    ensures
        ({
            let id = ids_named2_range(dom.doc(), a, b, n1, n2)[k];
            &&& has_open(dom.doc(), id)
            &&& dom.doc()[open_index(dom.doc(), id)] is Open
            &&& (dom.doc()[open_index(dom.doc(), id)]->Open_name@ == n1 || dom.doc()[open_index(
                dom.doc(),
                id,
            )]->Open_name@ == n2)
        }),
    decreases b - a,
{
    let s = dom.doc();
    if a < b {
        match s[a] {
            Token::Open { id, name: nm, .. } => {
                if nm@ == n1 || nm@ == n2 {
                    if k == 0 {
                        assert(crate::dom::is_open_id(s[a], id));
                        dom.lemma_open_index_is(a, id);
                    } else {
                        lemma_named2_id_props(dom, a + 1, b, n1, n2, k - 1);
                    }
                } else {
                    lemma_named2_id_props(dom, a + 1, b, n1, n2, k);
                }
            },
            _ => {
                lemma_named2_id_props(dom, a + 1, b, n1, n2, k);
            },
        }
    }
}

/// Handles of all elements named `n1` or `n2` between `a` and `b`, in
/// document order.
pub fn elements_named2_range(dom: &Dom, a: usize, b: usize, n1: &Vec<char>, n2: &Vec<char>) -> (r:
    Vec<u64>)
    requires
        a <= b <= dom.doc().len(),
    ensures
        r@ == ids_named2_range(dom.doc(), a as int, b as int, n1@, n2@),
{
    let ghost s = dom.doc();
    let mut r: Vec<u64> = Vec::new();
    let mut k: usize = a;
    while k < b
        invariant
            a <= k <= b <= dom.doc().len(),
            s == dom.doc(),
            ids_named2_range(s, a as int, b as int, n1@, n2@) == r@ + ids_named2_range(
                s,
                k as int,
                b as int,
                n1@,
                n2@,
            ),
        decreases b - k,
    {
        match dom.tok(k) {
            Token::Open { id, name: nm, .. } => {
                let nmc = crate::strutil::to_chars(nm.as_str());
                if crate::strutil::chars_eq(&nmc, n1) || crate::strutil::chars_eq(&nmc, n2) {
                    r.push(*id);
                    proof {
                        assert((r@ + ids_named2_range(s, k + 1, b as int, n1@, n2@)) =~= (
                        r@.drop_last() + (seq![s[k as int]->Open_id] + ids_named2_range(
                            s,
                            k + 1,
                            b as int,
                            n1@,
                            n2@,
                        ))));
                    }
                }
            },
            _ => {},
        }
        k += 1;
    }
    proof {
        assert(ids_named2_range(s, b as int, b as int, n1@, n2@) =~= Seq::<u64>::empty());
        assert(r@ + Seq::<u64>::empty() =~= r@);
    }
    r
}

/// Handles of all elements named `name` between positions `a` and `b`, in
/// document order.
pub fn elements_named_range(dom: &Dom, a: usize, b: usize, name: &Vec<char>) -> (r: Vec<u64>)
    requires
        a <= b <= dom.doc().len(),
    ensures
        r@ == ids_named_range(dom.doc(), a as int, b as int, name@),
{
    let ghost s = dom.doc();
    let mut r: Vec<u64> = Vec::new();
    let mut k: usize = a;
    while k < b
        invariant
            a <= k <= b <= dom.doc().len(),
            s == dom.doc(),
            ids_named_range(s, a as int, b as int, name@) == r@ + ids_named_range(
                s,
                k as int,
                b as int,
                name@,
            ),
        decreases b - k,
    {
        proof {
            assert(r@ + ids_named_range(s, k as int, b as int, name@) == ids_named_range(
                s,
                a as int,
                b as int,
                name@,
            ));
        }
        match dom.tok(k) {
            Token::Open { id, name: nm, .. } => {
                let nmc = crate::strutil::to_chars(nm.as_str());
                if crate::strutil::chars_eq(&nmc, name) {
                    r.push(*id);
                    proof {
                        assert((r@ + ids_named_range(s, k + 1, b as int, name@)) =~= (r@.drop_last()
                            + (seq![s[k as int]->Open_id] + ids_named_range(s, k + 1, b as int, name@))));
                    }
                }
            },
            _ => {},
        }
        k += 1;
    }
    proof {
        assert(ids_named_range(s, b as int, b as int, name@) =~= Seq::<u64>::empty());
        assert(r@ + Seq::<u64>::empty() =~= r@);
    }
    r
}

/// Handles of all elements named `name` in the whole document.
pub fn elements_named(dom: &Dom, name: &Vec<char>) -> (r: Vec<u64>)
    ensures
        r@ == ids_named_range(dom.doc(), 0, dom.doc().len() as int, name@),
{
    let n = dom.doc_len();
    elements_named_range(dom, 0, n, name)
}

/// Handles of all elements named `name` strictly inside the element
/// `ancestor`; empty when the ancestor is not in the document.
pub fn elements_named_within(dom: &Dom, ancestor: u64, name: &Vec<char>) -> (r: Vec<u64>)
    requires
        dom.wf(),
    ensures
        has_open(dom.doc(), ancestor) ==> r@ == ids_named_range(
            dom.doc(),
            open_index(dom.doc(), ancestor) + 1,
            match_index(dom.doc(), open_index(dom.doc(), ancestor)),
            name@,
        ),
        !has_open(dom.doc(), ancestor) ==> r@ == Seq::<u64>::empty(),
{
    match dom.position_of(ancestor) {
        Some(i) => {
            let j = dom.close_of(i);
            elements_named_range(dom, i + 1, j, name)
        },
        None => Vec::new(),
    }
}

/// In-order concatenation of the text inside element `id`, skipping text
/// that sits inside any descendant element named `excl`; empty when the
/// element is not in the document.
pub fn text_excluding(dom: &Dom, id: u64, excl: &Vec<char>) -> (r: Vec<char>)
    requires
        dom.wf(),
    ensures
        has_open(dom.doc(), id) ==> r@ == filtered_text_range(
            dom.doc(),
            open_index(dom.doc(), id) + 1,
            match_index(dom.doc(), open_index(dom.doc(), id)),
            excl@,
            0,
        ),
        !has_open(dom.doc(), id) ==> r@ == Seq::<char>::empty(),
{
    let ghost s = dom.doc();
    match dom.position_of(id) {
        Some(i) => {
            let j = dom.close_of(i);
            let a = i + 1;
            let mut r: Vec<char> = Vec::new();
            let mut k: usize = a;
            let mut lvl: usize = 0;
            while k < j
                invariant
                    a <= k <= j <= dom.doc().len(),
                    s == dom.doc(),
                    filtered_text_range(s, a as int, j as int, excl@, 0) == r@
                        + filtered_text_range(s, k as int, j as int, excl@, lvl as int),
                    lvl <= k,
                decreases j - k,
            {
                match dom.tok(k) {
                    Token::Open { name, .. } => {
                        let nmc = crate::strutil::to_chars(name.as_str());
                        if lvl > 0 || crate::strutil::chars_eq(&nmc, excl) {
                            lvl += 1;
                        } else {
                            lvl = 0;
                        }
                    },
                    Token::Close { .. } => {
                        if lvl > 0 {
                            lvl -= 1;
                        }
                    },
                    Token::Text { text } => {
                        if lvl == 0 {
                            let mut tc = crate::strutil::to_chars(text.as_str());
                            r.append(&mut tc);
                        }
                    },
                }
                k += 1;
            }
            proof {
                assert(filtered_text_range(s, j as int, j as int, excl@, lvl as int)
                    =~= Seq::<char>::empty());
                assert(r@ + Seq::<char>::empty() =~= r@);
            }
            r
        },
        None => Vec::new(),
    }
}

/// In-order concatenation of all text inside element `id`.
pub fn text_content(dom: &Dom, id: u64) -> (r: Vec<char>)
    requires
        dom.wf(),
    ensures
        has_open(dom.doc(), id) ==> r@ == filtered_text_range(
            dom.doc(),
            open_index(dom.doc(), id) + 1,
            match_index(dom.doc(), open_index(dom.doc(), id)),
            Seq::<char>::empty(),
            0,
        ),
        !has_open(dom.doc(), id) ==> r@ == Seq::<char>::empty(),
{
    let excl: Vec<char> = Vec::new();
    text_excluding(dom, id, &excl)
}

} // verus!
