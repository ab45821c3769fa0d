//! Resolution of possibly-relative URL references and removal of query
//! strings, as image localization needs the full-size original.

use crate::strutil::find_ch;
use vstd::prelude::*;

verus! {

/// What resolving the reference `rel` against the base URL `base` gives:
/// the serialized absolute URL, or nothing where either part is
/// malformed.  The outcome depends on the two strings alone.
pub uninterp spec fn resolve_of(base: Seq<char>, rel: Seq<char>) -> Option<Seq<char>>;

/// Resolves `rel` against `base`.
///
/// Relies on `url::Url::parse` and `url::Url::join`, which implement the
/// resolution algorithm for URL references; their outcome is a function
/// of the two strings alone.
#[verifier::external_body]
pub(crate) fn resolve_url(base: &str, rel: &str) -> (r: Option<String>)
    ensures
        match resolve_of(base@, rel@) {
            Some(s) => r matches Some(u) && u@ == s,
            None => r is None,
        },
{
    match url::Url::parse(base) {
        Ok(b) => match b.join(rel) {
            Ok(u) => Some(String::from(u)),
            Err(_) => None,
        },
        Err(_) => None,
    }
}

/// The URL with its query string removed: everything from the first `?`
/// up to the fragment, or to the end, disappears.
pub open spec fn without_query(u: Seq<char>) -> Seq<char> {
    match find_ch(u, '?') {
        Some(q) => {
            let tail = u.skip(q);
            match find_ch(tail, '#') {
                Some(h) => u.take(q) + tail.skip(h),
                None => u.take(q),
            }
        },
        None => u,
    }
}

/// Removes the query string of a URL, keeping any fragment.
pub fn strip_query(u: &Vec<char>) -> (r: Vec<char>)
    ensures
        r@ == without_query(u@),
{
    match crate::strutil::find_ch_at(u, '?') {
        Some(q) => {
            let ghost tail = u@.skip(q as int);
            proof {
                crate::strutil::lemma_find_ch(tail, '#');
            }
            match crate::strutil::find_ch_from(u, q, '#') {
                Some(h) => {
                    proof {
                        assert forall|m: int| 0 <= m < h - q implies tail[m] != '#' by {
                            assert(u@[m + q] != '#');
                        }
                        assert(tail[h - q] == '#');
                        match find_ch(tail, '#') {
                            Some(x) => {
                                if x < h - q {
                                    assert(tail[x] != '#');
                                }
                                if x > h - q {
                                    assert(tail[h - q] != '#');
                                }
                            },
                            None => {
                                assert(tail[h - q] != '#');
                            },
                        }
                    }
                    let mut head = crate::strutil::copy_range(u, 0, q);
                    let mut frag = crate::strutil::copy_range(u, h, u.len());
                    head.append(&mut frag);
                    proof {
                        assert(u@.subrange(0, q as int) =~= u@.take(q as int));
                        assert(u@.subrange(h as int, u@.len() as int) =~= tail.skip(h - q));
                    }
                    head
                },
                None => {
                    proof {
                        if find_ch(tail, '#') is Some {
                            let x = find_ch(tail, '#')->Some_0;
                            assert(u@[x + q] == '#');
                        }
                        assert(u@.subrange(0, q as int) =~= u@.take(q as int));
                    }
                    crate::strutil::copy_range(u, 0, q)
                },
            }
        },
        None => {
            proof {
                assert(u@.subrange(0, u@.len() as int) =~= u@);
            }
            crate::strutil::copy_range(u, 0, u.len())
        },
    }
}

} // verus!
