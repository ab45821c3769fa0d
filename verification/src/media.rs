//! Media types of embedded images, derived from the file extension of a
//! URL's path.

use crate::errors::ScrapeError;
use crate::strutil::{find_ch, find_sub, occurs_at};
use vstd::prelude::*;

verus! {

#[derive(Clone, Copy, PartialEq, Eq, Structural)]
pub enum MediaType {
    Jpeg,
    Png,
    Svg,
}

pub open spec fn content_type_spec(m: MediaType) -> Seq<char> {
    match m {
        MediaType::Jpeg => "image/jpeg"@,
        MediaType::Png => "image/png"@,
        MediaType::Svg => "image/svg+xml"@,
    }
}

pub open spec fn extension_spec(m: MediaType) -> Seq<char> {
    match m {
        MediaType::Jpeg => "jpg"@,
        MediaType::Png => "png"@,
        MediaType::Svg => "svg"@,
    }
}

/// Position right after the authority of an absolute URL: the first slash
/// after the scheme separator; `None` when the URL has no path.
pub open spec fn path_start(u: Seq<char>) -> Option<int> {
    match find_sub(u, "://"@) {
        Some(i) => {
            match find_ch(u.skip(i + 3), '/') {
                Some(j) => Some(i + 3 + j),
                None => None,
            }
        },
        None => Some(0),
    }
}

/// Length of the path portion of `t`: everything up to the first `?` or
/// `#`.
pub open spec fn path_end(t: Seq<char>) -> int
    decreases t.len(),
{
    if t.len() == 0 {
        0
    } else if t[0] == '?' || t[0] == '#' {
        0
    } else {
        1 + path_end(t.drop_first())
    }
}

/// The path of a URL string: from after the authority up to the query or
/// fragment; a lone `/` when the URL has no path.
pub open spec fn url_path_of(u: Seq<char>) -> Seq<char> {
    match path_start(u) {
        Some(p) => {
            let t = u.skip(p);
            t.take(path_end(t))
        },
        None => seq!['/'],
    }
}

/// Index of the last `.` in `p`, if any.
pub open spec fn last_dot(p: Seq<char>) -> Option<int>
    decreases p.len(),
{
    if p.len() == 0 {
        None
    } else if p.last() == '.' {
        Some(p.len() - 1)
    } else {
        last_dot(p.drop_last())
    }
}

/// What follows the last `.` of a path; the whole path when it has none.
pub open spec fn extension_of(p: Seq<char>) -> Seq<char> {
    match last_dot(p) {
        Some(i) => p.skip(i + 1),
        None => p,
    }
}

/// The media type a URL's path extension denotes, if a supported one.
pub open spec fn media_of(u: Seq<char>) -> Option<MediaType> {
    let e = extension_of(url_path_of(u));
    if e == "png"@ {
        Some(MediaType::Png)
    } else if e == "svg"@ {
        Some(MediaType::Svg)
    } else if e == "jpg"@ || e == "jpeg"@ {
        Some(MediaType::Jpeg)
    } else {
        None
    }
}

proof fn lemma_path_end(t: Seq<char>, k: int)
    requires
        0 <= k <= t.len(),
        forall|j: int| 0 <= j < k ==> t[j] != '?' && t[j] != '#',
        k < t.len() ==> t[k] == '?' || t[k] == '#',
    ensures
        path_end(t) == k,
    decreases k,
{
    if k == 0 {
    } else {
        lemma_path_end(t.drop_first(), k - 1);
    }
}

/// The path portion of a URL string.
pub fn url_path(u: &Vec<char>) -> (r: Vec<char>)
    ensures
        r@ == url_path_of(u@),
{
    let sep = crate::strutil::to_chars("://");
    let start: Option<usize> = match crate::strutil::find_sub_at(u, &sep) {
        Some(i) => {
            proof {
                reveal_strlit("://");
                assert("://"@.len() == 3);
                crate::strutil::lemma_find_sub(u@, "://"@);
                assert(crate::strutil::occurs_at(u@, "://"@, i as int));
            }
            match crate::strutil::find_ch_from(u, i + 3, '/') {
                Some(j) => {
                    proof {
                        let t = u@.skip(i + 3);
                        assert forall|m: int| 0 <= m < j - (i + 3) implies t[m] != '/' by {
                            assert(u@[m + i + 3] != '/');
                        }
                        assert(t[j - (i + 3)] == '/');
                        crate::strutil::lemma_find_ch(t, '/');
                        match find_ch(t, '/') {
                            Some(x) => {
                                if x < j - (i + 3) {
                                    assert(t[x] != '/');
                                }
                                if x > j - (i + 3) {
                                    assert(t[j - (i + 3)] != '/');
                                }
                            },
                            None => {
                                assert(t[j - (i + 3)] != '/');
                            },
                        }
                    }
                    Some(j)
                },
                None => {
                    proof {
                        let t = u@.skip(i + 3);
                        crate::strutil::lemma_find_ch(t, '/');
                        if find_ch(t, '/') is Some {
                            let x = find_ch(t, '/')->Some_0;
                            assert(u@[x + i + 3] == '/');
                        }
                    }
                    None
                },
            }
        },
        None => Some(0),
    };
    match start {
        Some(p) => {
            let mut k: usize = p;
            while k < u.len() && u[k] != '?' && u[k] != '#'
                invariant
                    p <= k <= u.len(),
                    forall|j: int| p <= j < k ==> u@[j] != '?' && u@[j] != '#',
                decreases u.len() - k,
            {
                k += 1;
            }
            proof {
                let t = u@.skip(p as int);
                assert forall|j: int| 0 <= j < k - p implies t[j] != '?' && t[j] != '#' by {
                    assert(u@[j + p] != '?' && u@[j + p] != '#');
                }
                lemma_path_end(t, k - p);
                assert(t.take(k - p) =~= u@.subrange(p as int, k as int));
            }
            crate::strutil::copy_range(u, p, k)
        },
        None => {
            let mut r: Vec<char> = Vec::new();
            r.push('/');
            proof {
                assert(r@ =~= seq!['/']);
            }
            r
        },
    }
}

/// What follows the last `.` of the given path.
pub fn path_extension(p: &Vec<char>) -> (r: Vec<char>)
    ensures
        r@ == extension_of(p@),
{
    let mut k: usize = p.len();
    while k > 0 && p[k - 1] != '.'
        invariant
            0 <= k <= p.len(),
            forall|j: int| k <= j < p.len() ==> p@[j] != '.',
        decreases k,
    {
        k -= 1;
    }
    proof {
        lemma_last_dot(p@, k as int);
    }
    if k == 0 {
        crate::strutil::copy_range(p, 0, p.len())
    } else {
        proof {
            assert(p@.skip(k as int) =~= p@.subrange(k as int, p@.len() as int));
        }
        crate::strutil::copy_range(p, k, p.len())
    }
}

proof fn lemma_last_dot(p: Seq<char>, k: int)
    requires
        0 <= k <= p.len(),
        forall|j: int| k <= j < p.len() ==> p[j] != '.',
        k > 0 ==> p[k - 1] == '.',
    ensures
        k > 0 ==> last_dot(p) == Some(k - 1),
        k == 0 ==> last_dot(p) is None && extension_of(p) == p,
    decreases p.len(),
{
    if p.len() > 0 && k < p.len() {
        lemma_last_dot(p.drop_last(), k);
        if k == 0 {
            assert(p.skip(0) =~= p);
        }
    } else if p.len() == 0 {
        assert(p.skip(0) =~= p);
    }
}

impl MediaType {
    /// The MIME content type of this media type.
    pub fn content_type(&self) -> (r: &'static str)
        ensures
            r@ == content_type_spec(*self),
    {
        match self {
            MediaType::Jpeg => "image/jpeg",
            MediaType::Png => "image/png",
            MediaType::Svg => "image/svg+xml",
        }
    }

    /// The customary file extension of this media type.
    pub fn extension(&self) -> (r: &'static str)
        ensures
            r@ == extension_spec(*self),
    {
        match self {
            MediaType::Jpeg => "jpg",
            MediaType::Png => "png",
            MediaType::Svg => "svg",
        }
    }

    /// The media type a URL denotes by its path extension; an error names
    /// the unsupported URL.
    pub fn from_url(url: &Vec<char>) -> (r: Result<MediaType, ScrapeError>)
        ensures
            match r {
                Ok(m) => media_of(url@) == Some(m),
                Err(e) => media_of(url@) is None && e is MediaType,
            },
    {
        let path = url_path(url);
        let ext = path_extension(&path);
        if crate::strutil::chars_eq_str(&ext, "png") {
            Ok(MediaType::Png)
        } else if crate::strutil::chars_eq_str(&ext, "svg") {
            Ok(MediaType::Svg)
        } else if crate::strutil::chars_eq_str(&ext, "jpg") || crate::strutil::chars_eq_str(
            &ext,
            "jpeg",
        ) {
            Ok(MediaType::Jpeg)
        } else {
            Err(ScrapeError::MediaType(crate::strutil::from_chars(url)))
        }
    }
}

} // verus!
