//! Character-sequence helpers shared by the whole library.
//!
//! Text is handled as `Vec<char>` internally, so every transformation can be
//! specified exactly over `Seq<char>`; conversion to and from `String`
//! happens at the edges.

use vstd::prelude::*;

verus! {

/// ASCII whitespace, the class that surrounding-space trimming removes.
pub open spec fn is_space(c: char) -> bool {
    c == ' ' || c == '\t' || c == '\n' || c == '\r'
}

pub open spec fn trim_left_spec(s: Seq<char>) -> Seq<char>
    decreases s.len(),
{
    if s.len() > 0 && is_space(s[0]) {
        trim_left_spec(s.drop_first())
    } else {
        s
    }
}

pub open spec fn trim_right_spec(s: Seq<char>) -> Seq<char>
    decreases s.len(),
{
    if s.len() > 0 && is_space(s[s.len() - 1]) {
        trim_right_spec(s.drop_last())
    } else {
        s
    }
}

/// The sequence with leading and trailing ASCII whitespace removed.
pub open spec fn trim_spec(s: Seq<char>) -> Seq<char> {
    trim_right_spec(trim_left_spec(s))
}

proof fn lemma_trim_left_at(s: Seq<char>, a: int)
    requires
        0 <= a <= s.len(),
        forall|j: int| 0 <= j < a ==> is_space(s[j]),
        a < s.len() ==> !is_space(s[a]),
    ensures
        trim_left_spec(s) == s.skip(a),
    decreases a,
{
    if a == 0 {
        assert(s.skip(0) =~= s);
    } else {
        lemma_trim_left_at(s.drop_first(), a - 1);
        assert(s.drop_first().skip(a - 1) =~= s.skip(a));
    }
}

proof fn lemma_trim_right_at(s: Seq<char>, b: int)
    requires
        0 <= b <= s.len(),
        forall|j: int| b <= j < s.len() ==> is_space(s[j]),
        b > 0 ==> !is_space(s[b - 1]),
    ensures
        trim_right_spec(s) == s.take(b),
    decreases s.len() - b,
{
    if b == s.len() {
        assert(s.take(b) =~= s);
    } else {
        lemma_trim_right_at(s.drop_last(), b);
        assert(s.drop_last().take(b) =~= s.take(b));
    }
}

pub fn is_space_ch(c: char) -> (r: bool)
    ensures
        r == is_space(c),
{
    c == ' ' || c == '\t' || c == '\n' || c == '\r'
}

/// Copy of `v[a..b]`.
pub fn copy_range(v: &Vec<char>, a: usize, b: usize) -> (r: Vec<char>)
    requires
        a <= b <= v@.len(),
    ensures
        r@ == v@.subrange(a as int, b as int),
{
    let mut r: Vec<char> = Vec::new();
    let mut i: usize = a;
    while i < b
        invariant
            a <= i <= b <= v@.len(),
            r@ == v@.subrange(a as int, i as int),
        decreases b - i,
    {
        r.push(v[i]);
        proof {
            assert(v@.subrange(a as int, i as int).push(v@[i as int]) =~= v@.subrange(
                a as int,
                i + 1,
            ));
        }
        i += 1;
    }
    r
}

/// Removes leading and trailing ASCII whitespace.
pub fn trim(v: &Vec<char>) -> (r: Vec<char>)
    ensures
        r@ == trim_spec(v@),
{
    let n = v.len();
    let mut a: usize = 0;
    while a < n && is_space_ch(v[a])
        invariant
            0 <= a <= n,
            n == v@.len(),
            forall|j: int| 0 <= j < a ==> is_space(v@[j]),
        decreases n - a,
    {
        a += 1;
    }
    let mut b: usize = n;
    while b > a && is_space_ch(v[b - 1])
        invariant
            a <= b <= n,
            n == v@.len(),
            forall|j: int| b <= j < n ==> is_space(v@[j]),
        decreases b,
    {
        b -= 1;
    }
    proof {
        lemma_trim_left_at(v@, a as int);
        let t = v@.skip(a as int);
        lemma_trim_right_at(t, b - a);
        assert(t.take(b - a) =~= v@.subrange(a as int, b as int));
    }
    copy_range(v, a, b)
}

/// Index of the first occurrence of `sep` in `s`, if any.
pub open spec fn find_ch(s: Seq<char>, sep: char) -> Option<int>
    decreases s.len(),
{
    if s.len() == 0 {
        None
    } else if s[0] == sep {
        Some(0)
    } else {
        match find_ch(s.drop_first(), sep) {
            Some(i) => Some(i + 1),
            None => None,
        }
    }
}

pub proof fn lemma_find_ch(s: Seq<char>, sep: char)
    ensures
        match find_ch(s, sep) {
            Some(i) => 0 <= i < s.len() && s[i] == sep && forall|j: int| 0 <= j < i ==> s[j] != sep,
            None => forall|j: int| 0 <= j < s.len() ==> s[j] != sep,
        },
    decreases s.len(),
{
    if s.len() > 0 && s[0] != sep {
        lemma_find_ch(s.drop_first(), sep);
        let t = s.drop_first();
        match find_ch(t, sep) {
            Some(i) => {
                assert(find_ch(s, sep) == Some(i + 1));
                assert forall|j: int| 0 <= j < i + 1 implies s[j] != sep by {
                    if j > 0 {
                        assert(t[j - 1] != sep);
                    }
                }
            },
            None => {
                assert forall|j: int| 0 <= j < s.len() implies s[j] != sep by {
                    if j > 0 {
                        assert(t[j - 1] != sep);
                    }
                }
            },
        }
    }
}

/// First occurrence of `sep` in `v` at or after `from`.
pub fn find_ch_from(v: &Vec<char>, from: usize, sep: char) -> (r: Option<usize>)
    requires
        from <= v@.len(),
    ensures
        match r {
            Some(i) => from <= i && i < v.len() && v@[i as int] == sep && forall|j: int|
                from <= j < i ==> v@[j] != sep,
            None => forall|j: int| from <= j < v@.len() ==> v@[j] != sep,
        },
{
    let mut i: usize = from;
    while i < v.len()
        invariant
            from <= i <= v@.len(),
            forall|j: int| from <= j < i ==> v@[j] != sep,
        decreases v@.len() - i,
    {
        if v[i] == sep {
            return Some(i);
        }
        i += 1;
    }
    None
}

/// First occurrence of `sep` in `v`, against the recursive definition.
pub fn find_ch_at(v: &Vec<char>, sep: char) -> (r: Option<usize>)
    ensures
        match r {
            Some(i) => find_ch(v@, sep) == Some(i as int) && i < v.len(),
            None => find_ch(v@, sep) is None,
        },
{
    proof {
        lemma_find_ch(v@, sep);
    }
    match find_ch_from(v, 0, sep) {
        Some(i) => {
            proof {
                match find_ch(v@, sep) {
                    Some(k) => {
                        if k < i {
                            assert(v@[k] != sep);
                        }
                        if k > i {
                            assert(v@[i as int] != sep);
                        }
                    },
                    None => {
                        assert(v@[i as int] != sep);
                    },
                }
            }
            Some(i)
        },
        None => {
            proof {
                if find_ch(v@, sep) is Some {
                    let k = find_ch(v@, sep)->Some_0;
                    assert(v@[k] == sep);
                }
            }
            None
        },
    }
}

/// The segments of `s` separated by `sep`; always at least one segment.
pub open spec fn split_spec(s: Seq<char>, sep: char) -> Seq<Seq<char>>
    decreases s.len(),
{
    match find_ch(s, sep) {
        Some(i) => {
            if 0 <= i < s.len() {
                seq![s.take(i)] + split_spec(s.skip(i + 1), sep)
            } else {
                seq![s]
            }
        },
        None => seq![s],
    }
}

fn split_from(v: &Vec<char>, from: usize, sep: char) -> (r: Vec<Vec<char>>)
    requires
        from <= v@.len(),
    ensures
        r@.map_values(|x: Vec<char>| x@) == split_spec(v@.skip(from as int), sep),
    decreases v@.len() - from,
{
    proof {
        lemma_find_ch(v@.skip(from as int), sep);
    }
    match find_ch_from(v, from, sep) {
        Some(i) => {
            proof {
                let t = v@.skip(from as int);
                assert(t[i - from] == sep);
                assert(forall|j: int| 0 <= j < i - from ==> t[j] != sep);
                assert(find_ch(t, sep) == Some(i - from)) by {
                    match find_ch(t, sep) {
                        Some(k) => {
                            if k < i - from {
                                assert(t[k] == sep);
                            }
                            if k > i - from {
                                assert(t[i - from] != sep);
                            }
                        },
                        None => {
                            assert(t[i - from] != sep);
                        },
                    }
                }
            }
            let head = copy_range(v, from, i);
            let mut rest = split_from(v, i + 1, sep);
            let mut r: Vec<Vec<char>> = Vec::new();
            r.push(head);
            r.append(&mut rest);
            proof {
                let t = v@.skip(from as int);
                assert(head@ =~= t.take(i - from));
                assert(v@.skip(i + 1) =~= t.skip(i - from + 1));
                assert(r@.map_values(|x: Vec<char>| x@) =~= split_spec(t, sep));
            }
            r
        },
        None => {
            let seg = copy_range(v, from, v.len());
            let mut r: Vec<Vec<char>> = Vec::new();
            r.push(seg);
            proof {
                let t = v@.skip(from as int);
                assert(seg@ =~= t);
                assert(r@.map_values(|x: Vec<char>| x@) =~= seq![t]);
            }
            r
        },
    }
}

/// Splits `v` at every occurrence of `sep`.
pub fn split_ch(v: &Vec<char>, sep: char) -> (r: Vec<Vec<char>>)
    ensures
        r@.map_values(|x: Vec<char>| x@) == split_spec(v@, sep),
{
    let r = split_from(v, 0, sep);
    proof {
        assert(v@.skip(0) =~= v@);
    }
    r
}

/// Whether one of the `sep`-separated segments of `v` is exactly `target`.
pub fn split_contains(v: &Vec<char>, sep: char, target: &Vec<char>) -> (r: bool)
    ensures
        r == split_spec(v@, sep).contains(target@),
{
    let segs = split_ch(v, sep);
    let ghost sseq = split_spec(v@, sep);
    let mut k: usize = 0;
    while k < segs.len()
        invariant
            0 <= k <= segs.len(),
            sseq == split_spec(v@, sep),
            sseq == segs@.map_values(|x: Vec<char>| x@),
            forall|j: int| 0 <= j < k ==> sseq[j] != target@,
        decreases segs.len() - k,
    {
        if chars_eq(&segs[k], target) {
            proof {
                assert(sseq[k as int] == target@);
                assert(split_spec(v@, sep)[k as int] == target@);
                assert(split_spec(v@, sep).contains(target@));
            }
            return true;
        }
        k += 1;
    }
    proof {
        if sseq.contains(target@) {
            let j = choose|j: int| 0 <= j < sseq.len() && sseq[j] == target@;
            assert(sseq[j] != target@);
        }
    }
    false
}

/// Byte-wise equality of two vectors.
pub fn bytes_eq(a: &Vec<u8>, b: &Vec<u8>) -> (r: bool)
    ensures
        r == (a@ == b@),
{
    if a.len() != b.len() {
        return false;
    }
    let mut i: usize = 0;
    while i < a.len()
        invariant
            0 <= i <= a@.len(),
            a@.len() == b@.len(),
            forall|j: int| 0 <= j < i ==> a@[j] == b@[j],
        decreases a@.len() - i,
    {
        if a[i] != b[i] {
            return false;
        }
        i += 1;
    }
    proof {
        assert(a@ =~= b@);
    }
    true
}

/// Character-wise equality of two vectors.
pub fn chars_eq(a: &Vec<char>, b: &Vec<char>) -> (r: bool)
    ensures
        r == (a@ == b@),
{
    if a.len() != b.len() {
        return false;
    }
    let mut i: usize = 0;
    while i < a.len()
        invariant
            0 <= i <= a@.len(),
            a@.len() == b@.len(),
            forall|j: int| 0 <= j < i ==> a@[j] == b@[j],
        decreases a@.len() - i,
    {
        if a[i] != b[i] {
            return false;
        }
        i += 1;
    }
    proof {
        assert(a@ =~= b@);
    }
    true
}

/// The characters of `s` as a vector.
pub fn to_chars(s: &str) -> (r: Vec<char>)
    ensures
        r@ == s@,
{
    let n = s.unicode_len();
    let mut r: Vec<char> = Vec::new();
    let mut i: usize = 0;
    while i < n
        invariant
            0 <= i <= n,
            n == s@.len(),
            r@ == s@.subrange(0, i as int),
        decreases n - i,
    {
        let c = s.get_char(i);
        r.push(c);
        proof {
            assert(s@.subrange(0, i as int).push(s@[i as int]) =~= s@.subrange(0, i + 1));
        }
        i += 1;
    }
    proof {
        assert(s@.subrange(0, n as int) =~= s@);
    }
    r
}

/// Appends one character to a `String`.
///
/// Relies on `String::push`, which appends the given character.
#[verifier::external_body]
fn push_char(s: &mut String, c: char)
    ensures
        final(s)@ == old(s)@.push(c),
{
    s.push(c)
}

/// The vector's characters as a `String`.
pub fn from_chars(v: &Vec<char>) -> (r: String)
    ensures
        r@ == v@,
{
    let mut r = String::new();
    let mut i: usize = 0;
    while i < v.len()
        invariant
            0 <= i <= v@.len(),
            r@ == v@.subrange(0, i as int),
        decreases v@.len() - i,
    {
        push_char(&mut r, v[i]);
        proof {
            assert(v@.subrange(0, i as int).push(v@[i as int]) =~= v@.subrange(0, i + 1));
        }
        i += 1;
    }
    proof {
        assert(v@.subrange(0, v@.len() as int) =~= v@);
    }
    r
}

/// Equality between a character vector and a string slice.
pub fn chars_eq_str(v: &Vec<char>, s: &str) -> (r: bool)
    ensures
        r == (v@ == s@),
{
    let w = to_chars(s);
    chars_eq(v, &w)
}

/// Whether `p` is a prefix of `v`.
pub fn starts_with(v: &Vec<char>, p: &Vec<char>) -> (r: bool)
    ensures
        r == (p@.len() <= v@.len() && v@.subrange(0, p@.len() as int) == p@),
{
    if p.len() > v.len() {
        return false;
    }
    let head = copy_range(v, 0, p.len());
    chars_eq(&head, p)
}

/// ASCII lower-casing, character by character.
pub open spec fn lower_ch(c: char) -> char {
    if 'A' <= c <= 'Z' {
        ((c as u8) + 0x20) as char
    } else {
        c
    }
}

pub open spec fn lower_spec(s: Seq<char>) -> Seq<char> {
    s.map_values(|c: char| lower_ch(c))
}

/// Lower-cases ASCII letters, leaving other characters unchanged.
pub fn to_lower(v: &Vec<char>) -> (r: Vec<char>)
    ensures
        r@ == lower_spec(v@),
{
    let mut r: Vec<char> = Vec::new();
    let mut i: usize = 0;
    while i < v.len()
        invariant
            0 <= i <= v@.len(),
            r@ == v@.subrange(0, i as int).map_values(|c: char| lower_ch(c)),
        decreases v@.len() - i,
    {
        let c = v[i];
        let lc: char = if 'A' <= c && c <= 'Z' {
            ((c as u8) + 0x20) as char
        } else {
            c
        };
        proof {
            assert(lc == lower_ch(v@[i as int]));
            assert(v@.subrange(0, i as int).map_values(|c: char| lower_ch(c)).push(
                lower_ch(v@[i as int]),
            ) =~= v@.subrange(0, i + 1).map_values(|c: char| lower_ch(c)));
        }
        r.push(lc);
        i += 1;
    }
    proof {
        assert(v@.subrange(0, v@.len() as int) =~= v@);
    }
    r
}

/// Whether `pat` occurs in `s` starting at `i`.
pub open spec fn occurs_at(s: Seq<char>, pat: Seq<char>, i: int) -> bool {
    0 <= i && i + pat.len() <= s.len() && s.subrange(i, i + pat.len()) == pat
}

/// Index of the first occurrence of `pat` in `s`, if any.
pub open spec fn find_sub(s: Seq<char>, pat: Seq<char>) -> Option<int>
    decreases s.len(),
{
    if s.len() < pat.len() {
        None
    } else if occurs_at(s, pat, 0) {
        Some(0)
    } else if s.len() == 0 {
        None
    } else {
        match find_sub(s.drop_first(), pat) {
            Some(i) => Some(i + 1),
            None => None,
        }
    }
}

pub proof fn lemma_find_sub(s: Seq<char>, pat: Seq<char>)
    ensures
        match find_sub(s, pat) {
            Some(i) => occurs_at(s, pat, i) && forall|j: int| 0 <= j < i ==> !occurs_at(s, pat, j),
            None => forall|j: int| 0 <= j < s.len() ==> !occurs_at(s, pat, j),
        },
    decreases s.len(),
{
    if s.len() >= pat.len() && !occurs_at(s, pat, 0) && s.len() > 0 {
        lemma_find_sub(s.drop_first(), pat);
        let t = s.drop_first();
        assert forall|j: int|
            1 <= j && j + pat.len() <= s.len() implies (occurs_at(t, pat, j - 1) == occurs_at(
            s,
            pat,
            j,
        )) by {
            assert(t.subrange(j - 1, j - 1 + pat.len()) =~= s.subrange(j, j + pat.len()));
        }
        match find_sub(t, pat) {
            Some(i) => {
                assert(find_sub(s, pat) == Some(i + 1));
                assert(occurs_at(t, pat, i));
                assert(occurs_at(s, pat, i + 1));
                assert forall|j: int| 0 <= j < i + 1 implies !occurs_at(s, pat, j) by {
                    if j > 0 && occurs_at(s, pat, j) {
                        assert(occurs_at(t, pat, j - 1));
                    }
                }
            },
            None => {
                assert forall|j: int| 0 <= j < s.len() implies !occurs_at(s, pat, j) by {
                    if j > 0 && occurs_at(s, pat, j) {
                        assert(occurs_at(t, pat, j - 1));
                    }
                }
            },
        }
    }
}

fn sub_matches_at(v: &Vec<char>, pat: &Vec<char>, i: usize) -> (r: bool)
    requires
        i + pat@.len() <= v.len(),
    ensures
        r == occurs_at(v@, pat@, i as int),
{
    let w = copy_range(v, i, i + pat.len());
    chars_eq(&w, pat)
}

/// First occurrence of `pat` in `v`, scanning from the front.
pub fn find_sub_at(v: &Vec<char>, pat: &Vec<char>) -> (r: Option<usize>)
    ensures
        match r {
            Some(i) => Some(i as int) == find_sub(v@, pat@) && i + pat@.len() <= v.len(),
            None => find_sub(v@, pat@) is None,
        },
{
    if pat.len() > v.len() {
        proof {
            lemma_find_sub(v@, pat@);
        }
        return None;
    }
    if pat.len() == 0 {
        proof {
            assert(v@.subrange(0, 0) =~= pat@);
            assert(occurs_at(v@, pat@, 0));
        }
        return Some(0);
    }
    let mut i: usize = 0;
    while i <= v.len() - pat.len()
        invariant
            0 <= i,
            i <= v@.len() - pat@.len() + 1,
            1 <= pat@.len() <= v.len(),
            forall|j: int| 0 <= j < i ==> !occurs_at(v@, pat@, j),
        decreases v@.len() - i,
    {
        if sub_matches_at(v, pat, i) {
            proof {
                lemma_find_sub(v@, pat@);
                match find_sub(v@, pat@) {
                    Some(k) => {
                        if k < i {
                            assert(!occurs_at(v@, pat@, k));
                        }
                        if k > i {
                            assert(!occurs_at(v@, pat@, i as int));
                        }
                    },
                    None => {
                        assert(!occurs_at(v@, pat@, i as int));
                    },
                }
            }
            return Some(i);
        }
        i += 1;
    }
    proof {
        lemma_find_sub(v@, pat@);
        assert forall|j: int| 0 <= j < v@.len() implies !occurs_at(v@, pat@, j) by {
            if j + pat@.len() <= v@.len() {
                assert(j < i);
            }
        }
        if find_sub(v@, pat@) is Some {
            let k = find_sub(v@, pat@)->Some_0;
            assert(occurs_at(v@, pat@, k));
        }
    }
    None
}

/// `s` with every occurrence of `pat` removed, scanning left to right.
pub open spec fn remove_all_spec(s: Seq<char>, pat: Seq<char>) -> Seq<char>
    decreases s.len(),
{
    if pat.len() == 0 {
        s
    } else {
        match find_sub(s, pat) {
            Some(i) => {
                if 0 <= i && i + pat.len() <= s.len() {
                    proof {
                        assert(s.skip(i + pat.len()).len() < s.len());
                    }
                    s.take(i) + remove_all_spec(s.skip(i + pat.len()), pat)
                } else {
                    s
                }
            },
            None => s,
        }
    }
}

/// Removes every occurrence of `pat` from `v`, scanning left to right.
pub fn remove_all(v: &Vec<char>, pat: &Vec<char>) -> (r: Vec<char>)
    ensures
        r@ == remove_all_spec(v@, pat@),
    decreases v@.len(),
{
    proof {
        assert(v@.subrange(0, v@.len() as int) =~= v@);
    }
    if pat.len() == 0 {
        return copy_range(v, 0, v.len());
    }
    proof {
        lemma_find_sub(v@, pat@);
    }
    match find_sub_at(v, pat) {
        Some(i) => {
            proof {
                assert(occurs_at(v@, pat@, i as int));
            }
            let mut head = copy_range(v, 0, i);
            let tail = copy_range(v, i + pat.len(), v.len());
            let mut rest = remove_all(&tail, pat);
            head.append(&mut rest);
            proof {
                assert(v@.take(i as int) =~= v@.subrange(0, i as int));
                assert(v@.skip(i + pat@.len()) =~= v@.subrange(i + pat@.len(), v@.len() as int));
            }
            head
        },
        None => copy_range(v, 0, v.len()),
    }
}

} // verus!
