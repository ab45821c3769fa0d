//! The markup tree and its batch mutation engine.
//!
//! A parsed page is held flat: an element is an `Open` token carrying its
//! name and attributes, matched by a `Close` token, with its content between
//! the two; character data is a `Text` token.  A document is a balanced
//! token sequence, and every structural edit is a splice on that sequence,
//! so the effect of each operation is stated exactly with subranges.
//!
//! Elements carry numeric handles.  Detached subtrees move to a side pool
//! and stay addressable, so a later operation in the same batch may edit or
//! re-attach them; an operation naming a handle that is nowhere to be found
//! is a silent no-op.

use vstd::prelude::*;

verus! {

pub enum Token {
    Open { id: u64, name: String, attrs: Vec<(String, String)> },
    Close { name: String },
    Text { text: String },
}

/// Contribution of one token to the nesting depth.
pub open spec fn delta(t: Token) -> int {
    match t {
        Token::Open { .. } => 1,
        Token::Close { .. } => -1,
        Token::Text { .. } => 0,
    }
}

/// Sum of the depth deltas of the tokens at `a..b`.
pub open spec fn depth_range(s: Seq<Token>, a: int, b: int) -> int
    decreases b - a,
{
    if a >= b {
        0
    } else {
        depth_range(s, a, b - 1) + delta(s[b - 1])
    }
}

/// Nesting depth after the first `n` tokens.
pub open spec fn depth(s: Seq<Token>, n: int) -> int {
    depth_range(s, 0, n)
}

/// A sequence of whole subtrees: the depth never dips below the start and
/// ends where it began.
pub open spec fn balanced(s: Seq<Token>) -> bool {
    depth(s, s.len() as int) == 0 && forall|n: int| 0 <= n <= s.len() ==> #[trigger] depth(s, n)
        >= 0
}

pub proof fn lemma_depth_split(s: Seq<Token>, a: int, b: int, c: int)
    requires
        a <= b <= c,
    ensures
        depth_range(s, a, c) == depth_range(s, a, b) + depth_range(s, b, c),
    decreases c - b,
{
    if c > b {
        lemma_depth_split(s, a, b, c - 1);
    }
}

pub proof fn lemma_depth_congruent(s: Seq<Token>, t: Seq<Token>, a: int, b: int, d: int)
    requires
        a <= b,
        forall|k: int| a <= k < b ==> s[k] == t[k + d],
    ensures
        depth_range(s, a, b) == depth_range(t, a + d, b + d),
    decreases b - a,
{
    if b > a {
        lemma_depth_congruent(s, t, a, b - 1, d);
    }
}

/// Whether `t` is the opening token of the element with handle `id`.
pub open spec fn is_open_id(t: Token, id: u64) -> bool {
    match t {
        Token::Open { id: tid, .. } => tid == id,
        _ => false,
    }
}

/// How many opening tokens at `a..b` carry handle `id`.
pub open spec fn count_range(s: Seq<Token>, a: int, b: int, id: u64) -> int
    decreases b - a,
{
    if a >= b {
        0
    } else {
        count_range(s, a, b - 1, id) + if is_open_id(s[b - 1], id) {
            1int
        } else {
            0int
        }
    }
}

pub open spec fn count_id(s: Seq<Token>, id: u64) -> int {
    count_range(s, 0, s.len() as int, id)
}

/// Whether the element with handle `id` opens anywhere in `s`.
pub open spec fn has_open(s: Seq<Token>, id: u64) -> bool {
    exists|k: int| 0 <= k < s.len() && is_open_id(#[trigger] s[k], id)
}

/// Index of the opening token with handle `id` (unique under `wf`).
pub open spec fn open_index(s: Seq<Token>, id: u64) -> int {
    choose|i: int| 0 <= i < s.len() && is_open_id(#[trigger] s[i], id)
}

pub proof fn lemma_count_split(s: Seq<Token>, a: int, b: int, c: int, id: u64)
    requires
        a <= b <= c,
    ensures
        count_range(s, a, c, id) == count_range(s, a, b, id) + count_range(s, b, c, id),
    decreases c - b,
{
    if c > b {
        lemma_count_split(s, a, b, c - 1, id);
    }
}

pub proof fn lemma_count_congruent(s: Seq<Token>, t: Seq<Token>, a: int, b: int, d: int, id: u64)
    requires
        a <= b,
        forall|k: int| a <= k < b ==> s[k] == t[k + d],
    ensures
        count_range(s, a, b, id) == count_range(t, a + d, b + d, id),
    decreases b - a,
{
    if b > a {
        lemma_count_congruent(s, t, a, b - 1, d, id);
    }
}

pub proof fn lemma_count_nonneg(s: Seq<Token>, a: int, b: int, id: u64)
    ensures
        count_range(s, a, b, id) >= 0,
    decreases b - a,
{
    if b > a {
        lemma_count_nonneg(s, a, b - 1, id);
    }
}

/// A handle that opens at `k` contributes to the count over any range
/// containing `k`.
pub proof fn lemma_count_at(s: Seq<Token>, a: int, b: int, k: int, id: u64)
    requires
        a <= k < b,
        is_open_id(s[k], id),
    ensures
        count_range(s, a, b, id) >= 1,
    decreases b - a,
{
    lemma_count_nonneg(s, a, b - 1, id);
    if k < b - 1 {
        lemma_count_at(s, a, b - 1, k, id);
    }
}

/// Under a total count of at most one, two opens with the same handle are
/// the same token.
pub proof fn lemma_open_unique(s: Seq<Token>, i: int, j: int, id: u64)
    requires
        count_id(s, id) <= 1,
        0 <= i < s.len(),
        0 <= j < s.len(),
        is_open_id(s[i], id),
        is_open_id(s[j], id),
    ensures
        i == j,
{
    if i != j {
        let lo = if i < j {
            i
        } else {
            j
        };
        let hi = if i < j {
            j
        } else {
            i
        };
        lemma_count_split(s, 0, hi, s.len() as int, id);
        lemma_count_split(s, 0, lo + 1, hi, id);
        lemma_count_at(s, 0, lo + 1, lo, id);
        lemma_count_at(s, hi, s.len() as int, hi, id);
        lemma_count_nonneg(s, lo + 1, hi, id);
    }
}

/// `j` closes the element opened at `i`: the depth returns to its value
/// before `i` for the first time.
pub open spec fn is_match(s: Seq<Token>, i: int, j: int) -> bool {
    &&& 0 <= i < j < s.len()
    &&& s[i] is Open
    &&& s[j] is Close
    &&& depth(s, j + 1) == depth(s, i)
    &&& forall|m: int| i < m <= j ==> #[trigger] depth(s, m) > depth(s, i)
}

/// The index of the closing token that matches the opening token at `i`.
pub open spec fn match_index(s: Seq<Token>, i: int) -> int {
    choose|j: int| is_match(s, i, j)
}

pub proof fn lemma_match_unique(s: Seq<Token>, i: int, j1: int, j2: int)
    requires
        is_match(s, i, j1),
        is_match(s, i, j2),
    ensures
        j1 == j2,
{
    if j1 < j2 {
        assert(depth(s, j1 + 1) > depth(s, i));
    }
    if j2 < j1 {
        assert(depth(s, j2 + 1) > depth(s, i));
    }
}

pub proof fn lemma_depth_subrange(s: Seq<Token>, a: int, b: int, m: int)
    requires
        0 <= a <= b <= s.len(),
        0 <= m <= b - a,
    ensures
        depth(s.subrange(a, b), m) == depth_range(s, a, a + m),
{
    lemma_depth_congruent(s.subrange(a, b), s, 0, m, a);
}

pub proof fn lemma_count_subrange(s: Seq<Token>, a: int, b: int, id: u64)
    requires
        0 <= a <= b <= s.len(),
    ensures
        count_id(s.subrange(a, b), id) == count_range(s, a, b, id),
{
    lemma_count_congruent(s.subrange(a, b), s, 0, b - a, a, id);
}

/// Counts add up across a concatenation.
pub proof fn lemma_count_concat(x: Seq<Token>, y: Seq<Token>, id: u64)
    ensures
        count_id(x + y, id) == count_id(x, id) + count_id(y, id),
{
    let s = x + y;
    lemma_count_split(s, 0, x.len() as int, s.len() as int, id);
    lemma_count_congruent(x, s, 0, x.len() as int, 0, id);
    lemma_count_congruent(y, s, 0, y.len() as int, x.len() as int, id);
}

/// A stretch whose endpoints sit at equal depth, never dipping below it, is
/// itself balanced.
pub proof fn lemma_span_balanced(s: Seq<Token>, a: int, b: int)
    requires
        0 <= a <= b <= s.len(),
        depth(s, a) == depth(s, b),
        forall|m: int| a <= m <= b ==> #[trigger] depth(s, m) >= depth(s, a),
    ensures
        balanced(s.subrange(a, b)),
{
    let t = s.subrange(a, b);
    assert forall|m: int| 0 <= m <= t.len() implies #[trigger] depth(t, m) >= 0 by {
        lemma_depth_subrange(s, a, b, m);
        lemma_depth_split(s, 0, a, a + m);
        assert(depth(s, a + m) >= depth(s, a));
    }
    lemma_depth_subrange(s, a, b, b - a);
    lemma_depth_split(s, 0, a, b);
}

/// Cutting a stretch whose endpoints sit at equal depth keeps the rest
/// balanced.
pub proof fn lemma_remove_span_balanced(s: Seq<Token>, a: int, b: int)
    requires
        balanced(s),
        0 <= a <= b <= s.len(),
        depth(s, a) == depth(s, b),
    ensures
        balanced(s.subrange(0, a) + s.subrange(b, s.len() as int)),
{
    let r = s.subrange(0, a) + s.subrange(b, s.len() as int);
    assert forall|m: int| 0 <= m <= r.len() implies #[trigger] depth(r, m) >= 0 && (m == r.len()
        ==> depth(r, m) == 0) by {
        if m <= a {
            lemma_depth_congruent(r, s, 0, m, 0);
            assert(depth(s, m) >= 0);
        } else {
            lemma_depth_split(r, 0, a, m);
            lemma_depth_congruent(r, s, 0, a, 0);
            lemma_depth_congruent(r, s, a, m, b - a);
            lemma_depth_split(s, 0, b, m + (b - a));
            lemma_depth_split(s, 0, a, b);
            assert(depth(r, m) == depth(s, m + (b - a)));
        }
    }
}

/// Splicing a balanced stretch into a balanced sequence keeps it balanced.
pub proof fn lemma_insert_span_balanced(s: Seq<Token>, t: Seq<Token>, q: int)
    requires
        balanced(s),
        balanced(t),
        0 <= q <= s.len(),
    ensures
        balanced(s.subrange(0, q) + t + s.subrange(q, s.len() as int)),
{
    let r = s.subrange(0, q) + t + s.subrange(q, s.len() as int);
    assert forall|m: int| 0 <= m <= r.len() implies #[trigger] depth(r, m) >= 0 && (m == r.len()
        ==> depth(r, m) == 0) by {
        if m <= q {
            lemma_depth_congruent(r, s, 0, m, 0);
            assert(depth(s, m) >= 0);
        } else if m <= q + t.len() {
            lemma_depth_split(r, 0, q, m);
            lemma_depth_congruent(r, s, 0, q, 0);
            lemma_depth_congruent(r, t, q, m, -q);
            assert(depth_range(r, q, m) == depth_range(t, 0, m - q));
            assert(depth(t, m - q) >= 0);
            assert(depth(s, q) >= 0);
        } else {
            lemma_depth_split(r, 0, q, q + t.len() as int);
            lemma_depth_split(r, 0, q + t.len() as int, m);
            lemma_depth_congruent(r, s, 0, q, 0);
            lemma_depth_congruent(r, t, q, q + t.len() as int, -q);
            lemma_depth_congruent(r, s, q + t.len() as int, m, -(t.len() as int));
            lemma_depth_split(s, 0, q, m - t.len() as int);
            assert(depth(r, m) == depth(s, m - t.len() as int));
        }
    }
}

fn tok_open_id(t: &Token) -> (r: Option<u64>)
    ensures
        match r {
            Some(id) => is_open_id(*t, id) && t is Open,
            None => !(t is Open),
        },
{
    match t {
        Token::Open { id, .. } => Some(*id),
        _ => None,
    }
}

/// Index of the opening token with handle `id`, scanning from the front.
pub fn find_open(v: &Vec<Token>, id: u64) -> (r: Option<usize>)
    ensures
        match r {
            Some(i) => i < v.len() && is_open_id(v@[i as int], id),
            None => !has_open(v@, id),
        },
{
    let mut i: usize = 0;
    while i < v.len()
        invariant
            0 <= i <= v.len(),
            forall|m: int| 0 <= m < i ==> !is_open_id(#[trigger] v@[m], id),
        decreases v.len() - i,
    {
        match tok_open_id(&v[i]) {
            Some(tid) => {
                if tid == id {
                    return Some(i);
                }
            },
            None => {},
        }
        i += 1;
    }
    None
}

/// Index of the matching closing token for the opening token at `i`.
pub fn find_close(v: &Vec<Token>, i: usize) -> (j: usize)
    requires
        balanced(v@),
        i < v.len(),
        v@[i as int] is Open,
    ensures
        is_match(v@, i as int, j as int),
        i < j < v.len(),
{
    let mut k: usize = i + 1;
    let mut d: usize = 1;
    while k < v.len()
        invariant
            balanced(v@),
            i < v.len(),
            v@[i as int] is Open,
            i < k <= v.len(),
            1 <= d,
            d as int == depth(v@, k as int) - depth(v@, i as int),
            d as int <= k - i,
            forall|m: int| i < m <= k ==> #[trigger] depth(v@, m) > depth(v@, i as int),
        decreases v.len() - k,
    {
        let is_close = match &v[k] {
            Token::Open { .. } => {
                d += 1;
                false
            },
            Token::Close { .. } => true,
            Token::Text { .. } => false,
        };
        if is_close {
            if d == 1 {
                return k;
            }
            d -= 1;
        }
        k += 1;
    }
    proof {
        assert(depth(v@, v@.len() as int) == 0);
        assert(depth(v@, i as int) >= 0);
        assert(false);
    }
    unreached()
}

/// Removal of every attribute named `name`, preserving the order of the
/// rest.
pub open spec fn attrs_remove_spec(a: Seq<(String, String)>, name: Seq<char>) -> Seq<
    (String, String),
>
    decreases a.len(),
{
    if a.len() == 0 {
        a
    } else {
        let rest = attrs_remove_spec(a.drop_last(), name);
        if a.last().0@ == name {
            rest
        } else {
            rest.push(a.last())
        }
    }
}

/// Value of the first attribute named `name`.
pub open spec fn attr_lookup(a: Seq<(String, String)>, name: Seq<char>) -> Option<Seq<char>>
    decreases a.len(),
{
    if a.len() == 0 {
        None
    } else if a[0].0@ == name {
        Some(a[0].1@)
    } else {
        attr_lookup(a.drop_first(), name)
    }
}

fn attrs_remove(a: &Vec<(String, String)>, name: &Vec<char>) -> (r: Vec<(String, String)>)
    ensures
        r@ == attrs_remove_spec(a@, name@),
{
    let mut r: Vec<(String, String)> = Vec::new();
    let mut i: usize = 0;
    while i < a.len()
        invariant
            0 <= i <= a.len(),
            r@ == attrs_remove_spec(a@.take(i as int), name@),
        decreases a.len() - i,
    {
        let keep = {
            let key = crate::strutil::to_chars(a[i].0.as_str());
            !crate::strutil::chars_eq(&key, name)
        };
        proof {
            assert(a@.take(i + 1).drop_last() =~= a@.take(i as int));
            assert(a@.take(i + 1).last() == a@[i as int]);
        }
        if keep {
            let pair = (a[i].0.clone(), a[i].1.clone());
            proof {
                assert(pair == a@[i as int]);
            }
            r.push(pair);
        }
        i += 1;
    }
    proof {
        assert(a@.take(a@.len() as int) =~= a@);
    }
    r
}

/// One parse tree, plus the pool of subtrees detached from it.
pub struct Dom {
    toks: Vec<Token>,
    pool: Vec<Token>,
    next_id: u64,
}

impl Dom {
    /// The document: a balanced token sequence.
    pub closed spec fn doc(&self) -> Seq<Token> {
        self.toks@
    }

    /// Subtrees detached by earlier operations, each still addressable.
    pub closed spec fn detached(&self) -> Seq<Token> {
        self.pool@
    }

    /// Every handle ever issued is below this bound.
    pub closed spec fn id_bound(&self) -> u64 {
        self.next_id
    }

    pub closed spec fn wf(&self) -> bool {
        &&& balanced(self.toks@)
        &&& balanced(self.pool@)
        &&& forall|id: u64|
            #![trigger count_id(self.toks@, id)]
            #![trigger count_id(self.pool@, id)]
            count_id(self.toks@, id) + count_id(self.pool@, id) <= 1
        &&& forall|id: u64|
            #![trigger has_open(self.toks@, id)]
            #![trigger has_open(self.pool@, id)]
            (has_open(self.toks@, id) || has_open(self.pool@, id)) ==> id < self.next_id
    }

    /// A fresh document holding one empty root element with handle 0.
    pub fn new_fragment(root_name: &str) -> (d: Dom)
        ensures
            d.wf(),
            d.doc().len() == 2,
            is_open_id(d.doc()[0], 0),
            d.doc()[0]->Open_name@ == root_name@,
            d.doc()[0]->Open_attrs@ =~= Seq::<(String, String)>::empty(),
            d.doc()[1] is Close,
            d.detached() =~= Seq::<Token>::empty(),
            has_open(d.doc(), 0),
    {
        let mut toks: Vec<Token> = Vec::new();
        toks.push(Token::Open { id: 0, name: root_name.to_owned(), attrs: Vec::new() });
        toks.push(Token::Close { name: root_name.to_owned() });
        let d = Dom { toks, pool: Vec::new(), next_id: 1 };
        proof {
            let s = d.toks@;
            assert(depth_range(s, 0, 0) == 0);
            assert(depth_range(s, 0, 1) == 1);
            assert(depth_range(s, 0, 2) == 0);
            assert forall|n: int| 0 <= n <= s.len() implies #[trigger] depth(s, n) >= 0 by {
                assert(n == 0 || n == 1 || n == 2);
            }
            assert forall|id: u64| #[trigger] count_id(s, id) + count_id(d.pool@, id) <= 1 by {
                assert(count_range(s, 0, 0, id) == 0);
                assert(count_range(s, 0, 1, id) == if id == 0 {
                    1int
                } else {
                    0int
                });
                assert(count_range(s, 0, 2, id) == count_range(s, 0, 1, id));
                assert(count_range(d.pool@, 0, 0, id) == 0);
            }
            assert forall|id: u64| #![auto] (has_open(s, id) || has_open(d.pool@, id))
                implies id < d.next_id by {
                if has_open(s, id) {
                    let k = choose|k: int| 0 <= k < s.len() && is_open_id(#[trigger] s[k], id);
                    assert(k == 0 || k == 1);
                }
            }
            assert(is_open_id(s[0], 0));
        }
        d
    }
}

pub proof fn lemma_depth_update(s: Seq<Token>, i: int, t: Token, a: int, b: int)
    requires
        0 <= i < s.len(),
        delta(t) == delta(s[i]),
        0 <= a <= b <= s.len(),
    ensures
        depth_range(s.update(i, t), a, b) == depth_range(s, a, b),
    decreases b - a,
{
    if b > a {
        lemma_depth_update(s, i, t, a, b - 1);
    }
}

pub proof fn lemma_count_update(s: Seq<Token>, i: int, t: Token, id: u64, a: int, b: int)
    requires
        0 <= i < s.len(),
        is_open_id(t, id) == is_open_id(s[i], id),
        0 <= a <= b <= s.len(),
    ensures
        count_range(s.update(i, t), a, b, id) == count_range(s, a, b, id),
    decreases b - a,
{
    if b > a {
        lemma_count_update(s, i, t, id, a, b - 1);
    }
}

/// Replacing a token by one of the same shape (same depth delta, opening
/// the same handle if any) preserves balance, counts and presence.
pub proof fn lemma_update_same_shape(s: Seq<Token>, i: int, t: Token)
    requires
        0 <= i < s.len(),
        balanced(s),
        delta(t) == delta(s[i]),
        forall|x: u64| is_open_id(t, x) == is_open_id(s[i], x),
    ensures
        balanced(s.update(i, t)),
        forall|x: u64| #[trigger] count_id(s.update(i, t), x) == count_id(s, x),
        forall|x: u64| #[trigger] has_open(s.update(i, t), x) == has_open(s, x),
{
    let s2 = s.update(i, t);
    assert forall|n: int| 0 <= n <= s2.len() implies #[trigger] depth(s2, n) == depth(s, n) by {
        lemma_depth_update(s, i, t, 0, n);
    }
    assert(depth(s2, s2.len() as int) == 0);
    assert forall|x: u64| #[trigger] count_id(s2, x) == count_id(s, x) by {
        lemma_count_update(s, i, t, x, 0, s.len() as int);
    }
    assert forall|x: u64| #[trigger] has_open(s2, x) == has_open(s, x) by {
        if has_open(s2, x) {
            let k = choose|k: int| 0 <= k < s2.len() && is_open_id(#[trigger] s2[k], x);
            assert(is_open_id(s[k], x));
        }
        if has_open(s, x) {
            let k = choose|k: int| 0 <= k < s.len() && is_open_id(#[trigger] s[k], x);
            assert(is_open_id(s2[k], x));
        }
    }
}

/// First index whose attribute name reads `name`.
pub open spec fn attr_find(a: Seq<(String, String)>, name: Seq<char>) -> Option<int>
    decreases a.len(),
{
    if a.len() == 0 {
        None
    } else if a[0].0@ == name {
        Some(0)
    } else {
        match attr_find(a.drop_first(), name) {
            Some(i) => Some(i + 1),
            None => None,
        }
    }
}

pub proof fn lemma_attr_find(a: Seq<(String, String)>, name: Seq<char>)
    ensures
        match attr_find(a, name) {
            Some(i) => 0 <= i < a.len() && a[i].0@ == name,
            None => forall|m: int| 0 <= m < a.len() ==> a[m].0@ != name,
        },
    decreases a.len(),
{
    if a.len() > 0 && a[0].0@ != name {
        lemma_attr_find(a.drop_first(), name);
        let t = a.drop_first();
        match attr_find(t, name) {
            Some(i) => {
                assert(t[i] == a[i + 1]);
            },
            None => {
                assert forall|m: int| 0 <= m < a.len() implies a[m].0@ != name by {
                    if m > 0 {
                        assert(t[m - 1] == a[m]);
                    }
                }
            },
        }
    }
}

/// How setting an attribute rewrites the attribute list: the first
/// occurrence is replaced in place, or the pair is appended.
pub open spec fn attrs_set_rel(
    a: Seq<(String, String)>,
    name: Seq<char>,
    value: Seq<char>,
    r: Seq<(String, String)>,
) -> bool {
    match attr_find(a, name) {
        Some(k) => {
            &&& r.len() == a.len()
            &&& r[k].0@ == name
            &&& r[k].1@ == value
            &&& forall|m: int| 0 <= m < a.len() && m != k ==> r[m] == a[m]
        },
        None => {
            &&& r.len() == a.len() + 1
            &&& forall|m: int| 0 <= m < a.len() ==> r[m] == a[m]
            &&& r[a.len() as int].0@ == name
            &&& r[a.len() as int].1@ == value
        },
    }
}

fn attr_position(a: &Vec<(String, String)>, name: &Vec<char>) -> (r: Option<usize>)
    ensures
        match r {
            Some(i) => attr_find(a@, name@) == Some(i as int) && i < a.len(),
            None => attr_find(a@, name@) is None,
        },
{
    proof {
        assert(a@.skip(0) =~= a@);
    }
    let mut i: usize = 0;
    while i < a.len()
        invariant
            0 <= i <= a.len(),
            attr_find(a@, name@) == match attr_find(a@.skip(i as int), name@) {
                Some(k) => Some(k + i),
                None => None,
            },
        decreases a.len() - i,
    {
        let key = crate::strutil::to_chars(a[i].0.as_str());
        proof {
            assert(a@.skip(i as int)[0] == a@[i as int]);
            assert(a@.skip(i as int).drop_first() =~= a@.skip(i + 1));
        }
        if crate::strutil::chars_eq(&key, name) {
            return Some(i);
        }
        i += 1;
    }
    proof {
        assert(a@.skip(a@.len() as int) =~= Seq::<(String, String)>::empty());
    }
    None
}

fn attrs_set(a: Vec<(String, String)>, name: &str, value: &str) -> (r: Vec<(String, String)>)
    ensures
        attrs_set_rel(a@, name@, value@, r@),
{
    let name_chars = crate::strutil::to_chars(name);
    let mut a = a;
    match attr_position(&a, &name_chars) {
        Some(k) => {
            let pair = (name.to_owned(), value.to_owned());
            a[k] = pair;
            a
        },
        None => {
            a.push((name.to_owned(), value.to_owned()));
            a
        },
    }
}

/// Moves `v[a..b]` to the end of `w`, preserving order.
fn move_span(v: &mut Vec<Token>, w: &mut Vec<Token>, a: usize, b: usize)
    requires
        a <= b <= old(v).len(),
    ensures
        final(v)@ == old(v)@.subrange(0, a as int) + old(v)@.subrange(
            b as int,
            old(v)@.len() as int,
        ),
        final(w)@ == old(w)@ + old(v)@.subrange(a as int, b as int),
{
    let ghost v0 = v@;
    let ghost w0 = w@;
    let mut k: usize = 0;
    let n = b - a;
    while k < n
        invariant
            a + n <= v0.len(),
            n == b - a,
            0 <= k <= n,
            v@ =~= v0.subrange(0, a as int) + v0.subrange(a + k, v0.len() as int),
            w@ =~= w0 + v0.subrange(a as int, a + k),
        decreases n - k,
    {
        let t = v.remove(a);
        proof {
            assert(v0.subrange(0, a as int).len() == a as int);
            assert(t == v0[a + k]);
        }
        w.push(t);
        proof {
            assert((w0 + v0.subrange(a as int, a + k)).push(v0[a + k]) =~= w0 + v0.subrange(
                a as int,
                a + k + 1,
            ));
        }
        k += 1;
        proof {
            assert((v0.subrange(0, a as int) + v0.subrange(a + k - 1, v0.len() as int)).remove(
                a as int,
            ) =~= v0.subrange(0, a as int) + v0.subrange(a + k, v0.len() as int));
        }
    }
    proof {
        assert(v@ =~= v0.subrange(0, a as int) + v0.subrange(b as int, v0.len() as int));
        assert(w@ =~= w0 + v0.subrange(a as int, b as int));
    }
}

/// Drains `src` into `v` at position `p`, preserving order.
fn insert_span(v: &mut Vec<Token>, src: Vec<Token>, p: usize)
    requires
        p <= old(v).len(),
    ensures
        final(v)@ == old(v)@.subrange(0, p as int) + src@ + old(v)@.subrange(
            p as int,
            old(v)@.len() as int,
        ),
{
    let ghost v0 = v@;
    let ghost s0 = src@;
    let mut src = src;
    while src.len() > 0
        invariant
            p <= v0.len(),
            src@.len() <= s0.len(),
            src@ =~= s0.subrange(0, src@.len() as int),
            v@ =~= v0.subrange(0, p as int) + s0.subrange(src@.len() as int, s0.len() as int)
                + v0.subrange(p as int, v0.len() as int),
        decreases src.len(),
    {
        let ghost n = src@.len() as int;
        let t = match src.pop() {
            Some(t) => t,
            None => unreached(),
        };
        proof {
            assert(t == s0[n - 1]);
            assert(src@ =~= s0.subrange(0, n - 1));
        }
        v.insert(p, t);
        proof {
            assert((v0.subrange(0, p as int) + s0.subrange(n, s0.len() as int) + v0.subrange(
                p as int,
                v0.len() as int,
            )).insert(p as int, s0[n - 1]) =~= v0.subrange(0, p as int) + s0.subrange(
                n - 1,
                s0.len() as int,
            ) + v0.subrange(p as int, v0.len() as int));
        }
    }
    proof {
        assert(s0.subrange(0, s0.len() as int) =~= s0);
        assert(v@ =~= v0.subrange(0, p as int) + s0 + v0.subrange(p as int, v0.len() as int));
    }
}

/// `s1` is `s0` with the attribute list of the opening token at `i`
/// rewritten to `a1`, everything else unchanged.
pub open spec fn edited_attrs_at(s0: Seq<Token>, s1: Seq<Token>, i: int) -> bool {
    &&& 0 <= i < s0.len()
    &&& s1.len() == s0.len()
    &&& (forall|m: int| 0 <= m < s0.len() && m != i ==> s1[m] == s0[m])
    &&& s0[i] is Open
    &&& s1[i] is Open
    &&& s1[i]->Open_id == s0[i]->Open_id
    &&& s1[i]->Open_name == s0[i]->Open_name
}

/// Effect of removing attribute `name` on the element `id`: a rewrite in
/// the document if the element stands there, else in the pool, else no-op.
pub open spec fn remove_attribute_rel(
    doc0: Seq<Token>,
    pool0: Seq<Token>,
    doc1: Seq<Token>,
    pool1: Seq<Token>,
    id: u64,
    name: Seq<char>,
) -> bool {
    if has_open(doc0, id) {
        let i = open_index(doc0, id);
        &&& pool1 == pool0
        &&& edited_attrs_at(doc0, doc1, i)
        &&& doc1[i]->Open_attrs@ == attrs_remove_spec(doc0[i]->Open_attrs@, name)
    } else if has_open(pool0, id) {
        let i = open_index(pool0, id);
        &&& doc1 == doc0
        &&& edited_attrs_at(pool0, pool1, i)
        &&& pool1[i]->Open_attrs@ == attrs_remove_spec(pool0[i]->Open_attrs@, name)
    } else {
        doc1 == doc0 && pool1 == pool0
    }
}

/// Effect of setting attribute `name` to `value` on the element `id`.
pub open spec fn set_attribute_rel(
    doc0: Seq<Token>,
    pool0: Seq<Token>,
    doc1: Seq<Token>,
    pool1: Seq<Token>,
    id: u64,
    name: Seq<char>,
    value: Seq<char>,
) -> bool {
    if has_open(doc0, id) {
        let i = open_index(doc0, id);
        &&& pool1 == pool0
        &&& edited_attrs_at(doc0, doc1, i)
        &&& attrs_set_rel(doc0[i]->Open_attrs@, name, value, doc1[i]->Open_attrs@)
    } else if has_open(pool0, id) {
        let i = open_index(pool0, id);
        &&& doc1 == doc0
        &&& edited_attrs_at(pool0, pool1, i)
        &&& attrs_set_rel(pool0[i]->Open_attrs@, name, value, pool1[i]->Open_attrs@)
    } else {
        doc1 == doc0 && pool1 == pool0
    }
}

/// The value of the first attribute named `name`, copied out.
pub fn attr_value(a: &Vec<(String, String)>, name: &Vec<char>) -> (r: Option<Vec<char>>)
    ensures
        match r {
            Some(v) => attr_lookup(a@, name@) == Some(v@),
            None => attr_lookup(a@, name@) is None,
        },
{
    proof {
        assert(a@.skip(0) =~= a@);
    }
    let mut i: usize = 0;
    while i < a.len()
        invariant
            0 <= i <= a.len(),
            attr_lookup(a@, name@) == attr_lookup(a@.skip(i as int), name@),
        decreases a.len() - i,
    {
        let key = crate::strutil::to_chars(a[i].0.as_str());
        proof {
            assert(a@.skip(i as int)[0] == a@[i as int]);
            assert(a@.skip(i as int).drop_first() =~= a@.skip(i + 1));
        }
        if crate::strutil::chars_eq(&key, name) {
            let value = crate::strutil::to_chars(a[i].1.as_str());
            return Some(value);
        }
        i += 1;
    }
    proof {
        assert(a@.skip(a@.len() as int) =~= Seq::<(String, String)>::empty());
    }
    None
}

pub proof fn lemma_balanced_concat(x: Seq<Token>, y: Seq<Token>)
    requires
        balanced(x),
        balanced(y),
    ensures
        balanced(x + y),
{
    lemma_insert_span_balanced(x, y, x.len() as int);
    assert(x.subrange(0, x.len() as int) =~= x);
    assert(x.subrange(x.len() as int, x.len() as int) =~= Seq::<Token>::empty());
    assert(x.subrange(0, x.len() as int) + y + x.subrange(x.len() as int, x.len() as int) =~= x
        + y);
}

pub proof fn lemma_has_concat(x: Seq<Token>, y: Seq<Token>, id: u64)
    ensures
        has_open(x + y, id) == (has_open(x, id) || has_open(y, id)),
{
    let s = x + y;
    if has_open(s, id) {
        let k = choose|k: int| 0 <= k < s.len() && is_open_id(#[trigger] s[k], id);
        if k < x.len() {
            assert(is_open_id(x[k], id));
        } else {
            assert(is_open_id(y[k - x.len()], id));
        }
    }
    if has_open(x, id) {
        let k = choose|k: int| 0 <= k < x.len() && is_open_id(#[trigger] x[k], id);
        assert(is_open_id(s[k], id));
    }
    if has_open(y, id) {
        let k = choose|k: int| 0 <= k < y.len() && is_open_id(#[trigger] y[k], id);
        assert(is_open_id(s[x.len() + k], id));
    }
}

pub proof fn lemma_has_subrange(s: Seq<Token>, a: int, b: int, id: u64)
    requires
        0 <= a <= b <= s.len(),
    ensures
        has_open(s.subrange(a, b), id) ==> has_open(s, id),
{
    if has_open(s.subrange(a, b), id) {
        let t = s.subrange(a, b);
        let k = choose|k: int| 0 <= k < t.len() && is_open_id(#[trigger] t[k], id);
        assert(is_open_id(s[a + k], id));
    }
}

pub proof fn lemma_match_is(s: Seq<Token>, i: int, j: int)
    requires
        is_match(s, i, j),
    ensures
        match_index(s, i) == j,
{
    assert(exists|jj: int| is_match(s, i, jj));
    let j0 = match_index(s, i);
    assert(is_match(s, i, j0));
    lemma_match_unique(s, i, j0, j);
}

/// Effect of removing the children of the element with handle `id`: the
/// content between its opening and closing tokens moves to the pool.
pub open spec fn remove_children_rel(
    doc0: Seq<Token>,
    pool0: Seq<Token>,
    doc1: Seq<Token>,
    pool1: Seq<Token>,
    id: u64,
) -> bool {
    if has_open(doc0, id) {
        let i = open_index(doc0, id);
        let j = match_index(doc0, i);
        &&& is_match(doc0, i, j)
        &&& doc1 == doc0.subrange(0, i + 1) + doc0.subrange(j, doc0.len() as int)
        &&& pool1 == pool0 + doc0.subrange(i + 1, j)
    } else {
        doc1 == doc0 && pool1 == pool0
    }
}

/// Effect of dissolving the element with handle `id`: its children keep
/// its former position and order; the element itself leaves the document.
pub open spec fn dissolve_rel(
    doc0: Seq<Token>,
    pool0: Seq<Token>,
    doc1: Seq<Token>,
    pool1: Seq<Token>,
    id: u64,
) -> bool {
    if has_open(doc0, id) {
        let i = open_index(doc0, id);
        let j = match_index(doc0, i);
        &&& is_match(doc0, i, j)
        &&& doc1 == doc0.subrange(0, i) + doc0.subrange(i + 1, j) + doc0.subrange(
            j + 1,
            doc0.len() as int,
        )
        &&& pool1 == pool0 + seq![doc0[i], doc0[j]]
        &&& !has_open(doc1, id)
    } else {
        doc1 == doc0 && pool1 == pool0
    }
}

/// Effect of replacing the element with handle `id` by the text `text`:
/// the whole subtree leaves the document and the text takes its position
/// among its siblings.
pub open spec fn replace_rel(
    doc0: Seq<Token>,
    pool0: Seq<Token>,
    doc1: Seq<Token>,
    pool1: Seq<Token>,
    id: u64,
    text: String,
) -> bool {
    if has_open(doc0, id) {
        let i = open_index(doc0, id);
        let j = match_index(doc0, i);
        &&& is_match(doc0, i, j)
        &&& doc1 == doc0.subrange(0, i) + seq![Token::Text { text }] + doc0.subrange(
            j + 1,
            doc0.len() as int,
        )
        &&& pool1 == pool0 + doc0.subrange(i, j + 1)
        &&& !has_open(doc1, id)
    } else {
        doc1 == doc0 && pool1 == pool0
    }
}

/// Effect of appending the element `child_id` as the last child of the
/// element `parent_id`: the child's subtree moves, from wherever it stands
/// (document or pool), to just before the parent's closing token.  A
/// handle that cannot be found, or a parent inside the child's own
/// subtree, leaves the tree unchanged.
pub open spec fn append_child_rel(
    doc0: Seq<Token>,
    pool0: Seq<Token>,
    doc1: Seq<Token>,
    pool1: Seq<Token>,
    parent_id: u64,
    child_id: u64,
) -> bool {
    if !has_open(doc0, parent_id) {
        doc1 == doc0 && pool1 == pool0
    } else {
        let p = open_index(doc0, parent_id);
        let pc = match_index(doc0, p);
        if has_open(doc0, child_id) {
            let c = open_index(doc0, child_id);
            let cc = match_index(doc0, c);
            if cc < p || (p < c && cc < pc) {
                &&& is_match(doc0, p, pc)
                &&& is_match(doc0, c, cc)
                &&& doc1 == doc0.subrange(0, c) + doc0.subrange(cc + 1, pc) + doc0.subrange(
                    c,
                    cc + 1,
                ) + doc0.subrange(pc, doc0.len() as int)
                &&& pool1 == pool0
            } else if pc < c {
                &&& is_match(doc0, p, pc)
                &&& is_match(doc0, c, cc)
                &&& doc1 == doc0.subrange(0, pc) + doc0.subrange(c, cc + 1) + doc0.subrange(
                    pc,
                    c,
                ) + doc0.subrange(cc + 1, doc0.len() as int)
                &&& pool1 == pool0
            } else {
                doc1 == doc0 && pool1 == pool0
            }
        } else if has_open(pool0, child_id) {
            let c = open_index(pool0, child_id);
            let cc = match_index(pool0, c);
            &&& is_match(doc0, p, pc)
            &&& is_match(pool0, c, cc)
            &&& doc1 == doc0.subrange(0, pc) + pool0.subrange(c, cc + 1) + doc0.subrange(
                pc,
                doc0.len() as int,
            )
            &&& pool1 == pool0.subrange(0, c) + pool0.subrange(cc + 1, pool0.len() as int)
        } else {
            doc1 == doc0 && pool1 == pool0
        }
    }
}

/// One scheduled edit of the tree, addressed by element handles.
pub enum DomOperation {
    /// Removes the attribute `attr_name` of element `node_id`.
    RemoveAttribute { node_id: u64, attr_name: String },
    /// Sets the attribute `attr_name` of element `node_id` to `value`.
    SetAttribute { node_id: u64, attr_name: String, value: String },
    /// Detaches all children of element `node_id`.
    RemoveChildren { node_id: u64 },
    /// Moves element `child_id` to be the last child of `parent_id`.
    AppendChild { parent_id: u64, child_id: u64 },
    /// Removes element `node_id` and puts `replacement` text in its place.
    ReplaceElement { node_id: u64, replacement: String },
    /// Replaces element `node_id` by its children, keeping their order.
    DissolveElement { node_id: u64 },
}

/// What one operation does to a document and its pool.
pub open spec fn op_applied(
    op: DomOperation,
    doc0: Seq<Token>,
    pool0: Seq<Token>,
    doc1: Seq<Token>,
    pool1: Seq<Token>,
) -> bool {
    match op {
        DomOperation::RemoveAttribute { node_id, attr_name } => remove_attribute_rel(
            doc0,
            pool0,
            doc1,
            pool1,
            node_id,
            attr_name@,
        ),
        DomOperation::SetAttribute { node_id, attr_name, value } => set_attribute_rel(
            doc0,
            pool0,
            doc1,
            pool1,
            node_id,
            attr_name@,
            value@,
        ),
        DomOperation::RemoveChildren { node_id } => remove_children_rel(
            doc0,
            pool0,
            doc1,
            pool1,
            node_id,
        ),
        DomOperation::AppendChild { parent_id, child_id } => append_child_rel(
            doc0,
            pool0,
            doc1,
            pool1,
            parent_id,
            child_id,
        ),
        DomOperation::ReplaceElement { node_id, replacement } => replace_rel(
            doc0,
            pool0,
            doc1,
            pool1,
            node_id,
            replacement,
        ),
        DomOperation::DissolveElement { node_id } => dissolve_rel(
            doc0,
            pool0,
            doc1,
            pool1,
            node_id,
        ),
    }
}

/// What a batch does: the operations apply strictly in submission order.
pub open spec fn ops_applied(
    ops: Seq<DomOperation>,
    doc0: Seq<Token>,
    pool0: Seq<Token>,
    doc1: Seq<Token>,
    pool1: Seq<Token>,
) -> bool
    decreases ops.len(),
{
    if ops.len() == 0 {
        doc1 == doc0 && pool1 == pool0
    } else {
        exists|dm: Seq<Token>, pm: Seq<Token>|
            #![auto]
            ops_applied(ops.drop_last(), doc0, pool0, dm, pm) && op_applied(
                ops.last(),
                dm,
                pm,
                doc1,
                pool1,
            )
    }
}

pub proof fn lemma_count_zero_range(s: Seq<Token>, a: int, b: int, id: u64)
    requires
        forall|k: int| a <= k < b ==> !is_open_id(#[trigger] s[k], id),
    ensures
        count_range(s, a, b, id) == 0,
    decreases b - a,
{
    if b > a {
        lemma_count_zero_range(s, a, b - 1, id);
    }
}

fn remove_attr_in(v: &mut Vec<Token>, i: usize, name: &Vec<char>)
    requires
        i < old(v).len(),
        old(v)@[i as int] is Open,
        balanced(old(v)@),
    ensures
        edited_attrs_at(old(v)@, final(v)@, i as int),
        final(v)@[i as int]->Open_attrs@ == attrs_remove_spec(
            old(v)@[i as int]->Open_attrs@,
            name@,
        ),
        balanced(final(v)@),
        forall|x: u64| #[trigger] count_id(final(v)@, x) == count_id(old(v)@, x),
        forall|x: u64| #[trigger] has_open(final(v)@, x) == has_open(old(v)@, x),
{
    let ghost v0 = v@;
    let tok = v.remove(i);
    match tok {
        Token::Open { id, name: nm, attrs } => {
            let na = attrs_remove(&attrs, name);
            let newtok = Token::Open { id, name: nm, attrs: na };
            v.insert(i, newtok);
            proof {
                assert(v@ =~= v0.update(i as int, v@[i as int]));
                lemma_update_same_shape(v0, i as int, v@[i as int]);
            }
        },
        _ => unreached(),
    }
}

fn set_attr_in(v: &mut Vec<Token>, i: usize, name: &str, value: &str)
    requires
        i < old(v).len(),
        old(v)@[i as int] is Open,
        balanced(old(v)@),
    ensures
        edited_attrs_at(old(v)@, final(v)@, i as int),
        attrs_set_rel(
            old(v)@[i as int]->Open_attrs@,
            name@,
            value@,
            final(v)@[i as int]->Open_attrs@,
        ),
        balanced(final(v)@),
        forall|x: u64| #[trigger] count_id(final(v)@, x) == count_id(old(v)@, x),
        forall|x: u64| #[trigger] has_open(final(v)@, x) == has_open(old(v)@, x),
{
    let ghost v0 = v@;
    let tok = v.remove(i);
    match tok {
        Token::Open { id, name: nm, attrs } => {
            let na = attrs_set(attrs, name, value);
            let newtok = Token::Open { id, name: nm, attrs: na };
            v.insert(i, newtok);
            proof {
                assert(v@ =~= v0.update(i as int, v@[i as int]));
                lemma_update_same_shape(v0, i as int, v@[i as int]);
            }
        },
        _ => unreached(),
    }
}

impl Dom {
    /// The unique position of `id`'s opening token agrees with what a scan
    /// finds.
    proof fn lemma_found_is_open_index(s: Seq<Token>, other: Seq<Token>, i: int, id: u64)
        requires
            forall|x: u64|
                #![trigger count_id(s, x)]
                count_id(s, x) + count_id(other, x) <= 1,
            0 <= i < s.len(),
            is_open_id(s[i], id),
        ensures
            open_index(s, id) == i,
            has_open(s, id),
    {
        assert(has_open(s, id));
        let k = open_index(s, id);
        lemma_count_nonneg(other, 0, other.len() as int, id);
        lemma_open_unique(s, k, i, id);
    }

    /// In a well-formed document an opening token pins down `open_index`.
    pub proof fn lemma_open_index_is(&self, pos: int, id: u64)
        requires
            self.wf(),
            0 <= pos < self.doc().len(),
            is_open_id(self.doc()[pos], id),
        ensures
            open_index(self.doc(), id) == pos,
            has_open(self.doc(), id),
    {
        assert(has_open(self.doc(), id));
        let k = open_index(self.doc(), id);
        assert(is_open_id(self.doc()[k], id));
        lemma_count_nonneg(self.pool@, 0, self.pool@.len() as int, id);
        lemma_open_unique(self.toks@, k, pos, id);
    }

    /// Removes attribute `name` from the element with handle `id`; a no-op
    /// when no such element exists.
    pub fn remove_attribute(&mut self, id: u64, name: &Vec<char>)
        requires
            old(self).wf(),
        ensures
            final(self).wf(),
            final(self).id_bound() == old(self).id_bound(),
            remove_attribute_rel(
                old(self).doc(),
                old(self).detached(),
                final(self).doc(),
                final(self).detached(),
                id,
                name@,
            ),
    {
        match find_open(&self.toks, id) {
            Some(i) => {
                proof {
                    Self::lemma_found_is_open_index(self.toks@, self.pool@, i as int, id);
                }
                remove_attr_in(&mut self.toks, i, name);
            },
            None => {
                match find_open(&self.pool, id) {
                    Some(i) => {
                        proof {
                            assert forall|x: u64| #[trigger] count_id(self.pool@, x) + count_id(
                                self.toks@,
                                x,
                            ) <= 1 by {
                                assert(count_id(self.toks@, x) + count_id(self.pool@, x) <= 1);
                            }
                            Self::lemma_found_is_open_index(self.pool@, self.toks@, i as int, id);
                        }
                        remove_attr_in(&mut self.pool, i, name);
                    },
                    None => {},
                }
            },
        }
    }

    /// Sets attribute `name` to `value` on the element with handle `id`; a
    /// no-op when no such element exists.
    pub fn set_attribute(&mut self, id: u64, name: &str, value: &str)
        requires
            old(self).wf(),
        ensures
            final(self).wf(),
            final(self).id_bound() == old(self).id_bound(),
            set_attribute_rel(
                old(self).doc(),
                old(self).detached(),
                final(self).doc(),
                final(self).detached(),
                id,
                name@,
                value@,
            ),
    {
        match find_open(&self.toks, id) {
            Some(i) => {
                proof {
                    Self::lemma_found_is_open_index(self.toks@, self.pool@, i as int, id);
                }
                set_attr_in(&mut self.toks, i, name, value);
            },
            None => {
                match find_open(&self.pool, id) {
                    Some(i) => {
                        proof {
                            assert forall|x: u64| #[trigger] count_id(self.pool@, x) + count_id(
                                self.toks@,
                                x,
                            ) <= 1 by {
                                assert(count_id(self.toks@, x) + count_id(self.pool@, x) <= 1);
                            }
                            Self::lemma_found_is_open_index(self.pool@, self.toks@, i as int, id);
                        }
                        set_attr_in(&mut self.pool, i, name, value);
                    },
                    None => {},
                }
            },
        }
    }

    /// Detaches every child of the element with handle `id` into the pool;
    /// a no-op when the element does not stand in the document.
    pub fn remove_children(&mut self, id: u64)
        requires
            old(self).wf(),
        ensures
            final(self).wf(),
            final(self).id_bound() == old(self).id_bound(),
            remove_children_rel(
                old(self).doc(),
                old(self).detached(),
                final(self).doc(),
                final(self).detached(),
                id,
            ),
    {
        match find_open(&self.toks, id) {
            Some(i) => {
                proof {
                    Self::lemma_found_is_open_index(self.toks@, self.pool@, i as int, id);
                }
                let j = find_close(&self.toks, i);
                let ghost s = self.toks@;
                let ghost p0 = self.pool@;
                proof {
                    lemma_match_is(s, i as int, j as int);
                }
                move_span(&mut self.toks, &mut self.pool, i + 1, j);
                proof {
                    let i_ = i as int;
                    let j_ = j as int;
                    let n = s.len() as int;
                    assert(depth(s, j_ + 1) == depth(s, j_) + delta(s[j_]));
                    assert(depth(s, i_ + 1) == depth(s, i_) + delta(s[i_]));
                    assert(depth(s, i_ + 1) == depth(s, j_));
                    lemma_remove_span_balanced(s, i_ + 1, j_);
                    assert forall|m: int| i_ + 1 <= m <= j_ implies #[trigger] depth(s, m)
                        >= depth(s, i_ + 1) by {
                        if m > i_ + 1 || m == j_ {
                            assert(depth(s, m) > depth(s, i_));
                        }
                    }
                    lemma_span_balanced(s, i_ + 1, j_);
                    lemma_balanced_concat(p0, s.subrange(i_ + 1, j_));
                    assert forall|x: u64|
                        #![trigger count_id(self.toks@, x)]
                        #![trigger count_id(self.pool@, x)]
                        count_id(self.toks@, x) + count_id(self.pool@, x) == count_id(s, x)
                        + count_id(p0, x) by {
                        lemma_count_concat(s.subrange(0, i_ + 1), s.subrange(j_, n), x);
                        lemma_count_subrange(s, 0, i_ + 1, x);
                        lemma_count_subrange(s, j_, n, x);
                        lemma_count_concat(p0, s.subrange(i_ + 1, j_), x);
                        lemma_count_subrange(s, i_ + 1, j_, x);
                        lemma_count_split(s, 0, i_ + 1, n, x);
                        lemma_count_split(s, i_ + 1, j_, n, x);
                    }
                    assert forall|x: u64|
                        #![trigger has_open(self.toks@, x)]
                        #![trigger has_open(self.pool@, x)]
                        (has_open(self.toks@, x) || has_open(self.pool@, x)) implies (has_open(
                        s,
                        x,
                    ) || has_open(p0, x)) by {
                        lemma_has_concat(s.subrange(0, i_ + 1), s.subrange(j_, n), x);
                        lemma_has_concat(p0, s.subrange(i_ + 1, j_), x);
                        lemma_has_subrange(s, 0, i_ + 1, x);
                        lemma_has_subrange(s, j_, n, x);
                        lemma_has_subrange(s, i_ + 1, j_, x);
                    }
                }
            },
            None => {},
        }
    }

    /// Removes the element with handle `id`, re-parenting its children to
    /// its former position in original order; a no-op when the element
    /// does not stand in the document.
    pub fn dissolve_element(&mut self, id: u64)
        requires
            old(self).wf(),
        ensures
            final(self).wf(),
            final(self).id_bound() == old(self).id_bound(),
            dissolve_rel(
                old(self).doc(),
                old(self).detached(),
                final(self).doc(),
                final(self).detached(),
                id,
            ),
    {
        match find_open(&self.toks, id) {
            Some(i) => {
                proof {
                    Self::lemma_found_is_open_index(self.toks@, self.pool@, i as int, id);
                }
                let j = find_close(&self.toks, i);
                let ghost s = self.toks@;
                let ghost p0 = self.pool@;
                proof {
                    lemma_match_is(s, i as int, j as int);
                }
                let tclose = self.toks.remove(j);
                let topen = self.toks.remove(i);
                self.pool.push(topen);
                self.pool.push(tclose);
                proof {
                    let i_ = i as int;
                    let j_ = j as int;
                    let n = s.len() as int;
                    let mid = s.subrange(i_ + 1, j_);
                    let pre = s.subrange(0, i_);
                    let post = s.subrange(j_ + 1, n);
                    assert(self.toks@ =~= pre + mid + post);
                    assert(self.pool@ =~= p0 + seq![s[i_], s[j_]]);
                    assert(depth(s, j_ + 1) == depth(s, j_) + delta(s[j_]));
                    assert(depth(s, i_ + 1) == depth(s, i_) + delta(s[i_]));
                    // the remainder after cutting the whole span is balanced
                    lemma_remove_span_balanced(s, i_, j_ + 1);
                    let r1 = s.subrange(0, i_) + s.subrange(j_ + 1, n);
                    // the content between the pair is balanced
                    assert forall|m: int| i_ + 1 <= m <= j_ implies #[trigger] depth(s, m)
                        >= depth(s, i_ + 1) by {
                        if m > i_ + 1 || m == j_ {
                            assert(depth(s, m) > depth(s, i_));
                        }
                    }
                    lemma_span_balanced(s, i_ + 1, j_);
                    lemma_insert_span_balanced(r1, mid, i_);
                    assert(r1.subrange(0, i_) =~= pre);
                    assert(r1.subrange(i_, r1.len() as int) =~= post);
                    assert(balanced(self.toks@));
                    // the detached pair is an empty element
                    let pair = seq![s[i_], s[j_]];
                    assert(depth_range(pair, 0, 0) == 0);
                    assert(depth_range(pair, 0, 1) == 1);
                    assert(depth_range(pair, 0, 2) == 0);
                    assert forall|m: int| 0 <= m <= 2 implies #[trigger] depth(pair, m) >= 0 by {
                        assert(m == 0 || m == 1 || m == 2);
                    }
                    lemma_balanced_concat(p0, pair);
                    assert forall|x: u64|
                        #![trigger count_id(self.toks@, x)]
                        #![trigger count_id(self.pool@, x)]
                        count_id(self.toks@, x) + count_id(self.pool@, x) == count_id(s, x)
                        + count_id(p0, x) by {
                        lemma_count_concat(pre + mid, post, x);
                        lemma_count_concat(pre, mid, x);
                        lemma_count_subrange(s, 0, i_, x);
                        lemma_count_subrange(s, i_ + 1, j_, x);
                        lemma_count_subrange(s, j_ + 1, n, x);
                        lemma_count_concat(p0, pair, x);
                        assert(count_range(pair, 0, 0, x) == 0);
                        assert(count_range(pair, 0, 1, x) == if is_open_id(s[i_], x) {
                            1int
                        } else {
                            0int
                        });
                        assert(count_range(pair, 0, 2, x) == count_range(pair, 0, 1, x));
                        lemma_count_split(s, 0, i_, n, x);
                        lemma_count_split(s, i_, i_ + 1, n, x);
                        lemma_count_split(s, i_ + 1, j_, n, x);
                        lemma_count_split(s, j_, j_ + 1, n, x);
                        assert(count_range(s, i_, i_, x) == 0);
                        assert(count_range(s, j_, j_, x) == 0);
                        assert(count_range(s, i_, i_ + 1, x) == if is_open_id(s[i_], x) {
                            1int
                        } else {
                            0int
                        });
                        assert(count_range(s, j_, j_ + 1, x) == 0);
                    }
                    assert forall|x: u64|
                        #![trigger has_open(self.toks@, x)]
                        #![trigger has_open(self.pool@, x)]
                        (has_open(self.toks@, x) || has_open(self.pool@, x)) implies (has_open(
                        s,
                        x,
                    ) || has_open(p0, x)) by {
                        lemma_has_concat(pre + mid, post, x);
                        lemma_has_concat(pre, mid, x);
                        lemma_has_subrange(s, 0, i_, x);
                        lemma_has_subrange(s, i_ + 1, j_, x);
                        lemma_has_subrange(s, j_ + 1, n, x);
                        lemma_has_concat(p0, pair, x);
                        if has_open(pair, x) {
                            let k = choose|k: int|
                                0 <= k < pair.len() && is_open_id(#[trigger] pair[k], x);
                            assert(k == 0 || k == 1);
                            assert(is_open_id(s[if k == 0 {
                                i_
                            } else {
                                j_
                            }], x));
                        }
                    }
                    // the dissolved handle is gone from the document
                    assert(count_id(self.toks@, id) == 0) by {
                        lemma_count_at(s, 0, n, i_, id);
                        lemma_count_split(s, 0, i_, n, id);
                        lemma_count_split(s, i_, i_ + 1, n, id);
                        lemma_count_split(s, i_ + 1, j_, n, id);
                        lemma_count_split(s, j_, j_ + 1, n, id);
                        lemma_count_nonneg(s, 0, i_, id);
                        lemma_count_nonneg(s, i_ + 1, j_, id);
                        lemma_count_nonneg(s, j_ + 1, n, id);
                        lemma_count_nonneg(p0, 0, p0.len() as int, id);
                        assert(count_range(s, i_, i_, id) == 0);
                        assert(count_range(s, j_, j_, id) == 0);
                        assert(count_range(s, i_, i_ + 1, id) == 1);
                        assert(count_range(s, j_, j_ + 1, id) == 0);
                        lemma_count_concat(pre + mid, post, id);
                        lemma_count_concat(pre, mid, id);
                        lemma_count_subrange(s, 0, i_, id);
                        lemma_count_subrange(s, i_ + 1, j_, id);
                        lemma_count_subrange(s, j_ + 1, n, id);
                    }
                    assert(!has_open(self.toks@, id)) by {
                        if has_open(self.toks@, id) {
                            let k = choose|k: int|
                                0 <= k < self.toks@.len() && is_open_id(#[trigger] self.toks@[k], id);
                            lemma_count_at(self.toks@, 0, self.toks@.len() as int, k, id);
                        }
                    }
                }
            },
            None => {},
        }
    }

    /// How many tokens the document holds.
    pub fn doc_len(&self) -> (r: usize)
        ensures
            r == self.doc().len(),
    {
        self.toks.len()
    }

    /// The document token at `k`.
    pub fn tok(&self, k: usize) -> (t: &Token)
        requires
            k < self.doc().len(),
        ensures
            *t == self.doc()[k as int],
    {
        &self.toks[k]
    }

    /// Position of the opening token of `id` in the document, if present.
    pub fn position_of(&self, id: u64) -> (r: Option<usize>)
        requires
            self.wf(),
        ensures
            match r {
                Some(i) => has_open(self.doc(), id) && i == open_index(self.doc(), id) && i
                    < self.doc().len(),
                None => !has_open(self.doc(), id),
            },
    {
        match find_open(&self.toks, id) {
            Some(i) => {
                proof {
                    Self::lemma_found_is_open_index(self.toks@, self.pool@, i as int, id);
                }
                Some(i)
            },
            None => None,
        }
    }

    /// Position of the closing token matching the opening token at `i`.
    pub fn close_of(&self, i: usize) -> (j: usize)
        requires
            self.wf(),
            i < self.doc().len(),
            self.doc()[i as int] is Open,
        ensures
            is_match(self.doc(), i as int, j as int),
            j == match_index(self.doc(), i as int),
            i < j < self.doc().len(),
    {
        let j = find_close(&self.toks, i);
        proof {
            lemma_match_is(self.toks@, i as int, j as int);
        }
        j
    }

    /// The value of attribute `name` on the element with handle `id`.
    pub fn attribute_of(&self, id: u64, name: &Vec<char>) -> (r: Option<Vec<char>>)
        requires
            self.wf(),
        ensures
            match r {
                Some(v) => has_open(self.doc(), id) && attr_lookup(
                    self.doc()[open_index(self.doc(), id)]->Open_attrs@,
                    name@,
                ) == Some(v@),
                None => !has_open(self.doc(), id) || attr_lookup(
                    self.doc()[open_index(self.doc(), id)]->Open_attrs@,
                    name@,
                ) is None,
            },
    {
        match find_open(&self.toks, id) {
            Some(i) => {
                proof {
                    Self::lemma_found_is_open_index(self.toks@, self.pool@, i as int, id);
                }
                match &self.toks[i] {
                    Token::Open { attrs, .. } => attr_value(attrs, name),
                    _ => unreached(),
                }
            },
            None => None,
        }
    }

    /// Creates a fresh empty element as the last child of `parent_id` and
    /// returns its handle; fails only when the parent is missing or the
    /// handle space is exhausted.
    pub fn append_element(&mut self, parent_id: u64, name: &str, attrs: Vec<(String, String)>) -> (r:
        Option<u64>)
        requires
            old(self).wf(),
        ensures
            final(self).wf(),
            match r {
                Some(nid) => {
                    let p = open_index(old(self).doc(), parent_id);
                    let pc = match_index(old(self).doc(), p);
                    let d0 = old(self).doc();
                    let d1 = final(self).doc();
                    &&& has_open(d0, parent_id)
                    &&& is_match(d0, p, pc)
                    &&& nid == old(self).id_bound()
                    &&& final(self).id_bound() == old(self).id_bound() + 1
                    &&& final(self).detached() == old(self).detached()
                    &&& d1.len() == d0.len() + 2
                    &&& (forall|m: int| 0 <= m < pc ==> d1[m] == d0[m])
                    &&& (forall|m: int| pc + 2 <= m < d1.len() ==> d1[m] == d0[m - 2])
                    &&& is_open_id(d1[pc], nid)
                    &&& d1[pc]->Open_name@ == name@
                    &&& d1[pc]->Open_attrs == attrs
                    &&& d1[pc + 1] is Close
                    &&& d1[pc + 1]->Close_name@ == name@
                    &&& has_open(d1, nid)
                },
                None => {
                    &&& *final(self) == *old(self)
                    &&& (!has_open(old(self).doc(), parent_id) || old(self).id_bound()
                        == u64::MAX)
                },
            },
    {
        match find_open(&self.toks, parent_id) {
            Some(p) => {
                if self.next_id == u64::MAX {
                    return None;
                }
                proof {
                    Self::lemma_found_is_open_index(self.toks@, self.pool@, p as int, parent_id);
                }
                let pc = find_close(&self.toks, p);
                let ghost s = self.toks@;
                let ghost p0 = self.pool@;
                proof {
                    lemma_match_is(s, p as int, pc as int);
                }
                let nid = self.next_id;
                self.next_id = nid + 1;
                let mut tmp: Vec<Token> = Vec::new();
                tmp.push(Token::Open { id: nid, name: name.to_owned(), attrs });
                tmp.push(Token::Close { name: name.to_owned() });
                let ghost pair = tmp@;
                insert_span(&mut self.toks, tmp, pc);
                proof {
                    let pc_ = pc as int;
                    let n = s.len() as int;
                    assert(depth_range(pair, 0, 0) == 0);
                    assert(depth_range(pair, 0, 1) == 1);
                    assert(depth_range(pair, 0, 2) == 0);
                    assert(balanced(pair)) by {
                        assert forall|m: int| 0 <= m <= 2 implies #[trigger] depth(pair, m) >= 0 by {
                            assert(m == 0 || m == 1 || m == 2);
                        }
                    }
                    lemma_insert_span_balanced(s, pair, pc_);
                    assert(balanced(self.toks@));
                    assert(!has_open(s, nid));
                    assert(!has_open(p0, nid));
                    assert forall|x: u64|
                        #![trigger count_id(self.toks@, x)]
                        #![trigger count_id(self.pool@, x)]
                        count_id(self.toks@, x) + count_id(self.pool@, x) <= 1 by {
                        lemma_count_concat(s.subrange(0, pc_) + pair, s.subrange(pc_, n), x);
                        lemma_count_concat(s.subrange(0, pc_), pair, x);
                        lemma_count_subrange(s, 0, pc_, x);
                        lemma_count_subrange(s, pc_, n, x);
                        lemma_count_split(s, 0, pc_, n, x);
                        assert(count_range(pair, 0, 0, x) == 0);
                        assert(count_range(pair, 0, 1, x) == if x == nid {
                            1int
                        } else {
                            0int
                        });
                        assert(count_range(pair, 0, 2, x) == count_range(pair, 0, 1, x));
                        if x == nid {
                            lemma_count_zero_range(s, 0, n, x);
                            lemma_count_zero_range(p0, 0, p0.len() as int, x);
                        }
                    }
                    assert forall|x: u64|
                        #![trigger has_open(self.toks@, x)]
                        #![trigger has_open(self.pool@, x)]
                        (has_open(self.toks@, x) || has_open(self.pool@, x)) implies x
                        < self.next_id by {
                        lemma_has_concat(s.subrange(0, pc_) + pair, s.subrange(pc_, n), x);
                        lemma_has_concat(s.subrange(0, pc_), pair, x);
                        lemma_has_subrange(s, 0, pc_, x);
                        lemma_has_subrange(s, pc_, n, x);
                        if has_open(pair, x) {
                            let k = choose|k: int|
                                0 <= k < pair.len() && is_open_id(#[trigger] pair[k], x);
                            assert(k == 0 || k == 1);
                        }
                    }
                    assert(is_open_id(self.toks@[pc_], nid));
                }
                Some(nid)
            },
            None => None,
        }
    }

    /// Appends plain text as the last child of `parent_id`; returns
    /// whether the parent was found.
    pub fn append_text(&mut self, parent_id: u64, text: String) -> (r: bool)
        requires
            old(self).wf(),
        ensures
            final(self).wf(),
            final(self).id_bound() == old(self).id_bound(),
            r == has_open(old(self).doc(), parent_id),
            r ==> ({
                let p = open_index(old(self).doc(), parent_id);
                let pc = match_index(old(self).doc(), p);
                &&& is_match(old(self).doc(), p, pc)
                &&& final(self).doc() == old(self).doc().subrange(0, pc) + seq![
                    Token::Text { text },
                ] + old(self).doc().subrange(pc, old(self).doc().len() as int)
                &&& final(self).detached() == old(self).detached()
            }),
            !r ==> *final(self) == *old(self),
    {
        match find_open(&self.toks, parent_id) {
            Some(p) => {
                proof {
                    Self::lemma_found_is_open_index(self.toks@, self.pool@, p as int, parent_id);
                }
                let pc = find_close(&self.toks, p);
                let ghost s = self.toks@;
                let ghost p0 = self.pool@;
                proof {
                    lemma_match_is(s, p as int, pc as int);
                }
                let ghost unit = seq![Token::Text { text }];
                self.toks.insert(pc, Token::Text { text });
                proof {
                    let pc_ = pc as int;
                    let n = s.len() as int;
                    assert(self.toks@ =~= s.subrange(0, pc_) + unit + s.subrange(pc_, n));
                    assert(depth_range(unit, 0, 0) == 0);
                    assert(depth_range(unit, 0, 1) == 0);
                    assert(balanced(unit)) by {
                        assert forall|m: int| 0 <= m <= 1 implies #[trigger] depth(unit, m) >= 0 by {
                            assert(m == 0 || m == 1);
                        }
                    }
                    lemma_insert_span_balanced(s, unit, pc_);
                    assert(balanced(self.toks@));
                    assert forall|x: u64|
                        #![trigger count_id(self.toks@, x)]
                        #![trigger count_id(self.pool@, x)]
                        count_id(self.toks@, x) + count_id(self.pool@, x) == count_id(s, x)
                        + count_id(p0, x) by {
                        lemma_count_concat(s.subrange(0, pc_) + unit, s.subrange(pc_, n), x);
                        lemma_count_concat(s.subrange(0, pc_), unit, x);
                        lemma_count_subrange(s, 0, pc_, x);
                        lemma_count_subrange(s, pc_, n, x);
                        lemma_count_split(s, 0, pc_, n, x);
                        assert(count_range(unit, 0, 0, x) == 0);
                        assert(count_range(unit, 0, 1, x) == 0);
                    }
                    assert forall|x: u64|
                        #![trigger has_open(self.toks@, x)]
                        #![trigger has_open(self.pool@, x)]
                        (has_open(self.toks@, x) || has_open(self.pool@, x)) implies (has_open(
                        s,
                        x,
                    ) || has_open(p0, x)) by {
                        lemma_has_concat(s.subrange(0, pc_) + unit, s.subrange(pc_, n), x);
                        lemma_has_concat(s.subrange(0, pc_), unit, x);
                        lemma_has_subrange(s, 0, pc_, x);
                        lemma_has_subrange(s, pc_, n, x);
                        if has_open(unit, x) {
                            let k = choose|k: int|
                                0 <= k < unit.len() && is_open_id(#[trigger] unit[k], x);
                            assert(k == 0);
                        }
                    }
                }
                true
            },
            None => false,
        }
    }

    /// Appends the element `child_id` as the last child of `parent_id`,
    /// moving it from wherever it stands; a no-op when either handle is
    /// missing or the parent sits inside the child's own subtree.
    #[verifier::rlimit(60)]
    pub fn append_child(&mut self, parent_id: u64, child_id: u64)
        requires
            old(self).wf(),
        ensures
            final(self).wf(),
            final(self).id_bound() == old(self).id_bound(),
            append_child_rel(
                old(self).doc(),
                old(self).detached(),
                final(self).doc(),
                final(self).detached(),
                parent_id,
                child_id,
            ),
    {
        let p = match find_open(&self.toks, parent_id) {
            Some(p) => p,
            None => {
                return ;
            },
        };
        proof {
            Self::lemma_found_is_open_index(self.toks@, self.pool@, p as int, parent_id);
        }
        let pc = find_close(&self.toks, p);
        let ghost s = self.toks@;
        let ghost p0 = self.pool@;
        proof {
            lemma_match_is(s, p as int, pc as int);
        }
        match find_open(&self.toks, child_id) {
            Some(c) => {
                proof {
                    Self::lemma_found_is_open_index(self.toks@, self.pool@, c as int, child_id);
                }
                let cc = find_close(&self.toks, c);
                proof {
                    lemma_match_is(s, c as int, cc as int);
                }
                if cc < p || (p < c && cc < pc) {
                    let mut tmp: Vec<Token> = Vec::new();
                    move_span(&mut self.toks, &mut tmp, c, cc + 1);
                    let target = pc - (cc + 1 - c);
                    insert_span(&mut self.toks, tmp, target);
                    proof {
                        let c_ = c as int;
                        let cc_ = cc as int;
                        let pc_ = pc as int;
                        let n = s.len() as int;
                        let lsp = cc_ + 1 - c_;
                        let span = s.subrange(c_, cc_ + 1);
                        let r1 = s.subrange(0, c_) + s.subrange(cc_ + 1, n);
                        assert(self.toks@ =~= s.subrange(0, c_) + s.subrange(cc_ + 1, pc_) + span
                            + s.subrange(pc_, n));
                        lemma_remove_span_balanced(s, c_, cc_ + 1);
                        assert forall|m: int| c_ <= m <= cc_ + 1 implies #[trigger] depth(s, m)
                            >= depth(s, c_) by {
                            if m > c_ && m <= cc_ {
                                assert(depth(s, m) > depth(s, c_));
                            }
                        }
                        lemma_span_balanced(s, c_, cc_ + 1);
                        lemma_insert_span_balanced(r1, span, pc_ - lsp);
                        assert(r1.subrange(0, pc_ - lsp) =~= s.subrange(0, c_) + s.subrange(
                            cc_ + 1,
                            pc_,
                        ));
                        assert(r1.subrange(pc_ - lsp, r1.len() as int) =~= s.subrange(pc_, n));
                        assert(r1.subrange(0, pc_ - lsp) + span + r1.subrange(
                            pc_ - lsp,
                            r1.len() as int,
                        ) =~= self.toks@);
                        assert(balanced(self.toks@));
                        assert forall|x: u64|
                            #![trigger count_id(self.toks@, x)]
                            #![trigger count_id(self.pool@, x)]
                            count_id(self.toks@, x) + count_id(self.pool@, x) == count_id(s, x)
                            + count_id(p0, x) by {
                            lemma_count_concat(
                                s.subrange(0, c_) + s.subrange(cc_ + 1, pc_) + span,
                                s.subrange(pc_, n),
                                x,
                            );
                            lemma_count_concat(s.subrange(0, c_) + s.subrange(cc_ + 1, pc_), span, x);
                            lemma_count_concat(s.subrange(0, c_), s.subrange(cc_ + 1, pc_), x);
                            lemma_count_subrange(s, 0, c_, x);
                            lemma_count_subrange(s, cc_ + 1, pc_, x);
                            lemma_count_subrange(s, c_, cc_ + 1, x);
                            lemma_count_subrange(s, pc_, n, x);
                            lemma_count_split(s, 0, c_, n, x);
                            lemma_count_split(s, c_, cc_ + 1, n, x);
                            lemma_count_split(s, cc_ + 1, pc_, n, x);
                        }
                        assert forall|x: u64|
                            #![trigger has_open(self.toks@, x)]
                            #![trigger has_open(self.pool@, x)]
                            (has_open(self.toks@, x) || has_open(self.pool@, x)) implies (
                        has_open(s, x) || has_open(p0, x)) by {
                            lemma_has_concat(
                                s.subrange(0, c_) + s.subrange(cc_ + 1, pc_) + span,
                                s.subrange(pc_, n),
                                x,
                            );
                            lemma_has_concat(s.subrange(0, c_) + s.subrange(cc_ + 1, pc_), span, x);
                            lemma_has_concat(s.subrange(0, c_), s.subrange(cc_ + 1, pc_), x);
                            lemma_has_subrange(s, 0, c_, x);
                            lemma_has_subrange(s, cc_ + 1, pc_, x);
                            lemma_has_subrange(s, c_, cc_ + 1, x);
                            lemma_has_subrange(s, pc_, n, x);
                        }
                    }
                } else if pc < c {
                    let mut tmp: Vec<Token> = Vec::new();
                    move_span(&mut self.toks, &mut tmp, c, cc + 1);
                    insert_span(&mut self.toks, tmp, pc);
                    proof {
                        let c_ = c as int;
                        let cc_ = cc as int;
                        let pc_ = pc as int;
                        let n = s.len() as int;
                        let span = s.subrange(c_, cc_ + 1);
                        let r1 = s.subrange(0, c_) + s.subrange(cc_ + 1, n);
                        assert(self.toks@ =~= s.subrange(0, pc_) + span + s.subrange(pc_, c_)
                            + s.subrange(cc_ + 1, n));
                        lemma_remove_span_balanced(s, c_, cc_ + 1);
                        assert forall|m: int| c_ <= m <= cc_ + 1 implies #[trigger] depth(s, m)
                            >= depth(s, c_) by {
                            if m > c_ && m <= cc_ {
                                assert(depth(s, m) > depth(s, c_));
                            }
                        }
                        lemma_span_balanced(s, c_, cc_ + 1);
                        lemma_insert_span_balanced(r1, span, pc_);
                        assert(r1.subrange(0, pc_) =~= s.subrange(0, pc_));
                        assert(r1.subrange(pc_, r1.len() as int) =~= s.subrange(pc_, c_)
                            + s.subrange(cc_ + 1, n));
                        assert(r1.subrange(0, pc_) + span + r1.subrange(pc_, r1.len() as int)
                            =~= self.toks@);
                        assert(balanced(self.toks@));
                        assert forall|x: u64|
                            #![trigger count_id(self.toks@, x)]
                            #![trigger count_id(self.pool@, x)]
                            count_id(self.toks@, x) + count_id(self.pool@, x) == count_id(s, x)
                            + count_id(p0, x) by {
                            lemma_count_concat(
                                s.subrange(0, pc_) + span + s.subrange(pc_, c_),
                                s.subrange(cc_ + 1, n),
                                x,
                            );
                            lemma_count_concat(s.subrange(0, pc_) + span, s.subrange(pc_, c_), x);
                            lemma_count_concat(s.subrange(0, pc_), span, x);
                            lemma_count_subrange(s, 0, pc_, x);
                            lemma_count_subrange(s, pc_, c_, x);
                            lemma_count_subrange(s, c_, cc_ + 1, x);
                            lemma_count_subrange(s, cc_ + 1, n, x);
                            lemma_count_split(s, 0, pc_, n, x);
                            lemma_count_split(s, pc_, c_, n, x);
                            lemma_count_split(s, c_, cc_ + 1, n, x);
                        }
                        assert forall|x: u64|
                            #![trigger has_open(self.toks@, x)]
                            #![trigger has_open(self.pool@, x)]
                            (has_open(self.toks@, x) || has_open(self.pool@, x)) implies (
                        has_open(s, x) || has_open(p0, x)) by {
                            lemma_has_concat(
                                s.subrange(0, pc_) + span + s.subrange(pc_, c_),
                                s.subrange(cc_ + 1, n),
                                x,
                            );
                            lemma_has_concat(s.subrange(0, pc_) + span, s.subrange(pc_, c_), x);
                            lemma_has_concat(s.subrange(0, pc_), span, x);
                            lemma_has_subrange(s, 0, pc_, x);
                            lemma_has_subrange(s, pc_, c_, x);
                            lemma_has_subrange(s, c_, cc_ + 1, x);
                            lemma_has_subrange(s, cc_ + 1, n, x);
                        }
                    }
                }
            },
            None => {
                match find_open(&self.pool, child_id) {
                    Some(c) => {
                        proof {
                            assert forall|x: u64| #[trigger] count_id(self.pool@, x) + count_id(
                                self.toks@,
                                x,
                            ) <= 1 by {
                                assert(count_id(self.toks@, x) + count_id(self.pool@, x) <= 1);
                            }
                            Self::lemma_found_is_open_index(
                                self.pool@,
                                self.toks@,
                                c as int,
                                child_id,
                            );
                        }
                        let cc = find_close(&self.pool, c);
                        proof {
                            lemma_match_is(p0, c as int, cc as int);
                        }
                        let mut tmp: Vec<Token> = Vec::new();
                        move_span(&mut self.pool, &mut tmp, c, cc + 1);
                        insert_span(&mut self.toks, tmp, pc);
                        proof {
                            let c_ = c as int;
                            let cc_ = cc as int;
                            let pc_ = pc as int;
                            let n = s.len() as int;
                            let np = p0.len() as int;
                            let span = p0.subrange(c_, cc_ + 1);
                            assert(self.toks@ == s.subrange(0, pc_) + span + s.subrange(pc_, n));
                            assert(self.pool@ == p0.subrange(0, c_) + p0.subrange(cc_ + 1, np));
                            lemma_remove_span_balanced(p0, c_, cc_ + 1);
                            assert forall|m: int| c_ <= m <= cc_ + 1 implies #[trigger] depth(
                                p0,
                                m,
                            ) >= depth(p0, c_) by {
                                if m > c_ && m <= cc_ {
                                    assert(depth(p0, m) > depth(p0, c_));
                                }
                            }
                            lemma_span_balanced(p0, c_, cc_ + 1);
                            lemma_insert_span_balanced(s, span, pc_);
                            assert(balanced(self.toks@));
                            assert forall|x: u64|
                                #![trigger count_id(self.toks@, x)]
                                #![trigger count_id(self.pool@, x)]
                                count_id(self.toks@, x) + count_id(self.pool@, x) == count_id(s, x)
                                + count_id(p0, x) by {
                                lemma_count_concat(s.subrange(0, pc_) + span, s.subrange(pc_, n), x);
                                lemma_count_concat(s.subrange(0, pc_), span, x);
                                lemma_count_concat(p0.subrange(0, c_), p0.subrange(cc_ + 1, np), x);
                                lemma_count_subrange(s, 0, pc_, x);
                                lemma_count_subrange(s, pc_, n, x);
                                lemma_count_subrange(p0, 0, c_, x);
                                lemma_count_subrange(p0, c_, cc_ + 1, x);
                                lemma_count_subrange(p0, cc_ + 1, np, x);
                                lemma_count_split(s, 0, pc_, n, x);
                                lemma_count_split(p0, 0, c_, np, x);
                                lemma_count_split(p0, c_, cc_ + 1, np, x);
                            }
                            assert forall|x: u64|
                                #![trigger has_open(self.toks@, x)]
                                #![trigger has_open(self.pool@, x)]
                                (has_open(self.toks@, x) || has_open(self.pool@, x)) implies (
                            has_open(s, x) || has_open(p0, x)) by {
                                lemma_has_concat(s.subrange(0, pc_) + span, s.subrange(pc_, n), x);
                                lemma_has_concat(s.subrange(0, pc_), span, x);
                                lemma_has_concat(p0.subrange(0, c_), p0.subrange(cc_ + 1, np), x);
                                lemma_has_subrange(s, 0, pc_, x);
                                lemma_has_subrange(s, pc_, n, x);
                                lemma_has_subrange(p0, 0, c_, x);
                                lemma_has_subrange(p0, c_, cc_ + 1, x);
                                lemma_has_subrange(p0, cc_ + 1, np, x);
                            }
                        }
                    },
                    None => {},
                }
            },
        }
    }

    /// Performs one operation; a missing handle is a silent no-op.
    pub fn perform_operation(&mut self, op: DomOperation)
        requires
            old(self).wf(),
        ensures
            final(self).wf(),
            final(self).id_bound() == old(self).id_bound(),
            op_applied(
                op,
                old(self).doc(),
                old(self).detached(),
                final(self).doc(),
                final(self).detached(),
            ),
    {
        match op {
            DomOperation::RemoveAttribute { node_id, attr_name } => {
                let name = crate::strutil::to_chars(attr_name.as_str());
                self.remove_attribute(node_id, &name);
            },
            DomOperation::SetAttribute { node_id, attr_name, value } => {
                self.set_attribute(node_id, attr_name.as_str(), value.as_str());
            },
            DomOperation::RemoveChildren { node_id } => {
                self.remove_children(node_id);
            },
            DomOperation::AppendChild { parent_id, child_id } => {
                self.append_child(parent_id, child_id);
            },
            DomOperation::ReplaceElement { node_id, replacement } => {
                self.replace_element(node_id, replacement);
            },
            DomOperation::DissolveElement { node_id } => {
                self.dissolve_element(node_id);
            },
        }
    }

    /// Performs a batch of scheduled operations, strictly in order; a later
    /// operation may address a handle detached by an earlier one.
    pub fn perform_operations(&mut self, ops: Vec<DomOperation>)
        requires
            old(self).wf(),
        ensures
            final(self).wf(),
            final(self).id_bound() == old(self).id_bound(),
            ops_applied(
                ops@,
                old(self).doc(),
                old(self).detached(),
                final(self).doc(),
                final(self).detached(),
            ),
    {
        let ghost ops0 = ops@;
        let ghost d0 = self.toks@;
        let ghost p0 = self.pool@;
        let mut ops = ops;
        let total = ops.len();
        let mut k: usize = 0;
        proof {
            assert(ops0.subrange(0, 0) =~= Seq::<DomOperation>::empty());
        }
        while ops.len() > 0
        invariant
            self.wf(),
            self.id_bound() == old(self).id_bound(),
            0 <= k <= total,
            total == ops0.len(),
            k + ops.len() == total,
            ops@ =~= ops0.subrange(k as int, ops0.len() as int),
            ops_applied(ops0.subrange(0, k as int), d0, p0, self.toks@, self.pool@),
            d0 == old(self).doc(),
            p0 == old(self).detached(),
        decreases ops.len(),
        {
            let ghost doc_before = self.toks@;
            let ghost pool_before = self.pool@;
            let op = ops.remove(0);
            proof {
                assert(op == ops0[k as int]);
                assert(ops0.subrange(k as int, ops0.len() as int).remove(0) =~= ops0.subrange(
                    k + 1,
                    ops0.len() as int,
                ));
            }
            self.perform_operation(op);
            proof {
                assert(ops0.subrange(0, k + 1).drop_last() =~= ops0.subrange(0, k as int));
                assert(ops0.subrange(0, k + 1).last() == op);
                assert(ops_applied(ops0.subrange(0, k as int), d0, p0, doc_before, pool_before)
                    && op_applied(op, doc_before, pool_before, self.toks@, self.pool@));
                assert(ops_applied(ops0.subrange(0, k + 1), d0, p0, self.toks@, self.pool@));
            }
            k += 1;
        }
        proof {
            assert(ops0.subrange(0, k as int) =~= ops0);
        }
    }

    /// Replaces the element with handle `id` by the plain text `text`,
    /// detaching the whole subtree; a no-op when the element does not
    /// stand in the document.
    pub fn replace_element(&mut self, id: u64, text: String)
        requires
            old(self).wf(),
        ensures
            final(self).wf(),
            final(self).id_bound() == old(self).id_bound(),
            replace_rel(
                old(self).doc(),
                old(self).detached(),
                final(self).doc(),
                final(self).detached(),
                id,
                text,
            ),
    {
        match find_open(&self.toks, id) {
            Some(i) => {
                proof {
                    Self::lemma_found_is_open_index(self.toks@, self.pool@, i as int, id);
                }
                let j = find_close(&self.toks, i);
                let ghost s = self.toks@;
                let ghost p0 = self.pool@;
                proof {
                    lemma_match_is(s, i as int, j as int);
                }
                move_span(&mut self.toks, &mut self.pool, i, j + 1);
                let ghost ttext = Token::Text { text };
                self.toks.insert(i, Token::Text { text });
                proof {
                    let i_ = i as int;
                    let j_ = j as int;
                    let n = s.len() as int;
                    let pre = s.subrange(0, i_);
                    let post = s.subrange(j_ + 1, n);
                    let span = s.subrange(i_, j_ + 1);
                    let unit = seq![ttext];
                    assert(self.toks@ =~= pre + unit + post);
                    assert(self.pool@ == p0 + span);
                    assert(depth(s, j_ + 1) == depth(s, j_) + delta(s[j_]));
                    assert(depth(s, i_ + 1) == depth(s, i_) + delta(s[i_]));
                    lemma_remove_span_balanced(s, i_, j_ + 1);
                    let r1 = pre + post;
                    assert(depth_range(unit, 0, 0) == 0);
                    assert(depth_range(unit, 0, 1) == 0);
                    assert(balanced(unit)) by {
                        assert forall|m: int| 0 <= m <= 1 implies #[trigger] depth(unit, m) >= 0 by {
                            assert(m == 0 || m == 1);
                        }
                    }
                    lemma_insert_span_balanced(r1, unit, i_);
                    assert(r1.subrange(0, i_) =~= pre);
                    assert(r1.subrange(i_, r1.len() as int) =~= post);
                    assert(balanced(self.toks@));
                    assert forall|m: int| i_ <= m <= j_ + 1 implies #[trigger] depth(s, m)
                        >= depth(s, i_) by {
                        if m > i_ && m <= j_ {
                            assert(depth(s, m) > depth(s, i_));
                        }
                    }
                    lemma_span_balanced(s, i_, j_ + 1);
                    lemma_balanced_concat(p0, span);
                    assert forall|x: u64|
                        #![trigger count_id(self.toks@, x)]
                        #![trigger count_id(self.pool@, x)]
                        count_id(self.toks@, x) + count_id(self.pool@, x) == count_id(s, x)
                        + count_id(p0, x) by {
                        lemma_count_concat(pre + unit, post, x);
                        lemma_count_concat(pre, unit, x);
                        assert(count_range(unit, 0, 0, x) == 0);
                        assert(count_range(unit, 0, 1, x) == 0);
                        lemma_count_subrange(s, 0, i_, x);
                        lemma_count_subrange(s, i_, j_ + 1, x);
                        lemma_count_subrange(s, j_ + 1, n, x);
                        lemma_count_concat(p0, span, x);
                        lemma_count_split(s, 0, i_, n, x);
                        lemma_count_split(s, i_, j_ + 1, n, x);
                    }
                    assert forall|x: u64|
                        #![trigger has_open(self.toks@, x)]
                        #![trigger has_open(self.pool@, x)]
                        (has_open(self.toks@, x) || has_open(self.pool@, x)) implies (has_open(
                        s,
                        x,
                    ) || has_open(p0, x)) by {
                        lemma_has_concat(pre + unit, post, x);
                        lemma_has_concat(pre, unit, x);
                        lemma_has_subrange(s, 0, i_, x);
                        lemma_has_subrange(s, i_, j_ + 1, x);
                        lemma_has_subrange(s, j_ + 1, n, x);
                        lemma_has_concat(p0, span, x);
                        if has_open(unit, x) {
                            let k = choose|k: int|
                                0 <= k < unit.len() && is_open_id(#[trigger] unit[k], x);
                            assert(k == 0);
                        }
                    }
                    assert(count_id(self.toks@, id) == 0) by {
                        lemma_count_at(s, 0, n, i_, id);
                        lemma_count_split(s, 0, i_, n, id);
                        lemma_count_split(s, i_, j_ + 1, n, id);
                        lemma_count_nonneg(s, 0, i_, id);
                        lemma_count_nonneg(s, j_ + 1, n, id);
                        lemma_count_nonneg(p0, 0, p0.len() as int, id);
                        lemma_count_at(s, i_, j_ + 1, i_, id);
                        lemma_count_concat(pre + unit, post, id);
                        lemma_count_concat(pre, unit, id);
                        assert(count_range(unit, 0, 0, id) == 0);
                        assert(count_range(unit, 0, 1, id) == 0);
                        lemma_count_subrange(s, 0, i_, id);
                        lemma_count_subrange(s, j_ + 1, n, id);
                    }
                    assert(!has_open(self.toks@, id)) by {
                        if has_open(self.toks@, id) {
                            let k = choose|k: int|
                                0 <= k < self.toks@.len() && is_open_id(#[trigger] self.toks@[k], id);
                            lemma_count_at(self.toks@, 0, self.toks@.len() as int, k, id);
                        }
                    }
                }
            },
            None => {},
        }
    }
}

} // verus!
