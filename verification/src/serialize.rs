//! Serialization of a document back to XHTML text, with the escaping the
//! format requires: `& < >` in character data, and additionally `"` in
//! attribute values.

use crate::dom::{has_open, is_match, match_index, open_index, Dom, Token};
use vstd::prelude::*;

verus! {

/// Escape of one character in character data.
pub open spec fn esc_text_ch(c: char) -> Seq<char> {
    if c == '&' {
        seq!['&', 'a', 'm', 'p', ';']
    } else if c == '<' {
        seq!['&', 'l', 't', ';']
    } else if c == '>' {
        seq!['&', 'g', 't', ';']
    } else {
        seq![c]
    }
}

/// Escape of one character in an attribute value.
pub open spec fn esc_attr_ch(c: char) -> Seq<char> {
    if c == '"' {
        seq!['&', 'q', 'u', 'o', 't', ';']
    } else {
        esc_text_ch(c)
    }
}

pub open spec fn esc_text(s: Seq<char>) -> Seq<char>
    decreases s.len(),
{
    if s.len() == 0 {
        Seq::empty()
    } else {
        esc_text_ch(s[0]) + esc_text(s.drop_first())
    }
}

pub open spec fn esc_attr(s: Seq<char>) -> Seq<char>
    decreases s.len(),
{
    if s.len() == 0 {
        Seq::empty()
    } else {
        esc_attr_ch(s[0]) + esc_attr(s.drop_first())
    }
}

/// The serialized form of an attribute list: one leading space before each
/// attribute, values quoted and escaped.
pub open spec fn ser_attrs(a: Seq<(String, String)>) -> Seq<char>
    decreases a.len(),
{
    if a.len() == 0 {
        Seq::empty()
    } else {
        seq![' '] + a[0].0@ + seq!['=', '"'] + esc_attr(a[0].1@) + seq!['"'] + ser_attrs(
            a.drop_first(),
        )
    }
}

/// The serialized form of one token.
pub open spec fn ser_token(t: Token) -> Seq<char> {
    match t {
        Token::Open { name, attrs, .. } => seq!['<'] + name@ + ser_attrs(attrs@) + seq!['>'],
        Token::Close { name } => seq!['<', '/'] + name@ + seq!['>'],
        Token::Text { text } => esc_text(text@),
    }
}

/// The serialized form of the tokens at `a..b`, in order.
pub open spec fn ser_range(s: Seq<Token>, a: int, b: int) -> Seq<char>
    decreases b - a,
{
    if a >= b {
        Seq::empty()
    } else {
        ser_token(s[a]) + ser_range(s, a + 1, b)
    }
}

pub(crate) fn push_esc_text(acc: &mut Vec<char>, v: &Vec<char>)
    ensures
        final(acc)@ == old(acc)@ + esc_text(v@),
{
    let ghost t = v@;
    proof {
        assert(t.skip(0) =~= t);
    }
    let mut k: usize = 0;
    while k < v.len()
        invariant
            0 <= k <= v.len(),
            t == v@,
            old(acc)@ + esc_text(t) == acc@ + esc_text(t.skip(k as int)),
        decreases v.len() - k,
    {
        let c = v[k];
        proof {
            assert(t.skip(k as int)[0] == t[k as int]);
            assert(t.skip(k as int).drop_first() =~= t.skip(k + 1));
        }
        if c == '&' {
            acc.push('&');
            acc.push('a');
            acc.push('m');
            acc.push('p');
            acc.push(';');
        } else if c == '<' {
            acc.push('&');
            acc.push('l');
            acc.push('t');
            acc.push(';');
        } else if c == '>' {
            acc.push('&');
            acc.push('g');
            acc.push('t');
            acc.push(';');
        } else {
            acc.push(c);
        }
        proof {
            assert(acc@ =~= (old(acc)@ + esc_text(t)).subrange(
                0,
                acc@.len() as int,
            )) by {
                assert(esc_text(t.skip(k as int)) == esc_text_ch(t[k as int]) + esc_text(
                    t.skip(k + 1),
                ));
            }
        }
        k += 1;
    }
    proof {
        assert(esc_text(t.skip(v@.len() as int)) =~= Seq::<char>::empty());
        assert(acc@ + Seq::<char>::empty() =~= acc@);
    }
}

fn push_esc_attr(acc: &mut Vec<char>, v: &Vec<char>)
    ensures
        final(acc)@ == old(acc)@ + esc_attr(v@),
{
    let ghost t = v@;
    proof {
        assert(t.skip(0) =~= t);
    }
    let mut k: usize = 0;
    while k < v.len()
        invariant
            0 <= k <= v.len(),
            t == v@,
            old(acc)@ + esc_attr(t) == acc@ + esc_attr(t.skip(k as int)),
        decreases v.len() - k,
    {
        let c = v[k];
        proof {
            assert(t.skip(k as int)[0] == t[k as int]);
            assert(t.skip(k as int).drop_first() =~= t.skip(k + 1));
        }
        if c == '&' {
            acc.push('&');
            acc.push('a');
            acc.push('m');
            acc.push('p');
            acc.push(';');
        } else if c == '<' {
            acc.push('&');
            acc.push('l');
            acc.push('t');
            acc.push(';');
        } else if c == '>' {
            acc.push('&');
            acc.push('g');
            acc.push('t');
            acc.push(';');
        } else if c == '"' {
            acc.push('&');
            acc.push('q');
            acc.push('u');
            acc.push('o');
            acc.push('t');
            acc.push(';');
        } else {
            acc.push(c);
        }
        proof {
            assert(acc@ =~= (old(acc)@ + esc_attr(t)).subrange(
                0,
                acc@.len() as int,
            )) by {
                assert(esc_attr(t.skip(k as int)) == esc_attr_ch(t[k as int]) + esc_attr(
                    t.skip(k + 1),
                ));
            }
        }
        k += 1;
    }
    proof {
        assert(esc_attr(t.skip(v@.len() as int)) =~= Seq::<char>::empty());
        assert(acc@ + Seq::<char>::empty() =~= acc@);
    }
}

fn push_chars(acc: &mut Vec<char>, s: &str)
    ensures
        final(acc)@ == old(acc)@ + s@,
{
    let mut v = crate::strutil::to_chars(s);
    acc.append(&mut v);
}

fn push_attrs(acc: &mut Vec<char>, attrs: &Vec<(String, String)>)
    ensures
        final(acc)@ == old(acc)@ + ser_attrs(attrs@),
{
    let ghost a0 = attrs@;
    proof {
        assert(a0.skip(0) =~= a0);
    }
    let mut k: usize = 0;
    while k < attrs.len()
        invariant
            0 <= k <= attrs.len(),
            a0 == attrs@,
            old(acc)@ + ser_attrs(a0) == acc@ + ser_attrs(a0.skip(k as int)),
        decreases attrs.len() - k,
    {
        proof {
            assert(a0.skip(k as int)[0] == a0[k as int]);
            assert(a0.skip(k as int).drop_first() =~= a0.skip(k + 1));
        }
        let ghost before = acc@;
        acc.push(' ');
        push_chars(acc, attrs[k].0.as_str());
        acc.push('=');
        acc.push('"');
        let vc = crate::strutil::to_chars(attrs[k].1.as_str());
        push_esc_attr(acc, &vc);
        acc.push('"');
        proof {
            assert(acc@ =~= before + (seq![' '] + a0[k as int].0@ + seq!['=', '"'] + esc_attr(
                a0[k as int].1@,
            ) + seq!['"']));
            assert(ser_attrs(a0.skip(k as int)) == seq![' '] + a0[k as int].0@ + seq!['=', '"']
                + esc_attr(a0[k as int].1@) + seq!['"'] + ser_attrs(a0.skip(k + 1)));
            assert(before + (seq![' '] + a0[k as int].0@ + seq!['=', '"'] + esc_attr(
                a0[k as int].1@,
            ) + seq!['"']) + ser_attrs(a0.skip(k + 1)) =~= before + ser_attrs(a0.skip(k as int)));
        }
        k += 1;
    }
    proof {
        assert(ser_attrs(a0.skip(attrs@.len() as int)) =~= Seq::<char>::empty());
        assert(acc@ + Seq::<char>::empty() =~= acc@);
    }
}

/// Serializes the document tokens at `a..b`.
pub fn serialize_range(dom: &Dom, a: usize, b: usize) -> (r: Vec<char>)
    requires
        a <= b <= dom.doc().len(),
    ensures
        r@ == ser_range(dom.doc(), a as int, b as int),
{
    let ghost s = dom.doc();
    let mut r: Vec<char> = Vec::new();
    let mut k: usize = a;
    while k < b
        invariant
            a <= k <= b <= dom.doc().len(),
            s == dom.doc(),
            ser_range(s, a as int, b as int) == r@ + ser_range(s, k as int, b as int),
        decreases b - k,
    {
        let ghost before = r@;
        proof {
            assert(ser_range(s, k as int, b as int) == ser_token(s[k as int]) + ser_range(
                s,
                k + 1,
                b as int,
            ));
        }
        match dom.tok(k) {
            Token::Open { name, attrs, .. } => {
                r.push('<');
                push_chars(&mut r, name.as_str());
                push_attrs(&mut r, attrs);
                r.push('>');
                proof {
                    assert(r@ =~= before + ser_token(s[k as int]));
                }
            },
            Token::Close { name } => {
                r.push('<');
                r.push('/');
                push_chars(&mut r, name.as_str());
                r.push('>');
                proof {
                    assert(r@ =~= before + ser_token(s[k as int]));
                }
            },
            Token::Text { text } => {
                let tc = crate::strutil::to_chars(text.as_str());
                push_esc_text(&mut r, &tc);
                proof {
                    assert(r@ =~= before + ser_token(s[k as int]));
                }
            },
        }
        proof {
            assert(before + (ser_token(s[k as int]) + ser_range(s, k + 1, b as int)) =~= (before
                + ser_token(s[k as int])) + ser_range(s, k + 1, b as int));
        }
        k += 1;
    }
    proof {
        assert(ser_range(s, b as int, b as int) =~= Seq::<char>::empty());
        assert(r@ + Seq::<char>::empty() =~= r@);
    }
    r
}

/// The serialized content of element `id`, without its own tags; `None`
/// when the element is not in the document.
pub fn inner_xml(dom: &Dom, id: u64) -> (r: Option<Vec<char>>)
    requires
        dom.wf(),
    ensures
        match r {
            Some(v) => has_open(dom.doc(), id) && v@ == ser_range(
                dom.doc(),
                open_index(dom.doc(), id) + 1,
                match_index(dom.doc(), open_index(dom.doc(), id)),
            ),
            None => !has_open(dom.doc(), id),
        },
{
    match dom.position_of(id) {
        Some(i) => {
            let j = dom.close_of(i);
            Some(serialize_range(dom, i + 1, j))
        },
        None => None,
    }
}

/// The serialized element `id`, tags included; `None` when the element is
/// not in the document.
pub fn outer_xml(dom: &Dom, id: u64) -> (r: Option<Vec<char>>)
    requires
        dom.wf(),
    ensures
        match r {
            Some(v) => has_open(dom.doc(), id) && v@ == ser_range(
                dom.doc(),
                open_index(dom.doc(), id),
                match_index(dom.doc(), open_index(dom.doc(), id)) + 1,
            ),
            None => !has_open(dom.doc(), id),
        },
{
    match dom.position_of(id) {
        Some(i) => {
            let n = dom.doc_len();
            let j = dom.close_of(i);
            proof {
                assert(j < n);
            }
            Some(serialize_range(dom, i, j + 1))
        },
        None => None,
    }
}

} // verus!
