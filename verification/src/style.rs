//! Translation of a constrained set of inline `style` / `align` markup
//! into semantic class names: known `padding-left` widths become
//! indentation classes, known `text-align` values become alignment
//! classes, and everything else is dropped.

use crate::dom::attr_lookup;
use crate::strutil::{
    find_ch, lower_spec, split_spec, trim_spec,
};
use vstd::prelude::*;

verus! {

/// The declaration a single `name: value` segment carries, if any.
pub open spec fn decl_of(seg: Seq<char>) -> Option<(Seq<char>, Seq<char>)> {
    match find_ch(seg, ':') {
        Some(i) => Some((trim_spec(seg.take(i)), trim_spec(seg.skip(i + 1)))),
        None => None,
    }
}

/// The declarations of the given segments, in order, segments without a
/// colon skipped.
pub open spec fn decls_from(segs: Seq<Seq<char>>) -> Seq<(Seq<char>, Seq<char>)>
    decreases segs.len(),
{
    if segs.len() == 0 {
        Seq::empty()
    } else {
        let rest = decls_from(segs.drop_first());
        match decl_of(segs[0]) {
            Some(d) => seq![d] + rest,
            None => rest,
        }
    }
}

/// The declarations of an inline style string.
pub open spec fn style_decls(style: Seq<char>) -> Seq<(Seq<char>, Seq<char>)> {
    decls_from(split_spec(style, ';'))
}

/// The effective value of property `name`: the last declaration wins.
pub open spec fn prop_value(decls: Seq<(Seq<char>, Seq<char>)>, name: Seq<char>) -> Option<
    Seq<char>,
>
    decreases decls.len(),
{
    if decls.len() == 0 {
        None
    } else if decls.last().0 == name {
        Some(decls.last().1)
    } else {
        prop_value(decls.drop_last(), name)
    }
}

/// The `padding-left` declaration of the element's style, if any.
pub open spec fn padding_value(attrs: Seq<(String, String)>) -> Option<Seq<char>> {
    match attr_lookup(attrs, "style"@) {
        Some(style) => prop_value(style_decls(style), "padding-left"@),
        None => None,
    }
}

/// The indentation class for the element: two known widths per level.
pub open spec fn indent_class(attrs: Seq<(String, String)>) -> Option<Seq<char>> {
    match padding_value(attrs) {
        Some(v) => {
            if v == "30px"@ || v == "40px"@ {
                Some("indent-one"@)
            } else if v == "60px"@ || v == "80px"@ {
                Some("indent-two"@)
            } else {
                None
            }
        },
        None => None,
    }
}

/// The effective alignment request: an explicit `text-align` style wins
/// over the legacy `align` attribute, which is compared case-insensitively.
pub open spec fn align_value(attrs: Seq<(String, String)>) -> Option<Seq<char>> {
    let from_style = match attr_lookup(attrs, "style"@) {
        Some(style) => prop_value(style_decls(style), "text-align"@),
        None => None,
    };
    match from_style {
        Some(v) => Some(v),
        None => match attr_lookup(attrs, "align"@) {
            Some(a) => Some(lower_spec(a)),
            None => None,
        },
    }
}

/// The alignment class: `center` and `right` map to classes, `left` and
/// anything unrecognized to none.
pub open spec fn align_class(attrs: Seq<(String, String)>) -> Option<Seq<char>> {
    match align_value(attrs) {
        Some(v) => {
            if v == "center"@ {
                Some("center"@)
            } else if v == "right"@ {
                Some("right"@)
            } else {
                None
            }
        },
        None => None,
    }
}

/// The class attribute text the element gets: empty, or a leading space,
/// `class="`, the classes separated by one space, and a closing quote.
pub open spec fn style_class_string(attrs: Seq<(String, String)>) -> Seq<char> {
    let p = indent_class(attrs);
    let a = align_class(attrs);
    match (p, a) {
        (Some(pc), Some(ac)) => " class=\""@ + pc + " "@ + ac + "\""@,
        (Some(pc), None) => " class=\""@ + pc + "\""@,
        (None, Some(ac)) => " class=\""@ + ac + "\""@,
        (None, None) => Seq::empty(),
    }
}

fn parse_style(style: &Vec<char>) -> (r: Vec<(Vec<char>, Vec<char>)>)
    ensures
        r@.map_values(|d: (Vec<char>, Vec<char>)| (d.0@, d.1@)) == style_decls(style@),
{
    let segs = crate::strutil::split_ch(style, ';');
    let ghost sseq = segs@.map_values(|x: Vec<char>| x@);
    let mut r: Vec<(Vec<char>, Vec<char>)> = Vec::new();
    let mut k: usize = 0;
    proof {
        assert(sseq.skip(0) =~= sseq);
    }
    while k < segs.len()
        invariant
            0 <= k <= segs.len(),
            sseq == segs@.map_values(|x: Vec<char>| x@),
            decls_from(sseq) == r@.map_values(|d: (Vec<char>, Vec<char>)| (d.0@, d.1@))
                + decls_from(sseq.skip(k as int)),
        decreases segs.len() - k,
    {
        let ghost mapped = r@.map_values(|d: (Vec<char>, Vec<char>)| (d.0@, d.1@));
        proof {
            assert(sseq.skip(k as int)[0] == sseq[k as int]);
            assert(sseq.skip(k as int).drop_first() =~= sseq.skip(k + 1));
        }
        let seg = &segs[k];
        match crate::strutil::find_ch_at(seg, ':') {
            Some(i) => {
                let name_part = crate::strutil::copy_range(seg, 0, i);
                let name = crate::strutil::trim(&name_part);
                let value_part = crate::strutil::copy_range(seg, i + 1, seg.len());
                let value = crate::strutil::trim(&value_part);
                proof {
                    assert(name_part@ =~= sseq[k as int].take(i as int));
                    assert(value_part@ =~= sseq[k as int].skip(i + 1));
                }
                r.push((name, value));
                proof {
                    let d = (name@, value@);
                    assert(decl_of(sseq[k as int]) == Some(d));
                    assert(r@.map_values(|d: (Vec<char>, Vec<char>)| (d.0@, d.1@)) =~= mapped
                        + seq![d]);
                    assert(mapped + (seq![d] + decls_from(sseq.skip(k + 1))) =~= (mapped + seq![d])
                        + decls_from(sseq.skip(k + 1)));
                }
            },
            None => {},
        }
        k += 1;
    }
    proof {
        assert(decls_from(sseq.skip(segs@.len() as int)) =~= Seq::<(Seq<char>, Seq<char>)>::empty());
        assert(r@.map_values(|d: (Vec<char>, Vec<char>)| (d.0@, d.1@)) + Seq::<(
            Seq<char>,
            Seq<char>,
        )>::empty() =~= r@.map_values(|d: (Vec<char>, Vec<char>)| (d.0@, d.1@)));
    }
    r
}

fn prop_value_exec(decls: &Vec<(Vec<char>, Vec<char>)>, name: &Vec<char>) -> (r: Option<Vec<char>>)
    ensures
        ({
            let dv = decls@.map_values(|d: (Vec<char>, Vec<char>)| (d.0@, d.1@));
            match r {
                Some(v) => prop_value(dv, name@) == Some(v@),
                None => prop_value(dv, name@) is None,
            }
        }),
{
    let ghost dv = decls@.map_values(|d: (Vec<char>, Vec<char>)| (d.0@, d.1@));
    let mut k: usize = decls.len();
    proof {
        assert(dv.take(decls@.len() as int) =~= dv);
    }
    while k > 0
        invariant
            0 <= k <= decls.len(),
            dv == decls@.map_values(|d: (Vec<char>, Vec<char>)| (d.0@, d.1@)),
            prop_value(dv, name@) == prop_value(dv.take(k as int), name@),
        decreases k,
    {
        k -= 1;
        proof {
            assert(dv.take(k + 1).last() == dv[k as int]);
            assert(dv.take(k + 1).drop_last() =~= dv.take(k as int));
        }
        if crate::strutil::chars_eq(&decls[k].0, name) {
            let value = crate::strutil::copy_range(&decls[k].1, 0, decls[k].1.len());
            proof {
                assert(value@ =~= dv[k as int].1);
            }
            return Some(value);
        }
    }
    proof {
        assert(dv.take(0) =~= Seq::<(Seq<char>, Seq<char>)>::empty());
    }
    None
}

/// The class attribute text derived from an element's `style` and `align`
/// markup: known indentation widths and alignments become classes, an
/// explicit inline style wins over the legacy attribute, and unrecognized
/// values yield nothing.
pub fn style_classes(attrs: &Vec<(String, String)>) -> (r: String)
    ensures
        r@ == style_class_string(attrs@),
{
    let style_name = crate::strutil::to_chars("style");
    let style = crate::dom::attr_value(attrs, &style_name);
    let decls = match &style {
        Some(sv) => parse_style(sv),
        None => Vec::new(),
    };
    proof {
        if style is None {
            assert(decls_from(Seq::<Seq<char>>::empty()) == Seq::<(Seq<char>, Seq<char>)>::empty());
            assert(Seq::<(Vec<char>, Vec<char>)>::empty().map_values(
                |d: (Vec<char>, Vec<char>)| (d.0@, d.1@),
            ) =~= Seq::<(Seq<char>, Seq<char>)>::empty());
        }
    }
    let pad_name = crate::strutil::to_chars("padding-left");
    let pad = match &style {
        Some(_) => prop_value_exec(&decls, &pad_name),
        None => None,
    };
    let indent: Option<&str> = match &pad {
        Some(v) => {
            if crate::strutil::chars_eq_str(v, "30px") || crate::strutil::chars_eq_str(v, "40px") {
                Some("indent-one")
            } else if crate::strutil::chars_eq_str(v, "60px") || crate::strutil::chars_eq_str(
                v,
                "80px",
            ) {
                Some("indent-two")
            } else {
                None
            }
        },
        None => None,
    };
    proof {
        match indent {
            Some(c) => {
                assert(indent_class(attrs@) == Some(c@));
            },
            None => {
                assert(indent_class(attrs@) is None);
            },
        }
    }
    let ta_name = crate::strutil::to_chars("text-align");
    let ta = match &style {
        Some(_) => prop_value_exec(&decls, &ta_name),
        None => None,
    };
    let align_name = crate::strutil::to_chars("align");
    let av: Option<Vec<char>> = match ta {
        Some(v) => Some(v),
        None => {
            match crate::dom::attr_value(attrs, &align_name) {
                Some(a) => Some(crate::strutil::to_lower(&a)),
                None => None,
            }
        },
    };
    let alignment: Option<&str> = match &av {
        Some(v) => {
            if crate::strutil::chars_eq_str(v, "center") {
                Some("center")
            } else if crate::strutil::chars_eq_str(v, "right") {
                Some("right")
            } else {
                None
            }
        },
        None => None,
    };
    proof {
        match alignment {
            Some(c) => {
                assert(align_class(attrs@) == Some(c@));
            },
            None => {
                assert(align_class(attrs@) is None);
            },
        }
    }
    let mut out: Vec<char> = Vec::new();
    let has_any = indent.is_some() || alignment.is_some();
    if has_any {
        let mut prefix = crate::strutil::to_chars(" class=\"");
        out.append(&mut prefix);
        match indent {
            Some(c) => {
                let mut cc = crate::strutil::to_chars(c);
                out.append(&mut cc);
                if alignment.is_some() {
                    let mut sep = crate::strutil::to_chars(" ");
                    out.append(&mut sep);
                }
            },
            None => {},
        }
        match alignment {
            Some(c) => {
                let mut cc = crate::strutil::to_chars(c);
                out.append(&mut cc);
            },
            None => {},
        }
        let mut quote = crate::strutil::to_chars("\"");
        out.append(&mut quote);
    }
    proof {
        assert(out@ =~= style_class_string(attrs@));
    }
    crate::strutil::from_chars(&out)
}

} // verus!
