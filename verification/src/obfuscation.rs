//! Decoding of obfuscated mailto-style text: an anti-scraping script
//! encodes email-like text as hex bytes XOR-ed with a leading key byte,
//! inside an anchor carrying a well-known class and data attribute.  Each
//! such anchor is replaced by the decoded plain text.

use crate::dom::{attr_lookup, open_index, ops_applied, Dom, DomOperation, Token};
use crate::strutil::split_spec;
use vstd::prelude::*;
use vstd::utf8::{decode_utf8, valid_utf8};

verus! {

pub open spec fn is_hex_digit(c: char) -> bool {
    ('0' <= c && c <= '9') || ('a' <= c && c <= 'f') || ('A' <= c && c <= 'F')
}

pub open spec fn hex_val(c: char) -> int {
    if '0' <= c && c <= '9' {
        c as int - '0' as int
    } else if 'a' <= c && c <= 'f' {
        c as int - 'a' as int + 10
    } else {
        c as int - 'A' as int + 10
    }
}

pub open spec fn all_hex(s: Seq<char>) -> bool {
    forall|i: int| 0 <= i < s.len() ==> is_hex_digit(#[trigger] s[i])
}

/// The bytes a hex string denotes, two digits each.
pub open spec fn hex_bytes(s: Seq<char>) -> Seq<u8> {
    Seq::new((s.len() / 2) as nat, |i: int| (16 * hex_val(s[2 * i]) + hex_val(s[2 * i + 1])) as u8)
}

/// Decodes a hex string.
///
/// Relies on `hex::decode`, which succeeds exactly on an even number of
/// hex digits, upper or lower case, and returns the denoted bytes.
#[verifier::external_body]
fn hex_decode(s: &str) -> (r: Option<Vec<u8>>)
    ensures
        (r is Some) == (s@.len() % 2 == 0 && all_hex(s@)),
        r matches Some(v) ==> v@ == hex_bytes(s@),
{
    hex::decode(s).ok()
}

/// Builds a `String` from UTF-8 bytes.
///
/// Relies on `String::from_utf8`, which succeeds exactly on valid UTF-8
/// and decodes it.
#[verifier::external_body]
fn utf8_string(bytes: Vec<u8>) -> (r: Option<String>)
    ensures
        (r is Some) == valid_utf8(bytes@),
        r matches Some(s) ==> s@ == decode_utf8(bytes@),
{
    String::from_utf8(bytes).ok()
}

/// The payload bytes XOR-ed with the leading key byte.
pub open spec fn xor_decode(bytes: Seq<u8>) -> Seq<u8> {
    Seq::new((bytes.len() - 1) as nat, |i: int| bytes[i + 1] ^ bytes[0])
}

/// XOR of every byte after the first with the first.
pub fn deobfuscate(bytes: &Vec<u8>) -> (r: Vec<u8>)
    requires
        bytes@.len() >= 1,
    ensures
        r@ == xor_decode(bytes@),
{
    let key = bytes[0];
    let mut r: Vec<u8> = Vec::new();
    let mut i: usize = 1;
    while i < bytes.len()
        invariant
            1 <= i <= bytes.len(),
            key == bytes@[0],
            r@ =~= xor_decode(bytes@).subrange(0, i - 1),
        decreases bytes.len() - i,
    {
        r.push(bytes[i] ^ key);
        proof {
            assert(xor_decode(bytes@).subrange(0, i - 1).push(bytes@[i as int] ^ bytes@[0])
                =~= xor_decode(bytes@).subrange(0, i as int));
        }
        i += 1;
    }
    proof {
        assert(xor_decode(bytes@).subrange(0, bytes@.len() - 1) =~= xor_decode(bytes@));
    }
    r
}

/// The plain text a payload attribute decodes to, where it is decodable:
/// an even number of hex digits denoting at least a key byte and three
/// content bytes that XOR to valid UTF-8.
pub open spec fn payload_decoded(data: Seq<char>) -> Option<Seq<char>> {
    if data.len() % 2 == 0 && all_hex(data) {
        let bytes = hex_bytes(data);
        if bytes.len() >= 4 && valid_utf8(xor_decode(bytes)) {
            Some(decode_utf8(xor_decode(bytes)))
        } else {
            None
        }
    } else {
        None
    }
}

/// Whether this token opens an obfuscated-mailto anchor that decodes: an
/// `a` element whose class list holds the marker class and whose payload
/// attribute is decodable.
pub open spec fn is_obfuscated_anchor(t: Token) -> bool {
    &&& t is Open
    &&& t->Open_name@ == "a"@
    &&& match attr_lookup(t->Open_attrs@, "class"@) {
        Some(c) => split_spec(c, ' ').contains("__cf_email__"@),
        None => false,
    }
    &&& match attr_lookup(t->Open_attrs@, "data-cfemail"@) {
        Some(d) => payload_decoded(d) is Some,
        None => false,
    }
}

/// The handles among `ids` whose opening token is a decodable
/// obfuscated-mailto anchor, in order.
pub open spec fn obfuscated_among(s: Seq<Token>, ids: Seq<u64>) -> Seq<u64>
    decreases ids.len(),
{
    if ids.len() == 0 {
        Seq::empty()
    } else {
        let rest = obfuscated_among(s, ids.drop_first());
        if is_obfuscated_anchor(s[open_index(s, ids[0])]) {
            seq![ids[0]] + rest
        } else {
            rest
        }
    }
}

/// One text-replacement operation per decodable anchor, in document
/// order, each replacement being that anchor's decoded payload.
pub open spec fn obfuscation_ops_match(ops: Seq<DomOperation>, s: Seq<Token>) -> bool {
    let targets = obfuscated_among(
        s,
        crate::query::ids_named_range(s, 0, s.len() as int, "a"@),
    );
    &&& ops.len() == targets.len()
    &&& forall|k: int|
        0 <= k < ops.len() ==> {
            &&& (#[trigger] ops[k]) is ReplaceElement
            &&& ops[k]->ReplaceElement_node_id == targets[k]
            &&& ops[k]->ReplaceElement_replacement@ == payload_decoded(
                attr_lookup(
                    s[open_index(s, targets[k])]->Open_attrs@,
                    "data-cfemail"@,
                )->Some_0,
            )->Some_0
        }
}

/// Replaces every decodable obfuscated-mailto anchor in the document by
/// its decoded plain text, in document order.
pub fn fix_obfuscated_links(dom: &mut Dom)
    requires
        old(dom).wf(),
    ensures
        final(dom).wf(),
        final(dom).id_bound() == old(dom).id_bound(),
        exists|ops: Seq<DomOperation>|
            #![auto]
            obfuscation_ops_match(ops, old(dom).doc()) && ops_applied(
                ops,
                old(dom).doc(),
                old(dom).detached(),
                final(dom).doc(),
                final(dom).detached(),
            ),
{
    let ghost s = dom.doc();
    let a_name = crate::strutil::to_chars("a");
    let anchors = crate::query::elements_named(dom, &a_name);
    let ghost aids = anchors@;
    let class_name = crate::strutil::to_chars("class");
    let marker = crate::strutil::to_chars("__cf_email__");
    let data_name = crate::strutil::to_chars("data-cfemail");
    let mut ops: Vec<DomOperation> = Vec::new();
    let mut k: usize = 0;
    proof {
        assert(aids.skip(0) =~= aids);
    }
    while k < anchors.len()
        invariant
            0 <= k <= anchors.len(),
            dom.wf(),
            s == dom.doc(),
            aids == anchors@,
            aids == crate::query::ids_named_range(s, 0, s.len() as int, "a"@),
            class_name@ == "class"@,
            marker@ == "__cf_email__"@,
            data_name@ == "data-cfemail"@,
            obfuscated_among(s, aids) == ops@.map_values(
                |op: DomOperation| op->ReplaceElement_node_id,
            ) + obfuscated_among(s, aids.skip(k as int)),
            forall|m: int|
                0 <= m < ops@.len() ==> {
                    &&& (#[trigger] ops@[m]) is ReplaceElement
                    &&& is_obfuscated_anchor(s[open_index(s, ops@[m]->ReplaceElement_node_id)])
                    &&& ops@[m]->ReplaceElement_replacement@ == payload_decoded(
                        attr_lookup(
                            s[open_index(s, ops@[m]->ReplaceElement_node_id)]->Open_attrs@,
                            "data-cfemail"@,
                        )->Some_0,
                    )->Some_0
                },
        decreases anchors.len() - k,
    {
        let id = anchors[k];
        proof {
            assert(aids.skip(k as int)[0] == aids[k as int]);
            assert(aids.skip(k as int).drop_first() =~= aids.skip(k + 1));
            crate::query::lemma_named_id_props(&*dom, 0, s.len() as int, "a"@, k as int);
            assert(s[open_index(s, aids[k as int])]->Open_name@ == "a"@);
        }
        let ghost mapped = ops@.map_values(|op: DomOperation| op->ReplaceElement_node_id);
        let is_marked = match dom.attribute_of(id, &class_name) {
            Some(c) => crate::strutil::split_contains(&c, ' ', &marker),
            None => false,
        };
        let mut handled = false;
        if is_marked {
            match dom.attribute_of(id, &data_name) {
                Some(d) => {
                    let dstr = crate::strutil::from_chars(&d);
                    match hex_decode(dstr.as_str()) {
                        Some(bytes) => {
                            if bytes.len() >= 4 {
                                let decoded = deobfuscate(&bytes);
                                match utf8_string(decoded) {
                                    Some(text) => {
                                        proof {
                                            assert(is_obfuscated_anchor(
                                                s[open_index(s, aids[k as int])],
                                            ));
                                        }
                                        ops.push(
                                            DomOperation::ReplaceElement {
                                                node_id: id,
                                                replacement: text,
                                            },
                                        );
                                        handled = true;
                                        proof {
                                            assert(ops@.map_values(
                                                |op: DomOperation| op->ReplaceElement_node_id,
                                            ) =~= mapped + seq![aids[k as int]]);
                                            assert(mapped + (seq![aids[k as int]]
                                                + obfuscated_among(s, aids.skip(k + 1))) =~= (mapped
                                                + seq![aids[k as int]]) + obfuscated_among(
                                                s,
                                                aids.skip(k + 1),
                                            ));
                                        }
                                    },
                                    None => {},
                                }
                            }
                        },
                        None => {},
                    }
                },
                None => {},
            }
        }
        if !handled {
            proof {
                assert(!is_obfuscated_anchor(s[open_index(s, aids[k as int])]));
            }
        }
        k += 1;
    }
    proof {
        assert(obfuscated_among(s, aids.skip(anchors@.len() as int)) =~= Seq::<u64>::empty());
        assert(ops@.map_values(|op: DomOperation| op->ReplaceElement_node_id) + Seq::<u64>::empty()
            =~= ops@.map_values(|op: DomOperation| op->ReplaceElement_node_id));
        assert(obfuscation_ops_match(ops@, s));
    }
    let ghost built = ops@;
    dom.perform_operations(ops);
    proof {
        assert(obfuscation_ops_match(built, old(dom).doc()) && ops_applied(
            built,
            old(dom).doc(),
            old(dom).detached(),
            final(dom).doc(),
            final(dom).detached(),
        ));
    }
}

} // verus!
