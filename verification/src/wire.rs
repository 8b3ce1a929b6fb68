//! The wire formats of the store: blocks, ring entries and secret versions
//! as length-prefixed binary records. Every parser is exact: it succeeds on
//! precisely the encodings the writers produce and returns the encoded
//! value.

use vstd::prelude::*;

use crate::api::{Attachment, AttachmentView, Property, PropertyView};
use crate::codec::{bytes_seq_view, read_bytes, read_string, spec_enc_bytes, spec_enc_bytes_seq,
    spec_enc_str, string_from_utf8, write_bytes, write_raw, write_str};
use vstd::slice::slice_to_vec;
use vstd::utf8::{decode_utf8_encode_utf8, encode_utf8, encode_utf8_decode_utf8,
    encode_utf8_valid_utf8, valid_utf8};

verus! {

/// Every element of a list encoding is shorter than the whole of it.
pub proof fn lemma_enc_bytes_seq_el_len(els: Seq<Seq<u8>>, i: int)
    requires
        0 <= i < els.len(),
    ensures
        els[i].len() + 8 <= spec_enc_bytes_seq(els).len(),
    decreases i,
{
    crate::codec::lemma_enc_u64_len(els.first().len() as u64);
    if i == 0 {
        assert(spec_enc_bytes_seq(els).len() >= spec_enc_bytes(els[0]).len());
    } else {
        lemma_enc_bytes_seq_el_len(els.drop_first(), i - 1);
        assert(els.drop_first()[i - 1] == els[i]);
    }
}

/// A string element of a list: its UTF-8 bytes, with no further framing.
pub open spec fn spec_enc_string_el(s: Seq<char>) -> Seq<u8> {
    encode_utf8(s)
}

/// Parse a whole list element as a string.
pub fn parse_string_el(bytes: &[u8]) -> (r: Option<String>)
    ensures
        r is Some ==> bytes@ == spec_enc_string_el(r.unwrap()@),
        forall|s: Seq<char>|
            #![trigger spec_enc_string_el(s)]
            bytes@ == spec_enc_string_el(s) ==> r is Some && r.unwrap()@ == s,
{
    let r = string_from_utf8(slice_to_vec(bytes));
    proof {
        if valid_utf8(bytes@) {
            decode_utf8_encode_utf8(bytes@);
        }
        assert forall|s: Seq<char>| bytes@ == spec_enc_string_el(s) implies r is Some && r.unwrap()@
            == s by {
            encode_utf8_valid_utf8(s);
            encode_utf8_decode_utf8(s);
        }
    }
    r
}

/// The encoding of a property: name, then value.
pub open spec fn spec_enc_property(p: PropertyView) -> Seq<u8> {
    spec_enc_str(p.name) + spec_enc_str(p.value)
}

/// Append the encoding of a property to `out`.
pub fn write_property(out: &mut Vec<u8>, p: &Property)
    ensures
        final(out)@ == old(out)@ + spec_enc_property(p@),
{
    write_str(out, p.name.as_str());
    write_str(out, p.value.as_str());
    assert(out@ =~= old(out)@ + spec_enc_property(p@));
}

/// Parse a whole list element as a property.
pub fn parse_property(bytes: &[u8]) -> (r: Option<Property>)
    ensures
        r is Some ==> bytes@ == spec_enc_property(r.unwrap()@),
        forall|pv: PropertyView|
            #![trigger spec_enc_property(pv)]
            bytes@ == spec_enc_property(pv) ==> r is Some && r.unwrap()@ == pv,
{
    let r1 = read_string(bytes, 0);
    match r1 {
        None => {
            proof {
                assert forall|pv: PropertyView| bytes@ == spec_enc_property(pv) implies false by {
                    lemma_enc_property_fields(bytes@, pv);
                }
            }
            None
        },
        Some((name, p1)) => {
            match read_string(bytes, p1) {
                None => {
                    proof {
                        assert forall|pv: PropertyView| bytes@ == spec_enc_property(
                            pv,
                        ) implies false by {
                            lemma_enc_property_fields(bytes@, pv);
                            assert(name@ == pv.name);
                        }
                    }
                    None
                },
                Some((value, p2)) => {
                    if p2 != bytes.len() {
                        proof {
                            assert forall|pv: PropertyView| bytes@ == spec_enc_property(
                                pv,
                            ) implies false by {
                                lemma_enc_property_fields(bytes@, pv);
                                assert(name@ == pv.name);
                                assert(value@ == pv.value);
                            }
                        }
                        return None;
                    }
                    let result = Property { name, value };
                    proof {
                        assert(bytes@ =~= spec_enc_property(result@));
                        assert forall|pv: PropertyView| bytes@ == spec_enc_property(
                            pv,
                        ) implies result@ == pv by {
                            lemma_enc_property_fields(bytes@, pv);
                            assert(result@ =~= pv);
                        }
                    }
                    Some(result)
                },
            }
        },
    }
}

/// When a property encoding fills `bytes`, its two fields sit at their
/// fixed offsets.
proof fn lemma_enc_property_fields(bytes: Seq<u8>, pv: PropertyView)
    requires
        bytes == spec_enc_property(pv),
    ensures
        8 + encode_utf8(pv.name).len() <= bytes.len(),
        bytes.subrange(0, 8 + encode_utf8(pv.name).len() as int) == spec_enc_str(pv.name),
        8 + encode_utf8(pv.name).len() + 8 + encode_utf8(pv.value).len() == bytes.len(),
        bytes.subrange(8 + encode_utf8(pv.name).len() as int, bytes.len() as int) == spec_enc_str(
            pv.value,
        ),
{
    crate::codec::lemma_enc_u64_len(encode_utf8(pv.name).len() as u64);
    crate::codec::lemma_enc_u64_len(encode_utf8(pv.value).len() as u64);
    assert(bytes.subrange(0, 8 + encode_utf8(pv.name).len() as int) =~= spec_enc_str(pv.name));
    assert(bytes.subrange(8 + encode_utf8(pv.name).len() as int, bytes.len() as int)
        =~= spec_enc_str(pv.value));
}

/// The encoding of an attachment: name, then content.
pub open spec fn spec_enc_attachment(a: AttachmentView) -> Seq<u8> {
    spec_enc_str(a.name) + spec_enc_bytes(a.content)
}

/// Append the encoding of an attachment to `out`.
pub fn write_attachment(out: &mut Vec<u8>, a: &Attachment)
    ensures
        final(out)@ == old(out)@ + spec_enc_attachment(a@),
{
    write_str(out, a.name.as_str());
    write_bytes(out, a.content.as_slice());
    assert(out@ =~= old(out)@ + spec_enc_attachment(a@));
}

/// Parse a whole list element as an attachment.
pub fn parse_attachment(bytes: &[u8]) -> (r: Option<Attachment>)
    ensures
        r is Some ==> bytes@ == spec_enc_attachment(r.unwrap()@),
        forall|av: AttachmentView|
            #![trigger spec_enc_attachment(av)]
            bytes@ == spec_enc_attachment(av) ==> r is Some && r.unwrap()@ == av,
{
    let r1 = read_string(bytes, 0);
    match r1 {
        None => {
            proof {
                assert forall|av: AttachmentView| bytes@ == spec_enc_attachment(
                    av,
                ) implies false by {
                    lemma_enc_attachment_fields(bytes@, av);
                }
            }
            None
        },
        Some((name, p1)) => {
            match read_bytes(bytes, p1) {
                None => {
                    proof {
                        assert forall|av: AttachmentView| bytes@ == spec_enc_attachment(
                            av,
                        ) implies false by {
                            lemma_enc_attachment_fields(bytes@, av);
                            assert(name@ == av.name);
                        }
                    }
                    None
                },
                Some((content, p2)) => {
                    if p2 != bytes.len() {
                        proof {
                            assert forall|av: AttachmentView| bytes@ == spec_enc_attachment(
                                av,
                            ) implies false by {
                                lemma_enc_attachment_fields(bytes@, av);
                                assert(name@ == av.name);
                                assert(content@ == av.content);
                            }
                        }
                        return None;
                    }
                    let result = Attachment { name, content };
                    proof {
                        assert(bytes@ =~= spec_enc_attachment(result@));
                        assert forall|av: AttachmentView| bytes@ == spec_enc_attachment(
                            av,
                        ) implies result@ == av by {
                            lemma_enc_attachment_fields(bytes@, av);
                            assert(result@ =~= av);
                        }
                    }
                    Some(result)
                },
            }
        },
    }
}

/// When an attachment encoding fills `bytes`, its two fields sit at their
/// fixed offsets.
proof fn lemma_enc_attachment_fields(bytes: Seq<u8>, av: AttachmentView)
    requires
        bytes == spec_enc_attachment(av),
    ensures
        8 + encode_utf8(av.name).len() <= bytes.len(),
        bytes.subrange(0, 8 + encode_utf8(av.name).len() as int) == spec_enc_str(av.name),
        8 + encode_utf8(av.name).len() + 8 + av.content.len() == bytes.len(),
        bytes.subrange(8 + encode_utf8(av.name).len() as int, bytes.len() as int) == spec_enc_bytes(
            av.content,
        ),
{
    crate::codec::lemma_enc_u64_len(encode_utf8(av.name).len() as u64);
    crate::codec::lemma_enc_u64_len(av.content.len() as u64);
    assert(bytes.subrange(0, 8 + encode_utf8(av.name).len() as int) =~= spec_enc_str(av.name));
    assert(bytes.subrange(8 + encode_utf8(av.name).len() as int, bytes.len() as int)
        =~= spec_enc_bytes(av.content));
}

/// The list elements of a string list.
pub open spec fn str_els(ss: Seq<Seq<char>>) -> Seq<Seq<u8>> {
    Seq::new(ss.len(), |i: int| spec_enc_string_el(ss[i]))
}

/// The list elements of a property list.
pub open spec fn prop_els(ps: Seq<PropertyView>) -> Seq<Seq<u8>> {
    Seq::new(ps.len(), |i: int| spec_enc_property(ps[i]))
}

/// The list elements of an attachment list.
pub open spec fn att_els(avs: Seq<AttachmentView>) -> Seq<Seq<u8>> {
    Seq::new(avs.len(), |i: int| spec_enc_attachment(avs[i]))
}

/// Encode each string of `items` as a list element.
pub fn string_els(items: &Vec<String>) -> (r: Vec<Vec<u8>>)
    ensures
        bytes_seq_view(r@) == str_els(crate::api::str_seq_view(items@)),
{
    let mut out: Vec<Vec<u8>> = Vec::new();
    let mut i: usize = 0;
    while i < items.len()
        invariant
            i <= items@.len(),
            out@.len() == i,
            forall|j: int| 0 <= j < i ==> (#[trigger] out@[j])@ == spec_enc_string_el(
                items@[j]@,
            ),
        decreases items@.len() - i,
    {
        out.push(slice_to_vec(items[i].as_str().as_bytes()));
        i = i + 1;
    }
    proof {
        assert(bytes_seq_view(out@) =~= str_els(crate::api::str_seq_view(items@)));
    }
    out
}

/// Parse each list element as a string.
pub fn parse_string_list(raw: &Vec<Vec<u8>>) -> (r: Option<Vec<String>>)
    ensures
        r is Some ==> bytes_seq_view(raw@) == str_els(crate::api::str_seq_view(r.unwrap()@)),
        forall|ss: Seq<Seq<char>>|
            #![trigger str_els(ss)]
            bytes_seq_view(raw@) == str_els(ss) ==> r is Some && crate::api::str_seq_view(
                r.unwrap()@,
            ) == ss,
{
    let mut out: Vec<String> = Vec::new();
    let mut i: usize = 0;
    while i < raw.len()
        invariant
            i <= raw@.len(),
            out@.len() == i,
            forall|j: int| 0 <= j < i ==> (#[trigger] raw@[j])@ == spec_enc_string_el(out@[j]@),
            forall|j: int, s: Seq<char>|
                #![trigger spec_enc_string_el(s), raw@[j]]
                0 <= j < i && raw@[j]@ == spec_enc_string_el(s) ==> out@[j]@ == s,
        decreases raw@.len() - i,
    {
        match parse_string_el(raw[i].as_slice()) {
            None => {
                proof {
                    assert forall|ss: Seq<Seq<char>>| bytes_seq_view(raw@) == str_els(
                        ss,
                    ) implies false by {
                        assert(str_els(ss).len() == ss.len());
                        assert(bytes_seq_view(raw@).len() == raw@.len());
                        assert(bytes_seq_view(raw@)[i as int] == raw@[i as int]@);
                        assert(str_els(ss)[i as int] == spec_enc_string_el(ss[i as int]));
                        assert(raw@[i as int]@ == spec_enc_string_el(ss[i as int]));
                    }
                }
                return None;
            },
            Some(s) => {
                out.push(s);
                i = i + 1;
            },
        }
    }
    proof {
        assert(bytes_seq_view(raw@) =~= str_els(crate::api::str_seq_view(out@)));
        assert forall|ss: Seq<Seq<char>>| bytes_seq_view(raw@) == str_els(
            ss,
        ) implies crate::api::str_seq_view(out@) == ss by {
            assert forall|j: int| 0 <= j < ss.len() implies out@[j]@ == ss[j] by {
                assert(bytes_seq_view(raw@)[j] == raw@[j]@);
                assert(str_els(ss)[j] == spec_enc_string_el(ss[j]));
                assert(raw@[j]@ == spec_enc_string_el(ss[j]));
            }
            assert(crate::api::str_seq_view(out@) =~= ss);
        }
    }
    Some(out)
}

/// Encode each property of `items` as a list element.
pub fn property_els(items: &Vec<Property>) -> (r: Vec<Vec<u8>>)
    ensures
        bytes_seq_view(r@) == prop_els(crate::api::prop_seq_view(items@)),
{
    let mut out: Vec<Vec<u8>> = Vec::new();
    let mut i: usize = 0;
    while i < items.len()
        invariant
            i <= items@.len(),
            out@.len() == i,
            forall|j: int| 0 <= j < i ==> (#[trigger] out@[j])@ == spec_enc_property(items@[j]@),
        decreases items@.len() - i,
    {
        let mut el: Vec<u8> = Vec::new();
        write_property(&mut el, &items[i]);
        out.push(el);
        i = i + 1;
    }
    proof {
        assert(bytes_seq_view(out@) =~= prop_els(crate::api::prop_seq_view(items@)));
    }
    out
}

/// Parse each list element as a property.
pub fn parse_property_list(raw: &Vec<Vec<u8>>) -> (r: Option<Vec<Property>>)
    ensures
        r is Some ==> bytes_seq_view(raw@) == prop_els(crate::api::prop_seq_view(r.unwrap()@)),
        forall|ps: Seq<PropertyView>|
            #![trigger prop_els(ps)]
            bytes_seq_view(raw@) == prop_els(ps) ==> r is Some && crate::api::prop_seq_view(
                r.unwrap()@,
            ) == ps,
{
    let mut out: Vec<Property> = Vec::new();
    let mut i: usize = 0;
    while i < raw.len()
        invariant
            i <= raw@.len(),
            out@.len() == i,
            forall|j: int| 0 <= j < i ==> (#[trigger] raw@[j])@ == spec_enc_property(out@[j]@),
            forall|j: int, pv: PropertyView|
                #![trigger spec_enc_property(pv), raw@[j]]
                0 <= j < i && raw@[j]@ == spec_enc_property(pv) ==> out@[j]@ == pv,
        decreases raw@.len() - i,
    {
        match parse_property(raw[i].as_slice()) {
            None => {
                proof {
                    assert forall|ps: Seq<PropertyView>| bytes_seq_view(raw@) == prop_els(
                        ps,
                    ) implies false by {
                        assert(prop_els(ps).len() == ps.len());
                        assert(bytes_seq_view(raw@).len() == raw@.len());
                        assert(bytes_seq_view(raw@)[i as int] == raw@[i as int]@);
                        assert(prop_els(ps)[i as int] == spec_enc_property(ps[i as int]));
                        assert(raw@[i as int]@ == spec_enc_property(ps[i as int]));
                    }
                }
                return None;
            },
            Some(p) => {
                out.push(p);
                i = i + 1;
            },
        }
    }
    proof {
        assert(bytes_seq_view(raw@) =~= prop_els(crate::api::prop_seq_view(out@)));
        assert forall|ps: Seq<PropertyView>| bytes_seq_view(raw@) == prop_els(
            ps,
        ) implies crate::api::prop_seq_view(out@) == ps by {
            assert forall|j: int| 0 <= j < ps.len() implies out@[j]@ == ps[j] by {
                assert(bytes_seq_view(raw@)[j] == raw@[j]@);
                assert(prop_els(ps)[j] == spec_enc_property(ps[j]));
                assert(raw@[j]@ == spec_enc_property(ps[j]));
            }
            assert(crate::api::prop_seq_view(out@) =~= ps);
        }
    }
    Some(out)
}

/// Encode each attachment of `items` as a list element.
pub fn attachment_els(items: &Vec<Attachment>) -> (r: Vec<Vec<u8>>)
    ensures
        bytes_seq_view(r@) == att_els(crate::api::att_seq_view(items@)),
{
    let mut out: Vec<Vec<u8>> = Vec::new();
    let mut i: usize = 0;
    while i < items.len()
        invariant
            i <= items@.len(),
            out@.len() == i,
            forall|j: int| 0 <= j < i ==> (#[trigger] out@[j])@ == spec_enc_attachment(
                items@[j]@,
            ),
        decreases items@.len() - i,
    {
        let mut el: Vec<u8> = Vec::new();
        write_attachment(&mut el, &items[i]);
        out.push(el);
        i = i + 1;
    }
    proof {
        assert(bytes_seq_view(out@) =~= att_els(crate::api::att_seq_view(items@)));
    }
    out
}

/// Parse each list element as an attachment.
pub fn parse_attachment_list(raw: &Vec<Vec<u8>>) -> (r: Option<Vec<Attachment>>)
    ensures
        r is Some ==> bytes_seq_view(raw@) == att_els(crate::api::att_seq_view(r.unwrap()@)),
        forall|avs: Seq<AttachmentView>|
            #![trigger att_els(avs)]
            bytes_seq_view(raw@) == att_els(avs) ==> r is Some && crate::api::att_seq_view(
                r.unwrap()@,
            ) == avs,
{
    let mut out: Vec<Attachment> = Vec::new();
    let mut i: usize = 0;
    while i < raw.len()
        invariant
            i <= raw@.len(),
            out@.len() == i,
            forall|j: int| 0 <= j < i ==> (#[trigger] raw@[j])@ == spec_enc_attachment(out@[j]@),
            forall|j: int, av: AttachmentView|
                #![trigger spec_enc_attachment(av), raw@[j]]
                0 <= j < i && raw@[j]@ == spec_enc_attachment(av) ==> out@[j]@ == av,
        decreases raw@.len() - i,
    {
        match parse_attachment(raw[i].as_slice()) {
            None => {
                proof {
                    assert forall|avs: Seq<AttachmentView>| bytes_seq_view(raw@) == att_els(
                        avs,
                    ) implies false by {
                        assert(att_els(avs).len() == avs.len());
                        assert(bytes_seq_view(raw@).len() == raw@.len());
                        assert(bytes_seq_view(raw@)[i as int] == raw@[i as int]@);
                        assert(att_els(avs)[i as int] == spec_enc_attachment(avs[i as int]));
                        assert(raw@[i as int]@ == spec_enc_attachment(avs[i as int]));
                    }
                }
                return None;
            },
            Some(a) => {
                out.push(a);
                i = i + 1;
            },
        }
    }
    proof {
        assert(bytes_seq_view(raw@) =~= att_els(crate::api::att_seq_view(out@)));
        assert forall|avs: Seq<AttachmentView>| bytes_seq_view(raw@) == att_els(
            avs,
        ) implies crate::api::att_seq_view(out@) == avs by {
            assert forall|j: int| 0 <= j < avs.len() implies out@[j]@ == avs[j] by {
                assert(bytes_seq_view(raw@)[j] == raw@[j]@);
                assert(att_els(avs)[j] == spec_enc_attachment(avs[j]));
                assert(raw@[j]@ == spec_enc_attachment(avs[j]));
            }
            assert(crate::api::att_seq_view(out@) =~= avs);
        }
    }
    Some(out)
}

/// The encoding of a block-header recipient: id bytes, then the wrapped
/// key, both length-prefixed.
pub open spec fn spec_enc_recipient(rv: crate::block::RecipientView) -> Seq<u8> {
    spec_enc_bytes(rv.id) + spec_enc_bytes(rv.crypted_key)
}

/// Append the encoding of a recipient to `out`.
pub fn write_recipient(out: &mut Vec<u8>, rec: &crate::block::Recipient)
    ensures
        final(out)@ == old(out)@ + spec_enc_recipient(rec@),
{
    write_bytes(out, rec.id.as_slice());
    write_bytes(out, rec.crypted_key.as_slice());
    assert(out@ =~= old(out)@ + spec_enc_recipient(rec@));
}

/// Parse a whole list element as a recipient.
pub fn parse_recipient(bytes: &[u8]) -> (r: Option<crate::block::Recipient>)
    ensures
        r is Some ==> bytes@ == spec_enc_recipient(r.unwrap()@),
        forall|rv: crate::block::RecipientView|
            #![trigger spec_enc_recipient(rv)]
            bytes@ == spec_enc_recipient(rv) ==> r is Some && r.unwrap()@ == rv,
{
    let r1 = read_bytes(bytes, 0);
    match r1 {
        None => {
            proof {
                assert forall|rv: crate::block::RecipientView| bytes@ == spec_enc_recipient(
                    rv,
                ) implies false by {
                    lemma_enc_recipient_fields(bytes@, rv);
                }
            }
            None
        },
        Some((id, p1)) => {
            match read_bytes(bytes, p1) {
                None => {
                    proof {
                        assert forall|rv: crate::block::RecipientView| bytes@ == spec_enc_recipient(
                            rv,
                        ) implies false by {
                            lemma_enc_recipient_fields(bytes@, rv);
                            assert(id@ == rv.id);
                        }
                    }
                    None
                },
                Some((crypted_key, p2)) => {
                    if p2 != bytes.len() {
                        proof {
                            assert forall|rv: crate::block::RecipientView| bytes@
                                == spec_enc_recipient(rv) implies false by {
                                lemma_enc_recipient_fields(bytes@, rv);
                                assert(id@ == rv.id);
                                assert(crypted_key@ == rv.crypted_key);
                            }
                        }
                        return None;
                    }
                    let result = crate::block::Recipient { id, crypted_key };
                    proof {
                        assert(bytes@ =~= spec_enc_recipient(result@));
                        assert forall|rv: crate::block::RecipientView| bytes@ == spec_enc_recipient(
                            rv,
                        ) implies result@ == rv by {
                            lemma_enc_recipient_fields(bytes@, rv);
                            assert(result@ =~= rv);
                        }
                    }
                    Some(result)
                },
            }
        },
    }
}

/// When a recipient encoding fills `bytes`, its two fields sit at their
/// fixed offsets.
proof fn lemma_enc_recipient_fields(bytes: Seq<u8>, rv: crate::block::RecipientView)
    requires
        bytes == spec_enc_recipient(rv),
    ensures
        8 + rv.id.len() <= bytes.len(),
        bytes.subrange(0, 8 + rv.id.len() as int) == spec_enc_bytes(rv.id),
        8 + rv.id.len() + 8 + rv.crypted_key.len() == bytes.len(),
        bytes.subrange(8 + rv.id.len() as int, bytes.len() as int) == spec_enc_bytes(
            rv.crypted_key,
        ),
{
    crate::codec::lemma_enc_u64_len(rv.id.len() as u64);
    crate::codec::lemma_enc_u64_len(rv.crypted_key.len() as u64);
    assert(bytes.subrange(0, 8 + rv.id.len() as int) =~= spec_enc_bytes(rv.id));
    assert(bytes.subrange(8 + rv.id.len() as int, bytes.len() as int) =~= spec_enc_bytes(
        rv.crypted_key,
    ));
}

/// The list elements of a recipient list.
pub open spec fn rec_els(rs: Seq<crate::block::RecipientView>) -> Seq<Seq<u8>> {
    Seq::new(rs.len(), |i: int| spec_enc_recipient(rs[i]))
}

/// The views of a vector of recipients.
pub open spec fn rec_seq_view(v: Seq<crate::block::Recipient>) -> Seq<crate::block::RecipientView> {
    Seq::new(v.len(), |i: int| v[i]@)
}

/// Encode each recipient of `items` as a list element.
pub fn recipient_els(items: &Vec<crate::block::Recipient>) -> (r: Vec<Vec<u8>>)
    ensures
        bytes_seq_view(r@) == rec_els(rec_seq_view(items@)),
{
    let mut out: Vec<Vec<u8>> = Vec::new();
    let mut i: usize = 0;
    while i < items.len()
        invariant
            i <= items@.len(),
            out@.len() == i,
            forall|j: int| 0 <= j < i ==> (#[trigger] out@[j])@ == spec_enc_recipient(items@[j]@),
        decreases items@.len() - i,
    {
        let mut el: Vec<u8> = Vec::new();
        write_recipient(&mut el, &items[i]);
        out.push(el);
        i = i + 1;
    }
    proof {
        assert(bytes_seq_view(out@) =~= rec_els(rec_seq_view(items@)));
    }
    out
}

/// Parse each list element as a recipient.
pub fn parse_recipient_list(raw: &Vec<Vec<u8>>) -> (r: Option<Vec<crate::block::Recipient>>)
    ensures
        r is Some ==> bytes_seq_view(raw@) == rec_els(rec_seq_view(r.unwrap()@)),
        forall|rs: Seq<crate::block::RecipientView>|
            #![trigger rec_els(rs)]
            bytes_seq_view(raw@) == rec_els(rs) ==> r is Some && rec_seq_view(r.unwrap()@) == rs,
{
    let mut out: Vec<crate::block::Recipient> = Vec::new();
    let mut i: usize = 0;
    while i < raw.len()
        invariant
            i <= raw@.len(),
            out@.len() == i,
            forall|j: int| 0 <= j < i ==> (#[trigger] raw@[j])@ == spec_enc_recipient(out@[j]@),
            forall|j: int, rv: crate::block::RecipientView|
                #![trigger spec_enc_recipient(rv), raw@[j]]
                0 <= j < i && raw@[j]@ == spec_enc_recipient(rv) ==> out@[j]@ == rv,
        decreases raw@.len() - i,
    {
        match parse_recipient(raw[i].as_slice()) {
            None => {
                proof {
                    assert forall|rs: Seq<crate::block::RecipientView>| bytes_seq_view(raw@)
                        == rec_els(rs) implies false by {
                        assert(rec_els(rs).len() == rs.len());
                        assert(bytes_seq_view(raw@).len() == raw@.len());
                        assert(bytes_seq_view(raw@)[i as int] == raw@[i as int]@);
                        assert(rec_els(rs)[i as int] == spec_enc_recipient(rs[i as int]));
                        assert(raw@[i as int]@ == spec_enc_recipient(rs[i as int]));
                    }
                }
                return None;
            },
            Some(rec) => {
                out.push(rec);
                i = i + 1;
            },
        }
    }
    proof {
        assert(bytes_seq_view(raw@) =~= rec_els(rec_seq_view(out@)));
        assert forall|rs: Seq<crate::block::RecipientView>| bytes_seq_view(raw@) == rec_els(
            rs,
        ) implies rec_seq_view(out@) == rs by {
            assert forall|j: int| 0 <= j < rs.len() implies out@[j]@ == rs[j] by {
                assert(bytes_seq_view(raw@)[j] == raw@[j]@);
                assert(rec_els(rs)[j] == spec_enc_recipient(rs[j]));
                assert(raw@[j]@ == spec_enc_recipient(rs[j]));
            }
            assert(rec_seq_view(out@) =~= rs);
        }
    }
    Some(out)
}

/// Every list encoding whose length fits a machine word is well formed.
pub proof fn lemma_bytes_seq_wf_from_len(els: Seq<Seq<u8>>, bound: int)
    requires
        crate::codec::spec_enc_bytes_list(els).len() <= bound,
        bound <= u64::MAX,
    ensures
        crate::codec::bytes_seq_wf(els),
{
    crate::codec::lemma_enc_bytes_seq_len(els);
    crate::codec::lemma_enc_u64_len(els.len() as u64);
    assert forall|i: int| 0 <= i < els.len() implies (#[trigger] els[i]).len() <= u64::MAX by {
        lemma_enc_bytes_seq_el_len(els, i);
    }
}

/// The byte that encodes a boolean flag.
pub open spec fn spec_bool_byte(b: bool) -> u8 {
    if b {
        1u8
    } else {
        0u8
    }
}

/// The encoding of a complete block: cipher tag, nonce, recipients and the
/// payload ciphertext filling the rest.
pub open spec fn spec_enc_block(bv: crate::block::BlockView) -> Seq<u8> {
    seq![bv.header.block_type] + spec_enc_bytes(bv.header.common_key)
        + crate::codec::spec_enc_bytes_list(rec_els(bv.header.recipients)) + bv.ciphertext
}

/// Serialize a block.
pub fn serialize_block(b: &crate::block::Block) -> (r: Vec<u8>)
    ensures
        r@ == spec_enc_block(b@),
{
    let mut out: Vec<u8> = Vec::new();
    out.push(b.header.block_type);
    write_bytes(&mut out, b.header.common_key.as_slice());
    let els = recipient_els(&b.header.recipients);
    crate::codec::write_bytes_list(&mut out, &els);
    write_raw(&mut out, b.ciphertext.as_slice());
    proof {
        assert(rec_seq_view(b.header.recipients@) =~= b.header@.recipients);
        assert(out@ =~= spec_enc_block(b@));
    }
    out
}

/// When a block encoding fills `bytes`, its fields sit at their offsets.
proof fn lemma_enc_block_fields(bytes: Seq<u8>, bv: crate::block::BlockView)
    requires
        bytes == spec_enc_block(bv),
    ensures
        1 + 8 + bv.header.common_key.len() + crate::codec::spec_enc_bytes_list(
            rec_els(bv.header.recipients),
        ).len() + bv.ciphertext.len() == bytes.len(),
        bytes[0] == bv.header.block_type,
        bytes.subrange(1, 1 + 8 + bv.header.common_key.len() as int) == spec_enc_bytes(
            bv.header.common_key,
        ),
        bytes.subrange(
            1 + 8 + bv.header.common_key.len() as int,
            1 + 8 + bv.header.common_key.len() + crate::codec::spec_enc_bytes_list(
                rec_els(bv.header.recipients),
            ).len() as int,
        ) == crate::codec::spec_enc_bytes_list(rec_els(bv.header.recipients)),
        bytes.subrange(
            1 + 8 + bv.header.common_key.len() + crate::codec::spec_enc_bytes_list(
                rec_els(bv.header.recipients),
            ).len() as int,
            bytes.len() as int,
        ) == bv.ciphertext,
{
    crate::codec::lemma_enc_u64_len(bv.header.common_key.len() as u64);
    crate::codec::lemma_enc_u64_len(rec_els(bv.header.recipients).len() as u64);
    let o1: int = 1 + 8 + bv.header.common_key.len() as int;
    let o2: int = o1 + crate::codec::spec_enc_bytes_list(rec_els(bv.header.recipients)).len() as int;
    assert(bytes.subrange(1, o1) =~= spec_enc_bytes(bv.header.common_key));
    assert(bytes.subrange(o1, o2) =~= crate::codec::spec_enc_bytes_list(
        rec_els(bv.header.recipients),
    ));
    assert(bytes.subrange(o2, bytes.len() as int) =~= bv.ciphertext);
}

/// Parse a complete block. Succeeds on exactly the encodings
/// `serialize_block` produces, and returns the encoded block.
pub fn parse_block(bytes: &[u8]) -> (r: Option<crate::block::Block>)
    ensures
        r is Some ==> bytes@ == spec_enc_block(r.unwrap()@),
        forall|bv: crate::block::BlockView|
            #![trigger spec_enc_block(bv)]
            bytes@ == spec_enc_block(bv) ==> r is Some && r.unwrap()@ == bv,
{
    let total = bytes.len();
    proof {
        assert(bytes@.len() == total <= u64::MAX);
    }
    let r0 = crate::codec::read_u8(bytes, 0);
    match r0 {
        None => {
            proof {
                assert forall|bv: crate::block::BlockView| bytes@ == spec_enc_block(
                    bv,
                ) implies false by {
                    lemma_enc_block_fields(bytes@, bv);
                }
            }
            None
        },
        Some((block_type, p0)) => {
            match read_bytes(bytes, p0) {
                None => {
                    proof {
                        assert forall|bv: crate::block::BlockView| bytes@ == spec_enc_block(
                            bv,
                        ) implies false by {
                            lemma_enc_block_fields(bytes@, bv);
                        }
                    }
                    None
                },
                Some((common_key, p1)) => {
                    match crate::codec::read_bytes_list(bytes, p1) {
                        None => {
                            proof {
                                assert forall|bv: crate::block::BlockView| bytes@ == spec_enc_block(
                                    bv,
                                ) implies false by {
                                    lemma_enc_block_fields(bytes@, bv);
                                    assert(common_key@ == bv.header.common_key);
                                    lemma_bytes_seq_wf_from_len(
                                        rec_els(bv.header.recipients),
                                        bytes@.len() as int,
                                    );
                                }
                            }
                            None
                        },
                        Some((raw_recipients, p2)) => {
                            match parse_recipient_list(&raw_recipients) {
                                None => {
                                    proof {
                                        assert forall|bv: crate::block::BlockView| bytes@
                                            == spec_enc_block(bv) implies false by {
                                            lemma_enc_block_fields(bytes@, bv);
                                            assert(common_key@ == bv.header.common_key);
                                            lemma_bytes_seq_wf_from_len(
                                                rec_els(bv.header.recipients),
                                                bytes@.len() as int,
                                            );
                                            assert(bytes_seq_view(raw_recipients@) == rec_els(
                                                bv.header.recipients,
                                            ));
                                        }
                                    }
                                    None
                                },
                                Some(recipients) => {
                                    let ciphertext = slice_to_vec(
                                        vstd::slice::slice_subrange(bytes, p2, bytes.len()),
                                    );
                                    let result = crate::block::Block {
                                        header: crate::block::BlockHeader {
                                            block_type,
                                            common_key,
                                            recipients,
                                        },
                                        ciphertext,
                                    };
                                    proof {
                                        assert(rec_seq_view(result.header.recipients@)
                                            =~= result.header@.recipients);
                                        assert(bytes@ =~= spec_enc_block(result@));
                                        assert forall|bv: crate::block::BlockView| bytes@
                                            == spec_enc_block(bv) implies result@ == bv by {
                                            lemma_enc_block_fields(bytes@, bv);
                                            assert(common_key@ == bv.header.common_key);
                                            lemma_bytes_seq_wf_from_len(
                                                rec_els(bv.header.recipients),
                                                bytes@.len() as int,
                                            );
                                            assert(bytes_seq_view(raw_recipients@) == rec_els(
                                                bv.header.recipients,
                                            ));
                                            assert(rec_seq_view(recipients@)
                                                == bv.header.recipients);
                                            assert(result@.ciphertext =~= bv.ciphertext);
                                            assert(result@ =~= bv);
                                        }
                                    }
                                    Some(result)
                                },
                            }
                        },
                    }
                },
            }
        },
    }
}

/// The KDF tag for scrypt (block size 8, parallelism 1).
pub const KDF_SCRYPT: u8 = 1;

/// One keyring entry: an identity, its public key and its passphrase-sealed
/// private key with the KDF parameters that seal it.
pub struct RingEntry {
    pub id: String,
    pub name: String,
    pub email: String,
    pub public_key: Vec<u8>,
    pub private_key_nonce: Vec<u8>,
    pub sealed_private_key: Vec<u8>,
    pub kdf_algorithm: u8,
    pub kdf_salt: Vec<u8>,
    pub kdf_cost: u64,
}

#[verifier::ext_equal]
pub ghost struct RingEntryView {
    pub id: Seq<char>,
    pub name: Seq<char>,
    pub email: Seq<char>,
    pub public_key: Seq<u8>,
    pub private_key_nonce: Seq<u8>,
    pub sealed_private_key: Seq<u8>,
    pub kdf_algorithm: u8,
    pub kdf_salt: Seq<u8>,
    pub kdf_cost: u64,
}

impl View for RingEntry {
    type V = RingEntryView;

    open spec fn view(&self) -> RingEntryView {
        RingEntryView {
            id: self.id@,
            name: self.name@,
            email: self.email@,
            public_key: self.public_key@,
            private_key_nonce: self.private_key_nonce@,
            sealed_private_key: self.sealed_private_key@,
            kdf_algorithm: self.kdf_algorithm,
            kdf_salt: self.kdf_salt@,
            kdf_cost: self.kdf_cost,
        }
    }
}

/// The encoding of a ring entry: the identity fields, the public key, the
/// sealed private key with its nonce, and the KDF parameters.
pub open spec fn spec_enc_ring_entry(ev: RingEntryView) -> Seq<u8> {
    spec_enc_str(ev.id) + spec_enc_str(ev.name) + spec_enc_str(ev.email) + spec_enc_bytes(
        ev.public_key,
    ) + spec_enc_bytes(ev.private_key_nonce) + spec_enc_bytes(ev.sealed_private_key) + seq![
        ev.kdf_algorithm,
    ] + spec_enc_bytes(ev.kdf_salt) + crate::codec::spec_enc_u64(ev.kdf_cost)
}

/// Append the encoding of a ring entry to `out`.
pub fn write_ring_entry(out: &mut Vec<u8>, e: &RingEntry)
    ensures
        final(out)@ == old(out)@ + spec_enc_ring_entry(e@),
{
    write_str(out, e.id.as_str());
    write_str(out, e.name.as_str());
    write_str(out, e.email.as_str());
    write_bytes(out, e.public_key.as_slice());
    write_bytes(out, e.private_key_nonce.as_slice());
    write_bytes(out, e.sealed_private_key.as_slice());
    out.push(e.kdf_algorithm);
    write_bytes(out, e.kdf_salt.as_slice());
    crate::codec::write_u64(out, e.kdf_cost);
    assert(out@ =~= old(out)@ + spec_enc_ring_entry(e@));
}

/// When a ring-entry encoding fills `bytes`, its fields sit at their
/// offsets.
proof fn lemma_enc_ring_entry_fields(bytes: Seq<u8>, ev: RingEntryView)
    requires
        bytes == spec_enc_ring_entry(ev),
    ensures
        ({
            let o1 = 8 + encode_utf8(ev.id).len() as int;
            let o2 = o1 + 8 + encode_utf8(ev.name).len() as int;
            let o3 = o2 + 8 + encode_utf8(ev.email).len() as int;
            let o4 = o3 + 8 + ev.public_key.len() as int;
            let o5 = o4 + 8 + ev.private_key_nonce.len() as int;
            let o6 = o5 + 8 + ev.sealed_private_key.len() as int;
            let o7 = o6 + 1;
            let o8 = o7 + 8 + ev.kdf_salt.len() as int;
            &&& o8 + 8 == bytes.len()
            &&& bytes.subrange(0, o1) == spec_enc_str(ev.id)
            &&& bytes.subrange(o1, o2) == spec_enc_str(ev.name)
            &&& bytes.subrange(o2, o3) == spec_enc_str(ev.email)
            &&& bytes.subrange(o3, o4) == spec_enc_bytes(ev.public_key)
            &&& bytes.subrange(o4, o5) == spec_enc_bytes(ev.private_key_nonce)
            &&& bytes.subrange(o5, o6) == spec_enc_bytes(ev.sealed_private_key)
            &&& bytes[o6] == ev.kdf_algorithm
            &&& bytes.subrange(o7, o8) == spec_enc_bytes(ev.kdf_salt)
            &&& bytes.subrange(o8, o8 + 8) == crate::codec::spec_enc_u64(ev.kdf_cost)
        }),
{
    crate::codec::lemma_enc_u64_len(encode_utf8(ev.id).len() as u64);
    crate::codec::lemma_enc_u64_len(encode_utf8(ev.name).len() as u64);
    crate::codec::lemma_enc_u64_len(encode_utf8(ev.email).len() as u64);
    crate::codec::lemma_enc_u64_len(ev.public_key.len() as u64);
    crate::codec::lemma_enc_u64_len(ev.private_key_nonce.len() as u64);
    crate::codec::lemma_enc_u64_len(ev.sealed_private_key.len() as u64);
    crate::codec::lemma_enc_u64_len(ev.kdf_salt.len() as u64);
    crate::codec::lemma_enc_u64_len(ev.kdf_cost);
    let o1 = 8 + encode_utf8(ev.id).len() as int;
    let o2 = o1 + 8 + encode_utf8(ev.name).len() as int;
    let o3 = o2 + 8 + encode_utf8(ev.email).len() as int;
    let o4 = o3 + 8 + ev.public_key.len() as int;
    let o5 = o4 + 8 + ev.private_key_nonce.len() as int;
    let o6 = o5 + 8 + ev.sealed_private_key.len() as int;
    let o7 = o6 + 1;
    let o8 = o7 + 8 + ev.kdf_salt.len() as int;
    assert(bytes.subrange(0, o1) =~= spec_enc_str(ev.id));
    assert(bytes.subrange(o1, o2) =~= spec_enc_str(ev.name));
    assert(bytes.subrange(o2, o3) =~= spec_enc_str(ev.email));
    assert(bytes.subrange(o3, o4) =~= spec_enc_bytes(ev.public_key));
    assert(bytes.subrange(o4, o5) =~= spec_enc_bytes(ev.private_key_nonce));
    assert(bytes.subrange(o5, o6) =~= spec_enc_bytes(ev.sealed_private_key));
    assert(bytes.subrange(o7, o8) =~= spec_enc_bytes(ev.kdf_salt));
    assert(bytes.subrange(o8, o8 + 8) =~= crate::codec::spec_enc_u64(ev.kdf_cost));
}

/// Parse a whole list element as a ring entry.
#[verifier::rlimit(100)]
pub fn parse_ring_entry(bytes: &[u8]) -> (r: Option<RingEntry>)
    ensures
        r is Some ==> bytes@ == spec_enc_ring_entry(r.unwrap()@),
        forall|ev: RingEntryView|
            #![trigger spec_enc_ring_entry(ev)]
            bytes@ == spec_enc_ring_entry(ev) ==> r is Some && r.unwrap()@ == ev,
{
    let (id, p1) = match read_string(bytes, 0) {
        Some(v) => v,
        None => {
            proof {
                assert forall|ev: RingEntryView| bytes@ == spec_enc_ring_entry(
                    ev,
                ) implies false by {
                    lemma_enc_ring_entry_fields(bytes@, ev);
                }
            }
            return None;
        },
    };
    let (name, p2) = match read_string(bytes, p1) {
        Some(v) => v,
        None => {
            proof {
                assert forall|ev: RingEntryView| bytes@ == spec_enc_ring_entry(
                    ev,
                ) implies false by {
                    lemma_enc_ring_entry_fields(bytes@, ev);
                    assert(id@ == ev.id);
                }
            }
            return None;
        },
    };
    let (email, p3) = match read_string(bytes, p2) {
        Some(v) => v,
        None => {
            proof {
                assert forall|ev: RingEntryView| bytes@ == spec_enc_ring_entry(
                    ev,
                ) implies false by {
                    lemma_enc_ring_entry_fields(bytes@, ev);
                    assert(id@ == ev.id);
                    assert(name@ == ev.name);
                }
            }
            return None;
        },
    };
    let (public_key, p4) = match read_bytes(bytes, p3) {
        Some(v) => v,
        None => {
            proof {
                assert forall|ev: RingEntryView| bytes@ == spec_enc_ring_entry(
                    ev,
                ) implies false by {
                    lemma_enc_ring_entry_fields(bytes@, ev);
                    assert(id@ == ev.id);
                    assert(name@ == ev.name);
                    assert(email@ == ev.email);
                }
            }
            return None;
        },
    };
    let (private_key_nonce, p5) = match read_bytes(bytes, p4) {
        Some(v) => v,
        None => {
            proof {
                assert forall|ev: RingEntryView| bytes@ == spec_enc_ring_entry(
                    ev,
                ) implies false by {
                    lemma_enc_ring_entry_fields(bytes@, ev);
                    assert(id@ == ev.id);
                    assert(name@ == ev.name);
                    assert(email@ == ev.email);
                    assert(public_key@ == ev.public_key);
                }
            }
            return None;
        },
    };
    let (sealed_private_key, p6) = match read_bytes(bytes, p5) {
        Some(v) => v,
        None => {
            proof {
                assert forall|ev: RingEntryView| bytes@ == spec_enc_ring_entry(
                    ev,
                ) implies false by {
                    lemma_enc_ring_entry_fields(bytes@, ev);
                    assert(id@ == ev.id);
                    assert(name@ == ev.name);
                    assert(email@ == ev.email);
                    assert(public_key@ == ev.public_key);
                    assert(private_key_nonce@ == ev.private_key_nonce);
                }
            }
            return None;
        },
    };
    let (kdf_algorithm, p7) = match crate::codec::read_u8(bytes, p6) {
        Some(v) => v,
        None => {
            proof {
                assert forall|ev: RingEntryView| bytes@ == spec_enc_ring_entry(
                    ev,
                ) implies false by {
                    lemma_enc_ring_entry_fields(bytes@, ev);
                    assert(id@ == ev.id);
                    assert(name@ == ev.name);
                    assert(email@ == ev.email);
                    assert(public_key@ == ev.public_key);
                    assert(private_key_nonce@ == ev.private_key_nonce);
                    assert(sealed_private_key@ == ev.sealed_private_key);
                }
            }
            return None;
        },
    };
    let (kdf_salt, p8) = match read_bytes(bytes, p7) {
        Some(v) => v,
        None => {
            proof {
                assert forall|ev: RingEntryView| bytes@ == spec_enc_ring_entry(
                    ev,
                ) implies false by {
                    lemma_enc_ring_entry_fields(bytes@, ev);
                    assert(id@ == ev.id);
                    assert(name@ == ev.name);
                    assert(email@ == ev.email);
                    assert(public_key@ == ev.public_key);
                    assert(private_key_nonce@ == ev.private_key_nonce);
                    assert(sealed_private_key@ == ev.sealed_private_key);
                    assert(kdf_algorithm == ev.kdf_algorithm);
                }
            }
            return None;
        },
    };
    let (kdf_cost, p9) = match crate::codec::read_u64(bytes, p8) {
        Some(v) => v,
        None => {
            proof {
                assert forall|ev: RingEntryView| bytes@ == spec_enc_ring_entry(
                    ev,
                ) implies false by {
                    lemma_enc_ring_entry_fields(bytes@, ev);
                    assert(id@ == ev.id);
                    assert(name@ == ev.name);
                    assert(email@ == ev.email);
                    assert(public_key@ == ev.public_key);
                    assert(private_key_nonce@ == ev.private_key_nonce);
                    assert(sealed_private_key@ == ev.sealed_private_key);
                    assert(kdf_algorithm == ev.kdf_algorithm);
                    assert(kdf_salt@ == ev.kdf_salt);
                }
            }
            return None;
        },
    };
    if p9 != bytes.len() {
        proof {
            assert forall|ev: RingEntryView| bytes@ == spec_enc_ring_entry(ev) implies false by {
                lemma_enc_ring_entry_fields(bytes@, ev);
                assert(id@ == ev.id);
                assert(name@ == ev.name);
                assert(email@ == ev.email);
                assert(public_key@ == ev.public_key);
                assert(private_key_nonce@ == ev.private_key_nonce);
                assert(sealed_private_key@ == ev.sealed_private_key);
                assert(kdf_algorithm == ev.kdf_algorithm);
                assert(kdf_salt@ == ev.kdf_salt);
                assert(crate::codec::spec_enc_u64(kdf_cost) == crate::codec::spec_enc_u64(
                    ev.kdf_cost,
                ));
            }
        }
        return None;
    }
    let result = RingEntry {
        id,
        name,
        email,
        public_key,
        private_key_nonce,
        sealed_private_key,
        kdf_algorithm,
        kdf_salt,
        kdf_cost,
    };
    proof {
        assert(bytes@ =~= spec_enc_ring_entry(result@));
        assert forall|ev: RingEntryView| bytes@ == spec_enc_ring_entry(ev) implies result@
            == ev by {
            lemma_enc_ring_entry_fields(bytes@, ev);
            assert(result@.id == ev.id);
            assert(result@.name == ev.name);
            assert(result@.email == ev.email);
            assert(result@.public_key == ev.public_key);
            assert(result@.private_key_nonce == ev.private_key_nonce);
            assert(result@.sealed_private_key == ev.sealed_private_key);
            assert(result@.kdf_algorithm == ev.kdf_algorithm);
            assert(result@.kdf_salt == ev.kdf_salt);
            crate::codec::lemma_enc_u64_injective(kdf_cost, ev.kdf_cost);
            assert(result@ =~= ev);
        }
    }
    Some(result)
}

/// The list elements of a ring.
pub open spec fn entry_els(es: Seq<RingEntryView>) -> Seq<Seq<u8>> {
    Seq::new(es.len(), |i: int| spec_enc_ring_entry(es[i]))
}

/// The views of a vector of ring entries.
pub open spec fn entry_seq_view(v: Seq<RingEntry>) -> Seq<RingEntryView> {
    Seq::new(v.len(), |i: int| v[i]@)
}

/// The encoding of a whole ring: its entries as a list.
pub open spec fn spec_enc_ring(es: Seq<RingEntryView>) -> Seq<u8> {
    crate::codec::spec_enc_bytes_list(entry_els(es))
}

/// Serialize a ring.
pub fn serialize_ring(entries: &Vec<RingEntry>) -> (r: Vec<u8>)
    ensures
        r@ == spec_enc_ring(entry_seq_view(entries@)),
{
    let mut els: Vec<Vec<u8>> = Vec::new();
    let mut i: usize = 0;
    while i < entries.len()
        invariant
            i <= entries@.len(),
            els@.len() == i,
            forall|j: int| 0 <= j < i ==> (#[trigger] els@[j])@ == spec_enc_ring_entry(
                entries@[j]@,
            ),
        decreases entries@.len() - i,
    {
        let mut el: Vec<u8> = Vec::new();
        write_ring_entry(&mut el, &entries[i]);
        els.push(el);
        i = i + 1;
    }
    let mut out: Vec<u8> = Vec::new();
    proof {
        assert(bytes_seq_view(els@) =~= entry_els(entry_seq_view(entries@)));
    }
    crate::codec::write_bytes_list(&mut out, &els);
    out
}

/// Parse a whole ring. Succeeds on exactly the encodings `serialize_ring`
/// produces, and returns the encoded entries.
pub fn parse_ring(bytes: &[u8]) -> (r: Option<Vec<RingEntry>>)
    ensures
        r is Some ==> bytes@ == spec_enc_ring(entry_seq_view(r.unwrap()@)),
        forall|es: Seq<RingEntryView>|
            #![trigger spec_enc_ring(es)]
            bytes@ == spec_enc_ring(es) ==> r is Some && entry_seq_view(r.unwrap()@) == es,
{
    let total = bytes.len();
    proof {
        assert(bytes@.len() == total <= u64::MAX);
    }
    let (raw, p1) = match crate::codec::read_bytes_list(bytes, 0) {
        Some(v) => v,
        None => {
            proof {
                assert forall|es: Seq<RingEntryView>| bytes@ == spec_enc_ring(es) implies false by {
                    lemma_bytes_seq_wf_from_len(entry_els(es), bytes@.len() as int);
                    assert(bytes@.subrange(0, bytes@.len() as int) =~= bytes@);
                }
            }
            return None;
        },
    };
    if p1 != bytes.len() {
        proof {
            assert forall|es: Seq<RingEntryView>| bytes@ == spec_enc_ring(es) implies false by {
                lemma_bytes_seq_wf_from_len(entry_els(es), bytes@.len() as int);
                assert(bytes@.subrange(0, bytes@.len() as int) =~= bytes@);
            }
        }
        return None;
    }
    proof {
        assert forall|es: Seq<RingEntryView>| bytes@ == spec_enc_ring(es) implies bytes_seq_view(
            raw@,
        ) == entry_els(es) by {
            lemma_bytes_seq_wf_from_len(entry_els(es), bytes@.len() as int);
            assert(bytes@.subrange(0, bytes@.len() as int) =~= bytes@);
        }
    }
    let mut out: Vec<RingEntry> = Vec::new();
    let mut i: usize = 0;
    while i < raw.len()
        invariant
            i <= raw@.len(),
            out@.len() == i,
            forall|es: Seq<RingEntryView>|
                #![trigger spec_enc_ring(es)]
                bytes@ == spec_enc_ring(es) ==> bytes_seq_view(raw@) == entry_els(es),
            forall|j: int| 0 <= j < i ==> (#[trigger] raw@[j])@ == spec_enc_ring_entry(out@[j]@),
            forall|j: int, ev: RingEntryView|
                #![trigger spec_enc_ring_entry(ev), raw@[j]]
                0 <= j < i && raw@[j]@ == spec_enc_ring_entry(ev) ==> out@[j]@ == ev,
        decreases raw@.len() - i,
    {
        match parse_ring_entry(raw[i].as_slice()) {
            None => {
                proof {
                    assert forall|es: Seq<RingEntryView>| bytes@ == spec_enc_ring(
                        es,
                    ) implies false by {
                        assert(bytes_seq_view(raw@) == entry_els(es));
                        assert(entry_els(es)[i as int] == spec_enc_ring_entry(es[i as int]));
                        assert(bytes_seq_view(raw@)[i as int] == raw@[i as int]@);
                        assert(raw@[i as int]@ == spec_enc_ring_entry(es[i as int]));
                    }
                }
                return None;
            },
            Some(e) => {
                out.push(e);
                i = i + 1;
            },
        }
    }
    proof {
        assert(bytes_seq_view(raw@) =~= entry_els(entry_seq_view(out@)));
        assert(bytes@.subrange(0, bytes@.len() as int) =~= bytes@);
        assert forall|es: Seq<RingEntryView>| bytes@ == spec_enc_ring(es) implies entry_seq_view(
            out@,
        ) == es by {
            assert(bytes_seq_view(raw@) == entry_els(es));
            assert forall|j: int| 0 <= j < es.len() implies out@[j]@ == es[j] by {
                assert(bytes_seq_view(raw@)[j] == raw@[j]@);
                assert(entry_els(es)[j] == spec_enc_ring_entry(es[j]));
                assert(raw@[j]@ == spec_enc_ring_entry(es[j]));
            }
            assert(entry_seq_view(out@) =~= es);
        }
    }
    Some(out)
}

/// The encoding of a secret version: the scalar fields, then the tags,
/// urls, properties and attachments as lists, then the deleted flag.
#[verifier::opaque]
pub open spec fn spec_enc_version(w: crate::api::SecretVersionView) -> Seq<u8> {
    spec_enc_str(w.secret_id) + crate::codec::spec_enc_u64(w.timestamp) + spec_enc_str(w.name)
        + spec_enc_str(w.secret_type) + crate::codec::spec_enc_bytes_list(str_els(w.tags))
        + crate::codec::spec_enc_bytes_list(str_els(w.urls)) + crate::codec::spec_enc_bytes_list(
        prop_els(w.properties),
    ) + crate::codec::spec_enc_bytes_list(att_els(w.attachments)) + seq![spec_bool_byte(w.deleted)]
}

/// Serialize a secret version.
pub fn serialize_version(v: &crate::api::SecretVersion) -> (r: Vec<u8>)
    ensures
        r@ == spec_enc_version(v@),
{
    let mut out: Vec<u8> = Vec::new();
    write_str(&mut out, v.secret_id.as_str());
    crate::codec::write_u64(&mut out, v.timestamp);
    write_str(&mut out, v.name.as_str());
    write_str(&mut out, v.secret_type.as_str());
    let tag_els = string_els(&v.tags);
    crate::codec::write_bytes_list(&mut out, &tag_els);
    let url_els = string_els(&v.urls);
    crate::codec::write_bytes_list(&mut out, &url_els);
    let p_els = property_els(&v.properties);
    crate::codec::write_bytes_list(&mut out, &p_els);
    let a_els = attachment_els(&v.attachments);
    crate::codec::write_bytes_list(&mut out, &a_els);
    if v.deleted {
        out.push(1u8);
    } else {
        out.push(0u8);
    }
    proof {
        reveal(spec_enc_version);
        assert(out@ =~= spec_enc_version(v@));
    }
    out
}

/// When a version encoding fills `bytes`, its fields sit at their offsets.
proof fn lemma_enc_version_fields(bytes: Seq<u8>, w: crate::api::SecretVersionView)
    requires
        bytes == spec_enc_version(w),
        bytes.len() <= u64::MAX,
    ensures
        crate::codec::bytes_seq_wf(str_els(w.tags)),
        crate::codec::bytes_seq_wf(str_els(w.urls)),
        crate::codec::bytes_seq_wf(prop_els(w.properties)),
        crate::codec::bytes_seq_wf(att_els(w.attachments)),
        ({
            let o1 = 8 + encode_utf8(w.secret_id).len() as int;
            let o2 = o1 + 8;
            let o3 = o2 + 8 + encode_utf8(w.name).len() as int;
            let o4 = o3 + 8 + encode_utf8(w.secret_type).len() as int;
            let o5 = o4 + crate::codec::spec_enc_bytes_list(str_els(w.tags)).len() as int;
            let o6 = o5 + crate::codec::spec_enc_bytes_list(str_els(w.urls)).len() as int;
            let o7 = o6 + crate::codec::spec_enc_bytes_list(prop_els(w.properties)).len() as int;
            let o8 = o7 + crate::codec::spec_enc_bytes_list(att_els(w.attachments)).len() as int;
            &&& o8 + 1 == bytes.len()
            &&& bytes.subrange(0, o1) == spec_enc_str(w.secret_id)
            &&& bytes.subrange(o1, o2) == crate::codec::spec_enc_u64(w.timestamp)
            &&& bytes.subrange(o2, o3) == spec_enc_str(w.name)
            &&& bytes.subrange(o3, o4) == spec_enc_str(w.secret_type)
            &&& bytes.subrange(o4, o5) == crate::codec::spec_enc_bytes_list(str_els(w.tags))
            &&& bytes.subrange(o5, o6) == crate::codec::spec_enc_bytes_list(str_els(w.urls))
            &&& bytes.subrange(o6, o7) == crate::codec::spec_enc_bytes_list(
                prop_els(w.properties),
            )
            &&& bytes.subrange(o7, o8) == crate::codec::spec_enc_bytes_list(
                att_els(w.attachments),
            )
            &&& bytes[o8] == spec_bool_byte(w.deleted)
        }),
{
    reveal(spec_enc_version);
    crate::codec::lemma_enc_u64_len(encode_utf8(w.secret_id).len() as u64);
    crate::codec::lemma_enc_u64_len(w.timestamp);
    crate::codec::lemma_enc_u64_len(encode_utf8(w.name).len() as u64);
    crate::codec::lemma_enc_u64_len(encode_utf8(w.secret_type).len() as u64);
    crate::codec::lemma_enc_u64_len(str_els(w.tags).len() as u64);
    crate::codec::lemma_enc_u64_len(str_els(w.urls).len() as u64);
    crate::codec::lemma_enc_u64_len(prop_els(w.properties).len() as u64);
    crate::codec::lemma_enc_u64_len(att_els(w.attachments).len() as u64);
    let o1 = 8 + encode_utf8(w.secret_id).len() as int;
    let o2 = o1 + 8;
    let o3 = o2 + 8 + encode_utf8(w.name).len() as int;
    let o4 = o3 + 8 + encode_utf8(w.secret_type).len() as int;
    let o5 = o4 + crate::codec::spec_enc_bytes_list(str_els(w.tags)).len() as int;
    let o6 = o5 + crate::codec::spec_enc_bytes_list(str_els(w.urls)).len() as int;
    let o7 = o6 + crate::codec::spec_enc_bytes_list(prop_els(w.properties)).len() as int;
    let o8 = o7 + crate::codec::spec_enc_bytes_list(att_els(w.attachments)).len() as int;
    assert(bytes.subrange(0, o1) =~= spec_enc_str(w.secret_id));
    assert(bytes.subrange(o1, o2) =~= crate::codec::spec_enc_u64(w.timestamp));
    assert(bytes.subrange(o2, o3) =~= spec_enc_str(w.name));
    assert(bytes.subrange(o3, o4) =~= spec_enc_str(w.secret_type));
    assert(bytes.subrange(o4, o5) =~= crate::codec::spec_enc_bytes_list(str_els(w.tags)));
    assert(bytes.subrange(o5, o6) =~= crate::codec::spec_enc_bytes_list(str_els(w.urls)));
    assert(bytes.subrange(o6, o7) =~= crate::codec::spec_enc_bytes_list(prop_els(w.properties)));
    assert(bytes.subrange(o7, o8) =~= crate::codec::spec_enc_bytes_list(att_els(w.attachments)));
    lemma_bytes_seq_wf_from_len(str_els(w.tags), bytes.len() as int);
    lemma_bytes_seq_wf_from_len(str_els(w.urls), bytes.len() as int);
    lemma_bytes_seq_wf_from_len(prop_els(w.properties), bytes.len() as int);
    lemma_bytes_seq_wf_from_len(att_els(w.attachments), bytes.len() as int);
}

/// Parse the scalar fields of a secret version: id, timestamp, name and
/// type. Returns them with the offset where the lists begin.
#[verifier::rlimit(100)]
fn parse_version_head(bytes: &[u8]) -> (r: Option<(String, u64, String, String, usize)>)
    ensures
        r is Some ==> ({
            let (sid, ts, nm, ty, p4) = r.unwrap();
            &&& p4 <= bytes@.len()
            &&& bytes@.subrange(0, p4 as int) == spec_enc_str(sid@)
                + crate::codec::spec_enc_u64(ts) + spec_enc_str(nm@) + spec_enc_str(ty@)
        }),
        forall|w: crate::api::SecretVersionView|
            #![trigger spec_enc_version(w)]
            bytes@ == spec_enc_version(w) ==> r is Some && ({
                let (sid, ts, nm, ty, p4) = r.unwrap();
                &&& sid@ == w.secret_id
                &&& ts == w.timestamp
                &&& nm@ == w.name
                &&& ty@ == w.secret_type
                &&& p4 == 8 + encode_utf8(w.secret_id).len() + 8 + 8 + encode_utf8(w.name).len()
                    + 8 + encode_utf8(w.secret_type).len()
            }),
{
    let total = bytes.len();
    proof {
        assert(bytes@.len() == total <= u64::MAX);
    }
    let (secret_id, p1) = match read_string(bytes, 0) {
        Some(v) => v,
        None => {
            proof {
                assert forall|w: crate::api::SecretVersionView| bytes@ == spec_enc_version(
                    w,
                ) implies false by {
                    lemma_enc_version_fields(bytes@, w);
                }
            }
            return None;
        },
    };
    let (timestamp, p2) = match crate::codec::read_u64(bytes, p1) {
        Some(v) => v,
        None => {
            proof {
                assert forall|w: crate::api::SecretVersionView| bytes@ == spec_enc_version(
                    w,
                ) implies false by {
                    lemma_enc_version_fields(bytes@, w);
                    assert(secret_id@ == w.secret_id);
                }
            }
            return None;
        },
    };
    let (name, p3) = match read_string(bytes, p2) {
        Some(v) => v,
        None => {
            proof {
                assert forall|w: crate::api::SecretVersionView| bytes@ == spec_enc_version(
                    w,
                ) implies false by {
                    lemma_enc_version_fields(bytes@, w);
                    assert(secret_id@ == w.secret_id);
                }
            }
            return None;
        },
    };
    let (secret_type, p4) = match read_string(bytes, p3) {
        Some(v) => v,
        None => {
            proof {
                assert forall|w: crate::api::SecretVersionView| bytes@ == spec_enc_version(
                    w,
                ) implies false by {
                    lemma_enc_version_fields(bytes@, w);
                    assert(secret_id@ == w.secret_id);
                    assert(name@ == w.name);
                }
            }
            return None;
        },
    };
    let result = (secret_id, timestamp, name, secret_type, p4);
    proof {
        assert(bytes@.subrange(0, p4 as int) =~= spec_enc_str(result.0@)
            + crate::codec::spec_enc_u64(result.1) + spec_enc_str(result.2@) + spec_enc_str(
            result.3@,
        ));
        assert forall|w: crate::api::SecretVersionView| bytes@ == spec_enc_version(
            w,
        ) implies result.0@ == w.secret_id && result.1 == w.timestamp && result.2@ == w.name
            && result.3@ == w.secret_type && p4 == 8 + encode_utf8(w.secret_id).len() + 8 + 8
            + encode_utf8(w.name).len() + 8 + encode_utf8(w.secret_type).len() by {
            lemma_enc_version_fields(bytes@, w);
            assert(secret_id@ == w.secret_id);
            assert(name@ == w.name);
            assert(secret_type@ == w.secret_type);
            crate::codec::lemma_enc_u64_injective(timestamp, w.timestamp);
        }
    }
    Some(result)
}

/// Where the list fields of a version encoding begin.
pub open spec fn spec_version_lists_off(w: crate::api::SecretVersionView) -> int {
    8 + encode_utf8(w.secret_id).len() as int + 8 + 8 + encode_utf8(w.name).len() as int + 8
        + encode_utf8(w.secret_type).len() as int
}

/// Where the property and attachment lists of a version encoding begin.
pub open spec fn spec_version_props_off(w: crate::api::SecretVersionView) -> int {
    spec_version_lists_off(w) + crate::codec::spec_enc_bytes_list(str_els(w.tags)).len() as int
        + crate::codec::spec_enc_bytes_list(str_els(w.urls)).len() as int
}

/// Parse the tag and url lists of a secret version, starting at `p4`.
#[verifier::rlimit(100)]
fn parse_version_lists_a(bytes: &[u8], p4: usize) -> (r: Option<(Vec<String>, Vec<String>, usize)>)
    ensures
        r is Some ==> ({
            let (tags, urls, p6) = r.unwrap();
            &&& p4 <= p6 <= bytes@.len()
            &&& bytes@.subrange(p4 as int, p6 as int) == crate::codec::spec_enc_bytes_list(
                str_els(crate::api::str_seq_view(tags@)),
            ) + crate::codec::spec_enc_bytes_list(str_els(crate::api::str_seq_view(urls@)))
        }),
        forall|w: crate::api::SecretVersionView|
            #![trigger spec_enc_version(w)]
            bytes@ == spec_enc_version(w) && p4 == spec_version_lists_off(w) ==> r is Some && ({
                let (tags, urls, p6) = r.unwrap();
                &&& crate::api::str_seq_view(tags@) == w.tags
                &&& crate::api::str_seq_view(urls@) == w.urls
                &&& p6 == spec_version_props_off(w)
            }),
{
    let total = bytes.len();
    proof {
        assert(bytes@.len() == total <= u64::MAX);
    }
    let (raw_tags, p5) = match crate::codec::read_bytes_list(bytes, p4) {
        Some(v) => v,
        None => {
            proof {
                assert forall|w: crate::api::SecretVersionView| bytes@ == spec_enc_version(w)
                    && p4 == spec_version_lists_off(w) implies false by {
                    lemma_enc_version_fields(bytes@, w);
                }
            }
            return None;
        },
    };
    let tags = match parse_string_list(&raw_tags) {
        Some(v) => v,
        None => {
            proof {
                assert forall|w: crate::api::SecretVersionView| bytes@ == spec_enc_version(w)
                    && p4 == spec_version_lists_off(w) implies false by {
                    lemma_enc_version_fields(bytes@, w);
                    assert(bytes_seq_view(raw_tags@) == str_els(w.tags));
                }
            }
            return None;
        },
    };
    let (raw_urls, p6) = match crate::codec::read_bytes_list(bytes, p5) {
        Some(v) => v,
        None => {
            proof {
                assert forall|w: crate::api::SecretVersionView| bytes@ == spec_enc_version(w)
                    && p4 == spec_version_lists_off(w) implies false by {
                    lemma_enc_version_fields(bytes@, w);
                    assert(bytes_seq_view(raw_tags@) == str_els(w.tags));
                }
            }
            return None;
        },
    };
    let urls = match parse_string_list(&raw_urls) {
        Some(v) => v,
        None => {
            proof {
                assert forall|w: crate::api::SecretVersionView| bytes@ == spec_enc_version(w)
                    && p4 == spec_version_lists_off(w) implies false by {
                    lemma_enc_version_fields(bytes@, w);
                    assert(bytes_seq_view(raw_tags@) == str_els(w.tags));
                    assert(bytes_seq_view(raw_urls@) == str_els(w.urls));
                }
            }
            return None;
        },
    };
    let result = (tags, urls, p6);
    proof {
        assert(bytes@.subrange(p4 as int, p6 as int) =~= crate::codec::spec_enc_bytes_list(
            str_els(crate::api::str_seq_view(result.0@)),
        ) + crate::codec::spec_enc_bytes_list(str_els(crate::api::str_seq_view(result.1@))));
        assert forall|w: crate::api::SecretVersionView| bytes@ == spec_enc_version(w) && p4
            == spec_version_lists_off(w) implies crate::api::str_seq_view(result.0@) == w.tags
            && crate::api::str_seq_view(result.1@) == w.urls && p6 == spec_version_props_off(
            w,
        ) by {
            lemma_enc_version_fields(bytes@, w);
            assert(bytes_seq_view(raw_tags@) == str_els(w.tags));
            assert(bytes_seq_view(raw_urls@) == str_els(w.urls));
        }
    }
    Some(result)
}

/// Parse the property and attachment lists of a secret version, starting at
/// `p6`.
#[verifier::rlimit(100)]
fn parse_version_lists_b(bytes: &[u8], p6: usize) -> (r: Option<
    (Vec<Property>, Vec<Attachment>, usize),
>)
    ensures
        r is Some ==> ({
            let (props, atts, p8) = r.unwrap();
            &&& p6 <= p8 <= bytes@.len()
            &&& bytes@.subrange(p6 as int, p8 as int) == crate::codec::spec_enc_bytes_list(
                prop_els(crate::api::prop_seq_view(props@)),
            ) + crate::codec::spec_enc_bytes_list(att_els(crate::api::att_seq_view(atts@)))
        }),
        forall|w: crate::api::SecretVersionView|
            #![trigger spec_enc_version(w)]
            bytes@ == spec_enc_version(w) && p6 == spec_version_props_off(w) ==> r is Some && ({
                let (props, atts, p8) = r.unwrap();
                &&& crate::api::prop_seq_view(props@) == w.properties
                &&& crate::api::att_seq_view(atts@) == w.attachments
                &&& p8 + 1 == bytes@.len()
            }),
{
    let total = bytes.len();
    proof {
        assert(bytes@.len() == total <= u64::MAX);
    }
    let (raw_props, p7) = match crate::codec::read_bytes_list(bytes, p6) {
        Some(v) => v,
        None => {
            proof {
                assert forall|w: crate::api::SecretVersionView| bytes@ == spec_enc_version(w)
                    && p6 == spec_version_props_off(w) implies false by {
                    lemma_enc_version_fields(bytes@, w);
                }
            }
            return None;
        },
    };
    let properties = match parse_property_list(&raw_props) {
        Some(v) => v,
        None => {
            proof {
                assert forall|w: crate::api::SecretVersionView| bytes@ == spec_enc_version(w)
                    && p6 == spec_version_props_off(w) implies false by {
                    lemma_enc_version_fields(bytes@, w);
                    assert(bytes_seq_view(raw_props@) == prop_els(w.properties));
                }
            }
            return None;
        },
    };
    let (raw_atts, p8) = match crate::codec::read_bytes_list(bytes, p7) {
        Some(v) => v,
        None => {
            proof {
                assert forall|w: crate::api::SecretVersionView| bytes@ == spec_enc_version(w)
                    && p6 == spec_version_props_off(w) implies false by {
                    lemma_enc_version_fields(bytes@, w);
                    assert(bytes_seq_view(raw_props@) == prop_els(w.properties));
                }
            }
            return None;
        },
    };
    let attachments = match parse_attachment_list(&raw_atts) {
        Some(v) => v,
        None => {
            proof {
                assert forall|w: crate::api::SecretVersionView| bytes@ == spec_enc_version(w)
                    && p6 == spec_version_props_off(w) implies false by {
                    lemma_enc_version_fields(bytes@, w);
                    assert(bytes_seq_view(raw_props@) == prop_els(w.properties));
                    assert(bytes_seq_view(raw_atts@) == att_els(w.attachments));
                }
            }
            return None;
        },
    };
    let result = (properties, attachments, p8);
    proof {
        assert(bytes@.subrange(p6 as int, p8 as int) =~= crate::codec::spec_enc_bytes_list(
            prop_els(crate::api::prop_seq_view(result.0@)),
        ) + crate::codec::spec_enc_bytes_list(att_els(crate::api::att_seq_view(result.1@))));
        assert forall|w: crate::api::SecretVersionView| bytes@ == spec_enc_version(w) && p6
            == spec_version_props_off(w) implies crate::api::prop_seq_view(result.0@)
            == w.properties && crate::api::att_seq_view(result.1@) == w.attachments && p8 + 1
            == bytes@.len() by {
            lemma_enc_version_fields(bytes@, w);
            assert(bytes_seq_view(raw_props@) == prop_els(w.properties));
            assert(bytes_seq_view(raw_atts@) == att_els(w.attachments));
        }
    }
    Some(result)
}

/// A version encoding assembled from its aligned segments.
#[verifier::rlimit(100)]
proof fn lemma_version_assemble(
    bytes: Seq<u8>,
    v: crate::api::SecretVersionView,
    p4: int,
    p6: int,
    p8: int,
)
    requires
        0 <= p4 <= p6 <= p8,
        p8 + 1 == bytes.len(),
        bytes.subrange(0, p4) == spec_enc_str(v.secret_id) + crate::codec::spec_enc_u64(
            v.timestamp,
        ) + spec_enc_str(v.name) + spec_enc_str(v.secret_type),
        bytes.subrange(p4, p6) == crate::codec::spec_enc_bytes_list(str_els(v.tags))
            + crate::codec::spec_enc_bytes_list(str_els(v.urls)),
        bytes.subrange(p6, p8) == crate::codec::spec_enc_bytes_list(prop_els(v.properties))
            + crate::codec::spec_enc_bytes_list(att_els(v.attachments)),
        bytes[p8] == spec_bool_byte(v.deleted),
    ensures
        bytes == spec_enc_version(v),
{
    reveal(spec_enc_version);
    let g1 = bytes.subrange(0, p4);
    let g2 = bytes.subrange(p4, p6);
    let g3 = bytes.subrange(p6, p8);
    assert(bytes =~= g1 + g2 + g3 + seq![bytes[p8]]);
    assert(spec_enc_version(v) =~= g1 + g2 + g3 + seq![bytes[p8]]);
}

/// Parse a complete secret version. Succeeds on exactly the encodings
/// `serialize_version` produces, and returns the encoded version.
#[verifier::rlimit(100)]
pub fn parse_version(bytes: &[u8]) -> (r: Option<crate::api::SecretVersion>)
    ensures
        r is Some ==> bytes@ == spec_enc_version(r.unwrap()@),
        forall|w: crate::api::SecretVersionView|
            #![trigger spec_enc_version(w)]
            bytes@ == spec_enc_version(w) ==> r is Some && r.unwrap()@ == w,
{
    let total = bytes.len();
    proof {
        assert(bytes@.len() == total <= u64::MAX);
    }
    let (secret_id, timestamp, name, secret_type, p4) = match parse_version_head(bytes) {
        Some(v) => v,
        None => {
            return None;
        },
    };
    let (tags, urls, p6) = match parse_version_lists_a(bytes, p4) {
        Some(v) => v,
        None => {
            proof {
                assert forall|w: crate::api::SecretVersionView| bytes@ == spec_enc_version(
                    w,
                ) implies false by {
                    assert(p4 == spec_version_lists_off(w));
                }
            }
            return None;
        },
    };
    let (properties, attachments, p8) = match parse_version_lists_b(bytes, p6) {
        Some(v) => v,
        None => {
            proof {
                assert forall|w: crate::api::SecretVersionView| bytes@ == spec_enc_version(
                    w,
                ) implies false by {
                    assert(p4 == spec_version_lists_off(w));
                    assert(p6 == spec_version_props_off(w));
                }
            }
            return None;
        },
    };
    let (flag, p9) = match crate::codec::read_u8(bytes, p8) {
        Some(v) => v,
        None => {
            proof {
                assert forall|w: crate::api::SecretVersionView| bytes@ == spec_enc_version(
                    w,
                ) implies false by {
                    assert(p4 == spec_version_lists_off(w));
                    assert(p6 == spec_version_props_off(w));
                    assert(p8 + 1 == bytes@.len());
                }
            }
            return None;
        },
    };
    if flag > 1 || p9 != bytes.len() {
        proof {
            assert forall|w: crate::api::SecretVersionView| bytes@ == spec_enc_version(
                w,
            ) implies false by {
                lemma_enc_version_fields(bytes@, w);
                assert(secret_id@ == w.secret_id);
                assert(name@ == w.name);
                assert(secret_type@ == w.secret_type);
                assert(p4 == spec_version_lists_off(w));
                assert(p6 == spec_version_props_off(w));
                assert(p8 + 1 == bytes@.len());
                assert(flag == spec_bool_byte(w.deleted));
            }
        }
        return None;
    }
    let result = crate::api::SecretVersion {
        secret_id,
        timestamp,
        name,
        secret_type,
        tags,
        urls,
        properties,
        attachments,
        deleted: flag == 1,
    };
    proof {
        lemma_version_assemble(bytes@, result@, p4 as int, p6 as int, p8 as int);
        assert forall|w: crate::api::SecretVersionView| bytes@ == spec_enc_version(
            w,
        ) implies result@ == w by {
            lemma_enc_version_fields(bytes@, w);
            assert(secret_id@ == w.secret_id);
            assert(name@ == w.name);
            assert(secret_type@ == w.secret_type);
            crate::codec::lemma_enc_u64_injective(timestamp, w.timestamp);
            assert(p4 == spec_version_lists_off(w));
            assert(p6 == spec_version_props_off(w));
            assert(result@.tags == w.tags);
            assert(result@.urls == w.urls);
            assert(result@.properties == w.properties);
            assert(result@.attachments == w.attachments);
            assert(p8 + 1 == bytes@.len());
            assert(flag == spec_bool_byte(w.deleted));
            assert(result@ =~= w);
        }
    }
    Some(result)
}

} // verus!
