//! Properties that relate the operations of the codec.
use vstd::prelude::*;
use vstd::utf8::encode_utf8;
use crate::bridge::{
    base64_nopad, insert_sorted, is_cid_key, json_fits, lemma_bridged_encodable, lemma_fields_fail,
    lemma_insert_commute, to_generic, to_generic_fields, to_json, to_json_entries,
};
use crate::cbor::{decode_spec, enc, encodable, entries_encodable};
use crate::content_id::{cid_from_text, cid_text, cid_valid};
use crate::roundtrip::{lemma_decode_canonical, lemma_decode_enc, lemma_truncated};
use crate::value::{JsonModel, ValueModel};

verus! {

/// Decoding the canonical encoding of any value that has one gives the value back.
pub proof fn law_round_trip(v: ValueModel)
    requires
        encodable(v),
    ensures
        decode_spec(enc(v)) == Some(v),
{
    lemma_decode_enc(v);
}

/// A JSON value with finite floats (and lengths that fit in 64 bits) that bridges
/// at all bridges to a value with a canonical encoding: encoding it never fails.
pub proof fn law_bridged_json_encodes(j: JsonModel)
    requires
        json_fits(j),
        to_generic(j) is Some,
    ensures
        encodable(to_generic(j)->Some_0),
{
    lemma_bridged_encodable(j);
}

/// Every byte sequence that decodes is the canonical encoding of the value it
/// decodes to: no value is accepted in two encodings.
pub proof fn law_decoded_bytes_are_canonical(s: Seq<u8>)
    requires
        decode_spec(s) is Some,
    ensures
        encodable(decode_spec(s)->Some_0),
        enc(decode_spec(s)->Some_0) == s,
{
    lemma_decode_canonical(s);
}

/// Distinct encodable values never share an encoding.
pub proof fn law_encoding_injective(v1: ValueModel, v2: ValueModel)
    requires
        encodable(v1),
        encodable(v2),
        enc(v1) == enc(v2),
    ensures
        v1 == v2,
{
    lemma_decode_enc(v1);
    lemma_decode_enc(v2);
}

/// Every strict prefix of a canonical encoding fails to decode.
pub proof fn law_truncated_input_fails(v: ValueModel, k: int)
    requires
        encodable(v),
        0 <= k < enc(v).len(),
    ensures
        decode_spec(enc(v).take(k)) is None,
{
    lemma_truncated(v, k);
}

pub open spec fn cid_key() -> Seq<char> {
    seq!['c', 'i', 'd']
}

/// A map that binds `cid` to a link encodes and decodes back to itself, renders as
/// the CID's text form under `cid`, and that JSON bridges back to the same link.
/// The CID is one whose text form names it again, as `ContentId::to_text` ensures.
pub proof fn law_cid_tagging(c: Seq<u8>)
    requires
        cid_valid(c),
        c.len() + 1 < 0x1_0000_0000_0000_0000,
        cid_from_text(cid_text(c)) == Some(c),
    ensures
        ({
            let v = ValueModel::Dict(seq![(cid_key(), ValueModel::Link(c))]);
            let j = JsonModel::Object(seq![(cid_key(), JsonModel::Str(cid_text(c)))]);
            &&& decode_spec(enc(v)) == Some(v)
            &&& to_json(v) == j
            &&& to_generic(j) == Some(v)
        }),
{
    let key = cid_key();
    assert((99u32 & 0x7F) == 99u32) by (bit_vector);
    assert((105u32 & 0x7F) == 105u32) by (bit_vector);
    assert((100u32 & 0x7F) == 100u32) by (bit_vector);
    let k2 = key.drop_first();
    let k3 = k2.drop_first();
    assert(k2 =~= seq!['i', 'd']);
    assert(k3 =~= seq!['d']);
    assert(k3.drop_first() =~= seq![]);
    assert(encode_utf8(k3.drop_first()) =~= seq![]);
    assert(encode_utf8(k3) =~= seq![100u8]);
    assert(encode_utf8(k2) =~= seq![105u8, 100u8]);
    assert(encode_utf8(key) =~= seq![99u8, 105u8, 100u8]);
    assert(is_cid_key(key));
    let e = seq![(key, ValueModel::Link(c))];
    assert(e.drop_first() =~= seq![]);
    assert(entries_encodable(e.drop_first(), Some(encode_utf8(key))));
    assert(e[0] == (key, ValueModel::Link(c)));
    assert(encodable(ValueModel::Link(c)));
    assert(entries_encodable(e, None));
    let v = ValueModel::Dict(e);
    lemma_decode_enc(v);
    assert(e.drop_last() =~= seq![]);
    assert(to_json_entries(e.drop_last()) =~= seq![]);
    assert(e.last() == (key, ValueModel::Link(c)));
    assert(to_json(ValueModel::Link(c)) == JsonModel::Str(cid_text(c)));
    assert(to_json_entries(e) =~= seq![(key, JsonModel::Str(cid_text(c)))]);
    let fs = seq![(key, JsonModel::Str(cid_text(c)))];
    assert(fs.drop_last() =~= seq![]);
    assert(to_generic_fields(fs.drop_last()) == Some(Seq::<(Seq<char>, ValueModel)>::empty()));
    assert(fs.last() == (key, JsonModel::Str(cid_text(c))));
    assert(to_generic_fields(fs) == Some(insert_sorted(seq![], key, ValueModel::Link(c))));
    assert(insert_sorted(seq![], key, ValueModel::Link(c)) =~= e);
}

/// An object with a `cid` field whose string is not a CID has no generic value, so
/// bridging it fails as a whole.
pub proof fn law_invalid_cid_rejected(fs: Seq<(Seq<char>, JsonModel)>, i: int)
    requires
        0 <= i < fs.len(),
        is_cid_key(fs[i].0),
        fs[i].1 is Str,
        cid_from_text(fs[i].1->Str_0) is None,
    ensures
        to_generic(JsonModel::Object(fs)) is None,
{
    let t = fs.take(i + 1);
    assert(t.last() == fs[i]);
    assert(to_generic_fields(t) is None);
    lemma_fields_fail(fs, i + 1, fs.len() as int);
    assert(fs.take(fs.len() as int) =~= fs);
}

/// Byte strings render as unpadded base64 text, which bridges back as text and
/// not as bytes.
pub proof fn law_bytes_come_back_as_text(b: Seq<u8>)
    ensures
        to_json(ValueModel::Bytes(b)) == JsonModel::Str(base64_nopad(b)),
        to_generic(to_json(ValueModel::Bytes(b))) == Some(ValueModel::Text(base64_nopad(b))),
{
}

/// The generic value that a field binds, as `to_generic_fields` takes it.
pub open spec fn field_value(k: Seq<char>, j: JsonModel) -> Option<ValueModel> {
    if is_cid_key(k) && j is Str {
        match cid_from_text(j->Str_0) {
            Some(c) => Some(ValueModel::Link(c)),
            None => None,
        }
    } else {
        to_generic(j)
    }
}

/// Entries after one more field, as `to_generic_fields` builds them.
pub open spec fn combine(
    m: Option<Seq<(Seq<char>, ValueModel)>>,
    k: Seq<char>,
    v: Option<ValueModel>,
) -> Option<Seq<(Seq<char>, ValueModel)>> {
    match (m, v) {
        (Some(m), Some(v)) => Some(insert_sorted(m, k, v)),
        _ => None,
    }
}

/// Swapping two adjacent fields with different keys leaves the bridged value
/// unchanged: objects whose distinct keys are listed in different orders bridge
/// to the same generic value, and so encode to the same bytes.
pub proof fn law_field_order_irrelevant(
    p: Seq<(Seq<char>, JsonModel)>,
    a: (Seq<char>, JsonModel),
    b: (Seq<char>, JsonModel),
    q: Seq<(Seq<char>, JsonModel)>,
)
    requires
        a.0 != b.0,
    ensures
        to_generic(JsonModel::Object(p + seq![a, b] + q)) == to_generic(
            JsonModel::Object(p + seq![b, a] + q),
        ),
    decreases q.len(),
{
    let x = p + seq![a, b] + q;
    let y = p + seq![b, a] + q;
    if q.len() == 0 {
        assert(x =~= p + seq![a, b]);
        assert(y =~= p + seq![b, a]);
        assert(x.drop_last() =~= p.push(a));
        assert(y.drop_last() =~= p.push(b));
        assert(p.push(a).drop_last() =~= p);
        assert(p.push(b).drop_last() =~= p);
        assert(x.last() == b && y.last() == a);
        assert(p.push(a).last() == a && p.push(b).last() == b);
        let fa = field_value(a.0, a.1);
        let fb = field_value(b.0, b.1);
        let fp = to_generic_fields(p);
        assert(to_generic_fields(p.push(a)) == combine(fp, a.0, fa));
        assert(to_generic_fields(p.push(b)) == combine(fp, b.0, fb));
        assert(to_generic_fields(x) == combine(to_generic_fields(p.push(a)), b.0, fb));
        assert(to_generic_fields(y) == combine(to_generic_fields(p.push(b)), a.0, fa));
        if fp is Some && fa is Some && fb is Some {
            lemma_insert_commute(fp->Some_0, a.0, fa->Some_0, b.0, fb->Some_0);
        }
    } else {
        law_field_order_irrelevant(p, a, b, q.drop_last());
        assert(x.drop_last() =~= p + seq![a, b] + q.drop_last());
        assert(y.drop_last() =~= p + seq![b, a] + q.drop_last());
        assert(x.last() == q.last() && y.last() == q.last());
        let e = q.last();
        assert(to_generic_fields(x) == combine(to_generic_fields(x.drop_last()), e.0, field_value(e.0, e.1)));
        assert(to_generic_fields(y) == combine(to_generic_fields(y.drop_last()), e.0, field_value(e.0, e.1)));
    }
}

} // verus!
