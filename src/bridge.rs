//! Bridging between JSON values and generic values.
use vstd::prelude::*;
use vstd::utf8::{encode_utf8, encode_utf8_decode_utf8};
use crate::cbor::{
    bytes_lt, encodable, entries_encodable, finite, items_encodable, key_follows,
    lemma_bytes_lt_order, lemma_bytes_lt_transitive, lemma_enc_items_push, I64_MAX,
};
use crate::content_id::{bytes_eq, cid_from_text, cid_text, cid_valid, ContentId};
use crate::encoder::bytes_less;
use crate::error::CodecError;
use crate::value::{
    entry_models, field_models, json_models, lemma_entry_models, lemma_field_models,
    lemma_json_models, models,
    GenericValue, JsonModel, JsonNumber, JsonValue, ValueModel,
};

verus! {

/// The unpadded standard base64 text of some bytes, as `data_encoding` writes it.
pub uninterp spec fn base64_nopad(b: Seq<u8>) -> Seq<char>;

/// Relies on `data_encoding::BASE64_NOPAD.encode`: standard base64 without padding.
#[verifier::external_body]
pub(crate) fn encode_base64(b: &[u8]) -> (r: String)
    ensures
        r@ == base64_nopad(b@),
{
    data_encoding::BASE64_NOPAD.encode(b)
}

pub const TWO_52: u64 = 0x10_0000_0000_0000;

/// The bit pattern of the double nearest to `n` (ties to even), for
/// 2^63 <= n < 2^64: the exponent is 63 unless rounding carries into 2^64.
pub open spec fn large_float_bits(n: nat) -> u64 {
    let m = n / 2048;
    let r = n % 2048;
    let m2 = if r > 1024 || (r == 1024 && m % 2 == 1) {
        m + 1
    } else {
        m
    };
    if m2 == 2 * TWO_52 {
        (1087 * TWO_52) as u64
    } else {
        (1086 * TWO_52 + (m2 - TWO_52)) as u64
    }
}

/// The generic value of a JSON number: an integer when it fits in 64 signed
/// bits, a float otherwise.
pub open spec fn number_value(n: JsonNumber) -> ValueModel {
    match n {
        JsonNumber::PosInt(u) => if u <= I64_MAX {
            ValueModel::Integer(u as int)
        } else {
            ValueModel::Float(large_float_bits(u as nat))
        },
        JsonNumber::NegInt(i) => ValueModel::Integer(i as int),
        JsonNumber::Float(bits) => ValueModel::Float(bits),
    }
}

/// A key that is exactly `cid`.
pub open spec fn is_cid_key(k: Seq<char>) -> bool {
    encode_utf8(k) == seq![99u8, 105u8, 100u8]
}

/// Puts `(k, v)` into entries kept in ascending byte order of their keys,
/// replacing the entry with key `k` if there is one.
pub open spec fn insert_sorted(m: Seq<(Seq<char>, ValueModel)>, k: Seq<char>, v: ValueModel) -> Seq<
    (Seq<char>, ValueModel),
>
    decreases m.len(),
{
    if m.len() == 0 {
        seq![(k, v)]
    } else if m[0].0 == k {
        seq![(k, v)] + m.drop_first()
    } else if bytes_lt(encode_utf8(k), encode_utf8(m[0].0)) {
        seq![(k, v)] + m
    } else {
        seq![m[0]] + insert_sorted(m.drop_first(), k, v)
    }
}

/// The generic value of a JSON value, or `None` when a `cid` field holds a
/// string that is not a CID.
pub open spec fn to_generic(j: JsonModel) -> Option<ValueModel>
    decreases j,
{
    match j {
        JsonModel::Null => Some(ValueModel::Null),
        JsonModel::Bool(b) => Some(ValueModel::Bool(b)),
        JsonModel::Number(n) => Some(number_value(n)),
        JsonModel::Str(s) => Some(ValueModel::Text(s)),
        JsonModel::Array(l) => match to_generic_items(l) {
            Some(items) => Some(ValueModel::List(items)),
            None => None,
        },
        JsonModel::Object(fs) => match to_generic_fields(fs) {
            Some(m) => Some(ValueModel::Dict(m)),
            None => None,
        },
    }
}

pub open spec fn to_generic_items(l: Seq<JsonModel>) -> Option<Seq<ValueModel>>
    decreases l,
{
    if l.len() == 0 {
        Some(seq![])
    } else {
        match (to_generic_items(l.drop_last()), to_generic(l.last())) {
            (Some(items), Some(v)) => Some(items.push(v)),
            _ => None,
        }
    }
}

/// The entries of an object, in ascending key byte order, the last of equal keys winning.
pub open spec fn to_generic_fields(fs: Seq<(Seq<char>, JsonModel)>) -> Option<
    Seq<(Seq<char>, ValueModel)>,
>
    decreases fs,
{
    if fs.len() == 0 {
        Some(seq![])
    } else {
        let (k, j) = fs.last();
        // a `cid` field holding a string binds the link that the string names
        let v = if is_cid_key(k) && j is Str {
            match cid_from_text(j->Str_0) {
                Some(c) => Some(ValueModel::Link(c)),
                None => None,
            }
        } else {
            to_generic(j)
        };
        match (to_generic_fields(fs.drop_last()), v) {
            (Some(m), Some(v)) => Some(insert_sorted(m, k, v)),
            _ => None,
        }
    }
}

/// The JSON value of a generic value.
pub open spec fn to_json(v: ValueModel) -> JsonModel
    decreases v,
{
    match v {
        ValueModel::Null => JsonModel::Null,
        ValueModel::Bool(b) => JsonModel::Bool(b),
        ValueModel::Integer(i) => JsonModel::Number(
            if i >= 0 {
                JsonNumber::PosInt(i as u64)
            } else {
                JsonNumber::NegInt(i as i64)
            },
        ),
        ValueModel::Float(bits) => JsonModel::Number(JsonNumber::Float(bits)),
        ValueModel::Text(t) => JsonModel::Str(t),
        ValueModel::Bytes(b) => JsonModel::Str(base64_nopad(b)),
        ValueModel::List(l) => JsonModel::Array(to_json_items(l)),
        ValueModel::Dict(m) => JsonModel::Object(to_json_entries(m)),
        ValueModel::Link(c) => JsonModel::Str(cid_text(c)),
    }
}

pub open spec fn to_json_items(l: Seq<ValueModel>) -> Seq<JsonModel>
    decreases l,
{
    if l.len() == 0 {
        seq![]
    } else {
        to_json_items(l.drop_last()).push(to_json(l.last()))
    }
}

pub open spec fn to_json_entries(m: Seq<(Seq<char>, ValueModel)>) -> Seq<(Seq<char>, JsonModel)>
    decreases m,
{
    if m.len() == 0 {
        seq![]
    } else {
        to_json_entries(m.drop_last()).push((m.last().0, to_json(m.last().1)))
    }
}

proof fn lemma_insert_at(m: Seq<(Seq<char>, ValueModel)>, k: Seq<char>, v: ValueModel, i: int)
    requires
        0 <= i <= m.len(),
        forall|j: int| 0 <= j < i ==> bytes_lt(#[trigger] encode_utf8(m[j].0), encode_utf8(k)),
        i < m.len() ==> (m[i].0 == k || bytes_lt(encode_utf8(k), encode_utf8(m[i].0))),
    ensures
        insert_sorted(m, k, v) == if i < m.len() && m[i].0 == k {
            m.update(i, (k, v))
        } else {
            m.insert(i, (k, v))
        },
    decreases i,
{
    if i == 0 {
        if m.len() == 0 {
            assert(seq![(k, v)] =~= m.insert(0, (k, v)));
        } else if m[0].0 == k {
            assert(seq![(k, v)] + m.drop_first() =~= m.update(0, (k, v)));
        } else {
            assert(seq![(k, v)] + m =~= m.insert(0, (k, v)));
        }
    } else {
        let a = encode_utf8(m[0].0);
        let b = encode_utf8(k);
        assert(bytes_lt(a, b));
        lemma_bytes_lt_order(a, b);
        lemma_bytes_lt_order(b, a);
        assert(m[0].0 != k);
        let t = m.drop_first();
        assert forall|j: int| 0 <= j < i - 1 implies bytes_lt(
            #[trigger] encode_utf8(t[j].0),
            encode_utf8(k),
        ) by {
            assert(t[j] == m[j + 1]);
        }
        lemma_insert_at(t, k, v, i - 1);
        if i < m.len() && m[i].0 == k {
            assert(seq![m[0]] + t.update(i - 1, (k, v)) =~= m.update(i, (k, v)));
        } else {
            assert(seq![m[0]] + t.insert(i - 1, (k, v)) =~= m.insert(i, (k, v)));
        }
    }
}

/// Puts an entry into a map held in ascending key byte order.
fn insert_entry(m: &mut Vec<(String, GenericValue)>, k: String, v: GenericValue)
    ensures
        entry_models(final(m)@) == insert_sorted(entry_models(old(m)@), k@, v.model()),
{
    let ghost es = entry_models(m@);
    proof {
        lemma_entry_models(m@);
    }
    let mut i: usize = 0;
    while i < m.len() && bytes_less(m[i].0.as_str().as_bytes(), k.as_str().as_bytes())
        invariant
            es == entry_models(m@),
            es.len() == m@.len(),
            forall|j: int| 0 <= j < m@.len() ==> #[trigger] es[j] == (m@[j].0@, m@[j].1.model()),
            i <= m@.len(),
            forall|j: int| 0 <= j < i ==> bytes_lt(#[trigger] encode_utf8(es[j].0), encode_utf8(k@)),
        decreases m@.len() - i,
    {
        i += 1;
    }
    let same = i < m.len() && bytes_eq(m[i].0.as_str().as_bytes(), k.as_str().as_bytes());
    proof {
        if i < m@.len() {
            let a = encode_utf8(es[i as int].0);
            let b = encode_utf8(k@);
            lemma_bytes_lt_order(a, b);
            encode_utf8_decode_utf8(es[i as int].0);
            encode_utf8_decode_utf8(k@);
        }
        lemma_insert_at(es, k@, v.model(), i as int);
    }
    let ghost kv = (k@, v.model());
    if same {
        m.remove(i);
        m.insert(i, (k, v));
    } else {
        m.insert(i, (k, v));
    }
    proof {
        lemma_entry_models(m@);
        if same {
            assert(entry_models(m@) =~= es.update(i as int, kv));
        } else {
            assert(entry_models(m@) =~= es.insert(i as int, kv));
        }
    }
}

fn large_float_bits_exec(n: u64) -> (r: u64)
    requires
        n > I64_MAX,
    ensures
        r == large_float_bits(n as nat),
{
    let m = n / 2048;
    let r = n % 2048;
    let m2 = if r > 1024 || (r == 1024 && m % 2 == 1) {
        m + 1
    } else {
        m
    };
    if m2 == 2 * TWO_52 {
        1087 * TWO_52
    } else {
        1086 * TWO_52 + (m2 - TWO_52)
    }
}

fn number_to_generic(n: &JsonNumber) -> (r: GenericValue)
    ensures
        r.model() == number_value(*n),
{
    match n {
        JsonNumber::PosInt(u) => if *u <= I64_MAX {
            GenericValue::Integer(*u as i64)
        } else {
            GenericValue::Float(large_float_bits_exec(*u))
        },
        JsonNumber::NegInt(i) => GenericValue::Integer(*i),
        JsonNumber::Float(bits) => GenericValue::Float(*bits),
    }
}

proof fn lemma_items_fail(l: Seq<JsonModel>, i: int, j: int)
    requires
        0 <= i <= j <= l.len(),
        to_generic_items(l.take(i)) is None,
    ensures
        to_generic_items(l.take(j)) is None,
    decreases j,
{
    if j > i {
        lemma_items_fail(l, i, j - 1);
        assert(l.take(j).drop_last() =~= l.take(j - 1));
    }
}

pub(crate) proof fn lemma_fields_fail(l: Seq<(Seq<char>, JsonModel)>, i: int, j: int)
    requires
        0 <= i <= j <= l.len(),
        to_generic_fields(l.take(i)) is None,
    ensures
        to_generic_fields(l.take(j)) is None,
    decreases j,
{
    if j > i {
        lemma_fields_fail(l, i, j - 1);
        assert(l.take(j).drop_last() =~= l.take(j - 1));
    }
}

/// Whether a key is exactly `cid`.
fn cid_key(k: &String) -> (r: bool)
    ensures
        r == is_cid_key(k@),
{
    let name: Vec<u8> = vec![99u8, 105u8, 100u8];
    let r = bytes_eq(k.as_str().as_bytes(), name.as_slice());
    assert(name@ =~= seq![99u8, 105u8, 100u8]);
    r
}

fn to_generic_exec(j: &JsonValue) -> (r: Result<GenericValue, CodecError>)
    ensures
        match to_generic(j.model()) {
            Some(v) => r matches Ok(g) && g.model() == v,
            None => r == Err::<GenericValue, CodecError>(CodecError::CidParse),
        },
    decreases j,
{
    match j {
        JsonValue::Null => Ok(GenericValue::Null),
        JsonValue::Bool(b) => Ok(GenericValue::Bool(*b)),
        JsonValue::Number(n) => Ok(number_to_generic(n)),
        JsonValue::Str(s) => Ok(GenericValue::Text(s.clone())),
        JsonValue::Array(l) => {
            let ghost jm = json_models(l@);
            proof {
                lemma_json_models(l@);
            }
            let mut acc: Vec<GenericValue> = Vec::new();
            let mut i: usize = 0;
            assert(jm.take(0) =~= seq![]);
            assert(models(acc@) =~= seq![]);
            while i < l.len()
                invariant
                    *j == JsonValue::Array(*l),
                    jm == json_models(l@),
                    jm.len() == l@.len(),
                    forall|k: int| 0 <= k < l@.len() ==> #[trigger] jm[k] == l@[k].model(),
                    i <= l@.len(),
                    to_generic_items(jm.take(i as int)) == Some(models(acc@)),
                decreases l@.len() - i,
            {
                proof {
                    vstd::std_specs::vec::axiom_vec_index_decreases(*l, i as int);
                    assert(decreases_to!(*j => *l));
                    assert(jm.take(i + 1).drop_last() =~= jm.take(i as int));
                    assert(jm.take(i + 1).last() == l@[i as int].model());
                }
                match to_generic_exec(&l[i]) {
                    Ok(g) => {
                        let ghost before = acc@;
                        acc.push(g);
                        proof {
                            assert(acc@.drop_last() =~= before);
                        }
                    },
                    Err(e) => {
                        proof {
                            lemma_items_fail(jm, i + 1, jm.len() as int);
                            assert(jm.take(jm.len() as int) =~= jm);
                        }
                        return Err(e);
                    },
                }
                i += 1;
            }
            assert(jm.take(i as int) =~= jm);
            Ok(GenericValue::List(acc))
        },
        JsonValue::Object(fs) => {
            let ghost fm = field_models(fs@);
            proof {
                lemma_field_models(fs@);
            }
            let mut acc: Vec<(String, GenericValue)> = Vec::new();
            let mut i: usize = 0;
            assert(fm.take(0) =~= seq![]);
            assert(entry_models(acc@) =~= seq![]);
            while i < fs.len()
                invariant
                    *j == JsonValue::Object(*fs),
                    fm == field_models(fs@),
                    fm.len() == fs@.len(),
                    forall|k: int|
                        0 <= k < fs@.len() ==> #[trigger] fm[k] == (fs@[k].0@, fs@[k].1.model()),
                    i <= fs@.len(),
                    to_generic_fields(fm.take(i as int)) == Some(entry_models(acc@)),
                decreases fs@.len() - i,
            {
                proof {
                    vstd::std_specs::vec::axiom_vec_index_decreases(*fs, i as int);
                    assert(decreases_to!(*j => *fs));
                    assert(decreases_to!(fs@[i as int] => fs@[i as int].1));
                    assert(fm.take(i + 1).drop_last() =~= fm.take(i as int));
                    assert(fm.take(i + 1).last() == fm[i as int]);
                }
                let key = &fs[i].0;
                let field = &fs[i].1;
                let value = match field {
                    JsonValue::Str(t) => {
                        if cid_key(key) {
                            match ContentId::parse(t.as_str()) {
                                Some(c) => Ok(GenericValue::Link(c)),
                                None => Err(CodecError::CidParse),
                            }
                        } else {
                            Ok(GenericValue::Text(t.clone()))
                        }
                    },
                    _ => to_generic_exec(field),
                };
                proof {
                        let (k, jj) = fm[i as int];
                        let sv = if is_cid_key(k) && jj is Str {
                            match cid_from_text(jj->Str_0) {
                                Some(c) => Some(ValueModel::Link(c)),
                                None => None,
                            }
                        } else {
                            to_generic(jj)
                        };
                        assert(jj == field.model());
                        match sv {
                            Some(x) => { assert(value matches Ok(g) && g.model() == x); },
                            None => { assert(value is Err); },
                        }
                }
                match value {
                    Ok(g) => {
                        let ghost before = entry_models(acc@);
                        insert_entry(&mut acc, key.clone(), g);
                        assert(entry_models(acc@) == insert_sorted(before, key@, g.model()));
                    },
                    Err(e) => {
                        proof {
                            lemma_fields_fail(fm, i + 1, fm.len() as int);
                            assert(fm.take(fm.len() as int) =~= fm);
                        }
                        return Err(e);
                    },
                }
                i += 1;
            }
            assert(fm.take(i as int) =~= fm);
            Ok(GenericValue::Dict(acc))
        },
    }
}

/// Converts a JSON value to a generic value. Numbers that fit in 64 signed bits
/// become integers and the others floats; a field named `cid` that holds a string
/// becomes a link, and the conversion fails when that string is not a CID.
/// Object entries are kept in ascending key byte order, the last of equal keys winning.
pub fn json_to_ipld(val: JsonValue) -> (r: Result<GenericValue, CodecError>)
    ensures
        match to_generic(val.model()) {
            Some(v) => r matches Ok(g) && g.model() == v,
            None => r == Err::<GenericValue, CodecError>(CodecError::CidParse),
        },
{
    to_generic_exec(&val)
}

/// Where a key stands relative to an entry's key: equal, before, or after.
proof fn lemma_key_cases(a: Seq<char>, k: Seq<char>)
    ensures
        a == k || bytes_lt(encode_utf8(k), encode_utf8(a)) || bytes_lt(encode_utf8(a), encode_utf8(k)),
        !(bytes_lt(encode_utf8(k), encode_utf8(a)) && bytes_lt(encode_utf8(a), encode_utf8(k))),
        a == k ==> !bytes_lt(encode_utf8(k), encode_utf8(a)),
{
    encode_utf8_decode_utf8(a);
    encode_utf8_decode_utf8(k);
    lemma_bytes_lt_order(encode_utf8(a), encode_utf8(k));
}

/// Inserting two different keys gives the same entries in either order.
pub proof fn lemma_insert_commute(
    m: Seq<(Seq<char>, ValueModel)>,
    k1: Seq<char>,
    v1: ValueModel,
    k2: Seq<char>,
    v2: ValueModel,
)
    requires
        k1 != k2,
    ensures
        insert_sorted(insert_sorted(m, k1, v1), k2, v2) == insert_sorted(
            insert_sorted(m, k2, v2),
            k1,
            v1,
        ),
    decreases m.len(),
{
    let b1 = encode_utf8(k1);
    let b2 = encode_utf8(k2);
    lemma_key_cases(k1, k2);
    lemma_key_cases(k2, k1);
    let e1 = (k1, v1);
    let e2 = (k2, v2);
    if m.len() == 0 {
        assert(insert_sorted(m, k1, v1) == seq![e1]);
        assert(insert_sorted(m, k2, v2) == seq![e2]);
        assert(seq![e1].drop_first() =~= m);
        assert(seq![e2].drop_first() =~= m);
        if bytes_lt(b1, b2) {
            assert(insert_sorted(seq![e1], k2, v2) =~= seq![e1, e2]);
            assert(insert_sorted(seq![e2], k1, v1) =~= seq![e1, e2]);
        } else {
            assert(insert_sorted(seq![e1], k2, v2) =~= seq![e2, e1]);
            assert(insert_sorted(seq![e2], k1, v1) =~= seq![e2, e1]);
        }
    } else {
        let a = m[0].0;
        let ba = encode_utf8(a);
        let t = m.drop_first();
        lemma_key_cases(a, k1);
        lemma_key_cases(a, k2);
        let stop1 = a == k1 || bytes_lt(b1, ba);
        let stop2 = a == k2 || bytes_lt(b2, ba);
        let r1 = if a == k1 { t } else { m };
        let r2 = if a == k2 { t } else { m };
        if !stop1 && !stop2 {
            lemma_insert_commute(t, k1, v1, k2, v2);
            let x1 = insert_sorted(t, k1, v1);
            let x2 = insert_sorted(t, k2, v2);
            assert((seq![m[0]] + x1)[0] == m[0]);
            assert((seq![m[0]] + x1).drop_first() =~= x1);
            assert((seq![m[0]] + x2)[0] == m[0]);
            assert((seq![m[0]] + x2).drop_first() =~= x2);
        } else if stop1 && !stop2 {
            if a != k1 {
                lemma_bytes_lt_transitive(b1, ba, b2);
            }
            assert(insert_sorted(m, k1, v1) == seq![e1] + r1);
            assert((seq![e1] + r1)[0] == e1);
            assert((seq![e1] + r1).drop_first() =~= r1);
            let x2 = insert_sorted(t, k2, v2);
            assert(insert_sorted(m, k2, v2) == seq![m[0]] + x2);
            assert((seq![m[0]] + x2)[0] == m[0]);
            assert((seq![m[0]] + x2).drop_first() =~= x2);
            if a == k1 {
                assert(insert_sorted(seq![m[0]] + x2, k1, v1) =~= seq![e1] + x2);
            } else {
                assert(insert_sorted(seq![m[0]] + x2, k1, v1) =~= seq![e1] + (seq![m[0]] + x2));
                assert(insert_sorted(r1, k2, v2) == seq![m[0]] + x2);
            }
            assert(insert_sorted(seq![e1] + r1, k2, v2) =~= seq![e1] + insert_sorted(r1, k2, v2));
        } else if !stop1 && stop2 {
            if a != k2 {
                lemma_bytes_lt_transitive(b2, ba, b1);
            }
            assert(insert_sorted(m, k2, v2) == seq![e2] + r2);
            assert((seq![e2] + r2)[0] == e2);
            assert((seq![e2] + r2).drop_first() =~= r2);
            let x1 = insert_sorted(t, k1, v1);
            assert(insert_sorted(m, k1, v1) == seq![m[0]] + x1);
            assert((seq![m[0]] + x1)[0] == m[0]);
            assert((seq![m[0]] + x1).drop_first() =~= x1);
            if a == k2 {
                assert(insert_sorted(seq![m[0]] + x1, k2, v2) =~= seq![e2] + x1);
            } else {
                assert(insert_sorted(seq![m[0]] + x1, k2, v2) =~= seq![e2] + (seq![m[0]] + x1));
                assert(insert_sorted(r2, k1, v1) == seq![m[0]] + x1);
            }
            assert(insert_sorted(seq![e2] + r2, k1, v1) =~= seq![e2] + insert_sorted(r2, k1, v1));
        } else {
            assert(insert_sorted(m, k1, v1) == seq![e1] + r1);
            assert(insert_sorted(m, k2, v2) == seq![e2] + r2);
            assert((seq![e1] + r1)[0] == e1);
            assert((seq![e1] + r1).drop_first() =~= r1);
            assert((seq![e2] + r2)[0] == e2);
            assert((seq![e2] + r2).drop_first() =~= r2);
            if bytes_lt(b1, b2) {
                // k1 stops before a strictly, so k2 goes in after k1
                assert(a != k1);
                assert(insert_sorted(seq![e2] + r2, k1, v1) =~= seq![e1] + (seq![e2] + r2));
                assert(insert_sorted(r1, k2, v2) =~= seq![e2] + r2);
                assert(insert_sorted(seq![e1] + r1, k2, v2) =~= seq![e1] + (seq![e2] + r2));
            } else {
                assert(a != k2);
                assert(insert_sorted(seq![e1] + r1, k2, v2) =~= seq![e2] + (seq![e1] + r1));
                assert(insert_sorted(r2, k1, v1) =~= seq![e1] + r1);
                assert(insert_sorted(seq![e2] + r2, k1, v1) =~= seq![e2] + (seq![e1] + r1));
            }
        }
    }
}

/// A JSON value whose floats are finite, whose lengths fit in 64 bits, and whose
/// `cid` strings, where they name a CID, name a valid one.
pub open spec fn json_fits(j: JsonModel) -> bool
    decreases j,
{
    match j {
        JsonModel::Number(JsonNumber::Float(bits)) => finite(bits),
        JsonModel::Str(t) => encode_utf8(t).len() < 0x1_0000_0000_0000_0000,
        JsonModel::Array(l) => l.len() < 0x1_0000_0000_0000_0000 && items_fit(l),
        JsonModel::Object(fs) => fs.len() < 0x1_0000_0000_0000_0000 && fields_fit(fs),
        _ => true,
    }
}

pub open spec fn items_fit(l: Seq<JsonModel>) -> bool
    decreases l,
{
    l.len() == 0 || (items_fit(l.drop_last()) && json_fits(l.last()))
}

pub open spec fn fields_fit(fs: Seq<(Seq<char>, JsonModel)>) -> bool
    decreases fs,
{
    fs.len() == 0 || ({
        let (k, j) = fs.last();
        &&& fields_fit(fs.drop_last())
        &&& encode_utf8(k).len() < 0x1_0000_0000_0000_0000
        &&& if is_cid_key(k) && j is Str {
            match cid_from_text(j->Str_0) {
                Some(c) => cid_valid(c) && c.len() + 1 < 0x1_0000_0000_0000_0000,
                None => true,
            }
        } else {
            json_fits(j)
        }
    })
}

/// Inserting a key that follows `prev` into entries in canonical order keeps them
/// in canonical order, and adds at most one entry.
pub proof fn lemma_insert_keeps_order(
    m: Seq<(Seq<char>, ValueModel)>,
    prev: Option<Seq<u8>>,
    k: Seq<char>,
    v: ValueModel,
)
    requires
        entries_encodable(m, prev),
        key_follows(prev, k),
        encode_utf8(k).len() < 0x1_0000_0000_0000_0000,
        encodable(v),
    ensures
        entries_encodable(insert_sorted(m, k, v), prev),
        insert_sorted(m, k, v).len() <= m.len() + 1,
    decreases m.len(),
{
    let r = insert_sorted(m, k, v);
    if m.len() == 0 {
        assert(r[0] == (k, v));
        assert(r.drop_first() =~= seq![]);
        assert(entries_encodable(r.drop_first(), Some(encode_utf8(k))));
    } else {
        let t = m.drop_first();
        lemma_key_cases(m[0].0, k);
        if m[0].0 == k {
            assert(r[0] == (k, v));
            assert(r.drop_first() =~= t);
            assert(entries_encodable(t, Some(encode_utf8(k))));
        } else if bytes_lt(encode_utf8(k), encode_utf8(m[0].0)) {
            assert(r[0] == (k, v));
            assert(r.drop_first() =~= m);
            assert(entries_encodable(m, Some(encode_utf8(k))));
        } else {
            assert(key_follows(Some(encode_utf8(m[0].0)), k));
            lemma_insert_keeps_order(t, Some(encode_utf8(m[0].0)), k, v);
            assert(r[0] == m[0]);
            assert(r.drop_first() =~= insert_sorted(t, k, v));
        }
    }
}

proof fn lemma_large_float_finite(n: nat)
    requires
        I64_MAX < n < 0x1_0000_0000_0000_0000,
    ensures
        finite(large_float_bits(n)),
{
    let m = n / 2048;
    assert(TWO_52 <= m < 2 * TWO_52);
}

/// A JSON value that fits bridges, when it bridges, to a value with a canonical encoding.
pub proof fn lemma_bridged_encodable(j: JsonModel)
    requires
        json_fits(j),
        to_generic(j) is Some,
    ensures
        encodable(to_generic(j)->Some_0),
    decreases j, 0nat,
{
    match j {
        JsonModel::Number(JsonNumber::PosInt(u)) => {
            if u > I64_MAX {
                lemma_large_float_finite(u as nat);
            }
        },
        JsonModel::Array(l) => {
            lemma_items_bridged(l);
        },
        JsonModel::Object(fs) => {
            lemma_fields_bridged(fs);
        },
        _ => {},
    }
}

proof fn lemma_items_bridged(l: Seq<JsonModel>)
    requires
        items_fit(l),
        to_generic_items(l) is Some,
    ensures
        items_encodable(to_generic_items(l)->Some_0),
        to_generic_items(l)->Some_0.len() == l.len(),
    decreases l, 1nat,
{
    if l.len() > 0 {
        lemma_items_bridged(l.drop_last());
        lemma_bridged_encodable(l.last());
        let items = to_generic_items(l.drop_last())->Some_0;
        lemma_enc_items_push(items, to_generic(l.last())->Some_0);
    }
}

proof fn lemma_fields_bridged(fs: Seq<(Seq<char>, JsonModel)>)
    requires
        fields_fit(fs),
        to_generic_fields(fs) is Some,
    ensures
        entries_encodable(to_generic_fields(fs)->Some_0, None),
        to_generic_fields(fs)->Some_0.len() <= fs.len(),
    decreases fs, 1nat,
{
    if fs.len() > 0 {
        let (k, j) = fs.last();
        lemma_fields_bridged(fs.drop_last());
        let m = to_generic_fields(fs.drop_last())->Some_0;
        if !(is_cid_key(k) && j is Str) {
            lemma_bridged_encodable(j);
        }
        let v = to_generic_fields(fs)->Some_0;
        let x = if is_cid_key(k) && j is Str {
            ValueModel::Link(cid_from_text(j->Str_0)->Some_0)
        } else {
            to_generic(j)->Some_0
        };
        assert(v == insert_sorted(m, k, x));
        lemma_insert_keeps_order(m, None, k, x);
    }
}

} // verus!
