//! Rendering generic values as JSON values.
use vstd::prelude::*;
use crate::bridge::{encode_base64, to_json, to_json_entries, to_json_items};
use crate::value::{
    entry_models, field_models, json_models, lemma_entry_models, lemma_models, models,
    GenericValue, JsonNumber, JsonValue,
};

verus! {

fn to_json_exec(v: &GenericValue) -> (r: JsonValue)
    ensures
        r.model() == to_json(v.model()),
    decreases v,
{
    match v {
        GenericValue::Null => JsonValue::Null,
        GenericValue::Bool(b) => JsonValue::Bool(*b),
        GenericValue::Integer(i) => JsonValue::Number(
            if *i >= 0 {
                JsonNumber::PosInt(*i as u64)
            } else {
                JsonNumber::NegInt(*i)
            },
        ),
        GenericValue::Float(bits) => JsonValue::Number(JsonNumber::Float(*bits)),
        GenericValue::Text(t) => JsonValue::Str(t.clone()),
        GenericValue::Bytes(b) => JsonValue::Str(encode_base64(b.as_slice())),
        GenericValue::Link(c) => {
            proof {
                use_type_invariant(c);
            }
            JsonValue::Str(c.to_text())
        },
        GenericValue::List(l) => {
            let ghost ms = models(l@);
            proof {
                lemma_models(l@);
            }
            assert(decreases_to!(*v => *l));
            let mut out: Vec<JsonValue> = Vec::new();
            let mut i: usize = 0;
            assert(ms.take(0) =~= seq![]);
            assert(json_models(out@) =~= seq![]);
            while i < l.len()
                invariant
                    *v == GenericValue::List(*l),
                    decreases_to!(*v => *l),
                    ms == models(l@),
                    ms.len() == l@.len(),
                    forall|k: int| 0 <= k < l@.len() ==> #[trigger] ms[k] == l@[k].model(),
                    i <= l@.len(),
                    json_models(out@) == to_json_items(ms.take(i as int)),
                decreases l@.len() - i,
            {
                proof {
                    vstd::std_specs::vec::axiom_vec_index_decreases(*l, i as int);
                    assert(decreases_to!(*v => *l));
                    assert(ms.take(i + 1).drop_last() =~= ms.take(i as int));
                    assert(ms.take(i + 1).last() == l@[i as int].model());
                }
                let x = to_json_exec(&l[i]);
                let ghost before = out@;
                out.push(x);
                proof {
                    assert(out@.drop_last() =~= before);
                }
                i += 1;
            }
            assert(ms.take(i as int) =~= ms);
            JsonValue::Array(out)
        },
        GenericValue::Dict(m) => {
            let ghost es = entry_models(m@);
            proof {
                lemma_entry_models(m@);
            }
            assert(decreases_to!(*v => *m));
            let mut out: Vec<(String, JsonValue)> = Vec::new();
            let mut i: usize = 0;
            assert(es.take(0) =~= seq![]);
            assert(field_models(out@) =~= seq![]);
            while i < m.len()
                invariant
                    *v == GenericValue::Dict(*m),
                    decreases_to!(*v => *m),
                    es == entry_models(m@),
                    es.len() == m@.len(),
                    forall|k: int|
                        0 <= k < m@.len() ==> #[trigger] es[k] == (m@[k].0@, m@[k].1.model()),
                    i <= m@.len(),
                    field_models(out@) == to_json_entries(es.take(i as int)),
                decreases m@.len() - i,
            {
                proof {
                    vstd::std_specs::vec::axiom_vec_index_decreases(*m, i as int);
                    assert(decreases_to!(*v => *m));
                    assert(decreases_to!(m@[i as int] => m@[i as int].1));
                    assert(es.take(i + 1).drop_last() =~= es.take(i as int));
                    assert(es.take(i + 1).last() == es[i as int]);
                }
                let x = to_json_exec(&m[i].1);
                let ghost before = out@;
                out.push((m[i].0.clone(), x));
                proof {
                    assert(out@.drop_last() =~= before);
                }
                i += 1;
            }
            assert(es.take(i as int) =~= es);
            JsonValue::Object(out)
        },
    }
}

/// Converts a generic value to a JSON value. Integers and floats both become
/// numbers, byte strings become unpadded base64 text, links become the text form
/// of their CID, and map entries keep their order.
pub fn ipld_to_json(val: GenericValue) -> (r: JsonValue)
    ensures
        r.model() == to_json(val.model()),
{
    to_json_exec(&val)
}

} // verus!
