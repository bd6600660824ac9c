//! Writing generic values in canonical DAG-CBOR.
use vstd::prelude::*;
use vstd::utf8::encode_utf8;
use crate::cbor::{
    be_bytes, bytes_lt, bytes_lt_from, enc, enc_entries, enc_items, encodable, entries_encodable,
    head, items_encodable, lemma_enc_entries_push,
    lemma_enc_items_push, lemma_entries_prefix, lemma_items_encodable, text_item,
};
use crate::value::{entry_models, lemma_entry_models, lemma_models, models, GenericValue};

verus! {

/// Appends the `k` low-order bytes of `n`, most significant first.
fn push_be(out: &mut Vec<u8>, n: u64, k: usize)
    ensures
        final(out)@ == old(out)@ + be_bytes(n as nat, k as nat),
    decreases k,
{
    if k > 0 {
        push_be(out, n / 256, k - 1);
        out.push((n % 256) as u8);
        assert(final(out)@ =~= old(out)@ + be_bytes(n as nat, k as nat));
    } else {
        assert(final(out)@ =~= old(out)@ + be_bytes(n as nat, k as nat));
    }
}

/// Appends the shortest head of major type `major` with argument `n`.
fn write_head(out: &mut Vec<u8>, major: u8, n: u64)
    requires
        major < 8,
    ensures
        final(out)@ == old(out)@ + head(major as nat, n as nat),
{
    let m: u8 = major * 32;
    if n < 24 {
        out.push(m + n as u8);
        assert(final(out)@ =~= old(out)@ + head(major as nat, n as nat));
    } else {
        let (info, k): (u8, usize) = if n < 0x100 {
            (24, 1)
        } else if n < 0x1_0000 {
            (25, 2)
        } else if n < 0x1_0000_0000 {
            (26, 4)
        } else {
            (27, 8)
        };
        out.push(m + info);
        push_be(out, n, k);
        assert(final(out)@ =~= old(out)@ + head(major as nat, n as nat));
    }
}

/// Appends every byte of `b`.
fn append_bytes(out: &mut Vec<u8>, b: &[u8])
    ensures
        final(out)@ == old(out)@ + b@,
{
    let ghost start = out@;
    let mut i: usize = 0;
    while i < b.len()
        invariant
            i <= b@.len(),
            out@ == start + b@.take(i as int),
        decreases b@.len() - i,
    {
        out.push(b[i]);
        i += 1;
        assert(out@ =~= start + b@.take(i as int));
    }
    assert(b@.take(i as int) =~= b@);
}

/// Whether `a` comes strictly before `b` in byte order.
pub fn bytes_less(a: &[u8], b: &[u8]) -> (r: bool)
    ensures
        r == bytes_lt(a@, b@),
{
    let mut i: usize = 0;
    while i < a.len() && i < b.len()
        invariant
            bytes_lt(a@, b@) == bytes_lt_from(a@, b@, i as int),
        decreases a@.len() - i,
    {
        if a[i] < b[i] {
            return true;
        }
        if a[i] > b[i] {
            return false;
        }
        i += 1;
    }
    i >= a.len() && i < b.len()
}

/// Appends a text string item.
fn write_text(out: &mut Vec<u8>, s: &String)
    ensures
        final(out)@ == old(out)@ + text_item(s@),
        encode_utf8(s@).len() < 0x1_0000_0000_0000_0000,
{
    let b = s.as_str().as_bytes();
    write_head(out, 3, b.len() as u64);
    append_bytes(out, b);
    assert(final(out)@ =~= old(out)@ + text_item(s@));
}

/// Appends the canonical encoding of `v` when it has one, and says whether it has.
fn encode_into(v: &GenericValue, out: &mut Vec<u8>) -> (ok: bool)
    ensures
        ok == encodable(v.model()),
        ok ==> final(out)@ == old(out)@ + enc(v.model()),
    decreases v,
{
    match v {
        GenericValue::Null => {
            out.push(0xf6);
            assert(final(out)@ =~= old(out)@ + enc(v.model()));
            true
        },
        GenericValue::Bool(b) => {
            out.push(if *b { 0xf5 } else { 0xf4 });
            assert(final(out)@ =~= old(out)@ + enc(v.model()));
            true
        },
        GenericValue::Integer(i) => {
            if *i >= 0 {
                write_head(out, 0, *i as u64);
            } else {
                write_head(out, 1, (-1i64 - *i) as u64);
            }
            true
        },
        GenericValue::Float(bits) => {
            if (*bits / 0x10_0000_0000_0000) % 2048 == 2047 {
                return false;
            }
            out.push(0xfb);
            push_be(out, *bits, 8);
            assert(final(out)@ =~= old(out)@ + enc(v.model()));
            true
        },
        GenericValue::Text(s) => {
            write_text(out, s);
            true
        },
        GenericValue::Bytes(b) => {
            write_head(out, 2, b.len() as u64);
            append_bytes(out, b.as_slice());
            assert(final(out)@ =~= old(out)@ + enc(v.model()));
            true
        },
        GenericValue::Link(c) => {
            proof {
                use_type_invariant(c);
            }
            let b = c.as_bytes();
            if b.len() as u64 == u64::MAX {
                return false;
            }
            out.push(0xd8);
            out.push(0x2a);
            write_head(out, 2, b.len() as u64 + 1);
            out.push(0);
            append_bytes(out, b);
            assert(final(out)@ =~= old(out)@ + enc(v.model()));
            true
        },
        GenericValue::List(l) => {
            let ghost ms = models(l@);
            proof {
                lemma_models(l@);
            }
            write_head(out, 4, l.len() as u64);
            let ghost start = out@;
            let mut i: usize = 0;
            while i < l.len()
                invariant
                    *v == GenericValue::List(*l),
                    ms == models(l@),
                    ms.len() == l@.len(),
                    forall|j: int| 0 <= j < l@.len() ==> #[trigger] ms[j] == l@[j].model(),
                    i <= l@.len(),
                    out@ == start + enc_items(ms.take(i as int)),
                    items_encodable(ms.take(i as int)),
                decreases l@.len() - i,
            {
                let ghost before = out@;
                proof {
                    vstd::std_specs::vec::axiom_vec_index_decreases(*l, i as int);
                    assert(decreases_to!(*v => *l));
                    assert(decreases_to!(*v => l@[i as int]));
                    assert(ms[i as int] == l@[i as int].model());
                }
                let ok = encode_into(&l[i], out);
                proof {
                    lemma_enc_items_push(ms.take(i as int), ms[i as int]);
                    assert(ms.take(i + 1) =~= ms.take(i as int).push(ms[i as int]));
                }
                if !ok {
                    proof {
                        lemma_items_encodable(ms);
                    }
                    return false;
                }
                i += 1;
            }
            assert(ms.take(i as int) =~= ms);
            assert(final(out)@ =~= old(out)@ + enc(v.model()));
            true
        },
        GenericValue::Dict(m) => {
            let ghost es = entry_models(m@);
            proof {
                lemma_entry_models(m@);
            }
            write_head(out, 5, m.len() as u64);
            let ghost start = out@;
            let mut i: usize = 0;
            while i < m.len()
                invariant
                    *v == GenericValue::Dict(*m),
                    es == entry_models(m@),
                    es.len() == m@.len(),
                    forall|j: int|
                        0 <= j < m@.len() ==> #[trigger] es[j] == (m@[j].0@, m@[j].1.model()),
                    i <= m@.len(),
                    out@ == start + enc_entries(es.take(i as int)),
                    entries_encodable(es.take(i as int), None),
                decreases m@.len() - i,
            {
                let key = m[i].0.as_str().as_bytes();
                let ghost e = es[i as int];
                proof {
                    lemma_enc_entries_push(es.take(i as int), None, e);
                    assert(es.take(i + 1) =~= es.take(i as int).push(e));
                    if i > 0 {
                        assert(es.take(i as int).last() == es[i - 1]);
                    }
                }
                proof {
                    if i > 0 {
                        assert(m@[i - 1].0@ == es[i - 1].0);
                        assert(m@[i as int].0@ == e.0);
                    }
                }
                let follows = if i == 0 {
                    true
                } else {
                    bytes_less(m[i - 1].0.as_str().as_bytes(), key)
                };
                if !follows {
                    proof {
                        if entries_encodable(es, None) {
                            lemma_entries_prefix(es, None, i + 1);
                        }
                    }
                    return false;
                }
                write_text(out, &m[i].0);
                proof {
                    vstd::std_specs::vec::axiom_vec_index_decreases(*m, i as int);
                    assert(decreases_to!(*v => *m));
                    assert(decreases_to!(m@[i as int] => m@[i as int].1));
                    assert(decreases_to!(*v => m@[i as int].1));
                }
                let ok = encode_into(&m[i].1, out);
                if !ok {
                    proof {
                        if entries_encodable(es, None) {
                            lemma_entries_prefix(es, None, i + 1);
                        }
                    }
                    return false;
                }
                i += 1;
            }
            assert(es.take(i as int) =~= es);
            assert(final(out)@ =~= old(out)@ + enc(v.model()));
            true
        },
    }
}

/// The canonical encoding of `v`, or `None` when it has none.
pub fn encode_canonical(v: &GenericValue) -> (r: Option<Vec<u8>>)
    ensures
        r is Some <==> encodable(v.model()),
        r matches Some(b) ==> b@ == enc(v.model()),
{
    let mut out: Vec<u8> = Vec::new();
    if encode_into(v, &mut out) {
        assert(out@ =~= enc(v.model()));
        Some(out)
    } else {
        None
    }
}

} // verus!
