//! Reading generic values from canonical DAG-CBOR.
use vstd::prelude::*;
use vstd::slice::{slice_subrange, slice_to_vec};
use vstd::utf8::{decode_utf8, valid_utf8};
use crate::cbor::{
    be_value, decode_spec, lemma_be_value_bound, parse, parse_entries,
    parse_head, parse_items, I64_MAX,
};
use crate::content_id::ContentId;
use crate::encoder::bytes_less;
use crate::value::{entry_models, models, GenericValue};

verus! {

/// Relies on `std::str::from_utf8`: it accepts exactly the valid UTF-8 sequences and
/// yields the characters they encode.
#[verifier::external_body]
fn utf8_to_string(b: &[u8]) -> (r: Option<String>)
    ensures
        r is Some <==> valid_utf8(b@),
        r matches Some(t) ==> t@ == decode_utf8(b@),
{
    std::str::from_utf8(b).ok().map(|t| t.to_string())
}

/// The value of `k` big-endian bytes of `s` starting at `pos`.
fn read_be(s: &[u8], pos: usize, k: usize) -> (r: u64)
    requires
        k <= 8,
        pos + k <= s@.len(),
    ensures
        r as nat == be_value(s@, pos as int, k as nat),
{
    let mut acc: u64 = 0;
    let mut i: usize = 0;
    while i < k
        invariant
            k <= 8,
            pos + k <= s@.len(),
            i <= k,
            acc as nat == be_value(s@, pos as int, i as nat),
        decreases k - i,
    {
        proof {
            lemma_be_value_bound(s@, pos as int, (i + 1) as nat);
            assert(be_value(s@, pos as int, (i + 1) as nat) == be_value(s@, pos as int, i as nat)
                * 256 + s@[pos + i] as nat);
        }
        assert(pos + i < s.len());
        let byte = s[pos + i];
        acc = acc * 256 + byte as u64;
        i += 1;
    }
    acc
}

/// Reads a canonical head at `pos`.
fn read_head(s: &[u8], pos: usize) -> (r: Option<(u8, u64, usize)>)
    ensures
        r matches Some((m, n, p)) ==> parse_head(s@, pos as int) == Some(
            (m as nat, n as nat, p as int),
        ),
        r is None ==> parse_head(s@, pos as int) is None,
{
    if pos >= s.len() {
        return None;
    }
    let b = s[pos];
    let major = b / 32;
    let info = b % 32;
    if info < 24 {
        Some((major, info as u64, pos + 1))
    } else if info <= 27 {
        let k: usize = if info == 24 {
            1
        } else if info == 25 {
            2
        } else if info == 26 {
            4
        } else {
            8
        };
        let min: u64 = if info == 24 {
            24
        } else if info == 25 {
            0x100
        } else if info == 26 {
            0x1_0000
        } else {
            0x1_0000_0000
        };
        if s.len() - pos - 1 < k {
            return None;
        }
        let n = read_be(s, pos + 1, k);
        if n < min {
            return None;
        }
        Some((major, n, pos + 1 + k))
    } else {
        None
    }
}

pub open spec fn prev_key(s: Seq<u8>, prev: Option<(usize, usize)>) -> Option<Seq<u8>> {
    match prev {
        Some((a, b)) => Some(s.subrange(a as int, b as int)),
        None => None,
    }
}

/// Reads one canonical data item at `pos`.
fn read_value(s: &[u8], pos: usize) -> (r: Option<(GenericValue, usize)>)
    requires
        pos <= s@.len(),
    ensures
        match parse(s@, pos as int) {
            Some((v, q)) => r matches Some((g, p)) && g.model() == v && p as int == q,
            None => r is None,
        },
    decreases s@.len() - pos, 0nat, 0nat,
{
    if pos >= s.len() {
        return None;
    }
    let b = s[pos];
    if b == 0xf4 {
        return Some((GenericValue::Bool(false), pos + 1));
    }
    if b == 0xf5 {
        return Some((GenericValue::Bool(true), pos + 1));
    }
    if b == 0xf6 {
        return Some((GenericValue::Null, pos + 1));
    }
    if b == 0xfb {
        if s.len() - pos < 9 {
            return None;
        }
        let bits = read_be(s, pos + 1, 8);
        if (bits / 0x10_0000_0000_0000) % 2048 == 2047 {
            return None;
        }
        return Some((GenericValue::Float(bits), pos + 9));
    }
    if b >= 0xe0 {
        return None;
    }
    let (major, n, p) = match read_head(s, pos) {
        Some(h) => h,
        None => {
            return None;
        },
    };
    if major == 0 {
        if n <= I64_MAX {
            Some((GenericValue::Integer(n as i64), p))
        } else {
            None
        }
    } else if major == 1 {
        if n <= I64_MAX {
            Some((GenericValue::Integer(-1i64 - n as i64), p))
        } else {
            None
        }
    } else if major == 2 || major == 3 {
        if n > (s.len() - p) as u64 {
            return None;
        }
        let end = p + n as usize;
        let body = slice_subrange(s, p, end);
        if major == 2 {
            Some((GenericValue::Bytes(slice_to_vec(body)), end))
        } else {
            match utf8_to_string(body) {
                Some(t) => Some((GenericValue::Text(t), end)),
                None => None,
            }
        }
    } else if major == 4 {
        let mut items: Vec<GenericValue> = Vec::new();
        match read_items(s, p, n, &mut items) {
            Some(q) => {
                proof {
                    assert(models(items@) =~= models(Seq::<GenericValue>::empty()) + models(
                        items@,
                    ));
                }
                Some((GenericValue::List(items), q))
            },
            None => None,
        }
    } else if major == 5 {
        let mut entries: Vec<(String, GenericValue)> = Vec::new();
        match read_entries(s, p, n, None, &mut entries) {
            Some(q) => Some((GenericValue::Dict(entries), q)),
            None => None,
        }
    } else if n == 42 {
        match read_head(s, p) {
            Some((m2, len, q)) => {
                if m2 != 2 || len < 1 || len > (s.len() - q) as u64 || s[q] != 0 {
                    return None;
                }
                let end = q + len as usize;
                match ContentId::from_bytes(slice_subrange(s, q + 1, end)) {
                    Some(c) => Some((GenericValue::Link(c), end)),
                    None => None,
                }
            },
            None => None,
        }
    } else {
        None
    }
}

/// Reads `n` data items in a row from `pos`, appending them to `acc`.
fn read_items(s: &[u8], pos: usize, n: u64, acc: &mut Vec<GenericValue>) -> (r: Option<usize>)
    requires
        pos <= s@.len(),
    ensures
        match parse_items(s@, pos as int, n as nat) {
            Some((items, q)) => r matches Some(p) && p as int == q && models(final(acc)@)
                == models(old(acc)@) + items,
            None => r is None,
        },
    decreases s@.len() - pos, 1nat, n,
{
    if n == 0 {
        assert(models(acc@) =~= models(acc@) + Seq::<crate::value::ValueModel>::empty());
        return Some(pos);
    }
    match read_value(s, pos) {
        None => None,
        Some((g, q)) => {
            if q <= pos || q > s.len() {
                return None;
            }
            let ghost before = acc@;
            acc.push(g);
            proof {
                assert(acc@.drop_last() =~= before);
            }
            let r = read_items(s, q, n - 1, acc);
            proof {
                if let Some((rest, _)) = parse_items(s@, q as int, (n - 1) as nat) {
                    assert(models(final(acc)@) =~= models(before) + (seq![g.model()] + rest));
                }
            }
            r
        },
    }
}

/// Reads `n` map entries in a row from `pos`, appending them to `acc`; `prev` locates
/// the key bytes that the first key must follow.
fn read_entries(
    s: &[u8],
    pos: usize,
    n: u64,
    prev: Option<(usize, usize)>,
    acc: &mut Vec<(String, GenericValue)>,
) -> (r: Option<usize>)
    requires
        pos <= s@.len(),
        prev matches Some((a, b)) ==> a <= b <= s@.len(),
    ensures
        match parse_entries(s@, pos as int, n as nat, prev_key(s@, prev)) {
            Some((entries, q)) => r matches Some(p) && p as int == q && entry_models(
                final(acc)@,
            ) == entry_models(old(acc)@) + entries,
            None => r is None,
        },
    decreases s@.len() - pos, 1nat, n,
{
    if n == 0 {
        assert(entry_models(acc@) =~= entry_models(acc@) + Seq::<
            (Seq<char>, crate::value::ValueModel),
        >::empty());
        return Some(pos);
    }
    let (major, len, p) = match read_head(s, pos) {
        Some(h) => h,
        None => {
            return None;
        },
    };
    if major != 3 || len > (s.len() - p) as u64 {
        return None;
    }
    let end = p + len as usize;
    let kb = slice_subrange(s, p, end);
    if let Some((a, b)) = prev {
        if !bytes_less(slice_subrange(s, a, b), kb) {
            return None;
        }
    }
    let key = match utf8_to_string(kb) {
        Some(t) => t,
        None => {
            return None;
        },
    };
    match read_value(s, end) {
        None => None,
        Some((g, q)) => {
            if q <= pos || q > s.len() {
                return None;
            }
            let ghost before = acc@;
            let ghost k = key@;
            acc.push((key, g));
            proof {
                assert(acc@.drop_last() =~= before);
            }
            let r = read_entries(s, q, n - 1, Some((p, end)), acc);
            proof {
                if let Some((rest, _)) = parse_entries(
                    s@,
                    q as int,
                    (n - 1) as nat,
                    Some(s@.subrange(p as int, end as int)),
                ) {
                    assert(entry_models(final(acc)@) =~= entry_models(before) + (seq![
                        (k, g.model()),
                    ] + rest));
                }
            }
            r
        },
    }
}

/// The value that the whole of `s` encodes canonically, if it encodes one.
pub fn decode_canonical(s: &[u8]) -> (r: Option<GenericValue>)
    ensures
        match decode_spec(s@) {
            Some(v) => r matches Some(g) && g.model() == v,
            None => r is None,
        },
{
    match read_value(s, 0) {
        Some((g, q)) => {
            if q == s.len() {
                Some(g)
            } else {
                None
            }
        },
        None => None,
    }
}

} // verus!
