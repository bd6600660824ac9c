//! The canonical DAG-CBOR form of generic values.
use vstd::prelude::*;
use vstd::utf8::{decode_utf8, encode_utf8, valid_utf8};
use crate::content_id::cid_valid;
use crate::value::ValueModel;

verus! {

pub const I64_MAX: u64 = 0x7fff_ffff_ffff_ffff;

/// The value of `k` big-endian bytes of `s` starting at `pos`.
pub open spec fn be_value(s: Seq<u8>, pos: int, k: nat) -> nat
    decreases k,
{
    if k == 0 {
        0
    } else {
        be_value(s, pos, (k - 1) as nat) * 256 + s[pos + k - 1] as nat
    }
}

/// The `k` low-order bytes of `n`, most significant first.
pub open spec fn be_bytes(n: nat, k: nat) -> Seq<u8>
    decreases k,
{
    if k == 0 {
        seq![]
    } else {
        be_bytes(n / 256, (k - 1) as nat).push((n % 256) as u8)
    }
}

/// The shortest head of a data item of major type `major` with argument `n`.
pub open spec fn head(major: nat, n: nat) -> Seq<u8> {
    if n < 24 {
        seq![(major * 32 + n) as u8]
    } else if n < 0x100 {
        seq![(major * 32 + 24) as u8] + be_bytes(n, 1)
    } else if n < 0x1_0000 {
        seq![(major * 32 + 25) as u8] + be_bytes(n, 2)
    } else if n < 0x1_0000_0000 {
        seq![(major * 32 + 26) as u8] + be_bytes(n, 4)
    } else {
        seq![(major * 32 + 27) as u8] + be_bytes(n, 8)
    }
}

/// A float bit pattern that is neither infinite nor NaN.
pub open spec fn finite(bits: u64) -> bool {
    (bits as nat / 0x10_0000_0000_0000) % 2048 != 2047
}

/// Whether `a` comes before `b` in byte order, comparing from index `i` on.
pub open spec fn bytes_lt_from(a: Seq<u8>, b: Seq<u8>, i: int) -> bool
    decreases a.len() - i,
{
    if i < 0 || i >= a.len() {
        i >= 0 && i < b.len()
    } else if i >= b.len() {
        false
    } else if a[i] < b[i] {
        true
    } else if a[i] > b[i] {
        false
    } else {
        bytes_lt_from(a, b, i + 1)
    }
}

/// Whether `a` comes strictly before `b` in byte order.
pub open spec fn bytes_lt(a: Seq<u8>, b: Seq<u8>) -> bool {
    bytes_lt_from(a, b, 0)
}

/// A text string item.
pub open spec fn text_item(t: Seq<char>) -> Seq<u8> {
    head(3, encode_utf8(t).len()) + encode_utf8(t)
}

/// The canonical encoding of a value.
pub open spec fn enc(v: ValueModel) -> Seq<u8>
    decreases v,
{
    match v {
        ValueModel::Null => seq![0xf6u8],
        ValueModel::Bool(b) => if b { seq![0xf5u8] } else { seq![0xf4u8] },
        ValueModel::Integer(i) => if i >= 0 {
            head(0, i as nat)
        } else {
            head(1, (-1 - i) as nat)
        },
        ValueModel::Float(bits) => seq![0xfbu8] + be_bytes(bits as nat, 8),
        ValueModel::Text(t) => text_item(t),
        ValueModel::Bytes(b) => head(2, b.len()) + b,
        ValueModel::List(l) => head(4, l.len()) + enc_items(l),
        ValueModel::Dict(m) => head(5, m.len()) + enc_entries(m),
        ValueModel::Link(c) => seq![0xd8u8, 0x2au8] + head(2, c.len() + 1) + seq![0u8] + c,
    }
}

pub open spec fn enc_items(l: Seq<ValueModel>) -> Seq<u8>
    decreases l,
{
    if l.len() == 0 {
        seq![]
    } else {
        enc(l[0]) + enc_items(l.drop_first())
    }
}

pub open spec fn enc_entries(m: Seq<(Seq<char>, ValueModel)>) -> Seq<u8>
    decreases m,
{
    if m.len() == 0 {
        seq![]
    } else {
        text_item(m[0].0) + enc(m[0].1) + enc_entries(m.drop_first())
    }
}

pub open spec fn key_follows(prev: Option<Seq<u8>>, k: Seq<char>) -> bool {
    match prev {
        Some(p) => bytes_lt(p, encode_utf8(k)),
        None => true,
    }
}

/// Whether a value has a canonical encoding: every integer fits in 64 signed
/// bits, every float is finite, every length fits in 64 bits, every link is a
/// valid CID, and every map holds its keys in strictly ascending byte order.
pub open spec fn encodable(v: ValueModel) -> bool
    decreases v,
{
    match v {
        ValueModel::Null => true,
        ValueModel::Bool(_) => true,
        ValueModel::Integer(i) => -0x8000_0000_0000_0000 <= i <= 0x7fff_ffff_ffff_ffff,
        ValueModel::Float(bits) => finite(bits),
        ValueModel::Text(t) => encode_utf8(t).len() < 0x1_0000_0000_0000_0000,
        ValueModel::Bytes(b) => b.len() < 0x1_0000_0000_0000_0000,
        ValueModel::List(l) => l.len() < 0x1_0000_0000_0000_0000 && items_encodable(l),
        ValueModel::Dict(m) => m.len() < 0x1_0000_0000_0000_0000 && entries_encodable(m, None),
        ValueModel::Link(c) => cid_valid(c) && c.len() + 1 < 0x1_0000_0000_0000_0000,
    }
}

pub open spec fn items_encodable(l: Seq<ValueModel>) -> bool
    decreases l,
{
    l.len() == 0 || (encodable(l[0]) && items_encodable(l.drop_first()))
}

pub open spec fn entries_encodable(m: Seq<(Seq<char>, ValueModel)>, prev: Option<Seq<u8>>) -> bool
    decreases m,
{
    m.len() == 0 || (key_follows(prev, m[0].0) && encode_utf8(m[0].0).len()
        < 0x1_0000_0000_0000_0000 && encodable(m[0].1) && entries_encodable(
        m.drop_first(),
        Some(encode_utf8(m[0].0)),
    ))
}

/// The width in bytes of the argument that follows a head with additional info `info`.
pub open spec fn arg_width(info: nat) -> nat {
    if info == 24 {
        1
    } else if info == 25 {
        2
    } else if info == 26 {
        4
    } else {
        8
    }
}

/// The least argument that may use that width in a canonical head.
pub open spec fn arg_min(info: nat) -> nat {
    if info == 24 {
        24
    } else if info == 25 {
        0x100
    } else if info == 26 {
        0x1_0000
    } else {
        0x1_0000_0000
    }
}

/// Reads a canonical head at `pos`: its major type, its argument and the position after it.
pub open spec fn parse_head(s: Seq<u8>, pos: int) -> Option<(nat, nat, int)> {
    if pos < 0 || pos >= s.len() {
        None
    } else {
        let major = s[pos] as nat / 32;
        let info = s[pos] as nat % 32;
        if info < 24 {
            Some((major, info, pos + 1))
        } else if info <= 27 {
            let k = arg_width(info);
            let n = be_value(s, pos + 1, k);
            if pos + 1 + k <= s.len() && n >= arg_min(info) {
                Some((major, n, pos + 1 + k))
            } else {
                None
            }
        } else {
            None
        }
    }
}

/// Reads one canonical data item at `pos`: its value and the position after it.
pub open spec fn parse(s: Seq<u8>, pos: int) -> Option<(ValueModel, int)>
    decreases s.len() - pos, 0nat, 0nat,
{
    if pos < 0 || pos >= s.len() {
        None
    } else if s[pos] == 0xf4 {
        Some((ValueModel::Bool(false), pos + 1))
    } else if s[pos] == 0xf5 {
        Some((ValueModel::Bool(true), pos + 1))
    } else if s[pos] == 0xf6 {
        Some((ValueModel::Null, pos + 1))
    } else if s[pos] == 0xfb {
        let bits = be_value(s, pos + 1, 8);
        if pos + 9 <= s.len() && finite(bits as u64) {
            Some((ValueModel::Float(bits as u64), pos + 9))
        } else {
            None
        }
    } else if s[pos] >= 0xe0 {
        None
    } else {
        match parse_head(s, pos) {
            None => None,
            Some((major, n, p)) => {
                if major == 0 {
                    if n <= I64_MAX {
                        Some((ValueModel::Integer(n as int), p))
                    } else {
                        None
                    }
                } else if major == 1 {
                    if n <= I64_MAX {
                        Some((ValueModel::Integer(-1 - n), p))
                    } else {
                        None
                    }
                } else if major == 2 {
                    if p + n <= s.len() {
                        Some((ValueModel::Bytes(s.subrange(p, p + n)), p + n))
                    } else {
                        None
                    }
                } else if major == 3 {
                    if p + n <= s.len() && valid_utf8(s.subrange(p, p + n)) {
                        Some((ValueModel::Text(decode_utf8(s.subrange(p, p + n))), p + n))
                    } else {
                        None
                    }
                } else if major == 4 {
                    match parse_items(s, p, n) {
                        Some((l, q)) => Some((ValueModel::List(l), q)),
                        None => None,
                    }
                } else if major == 5 {
                    match parse_entries(s, p, n, None) {
                        Some((m, q)) => Some((ValueModel::Dict(m), q)),
                        None => None,
                    }
                } else if n == 42 {
                    match parse_head(s, p) {
                        Some((m2, len, q)) => {
                            if m2 == 2 && len >= 1 && q + len <= s.len() && s[q] == 0
                                && cid_valid(s.subrange(q + 1, q + len)) {
                                Some((ValueModel::Link(s.subrange(q + 1, q + len)), q + len))
                            } else {
                                None
                            }
                        },
                        None => None,
                    }
                } else {
                    None
                }
            },
        }
    }
}

/// Reads `n` data items in a row from `pos`.
pub open spec fn parse_items(s: Seq<u8>, pos: int, n: nat) -> Option<(Seq<ValueModel>, int)>
    decreases s.len() - pos, 1nat, n,
{
    if pos < 0 || pos > s.len() {
        None
    } else if n == 0 {
        Some((seq![], pos))
    } else {
        match parse(s, pos) {
            None => None,
            Some((v, q)) => {
                if q <= pos || q > s.len() {
                    None
                } else {
                    match parse_items(s, q, (n - 1) as nat) {
                        None => None,
                        Some((rest, r)) => Some((seq![v] + rest, r)),
                    }
                }
            },
        }
    }
}

/// Reads `n` map entries in a row from `pos`, each key a text string after `prev`
/// in byte order.
pub open spec fn parse_entries(s: Seq<u8>, pos: int, n: nat, prev: Option<Seq<u8>>) -> Option<
    (Seq<(Seq<char>, ValueModel)>, int),
>
    decreases s.len() - pos, 1nat, n,
{
    if pos < 0 || pos > s.len() {
        None
    } else if n == 0 {
        Some((seq![], pos))
    } else {
        match parse_head(s, pos) {
            None => None,
            Some((major, len, p)) => {
                let kb = s.subrange(p, p + len);
                if major == 3 && p + len <= s.len() && valid_utf8(kb) && (match prev {
                    Some(pk) => bytes_lt(pk, kb),
                    None => true,
                }) {
                    match parse(s, p + len) {
                        None => None,
                        Some((v, q)) => {
                            if q <= pos || q > s.len() {
                                None
                            } else {
                                match parse_entries(s, q, (n - 1) as nat, Some(kb)) {
                                    None => None,
                                    Some((rest, r)) => Some(
                                        (seq![(decode_utf8(kb), v)] + rest, r),
                                    ),
                                }
                            }
                        },
                    }
                } else {
                    None
                }
            },
        }
    }
}

/// The value that a whole byte sequence encodes, with nothing after it.
pub open spec fn decode_spec(s: Seq<u8>) -> Option<ValueModel> {
    match parse(s, 0) {
        Some((v, q)) => if q == s.len() {
            Some(v)
        } else {
            None
        },
        None => None,
    }
}

/// The key bytes that the next entry after `m` must follow, starting from `prev`.
pub open spec fn last_key(m: Seq<(Seq<char>, ValueModel)>, prev: Option<Seq<u8>>) -> Option<Seq<u8>> {
    if m.len() == 0 {
        prev
    } else {
        Some(encode_utf8(m.last().0))
    }
}

pub proof fn lemma_enc_items_push(l: Seq<ValueModel>, v: ValueModel)
    ensures
        enc_items(l.push(v)) == enc_items(l) + enc(v),
        items_encodable(l.push(v)) == (items_encodable(l) && encodable(v)),
    decreases l.len(),
{
    if l.len() == 0 {
        assert(l.push(v).drop_first() =~= seq![]);
        assert(l.push(v)[0] == v);
        assert(enc_items(l.push(v).drop_first()) == Seq::<u8>::empty());
        assert(items_encodable(l.push(v).drop_first()));
        assert(enc_items(l.push(v)) =~= enc_items(l) + enc(v));
    } else {
        assert(l.push(v).drop_first() =~= l.drop_first().push(v));
        lemma_enc_items_push(l.drop_first(), v);
        assert(enc_items(l.push(v)) =~= enc_items(l) + enc(v));
    }
}

pub proof fn lemma_enc_entries_push(
    m: Seq<(Seq<char>, ValueModel)>,
    prev: Option<Seq<u8>>,
    e: (Seq<char>, ValueModel),
)
    ensures
        enc_entries(m.push(e)) == enc_entries(m) + text_item(e.0) + enc(e.1),
        entries_encodable(m.push(e), prev) == (entries_encodable(m, prev) && key_follows(
            last_key(m, prev),
            e.0,
        ) && encode_utf8(e.0).len() < 0x1_0000_0000_0000_0000 && encodable(e.1)),
    decreases m.len(),
{
    if m.len() == 0 {
        assert(m.push(e).drop_first() =~= seq![]);
        assert(m.push(e)[0] == e);
        assert(enc_entries(m.push(e).drop_first()) == Seq::<u8>::empty());
        assert(entries_encodable(m.push(e).drop_first(), Some(encode_utf8(e.0))));
        assert(enc_entries(m.push(e)) =~= enc_entries(m) + text_item(e.0) + enc(e.1));
    } else {
        assert(m.push(e).drop_first() =~= m.drop_first().push(e));
        lemma_enc_entries_push(m.drop_first(), Some(encode_utf8(m[0].0)), e);
        assert(enc_entries(m.push(e)) =~= enc_entries(m) + text_item(e.0) + enc(e.1));
        if m.len() > 1 {
            assert(m.drop_first().last() == m.last());
        }
    }
}

pub proof fn lemma_items_encodable(l: Seq<ValueModel>)
    ensures
        items_encodable(l) == forall|i: int| 0 <= i < l.len() ==> #[trigger] encodable(l[i]),
    decreases l.len(),
{
    if l.len() > 0 {
        let t = l.drop_first();
        lemma_items_encodable(t);
        assert(items_encodable(l) == (encodable(l[0]) && items_encodable(t)));
        assert forall|i: int| 0 <= i < t.len() implies #[trigger] t[i] == l[i + 1] by {}
        if items_encodable(l) {
            assert forall|i: int| 0 <= i < l.len() implies #[trigger] encodable(l[i]) by {
                if i > 0 {
                    assert(l[i] == t[i - 1]);
                }
            }
        }
        if forall|i: int| 0 <= i < l.len() ==> #[trigger] encodable(l[i]) {
            assert(encodable(l[0]));
            assert forall|i: int| 0 <= i < t.len() implies #[trigger] encodable(t[i]) by {
                assert(t[i] == l[i + 1]);
            }
        }
    }
}

pub proof fn lemma_entries_prefix(m: Seq<(Seq<char>, ValueModel)>, prev: Option<Seq<u8>>, j: int)
    requires
        entries_encodable(m, prev),
        0 <= j <= m.len(),
    ensures
        entries_encodable(m.take(j), prev),
    decreases m.len(),
{
    if j > 0 {
        assert(m.take(j).drop_first() =~= m.drop_first().take(j - 1));
        assert(m.take(j)[0] == m[0]);
        lemma_entries_prefix(m.drop_first(), Some(encode_utf8(m[0].0)), j - 1);
    }
}

/// `k` big-endian bytes of at most eight hold a value below 2^(8k) <= 2^64.
pub proof fn lemma_be_value_bound(s: Seq<u8>, pos: int, k: nat)
    requires
        k <= 8,
    ensures
        be_value(s, pos, k) < pow256(k),
        pow256(k) <= pow256(8),
        pow256(8) == 0x1_0000_0000_0000_0000,
    decreases k,
{
    reveal_with_fuel(pow256, 9);
    if k > 0 {
        lemma_be_value_bound(s, pos, (k - 1) as nat);
        assert(be_value(s, pos, k) < pow256(k)) by (nonlinear_arith)
            requires
                be_value(s, pos, k) == be_value(s, pos, (k - 1) as nat) * 256 + s[pos + k
                    - 1] as nat,
                be_value(s, pos, (k - 1) as nat) < pow256((k - 1) as nat),
                pow256(k) == 256 * pow256((k - 1) as nat),
                s[pos + k - 1] < 256,
        ;
    }
}

pub open spec fn pow256(k: nat) -> nat
    decreases k,
{
    if k == 0 {
        1
    } else {
        256 * pow256((k - 1) as nat)
    }
}

pub proof fn lemma_lt_from_irreflexive(a: Seq<u8>, i: int)
    ensures
        !bytes_lt_from(a, a, i),
    decreases a.len() - i,
{
    if 0 <= i < a.len() {
        lemma_lt_from_irreflexive(a, i + 1);
    }
}

pub proof fn lemma_lt_from_asymmetric(a: Seq<u8>, b: Seq<u8>, i: int)
    requires
        bytes_lt_from(a, b, i),
    ensures
        !bytes_lt_from(b, a, i),
    decreases a.len() - i,
{
    if 0 <= i < a.len() && i < b.len() && a[i] == b[i] {
        lemma_lt_from_asymmetric(a, b, i + 1);
    }
}

pub proof fn lemma_lt_from_total(a: Seq<u8>, b: Seq<u8>, i: int)
    requires
        0 <= i,
        !bytes_lt_from(a, b, i),
        !bytes_lt_from(b, a, i),
        i <= a.len(),
        i <= b.len(),
    ensures
        a.subrange(i, a.len() as int) == b.subrange(i, b.len() as int),
    decreases a.len() - i,
{
    if i < a.len() {
        lemma_lt_from_total(a, b, i + 1);
        assert(a.subrange(i, a.len() as int) =~= seq![a[i]] + a.subrange(i + 1, a.len() as int));
        assert(b.subrange(i, b.len() as int) =~= seq![b[i]] + b.subrange(i + 1, b.len() as int));
    } else {
        assert(a.subrange(i, a.len() as int) =~= b.subrange(i, b.len() as int));
    }
}

/// Byte order is a strict total order.
pub proof fn lemma_bytes_lt_order(a: Seq<u8>, b: Seq<u8>)
    ensures
        !bytes_lt(a, a),
        bytes_lt(a, b) ==> !bytes_lt(b, a),
        a != b ==> bytes_lt(a, b) || bytes_lt(b, a),
{
    lemma_lt_from_irreflexive(a, 0);
    if bytes_lt(a, b) {
        lemma_lt_from_asymmetric(a, b, 0);
    }
    if !bytes_lt(a, b) && !bytes_lt(b, a) {
        lemma_lt_from_total(a, b, 0);
        assert(a =~= a.subrange(0, a.len() as int));
        assert(b =~= b.subrange(0, b.len() as int));
    }
}

pub proof fn lemma_lt_from_transitive(a: Seq<u8>, b: Seq<u8>, c: Seq<u8>, i: int)
    requires
        0 <= i,
        bytes_lt_from(a, b, i),
        bytes_lt_from(b, c, i),
    ensures
        bytes_lt_from(a, c, i),
    decreases a.len() - i,
{
    if i < a.len() && i < b.len() && i < c.len() && a[i] == b[i] && b[i] == c[i] {
        lemma_lt_from_transitive(a, b, c, i + 1);
    }
}

/// Byte order is transitive.
pub proof fn lemma_bytes_lt_transitive(a: Seq<u8>, b: Seq<u8>, c: Seq<u8>)
    requires
        bytes_lt(a, b),
        bytes_lt(b, c),
    ensures
        bytes_lt(a, c),
{
    lemma_lt_from_transitive(a, b, c, 0);
}

} // verus!
