//! The parser reads back exactly what the encoder writes.
use vstd::prelude::*;
use vstd::utf8::{
    decode_utf8, decode_utf8_encode_utf8, encode_utf8, encode_utf8_decode_utf8,
    encode_utf8_valid_utf8, valid_utf8,
};
use crate::cbor::{
    arg_min, arg_width, be_bytes, be_value, decode_spec, enc, enc_entries, enc_items, encodable,
    entries_encodable, head, items_encodable, parse, parse_entries, parse_head,
    parse_items, pow256, text_item, lemma_be_value_bound,
};
use crate::value::ValueModel;

verus! {

/// `s` holds `a` followed by `b` at `pos`.
pub open spec fn holds_at(s: Seq<u8>, pos: int, a: Seq<u8>) -> bool {
    0 <= pos && pos + a.len() <= s.len() && s.subrange(pos, pos + a.len()) == a
}

proof fn lemma_split(s: Seq<u8>, pos: int, a: Seq<u8>, b: Seq<u8>)
    requires
        holds_at(s, pos, a + b),
    ensures
        holds_at(s, pos, a),
        holds_at(s, pos + a.len(), b),
{
    let whole = s.subrange(pos, pos + (a + b).len());
    assert(whole == a + b);
    assert(s.subrange(pos, pos + a.len()) =~= whole.subrange(0, a.len() as int));
    assert(whole.subrange(0, a.len() as int) =~= a);
    assert(s.subrange(pos + a.len(), pos + a.len() + b.len()) =~= whole.subrange(
        a.len() as int,
        (a.len() + b.len()) as int,
    ));
    assert(whole.subrange(a.len() as int, (a.len() + b.len()) as int) =~= b);
}

proof fn lemma_be(s: Seq<u8>, pos: int, n: nat, k: nat)
    requires
        holds_at(s, pos, be_bytes(n, k)),
        n < pow256(k),
    ensures
        be_bytes(n, k).len() == k,
        be_value(s, pos, k) == n,
    decreases k,
{
    if k > 0 {
        let front = be_bytes(n / 256, (k - 1) as nat);
        assert(be_bytes(n, k) =~= front + seq![(n % 256) as u8]);
        lemma_split(s, pos, front, seq![(n % 256) as u8]);
        assert(n / 256 < pow256((k - 1) as nat)) by (nonlinear_arith)
            requires
                n < pow256(k),
                pow256(k) == 256 * pow256((k - 1) as nat),
        ;
        lemma_be(s, pos, n / 256, (k - 1) as nat);
        assert(s[pos + k - 1] == s.subrange(pos + k - 1, pos + k)[0]);
        assert(be_value(s, pos, k) == (n / 256) * 256 + n % 256);
    }
}

proof fn lemma_head(s: Seq<u8>, pos: int, major: nat, n: nat)
    requires
        major < 7,
        n < 0x1_0000_0000_0000_0000,
        holds_at(s, pos, head(major, n)),
    ensures
        parse_head(s, pos) == Some((major, n, pos + head(major, n).len())),
        s[pos] < 0xe0,
        head(major, n).len() >= 1,
{
    reveal_with_fuel(pow256, 9);
    let h = head(major, n);
    assert(s[pos] == h[0]);
    if n < 24 {
        assert(h[0] == major * 32 + n);
    } else {
        let (info, k): (nat, nat) = if n < 0x100 {
            (24, 1)
        } else if n < 0x1_0000 {
            (25, 2)
        } else if n < 0x1_0000_0000 {
            (26, 4)
        } else {
            (27, 8)
        };
        assert(h == seq![(major * 32 + info) as u8] + be_bytes(n, k));
        lemma_split(s, pos, seq![(major * 32 + info) as u8], be_bytes(n, k));
        lemma_be(s, pos + 1, n, k);
        assert(arg_width(info) == k);
        assert(n >= arg_min(info));
    }
}

proof fn lemma_text(s: Seq<u8>, pos: int, t: Seq<char>)
    requires
        encode_utf8(t).len() < 0x1_0000_0000_0000_0000,
        holds_at(s, pos, text_item(t)),
    ensures
        parse_head(s, pos) == Some(
            (3nat, encode_utf8(t).len(), pos + head(3, encode_utf8(t).len()).len()),
        ),
        s[pos] < 0xe0,
        ({
            let p = pos + head(3, encode_utf8(t).len()).len();
            let kb = s.subrange(p, p + encode_utf8(t).len());
            kb == encode_utf8(t) && valid_utf8(kb) && decode_utf8(kb) == t
        }),
{
    let b = encode_utf8(t);
    lemma_split(s, pos, head(3, b.len()), b);
    lemma_head(s, pos, 3, b.len());
    encode_utf8_valid_utf8(t);
    encode_utf8_decode_utf8(t);
}

/// Reading an encodable value's encoding yields the value and the position after it.
pub proof fn lemma_parse_enc(v: ValueModel, s: Seq<u8>, pos: int)
    requires
        encodable(v),
        holds_at(s, pos, enc(v)),
    ensures
        parse(s, pos) == Some((v, pos + enc(v).len())),
        enc(v).len() >= 1,
    decreases v,
{
    match v {
        ValueModel::Null => {
            assert(s[pos] == s.subrange(pos, pos + 1)[0]);
        },
        ValueModel::Bool(b) => {
            assert(s[pos] == s.subrange(pos, pos + 1)[0]);
        },
        ValueModel::Integer(i) => {
            if i >= 0 {
                lemma_head(s, pos, 0, i as nat);
            } else {
                lemma_head(s, pos, 1, (-1 - i) as nat);
            }
        },
        ValueModel::Float(bits) => {
            reveal_with_fuel(pow256, 9);
            lemma_split(s, pos, seq![0xfbu8], be_bytes(bits as nat, 8));
            lemma_be(s, pos + 1, bits as nat, 8);
            assert(s[pos] == enc(v)[0]);
        },
        ValueModel::Text(t) => {
            lemma_text(s, pos, t);
        },
        ValueModel::Bytes(b) => {
            lemma_split(s, pos, head(2, b.len()), b);
            lemma_head(s, pos, 2, b.len());
        },
        ValueModel::List(l) => {
            lemma_split(s, pos, head(4, l.len()), enc_items(l));
            lemma_head(s, pos, 4, l.len());
            lemma_parse_items(l, s, pos + head(4, l.len()).len());
        },
        ValueModel::Dict(m) => {
            lemma_split(s, pos, head(5, m.len()), enc_entries(m));
            lemma_head(s, pos, 5, m.len());
            lemma_parse_entries(m, None, s, pos + head(5, m.len()).len());
        },
        ValueModel::Link(c) => {
            let h2 = head(2, c.len() + 1);
            reveal_with_fuel(be_bytes, 2);
            assert(be_bytes(42, 1) =~= seq![42u8]);
            assert(head(6, 42) =~= seq![0xd8u8, 0x2au8]);
            assert(enc(v) =~= head(6, 42) + (h2 + (seq![0u8] + c)));
            lemma_split(s, pos, head(6, 42), h2 + (seq![0u8] + c));
            lemma_head(s, pos, 6, 42);
            let p = pos + head(6, 42).len();
            lemma_split(s, p, h2, seq![0u8] + c);
            lemma_head(s, p, 2, c.len() + 1);
            let q = p + h2.len();
            lemma_split(s, q, seq![0u8], c);
            assert(s[q] == s.subrange(q, q + 1)[0]);
        },
    }
}

pub proof fn lemma_parse_items(l: Seq<ValueModel>, s: Seq<u8>, pos: int)
    requires
        items_encodable(l),
        holds_at(s, pos, enc_items(l)),
    ensures
        parse_items(s, pos, l.len()) == Some((l, pos + enc_items(l).len())),
    decreases l,
{
    if l.len() > 0 {
        let rest = l.drop_first();
        lemma_split(s, pos, enc(l[0]), enc_items(rest));
        lemma_parse_enc(l[0], s, pos);
        let q = pos + enc(l[0]).len();
        lemma_parse_items(rest, s, q);
        assert(seq![l[0]] + rest =~= l);
    } else {
        assert(l =~= seq![]);
    }
}

pub proof fn lemma_parse_entries(
    m: Seq<(Seq<char>, ValueModel)>,
    prev: Option<Seq<u8>>,
    s: Seq<u8>,
    pos: int,
)
    requires
        entries_encodable(m, prev),
        holds_at(s, pos, enc_entries(m)),
    ensures
        parse_entries(s, pos, m.len(), prev) == Some((m, pos + enc_entries(m).len())),
    decreases m,
{
    if m.len() > 0 {
        let k = m[0].0;
        let rest = m.drop_first();
        assert(enc_entries(m) =~= text_item(k) + (enc(m[0].1) + enc_entries(rest)));
        lemma_split(s, pos, text_item(k), enc(m[0].1) + enc_entries(rest));
        lemma_text(s, pos, k);
        let p = pos + text_item(k).len();
        lemma_split(s, p, enc(m[0].1), enc_entries(rest));
        lemma_parse_enc(m[0].1, s, p);
        let q = p + enc(m[0].1).len();
        lemma_parse_entries(rest, Some(encode_utf8(k)), s, q);
        assert(seq![(k, m[0].1)] + rest =~= m);
    } else {
        assert(m =~= seq![]);
    }
}

/// Decoding the canonical encoding of an encodable value gives the value back.
pub proof fn lemma_decode_enc(v: ValueModel)
    requires
        encodable(v),
    ensures
        decode_spec(enc(v)) == Some(v),
{
    assert(enc(v).subrange(0, enc(v).len() as int) =~= enc(v));
    lemma_parse_enc(v, enc(v), 0);
}

/// `t` is the first `t.len()` bytes of `s`.
pub open spec fn is_prefix(t: Seq<u8>, s: Seq<u8>) -> bool {
    t.len() <= s.len() && t == s.take(t.len() as int)
}

proof fn lemma_be_prefix(t: Seq<u8>, s: Seq<u8>, pos: int, k: nat)
    requires
        is_prefix(t, s),
        0 <= pos,
        pos + k <= t.len(),
    ensures
        be_value(t, pos, k) == be_value(s, pos, k),
    decreases k,
{
    if k > 0 {
        lemma_be_prefix(t, s, pos, (k - 1) as nat);
        assert(t[pos + k - 1] == s.take(t.len() as int)[pos + k - 1]);
    }
}

proof fn lemma_head_prefix(t: Seq<u8>, s: Seq<u8>, pos: int)
    requires
        is_prefix(t, s),
        parse_head(t, pos) is Some,
    ensures
        parse_head(s, pos) == parse_head(t, pos),
        parse_head(t, pos)->Some_0.2 <= t.len(),
        parse_head(t, pos)->Some_0.2 > pos,
{
    assert(t[pos] == s.take(t.len() as int)[pos]);
    let info = t[pos] as nat % 32;
    if 24 <= info <= 27 {
        lemma_be_prefix(t, s, pos + 1, arg_width(info));
    }
}

proof fn lemma_sub_prefix(t: Seq<u8>, s: Seq<u8>, a: int, b: int)
    requires
        is_prefix(t, s),
        0 <= a <= b <= t.len(),
    ensures
        t.subrange(a, b) == s.subrange(a, b),
{
    assert(t.subrange(a, b) =~= s.subrange(a, b));
}

/// A value read from a prefix of `s` is read from `s` too.
pub proof fn lemma_parse_extend(t: Seq<u8>, s: Seq<u8>, pos: int)
    requires
        is_prefix(t, s),
        parse(t, pos) is Some,
    ensures
        parse(s, pos) == parse(t, pos),
        pos < parse(t, pos)->Some_0.1 <= t.len(),
    decreases t.len() - pos, 0nat, 0nat,
{
    assert(t[pos] == s.take(t.len() as int)[pos]);
    let b = t[pos];
    if b == 0xfb {
        lemma_be_prefix(t, s, pos + 1, 8);
    } else if b != 0xf4 && b != 0xf5 && b != 0xf6 && b < 0xe0 {
        lemma_head_prefix(t, s, pos);
        let (major, n, p) = parse_head(t, pos)->Some_0;
        if major == 2 || major == 3 {
            lemma_sub_prefix(t, s, p, p + n);
        } else if major == 4 {
            lemma_items_extend(t, s, p, n);
        } else if major == 5 {
            lemma_entries_extend(t, s, p, n, None);
        } else if major == 6 {
            lemma_head_prefix(t, s, p);
            let (m2, len, q) = parse_head(t, p)->Some_0;
            assert(t[q] == s.take(t.len() as int)[q]);
            lemma_sub_prefix(t, s, q + 1, q + len);
        }
    }
}

pub proof fn lemma_items_extend(t: Seq<u8>, s: Seq<u8>, pos: int, n: nat)
    requires
        is_prefix(t, s),
        parse_items(t, pos, n) is Some,
    ensures
        parse_items(s, pos, n) == parse_items(t, pos, n),
        pos <= parse_items(t, pos, n)->Some_0.1 <= t.len(),
    decreases t.len() - pos, 1nat, n,
{
    if n > 0 {
        lemma_parse_extend(t, s, pos);
        let q = parse(t, pos)->Some_0.1;
        lemma_items_extend(t, s, q, (n - 1) as nat);
    }
}

pub proof fn lemma_entries_extend(
    t: Seq<u8>,
    s: Seq<u8>,
    pos: int,
    n: nat,
    prev: Option<Seq<u8>>,
)
    requires
        is_prefix(t, s),
        parse_entries(t, pos, n, prev) is Some,
    ensures
        parse_entries(s, pos, n, prev) == parse_entries(t, pos, n, prev),
        pos <= parse_entries(t, pos, n, prev)->Some_0.1 <= t.len(),
    decreases t.len() - pos, 1nat, n,
{
    if n > 0 {
        lemma_head_prefix(t, s, pos);
        let (major, len, p) = parse_head(t, pos)->Some_0;
        lemma_sub_prefix(t, s, p, p + len);
        let kb = t.subrange(p, p + len);
        lemma_parse_extend(t, s, p + len);
        let q = parse(t, p + len)->Some_0.1;
        lemma_entries_extend(t, s, q, (n - 1) as nat, Some(kb));
    }
}

/// No strict prefix of an encodable value's encoding decodes.
pub proof fn lemma_truncated(v: ValueModel, k: int)
    requires
        encodable(v),
        0 <= k < enc(v).len(),
    ensures
        decode_spec(enc(v).take(k)) is None,
{
    let s = enc(v);
    let t = s.take(k);
    if decode_spec(t) is Some {
        assert(is_prefix(t, s));
        lemma_parse_extend(t, s, 0);
        assert(s.subrange(0, s.len() as int) =~= s);
        lemma_parse_enc(v, s, 0);
    }
}

proof fn lemma_join(s: Seq<u8>, pos: int, p: int, q: int)
    requires
        0 <= pos <= p <= q <= s.len(),
    ensures
        s.subrange(pos, q) == s.subrange(pos, p) + s.subrange(p, q),
{
    assert(s.subrange(pos, q) =~= s.subrange(pos, p) + s.subrange(p, q));
}

proof fn lemma_be_inverse(s: Seq<u8>, pos: int, k: nat)
    requires
        0 <= pos,
        pos + k <= s.len(),
    ensures
        be_bytes(be_value(s, pos, k), k) == s.subrange(pos, pos + k),
    decreases k,
{
    if k == 0 {
        assert(s.subrange(pos, pos) =~= seq![]);
    } else {
        let v = be_value(s, pos, (k - 1) as nat);
        let b = s[pos + k - 1];
        lemma_be_inverse(s, pos, (k - 1) as nat);
        assert((v * 256 + b as nat) / 256 == v && (v * 256 + b as nat) % 256 == b as nat)
            by (nonlinear_arith)
            requires
                b < 256,
        ;
        assert(s.subrange(pos, pos + k) =~= s.subrange(pos, pos + k - 1).push(b));
    }
}

proof fn lemma_head_inverse(s: Seq<u8>, pos: int)
    requires
        parse_head(s, pos) is Some,
    ensures
        ({
            let (m, n, p) = parse_head(s, pos)->Some_0;
            &&& m < 8
            &&& n < 0x1_0000_0000_0000_0000
            &&& pos < p <= s.len()
            &&& s.subrange(pos, p) == head(m, n)
        }),
{
    let (m, n, p) = parse_head(s, pos)->Some_0;
    let b = s[pos] as nat;
    assert(b == m * 32 + b % 32);
    let info = b % 32;
    if info < 24 {
        assert(s.subrange(pos, p) =~= seq![s[pos]]);
    } else {
        let k = arg_width(info);
        lemma_be_value_bound(s, pos + 1, k);
        reveal_with_fuel(pow256, 9);
        lemma_be_inverse(s, pos + 1, k);
        assert(s.subrange(pos, p) =~= seq![s[pos]] + s.subrange(pos + 1, p));
    }
}

/// Whatever the parser reads is encodable, and the bytes it consumed are exactly
/// the value's canonical encoding.
pub proof fn lemma_parse_sound(s: Seq<u8>, pos: int)
    requires
        parse(s, pos) is Some,
    ensures
        ({
            let (v, q) = parse(s, pos)->Some_0;
            &&& encodable(v)
            &&& pos < q <= s.len()
            &&& s.subrange(pos, q) == enc(v)
        }),
    decreases s.len() - pos, 0nat, 0nat,
{
    let (v, q) = parse(s, pos)->Some_0;
    let b = s[pos];
    if b == 0xf4 || b == 0xf5 || b == 0xf6 {
        assert(s.subrange(pos, q) =~= seq![b]);
    } else if b == 0xfb {
        lemma_be_inverse(s, pos + 1, 8);
        lemma_be_value_bound(s, pos + 1, 8);
        assert(s.subrange(pos, q) =~= seq![b] + s.subrange(pos + 1, q));
    } else {
        lemma_head_inverse(s, pos);
        let (major, n, p) = parse_head(s, pos)->Some_0;
        if major == 3 {
            decode_utf8_encode_utf8(s.subrange(p, p + n));
        } else if major == 4 {
            lemma_items_sound(s, p, n);
        } else if major == 5 {
            lemma_entries_sound(s, p, n, None);
        } else if major == 6 {
            lemma_head_inverse(s, p);
            let (m2, len, r) = parse_head(s, p)->Some_0;
            let c = s.subrange(r + 1, r + len);
            lemma_join(s, p, r, q);
            assert(s.subrange(r, q) =~= seq![0u8] + c);
            reveal_with_fuel(be_bytes, 2);
            assert(be_bytes(42, 1) =~= seq![42u8]);
            assert(enc(v) =~= head(6, 42) + (head(2, c.len() + 1) + (seq![0u8] + c)));
        }
        lemma_join(s, pos, p, q);
    }
}

pub proof fn lemma_items_sound(s: Seq<u8>, pos: int, n: nat)
    requires
        parse_items(s, pos, n) is Some,
    ensures
        ({
            let (l, q) = parse_items(s, pos, n)->Some_0;
            &&& l.len() == n
            &&& items_encodable(l)
            &&& pos <= q <= s.len()
            &&& s.subrange(pos, q) == enc_items(l)
        }),
    decreases s.len() - pos, 1nat, n,
{
    let (l, q) = parse_items(s, pos, n)->Some_0;
    if n == 0 {
        assert(s.subrange(pos, q) =~= seq![]);
    } else {
        lemma_parse_sound(s, pos);
        let (v, p) = parse(s, pos)->Some_0;
        lemma_items_sound(s, p, (n - 1) as nat);
        let rest = parse_items(s, p, (n - 1) as nat)->Some_0.0;
        lemma_join(s, pos, p, q);
        assert((seq![v] + rest)[0] == v);
        assert((seq![v] + rest).drop_first() =~= rest);
    }
}

pub proof fn lemma_entries_sound(s: Seq<u8>, pos: int, n: nat, prev: Option<Seq<u8>>)
    requires
        parse_entries(s, pos, n, prev) is Some,
    ensures
        ({
            let (m, q) = parse_entries(s, pos, n, prev)->Some_0;
            &&& m.len() == n
            &&& entries_encodable(m, prev)
            &&& pos <= q <= s.len()
            &&& s.subrange(pos, q) == enc_entries(m)
        }),
    decreases s.len() - pos, 1nat, n,
{
    let (m, q) = parse_entries(s, pos, n, prev)->Some_0;
    if n == 0 {
        assert(s.subrange(pos, q) =~= seq![]);
    } else {
        lemma_head_inverse(s, pos);
        let (major, len, p) = parse_head(s, pos)->Some_0;
        let kb = s.subrange(p, p + len);
        decode_utf8_encode_utf8(kb);
        let k = decode_utf8(kb);
        lemma_parse_sound(s, p + len);
        let (v, r) = parse(s, p + len)->Some_0;
        lemma_entries_sound(s, r, (n - 1) as nat, Some(kb));
        let rest = parse_entries(s, r, (n - 1) as nat, Some(kb))->Some_0.0;
        lemma_join(s, pos, p, p + len);
        lemma_join(s, pos, p + len, r);
        lemma_join(s, pos, r, q);
        assert((seq![(k, v)] + rest)[0] == (k, v));
        assert((seq![(k, v)] + rest).drop_first() =~= rest);
        assert(enc_entries(m) =~= text_item(k) + enc(v) + enc_entries(rest));
    }
}

/// A byte sequence that decodes is the canonical encoding of what it decodes to.
pub proof fn lemma_decode_canonical(s: Seq<u8>)
    requires
        decode_spec(s) is Some,
    ensures
        encodable(decode_spec(s)->Some_0),
        enc(decode_spec(s)->Some_0) == s,
{
    lemma_parse_sound(s, 0);
    assert(s.subrange(0, s.len() as int) =~= s);
}

} // verus!
