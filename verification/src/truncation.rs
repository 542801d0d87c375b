use vstd::prelude::*;
use vstd::utf8::*;
use crate::parse::{
    p_count, p_elems, p_entries, p_leaf, p_list_header, p_payload, p_root, p_text, DecodeErrorKind,
    Fail,
};
use crate::roundtrip::{
    at, lemma_at_byte, lemma_elems_front, lemma_entries_front, lemma_i32s_len, lemma_i64s_len,
    lemma_payload_back, lemma_text_back, lemma_val16, lemma_val32,
};
use crate::value::{short_text, tag_of, valid, Value};
use crate::wire::{
    be16, be32, enc_elems, enc_entries, enc_i32s, enc_i64s, enc_i8s, enc_payload, enc_root,
    enc_text,
};

verus! {

/// The bytes `c` end inside `s`, where `s` would stand from `pos` on: from
/// `pos` on they hold a beginning of `s` and not the whole of it.
pub open spec fn cut(c: Seq<u8>, pos: int, s: Seq<u8>) -> bool {
    &&& 0 <= pos <= c.len() < pos + s.len()
    &&& forall|i: int| 0 <= i < c.len() - pos ==> c[pos + i] == s[i]
}

/// The parser failed because the bytes ended too early.
pub open spec fn truncated<T>(r: Result<(T, nat), Fail>) -> bool {
    r is Err && r->Err_0.kind == DecodeErrorKind::Truncated
}

/// Bytes that end inside two strings in a row end inside the first, or hold
/// the first and end inside the second.
pub proof fn lemma_cut_split(c: Seq<u8>, pos: int, x: Seq<u8>, y: Seq<u8>)
    requires
        cut(c, pos, x + y),
    ensures
        cut(c, pos, x) || (at(c, pos, x) && cut(c, pos + x.len(), y)),
{
    let z = x + y;
    if c.len() < pos + x.len() {
        assert forall|i: int| 0 <= i < c.len() - pos implies c[pos + i] == x[i] by {
            assert(z[i] == x[i]);
        }
    } else {
        assert forall|i: int| 0 <= i < x.len() implies c[pos + i] == x[i] by {
            assert(z[i] == x[i]);
        }
        assert(c.subrange(pos, pos + x.len()) =~= x);
        assert forall|i: int| 0 <= i < c.len() - (pos + x.len()) implies c[pos + x.len() + i]
            == y[i] by {
            assert(z[x.len() + i] == y[i]);
        }
    }
}

/// A string is not read from bytes that end inside it: they end too early.
pub proof fn lemma_text_cut(c: Seq<u8>, pos: int, s: Seq<char>)
    requires
        short_text(s),
        cut(c, pos, enc_text(s)),
    ensures
        truncated(p_text(c, pos)),
{
    let u = encode_utf8(s);
    lemma_cut_split(c, pos, be16(u.len() as int), u);
    if at(c, pos, be16(u.len() as int)) {
        lemma_val16(c, pos, u.len() as int);
    }
}

/// The count of an array and its elements, cut short.
pub proof fn lemma_count_cut(c: Seq<u8>, pos: int, n: int, w: int, body: Seq<u8>)
    requires
        0 <= n <= 0x7fff_ffff,
        w == 1 || w == 4 || w == 8,
        body.len() == n * w,
        cut(c, pos, be32(n) + body),
    ensures
        truncated(p_count(c, pos, w)),
{
    lemma_cut_split(c, pos, be32(n), body);
    if at(c, pos, be32(n)) {
        lemma_val32(c, pos, n);
    }
}

/// A valid value that owns no other value is not read from bytes that end
/// inside it: the reader says that they end too early.
pub proof fn lemma_leaf_cut(c: Seq<u8>, pos: int, v: Value)
    requires
        valid(v),
        !(v is List),
        !(v is Compound),
        cut(c, pos, enc_payload(v)),
    ensures
        truncated(p_leaf(c, pos, tag_of(v))),
{
    match v {
        Value::ByteArray(s) => {
            lemma_count_cut(c, pos, s.len() as int, 1, enc_i8s(s));
        },
        Value::String(s) => {
            lemma_text_cut(c, pos, s);
        },
        Value::IntArray(s) => {
            lemma_i32s_len(s);
            lemma_count_cut(c, pos, s.len() as int, 4, enc_i32s(s));
        },
        Value::LongArray(s) => {
            lemma_i64s_len(s);
            lemma_count_cut(c, pos, s.len() as int, 8, enc_i64s(s));
        },
        _ => {},
    }
}

/// A valid value is not read from bytes that end inside it: the reader says
/// that they end too early.
pub proof fn lemma_payload_cut(c: Seq<u8>, pos: int, v: Value)
    requires
        valid(v),
        cut(c, pos, enc_payload(v)),
    ensures
        truncated(p_payload(c, pos, tag_of(v))),
    decreases v, 0nat,
{
    match v {
        Value::List(t, cs) => {
            let count = be32(cs.len() as int);
            assert(enc_payload(v) =~= seq![t] + (count + enc_elems(cs)));
            lemma_cut_split(c, pos, seq![t], count + enc_elems(cs));
            if at(c, pos, seq![t]) {
                lemma_at_byte(c, pos, seq![t], 0);
                lemma_cut_split(c, pos + 1, count, enc_elems(cs));
                if at(c, pos + 1, count) {
                    lemma_val32(c, pos + 1, cs.len() as int);
                    if cs.len() > 0 {
                        assert(tag_of(cs[0]) == t);
                    }
                    assert(p_list_header(c, pos) == Ok::<((u8, nat), nat), Fail>(
                        ((t, cs.len()), 5),
                    ));
                    assert(cs.skip(0) =~= cs);
                    lemma_elems_cut(c, pos + 5, t, cs, 0, Seq::empty());
                }
            }
        },
        Value::Compound(es) => {
            assert(es.skip(0) =~= es);
            lemma_entries_cut(c, pos, es, 0, Seq::empty());
        },
        _ => {
            lemma_leaf_cut(c, pos, v);
        },
    }
}

/// The elements of a valid list from the `k`-th on are not read from bytes
/// that end inside them.
pub proof fn lemma_elems_cut(c: Seq<u8>, pos: int, t: u8, cs: Seq<Value>, k: int, acc: Seq<Value>)
    requires
        0 <= k <= cs.len(),
        forall|i: int| 0 <= i < cs.len() ==> tag_of(#[trigger] cs[i]) == t && valid(cs[i]),
        cut(c, pos, enc_elems(cs.skip(k))),
    ensures
        truncated(p_elems(c, pos, t, (cs.len() - k) as nat, acc)),
    decreases cs, cs.len() - k,
{
    if k == cs.len() {
        assert(cs.skip(k) =~= Seq::<Value>::empty());
    } else {
        let rest = cs.skip(k);
        lemma_elems_front(rest);
        assert(rest[0] == cs[k]);
        assert(rest.drop_first() =~= cs.skip(k + 1));
        lemma_cut_split(c, pos, enc_payload(cs[k]), enc_elems(cs.skip(k + 1)));
        if cut(c, pos, enc_payload(cs[k])) {
            lemma_payload_cut(c, pos, cs[k]);
        } else {
            lemma_payload_back(c, pos, cs[k]);
            let used = enc_payload(cs[k]).len();
            lemma_elems_cut(c, pos + used, t, cs, k + 1, acc.push(cs[k]));
        }
    }
}

/// The entries of a valid compound from the `k`-th on, with the end marker,
/// are not read from bytes that end inside them.
pub proof fn lemma_entries_cut(
    c: Seq<u8>,
    pos: int,
    es: Seq<(Seq<char>, Value)>,
    k: int,
    acc: Seq<(Seq<char>, Value)>,
)
    requires
        0 <= k <= es.len(),
        forall|i: int| 0 <= i < es.len() ==> short_text((#[trigger] es[i]).0) && valid(es[i].1),
        cut(c, pos, enc_entries(es.skip(k)) + seq![0u8]),
    ensures
        truncated(p_entries(c, pos, acc)),
    decreases es, es.len() - k,
{
    if k == es.len() {
        assert(es.skip(k) =~= Seq::<(Seq<char>, Value)>::empty());
        assert(enc_entries(es.skip(k)) + seq![0u8] =~= seq![0u8]);
    } else {
        let rest = es.skip(k);
        let name = es[k].0;
        let v = es[k].1;
        let tail = enc_entries(es.skip(k + 1)) + seq![0u8];
        lemma_entries_front(rest);
        assert(rest[0] == es[k]);
        assert(rest.drop_first() =~= es.skip(k + 1));
        assert(enc_entries(rest) + seq![0u8] =~= seq![tag_of(v)] + (enc_text(name) + (
        enc_payload(v) + tail)));
        lemma_cut_split(c, pos, seq![tag_of(v)], enc_text(name) + (enc_payload(v) + tail));
        if at(c, pos, seq![tag_of(v)]) {
            lemma_at_byte(c, pos, seq![tag_of(v)], 0);
            lemma_cut_split(c, pos + 1, enc_text(name), enc_payload(v) + tail);
            if cut(c, pos + 1, enc_text(name)) {
                lemma_text_cut(c, pos + 1, name);
            } else {
                lemma_text_back(c, pos + 1, name);
                let nlen = enc_text(name).len();
                lemma_cut_split(c, pos + 1 + nlen, enc_payload(v), tail);
                if cut(c, pos + 1 + nlen, enc_payload(v)) {
                    lemma_payload_cut(c, pos + 1 + nlen, v);
                } else {
                    lemma_payload_back(c, pos + 1 + nlen, v);
                    let vlen = enc_payload(v).len();
                    lemma_entries_cut(
                        c,
                        pos + 1 + nlen + vlen,
                        es,
                        k + 1,
                        crate::entries::entry_insert(acc, name, v),
                    );
                }
            }
        }
    }
}

/// No proper beginning of a document is a document: the decoder says of
/// every one that the bytes end too early.
pub proof fn law_prefix_truncated(name: Seq<char>, v: Value, n: int)
    requires
        short_text(name),
        valid(v),
        v is Compound,
        0 <= n < enc_root(name, v).len(),
    ensures
        truncated(p_root(enc_root(name, v).take(n))),
{
    let b = enc_root(name, v);
    let c = b.take(n);
    if n >= 1 {
        assert(b =~= seq![10u8] + (enc_text(name) + enc_payload(v)));
        assert(cut(c, 0, seq![10u8] + (enc_text(name) + enc_payload(v)))) by {
            assert forall|i: int| 0 <= i < c.len() implies c[i] == b[i] by {}
        }
        lemma_cut_split(c, 0, seq![10u8], enc_text(name) + enc_payload(v));
        lemma_at_byte(c, 0, seq![10u8], 0);
        lemma_cut_split(c, 1, enc_text(name), enc_payload(v));
        if cut(c, 1, enc_text(name)) {
            lemma_text_cut(c, 1, name);
        } else {
            lemma_text_back(c, 1, name);
            lemma_payload_cut(c, 1 + enc_text(name).len() as int, v);
        }
    }
}

} // verus!
