use vstd::prelude::*;
use vstd::utf8::*;
use crate::entries::{entry_insert, key_lt, lemma_rank_is_split, sorted};
use crate::parse::{
    i32_at, i64_at, i8_at, p_elems, p_entries, p_leaf, p_list_header, p_payload, p_root, p_text,
    Fail,
};
use crate::value::{short_text, tag_of, valid, Value};
use crate::wire::{
    be16, be32, be64, enc_elems, enc_entries, enc_i32s, enc_i64s, enc_i8s, enc_payload, enc_root,
    enc_text, val16, val32, val64, wrap,
};

verus! {

/// The bytes `s` stand in `b` from `pos` on.
pub open spec fn at(b: Seq<u8>, pos: int, s: Seq<u8>) -> bool {
    0 <= pos && pos + s.len() <= b.len() && b.subrange(pos, pos + s.len()) == s
}

/// Where two byte strings stand in a row, each of them stands.
pub proof fn lemma_at_split(b: Seq<u8>, pos: int, x: Seq<u8>, y: Seq<u8>)
    requires
        at(b, pos, x + y),
    ensures
        at(b, pos, x),
        at(b, pos + x.len(), y),
{
    let z = x + y;
    let w = b.subrange(pos, pos + z.len());
    assert forall|i: int| 0 <= i < x.len() implies b[pos + i] == x[i] by {
        assert(w[i] == z[i]);
    }
    assert forall|i: int| 0 <= i < y.len() implies b[pos + x.len() + i] == y[i] by {
        assert(w[x.len() + i] == z[x.len() + i]);
    }
    assert(b.subrange(pos, pos + x.len()) =~= x);
    assert(b.subrange(pos + x.len(), pos + x.len() + y.len()) =~= y);
}

/// Where a byte string stands, each of its bytes stands.
pub proof fn lemma_at_byte(b: Seq<u8>, pos: int, s: Seq<u8>, i: int)
    requires
        at(b, pos, s),
        0 <= i < s.len(),
    ensures
        b[pos + i] == s[i],
{
    assert(b.subrange(pos, pos + s.len())[i] == s[i]);
}

/// Two bytes written for a number are read as that number.
pub proof fn lemma_val16(b: Seq<u8>, pos: int, n: int)
    requires
        0 <= n < 0x1_0000,
        at(b, pos, be16(n)),
    ensures
        val16(b, pos) == n,
{
    lemma_at_byte(b, pos, be16(n), 0);
    lemma_at_byte(b, pos, be16(n), 1);
}

/// Four bytes written for a number are read as that number.
pub proof fn lemma_val32(b: Seq<u8>, pos: int, n: int)
    requires
        0 <= n < 0x1_0000_0000,
        at(b, pos, be32(n)),
    ensures
        val32(b, pos) == n,
{
    lemma_at_split(b, pos, be16(n / 0x1_0000 % 0x1_0000), be16(n % 0x1_0000));
    lemma_val16(b, pos, n / 0x1_0000 % 0x1_0000);
    lemma_val16(b, pos + 2, n % 0x1_0000);
}

/// Eight bytes written for a number are read as that number.
pub proof fn lemma_val64(b: Seq<u8>, pos: int, n: int)
    requires
        0 <= n < 0x1_0000_0000_0000_0000,
        at(b, pos, be64(n)),
    ensures
        val64(b, pos) == n,
{
    lemma_at_split(b, pos, be32(n / 0x1_0000_0000 % 0x1_0000_0000), be32(n % 0x1_0000_0000));
    lemma_val32(b, pos, n / 0x1_0000_0000 % 0x1_0000_0000);
    lemma_val32(b, pos + 4, n % 0x1_0000_0000);
}

/// A string that fits its prefix is read back as it was written.
pub proof fn lemma_text_back(b: Seq<u8>, pos: int, s: Seq<char>)
    requires
        short_text(s),
        at(b, pos, enc_text(s)),
    ensures
        p_text(b, pos) == Ok::<(Seq<char>, nat), Fail>((s, enc_text(s).len())),
        enc_text(s).len() == 2 + encode_utf8(s).len(),
{
    let u = encode_utf8(s);
    lemma_at_split(b, pos, be16(u.len() as int), u);
    lemma_val16(b, pos, u.len() as int);
    encode_utf8_valid_utf8(s);
    encode_utf8_decode_utf8(s);
}

/// Each signed byte of an array is read back as it was written.
pub proof fn lemma_i8s_back(b: Seq<u8>, pos: int, s: Seq<i8>, i: int)
    requires
        at(b, pos, enc_i8s(s)),
        0 <= i < s.len(),
    ensures
        i8_at(b, pos + i) == s[i],
{
    lemma_at_byte(b, pos, enc_i8s(s), i);
}

/// An array of 32-bit numbers takes four bytes for each.
pub proof fn lemma_i32s_len(s: Seq<i32>)
    ensures
        enc_i32s(s).len() == 4 * s.len(),
    decreases s.len(),
{
    if s.len() > 0 {
        lemma_i32s_len(s.drop_last());
    }
}

/// Each 32-bit number of an array is read back as it was written.
pub proof fn lemma_i32s_back(b: Seq<u8>, pos: int, s: Seq<i32>, i: int)
    requires
        at(b, pos, enc_i32s(s)),
        0 <= i < s.len(),
    ensures
        i32_at(b, pos + 4 * i) == s[i],
    decreases s.len(),
{
    let d = s.drop_last();
    let x = be32(wrap(s.last() as int, 0x1_0000_0000));
    lemma_i32s_len(d);
    lemma_at_split(b, pos, enc_i32s(d), x);
    if i < d.len() {
        lemma_i32s_back(b, pos, d, i);
    } else {
        lemma_val32(b, pos + 4 * i, wrap(s.last() as int, 0x1_0000_0000));
    }
}

/// An array of 64-bit numbers takes eight bytes for each.
pub proof fn lemma_i64s_len(s: Seq<i64>)
    ensures
        enc_i64s(s).len() == 8 * s.len(),
    decreases s.len(),
{
    if s.len() > 0 {
        lemma_i64s_len(s.drop_last());
    }
}

/// Each 64-bit number of an array is read back as it was written.
pub proof fn lemma_i64s_back(b: Seq<u8>, pos: int, s: Seq<i64>, i: int)
    requires
        at(b, pos, enc_i64s(s)),
        0 <= i < s.len(),
    ensures
        i64_at(b, pos + 8 * i) == s[i],
    decreases s.len(),
{
    let d = s.drop_last();
    let x = be64(wrap(s.last() as int, 0x1_0000_0000_0000_0000));
    lemma_i64s_len(d);
    lemma_at_split(b, pos, enc_i64s(d), x);
    if i < d.len() {
        lemma_i64s_back(b, pos, d, i);
    } else {
        lemma_val64(b, pos + 8 * i, wrap(s.last() as int, 0x1_0000_0000_0000_0000));
    }
}

/// A valid value that owns no other value is read back as it was written.
pub proof fn lemma_leaf_back(b: Seq<u8>, pos: int, v: Value)
    requires
        valid(v),
        !(v is List),
        !(v is Compound),
        at(b, pos, enc_payload(v)),
    ensures
        p_leaf(b, pos, tag_of(v)) == Ok::<(Value, nat), Fail>((v, enc_payload(v).len())),
{
    match v {
        Value::Byte(x) => {
            lemma_at_byte(b, pos, enc_payload(v), 0);
        },
        Value::Short(x) => {
            lemma_val16(b, pos, wrap(x as int, 0x1_0000));
        },
        Value::Int(x) => {
            lemma_val32(b, pos, wrap(x as int, 0x1_0000_0000));
        },
        Value::Long(x) => {
            lemma_val64(b, pos, wrap(x as int, 0x1_0000_0000_0000_0000));
        },
        Value::Float(x) => {
            lemma_val32(b, pos, x as int);
        },
        Value::Double(x) => {
            lemma_val64(b, pos, x as int);
        },
        Value::ByteArray(s) => {
            lemma_at_split(b, pos, be32(s.len() as int), enc_i8s(s));
            lemma_val32(b, pos, s.len() as int);
            let got = Seq::new(s.len(), |i: int| i8_at(b, pos + 4 + i));
            assert forall|i: int| 0 <= i < s.len() implies got[i] == s[i] by {
                lemma_i8s_back(b, pos + 4, s, i);
            }
            assert(got =~= s);
        },
        Value::String(s) => {
            lemma_text_back(b, pos, s);
        },
        Value::IntArray(s) => {
            lemma_i32s_len(s);
            lemma_at_split(b, pos, be32(s.len() as int), enc_i32s(s));
            lemma_val32(b, pos, s.len() as int);
            let got = Seq::new(s.len(), |i: int| i32_at(b, pos + 4 + 4 * i));
            assert forall|i: int| 0 <= i < s.len() implies got[i] == s[i] by {
                lemma_i32s_back(b, pos + 4, s, i);
            }
            assert(got =~= s);
        },
        Value::LongArray(s) => {
            lemma_i64s_len(s);
            lemma_at_split(b, pos, be32(s.len() as int), enc_i64s(s));
            lemma_val32(b, pos, s.len() as int);
            let got = Seq::new(s.len(), |i: int| i64_at(b, pos + 4 + 8 * i));
            assert forall|i: int| 0 <= i < s.len() implies got[i] == s[i] by {
                lemma_i64s_back(b, pos + 4, s, i);
            }
            assert(got =~= s);
        },
        _ => {},
    }
}

/// The bytes of a list's elements begin with those of the first element.
pub proof fn lemma_elems_front(cs: Seq<Value>)
    requires
        cs.len() > 0,
    ensures
        enc_elems(cs) == enc_payload(cs[0]) + enc_elems(cs.drop_first()),
    decreases cs.len(),
{
    if cs.len() == 1 {
        assert(cs.drop_last() =~= Seq::<Value>::empty());
        assert(cs.drop_first() =~= Seq::<Value>::empty());
        assert(enc_elems(cs.drop_last()) =~= Seq::<u8>::empty());
        assert(enc_elems(cs) =~= enc_payload(cs[0]) + enc_elems(cs.drop_first()));
    } else {
        lemma_elems_front(cs.drop_last());
        assert(cs.drop_last().drop_first() =~= cs.drop_first().drop_last());
        assert(cs.drop_first().last() == cs.last());
        assert(cs.drop_last()[0] == cs[0]);
        assert(enc_elems(cs) =~= enc_payload(cs[0]) + enc_elems(cs.drop_first()));
    }
}

/// One entry of a compound on the wire: tag, name, payload.
pub open spec fn enc_entry(e: (Seq<char>, Value)) -> Seq<u8> {
    seq![tag_of(e.1)] + enc_text(e.0) + enc_payload(e.1)
}

/// The bytes of a compound's entries begin with those of the first entry.
pub proof fn lemma_entries_front(es: Seq<(Seq<char>, Value)>)
    requires
        es.len() > 0,
    ensures
        enc_entries(es) == enc_entry(es[0]) + enc_entries(es.drop_first()),
    decreases es.len(),
{
    if es.len() == 1 {
        assert(es.drop_last() =~= Seq::<(Seq<char>, Value)>::empty());
        assert(es.drop_first() =~= Seq::<(Seq<char>, Value)>::empty());
        assert(enc_entries(es.drop_last()) =~= Seq::<u8>::empty());
        assert(enc_entries(es) =~= enc_entry(es[0]) + enc_entries(es.drop_first()));
    } else {
        lemma_entries_front(es.drop_last());
        assert(es.drop_last().drop_first() =~= es.drop_first().drop_last());
        assert(es.drop_first().last() == es.last());
        assert(es.drop_last()[0] == es[0]);
        assert(enc_entries(es) =~= enc_entry(es[0]) + enc_entries(es.drop_first()));
    }
}

/// A valid value is read back as it was written, wherever its bytes stand.
pub proof fn lemma_payload_back(b: Seq<u8>, pos: int, v: Value)
    requires
        valid(v),
        at(b, pos, enc_payload(v)),
    ensures
        p_payload(b, pos, tag_of(v)) == Ok::<(Value, nat), Fail>((v, enc_payload(v).len())),
    decreases v, 0nat,
{
    match v {
        Value::List(t, cs) => {
            let head = seq![t] + be32(cs.len() as int);
            lemma_at_split(b, pos, head, enc_elems(cs));
            lemma_at_split(b, pos, seq![t], be32(cs.len() as int));
            lemma_at_byte(b, pos, seq![t], 0);
            lemma_val32(b, pos + 1, cs.len() as int);
            if cs.len() > 0 {
                assert(tag_of(cs[0]) == t);
            }
            assert(p_list_header(b, pos) == Ok::<((u8, nat), nat), Fail>(((t, cs.len()), 5)));
            assert(cs.skip(0) =~= cs);
            assert(cs.take(0) =~= Seq::<Value>::empty());
            lemma_elems_back(b, pos + 5, t, cs, 0);
        },
        Value::Compound(es) => {
            assert(es.skip(0) =~= es);
            assert(es.take(0) =~= Seq::<(Seq<char>, Value)>::empty());
            lemma_entries_back(b, pos, es, 0);
        },
        _ => {
            lemma_leaf_back(b, pos, v);
        },
    }
}

/// The elements of a valid list from the `k`-th on are read back as they were
/// written, after the elements before them.
pub proof fn lemma_elems_back(b: Seq<u8>, pos: int, t: u8, cs: Seq<Value>, k: int)
    requires
        0 <= k <= cs.len(),
        forall|i: int| 0 <= i < cs.len() ==> tag_of(#[trigger] cs[i]) == t && valid(cs[i]),
        at(b, pos, enc_elems(cs.skip(k))),
    ensures
        p_elems(b, pos, t, (cs.len() - k) as nat, cs.take(k)) == Ok::<(Seq<Value>, nat), Fail>(
            (cs, enc_elems(cs.skip(k)).len()),
        ),
    decreases cs, cs.len() - k,
{
    if k == cs.len() {
        assert(cs.take(k) =~= cs);
        assert(cs.skip(k) =~= Seq::<Value>::empty());
    } else {
        let rest = cs.skip(k);
        lemma_elems_front(rest);
        assert(rest[0] == cs[k]);
        assert(rest.drop_first() =~= cs.skip(k + 1));
        lemma_at_split(b, pos, enc_payload(cs[k]), enc_elems(cs.skip(k + 1)));
        lemma_payload_back(b, pos, cs[k]);
        let used = enc_payload(cs[k]).len();
        assert(cs.take(k).push(cs[k]) =~= cs.take(k + 1));
        lemma_elems_back(b, pos + used, t, cs, k + 1);
    }
}

/// The entries of a valid compound from the `k`-th on are read back as they
/// were written, after the entries before them.
pub proof fn lemma_entries_back(b: Seq<u8>, pos: int, es: Seq<(Seq<char>, Value)>, k: int)
    requires
        0 <= k <= es.len(),
        sorted(es),
        forall|i: int| 0 <= i < es.len() ==> short_text((#[trigger] es[i]).0) && valid(es[i].1),
        at(b, pos, enc_entries(es.skip(k)) + seq![0u8]),
    ensures
        p_entries(b, pos, es.take(k)) == Ok::<(Seq<(Seq<char>, Value)>, nat), Fail>(
            (es, (enc_entries(es.skip(k)).len() + 1) as nat),
        ),
    decreases es, es.len() - k,
{
    if k == es.len() {
        assert(es.take(k) =~= es);
        assert(es.skip(k) =~= Seq::<(Seq<char>, Value)>::empty());
        assert(enc_entries(es.skip(k)) + seq![0u8] =~= seq![0u8]);
        lemma_at_byte(b, pos, seq![0u8], 0);
    } else {
        let rest = es.skip(k);
        let name = es[k].0;
        let v = es[k].1;
        let tail = enc_entries(es.skip(k + 1)) + seq![0u8];
        lemma_entries_front(rest);
        assert(rest[0] == es[k]);
        assert(rest.drop_first() =~= es.skip(k + 1));
        assert(enc_entries(rest) + seq![0u8] =~= seq![tag_of(v)] + (enc_text(name) + (
        enc_payload(v) + tail)));
        lemma_at_split(b, pos, seq![tag_of(v)], enc_text(name) + (enc_payload(v) + tail));
        lemma_at_byte(b, pos, seq![tag_of(v)], 0);
        lemma_at_split(b, pos + 1, enc_text(name), enc_payload(v) + tail);
        lemma_text_back(b, pos + 1, name);
        let nlen = enc_text(name).len();
        lemma_at_split(b, pos + 1 + nlen, enc_payload(v), tail);
        lemma_payload_back(b, pos + 1 + nlen, v);
        let vlen = enc_payload(v).len();
        // the entry goes to the end of what was read before it
        let acc = es.take(k);
        assert forall|j: int| 0 <= j < k implies key_lt(#[trigger] acc[j].0, name) by {
            assert(key_lt(es[j].0, es[k].0));
        }
        lemma_rank_is_split(acc, name, k);
        assert(entry_insert(acc, name, v) =~= es.take(k + 1));
        lemma_entries_back(b, pos + 1 + nlen + vlen, es, k + 1);
    }
}

/// Decoding what encoding wrote gives back the name and the value: for every
/// name that fits its prefix and every valid compound.
pub proof fn law_decode_encode(name: Seq<char>, v: Value)
    requires
        short_text(name),
        valid(v),
        v is Compound,
    ensures
        p_root(enc_root(name, v)) == Ok::<((Seq<char>, Value), nat), Fail>(
            ((name, v), enc_root(name, v).len()),
        ),
{
    let b = enc_root(name, v);
    assert(b.subrange(0, b.len() as int) =~= b);
    assert(b =~= seq![10u8] + (enc_text(name) + enc_payload(v)));
    lemma_at_split(b, 0, seq![10u8], enc_text(name) + enc_payload(v));
    lemma_at_byte(b, 0, seq![10u8], 0);
    lemma_at_split(b, 1, enc_text(name), enc_payload(v));
    lemma_text_back(b, 1, name);
    lemma_payload_back(b, 1 + enc_text(name).len() as int, v);
}

/// Encoding what decoding read gives back the bytes, for all bytes that an
/// encoder wrote.
pub proof fn law_encode_decode(b: Seq<u8>, name: Seq<char>, v: Value)
    requires
        short_text(name),
        valid(v),
        v is Compound,
        b == enc_root(name, v),
    ensures
        p_root(b) is Ok,
        enc_root(p_root(b)->Ok_0.0.0, p_root(b)->Ok_0.0.1) == b,
{
    law_decode_encode(name, v);
}

/// A list without elements keeps the kind that it declares through encoding
/// and decoding.
pub proof fn law_empty_list_keeps_kind(b: Seq<u8>, pos: int, t: u8)
    requires
        t <= 12,
        at(b, pos, enc_payload(Value::List(t, Seq::empty()))),
    ensures
        p_payload(b, pos, 9) == Ok::<(Value, nat), Fail>((Value::List(t, Seq::empty()), 5)),
{
    let v = Value::List(t, Seq::<Value>::empty());
    lemma_payload_back(b, pos, v);
    assert(enc_elems(Seq::<Value>::empty()) =~= Seq::<u8>::empty());
    assert(enc_payload(v).len() == 5);
}

} // verus!
