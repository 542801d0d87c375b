use vstd::prelude::*;
use vstd::utf8::*;
use crate::value::{tag_of, Value};

verus! {

/// A signed number as the unsigned number with the same two's-complement bits,
/// `m` being two to the width.
pub open spec fn wrap(x: int, m: int) -> int {
    if x < 0 {
        x + m
    } else {
        x
    }
}

/// The signed number behind an unsigned two's-complement reading.
pub open spec fn unwrap(n: int, m: int) -> int {
    if 2 * n >= m {
        n - m
    } else {
        n
    }
}

/// Two bytes, most significant first.
pub open spec fn be16(n: int) -> Seq<u8> {
    seq![(n / 0x100 % 0x100) as u8, (n % 0x100) as u8]
}

/// Four bytes, most significant first.
pub open spec fn be32(n: int) -> Seq<u8> {
    be16(n / 0x1_0000 % 0x1_0000) + be16(n % 0x1_0000)
}

/// Eight bytes, most significant first.
pub open spec fn be64(n: int) -> Seq<u8> {
    be32(n / 0x1_0000_0000 % 0x1_0000_0000) + be32(n % 0x1_0000_0000)
}

/// The number that the two bytes from `pos` on spell.
pub open spec fn val16(b: Seq<u8>, pos: int) -> int {
    b[pos] as int * 0x100 + b[pos + 1] as int
}

/// The number that the four bytes from `pos` on spell.
pub open spec fn val32(b: Seq<u8>, pos: int) -> int {
    val16(b, pos) * 0x1_0000 + val16(b, pos + 2)
}

/// The number that the eight bytes from `pos` on spell.
pub open spec fn val64(b: Seq<u8>, pos: int) -> int {
    val32(b, pos) * 0x1_0000_0000 + val32(b, pos + 4)
}

/// A length-prefixed string: 16-bit byte count, then the UTF-8 bytes.
pub open spec fn enc_text(s: Seq<char>) -> Seq<u8> {
    be16(encode_utf8(s).len() as int) + encode_utf8(s)
}

/// The bytes of an array of signed bytes, one for each.
pub open spec fn enc_i8s(s: Seq<i8>) -> Seq<u8> {
    s.map_values(|x: i8| wrap(x as int, 0x100) as u8)
}

/// The bytes of an array of 32-bit numbers, four for each.
pub open spec fn enc_i32s(s: Seq<i32>) -> Seq<u8>
    decreases s.len(),
{
    if s.len() == 0 {
        Seq::empty()
    } else {
        enc_i32s(s.drop_last()) + be32(wrap(s.last() as int, 0x1_0000_0000))
    }
}

/// The bytes of an array of 64-bit numbers, eight for each.
pub open spec fn enc_i64s(s: Seq<i64>) -> Seq<u8>
    decreases s.len(),
{
    if s.len() == 0 {
        Seq::empty()
    } else {
        enc_i64s(s.drop_last()) + be64(wrap(s.last() as int, 0x1_0000_0000_0000_0000))
    }
}

/// The bytes of a value without its tag and name.
pub open spec fn enc_payload(v: Value) -> Seq<u8>
    decreases v,
{
    match v {
        Value::Byte(x) => seq![wrap(x as int, 0x100) as u8],
        Value::Short(x) => be16(wrap(x as int, 0x1_0000)),
        Value::Int(x) => be32(wrap(x as int, 0x1_0000_0000)),
        Value::Long(x) => be64(wrap(x as int, 0x1_0000_0000_0000_0000)),
        Value::Float(bits) => be32(bits as int),
        Value::Double(bits) => be64(bits as int),
        Value::ByteArray(s) => be32(s.len() as int) + enc_i8s(s),
        Value::String(s) => enc_text(s),
        Value::List(t, cs) => seq![t] + be32(cs.len() as int) + enc_elems(cs),
        Value::Compound(es) => enc_entries(es) + seq![0u8],
        Value::IntArray(s) => be32(s.len() as int) + enc_i32s(s),
        Value::LongArray(s) => be32(s.len() as int) + enc_i64s(s),
    }
}

/// The elements of a list, one payload after the other.
pub open spec fn enc_elems(cs: Seq<Value>) -> Seq<u8>
    decreases cs,
{
    if cs.len() == 0 {
        Seq::empty()
    } else {
        enc_elems(cs.drop_last()) + enc_payload(cs.last())
    }
}

/// The entries of a compound in their order, without the end marker.
pub open spec fn enc_entries(es: Seq<(Seq<char>, Value)>) -> Seq<u8>
    decreases es,
{
    if es.len() == 0 {
        Seq::empty()
    } else {
        enc_entries(es.drop_last()) + seq![tag_of(es.last().1)] + enc_text(es.last().0)
            + enc_payload(es.last().1)
    }
}

/// A whole document: the compound tag, the root's name, the root's payload.
pub open spec fn enc_root(name: Seq<char>, v: Value) -> Seq<u8> {
    seq![10u8] + enc_text(name) + enc_payload(v)
}

} // verus!
