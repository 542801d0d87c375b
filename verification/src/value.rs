use vstd::prelude::*;
use vstd::utf8::*;
use crate::entries::sorted;

verus! {

/// A tree as a mathematical value: what a node and everything below it stands
/// for, independent of where the nodes are stored. The two floating-point
/// kinds hold their IEEE-754 bit patterns.
pub enum Value {
    Byte(i8),
    Short(i16),
    Int(i32),
    Long(i64),
    Float(u32),
    Double(u64),
    ByteArray(Seq<i8>),
    String(Seq<char>),
    List(u8, Seq<Value>),
    Compound(Seq<(Seq<char>, Value)>),
    IntArray(Seq<i32>),
    LongArray(Seq<i64>),
}

/// The wire tag of a value's kind.
pub open spec fn tag_of(v: Value) -> u8 {
    match v {
        Value::Byte(_) => 1,
        Value::Short(_) => 2,
        Value::Int(_) => 3,
        Value::Long(_) => 4,
        Value::Float(_) => 5,
        Value::Double(_) => 6,
        Value::ByteArray(_) => 7,
        Value::String(_) => 8,
        Value::List(_, _) => 9,
        Value::Compound(_) => 10,
        Value::IntArray(_) => 11,
        Value::LongArray(_) => 12,
    }
}

/// A string fits the wire's 16-bit length prefix.
pub open spec fn short_text(s: Seq<char>) -> bool {
    encode_utf8(s).len() <= 0xffff
}

/// What the wire format can carry: lengths fit their prefixes, a list's
/// elements all have the declared kind, and a compound's names strictly
/// increase.
pub open spec fn valid(v: Value) -> bool
    decreases v,
{
    match v {
        Value::ByteArray(s) => s.len() <= 0x7fff_ffff,
        Value::String(s) => short_text(s),
        Value::List(t, cs) => {
            &&& t <= 12
            &&& cs.len() <= 0x7fff_ffff
            &&& forall|i: int| 0 <= i < cs.len() ==> tag_of(#[trigger] cs[i]) == t && valid(cs[i])
        },
        Value::Compound(es) => {
            &&& sorted(es)
            &&& forall|i: int|
                0 <= i < es.len() ==> short_text((#[trigger] es[i]).0) && valid(es[i].1)
        },
        Value::IntArray(s) => s.len() <= 0x7fff_ffff,
        Value::LongArray(s) => s.len() <= 0x7fff_ffff,
        _ => true,
    }
}

/// The number of nodes in a tree, the root of the value included.
pub open spec fn node_count(v: Value) -> nat
    decreases v,
{
    match v {
        Value::List(_, cs) => 1 + count_all(cs),
        Value::Compound(es) => 1 + count_entries(es),
        _ => 1,
    }
}

/// The nodes of the values of a list's elements, counted.
pub open spec fn count_all(cs: Seq<Value>) -> nat
    decreases cs,
{
    if cs.len() == 0 {
        0
    } else {
        count_all(cs.drop_last()) + node_count(cs.last())
    }
}

/// The nodes of the values of a compound's entries, counted.
pub open spec fn count_entries(es: Seq<(Seq<char>, Value)>) -> nat
    decreases es,
{
    if es.len() == 0 {
        0
    } else {
        count_entries(es.drop_last()) + node_count(es.last().1)
    }
}

} // verus!
