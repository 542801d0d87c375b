use vstd::prelude::*;
use vstd::utf8::*;
use crate::entries::entry_insert;
use crate::value::Value;
use crate::wire::{unwrap, val16, val32, val64};

verus! {

/// Why a byte string is no document.
#[derive(Debug, Copy, Clone, PartialEq, Eq, Structural)]
pub enum DecodeErrorKind {
    /// A tag byte that names no kind, or the end marker where a value must stand.
    InvalidTag,
    /// The bytes end before a field that was announced.
    Truncated,
    /// A negative length of an array or a list.
    InvalidLength,
    /// The bytes of a string are no UTF-8.
    InvalidUtf8,
}

/// A failed decoding: the kind of the fault and the offset of the field at fault.
#[derive(Debug, Copy, Clone, PartialEq, Eq, Structural)]
pub struct DecodeError {
    pub kind: DecodeErrorKind,
    pub offset: usize,
}

/// A fault of the byte string, at a position.
pub struct Fail {
    pub kind: DecodeErrorKind,
    pub at: int,
}

impl DecodeError {
    /// The fault that this error reports.
    pub open spec fn fail(self) -> Fail {
        Fail { kind: self.kind, at: self.offset as int }
    }
}

/// What a parser gives: what it read and how many bytes that took, or the fault.
pub open spec fn fault<T>(kind: DecodeErrorKind, at: int) -> Result<(T, nat), Fail> {
    Err(Fail { kind, at })
}

/// The result of a parser that started `d` bytes later.
pub open spec fn shift<T>(r: Result<(T, nat), Fail>, d: nat) -> Result<(T, nat), Fail> {
    match r {
        Ok((v, used)) => Ok((v, used + d)),
        Err(e) => Err(e),
    }
}

/// The bytes from `pos` to the end, none where `pos` lies beyond it.
pub open spec fn left(b: Seq<u8>, pos: int) -> nat {
    if pos <= b.len() {
        (b.len() - pos) as nat
    } else {
        0
    }
}

/// The signed byte at `pos`.
pub open spec fn i8_at(b: Seq<u8>, pos: int) -> i8 {
    unwrap(b[pos] as int, 0x100) as i8
}

/// The signed 16-bit number that the two bytes from `pos` on spell.
pub open spec fn i16_at(b: Seq<u8>, pos: int) -> i16 {
    unwrap(val16(b, pos), 0x1_0000) as i16
}

/// The signed 32-bit number that the four bytes from `pos` on spell.
pub open spec fn i32_at(b: Seq<u8>, pos: int) -> i32 {
    unwrap(val32(b, pos), 0x1_0000_0000) as i32
}

/// The signed 64-bit number that the eight bytes from `pos` on spell.
pub open spec fn i64_at(b: Seq<u8>, pos: int) -> i64 {
    unwrap(val64(b, pos), 0x1_0000_0000_0000_0000) as i64
}

/// A length-prefixed string at `pos`.
pub open spec fn p_text(b: Seq<u8>, pos: int) -> Result<(Seq<char>, nat), Fail> {
    if pos + 2 > b.len() {
        fault(DecodeErrorKind::Truncated, pos)
    } else {
        let n = val16(b, pos);
        if pos + 2 + n > b.len() {
            fault(DecodeErrorKind::Truncated, pos + 2)
        } else {
            let bytes = b.subrange(pos + 2, pos + 2 + n);
            if !valid_utf8(bytes) {
                fault(DecodeErrorKind::InvalidUtf8, pos + 2)
            } else {
                Ok((decode_utf8(bytes), (2 + n) as nat))
            }
        }
    }
}

/// The element count of an array at `pos` whose elements take `w` bytes each.
pub open spec fn p_count(b: Seq<u8>, pos: int, w: int) -> Result<(int, nat), Fail> {
    if pos + 4 > b.len() {
        fault(DecodeErrorKind::Truncated, pos)
    } else {
        let n = i32_at(b, pos) as int;
        if n < 0 {
            fault(DecodeErrorKind::InvalidLength, pos)
        } else if pos + 4 + n * w > b.len() {
            fault(DecodeErrorKind::Truncated, pos + 4)
        } else {
            Ok((n, (4 + n * w) as nat))
        }
    }
}

/// The payload at `pos` of a kind that owns no other value.
pub open spec fn p_leaf(b: Seq<u8>, pos: int, tag: u8) -> Result<(Value, nat), Fail> {
    if tag == 1 {
        if pos + 1 > b.len() {
            fault(DecodeErrorKind::Truncated, pos)
        } else {
            Ok((Value::Byte(i8_at(b, pos)), 1))
        }
    } else if tag == 2 {
        if pos + 2 > b.len() {
            fault(DecodeErrorKind::Truncated, pos)
        } else {
            Ok((Value::Short(i16_at(b, pos)), 2))
        }
    } else if tag == 3 {
        if pos + 4 > b.len() {
            fault(DecodeErrorKind::Truncated, pos)
        } else {
            Ok((Value::Int(i32_at(b, pos)), 4))
        }
    } else if tag == 4 {
        if pos + 8 > b.len() {
            fault(DecodeErrorKind::Truncated, pos)
        } else {
            Ok((Value::Long(i64_at(b, pos)), 8))
        }
    } else if tag == 5 {
        if pos + 4 > b.len() {
            fault(DecodeErrorKind::Truncated, pos)
        } else {
            Ok((Value::Float(val32(b, pos) as u32), 4))
        }
    } else if tag == 6 {
        if pos + 8 > b.len() {
            fault(DecodeErrorKind::Truncated, pos)
        } else {
            Ok((Value::Double(val64(b, pos) as u64), 8))
        }
    } else if tag == 7 {
        match p_count(b, pos, 1) {
            Err(e) => Err(e),
            Ok((n, used)) => Ok(
                (Value::ByteArray(Seq::new(n as nat, |i: int| i8_at(b, pos + 4 + i))), used),
            ),
        }
    } else if tag == 8 {
        match p_text(b, pos) {
            Err(e) => Err(e),
            Ok((s, used)) => Ok((Value::String(s), used)),
        }
    } else if tag == 11 {
        match p_count(b, pos, 4) {
            Err(e) => Err(e),
            Ok((n, used)) => Ok(
                (Value::IntArray(Seq::new(n as nat, |i: int| i32_at(b, pos + 4 + 4 * i))), used),
            ),
        }
    } else if tag == 12 {
        match p_count(b, pos, 8) {
            Err(e) => Err(e),
            Ok((n, used)) => Ok(
                (Value::LongArray(Seq::new(n as nat, |i: int| i64_at(b, pos + 4 + 8 * i))), used),
            ),
        }
    } else {
        fault(DecodeErrorKind::InvalidTag, pos)
    }
}

/// The header of a list at `pos`: the declared kind and the element count.
pub open spec fn p_list_header(b: Seq<u8>, pos: int) -> Result<((u8, nat), nat), Fail> {
    if pos + 1 > b.len() {
        fault(DecodeErrorKind::Truncated, pos)
    } else if b[pos] > 12 {
        fault(DecodeErrorKind::InvalidTag, pos)
    } else if pos + 5 > b.len() {
        fault(DecodeErrorKind::Truncated, pos + 1)
    } else if i32_at(b, pos + 1) < 0 {
        fault(DecodeErrorKind::InvalidLength, pos + 1)
    } else if i32_at(b, pos + 1) > 0 && b[pos] == 0 {
        fault(DecodeErrorKind::InvalidTag, pos)
    } else {
        Ok(((b[pos], i32_at(b, pos + 1) as nat), 5))
    }
}

/// The payload at `pos` of a value of kind `tag`.
pub open spec fn p_payload(b: Seq<u8>, pos: int, tag: u8) -> Result<(Value, nat), Fail>
    decreases left(b, pos), 0nat, 1nat,
{
    if tag == 9 {
        match p_list_header(b, pos) {
            Err(e) => Err(e),
            Ok(((etag, n), _)) => match p_elems(b, pos + 5, etag, n, Seq::empty()) {
                Err(e) => Err(e),
                Ok((vs, used)) => Ok((Value::List(etag, vs), used + 5)),
            },
        }
    } else if tag == 10 {
        match p_entries(b, pos, Seq::empty()) {
            Err(e) => Err(e),
            Ok((es, used)) => Ok((Value::Compound(es), used)),
        }
    } else {
        p_leaf(b, pos, tag)
    }
}

/// `n` more elements of kind `etag` from `pos` on, after the elements `acc`.
pub open spec fn p_elems(b: Seq<u8>, pos: int, etag: u8, n: nat, acc: Seq<Value>) -> Result<
    (Seq<Value>, nat),
    Fail,
>
    decreases left(b, pos), n, 2nat,
{
    if n == 0 {
        Ok((acc, 0))
    } else {
        match p_payload(b, pos, etag) {
            Err(e) => Err(e),
            Ok((v, used)) => shift(
                p_elems(b, pos + used, etag, (n - 1) as nat, acc.push(v)),
                used,
            ),
        }
    }
}

/// The entries of a compound from `pos` on up to the end marker, stored one
/// after the other into the entries `acc`: a name that comes again overwrites.
pub open spec fn p_entries(b: Seq<u8>, pos: int, acc: Seq<(Seq<char>, Value)>) -> Result<
    (Seq<(Seq<char>, Value)>, nat),
    Fail,
>
    decreases left(b, pos), 0nat, 0nat,
{
    if pos + 1 > b.len() {
        fault(DecodeErrorKind::Truncated, pos)
    } else if b[pos] == 0 {
        Ok((acc, 1))
    } else if b[pos] > 12 {
        fault(DecodeErrorKind::InvalidTag, pos)
    } else {
        match p_text(b, pos + 1) {
            Err(e) => Err(e),
            Ok((name, nlen)) => match p_payload(b, pos + 1 + nlen, b[pos]) {
                Err(e) => Err(e),
                Ok((v, vlen)) => shift(
                    p_entries(b, pos + 1 + nlen + vlen, entry_insert(acc, name, v)),
                    1 + nlen + vlen,
                ),
            },
        }
    }
}

/// A whole document: the compound tag, the root's name, the root's entries.
pub open spec fn p_root(b: Seq<u8>) -> Result<((Seq<char>, Value), nat), Fail> {
    if b.len() < 1 {
        fault(DecodeErrorKind::Truncated, 0)
    } else if b[0] != 10 {
        fault(DecodeErrorKind::InvalidTag, 0)
    } else {
        match p_text(b, 1) {
            Err(e) => Err(e),
            Ok((name, nlen)) => match p_payload(b, 1 + nlen as int, 10) {
                Err(e) => Err(e),
                Ok((v, used)) => Ok(((name, v), 1 + nlen + used)),
            },
        }
    }
}

} // verus!
