use vstd::prelude::*;
use vstd::slice::{slice_subrange, slice_to_vec};
use vstd::utf8::*;
use crate::node::NBTNode;
use crate::parse::{
    i16_at, i32_at, i64_at, i8_at, p_count, p_leaf, p_text, DecodeError, DecodeErrorKind,
};
use crate::wire::{val16, val32, val64};

verus! {

/// `String::from_utf8`: the string that the bytes spell, if they are UTF-8,
/// and nothing if they are not.
#[verifier::external_body]
pub(crate) fn text_from_utf8(v: Vec<u8>) -> (r: Option<String>)
    ensures
        r is Some <==> valid_utf8(v@),
        r matches Some(s) ==> s@ == decode_utf8(v@),
{
    String::from_utf8(v).ok()
}

/// The number that the two bytes from `pos` on spell.
pub fn get_u16(b: &[u8], pos: usize) -> (r: u16)
    requires
        pos + 2 <= b@.len(),
    ensures
        r == val16(b@, pos as int),
{
    (b[pos] as u16) * 0x100 + (b[pos + 1] as u16)
}

/// The number that the four bytes from `pos` on spell.
pub fn get_u32(b: &[u8], pos: usize) -> (r: u32)
    requires
        pos + 4 <= b@.len(),
    ensures
        r == val32(b@, pos as int),
{
    let len = b.len();
    assert(pos + 4 <= len);
    (get_u16(b, pos) as u32) * 0x1_0000 + (get_u16(b, pos + 2) as u32)
}

/// The number that the eight bytes from `pos` on spell.
pub fn get_u64(b: &[u8], pos: usize) -> (r: u64)
    requires
        pos + 8 <= b@.len(),
    ensures
        r == val64(b@, pos as int),
{
    let len = b.len();
    assert(pos + 8 <= len);
    (get_u32(b, pos) as u64) * 0x1_0000_0000 + (get_u32(b, pos + 4) as u64)
}

/// The signed byte at `pos`.
pub fn get_i8(b: &[u8], pos: usize) -> (r: i8)
    requires
        pos + 1 <= b@.len(),
    ensures
        r == i8_at(b@, pos as int),
{
    let u = b[pos];
    if u >= 0x80 {
        (u as i16 - 0x100) as i8
    } else {
        u as i8
    }
}

/// The signed 16-bit number at `pos`.
pub fn get_i16(b: &[u8], pos: usize) -> (r: i16)
    requires
        pos + 2 <= b@.len(),
    ensures
        r == i16_at(b@, pos as int),
{
    let u = get_u16(b, pos);
    if u >= 0x8000 {
        (u as i32 - 0x1_0000) as i16
    } else {
        u as i16
    }
}

/// The signed 32-bit number at `pos`.
pub fn get_i32(b: &[u8], pos: usize) -> (r: i32)
    requires
        pos + 4 <= b@.len(),
    ensures
        r == i32_at(b@, pos as int),
{
    let u = get_u32(b, pos);
    if u >= 0x8000_0000 {
        (u as i64 - 0x1_0000_0000) as i32
    } else {
        u as i32
    }
}

/// The signed 64-bit number at `pos`.
pub fn get_i64(b: &[u8], pos: usize) -> (r: i64)
    requires
        pos + 8 <= b@.len(),
    ensures
        r == i64_at(b@, pos as int),
{
    let u = get_u64(b, pos);
    if u >= 0x8000_0000_0000_0000 {
        (u as i128 - 0x1_0000_0000_0000_0000) as i64
    } else {
        u as i64
    }
}

/// Reads a length-prefixed string at `pos`; hands back the string and the
/// position behind it.
pub fn read_text(b: &[u8], pos: usize) -> (r: Result<(String, usize), DecodeError>)
    requires
        pos <= b@.len(),
    ensures
        match r {
            Ok((s, next)) => pos <= next <= b@.len() && p_text(b@, pos as int) == Ok::<
                (Seq<char>, nat),
                crate::parse::Fail,
            >((s@, (next - pos) as nat)),
            Err(e) => p_text(b@, pos as int) == Err::<(Seq<char>, nat), crate::parse::Fail>(
                e.fail(),
            ),
        },
{
    if b.len() - pos < 2 {
        return Err(DecodeError { kind: DecodeErrorKind::Truncated, offset: pos });
    }
    let n = get_u16(b, pos) as usize;
    if b.len() - pos - 2 < n {
        return Err(DecodeError { kind: DecodeErrorKind::Truncated, offset: pos + 2 });
    }
    let sub = slice_subrange(b, pos + 2, pos + 2 + n);
    let v = slice_to_vec(sub);
    match text_from_utf8(v) {
        Some(s) => Ok((s, pos + 2 + n)),
        None => Err(DecodeError { kind: DecodeErrorKind::InvalidUtf8, offset: pos + 2 }),
    }
}

/// Reads the element count of an array at `pos` whose elements take `w`
/// bytes each, and makes sure that the elements are all there.
pub fn read_count(b: &[u8], pos: usize, w: usize) -> (r: Result<usize, DecodeError>)
    requires
        pos <= b@.len(),
        w == 1 || w == 4 || w == 8,
    ensures
        match r {
            Ok(n) => pos + 4 + n * w <= b@.len() && p_count(b@, pos as int, w as int) == Ok::<
                (int, nat),
                crate::parse::Fail,
            >((n as int, (4 + n * w) as nat)),
            Err(e) => p_count(b@, pos as int, w as int) == Err::<(int, nat), crate::parse::Fail>(
                e.fail(),
            ),
        },
{
    if b.len() - pos < 4 {
        return Err(DecodeError { kind: DecodeErrorKind::Truncated, offset: pos });
    }
    let n = get_i32(b, pos);
    if n < 0 {
        return Err(DecodeError { kind: DecodeErrorKind::InvalidLength, offset: pos });
    }
    let rest = b.len() - pos - 4;
    let n = n as usize;
    assert(n * w <= rest <==> n <= rest / w) by {
        if w == 1 {
        } else if w == 4 {
        } else {
        }
    }
    if n > rest / w {
        return Err(DecodeError { kind: DecodeErrorKind::Truncated, offset: pos + 4 });
    }
    Ok(n)
}

/// Reads the payload at `pos` of a kind that owns no other value, as a node.
pub fn read_leaf(tag: u8, b: &[u8], pos: usize) -> (r: Result<(NBTNode, usize), DecodeError>)
    requires
        pos <= b@.len(),
        tag != 9,
        tag != 10,
    ensures
        match r {
            Ok((node, next)) => {
                &&& pos <= next <= b@.len()
                &&& node.is_leaf()
                &&& node.tag() == tag
                &&& p_leaf(b@, pos as int, tag) == Ok::<(crate::value::Value, nat), crate::parse::Fail>(
                    (node.leaf_value(), (next - pos) as nat),
                )
            },
            Err(e) => p_leaf(b@, pos as int, tag) == Err::<
                (crate::value::Value, nat),
                crate::parse::Fail,
            >(e.fail()),
        },
{
    let have = b.len() - pos;
    let short = Err(DecodeError { kind: DecodeErrorKind::Truncated, offset: pos });
    if tag == 1 {
        if have < 1 {
            return short;
        }
        Ok((NBTNode::Byte(get_i8(b, pos)), pos + 1))
    } else if tag == 2 {
        if have < 2 {
            return short;
        }
        Ok((NBTNode::Short(get_i16(b, pos)), pos + 2))
    } else if tag == 3 {
        if have < 4 {
            return short;
        }
        Ok((NBTNode::Int(get_i32(b, pos)), pos + 4))
    } else if tag == 4 {
        if have < 8 {
            return short;
        }
        Ok((NBTNode::Long(get_i64(b, pos)), pos + 8))
    } else if tag == 5 {
        if have < 4 {
            return short;
        }
        Ok((NBTNode::Float(get_u32(b, pos)), pos + 4))
    } else if tag == 6 {
        if have < 8 {
            return short;
        }
        Ok((NBTNode::Double(get_u64(b, pos)), pos + 8))
    } else if tag == 7 {
        let n = match read_count(b, pos, 1) {
            Ok(n) => n,
            Err(e) => {
                return Err(e);
            },
        };
        let mut v: Vec<i8> = Vec::new();
        let mut i: usize = 0;
        while i < n
            invariant
                i <= n,
                b@.len() <= usize::MAX,
                pos + 4 + n <= b@.len(),
                v@.len() == i,
                forall|k: int| 0 <= k < i ==> v@[k] == i8_at(b@, pos + 4 + k),
            decreases n - i,
        {
            v.push(get_i8(b, pos + 4 + i));
            i += 1;
        }
        assert(v@ =~= Seq::new(n as nat, |k: int| i8_at(b@, pos + 4 + k)));
        Ok((NBTNode::ByteArray(v), pos + 4 + n))
    } else if tag == 8 {
        match read_text(b, pos) {
            Ok((s, next)) => Ok((NBTNode::String(s), next)),
            Err(e) => Err(e),
        }
    } else if tag == 11 {
        let n = match read_count(b, pos, 4) {
            Ok(n) => n,
            Err(e) => {
                return Err(e);
            },
        };
        let mut v: Vec<i32> = Vec::new();
        let mut i: usize = 0;
        while i < n
            invariant
                i <= n,
                b@.len() <= usize::MAX,
                pos + 4 + n * 4 <= b@.len(),
                v@.len() == i,
                forall|k: int| 0 <= k < i ==> v@[k] == i32_at(b@, pos + 4 + 4 * k),
            decreases n - i,
        {
            v.push(get_i32(b, pos + 4 + 4 * i));
            i += 1;
        }
        assert(v@ =~= Seq::new(n as nat, |k: int| i32_at(b@, pos + 4 + 4 * k)));
        Ok((NBTNode::IntArray(v), pos + 4 + n * 4))
    } else if tag == 12 {
        let n = match read_count(b, pos, 8) {
            Ok(n) => n,
            Err(e) => {
                return Err(e);
            },
        };
        let mut v: Vec<i64> = Vec::new();
        let mut i: usize = 0;
        while i < n
            invariant
                i <= n,
                b@.len() <= usize::MAX,
                pos + 4 + n * 8 <= b@.len(),
                v@.len() == i,
                forall|k: int| 0 <= k < i ==> v@[k] == i64_at(b@, pos + 4 + 8 * k),
            decreases n - i,
        {
            v.push(get_i64(b, pos + 4 + 8 * i));
            i += 1;
        }
        assert(v@ =~= Seq::new(n as nat, |k: int| i64_at(b@, pos + 4 + 8 * k)));
        Ok((NBTNode::LongArray(v), pos + 4 + n * 8))
    } else {
        Err(DecodeError { kind: DecodeErrorKind::InvalidTag, offset: pos })
    }
}

} // verus!
