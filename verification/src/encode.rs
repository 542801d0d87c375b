use vstd::prelude::*;
use vstd::string::StringSliceAdditionalSpecFns;
use crate::node::NBTNode;
use crate::shape::{lemma_compound_entries, lemma_list_elems, lemma_value_unfold, node_ok};
use crate::tree::NBT;
use crate::value::{short_text, tag_of, valid};
use crate::wire::{
    be16, be32, be64, enc_elems, enc_entries, enc_i32s, enc_i64s, enc_i8s, enc_payload, enc_root,
    enc_text, wrap,
};

verus! {

/// Appends two bytes, most significant first.
pub fn put_u16(out: &mut Vec<u8>, n: u16)
    ensures
        final(out)@ == old(out)@ + be16(n as int),
{
    out.push((n / 0x100) as u8);
    out.push((n % 0x100) as u8);
    assert(out@ =~= old(out)@ + be16(n as int));
}

/// Appends four bytes, most significant first.
pub fn put_u32(out: &mut Vec<u8>, n: u32)
    ensures
        final(out)@ == old(out)@ + be32(n as int),
{
    put_u16(out, (n / 0x1_0000) as u16);
    put_u16(out, (n % 0x1_0000) as u16);
    assert(out@ =~= old(out)@ + be32(n as int));
}

/// Appends eight bytes, most significant first.
pub fn put_u64(out: &mut Vec<u8>, n: u64)
    ensures
        final(out)@ == old(out)@ + be64(n as int),
{
    put_u32(out, (n / 0x1_0000_0000) as u32);
    put_u32(out, (n % 0x1_0000_0000) as u32);
    assert(out@ =~= old(out)@ + be64(n as int));
}

/// The byte with the same bits as a signed byte.
pub fn bits8(x: i8) -> (r: u8)
    ensures
        r == wrap(x as int, 0x100),
{
    if x < 0 {
        (x as i16 + 0x100) as u8
    } else {
        x as u8
    }
}

/// The unsigned number with the same bits as a signed 16-bit number.
pub fn bits16(x: i16) -> (r: u16)
    ensures
        r == wrap(x as int, 0x1_0000),
{
    if x < 0 {
        (x as i32 + 0x1_0000) as u16
    } else {
        x as u16
    }
}

/// The unsigned number with the same bits as a signed 32-bit number.
pub fn bits32(x: i32) -> (r: u32)
    ensures
        r == wrap(x as int, 0x1_0000_0000),
{
    if x < 0 {
        (x as i64 + 0x1_0000_0000) as u32
    } else {
        x as u32
    }
}

/// The unsigned number with the same bits as a signed 64-bit number.
pub fn bits64(x: i64) -> (r: u64)
    ensures
        r == wrap(x as int, 0x1_0000_0000_0000_0000),
{
    if x < 0 {
        (x as i128 + 0x1_0000_0000_0000_0000) as u64
    } else {
        x as u64
    }
}

/// Appends a length-prefixed string, unless it is too long for the prefix.
pub fn put_text(out: &mut Vec<u8>, s: &str) -> (ok: bool)
    ensures
        ok == short_text(s@),
        ok ==> final(out)@ == old(out)@ + enc_text(s@),
{
    let bytes = s.as_bytes();
    if bytes.len() > 0xffff {
        return false;
    }
    put_u16(out, bytes.len() as u16);
    let ghost mid = out@;
    let mut i: usize = 0;
    while i < bytes.len()
        invariant
            i <= bytes@.len(),
            out@ == mid + bytes@.take(i as int),
        decreases bytes@.len() - i,
    {
        out.push(bytes[i]);
        i += 1;
        assert(out@ =~= mid + bytes@.take(i as int));
    }
    assert(bytes@.take(i as int) =~= bytes@);
    assert(out@ =~= old(out)@ + enc_text(s@));
    true
}

/// Appends a length-prefixed array of signed bytes, unless it is too long.
pub fn put_i8s(out: &mut Vec<u8>, v: &Vec<i8>) -> (ok: bool)
    ensures
        ok == (v@.len() <= 0x7fff_ffff),
        ok ==> final(out)@ == old(out)@ + be32(v@.len() as int) + enc_i8s(v@),
{
    if v.len() > 0x7fff_ffff {
        return false;
    }
    put_u32(out, v.len() as u32);
    let ghost mid = out@;
    let mut i: usize = 0;
    while i < v.len()
        invariant
            i <= v@.len(),
            out@ == mid + enc_i8s(v@.take(i as int)),
        decreases v@.len() - i,
    {
        out.push(bits8(v[i]));
        i += 1;
        assert(out@ =~= mid + enc_i8s(v@.take(i as int)));
    }
    assert(v@.take(i as int) =~= v@);
    true
}

/// Appends a length-prefixed array of 32-bit numbers, unless it is too long.
pub fn put_i32s(out: &mut Vec<u8>, v: &Vec<i32>) -> (ok: bool)
    ensures
        ok == (v@.len() <= 0x7fff_ffff),
        ok ==> final(out)@ == old(out)@ + be32(v@.len() as int) + enc_i32s(v@),
{
    if v.len() > 0x7fff_ffff {
        return false;
    }
    put_u32(out, v.len() as u32);
    let ghost mid = out@;
    let mut i: usize = 0;
    assert(enc_i32s(v@.take(0)) =~= Seq::<u8>::empty());
    while i < v.len()
        invariant
            i <= v@.len(),
            out@ == mid + enc_i32s(v@.take(i as int)),
        decreases v@.len() - i,
    {
        put_u32(out, bits32(v[i]));
        i += 1;
        assert(v@.take(i as int).drop_last() =~= v@.take(i - 1));
        assert(out@ =~= mid + enc_i32s(v@.take(i as int)));
    }
    assert(v@.take(i as int) =~= v@);
    true
}

/// Appends a length-prefixed array of 64-bit numbers, unless it is too long.
pub fn put_i64s(out: &mut Vec<u8>, v: &Vec<i64>) -> (ok: bool)
    ensures
        ok == (v@.len() <= 0x7fff_ffff),
        ok ==> final(out)@ == old(out)@ + be32(v@.len() as int) + enc_i64s(v@),
{
    if v.len() > 0x7fff_ffff {
        return false;
    }
    put_u32(out, v.len() as u32);
    let ghost mid = out@;
    let mut i: usize = 0;
    assert(enc_i64s(v@.take(0)) =~= Seq::<u8>::empty());
    while i < v.len()
        invariant
            i <= v@.len(),
            out@ == mid + enc_i64s(v@.take(i as int)),
        decreases v@.len() - i,
    {
        put_u64(out, bits64(v[i]));
        i += 1;
        assert(v@.take(i as int).drop_last() =~= v@.take(i - 1));
        assert(out@ =~= mid + enc_i64s(v@.take(i as int)));
    }
    assert(v@.take(i as int) =~= v@);
    true
}

impl NBT {
    /// The kind of a node's value is the kind of the node.
    pub proof fn lemma_value_tag(&self, h: usize)
        requires
            self.wf(),
            self.live(h),
        ensures
            tag_of(self.value_at(h)) == self.node(h).tag(),
    {
        lemma_value_unfold(self.nodes(), self.shape(), h);
    }

    /// Appends the payload of the node `h` and of everything below it. Fails
    /// if and only if some length below `h` does not fit its prefix or a list
    /// declares an unknown kind.
    pub fn encode_node(&self, h: usize, out: &mut Vec<u8>) -> (ok: bool)
        requires
            self.wf(),
            self.live(h),
        ensures
            ok == valid(self.value_at(h)),
            ok ==> final(out)@ == old(out)@ + enc_payload(self.value_at(h)),
        decreases self.shape().bound - self.shape().depth[h],
    {
        proof {
            assert(node_ok(self.nodes(), self.shape(), h));
            lemma_value_unfold(self.nodes(), self.shape(), h);
        }
        let n = self.get_node(h).unwrap();
        match n {
            NBTNode::Byte(x) => {
                out.push(bits8(*x));
                assert(out@ =~= old(out)@ + enc_payload(self.value_at(h)));
                true
            },
            NBTNode::Short(x) => {
                put_u16(out, bits16(*x));
                true
            },
            NBTNode::Int(x) => {
                put_u32(out, bits32(*x));
                true
            },
            NBTNode::Long(x) => {
                put_u64(out, bits64(*x));
                true
            },
            NBTNode::Float(x) => {
                put_u32(out, *x);
                true
            },
            NBTNode::Double(x) => {
                put_u64(out, *x);
                true
            },
            NBTNode::ByteArray(v) => put_i8s(out, v),
            NBTNode::String(s) => put_text(out, s.as_str()),
            NBTNode::IntArray(v) => put_i32s(out, v),
            NBTNode::LongArray(v) => put_i64s(out, v),
            NBTNode::List { type_id, children } => {
                let ghost vals = self.value_at(h)->List_1;
                proof {
                    lemma_list_elems(self.nodes(), self.shape(), h);
                }
                if type_id.0 > 12 || children.len() > 0x7fff_ffff {
                    return false;
                }
                out.push(type_id.0);
                put_u32(out, children.len() as u32);
                let ghost mid = out@;
                let mut i: usize = 0;
                assert(enc_elems(vals.take(0)) =~= Seq::<u8>::empty());
                while i < children.len()
                    invariant
                        self.wf(),
                        self.live(h),
                        self.node(h) == *n,
                        *n == (NBTNode::List { type_id: *type_id, children: *children }),
                        vals == self.value_at(h)->List_1,
                        vals.len() == children@.len(),
                        forall|j: int|
                            0 <= j < vals.len() ==> #[trigger] vals[j] == self.value_at(
                                children@[j],
                            ),
                        i <= children@.len(),
                        out@ == mid + enc_elems(vals.take(i as int)),
                        forall|j: int| 0 <= j < i ==> valid(#[trigger] vals[j]),
                    decreases children@.len() - i,
                {
                    let ch = children[i];
                    proof {
                        assert(node_ok(self.nodes(), self.shape(), h));
                        assert(self.node(h).children()[i as int] == ch);
                        assert(self.live(ch));
                    }
                    let ok = self.encode_node(ch, out);
                    if !ok {
                        assert(!valid(vals[i as int]));
                        return false;
                    }
                    i += 1;
                    proof {
                        assert(vals.take(i as int).drop_last() =~= vals.take(i - 1));
                        assert(out@ =~= mid + enc_elems(vals.take(i as int)));
                    }
                }
                proof {
                    assert(vals.take(i as int) =~= vals);
                    assert forall|j: int| 0 <= j < vals.len() implies tag_of(#[trigger] vals[j])
                        == type_id.0 && valid(vals[j]) by {
                        assert(node_ok(self.nodes(), self.shape(), h));
                        assert(self.node(h).children()[j] == children@[j]);
                        self.lemma_value_tag(children@[j]);
                    }
                    assert(out@ =~= old(out)@ + enc_payload(self.value_at(h)));
                }
                true
            },
            NBTNode::Compound(c) => {
                let ghost vals = self.value_at(h)->Compound_0;
                proof {
                    lemma_compound_entries(self.nodes(), self.shape(), h);
                }
                let ghost mid = out@;
                let mut i: usize = 0;
                assert(enc_entries(vals.take(0)) =~= Seq::<u8>::empty());
                while i < c.len()
                    invariant
                        self.wf(),
                        self.live(h),
                        self.node(h) == *n,
                        *n == NBTNode::Compound(*c),
                        vals == self.value_at(h)->Compound_0,
                        vals.len() == c@.len(),
                        forall|j: int|
                            0 <= j < vals.len() ==> #[trigger] vals[j] == (
                                c@[j].0,
                                self.value_at(c@[j].1),
                            ),
                        i <= c@.len(),
                        out@ == mid + enc_entries(vals.take(i as int)),
                        forall|j: int|
                            0 <= j < i ==> short_text((#[trigger] vals[j]).0) && valid(vals[j].1),
                    decreases c@.len() - i,
                {
                    let ch = c.handle_at(i);
                    let key = c.key_at(i);
                    proof {
                        assert(node_ok(self.nodes(), self.shape(), h));
                        assert(self.node(h).children()[i as int] == ch);
                        assert(self.live(ch));
                        self.lemma_value_tag(ch);
                    }
                    let tag = self.get_node(ch).unwrap().get_type();
                    out.push(tag.0);
                    if !put_text(out, key) {
                        assert(!short_text(vals[i as int].0));
                        return false;
                    }
                    let ok = self.encode_node(ch, out);
                    if !ok {
                        assert(!valid(vals[i as int].1));
                        return false;
                    }
                    i += 1;
                    proof {
                        assert(vals.take(i as int).drop_last() =~= vals.take(i - 1));
                        assert(out@ =~= mid + enc_entries(vals.take(i as int)));
                    }
                }
                out.push(0u8);
                proof {
                    assert(vals.take(i as int) =~= vals);
                    assert(crate::entries::sorted(vals)) by {
                        assert(node_ok(self.nodes(), self.shape(), h));
                        assert forall|a: int, b: int| 0 <= a < b < vals.len() implies crate::entries::key_lt(
                            #[trigger] vals[a].0,
                            #[trigger] vals[b].0,
                        ) by {
                            assert(crate::entries::key_lt(c@[a].0, c@[b].0));
                        }
                    }
                    assert(out@ =~= old(out)@ + enc_payload(self.value_at(h)));
                }
                true
            },
        }
    }

    /// The bytes of the whole tree: the compound tag, the root's name and the
    /// root's payload. Nothing is handed back if and only if the name or some
    /// length in the tree does not fit its prefix, or a list declares an
    /// unknown kind.
    pub fn encode(&self) -> (r: Option<Vec<u8>>)
        requires
            self.wf(),
        ensures
            r is Some <==> short_text(self.name()) && valid(self@),
            r matches Some(b) ==> b@ == enc_root(self.name(), self@),
    {
        let mut out: Vec<u8> = Vec::new();
        out.push(10u8);
        if !put_text(&mut out, self.root_name_str()) {
            return None;
        }
        if !self.encode_node(self.root_handle(), &mut out) {
            return None;
        }
        assert(out@ =~= enc_root(self.name(), self@));
        Some(out)
    }
}

} // verus!
