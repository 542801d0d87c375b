use vstd::prelude::*;
use crate::attach::{lemma_refilled_compound, lemma_refilled_list};
use crate::compound::NBTCompound;
use crate::entries::{entry_insert, key_lt, lemma_insert_twice, sorted};
use crate::frame::lemma_changed_nested;
use crate::node::NBTNode;
use crate::parse::{
    p_elems, p_entries, p_payload, p_root, shift, DecodeError, DecodeErrorKind, Fail,
};
use crate::read::{get_i32, read_leaf, read_text};
use crate::shape::{anc, lemma_compound_entries, lemma_list_elems, node_ok};
use crate::tag::TagType;
use crate::tree::NBT;
use crate::value::{tag_of, Value};

verus! {

/// The value of a container after `v` has been stored in it: under the name
/// for a compound, at the end for a list.
pub open spec fn put(parent: Value, key: Option<Seq<char>>, v: Value) -> Value {
    match key {
        Some(k) => Value::Compound(entry_insert(parent->Compound_0, k, v)),
        None => Value::List(tag_of(v), parent->List_1.push(v)),
    }
}

impl NBT {
    /// The container `parent` can take a value of kind `tag`: under a name if
    /// it is a compound, at its end if it is a list of that kind or empty.
    pub open spec fn accepts(&self, parent: usize, key: Option<Seq<char>>, tag: u8) -> bool {
        match key {
            Some(_) => self.live(parent) && self.node(parent) is Compound,
            None => self.takes(parent, tag),
        }
    }

    /// The node `c` is what `parent` holds under the name, or as its last
    /// element.
    pub open spec fn holds_at(&self, parent: usize, key: Option<Seq<char>>, c: usize) -> bool {
        match key {
            Some(k) => self.child_of(parent, k) == Some(c),
            None => self.live(parent) && self.node(parent) is List && self.node(
                parent,
            )->children@.len() > 0 && self.node(parent)->children@.last() == c,
        }
    }

    /// Stores a node that owns no other node in a container: under the name
    /// for a compound, at the end for a list.
    pub(crate) fn attach(&mut self, parent: usize, key: Option<&str>, node: NBTNode) -> (c: usize)
        requires
            old(self).wf(),
            node.is_leaf(),
            old(self).accepts(
                parent,
                match key {
                    Some(k) => Some(k@),
                    None => None,
                },
                node.tag(),
            ),
        ensures
            final(self).wf(),
            old(self).changed(final(self), parent),
            final(self).live(c),
            final(self).below(parent, c),
            final(self).node(c) == node,
            final(self).value_at(c) == node.leaf_value(),
            final(self).holds_at(
                parent,
                match key {
                    Some(k) => Some(k@),
                    None => None,
                },
                c,
            ),
            final(self).accepts(
                parent,
                match key {
                    Some(k) => Some(k@),
                    None => None,
                },
                node.tag(),
            ),
            final(self).value_at(parent) == put(
                old(self).value_at(parent),
                match key {
                    Some(k) => Some(k@),
                    None => None,
                },
                node.leaf_value(),
            ),
    {
        match key {
            Some(k) => {
                let r = self.insert_node(parent, k, node);
                r.unwrap()
            },
            None => {
                let r = self.append_node(parent, node);
                r.unwrap()
            },
        }
    }

    /// The value of a container after work below the child that it holds under
    /// the name, or as its last element.
    pub proof fn lemma_refilled(
        &self,
        after: &NBT,
        parent: usize,
        key: Option<Seq<char>>,
        c: usize,
        base: Value,
        first: Value,
    )
        requires
            self.wf(),
            after.wf(),
            self.changed(after, c),
            self.holds_at(parent, key, c),
            self.value_at(parent) == put(base, key, first),
            key is Some ==> sorted(base->Compound_0),
            tag_of(first) == tag_of(after.value_at(c)),
        ensures
            after.live(parent),
            after.node(parent) == self.node(parent),
            after.value_at(parent) == put(base, key, after.value_at(c)),
    {
        match key {
            Some(k) => {
                lemma_refilled_compound(
                    self.nodes(),
                    self.shape(),
                    after.nodes(),
                    after.shape(),
                    parent,
                    c,
                    k,
                );
                lemma_insert_twice(base->Compound_0, k, first, after.value_at(c));
            },
            None => {
                lemma_refilled_list(
                    self.nodes(),
                    self.shape(),
                    after.nodes(),
                    after.shape(),
                    parent,
                    c,
                );
                lemma_list_elems(self.nodes(), self.shape(), parent);
                assert(base->List_1.push(first).drop_last() =~= base->List_1);
            },
        }
    }

    /// The entries of a live compound, as values, are sorted by name.
    pub proof fn lemma_entries_sorted(&self, h: usize)
        requires
            self.wf(),
            self.live(h),
            self.node(h) is Compound,
        ensures
            self.value_at(h) is Compound,
            sorted(self.value_at(h)->Compound_0),
    {
        let v = self.value_at(h)->Compound_0;
        let c = self.node(h)->Compound_0;
        assert(node_ok(self.nodes(), self.shape(), h));
        lemma_compound_entries(self.nodes(), self.shape(), h);
        assert forall|i: int, j: int| 0 <= i < j < v.len() implies key_lt(
            #[trigger] v[i].0,
            #[trigger] v[j].0,
        ) by {
            assert(key_lt(c@[i].0, c@[j].0));
        }
    }

    /// Reads the payload of kind `tag` at `pos` and stores it in a container:
    /// under the name for a compound, at the end for a list. Hands back the
    /// position behind the payload.
    pub(crate) fn decode_value(
        &mut self,
        parent: usize,
        key: Option<&str>,
        tag: u8,
        b: &[u8],
        pos: usize,
    ) -> (r: Result<usize, DecodeError>)
        requires
            old(self).wf(),
            pos <= b@.len(),
            old(self).accepts(
                parent,
                match key {
                    Some(k) => Some(k@),
                    None => None,
                },
                tag,
            ),
        ensures
            final(self).wf(),
            old(self).changed(final(self), parent),
            match r {
                Ok(next) => {
                    &&& pos <= next <= b@.len()
                    &&& p_payload(b@, pos as int, tag) is Ok
                    &&& p_payload(b@, pos as int, tag)->Ok_0.1 == next - pos
                    &&& tag_of(p_payload(b@, pos as int, tag)->Ok_0.0) == tag
                    &&& final(self).accepts(
                        parent,
                        match key {
                            Some(k) => Some(k@),
                            None => None,
                        },
                        tag,
                    )
                    &&& final(self).value_at(parent) == put(
                        old(self).value_at(parent),
                        match key {
                            Some(k) => Some(k@),
                            None => None,
                        },
                        p_payload(b@, pos as int, tag)->Ok_0.0,
                    )
                },
                Err(e) => p_payload(b@, pos as int, tag) == Err::<(Value, nat), Fail>(e.fail()),
            },
        decreases b@.len() - pos, 1nat,
    {
        let ghost gkey = match key {
            Some(k) => Some(k@),
            None => None,
        };
        let ghost base = self.value_at(parent);
        proof {
            if key is Some {
                self.lemma_entries_sorted(parent);
            }
        }
        if tag == 10 {
            let c = self.attach(parent, key, NBTNode::Compound(NBTCompound::new()));
            let ghost mid = *self;
            let r = self.fill_compound(c, b, pos);
            proof {
                lemma_changed_nested(
                    old(self).nodes(),
                    old(self).shape(),
                    mid.nodes(),
                    mid.shape(),
                    self.nodes(),
                    self.shape(),
                    parent,
                    c,
                );
                if r is Ok {
                    mid.lemma_refilled(
                        self,
                        parent,
                        gkey,
                        c,
                        base,
                        Value::Compound(Seq::empty()),
                    );
                }
            }
            r
        } else if tag == 9 {
            let have = b.len() - pos;
            if have < 1 {
                return Err(DecodeError { kind: DecodeErrorKind::Truncated, offset: pos });
            }
            let etag = b[pos];
            if etag > 12 {
                return Err(DecodeError { kind: DecodeErrorKind::InvalidTag, offset: pos });
            }
            if have < 5 {
                return Err(DecodeError { kind: DecodeErrorKind::Truncated, offset: pos + 1 });
            }
            let n = get_i32(b, pos + 1);
            if n < 0 {
                return Err(DecodeError { kind: DecodeErrorKind::InvalidLength, offset: pos + 1 });
            }
            if n > 0 && etag == 0 {
                return Err(DecodeError { kind: DecodeErrorKind::InvalidTag, offset: pos });
            }
            let c = self.attach(
                parent,
                key,
                NBTNode::List { type_id: TagType(etag), children: Vec::new() },
            );
            let ghost mid = *self;
            let r = self.fill_list(c, etag, n as usize, b, pos + 5);
            proof {
                lemma_changed_nested(
                    old(self).nodes(),
                    old(self).shape(),
                    mid.nodes(),
                    mid.shape(),
                    self.nodes(),
                    self.shape(),
                    parent,
                    c,
                );
                if r is Ok {
                    mid.lemma_refilled(
                        self,
                        parent,
                        gkey,
                        c,
                        base,
                        Value::List(etag, Seq::empty()),
                    );
                }
            }
            r
        } else {
            match read_leaf(tag, b, pos) {
                Err(e) => {
                    proof {
                        crate::frame::lemma_changed_refl(self.nodes(), self.shape(), parent);
                    }
                    Err(e)
                },
                Ok((node, next)) => {
                    let _ = self.attach(parent, key, node);
                    Ok(next)
                },
            }
        }
    }

    /// Reads the entries of a compound from `pos` up to the end marker and
    /// stores them into the compound `c`. Hands back the position behind the
    /// end marker.
    pub(crate) fn fill_compound(&mut self, c: usize, b: &[u8], pos: usize) -> (r: Result<
        usize,
        DecodeError,
    >)
        requires
            old(self).wf(),
            old(self).live(c),
            old(self).node(c) is Compound,
            pos <= b@.len(),
        ensures
            final(self).wf(),
            old(self).changed(final(self), c),
            match r {
                Ok(next) => {
                    &&& pos <= next <= b@.len()
                    &&& final(self).value_at(c) is Compound
                    &&& p_entries(b@, pos as int, old(self).value_at(c)->Compound_0) == Ok::<
                        (Seq<(Seq<char>, Value)>, nat),
                        Fail,
                    >((final(self).value_at(c)->Compound_0, (next - pos) as nat))
                },
                Err(e) => p_entries(b@, pos as int, old(self).value_at(c)->Compound_0) == Err::<
                    (Seq<(Seq<char>, Value)>, nat),
                    Fail,
                >(e.fail()),
            },
        decreases b@.len() - pos, 0nat,
    {
        let ghost v0 = self.value_at(c)->Compound_0;
        let mut p: usize = pos;
        proof {
            crate::frame::lemma_changed_refl(self.nodes(), self.shape(), c);
            self.lemma_entries_sorted(c);
        }
        loop
            invariant
                self.wf(),
                old(self).changed(self, c),
                self.live(c),
                self.node(c) is Compound,
                self.value_at(c) is Compound,
                v0 == old(self).value_at(c)->Compound_0,
                pos <= p <= b@.len(),
                p_entries(b@, pos as int, v0) == shift(
                    p_entries(b@, p as int, self.value_at(c)->Compound_0),
                    (p - pos) as nat,
                ),
            decreases b@.len() - p,
        {
            let ghost acc = self.value_at(c)->Compound_0;
            if p >= b.len() {
                return Err(DecodeError { kind: DecodeErrorKind::Truncated, offset: p });
            }
            let tag = b[p];
            if tag == 0 {
                return Ok(p + 1);
            }
            if tag > 12 {
                return Err(DecodeError { kind: DecodeErrorKind::InvalidTag, offset: p });
            }
            let (name, value_at_pos) = match read_text(b, p + 1) {
                Ok(x) => x,
                Err(e) => {
                    return Err(e);
                },
            };
            let ghost mid = *self;
            let r = self.decode_value(c, Some(name.as_str()), tag, b, value_at_pos);
            proof {
                assert(anc(mid.nodes(), mid.shape(), c, c));
                lemma_changed_nested(
                    old(self).nodes(),
                    old(self).shape(),
                    mid.nodes(),
                    mid.shape(),
                    self.nodes(),
                    self.shape(),
                    c,
                    c,
                );
            }
            match r {
                Err(e) => {
                    return Err(e);
                },
                Ok(behind) => {
                    proof {
                        self.lemma_entries_sorted(c);
                    }
                    p = behind;
                },
            }
        }
    }

    /// Reads `n` elements of kind `etag` from `pos` on and puts them at the
    /// end of the list `c`. Hands back the position behind the last of them.
    pub(crate) fn fill_list(&mut self, c: usize, etag: u8, n: usize, b: &[u8], pos: usize) -> (r:
        Result<usize, DecodeError>)
        requires
            old(self).wf(),
            old(self).takes(c, etag),
            old(self).node(c)->type_id.0 == etag,
            pos <= b@.len(),
        ensures
            final(self).wf(),
            old(self).changed(final(self), c),
            match r {
                Ok(next) => {
                    &&& pos <= next <= b@.len()
                    &&& final(self).value_at(c) is List
                    &&& final(self).value_at(c)->List_0 == etag
                    &&& p_elems(b@, pos as int, etag, n as nat, old(self).value_at(c)->List_1)
                        == Ok::<(Seq<Value>, nat), Fail>(
                        (final(self).value_at(c)->List_1, (next - pos) as nat),
                    )
                },
                Err(e) => p_elems(b@, pos as int, etag, n as nat, old(self).value_at(c)->List_1)
                    == Err::<(Seq<Value>, nat), Fail>(e.fail()),
            },
        decreases b@.len() - pos, 2nat,
    {
        let ghost v0 = self.value_at(c)->List_1;
        let mut p: usize = pos;
        let mut i: usize = 0;
        proof {
            crate::frame::lemma_changed_refl(self.nodes(), self.shape(), c);
            lemma_list_elems(self.nodes(), self.shape(), c);
        }
        while i < n
            invariant
                self.wf(),
                old(self).changed(self, c),
                self.takes(c, etag),
                self.value_at(c) is List,
                self.value_at(c)->List_0 == etag,
                v0 == old(self).value_at(c)->List_1,
                pos <= p <= b@.len(),
                i <= n,
                p_elems(b@, pos as int, etag, n as nat, v0) == shift(
                    p_elems(b@, p as int, etag, (n - i) as nat, self.value_at(c)->List_1),
                    (p - pos) as nat,
                ),
            decreases n - i,
        {
            let ghost mid = *self;
            let r = self.decode_value(c, None, etag, b, p);
            proof {
                assert(anc(mid.nodes(), mid.shape(), c, c));
                lemma_changed_nested(
                    old(self).nodes(),
                    old(self).shape(),
                    mid.nodes(),
                    mid.shape(),
                    self.nodes(),
                    self.shape(),
                    c,
                    c,
                );
            }
            match r {
                Err(e) => {
                    return Err(e);
                },
                Ok(behind) => {
                    p = behind;
                    i += 1;
                },
            }
        }
        Ok(p)
    }
}

/// Reads a whole document: the compound tag, the root's name and the root's
/// entries up to the end marker. Bytes behind the end marker are not looked
/// at. A name that comes twice in one compound keeps the value that came last.
pub fn decode(b: &[u8]) -> (r: Result<NBT, DecodeError>)
    ensures
        match r {
            Ok(t) => {
                &&& t.wf()
                &&& p_root(b@) is Ok
                &&& p_root(b@)->Ok_0.0 == (t.name(), t@)
            },
            Err(e) => p_root(b@) == Err::<((Seq<char>, Value), nat), Fail>(e.fail()),
        },
{
    if b.len() < 1 {
        return Err(DecodeError { kind: DecodeErrorKind::Truncated, offset: 0 });
    }
    if b[0] != 10 {
        return Err(DecodeError { kind: DecodeErrorKind::InvalidTag, offset: 0 });
    }
    let (name, p) = match read_text(b, 1) {
        Ok(x) => x,
        Err(e) => {
            return Err(e);
        },
    };
    let mut t = NBT::new_named(name);
    let root = t.root_handle();
    match t.fill_compound(root, b, p) {
        Ok(_) => Ok(t),
        Err(e) => Err(e),
    }
}

} // verus!
