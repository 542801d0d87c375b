use vstd::prelude::*;
use crate::attach::lemma_relabel;
use crate::entries::{entry_insert, entry_remove};
use crate::frame::lemma_no_leak;
use crate::frame::changed_below;
use crate::shape::{anc, value_of, wf_down, Shape};
use crate::node::NBTNode;
use crate::tree::NBT;
use crate::value::Value;

verus! {

/// An exclusive view of one compound of a tree. While the view lives nothing
/// else can reach the tree.
pub struct CompoundRefMut<'a> {
    pub nbt: &'a mut NBT,
    pub node_idx: usize,
}

/// An exclusive view of one list of a tree. While the view lives nothing else
/// can reach the tree.
pub struct ListRefMut<'a> {
    pub nbt: &'a mut NBT,
    pub node_idx: usize,
}

/// An exclusive view of one node of a tree: the payload itself, to be
/// changed in place, for the kinds that own no other node, a view of the
/// container for the two that do.
pub enum NBTRefMut<'a> {
    Byte(&'a mut i8),
    Short(&'a mut i16),
    Int(&'a mut i32),
    Long(&'a mut i64),
    Float(&'a mut u32),
    Double(&'a mut u64),
    ByteArray(&'a mut Vec<i8>),
    String(&'a mut String),
    List(ListRefMut<'a>),
    Compound(CompoundRefMut<'a>),
    IntArray(&'a mut Vec<i32>),
    LongArray(&'a mut Vec<i64>),
}

/// The tree `after` is the tree `before` with another payload of the same
/// kind at the node `h`, which owns no other node.
pub open spec fn repaid(before: NBT, after: NBT, h: usize, node: NBTNode) -> bool {
    &&& after.wf()
    &&& before.changed(&after, h)
    &&& after.nodes() == before.nodes().insert(h, node)
    &&& after.shape() == before.shape()
    &&& after.value_at(h) == node.leaf_value()
}

/// A store below a root stays in order when a node without children gets
/// another payload of its kind.
pub proof fn lemma_repaid(
    m1: Map<usize, NBTNode>,
    s: Shape,
    m2: Map<usize, NBTNode>,
    h: usize,
    root: usize,
)
    requires
        wf_down(m1, s),
        m1.dom().contains(h),
        m2 == m1.insert(h, m2[h]),
        m1[h].children().len() == 0,
        m2[h].children().len() == 0,
        m2[h].tag() == m1[h].tag(),
        forall|n: usize| m1.dom().contains(n) ==> anc(m1, s, root, n),
    ensures
        wf_down(m2, s),
        changed_below(m1, s, m2, s, h),
        value_of(m2, s, h) == m2[h].leaf_value(),
        m2.dom() == m1.dom(),
        forall|n: usize| m2.dom().contains(n) ==> anc(m2, s, root, n),
{
    lemma_relabel(m1, s, m2, h);
    assert(m2.dom() =~= m1.dom());
    lemma_no_leak(m1, s, m2, s, h, root);
}

impl<'a> CompoundRefMut<'a> {
    /// The tree as it is now.
    pub open spec fn tree(&self) -> NBT {
        *self.nbt
    }

    /// The view points at a live compound of a tree that is in order.
    pub open spec fn wf(&self) -> bool {
        self.tree().wf() && self.tree().live(self.node_idx) && self.tree().node(
            self.node_idx,
        ) is Compound
    }

    /// The value of the compound.
    pub open spec fn value(&self) -> Value {
        self.tree().value_at(self.node_idx)
    }

    /// The handle of what the compound holds under `key`.
    pub fn find_idx(&self, key: &str) -> (r: Option<usize>)
        requires
            self.wf(),
        ensures
            r == self.tree().child_of(self.node_idx, key@),
    {
        self.nbt.find_idx(self.node_idx, key)
    }

    /// Stores a node that owns no other node under `key` and hands back its
    /// handle; what was stored under the key is removed with everything below
    /// it. Nothing happens, and nothing is handed back, if the node owns
    /// another.
    pub fn insert_node(&mut self, key: &str, node: NBTNode) -> (r: Option<usize>)
        requires
            old(self).wf(),
        ensures
            final(self).wf(),
            final(self).node_idx == old(self).node_idx,
            *final(final(self).nbt) == *final(old(self).nbt),
            r is Some <==> node.is_leaf(),
            r is None ==> old(self).tree().same(&final(self).tree()),
            r matches Some(c) ==> {
                &&& old(self).tree().changed(&final(self).tree(), old(self).node_idx)
                &&& final(self).tree().child_of(final(self).node_idx, key@) == Some(c)
                &&& final(self).tree().value_at(c) == node.leaf_value()
                &&& final(self).value() == Value::Compound(
                    entry_insert(old(self).value()->Compound_0, key@, node.leaf_value()),
                )
            },
    {
        self.nbt.insert_node(self.node_idx, key, node)
    }

    /// Removes the entry under `key` with everything below it, and hands back
    /// how many nodes left the arena.
    pub fn remove(&mut self, key: &str) -> (removed: usize)
        requires
            old(self).wf(),
        ensures
            final(self).wf(),
            final(self).node_idx == old(self).node_idx,
            *final(final(self).nbt) == *final(old(self).nbt),
            final(self).tree().count() + removed == old(self).tree().count(),
            final(self).value() == Value::Compound(
                entry_remove(old(self).value()->Compound_0, key@),
            ),
    {
        self.nbt.remove(self.node_idx, key)
    }

    /// The exclusive view of the compound stored under `key`, if a compound
    /// is stored there.
    pub fn find_compound_mut(&mut self, key: &str) -> (r: Option<CompoundRefMut<'_>>)
        requires
            old(self).wf(),
        ensures
            final(self).node_idx == old(self).node_idx,
            *final(final(self).nbt) == *final(old(self).nbt),
            match r {
                Some(v) => {
                    &&& v.wf()
                    &&& v.tree() == old(self).tree()
                    &&& old(self).tree().child_of(old(self).node_idx, key@) == Some(v.node_idx)
                    &&& *final(self).nbt == *final(v.nbt)
                },
                None => {
                    &&& final(self).tree() == old(self).tree()
                    &&& !(old(self).tree().child_of(old(self).node_idx, key@) matches Some(h)
                        && old(self).tree().node(h) is Compound)
                },
            },
    {
        match self.nbt.find_idx(self.node_idx, key) {
            Some(h) => {
                let is_compound = match self.nbt.get_node(h) {
                    Some(n) => match n {
                        NBTNode::Compound(_) => true,
                        _ => false,
                    },
                    None => false,
                };
                if is_compound {
                    Some(CompoundRefMut { nbt: &mut *self.nbt, node_idx: h })
                } else {
                    None
                }
            },
            None => None,
        }
    }

    /// The exclusive view of what the compound holds under `key`: for a
    /// payload the payload itself, to be changed in place.
    pub fn find_mut(&mut self, key: &str) -> (r: Option<NBTRefMut<'_>>)
        requires
            old(self).wf(),
        ensures
            final(self).node_idx == old(self).node_idx,
            *final(final(self).nbt) == *final(old(self).nbt),
            match r {
                None => old(self).tree().child_of(old(self).node_idx, key@) is None
                    && final(self).tree() == old(self).tree(),
                Some(view) => old(self).tree().child_of(old(self).node_idx, key@) is Some && match view {
                    NBTRefMut::Byte(x) => old(self).tree().node(old(self).tree().child_of(old(self).node_idx, key@)->0) == NBTNode::Byte(*x) && repaid(
                        old(self).tree(),
                        final(self).tree(),
                        old(self).tree().child_of(old(self).node_idx, key@)->0,
                        NBTNode::Byte(*final(x)),
                    ),
                    NBTRefMut::Short(x) => old(self).tree().node(old(self).tree().child_of(old(self).node_idx, key@)->0) == NBTNode::Short(*x) && repaid(
                        old(self).tree(),
                        final(self).tree(),
                        old(self).tree().child_of(old(self).node_idx, key@)->0,
                        NBTNode::Short(*final(x)),
                    ),
                    NBTRefMut::Int(x) => old(self).tree().node(old(self).tree().child_of(old(self).node_idx, key@)->0) == NBTNode::Int(*x) && repaid(
                        old(self).tree(),
                        final(self).tree(),
                        old(self).tree().child_of(old(self).node_idx, key@)->0,
                        NBTNode::Int(*final(x)),
                    ),
                    NBTRefMut::Long(x) => old(self).tree().node(old(self).tree().child_of(old(self).node_idx, key@)->0) == NBTNode::Long(*x) && repaid(
                        old(self).tree(),
                        final(self).tree(),
                        old(self).tree().child_of(old(self).node_idx, key@)->0,
                        NBTNode::Long(*final(x)),
                    ),
                    NBTRefMut::Float(x) => old(self).tree().node(old(self).tree().child_of(old(self).node_idx, key@)->0) == NBTNode::Float(*x) && repaid(
                        old(self).tree(),
                        final(self).tree(),
                        old(self).tree().child_of(old(self).node_idx, key@)->0,
                        NBTNode::Float(*final(x)),
                    ),
                    NBTRefMut::Double(x) => old(self).tree().node(old(self).tree().child_of(old(self).node_idx, key@)->0) == NBTNode::Double(*x) && repaid(
                        old(self).tree(),
                        final(self).tree(),
                        old(self).tree().child_of(old(self).node_idx, key@)->0,
                        NBTNode::Double(*final(x)),
                    ),
                    NBTRefMut::ByteArray(x) => old(self).tree().node(old(self).tree().child_of(old(self).node_idx, key@)->0) == NBTNode::ByteArray(*x) && repaid(
                        old(self).tree(),
                        final(self).tree(),
                        old(self).tree().child_of(old(self).node_idx, key@)->0,
                        NBTNode::ByteArray(*final(x)),
                    ),
                    NBTRefMut::String(x) => old(self).tree().node(old(self).tree().child_of(old(self).node_idx, key@)->0) == NBTNode::String(*x) && repaid(
                        old(self).tree(),
                        final(self).tree(),
                        old(self).tree().child_of(old(self).node_idx, key@)->0,
                        NBTNode::String(*final(x)),
                    ),
                    NBTRefMut::IntArray(x) => old(self).tree().node(old(self).tree().child_of(old(self).node_idx, key@)->0) == NBTNode::IntArray(*x) && repaid(
                        old(self).tree(),
                        final(self).tree(),
                        old(self).tree().child_of(old(self).node_idx, key@)->0,
                        NBTNode::IntArray(*final(x)),
                    ),
                    NBTRefMut::LongArray(x) => old(self).tree().node(old(self).tree().child_of(old(self).node_idx, key@)->0) == NBTNode::LongArray(*x) && repaid(
                        old(self).tree(),
                        final(self).tree(),
                        old(self).tree().child_of(old(self).node_idx, key@)->0,
                        NBTNode::LongArray(*final(x)),
                    ),
                    NBTRefMut::List(v) => {
                        &&& v.wf()
                        &&& v.tree() == old(self).tree()
                        &&& v.node_idx == old(self).tree().child_of(old(self).node_idx, key@)->0
                        &&& final(self).tree() == *final(v.nbt)
                    },
                    NBTRefMut::Compound(v) => {
                        &&& v.wf()
                        &&& v.tree() == old(self).tree()
                        &&& v.node_idx == old(self).tree().child_of(old(self).node_idx, key@)->0
                        &&& final(self).tree() == *final(v.nbt)
                    },
                },
            },
    {
        match self.nbt.find_idx(self.node_idx, key) {
            Some(h) => Some(self.nbt.get_reference_mut(h)),
            None => None,
        }
    }
}

impl<'a> ListRefMut<'a> {
    /// The tree as it is now.
    pub open spec fn tree(&self) -> NBT {
        *self.nbt
    }

    /// The view points at a live list of a tree that is in order.
    pub open spec fn wf(&self) -> bool {
        self.tree().wf() && self.tree().live(self.node_idx) && self.tree().node(
            self.node_idx,
        ) is List
    }

    /// The value of the list.
    pub open spec fn value(&self) -> Value {
        self.tree().value_at(self.node_idx)
    }

    /// Puts a node that owns no other node at the end of the list and hands
    /// back its handle; nothing if the list does not take the node's kind.
    pub fn insert_node(&mut self, node: NBTNode) -> (r: Option<usize>)
        requires
            old(self).wf(),
        ensures
            final(self).wf(),
            final(self).node_idx == old(self).node_idx,
            *final(final(self).nbt) == *final(old(self).nbt),
            r is Some <==> old(self).tree().takes(old(self).node_idx, node.tag())
                && node.is_leaf(),
            r is None ==> old(self).tree().same(&final(self).tree()),
            r matches Some(c) ==> final(self).tree().value_at(c) == node.leaf_value()
                && final(self).value() == Value::List(
                node.tag(),
                old(self).value()->List_1.push(node.leaf_value()),
            ),
    {
        self.nbt.append_node(self.node_idx, node)
    }

    /// Puts a node that owns no other node in the place of the element at a
    /// position and hands back its handle; nothing if there is no such
    /// element or the node is not of the list's kind.
    pub fn set_node_at(&mut self, index: usize, node: NBTNode) -> (r: Option<usize>)
        requires
            old(self).wf(),
        ensures
            final(self).wf(),
            final(self).node_idx == old(self).node_idx,
            *final(final(self).nbt) == *final(old(self).nbt),
            r is Some <==> index < old(self).tree().node(old(self).node_idx)->children@.len()
                && old(self).tree().node(old(self).node_idx)->type_id.0 == node.tag()
                && node.is_leaf(),
            r is None ==> old(self).tree().same(&final(self).tree()),
            r matches Some(c) ==> final(self).tree().value_at(c) == node.leaf_value()
                && final(self).value() == Value::List(
                node.tag(),
                old(self).value()->List_1.update(index as int, node.leaf_value()),
            ),
    {
        self.nbt.set_node_at(self.node_idx, index, node)
    }

    /// Removes the element at a position with everything below it, and hands
    /// back how many nodes left the arena.
    pub fn remove_at(&mut self, index: usize) -> (removed: usize)
        requires
            old(self).wf(),
        ensures
            final(self).wf(),
            final(self).node_idx == old(self).node_idx,
            *final(final(self).nbt) == *final(old(self).nbt),
            final(self).tree().count() + removed == old(self).tree().count(),
            removed > 0 <==> index < old(self).tree().node(old(self).node_idx)->children@.len(),
            removed > 0 ==> final(self).value() == Value::List(
                old(self).value()->List_0,
                old(self).value()->List_1.remove(index as int),
            ),
    {
        self.nbt.remove_at(self.node_idx, index)
    }

    /// The exclusive view of the element at a position: for a payload the
    /// payload itself, to be changed in place.
    pub fn get_mut(&mut self, index: usize) -> (r: Option<NBTRefMut<'_>>)
        requires
            old(self).wf(),
        ensures
            final(self).node_idx == old(self).node_idx,
            *final(final(self).nbt) == *final(old(self).nbt),
            match r {
                None => old(self).tree().elem_of(old(self).node_idx, index as int) is None
                    && final(self).tree() == old(self).tree(),
                Some(view) => old(self).tree().elem_of(old(self).node_idx, index as int) is Some && match view {
                    NBTRefMut::Byte(x) => old(self).tree().node(old(self).tree().elem_of(old(self).node_idx, index as int)->0) == NBTNode::Byte(*x) && repaid(
                        old(self).tree(),
                        final(self).tree(),
                        old(self).tree().elem_of(old(self).node_idx, index as int)->0,
                        NBTNode::Byte(*final(x)),
                    ),
                    NBTRefMut::Short(x) => old(self).tree().node(old(self).tree().elem_of(old(self).node_idx, index as int)->0) == NBTNode::Short(*x) && repaid(
                        old(self).tree(),
                        final(self).tree(),
                        old(self).tree().elem_of(old(self).node_idx, index as int)->0,
                        NBTNode::Short(*final(x)),
                    ),
                    NBTRefMut::Int(x) => old(self).tree().node(old(self).tree().elem_of(old(self).node_idx, index as int)->0) == NBTNode::Int(*x) && repaid(
                        old(self).tree(),
                        final(self).tree(),
                        old(self).tree().elem_of(old(self).node_idx, index as int)->0,
                        NBTNode::Int(*final(x)),
                    ),
                    NBTRefMut::Long(x) => old(self).tree().node(old(self).tree().elem_of(old(self).node_idx, index as int)->0) == NBTNode::Long(*x) && repaid(
                        old(self).tree(),
                        final(self).tree(),
                        old(self).tree().elem_of(old(self).node_idx, index as int)->0,
                        NBTNode::Long(*final(x)),
                    ),
                    NBTRefMut::Float(x) => old(self).tree().node(old(self).tree().elem_of(old(self).node_idx, index as int)->0) == NBTNode::Float(*x) && repaid(
                        old(self).tree(),
                        final(self).tree(),
                        old(self).tree().elem_of(old(self).node_idx, index as int)->0,
                        NBTNode::Float(*final(x)),
                    ),
                    NBTRefMut::Double(x) => old(self).tree().node(old(self).tree().elem_of(old(self).node_idx, index as int)->0) == NBTNode::Double(*x) && repaid(
                        old(self).tree(),
                        final(self).tree(),
                        old(self).tree().elem_of(old(self).node_idx, index as int)->0,
                        NBTNode::Double(*final(x)),
                    ),
                    NBTRefMut::ByteArray(x) => old(self).tree().node(old(self).tree().elem_of(old(self).node_idx, index as int)->0) == NBTNode::ByteArray(*x) && repaid(
                        old(self).tree(),
                        final(self).tree(),
                        old(self).tree().elem_of(old(self).node_idx, index as int)->0,
                        NBTNode::ByteArray(*final(x)),
                    ),
                    NBTRefMut::String(x) => old(self).tree().node(old(self).tree().elem_of(old(self).node_idx, index as int)->0) == NBTNode::String(*x) && repaid(
                        old(self).tree(),
                        final(self).tree(),
                        old(self).tree().elem_of(old(self).node_idx, index as int)->0,
                        NBTNode::String(*final(x)),
                    ),
                    NBTRefMut::IntArray(x) => old(self).tree().node(old(self).tree().elem_of(old(self).node_idx, index as int)->0) == NBTNode::IntArray(*x) && repaid(
                        old(self).tree(),
                        final(self).tree(),
                        old(self).tree().elem_of(old(self).node_idx, index as int)->0,
                        NBTNode::IntArray(*final(x)),
                    ),
                    NBTRefMut::LongArray(x) => old(self).tree().node(old(self).tree().elem_of(old(self).node_idx, index as int)->0) == NBTNode::LongArray(*x) && repaid(
                        old(self).tree(),
                        final(self).tree(),
                        old(self).tree().elem_of(old(self).node_idx, index as int)->0,
                        NBTNode::LongArray(*final(x)),
                    ),
                    NBTRefMut::List(v) => {
                        &&& v.wf()
                        &&& v.tree() == old(self).tree()
                        &&& v.node_idx == old(self).tree().elem_of(old(self).node_idx, index as int)->0
                        &&& final(self).tree() == *final(v.nbt)
                    },
                    NBTRefMut::Compound(v) => {
                        &&& v.wf()
                        &&& v.tree() == old(self).tree()
                        &&& v.node_idx == old(self).tree().elem_of(old(self).node_idx, index as int)->0
                        &&& final(self).tree() == *final(v.nbt)
                    },
                },
            },
    {
        match self.nbt.get(self.node_idx, index) {
            Some(h) => Some(self.nbt.get_reference_mut(h)),
            None => None,
        }
    }
}

impl NBT {
    /// The exclusive view of the root compound.
    pub fn as_compound_mut(&mut self) -> (r: Option<CompoundRefMut<'_>>)
        requires
            old(self).wf(),
        ensures
            r is Some,
            r->0.wf(),
            r->0.tree() == *old(self),
            r->0.node_idx == old(self).root(),
            *final(self) == *final(r->0.nbt),
    {
        let node_idx = self.root_handle();
        Some(CompoundRefMut { nbt: self, node_idx })
    }

    /// The exclusive view of the node under a live handle. Through the view
    /// of a payload the payload can be changed in place; the tree is then the
    /// tree as it was with the new payload at that node.
    pub fn get_reference_mut(&mut self, node_idx: usize) -> (r: NBTRefMut<'_>)
        requires
            old(self).wf(),
            old(self).live(node_idx),
        ensures
            match r {
                NBTRefMut::Byte(x) => old(self).node(node_idx) == NBTNode::Byte(*x) && repaid(
                    *old(self),
                    *final(self),
                    node_idx,
                    NBTNode::Byte(*final(x)),
                ),
                NBTRefMut::Short(x) => old(self).node(node_idx) == NBTNode::Short(*x) && repaid(
                    *old(self),
                    *final(self),
                    node_idx,
                    NBTNode::Short(*final(x)),
                ),
                NBTRefMut::Int(x) => old(self).node(node_idx) == NBTNode::Int(*x) && repaid(
                    *old(self),
                    *final(self),
                    node_idx,
                    NBTNode::Int(*final(x)),
                ),
                NBTRefMut::Long(x) => old(self).node(node_idx) == NBTNode::Long(*x) && repaid(
                    *old(self),
                    *final(self),
                    node_idx,
                    NBTNode::Long(*final(x)),
                ),
                NBTRefMut::Float(x) => old(self).node(node_idx) == NBTNode::Float(*x) && repaid(
                    *old(self),
                    *final(self),
                    node_idx,
                    NBTNode::Float(*final(x)),
                ),
                NBTRefMut::Double(x) => old(self).node(node_idx) == NBTNode::Double(*x) && repaid(
                    *old(self),
                    *final(self),
                    node_idx,
                    NBTNode::Double(*final(x)),
                ),
                NBTRefMut::ByteArray(x) => old(self).node(node_idx) == NBTNode::ByteArray(*x)
                    && repaid(
                    *old(self),
                    *final(self),
                    node_idx,
                    NBTNode::ByteArray(*final(x)),
                ),
                NBTRefMut::String(x) => old(self).node(node_idx) == NBTNode::String(*x) && repaid(
                    *old(self),
                    *final(self),
                    node_idx,
                    NBTNode::String(*final(x)),
                ),
                NBTRefMut::IntArray(x) => old(self).node(node_idx) == NBTNode::IntArray(*x)
                    && repaid(
                    *old(self),
                    *final(self),
                    node_idx,
                    NBTNode::IntArray(*final(x)),
                ),
                NBTRefMut::LongArray(x) => old(self).node(node_idx) == NBTNode::LongArray(*x)
                    && repaid(
                    *old(self),
                    *final(self),
                    node_idx,
                    NBTNode::LongArray(*final(x)),
                ),
                NBTRefMut::List(v) => {
                    &&& v.wf()
                    &&& v.tree() == *old(self)
                    &&& v.node_idx == node_idx
                    &&& *final(self) == *final(v.nbt)
                },
                NBTRefMut::Compound(v) => {
                    &&& v.wf()
                    &&& v.tree() == *old(self)
                    &&& v.node_idx == node_idx
                    &&& *final(self) == *final(v.nbt)
                },
            },
    {
        let kind = self.get_type(node_idx).unwrap().0;
        if kind == 9 {
            return NBTRefMut::List(ListRefMut { nbt: self, node_idx });
        }
        if kind == 10 {
            return NBTRefMut::Compound(CompoundRefMut { nbt: self, node_idx });
        }
        let ghost m1 = self.nodes();
        let ghost s = self.shape();
        let ghost root = self.root();
        proof {
            assert forall|n: usize| m1.dom().contains(n) implies anc(m1, s, root, n) by {
                assert(self.below(self.root(), n));
            }
        }
        let t = self.node_mut(node_idx);
        match t {
            NBTNode::Byte(x) => {
                proof {
                    lemma_repaid(m1, s, m1.insert(node_idx, NBTNode::Byte(*final(x))), node_idx, root);
                }
                NBTRefMut::Byte(x)
            },
            NBTNode::Short(x) => {
                proof {
                    lemma_repaid(m1, s, m1.insert(node_idx, NBTNode::Short(*final(x))), node_idx, root);
                }
                NBTRefMut::Short(x)
            },
            NBTNode::Int(x) => {
                proof {
                    lemma_repaid(m1, s, m1.insert(node_idx, NBTNode::Int(*final(x))), node_idx, root);
                }
                NBTRefMut::Int(x)
            },
            NBTNode::Long(x) => {
                proof {
                    lemma_repaid(m1, s, m1.insert(node_idx, NBTNode::Long(*final(x))), node_idx, root);
                }
                NBTRefMut::Long(x)
            },
            NBTNode::Float(x) => {
                proof {
                    lemma_repaid(m1, s, m1.insert(node_idx, NBTNode::Float(*final(x))), node_idx, root);
                }
                NBTRefMut::Float(x)
            },
            NBTNode::Double(x) => {
                proof {
                    lemma_repaid(m1, s, m1.insert(node_idx, NBTNode::Double(*final(x))), node_idx, root);
                }
                NBTRefMut::Double(x)
            },
            NBTNode::ByteArray(x) => {
                proof {
                    lemma_repaid(m1, s, m1.insert(node_idx, NBTNode::ByteArray(*final(x))), node_idx, root);
                }
                NBTRefMut::ByteArray(x)
            },
            NBTNode::String(x) => {
                proof {
                    lemma_repaid(m1, s, m1.insert(node_idx, NBTNode::String(*final(x))), node_idx, root);
                }
                NBTRefMut::String(x)
            },
            NBTNode::IntArray(x) => {
                proof {
                    lemma_repaid(m1, s, m1.insert(node_idx, NBTNode::IntArray(*final(x))), node_idx, root);
                }
                NBTRefMut::IntArray(x)
            },
            NBTNode::LongArray(x) => {
                proof {
                    lemma_repaid(m1, s, m1.insert(node_idx, NBTNode::LongArray(*final(x))), node_idx, root);
                }
                NBTRefMut::LongArray(x)
            },
            _ => vstd::pervasive::unreached(),
        }
    }

    /// The exclusive view of the root.
    pub fn as_reference_mut(&mut self) -> (r: NBTRefMut<'_>)
        requires
            old(self).wf(),
        ensures
            r is Compound,
            r->Compound_0.wf(),
            r->Compound_0.tree() == *old(self),
            r->Compound_0.node_idx == old(self).root(),
            *final(self) == *final(r->Compound_0.nbt),
    {
        let node_idx = self.root_handle();
        self.get_reference_mut(node_idx)
    }
}

} // verus!
