use vstd::prelude::*;
use crate::entries::{entry_find, lemma_rank_by_keys, lemma_rank_splits};
use crate::node::NBTNode;
use crate::shape::{lemma_compound_entries, lemma_list_elems, lemma_value_unfold, node_ok};
use crate::tag::TagType;
use crate::tree::NBT;
use crate::value::Value;

verus! {

/// A read-only view of one compound of a tree.
#[derive(Clone, Copy)]
pub struct CompoundRef<'a> {
    pub nbt: &'a NBT,
    pub node_idx: usize,
}

/// A read-only view of one list of a tree.
#[derive(Clone, Copy)]
pub struct ListRef<'a> {
    pub nbt: &'a NBT,
    pub node_idx: usize,
    pub children_type: TagType,
}

/// A read-only view of one node of a tree: the payload itself for the kinds
/// that own no other node, a view of the container for the two that do.
#[derive(Clone, Copy)]
pub enum NBTRef<'a> {
    Byte(&'a i8),
    Short(&'a i16),
    Int(&'a i32),
    Long(&'a i64),
    Float(&'a u32),
    Double(&'a u64),
    ByteArray(&'a Vec<i8>),
    String(&'a String),
    List(ListRef<'a>),
    Compound(CompoundRef<'a>),
    IntArray(&'a Vec<i32>),
    LongArray(&'a Vec<i64>),
}

impl<'a> CompoundRef<'a> {
    /// The view points at a live compound of a tree that is in order.
    pub open spec fn wf(&self) -> bool {
        self.nbt.wf() && self.nbt.live(self.node_idx) && self.nbt.node(self.node_idx) is Compound
    }

    /// The value of the compound.
    pub open spec fn value(&self) -> Value {
        self.nbt.value_at(self.node_idx)
    }

    /// The number of entries.
    pub fn len(&self) -> (n: usize)
        requires
            self.wf(),
        ensures
            self.value() is Compound,
            n == self.value()->Compound_0.len(),
    {
        proof {
            lemma_compound_entries(self.nbt.nodes(), self.nbt.shape(), self.node_idx);
        }
        match self.nbt.get_node(self.node_idx).unwrap() {
            NBTNode::Compound(c) => c.len(),
            _ => 0,
        }
    }

    /// The view of what the compound holds under `key`.
    pub fn find(&self, key: &str) -> (r: Option<NBTRef<'a>>)
        requires
            self.wf(),
        ensures
            match r {
                Some(x) => x.wf() && entry_find(self.value()->Compound_0, key@) == Some(x.value()),
                None => entry_find(self.value()->Compound_0, key@) is None,
            },
    {
        let ghost c0 = self.nbt.node(self.node_idx)->Compound_0;
        proof {
            assert(node_ok(self.nbt.nodes(), self.nbt.shape(), self.node_idx));
            lemma_compound_entries(self.nbt.nodes(), self.nbt.shape(), self.node_idx);
            lemma_rank_by_keys(self.value()->Compound_0, c0@, key@);
            lemma_rank_splits(c0@, key@);
        }
        match self.nbt.find_idx(self.node_idx, key) {
            Some(h) => Some(self.nbt.get_reference(h)),
            None => None,
        }
    }
}

impl<'a> ListRef<'a> {
    /// The view points at a live list of a tree that is in order, and knows
    /// the kind that the list declares.
    pub open spec fn wf(&self) -> bool {
        &&& self.nbt.wf()
        &&& self.nbt.live(self.node_idx)
        &&& self.nbt.node(self.node_idx) is List
        &&& self.nbt.node(self.node_idx)->type_id == self.children_type
    }

    /// The value of the list.
    pub open spec fn value(&self) -> Value {
        self.nbt.value_at(self.node_idx)
    }

    /// The number of elements.
    pub fn len(&self) -> (n: usize)
        requires
            self.wf(),
        ensures
            self.value() is List,
            n == self.value()->List_1.len(),
    {
        proof {
            lemma_list_elems(self.nbt.nodes(), self.nbt.shape(), self.node_idx);
        }
        match self.nbt.get_node(self.node_idx).unwrap() {
            NBTNode::List { type_id: _, children } => children.len(),
            _ => 0,
        }
    }

    /// The view of the element at a position.
    pub fn get(&self, index: usize) -> (r: Option<NBTRef<'a>>)
        requires
            self.wf(),
        ensures
            match r {
                Some(x) => index < self.value()->List_1.len() && x.wf() && x.value()
                    == self.value()->List_1[index as int],
                None => index >= self.value()->List_1.len(),
            },
    {
        proof {
            lemma_list_elems(self.nbt.nodes(), self.nbt.shape(), self.node_idx);
        }
        match self.nbt.get(self.node_idx, index) {
            Some(h) => Some(self.nbt.get_reference(h)),
            None => None,
        }
    }
}

impl<'a> NBTRef<'a> {
    /// A view of a container points at a live container of a tree that is in
    /// order.
    pub open spec fn wf(&self) -> bool {
        match self {
            NBTRef::List(l) => l.wf(),
            NBTRef::Compound(c) => c.wf(),
            _ => true,
        }
    }

    /// The value that the view shows.
    pub open spec fn value(&self) -> Value {
        match self {
            NBTRef::Byte(x) => Value::Byte(**x),
            NBTRef::Short(x) => Value::Short(**x),
            NBTRef::Int(x) => Value::Int(**x),
            NBTRef::Long(x) => Value::Long(**x),
            NBTRef::Float(x) => Value::Float(**x),
            NBTRef::Double(x) => Value::Double(**x),
            NBTRef::ByteArray(v) => Value::ByteArray(v@),
            NBTRef::String(s) => Value::String(s@),
            NBTRef::List(l) => l.value(),
            NBTRef::Compound(c) => c.value(),
            NBTRef::IntArray(v) => Value::IntArray(v@),
            NBTRef::LongArray(v) => Value::LongArray(v@),
        }
    }

    /// The payload, if the view shows a signed byte.
    pub fn as_byte(&self) -> (r: Option<&'a i8>)
        ensures
            r == match *self {
                NBTRef::Byte(x) => Some(x),
                _ => None::<&i8>,
            },
    {
        match self {
            NBTRef::Byte(x) => Some(*x),
            _ => None,
        }
    }

    /// The payload, if the view shows a 16-bit number.
    pub fn as_short(&self) -> (r: Option<&'a i16>)
        ensures
            r == match *self {
                NBTRef::Short(x) => Some(x),
                _ => None::<&i16>,
            },
    {
        match self {
            NBTRef::Short(x) => Some(*x),
            _ => None,
        }
    }

    /// The payload, if the view shows a 32-bit number.
    pub fn as_int(&self) -> (r: Option<&'a i32>)
        ensures
            r == match *self {
                NBTRef::Int(x) => Some(x),
                _ => None::<&i32>,
            },
    {
        match self {
            NBTRef::Int(x) => Some(*x),
            _ => None,
        }
    }

    /// The payload, if the view shows a 64-bit number.
    pub fn as_long(&self) -> (r: Option<&'a i64>)
        ensures
            r == match *self {
                NBTRef::Long(x) => Some(x),
                _ => None::<&i64>,
            },
    {
        match self {
            NBTRef::Long(x) => Some(*x),
            _ => None,
        }
    }

    /// The payload, if the view shows the bits of a 32-bit floating-point number.
    pub fn as_float(&self) -> (r: Option<&'a u32>)
        ensures
            r == match *self {
                NBTRef::Float(x) => Some(x),
                _ => None::<&u32>,
            },
    {
        match self {
            NBTRef::Float(x) => Some(*x),
            _ => None,
        }
    }

    /// The payload, if the view shows the bits of a 64-bit floating-point number.
    pub fn as_double(&self) -> (r: Option<&'a u64>)
        ensures
            r == match *self {
                NBTRef::Double(x) => Some(x),
                _ => None::<&u64>,
            },
    {
        match self {
            NBTRef::Double(x) => Some(*x),
            _ => None,
        }
    }

    /// The payload, if the view shows an array of signed bytes.
    pub fn as_byte_array(&self) -> (r: Option<&'a Vec<i8>>)
        ensures
            r == match *self {
                NBTRef::ByteArray(x) => Some(x),
                _ => None::<&Vec<i8>>,
            },
    {
        match self {
            NBTRef::ByteArray(x) => Some(*x),
            _ => None,
        }
    }

    /// The payload, if the view shows a string.
    pub fn as_string(&self) -> (r: Option<&'a String>)
        ensures
            r == match *self {
                NBTRef::String(x) => Some(x),
                _ => None::<&String>,
            },
    {
        match self {
            NBTRef::String(x) => Some(*x),
            _ => None,
        }
    }

    /// The payload, if the view shows an array of 32-bit numbers.
    pub fn as_int_array(&self) -> (r: Option<&'a Vec<i32>>)
        ensures
            r == match *self {
                NBTRef::IntArray(x) => Some(x),
                _ => None::<&Vec<i32>>,
            },
    {
        match self {
            NBTRef::IntArray(x) => Some(*x),
            _ => None,
        }
    }

    /// The payload, if the view shows an array of 64-bit numbers.
    pub fn as_long_array(&self) -> (r: Option<&'a Vec<i64>>)
        ensures
            r == match *self {
                NBTRef::LongArray(x) => Some(x),
                _ => None::<&Vec<i64>>,
            },
    {
        match self {
            NBTRef::LongArray(x) => Some(*x),
            _ => None,
        }
    }

    /// The view of the list, if the view shows a list.
    pub fn as_list(&self) -> (r: Option<ListRef<'a>>)
        ensures
            r == match *self {
                NBTRef::List(l) => Some(l),
                _ => None::<ListRef<'a>>,
            },
    {
        match self {
            NBTRef::List(l) => Some(*l),
            _ => None,
        }
    }

    /// The view of the compound, if the view shows a compound.
    pub fn as_compound(&self) -> (r: Option<CompoundRef<'a>>)
        ensures
            r == match *self {
                NBTRef::Compound(c) => Some(c),
                _ => None::<CompoundRef<'a>>,
            },
    {
        match self {
            NBTRef::Compound(c) => Some(*c),
            _ => None,
        }
    }
}

impl NBT {
    /// The view of the node under a live handle.
    pub fn get_reference(&self, node_idx: usize) -> (r: NBTRef<'_>)
        requires
            self.wf(),
            self.live(node_idx),
        ensures
            r.wf(),
            r.value() == self.value_at(node_idx),
    {
        proof {
            lemma_value_unfold(self.nodes(), self.shape(), node_idx);
        }
        match self.get_node(node_idx).unwrap() {
            NBTNode::Byte(value) => NBTRef::Byte(value),
            NBTNode::Short(value) => NBTRef::Short(value),
            NBTNode::Int(value) => NBTRef::Int(value),
            NBTNode::Long(value) => NBTRef::Long(value),
            NBTNode::Float(value) => NBTRef::Float(value),
            NBTNode::Double(value) => NBTRef::Double(value),
            NBTNode::ByteArray(value) => NBTRef::ByteArray(value),
            NBTNode::String(value) => NBTRef::String(value),
            NBTNode::List { type_id, children: _ } => NBTRef::List(
                ListRef { nbt: self, node_idx, children_type: *type_id },
            ),
            NBTNode::Compound(_) => NBTRef::Compound(CompoundRef { nbt: self, node_idx }),
            NBTNode::IntArray(value) => NBTRef::IntArray(value),
            NBTNode::LongArray(value) => NBTRef::LongArray(value),
        }
    }

    /// The view of the root compound.
    pub fn as_compound(&self) -> (r: Option<CompoundRef<'_>>)
        requires
            self.wf(),
        ensures
            r is Some,
            r->0.wf(),
            r->0.value() == self@,
    {
        Some(CompoundRef { nbt: self, node_idx: self.root_handle() })
    }

    /// The view of the root.
    pub fn as_reference(&self) -> (r: NBTRef<'_>)
        requires
            self.wf(),
        ensures
            r.wf(),
            r.value() == self@,
    {
        self.get_reference(self.root_handle())
    }
}

} // verus!
