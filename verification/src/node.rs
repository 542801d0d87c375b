use vstd::prelude::*;
use crate::compound::NBTCompound;
use crate::value::Value;
use crate::tag::{
    TagType, TAG_BYTE_ARRAY_ID, TAG_BYTE_ID, TAG_COMPOUND_ID, TAG_DOUBLE_ID, TAG_FLOAT_ID,
    TAG_INT_ARRAY_ID, TAG_INT_ID, TAG_LIST_ID, TAG_LONG_ARRAY_ID, TAG_LONG_ID, TAG_SHORT_ID,
    TAG_STRING_ID,
};

verus! {

/// One slot of the arena. A container holds the handles of its children,
/// never the children themselves. The two floating-point kinds hold their
/// IEEE-754 bit patterns.
#[derive(Debug, Clone)]
pub enum NBTNode {
    Byte(i8),
    Short(i16),
    Int(i32),
    Long(i64),
    Float(u32),
    Double(u64),
    ByteArray(Vec<i8>),
    String(String),
    List { type_id: TagType, children: Vec<usize> },
    Compound(NBTCompound),
    IntArray(Vec<i32>),
    LongArray(Vec<i64>),
}

impl NBTNode {
    /// The wire tag of this node's kind, as a number.
    pub open spec fn tag(&self) -> u8 {
        match self {
            NBTNode::Byte(_) => 1,
            NBTNode::Short(_) => 2,
            NBTNode::Int(_) => 3,
            NBTNode::Long(_) => 4,
            NBTNode::Float(_) => 5,
            NBTNode::Double(_) => 6,
            NBTNode::ByteArray(_) => 7,
            NBTNode::String(_) => 8,
            NBTNode::List { .. } => 9,
            NBTNode::Compound(_) => 10,
            NBTNode::IntArray(_) => 11,
            NBTNode::LongArray(_) => 12,
        }
    }

    /// The handles that this node owns, in its own order: a list's elements,
    /// a compound's entries by name, nothing for the other kinds.
    pub open spec fn children(&self) -> Seq<usize> {
        match self {
            NBTNode::List { type_id, children } => children@,
            NBTNode::Compound(c) => c@.map_values(|e: (Seq<char>, usize)| e.1),
            _ => Seq::empty(),
        }
    }

    /// The node owns no other node: it is a scalar, an array, a string or an
    /// empty container.
    pub open spec fn is_leaf(&self) -> bool {
        self.children().len() == 0
    }

    /// Whether the node owns no other node.
    pub fn owns_nothing(&self) -> (r: bool)
        ensures
            r == self.is_leaf(),
    {
        match self {
            NBTNode::List { type_id: _, children } => children.len() == 0,
            NBTNode::Compound(c) => c.len() == 0,
            _ => true,
        }
    }

    /// The value of a node that owns no other node: its payload, or an empty
    /// container.
    pub open spec fn leaf_value(&self) -> Value {
        match self {
            NBTNode::Byte(x) => Value::Byte(*x),
            NBTNode::Short(x) => Value::Short(*x),
            NBTNode::Int(x) => Value::Int(*x),
            NBTNode::Long(x) => Value::Long(*x),
            NBTNode::Float(x) => Value::Float(*x),
            NBTNode::Double(x) => Value::Double(*x),
            NBTNode::ByteArray(v) => Value::ByteArray(v@),
            NBTNode::String(s) => Value::String(s@),
            NBTNode::List { type_id, children } => Value::List(type_id.0, Seq::empty()),
            NBTNode::Compound(c) => Value::Compound(Seq::empty()),
            NBTNode::IntArray(v) => Value::IntArray(v@),
            NBTNode::LongArray(v) => Value::LongArray(v@),
        }
    }

    /// The wire tag of this node's kind.
    pub fn get_type(&self) -> (t: TagType)
        ensures
            t.0 == self.tag(),
    {
        match self {
            NBTNode::Byte(_) => TagType(TAG_BYTE_ID),
            NBTNode::Short(_) => TagType(TAG_SHORT_ID),
            NBTNode::Int(_) => TagType(TAG_INT_ID),
            NBTNode::Long(_) => TagType(TAG_LONG_ID),
            NBTNode::Float(_) => TagType(TAG_FLOAT_ID),
            NBTNode::Double(_) => TagType(TAG_DOUBLE_ID),
            NBTNode::ByteArray(_) => TagType(TAG_BYTE_ARRAY_ID),
            NBTNode::String(_) => TagType(TAG_STRING_ID),
            NBTNode::List { type_id: _, children: _ } => TagType(TAG_LIST_ID),
            NBTNode::Compound(_) => TagType(TAG_COMPOUND_ID),
            NBTNode::IntArray(_) => TagType(TAG_INT_ARRAY_ID),
            NBTNode::LongArray(_) => TagType(TAG_LONG_ARRAY_ID),
        }
    }
}

} // verus!
