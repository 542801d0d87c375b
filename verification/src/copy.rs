use vstd::prelude::*;
use crate::compound::NBTCompound;
use crate::decode::put;
use crate::entries::{entry_insert, key_lt, lemma_rank_is_split, sorted};
use crate::frame::{lemma_changed_nested, lemma_changed_refl};
use crate::node::NBTNode;
use crate::shape::{anc, lemma_compound_entries, lemma_list_elems, lemma_value_unfold, node_ok};
use crate::tree::NBT;
use crate::value::Value;

verus! {

/// A copy of an array of signed bytes.
pub fn copy_i8s(v: &Vec<i8>) -> (r: Vec<i8>)
    ensures
        r@ == v@,
{
    let mut out: Vec<i8> = Vec::new();
    let mut i: usize = 0;
    while i < v.len()
        invariant
            i <= v@.len(),
            out@ == v@.take(i as int),
        decreases v@.len() - i,
    {
        out.push(v[i]);
        i += 1;
        assert(out@ =~= v@.take(i as int));
    }
    assert(v@.take(i as int) =~= v@);
    out
}

/// A copy of an array of 32-bit numbers.
pub fn copy_i32s(v: &Vec<i32>) -> (r: Vec<i32>)
    ensures
        r@ == v@,
{
    let mut out: Vec<i32> = Vec::new();
    let mut i: usize = 0;
    while i < v.len()
        invariant
            i <= v@.len(),
            out@ == v@.take(i as int),
        decreases v@.len() - i,
    {
        out.push(v[i]);
        i += 1;
        assert(out@ =~= v@.take(i as int));
    }
    assert(v@.take(i as int) =~= v@);
    out
}

/// A copy of an array of 64-bit numbers.
pub fn copy_i64s(v: &Vec<i64>) -> (r: Vec<i64>)
    ensures
        r@ == v@,
{
    let mut out: Vec<i64> = Vec::new();
    let mut i: usize = 0;
    while i < v.len()
        invariant
            i <= v@.len(),
            out@ == v@.take(i as int),
        decreases v@.len() - i,
    {
        out.push(v[i]);
        i += 1;
        assert(out@ =~= v@.take(i as int));
    }
    assert(v@.take(i as int) =~= v@);
    out
}

impl NBTNode {
    /// A node of the same kind with the same payload that owns no other
    /// node: the copy of a container is empty.
    pub fn copy_leaf(&self) -> (r: NBTNode)
        ensures
            r.is_leaf(),
            r.tag() == self.tag(),
            r.leaf_value() == self.leaf_value(),
    {
        match self {
            NBTNode::Byte(x) => NBTNode::Byte(*x),
            NBTNode::Short(x) => NBTNode::Short(*x),
            NBTNode::Int(x) => NBTNode::Int(*x),
            NBTNode::Long(x) => NBTNode::Long(*x),
            NBTNode::Float(x) => NBTNode::Float(*x),
            NBTNode::Double(x) => NBTNode::Double(*x),
            NBTNode::ByteArray(v) => NBTNode::ByteArray(copy_i8s(v)),
            NBTNode::String(s) => NBTNode::String(s.clone()),
            NBTNode::List { type_id, children: _ } => NBTNode::List {
                type_id: *type_id,
                children: Vec::new(),
            },
            NBTNode::Compound(_) => {
                let c = NBTCompound::new();
                let r = NBTNode::Compound(c);
                assert(r.children() =~= Seq::<usize>::empty());
                r
            },
            NBTNode::IntArray(v) => NBTNode::IntArray(copy_i32s(v)),
            NBTNode::LongArray(v) => NBTNode::LongArray(copy_i64s(v)),
        }
    }
}

impl NBT {
    /// Copies the node `h` of this tree with everything below it into a
    /// container of another tree: under the name for a compound, at the end
    /// for a list.
    pub fn copy_into(&self, h: usize, dst: &mut NBT, parent: usize, key: Option<&str>)
        requires
            self.wf(),
            self.live(h),
            old(dst).wf(),
            old(dst).accepts(
                parent,
                match key {
                    Some(k) => Some(k@),
                    None => None,
                },
                self.node(h).tag(),
            ),
        ensures
            final(dst).wf(),
            old(dst).changed(final(dst), parent),
            final(dst).accepts(
                parent,
                match key {
                    Some(k) => Some(k@),
                    None => None,
                },
                self.node(h).tag(),
            ),
            final(dst).value_at(parent) == put(
                old(dst).value_at(parent),
                match key {
                    Some(k) => Some(k@),
                    None => None,
                },
                self.value_at(h),
            ),
        decreases self.shape().bound - self.shape().depth[h],
    {
        let ghost gkey = match key {
            Some(k) => Some(k@),
            None => None,
        };
        let ghost base = dst.value_at(parent);
        proof {
            assert(node_ok(self.nodes(), self.shape(), h));
            lemma_value_unfold(self.nodes(), self.shape(), h);
            if key is Some {
                dst.lemma_entries_sorted(parent);
            }
        }
        let n = self.get_node(h).unwrap();
        let c = dst.attach(parent, key, n.copy_leaf());
        let ghost mid = *dst;
        match n {
            NBTNode::List { type_id, children } => {
                let ghost vals = self.value_at(h)->List_1;
                proof {
                    lemma_list_elems(self.nodes(), self.shape(), h);
                    lemma_changed_refl(mid.nodes(), mid.shape(), c);
                    lemma_list_elems(mid.nodes(), mid.shape(), c);
                    assert(vals.take(0) =~= Seq::<Value>::empty());
                }
                let mut i: usize = 0;
                while i < children.len()
                    invariant
                        self.wf(),
                        self.live(h),
                        self.node(h) == *n,
                        *n == (NBTNode::List { type_id: *type_id, children: *children }),
                        vals == self.value_at(h)->List_1,
                        vals.len() == children@.len(),
                        forall|j: int|
                            0 <= j < vals.len() ==> #[trigger] vals[j] == self.value_at(
                                children@[j],
                            ),
                        i <= children@.len(),
                        dst.wf(),
                        mid.changed(dst, c),
                        dst.takes(c, type_id.0),
                        dst.value_at(c) == Value::List(type_id.0, vals.take(i as int)),
                    decreases children@.len() - i,
                {
                    let ch = children[i];
                    let ghost prev = *dst;
                    proof {
                        assert(node_ok(self.nodes(), self.shape(), h));
                        assert(self.node(h).children()[i as int] == ch);
                        assert(self.live(ch));
                        assert(node_ok(self.nodes(), self.shape(), ch));
                        self.lemma_value_tag(ch);
                    }
                    self.copy_into(ch, dst, c, None);
                    i += 1;
                    proof {
                        assert(anc(prev.nodes(), prev.shape(), c, c));
                        lemma_changed_nested(
                            mid.nodes(),
                            mid.shape(),
                            prev.nodes(),
                            prev.shape(),
                            dst.nodes(),
                            dst.shape(),
                            c,
                            c,
                        );
                        assert(vals.take(i - 1).push(vals[i - 1]) =~= vals.take(i as int));
                    }
                }
                proof {
                    assert(vals.take(i as int) =~= vals);
                }
            },
            NBTNode::Compound(comp) => {
                let ghost vals = self.value_at(h)->Compound_0;
                proof {
                    lemma_compound_entries(self.nodes(), self.shape(), h);
                    lemma_changed_refl(mid.nodes(), mid.shape(), c);
                    lemma_compound_entries(mid.nodes(), mid.shape(), c);
                    assert(vals.take(0) =~= Seq::<(Seq<char>, Value)>::empty());
                    self.lemma_entries_sorted(h);
                }
                let mut i: usize = 0;
                while i < comp.len()
                    invariant
                        self.wf(),
                        self.live(h),
                        self.node(h) == *n,
                        *n == NBTNode::Compound(*comp),
                        vals == self.value_at(h)->Compound_0,
                        vals.len() == comp@.len(),
                        sorted(vals),
                        forall|j: int|
                            0 <= j < vals.len() ==> #[trigger] vals[j] == (
                                comp@[j].0,
                                self.value_at(comp@[j].1),
                            ),
                        i <= comp@.len(),
                        dst.wf(),
                        mid.changed(dst, c),
                        dst.live(c),
                        dst.node(c) is Compound,
                        dst.value_at(c) == Value::Compound(vals.take(i as int)),
                    decreases comp@.len() - i,
                {
                    let ch = comp.handle_at(i);
                    let ghost prev = *dst;
                    proof {
                        assert(node_ok(self.nodes(), self.shape(), h));
                        assert(self.node(h).children()[i as int] == ch);
                        assert(self.live(ch));
                        assert(node_ok(self.nodes(), self.shape(), ch));
                    }
                    self.copy_into(ch, dst, c, Some(comp.key_at(i)));
                    i += 1;
                    proof {
                        assert(anc(prev.nodes(), prev.shape(), c, c));
                        lemma_changed_nested(
                            mid.nodes(),
                            mid.shape(),
                            prev.nodes(),
                            prev.shape(),
                            dst.nodes(),
                            dst.shape(),
                            c,
                            c,
                        );
                        let acc = vals.take(i - 1);
                        let name = vals[i - 1].0;
                        assert forall|j: int| 0 <= j < i - 1 implies key_lt(
                            #[trigger] acc[j].0,
                            name,
                        ) by {
                            assert(key_lt(vals[j].0, vals[i - 1].0));
                        }
                        lemma_rank_is_split(acc, name, i - 1);
                        assert(entry_insert(acc, name, vals[i - 1].1) =~= vals.take(i as int));
                    }
                }
                proof {
                    assert(vals.take(i as int) =~= vals);
                }
            },
            _ => {
                proof {
                    lemma_changed_refl(mid.nodes(), mid.shape(), c);
                }
            },
        }
        proof {
            lemma_changed_nested(
                old(dst).nodes(),
                old(dst).shape(),
                mid.nodes(),
                mid.shape(),
                dst.nodes(),
                dst.shape(),
                parent,
                c,
            );
            mid.lemma_refilled(dst, parent, gkey, c, base, n.leaf_value());
        }
    }

    /// Another tree with the same name that stands for the same value.
    pub fn duplicate(&self) -> (r: NBT)
        requires
            self.wf(),
        ensures
            r.wf(),
            r.name() == self.name(),
            r@ == self@,
    {
        let mut r = NBT::new_named(self.root_name_str().to_owned());
        let root = self.root_handle();
        let to = r.root_handle();
        let ghost vals = self@->Compound_0;
        proof {
            lemma_compound_entries(self.nodes(), self.shape(), root);
            self.lemma_entries_sorted(root);
            assert(vals.take(0) =~= Seq::<(Seq<char>, Value)>::empty());
        }
        let n = self.get_node(root).unwrap();
        match n {
            NBTNode::Compound(comp) => {
                let mut i: usize = 0;
                while i < comp.len()
                    invariant
                        self.wf(),
                        root == self.root(),
                        self.node(root) == *n,
                        *n == NBTNode::Compound(*comp),
                        vals == self@->Compound_0,
                        vals.len() == comp@.len(),
                        sorted(vals),
                        forall|j: int|
                            0 <= j < vals.len() ==> #[trigger] vals[j] == (
                                comp@[j].0,
                                self.value_at(comp@[j].1),
                            ),
                        i <= comp@.len(),
                        r.wf(),
                        to == r.root(),
                        r.name() == self.name(),
                        r@ == Value::Compound(vals.take(i as int)),
                    decreases comp@.len() - i,
                {
                    let ch = comp.handle_at(i);
                    proof {
                        assert(node_ok(self.nodes(), self.shape(), root));
                        assert(self.node(root).children()[i as int] == ch);
                        assert(self.live(ch));
                    }
                    self.copy_into(ch, &mut r, to, Some(comp.key_at(i)));
                    i += 1;
                    proof {
                        let acc = vals.take(i - 1);
                        let name = vals[i - 1].0;
                        assert forall|j: int| 0 <= j < i - 1 implies key_lt(
                            #[trigger] acc[j].0,
                            name,
                        ) by {
                            assert(key_lt(vals[j].0, vals[i - 1].0));
                        }
                        lemma_rank_is_split(acc, name, i - 1);
                        assert(entry_insert(acc, name, vals[i - 1].1) =~= vals.take(i as int));
                    }
                }
                proof {
                    assert(vals.take(i as int) =~= vals);
                }
            },
            _ => {},
        }
        r
    }
}

} // verus!
