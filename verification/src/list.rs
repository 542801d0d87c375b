use vstd::prelude::*;
use crate::attach::{
    attach_shape, attached, detached, lemma_attach, lemma_attach_list_value_at,
    lemma_cut_changed, lemma_cut_list_value, lemma_detach, lemma_relabel,
};
use crate::frame::{lemma_changed_nested, lemma_no_leak};
use crate::node::NBTNode;
use crate::shape::{anc, lemma_child_anc, lemma_list_elems, lemma_subtree_live, node_ok, subtree};
use crate::tree::NBT;
use crate::value::{node_count, Value};

verus! {

impl NBT {
    /// The handle at a position of the list `h`, if `h` is a live list that
    /// long.
    pub open spec fn elem_of(&self, h: usize, index: int) -> Option<usize> {
        if self.live(h) && self.node(h) is List && 0 <= index < self.node(h)->children@.len() {
            Some(self.node(h)->children@[index])
        } else {
            None
        }
    }

    /// The number of children of the container `h`: of entries for a
    /// compound, of elements for a list.
    pub fn child_count(&self, h: usize) -> (r: Option<usize>)
        ensures
            r == if self.live(h) && (self.node(h) is List || self.node(h) is Compound) {
                Some(self.node(h).children().len() as usize)
            } else {
                None::<usize>
            },
    {
        match self.get_node(h) {
            Some(n) => match n {
                NBTNode::List { type_id: _, children } => Some(children.len()),
                NBTNode::Compound(c) => Some(c.len()),
                _ => None,
            },
            None => None,
        }
    }

    /// The handle at a position of the list `h`.
    pub fn get(&self, h: usize, index: usize) -> (r: Option<usize>)
        requires
            self.wf(),
        ensures
            r == self.elem_of(h, index as int),
            r matches Some(c) ==> self.live(c) && self.below(h, c),
    {
        match self.get_node(h) {
            Some(n) => match n {
                NBTNode::List { type_id: _, children } => {
                    if index < children.len() {
                        proof {
                            lemma_child_anc(self.nodes(), self.shape(), h, index as int);
                        }
                        Some(children[index])
                    } else {
                        None
                    }
                },
                _ => None,
            },
            None => None,
        }
    }

    /// Removes the element at a position of the list `h`, together with every
    /// node below the element. Hands back how many nodes left the arena: none
    /// if `h` is no live list that long.
    pub fn remove_at(&mut self, h: usize, index: usize) -> (removed: usize)
        requires
            old(self).wf(),
        ensures
            final(self).wf(),
            final(self).count() + removed == old(self).count(),
            match old(self).elem_of(h, index as int) {
                None => removed == 0 && old(self).same(final(self)),
                Some(child) => {
                    &&& removed == old(self).subtree_of(child).len()
                    &&& removed == node_count(old(self).value_at(child))
                    &&& removed == node_count(old(self).value_at(h)->List_1[index as int])
                    &&& removed >= 1
                    &&& old(self).changed(final(self), h)
                    &&& final(self).nodes().dom() == old(self).nodes().dom().difference(
                        old(self).subtree_of(child),
                    )
                    &&& forall|n: usize|
                        final(self).live(n) && n != h ==> #[trigger] final(self).node(n) == old(
                            self,
                        ).node(n)
                    &&& final(self).node(h) is List
                    &&& final(self).node(h)->type_id == old(self).node(h)->type_id
                    &&& final(self).node(h)->children@ == old(self).node(h)->children@.remove(
                        index as int,
                    )
                    &&& final(self).value_at(h) == Value::List(
                        old(self).value_at(h)->List_0,
                        old(self).value_at(h)->List_1.remove(index as int),
                    )
                },
            },
    {
        let found = self.get(h, index);
        match found {
            None => 0,
            Some(child) => {
                let ghost m1 = self.nodes();
                let ghost s = self.shape();
                let ghost pos = index as int;
                proof {
                    assert(node_ok(m1, s, h));
                    lemma_list_elems(m1, s, h);
                    crate::count::lemma_subtree_count(m1, s, child);
                }
                let t = self.node_mut(h);
                match t {
                    NBTNode::List { type_id: _, children } => {
                        let _ = children.remove(index);
                    },
                    _ => {},
                }
                let ghost mm = self.nodes();
                proof {
                    assert(mm[h].children() =~= m1[h].children().remove(pos));
                    assert(mm.dom() =~= m1.dom());
                    assert forall|i: int| 0 <= i < mm[h]->children@.len() implies mm[#[trigger] mm[h]->children@[i]].tag()
                        == mm[h]->type_id.0 by {
                        let i1 = if i < pos { i } else { i + 1 };
                        let ch = m1[h]->children@[i1];
                        assert(m1[h].children()[i1] == ch);
                        assert(s.depth[ch] == s.depth[h] + 1);
                    }
                    assert(detached(m1, mm, h, pos));
                    lemma_detach(m1, s, mm, h, pos);
                    assert(m1[h].children()[pos] == child);
                }
                let removed = self.free_subtree(child);
                proof {
                    let m2 = self.nodes();
                    lemma_cut_changed(m1, s, mm, m2, h, pos);
                    assert forall|n: usize| m1.dom().contains(n) implies anc(
                        m1,
                        s,
                        self.root(),
                        n,
                    ) by {
                        assert(old(self).below(old(self).root(), n));
                    }
                    lemma_no_leak(m1, s, m2, s, h, self.root());
                    assert(anc(m1, s, self.root(), self.root()));
                    lemma_subtree_live(m1, s, child);
                    assert(m2.dom() =~= m1.dom().difference(subtree(m1, s, child)));
                    vstd::set_lib::lemma_set_difference_len(m1.dom(), subtree(m1, s, child));
                    assert(m1.dom().intersect(subtree(m1, s, child)) =~= subtree(m1, s, child));
                    assert(m2[h] == mm[h]);
                    lemma_cut_list_value(m1, s, mm, m2, h, pos);
                }
                removed
            },
        }
    }

    /// Whether a node of kind `tag` may be put into the list `h` at a
    /// position: `h` takes the kind, and the position is an element's or the
    /// end.
    pub open spec fn takes_at(&self, h: usize, index: int, tag: u8) -> bool {
        self.takes(h, tag) && 0 <= index <= self.node(h)->children@.len()
    }

    /// Puts a node that owns no other node into the list `h` before the
    /// element at a position, or at the end, and hands back its handle.
    /// Nothing happens, and nothing is handed back, if the list does not take
    /// the node there or the node owns another.
    pub fn insert_node_at(&mut self, h: usize, index: usize, node: NBTNode) -> (r: Option<usize>)
        requires
            old(self).wf(),
        ensures
            final(self).wf(),
            match r {
                None => !(old(self).takes_at(h, index as int, node.tag()) && node.is_leaf())
                    && old(self).same(final(self)),
                Some(c) => {
                    &&& old(self).takes_at(h, index as int, node.tag())
                    &&& node.is_leaf()
                    &&& old(self).changed(final(self), h)
                    &&& final(self).live(c)
                    &&& final(self).below(h, c)
                    &&& final(self).node(c) == node
                    &&& final(self).elem_of(h, index as int) == Some(c)
                    &&& final(self).value_at(c) == node.leaf_value()
                    &&& final(self).value_at(h) == Value::List(
                        node.tag(),
                        old(self).value_at(h)->List_1.insert(index as int, node.leaf_value()),
                    )
                    &&& final(self).count() == old(self).count() + 1
                },
            },
    {
        let tag = node.get_type();
        let ok = match self.get_node(h) {
            Some(n) => match n {
                NBTNode::List { type_id, children } => (children.len() == 0 || type_id.0 == tag.0)
                    && index <= children.len(),
                _ => false,
            },
            None => false,
        };
        if !ok || !node.owns_nothing() {
            return None;
        }
        let ghost m1 = self.nodes();
        let ghost s1 = self.shape();
        let ghost cs1 = self.node(h)->children@;
        let ghost gnode = node;
        let ghost pos = index as int;
        proof {
            assert(node_ok(m1, s1, h));
        }
        let c = self.put_node(node);
        let t = self.node_mut(h);
        match t {
            NBTNode::List { type_id, children } => {
                *type_id = tag;
                children.insert(index, c);
            },
            _ => {},
        }
        self.set_shape(Ghost(attach_shape(s1, h, c)));
        proof {
            let m2 = self.nodes();
            let s2 = self.shape();
            assert(m2[h]->children@ == cs1.insert(pos, c));
            assert(m2[h].children() =~= m1[h].children().insert(pos, c));
            assert(m2.dom() =~= m1.dom().insert(c));
            assert(m2[c] == gnode);
            if gnode is Compound {
                assert(gnode->Compound_0@.len() == gnode.children().len());
            }
            assert forall|i: int| 0 <= i < m2[h]->children@.len() implies m2[#[trigger] m2[h]->children@[i]].tag()
                == tag.0 by {
                if i != pos {
                    let i1 = if i < pos { i } else { i - 1 };
                    let ch = cs1[i1];
                    assert(m1[h].children()[i1] == ch);
                    assert(m1.dom().contains(ch));
                    assert(s1.depth[ch] == s1.depth[h] + 1);
                    assert(m2[ch] == m1[ch]);
                }
            }
            assert(attached(m1, m2, h, c, pos));
            lemma_attach(m1, s1, m2, h, c, pos);
            assert forall|x: usize| m1.dom().contains(x) implies anc(m1, s1, self.root(), x) by {
                assert(old(self).below(old(self).root(), x));
            }
            lemma_no_leak(m1, s1, m2, s2, h, self.root());
            lemma_attach_list_value_at(m1, s1, m2, s2, h, c, pos);
            vstd::set::axiom_set_insert_len(m1.dom(), c);
        }
        Some(c)
    }

    /// Puts a node that owns no other node in the place of the element at a
    /// position of the list `h` and hands back its handle; the element is
    /// removed with everything below it. Nothing happens, and nothing is
    /// handed back, if `h` is no live list that long, if the node is not of
    /// the kind that the list declares, or if the node owns another.
    pub fn set_node_at(&mut self, h: usize, index: usize, node: NBTNode) -> (r: Option<usize>)
        requires
            old(self).wf(),
        ensures
            final(self).wf(),
            match r {
                None => !(old(self).elem_of(h, index as int) is Some && old(self).node(
                    h,
                )->type_id.0 == node.tag() && node.is_leaf()) && old(self).same(final(self)),
                Some(c) => {
                    &&& old(self).elem_of(h, index as int) is Some
                    &&& old(self).node(h)->type_id.0 == node.tag()
                    &&& node.is_leaf()
                    &&& old(self).changed(final(self), h)
                    &&& final(self).live(c)
                    &&& final(self).below(h, c)
                    &&& final(self).node(c) == node
                    &&& final(self).elem_of(h, index as int) == Some(c)
                    &&& final(self).value_at(c) == node.leaf_value()
                    &&& final(self).value_at(h) == Value::List(
                        node.tag(),
                        old(self).value_at(h)->List_1.update(index as int, node.leaf_value()),
                    )
                    &&& final(self).count() + node_count(
                        old(self).value_at(h)->List_1[index as int],
                    ) == old(self).count() + 1
                },
            },
    {
        let tag = node.get_type();
        let ok = match self.get_node(h) {
            Some(n) => match n {
                NBTNode::List { type_id, children } => type_id.0 == tag.0 && index
                    < children.len(),
                _ => false,
            },
            None => false,
        };
        if !ok || !node.owns_nothing() {
            return None;
        }
        proof {
            lemma_list_elems(self.nodes(), self.shape(), h);
        }
        let ghost v0 = self.value_at(h)->List_1;
        let _ = self.remove_at(h, index);
        let ghost mid = *self;
        proof {
            assert(anc(mid.nodes(), mid.shape(), h, h));
        }
        let r = self.insert_node_at(h, index, node);
        proof {
            lemma_changed_nested(
                old(self).nodes(),
                old(self).shape(),
                mid.nodes(),
                mid.shape(),
                self.nodes(),
                self.shape(),
                h,
                h,
            );
            assert(v0.remove(index as int).insert(index as int, node.leaf_value()) =~= v0.update(
                index as int,
                node.leaf_value(),
            ));
        }
        r
    }

    /// Whether the payload of the node `h` may give way to a node of kind
    /// `tag`: `h` is live, owns no other node and is of that kind.
    pub open spec fn holds_leaf(&self, h: usize, tag: u8) -> bool {
        self.live(h) && self.node(h).is_leaf() && self.node(h).tag() == tag
    }

    /// Puts a node that owns no other node in the place of the node `h`,
    /// which must own none either and be of the same kind; the handle stays.
    /// Nothing happens if it is not so.
    pub fn set_value(&mut self, h: usize, node: NBTNode) -> (done: bool)
        requires
            old(self).wf(),
        ensures
            final(self).wf(),
            done == (old(self).holds_leaf(h, node.tag()) && node.is_leaf()),
            !done ==> old(self).same(final(self)),
            done ==> {
                &&& old(self).changed(final(self), h)
                &&& final(self).nodes() == old(self).nodes().insert(h, node)
                &&& final(self).value_at(h) == node.leaf_value()
                &&& final(self).count() == old(self).count()
            },
    {
        let tag = node.get_type();
        let ok = match self.get_node(h) {
            Some(n) => {
                let empty = match n {
                    NBTNode::List { type_id: _, children } => children.len() == 0,
                    NBTNode::Compound(c) => c.len() == 0,
                    _ => true,
                };
                empty && n.get_type().0 == tag.0
            },
            None => false,
        };
        if !ok || !node.owns_nothing() {
            return false;
        }
        let ghost m1 = self.nodes();
        let ghost s = self.shape();
        let ghost gnode = node;
        let t = self.node_mut(h);
        *t = node;
        proof {
            let m2 = self.nodes();
            assert(m2 =~= m1.insert(h, gnode));
            assert(m2.dom() =~= m1.dom());
            lemma_relabel(m1, s, m2, h);
            assert forall|x: usize| m1.dom().contains(x) implies anc(m1, s, self.root(), x) by {
                assert(old(self).below(old(self).root(), x));
            }
            lemma_no_leak(m1, s, m2, s, h, self.root());
        }
        true
    }
}

} // verus!
