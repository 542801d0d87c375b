use vstd::prelude::*;
use crate::attach::{
    attach_shape, attached, detached, lemma_attach, lemma_attach_compound_value,
    lemma_attach_list_value, lemma_cut_changed, lemma_detach,
    lemma_sibling_kept,
};
use crate::entries::{
    entry_find, entry_insert, entry_remove, key_lt, lemma_insert_after_remove, lemma_rank_by_keys,
    lemma_rank_splits, rank,
};
use crate::frame::{changed_below, lemma_changed_nested, lemma_changed_refl, lemma_no_leak};
use crate::node::NBTNode;
use crate::shape::{anc, lemma_compound_entries, lemma_subtree_live, node_ok, subtree, value_of};
use crate::tree::NBT;
use crate::value::{node_count, Value};

verus! {

impl NBT {
    /// The two trees differ only by work at and below `t`: see
    /// `changed_below`. Root and name are the same.
    pub open spec fn changed(&self, after: &NBT, t: usize) -> bool {
        &&& changed_below(self.nodes(), self.shape(), after.nodes(), after.shape(), t)
        &&& after.root() == self.root()
        &&& after.name() == self.name()
    }

    /// Nothing differs between the two trees.
    pub open spec fn same(&self, after: &NBT) -> bool {
        &&& after.nodes() == self.nodes()
        &&& after.shape() == self.shape()
        &&& after.root() == self.root()
        &&& after.name() == self.name()
    }

    /// The handles below `h`, `h` included.
    pub open spec fn subtree_of(&self, h: usize) -> Set<usize> {
        subtree(self.nodes(), self.shape(), h)
    }

    /// The handle stored under `key` in the compound `h`, if `h` is a live
    /// compound that has the key.
    pub open spec fn child_of(&self, h: usize, key: Seq<char>) -> Option<usize> {
        if self.live(h) {
            match self.node(h) {
                NBTNode::Compound(c) => entry_find(c@, key),
                _ => None,
            }
        } else {
            None
        }
    }

    /// The handle stored under `key` in the compound `h`.
    pub fn find_idx(&self, h: usize, key: &str) -> (r: Option<usize>)
        requires
            self.wf(),
        ensures
            r == self.child_of(h, key@),
            r matches Some(c) ==> self.live(c) && self.below(h, c),
    {
        match self.get_node(h) {
            Some(n) => match n {
                NBTNode::Compound(c) => {
                    proof {
                        assert(node_ok(self.nodes(), self.shape(), h));
                        lemma_rank_splits(c@, key@);
                    }
                    let r = c.find(key);
                    proof {
                        if let Some(ch) = r {
                            let p = rank(c@, key@);
                            assert(self.node(h).children()[p] == ch);
                            crate::shape::lemma_child_anc(self.nodes(), self.shape(), h, p);
                        }
                    }
                    r
                },
                _ => None,
            },
            None => None,
        }
    }

    /// Removes the entry under `key` from the compound `h`, together with
    /// every node below the entry. Hands back how many nodes left the arena:
    /// none if `h` is no live compound or has no such key.
    pub fn remove(&mut self, h: usize, key: &str) -> (removed: usize)
        requires
            old(self).wf(),
        ensures
            final(self).wf(),
            final(self).count() + removed == old(self).count(),
            old(self).live(h) && old(self).node(h) is Compound ==> {
                &&& final(self).live(h)
                &&& final(self).node(h) is Compound
                &&& final(self).node(h)->Compound_0@ == entry_remove(
                    old(self).node(h)->Compound_0@,
                    key@,
                )
                &&& final(self).value_at(h) == Value::Compound(
                    entry_remove(old(self).value_at(h)->Compound_0, key@),
                )
                &&& removed == match entry_find(old(self).value_at(h)->Compound_0, key@) {
                    Some(v) => node_count(v),
                    None => 0,
                }
            },
            match old(self).child_of(h, key@) {
                None => removed == 0 && old(self).same(final(self)),
                Some(child) => {
                    &&& removed == old(self).subtree_of(child).len()
                    &&& removed == node_count(old(self).value_at(child))
                    &&& removed >= 1
                    &&& old(self).changed(final(self), h)
                    &&& final(self).nodes().dom() == old(self).nodes().dom().difference(
                        old(self).subtree_of(child),
                    )
                    &&& forall|n: usize|
                        final(self).live(n) && n != h ==> #[trigger] final(self).node(n) == old(
                            self,
                        ).node(n)
                    &&& final(self).child_of(h, key@) is None
                },
            },
    {
        let found = self.find_idx(h, key);
        proof {
            if self.live(h) && self.node(h) is Compound {
                let c0 = self.node(h)->Compound_0;
                lemma_compound_entries(self.nodes(), self.shape(), h);
                lemma_rank_by_keys(self.value_at(h)->Compound_0, c0@, key@);
            }
        }
        match found {
            None => 0,
            Some(child) => {
                let ghost m1 = self.nodes();
                let ghost s = self.shape();
                let ghost c1 = self.node(h)->Compound_0;
                let ghost pos = rank(c1@, key@);
                proof {
                    assert(node_ok(m1, s, h));
                    lemma_rank_splits(c1@, key@);
                    crate::count::lemma_subtree_count(m1, s, child);
                }
                let t = self.node_mut(h);
                match t {
                    NBTNode::Compound(c) => {
                        c.remove(key);
                    },
                    _ => {},
                }
                let ghost mm = self.nodes();
                proof {
                    let c2 = mm[h]->Compound_0;
                    assert(c2@ == entry_remove(c1@, key@));
                    assert(mm[h].children() =~= m1[h].children().remove(pos));
                    assert(mm.dom() =~= m1.dom());
                    assert(detached(m1, mm, h, pos));
                    lemma_detach(m1, s, mm, h, pos);
                    assert(m1[h].children()[pos] == child);
                }
                let removed = self.free_subtree(child);
                proof {
                    let m2 = self.nodes();
                    lemma_cut_changed(m1, s, mm, m2, h, pos);
                    assert forall|n: usize| m1.dom().contains(n) implies anc(
                        m1,
                        s,
                        self.root(),
                        n,
                    ) by {
                        assert(old(self).below(old(self).root(), n));
                    }
                    lemma_no_leak(m1, s, m2, s, h, self.root());
                    assert(anc(m1, s, self.root(), self.root()));
                    crate::shape::lemma_subtree_live(m1, s, child);
                    assert(m2.dom() =~= m1.dom().difference(subtree(m1, s, child)));
                    vstd::set_lib::lemma_set_difference_len(m1.dom(), subtree(m1, s, child));
                    assert(m1.dom().intersect(subtree(m1, s, child)) =~= subtree(m1, s, child));
                    crate::entries::lemma_find_after_remove(c1@, key@, key@);
                    let v1 = value_of(m1, s, h)->Compound_0;
                    let v2 = value_of(m2, s, h)->Compound_0;
                    let c2 = m2[h]->Compound_0;
                    assert(m2[h] == mm[h]);
                    lemma_compound_entries(m2, s, h);
                    assert forall|i: int| 0 <= i < v2.len() implies v2[i] == v1.remove(pos)[i] by {
                        let i1 = if i < pos { i } else { i + 1 };
                        assert(c2@[i] == c1@[i1]);
                        assert(m1[h].children()[i1] == c1@[i1].1);
                        lemma_sibling_kept(m1, s, m2, s, h, i1, pos);
                    }
                    assert(v2 =~= v1.remove(pos));
                }
                removed
            },
        }
    }

    /// Stores a fresh node under a name that the compound `h` does not have.
    fn attach_key(&mut self, h: usize, key: &str, node: NBTNode) -> (c: usize)
        requires
            old(self).wf(),
            old(self).live(h),
            old(self).node(h) is Compound,
            old(self).child_of(h, key@) is None,
            node.is_leaf(),
        ensures
            final(self).wf(),
            old(self).changed(final(self), h),
            final(self).live(c),
            final(self).below(h, c),
            final(self).node(c) == node,
            final(self).child_of(h, key@) == Some(c),
            final(self).value_at(c) == node.leaf_value(),
            final(self).value_at(h) == Value::Compound(
                entry_insert(old(self).value_at(h)->Compound_0, key@, node.leaf_value()),
            ),
            final(self).count() == old(self).count() + 1,
    {
        let ghost m1 = self.nodes();
        let ghost s1 = self.shape();
        let ghost c1 = self.node(h)->Compound_0;
        let ghost pos = rank(c1@, key@);
        proof {
            assert(node_ok(m1, s1, h));
            lemma_rank_splits(c1@, key@);
        }
        let ghost gnode = node;
        let c = self.put_node(node);
        let t = self.node_mut(h);
        match t {
            NBTNode::Compound(cc) => {
                cc.insert(key, c);
            },
            _ => {},
        }
        self.set_shape(Ghost(attach_shape(s1, h, c)));
        proof {
            let m2 = self.nodes();
            let s2 = self.shape();
            let c2 = m2[h]->Compound_0;
            assert(c2@ == c1@.insert(pos, (key@, c)));
            assert(m2[h].children() =~= m1[h].children().insert(pos, c));
            assert(m2.dom() =~= m1.dom().insert(c));
            assert(m2[c] == gnode);
            if gnode is Compound {
                assert(gnode->Compound_0@.len() == gnode.children().len());
            }
            assert(attached(m1, m2, h, c, pos));
            lemma_attach(m1, s1, m2, h, c, pos);
            assert forall|n: usize| m1.dom().contains(n) implies anc(m1, s1, self.root(), n) by {
                assert(old(self).below(old(self).root(), n));
            }
            lemma_no_leak(m1, s1, m2, s2, h, self.root());
            crate::entries::lemma_find_after_insert(c1@, key@, c, key@);
            lemma_attach_compound_value(m1, s1, m2, s2, h, c, key@);
            vstd::set::axiom_set_insert_len(m1.dom(), c);
        }
        c
    }

    /// Stores a node that owns no other node under `key` in the compound `h`
    /// and hands back its handle. What was stored under the key before is
    /// removed with everything below it. Nothing happens, and nothing is
    /// handed back, if `h` is no live compound or the node owns another.
    pub fn insert_node(&mut self, h: usize, key: &str, node: NBTNode) -> (r: Option<usize>)
        requires
            old(self).wf(),
        ensures
            final(self).wf(),
            match r {
                None => !(old(self).live(h) && old(self).node(h) is Compound && node.is_leaf())
                    && old(self).same(final(self)),
                Some(c) => {
                    &&& old(self).live(h) && old(self).node(h) is Compound
                    &&& node.is_leaf()
                    &&& old(self).changed(final(self), h)
                    &&& final(self).live(c)
                    &&& final(self).below(h, c)
                    &&& final(self).node(c) == node
                    &&& final(self).child_of(h, key@) == Some(c)
                    &&& final(self).value_at(c) == node.leaf_value()
                    &&& final(self).value_at(h) == Value::Compound(
                        entry_insert(old(self).value_at(h)->Compound_0, key@, node.leaf_value()),
                    )
                    &&& final(self).count() + (match old(self).child_of(h, key@) {
                        Some(ch) => old(self).subtree_of(ch).len(),
                        None => 0,
                    }) == old(self).count() + 1
                    &&& final(self).count() + (match entry_find(
                        old(self).value_at(h)->Compound_0,
                        key@,
                    ) {
                        Some(v) => node_count(v),
                        None => 0,
                    }) == old(self).count() + 1
                },
            },
    {
        let ok = match self.get_node(h) {
            Some(n) => match n {
                NBTNode::Compound(_) => true,
                _ => false,
            },
            None => false,
        };
        if !ok || !node.owns_nothing() {
            return None;
        }
        let ghost v0 = self.value_at(h)->Compound_0;
        proof {
            let c0 = self.node(h)->Compound_0;
            assert(node_ok(self.nodes(), self.shape(), h));
            lemma_compound_entries(self.nodes(), self.shape(), h);
            assert forall|i: int, j: int| 0 <= i < j < v0.len() implies key_lt(
                #[trigger] v0[i].0,
                #[trigger] v0[j].0,
            ) by {
                assert(key_lt(c0@[i].0, c0@[j].0));
            }
            lemma_insert_after_remove(v0, key@, node.leaf_value());
        }
        let _ = self.remove(h, key);
        let ghost mid = *self;
        proof {
            if old(self).child_of(h, key@) is None {
                lemma_changed_refl(mid.nodes(), mid.shape(), h);
            }
            assert(anc(mid.nodes(), mid.shape(), h, h));
        }
        let c = self.attach_key(h, key, node);
        proof {
            lemma_changed_nested(
                old(self).nodes(),
                old(self).shape(),
                mid.nodes(),
                mid.shape(),
                self.nodes(),
                self.shape(),
                h,
                h,
            );
        }
        Some(c)
    }

    /// Whether a node of kind `tag` may be put at the end of the list `h`: `h`
    /// is a live list that is empty or declares that kind.
    pub open spec fn takes(&self, h: usize, tag: u8) -> bool {
        &&& self.live(h)
        &&& self.node(h) is List
        &&& (self.node(h)->children@.len() == 0 || self.node(h)->type_id.0 == tag)
    }

    /// Puts a node that owns no other node at the end of the list `h` and
    /// hands back its handle. An empty list takes any kind and declares it
    /// from then on; a list with elements takes its own kind only. Nothing
    /// happens, and nothing is handed back, if the list does not take the
    /// node or the node owns another.
    pub fn append_node(&mut self, h: usize, node: NBTNode) -> (r: Option<usize>)
        requires
            old(self).wf(),
        ensures
            final(self).wf(),
            match r {
                None => !(old(self).takes(h, node.tag()) && node.is_leaf()) && old(self).same(
                    final(self),
                ),
                Some(c) => {
                    &&& old(self).takes(h, node.tag())
                    &&& node.is_leaf()
                    &&& old(self).changed(final(self), h)
                    &&& final(self).live(c)
                    &&& final(self).below(h, c)
                    &&& final(self).node(c) == node
                    &&& final(self).takes(h, node.tag())
                    &&& final(self).node(h)->children@ == old(self).node(h)->children@.push(c)
                    &&& final(self).value_at(c) == node.leaf_value()
                    &&& final(self).value_at(h) == Value::List(
                        node.tag(),
                        old(self).value_at(h)->List_1.push(node.leaf_value()),
                    )
                    &&& final(self).count() == old(self).count() + 1
                },
            },
    {
        let tag = node.get_type();
        let ok = match self.get_node(h) {
            Some(n) => match n {
                NBTNode::List { type_id, children } => children.len() == 0 || type_id.0 == tag.0,
                _ => false,
            },
            None => false,
        };
        if !ok || !node.owns_nothing() {
            return None;
        }
        let ghost m1 = self.nodes();
        let ghost s1 = self.shape();
        let ghost cs1 = self.node(h)->children@;
        let ghost gnode = node;
        proof {
            assert(node_ok(m1, s1, h));
        }
        let c = self.put_node(node);
        let t = self.node_mut(h);
        match t {
            NBTNode::List { type_id, children } => {
                *type_id = tag;
                children.push(c);
            },
            _ => {},
        }
        self.set_shape(Ghost(attach_shape(s1, h, c)));
        proof {
            let m2 = self.nodes();
            let s2 = self.shape();
            let n = cs1.len() as int;
            assert(m2[h]->children@ == cs1.push(c));
            assert(m2[h].children() =~= m1[h].children().insert(n, c));
            assert(m2.dom() =~= m1.dom().insert(c));
            assert(m2[c] == gnode);
            if gnode is Compound {
                assert(gnode->Compound_0@.len() == gnode.children().len());
            }
            assert forall|i: int| 0 <= i < m2[h]->children@.len() implies m2[#[trigger] m2[h]->children@[i]].tag()
                == tag.0 by {
                if i < n {
                    let ch = cs1[i];
                    assert(m1[h].children()[i] == ch);
                    assert(m1.dom().contains(ch));
                    assert(s1.depth[ch] == s1.depth[h] + 1);
                    assert(m2[ch] == m1[ch]);
                }
            }
            assert(attached(m1, m2, h, c, n));
            lemma_attach(m1, s1, m2, h, c, n);
            assert forall|x: usize| m1.dom().contains(x) implies anc(m1, s1, self.root(), x) by {
                assert(old(self).below(old(self).root(), x));
            }
            lemma_no_leak(m1, s1, m2, s2, h, self.root());
            lemma_attach_list_value(m1, s1, m2, s2, h, c);
            vstd::set::axiom_set_insert_len(m1.dom(), c);
        }
        Some(c)
    }
}

} // verus!
