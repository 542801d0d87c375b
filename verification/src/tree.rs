use vstd::prelude::*;
use slab::Slab;
use crate::compound::NBTCompound;
use crate::node::NBTNode;
use crate::shape::{
    anc, lemma_anc_depth, lemma_closed_holds_subtree, lemma_cut_wf, lemma_subtree_live,
    lemma_value_unfold, node_ok, subtree, value_of, wf_down, Shape,
};
use crate::store::{
    holds, slab_contains, slab_get, slab_get_mut, slab_insert, slab_len, slab_new, slab_nodes,
    slab_remove,
};
use crate::tag::TagType;
use crate::value::Value;

verus! {

/// A tree of tagged values: a named root compound and an arena that owns
/// every node. Nodes are addressed by handles, which stay valid until the
/// node they name is removed.
pub struct NBT {
    pub root_name: String,
    pub(crate) root_index: usize,
    pub(crate) nodes: Slab<NBTNode>,
    pub(crate) shape: Ghost<Shape>,
}

impl View for NBT {
    type V = Value;

    /// The whole tree as a value: the value of its root.
    open spec fn view(&self) -> Value {
        self.value_at(self.root())
    }
}

impl NBT {
    /// The live handles with their nodes.
    pub closed spec fn nodes(&self) -> Map<usize, NBTNode> {
        slab_nodes(self.nodes)
    }

    /// The ownership links between the nodes.
    pub closed spec fn shape(&self) -> Shape {
        self.shape@
    }

    /// The name of the root compound.
    pub closed spec fn name(&self) -> Seq<char> {
        self.root_name@
    }

    /// The handle of the root compound.
    pub closed spec fn root(&self) -> usize {
        self.root_index
    }

    /// The handle names a node of this tree.
    pub open spec fn live(&self, h: usize) -> bool {
        self.nodes().dom().contains(h)
    }

    /// The node under a live handle.
    pub open spec fn node(&self, h: usize) -> NBTNode {
        self.nodes()[h]
    }

    /// `a` is `n` or a container that holds `n`, directly or not.
    pub open spec fn below(&self, a: usize, n: usize) -> bool {
        anc(self.nodes(), self.shape(), a, n)
    }

    /// The value that the node under a live handle stands for.
    pub open spec fn value_at(&self, h: usize) -> Value {
        value_of(self.nodes(), self.shape(), h)
    }

    /// The number of live nodes.
    pub open spec fn count(&self) -> nat {
        self.nodes().dom().len()
    }

    /// The tree is in order: the root is a live compound at the top, every
    /// live node hangs below the root through exactly one chain of containers,
    /// every compound is sorted by name and every list holds one kind.
    pub open spec fn wf(&self) -> bool {
        &&& wf_down(self.nodes(), self.shape())
        &&& self.live(self.root())
        &&& self.node(self.root()) is Compound
        &&& self.shape().depth[self.root()] == 0
        &&& self.nodes().dom().finite()
        &&& forall|n: usize| self.live(n) ==> #[trigger] self.below(self.root(), n)
    }

    /// A tree whose root is an empty compound with an empty name.
    pub fn new() -> (r: NBT)
        ensures
            r.wf(),
            r.name() == Seq::<char>::empty(),
            r@ == Value::Compound(Seq::empty()),
            r.count() == 1,
    {
        NBT::new_named(String::new())
    }

    /// A tree whose root is an empty compound with the given name.
    pub fn new_named(root_name: String) -> (r: NBT)
        ensures
            r.wf(),
            r.name() == root_name@,
            r@ == Value::Compound(Seq::empty()),
            r.count() == 1,
    {
        let mut nodes = slab_new();
        let ghost m0 = slab_nodes(nodes);
        assert(m0 =~= Map::<usize, NBTNode>::empty());
        let root_index = slab_insert(&mut nodes, NBTNode::Compound(NBTCompound::new()));
        let ghost shape = Shape {
            parent: Map::empty(),
            depth: Map::empty().insert(root_index, 0nat),
            bound: 0,
        };
        let r = NBT { root_name, root_index, nodes, shape: Ghost(shape) };
        proof {
            let m = r.nodes();
            assert(m.dom() =~= set![root_index]);
            assert(m[root_index].children() =~= Seq::<usize>::empty());
            assert(node_ok(m, shape, root_index));
            assert(wf_down(m, shape));
            assert(anc(m, shape, root_index, root_index));
            lemma_value_unfold(m, shape, root_index);
            assert(r@->Compound_0 =~= Seq::<(Seq<char>, Value)>::empty());
        }
        r
    }

    /// The name of the root compound.
    pub fn root_name_str(&self) -> (s: &str)
        ensures
            s@ == self.name(),
    {
        self.root_name.as_str()
    }

    /// The handle of the root compound.
    pub fn root_handle(&self) -> (h: usize)
        ensures
            h == self.root(),
    {
        self.root_index
    }

    /// The number of nodes in the arena.
    pub fn len(&self) -> (n: usize)
        ensures
            n == self.count(),
            self.nodes().dom().finite(),
    {
        slab_len(&self.nodes)
    }

    /// Whether the handle names a node of this tree.
    pub fn contains(&self, h: usize) -> (b: bool)
        ensures
            b == self.live(h),
    {
        slab_contains(&self.nodes, h)
    }

    /// The node under a handle, if the handle is live.
    pub fn get_node(&self, h: usize) -> (r: Option<&NBTNode>)
        ensures
            r == if self.live(h) { Some(&self.node(h)) } else { None::<&NBTNode> },
    {
        slab_get(&self.nodes, h)
    }

    /// The kind of the node under a handle, if the handle is live.
    pub fn get_type(&self, h: usize) -> (r: Option<TagType>)
        ensures
            r == if self.live(h) { Some(TagType(self.node(h).tag())) } else { None::<TagType> },
    {
        match slab_get(&self.nodes, h) {
            Some(n) => Some(n.get_type()),
            None => None,
        }
    }

    /// Exclusive access to the node under a live handle; nothing else changes.
    pub(crate) fn node_mut(&mut self, h: usize) -> (r: &mut NBTNode)
        requires
            old(self).live(h),
        ensures
            *r == old(self).node(h),
            final(self).nodes() == old(self).nodes().insert(h, *final(r)),
            final(self).shape() == old(self).shape(),
            final(self).root() == old(self).root(),
            final(self).name() == old(self).name(),
    {
        slab_get_mut(&mut self.nodes, h)
    }

    /// Puts a node into a vacant slot and hands back its handle; the links
    /// are left as they are.
    pub(crate) fn put_node(&mut self, node: NBTNode) -> (c: usize)
        ensures
            !old(self).live(c),
            final(self).nodes() == old(self).nodes().insert(c, node),
            final(self).shape() == old(self).shape(),
            final(self).root() == old(self).root(),
            final(self).name() == old(self).name(),
    {
        slab_insert(&mut self.nodes, node)
    }

    /// Records new links; the nodes are left as they are.
    pub(crate) fn set_shape(&mut self, shape: Ghost<Shape>)
        ensures
            final(self).nodes() == old(self).nodes(),
            final(self).shape() == shape@,
            final(self).root() == old(self).root(),
            final(self).name() == old(self).name(),
    {
        self.shape = shape;
    }

    /// Takes a node and everything below it out of the arena, with an
    /// explicit stack of the handles still to free. The node must not be
    /// owned by any container. Hands back the number of nodes freed.
    pub(crate) fn free_subtree(&mut self, idx: usize) -> (removed: usize)
        requires
            wf_down(old(self).nodes(), old(self).shape()),
            old(self).nodes().dom().finite(),
            old(self).live(idx),
            forall|n: usize|
                old(self).live(n) ==> !(#[trigger] old(self).node(n)).children().contains(idx),
        ensures
            final(self).shape() == old(self).shape(),
            final(self).root() == old(self).root(),
            final(self).name() == old(self).name(),
            final(self).nodes() == old(self).nodes().remove_keys(
                subtree(old(self).nodes(), old(self).shape(), idx),
            ),
            wf_down(final(self).nodes(), final(self).shape()),
            final(self).nodes().dom().finite(),
            removed == subtree(old(self).nodes(), old(self).shape(), idx).len(),
            final(self).count() + removed == old(self).count(),
    {
        let ghost m1 = self.nodes();
        let ghost s = self.shape();
        let total = slab_len(&self.nodes);
        let mut stack: Vec<usize> = Vec::new();
        stack.push(idx);
        let ghost mut gone: Set<usize> = Set::empty();
        let mut removed: usize = 0;
        proof {
            assert(anc(m1, s, idx, idx));
            assert(self.nodes() =~= m1.remove_keys(gone));
            assert(stack@[0] == idx);
            assert forall|n: usize| m1.dom().contains(n) implies !(#[trigger] m1[n]).children().contains(
                idx,
            ) by {
                assert(!old(self).node(n).children().contains(idx));
            }
        }
        while stack.len() > 0
            invariant
                self.shape() == s,
                forall|n: usize|
                    m1.dom().contains(n) ==> !(#[trigger] m1[n]).children().contains(idx),
                self.root() == old(self).root(),
                self.name() == old(self).name(),
                wf_down(m1, s),
                m1.dom().finite(),
                total == m1.dom().len(),
                self.nodes() == m1.remove_keys(gone),
                gone.finite(),
                removed == gone.len(),
                gone.subset_of(m1.dom()),
                forall|x: usize| gone.contains(x) ==> anc(m1, s, idx, x),
                forall|k: int|
                    0 <= k < stack@.len() ==> m1.dom().contains(#[trigger] stack@[k])
                        && !gone.contains(stack@[k]) && anc(m1, s, idx, stack@[k]) && (stack@[k]
                        != idx ==> gone.contains(s.parent[stack@[k]])),
                forall|k: int, l: int|
                    0 <= k < l < stack@.len() ==> #[trigger] stack@[k] != #[trigger] stack@[l],
                forall|y: usize, i: int|
                    gone.contains(y) && 0 <= i < m1[y].children().len() ==> gone.contains(
                        #[trigger] m1[y].children()[i],
                    ) || stack@.contains(m1[y].children()[i]),
                forall|x: usize| gone.contains(x) && x != idx ==> gone.contains(s.parent[x]),
                gone.contains(idx) || stack@.contains(idx),
            decreases m1.dom().len() - gone.len(),
        {
            let ghost stack0 = stack@;
            let ghost gone0 = gone;
            let y = stack.pop().unwrap();
            assert(y == stack0[stack0.len() - 1]);
            let node = slab_remove(&mut self.nodes, y);
            let mut kids = child_handles(node);
            let ghost ks = kids@;
            proof {
                gone = gone0.insert(y);
                vstd::set_lib::lemma_len_subset(gone, m1.dom());
                assert(self.nodes() =~= m1.remove_keys(gone));
                assert(node_ok(m1, s, y));
                assert(ks == m1[y].children());
            }
            removed = removed + 1;
            stack.append(&mut kids);
            proof {
                let st = stack@;
                let base = stack0.len() - 1;
                assert forall|k: int| 0 <= k < st.len() implies m1.dom().contains(
                    #[trigger] st[k],
                ) && !gone.contains(st[k]) && anc(m1, s, idx, st[k]) && (st[k] != idx
                    ==> gone.contains(s.parent[st[k]])) by {
                    if k < base {
                        assert(st[k] == stack0[k]);
                    } else {
                        let c = ks[k - base];
                        assert(st[k] == c);
                        assert(ks.contains(c));
                        lemma_anc_depth(m1, s, idx, y);
                        assert(anc(m1, s, idx, c));
                    }
                }
                assert forall|k: int, l: int| 0 <= k < l < st.len() implies #[trigger] st[k]
                    != #[trigger] st[l] by {
                    if l >= base {
                        let c = ks[l - base];
                        assert(st[l] == c);
                        lemma_anc_depth(m1, s, idx, y);
                        if k < base {
                            assert(st[k] == stack0[k]);
                        } else {
                            assert(st[k] == ks[k - base]);
                        }
                    } else {
                        assert(st[k] == stack0[k]);
                        assert(st[l] == stack0[l]);
                    }
                }
                assert forall|z: usize, i: int|
                    gone.contains(z) && 0 <= i < m1[z].children().len() implies gone.contains(
                    #[trigger] m1[z].children()[i],
                ) || st.contains(m1[z].children()[i]) by {
                    let c = m1[z].children()[i];
                    if z == y {
                        assert(st[base + i] == c);
                    } else if !gone0.contains(c) {
                        let k = choose|k: int| 0 <= k < stack0.len() && stack0[k] == c;
                        if k < base {
                            assert(st[k] == c);
                        }
                    }
                }
                if !gone.contains(idx) {
                    let k = choose|k: int| 0 <= k < stack0.len() && stack0[k] == idx;
                    assert(st[k] == idx);
                }
            }
        }
        proof {
            let d = subtree(m1, s, idx);
            assert(!stack@.contains(idx));
            assert forall|x: usize| d.contains(x) implies gone.contains(x) by {
                assert forall|y: usize, i: int|
                    gone.contains(y) && 0 <= i < m1[y].children().len() implies gone.contains(
                    #[trigger] m1[y].children()[i],
                ) by {
                    assert(!stack@.contains(m1[y].children()[i]));
                }
                lemma_closed_holds_subtree(m1, s, idx, gone, x);
            }
            assert(gone =~= d);
            lemma_cut_wf(m1, s, idx);
            lemma_subtree_live(m1, s, idx);
            assert(self.nodes().dom() =~= m1.dom().difference(d));
            vstd::set_lib::lemma_set_difference_len(m1.dom(), d);
            assert(m1.dom().intersect(d) =~= d);
        }
        removed
    }
}

/// The handles that a node owns, in its own order.
pub(crate) fn child_handles(node: NBTNode) -> (r: Vec<usize>)
    ensures
        r@ == node.children(),
{
    match node {
        NBTNode::List { type_id: _, children } => children,
        NBTNode::Compound(c) => {
            let mut out: Vec<usize> = Vec::new();
            let mut i: usize = 0;
            while i < c.len()
                invariant
                    i <= c@.len(),
                    out@.len() == i,
                    forall|k: int| 0 <= k < i ==> out@[k] == c@[k].1,
                decreases c@.len() - i,
            {
                out.push(c.handle_at(i));
                i += 1;
            }
            assert(out@ =~= node.children());
            out
        },
        _ => {
            let out: Vec<usize> = Vec::new();
            assert(out@ =~= node.children());
            out
        },
    }
}

impl Default for NBT {
    fn default() -> (r: NBT)
        ensures
            r.wf(),
            r@ == Value::Compound(Seq::empty()),
    {
        NBT::new()
    }
}

} // verus!