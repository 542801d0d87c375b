use vstd::prelude::*;
use vstd::set_lib::lemma_set_disjoint_lens;
use crate::frame::lemma_chain_linear;
use crate::node::NBTNode;
use crate::shape::{
    anc, lemma_anc_depth, lemma_anc_transitive, lemma_child_anc, lemma_compound_entries,
    lemma_list_elems, lemma_subtree_live, lemma_value_unfold, node_ok, subtree, value_of,
    wf_down, Shape,
};
use crate::tree::NBT;
use crate::value::{count_all, count_entries, node_count, Value};

verus! {

/// The nodes of the values of the first `k` children of a node, counted.
pub open spec fn kids_count(m: Map<usize, NBTNode>, s: Shape, h: usize, k: int) -> nat
    decreases k,
{
    if k <= 0 {
        0
    } else {
        kids_count(m, s, h, k - 1) + node_count(value_of(m, s, m[h].children()[k - 1]))
    }
}

/// A node with everything below its first `k` children.
pub open spec fn upto(m: Map<usize, NBTNode>, s: Shape, h: usize, k: int) -> Set<usize>
    decreases k,
{
    if k <= 0 {
        set![h]
    } else {
        upto(m, s, h, k - 1) + subtree(m, s, m[h].children()[k - 1])
    }
}

/// What hangs below a node and is not the node hangs below one of its
/// children.
pub proof fn lemma_below_a_child(m: Map<usize, NBTNode>, s: Shape, h: usize, x: usize)
    requires
        anc(m, s, h, x),
        x != h,
    ensures
        exists|i: int| 0 <= i < m[h].children().len() && anc(m, s, #[trigger] m[h].children()[i], x),
    decreases s.depth[x],
{
    let p = s.parent[x];
    if p == h {
        let i = choose|i: int| 0 <= i < m[h].children().len() && m[h].children()[i] == x;
        assert(anc(m, s, m[h].children()[i], x));
    } else {
        lemma_below_a_child(m, s, h, p);
        let i = choose|i: int|
            0 <= i < m[h].children().len() && anc(m, s, #[trigger] m[h].children()[i], p);
        assert(anc(m, s, m[h].children()[i], x));
    }
}

/// What is in `upto` hangs below the node.
pub proof fn lemma_upto_below(m: Map<usize, NBTNode>, s: Shape, h: usize, k: int, x: usize)
    requires
        wf_down(m, s),
        m.dom().contains(h),
        0 <= k <= m[h].children().len(),
        upto(m, s, h, k).contains(x),
    ensures
        anc(m, s, h, x),
        x == h || exists|i: int| 0 <= i < k && anc(m, s, #[trigger] m[h].children()[i], x),
    decreases k,
{
    if k > 0 {
        let c = m[h].children()[k - 1];
        if subtree(m, s, c).contains(x) {
            lemma_child_anc(m, s, h, k - 1);
            lemma_anc_transitive(m, s, h, c, x);
        } else {
            lemma_upto_below(m, s, h, k - 1, x);
        }
    }
}

/// The subtree of a live node has as many nodes as the node's value, and so
/// has the node with what hangs below its first `k` children.
pub proof fn lemma_subtree_count(m: Map<usize, NBTNode>, s: Shape, h: usize)
    requires
        wf_down(m, s),
        m.dom().finite(),
        m.dom().contains(h),
    ensures
        subtree(m, s, h).finite(),
        subtree(m, s, h).len() == node_count(value_of(m, s, h)),
    decreases s.bound - s.depth[h], m[h].children().len() + 1,
{
    let cs = m[h].children();
    let n = cs.len() as int;
    assert(node_ok(m, s, h));
    lemma_upto_count(m, s, h, n);
    // everything below the node is in the last of the sets
    assert forall|x: usize| subtree(m, s, h).contains(x) implies upto(m, s, h, n).contains(x) by {
        if x != h {
            lemma_below_a_child(m, s, h, x);
            let i = choose|i: int| 0 <= i < n && anc(m, s, #[trigger] cs[i], x);
            lemma_upto_grows(m, s, h, i + 1, n, x);
        } else {
            lemma_upto_holds_node(m, s, h, n);
        }
    }
    assert forall|x: usize| upto(m, s, h, n).contains(x) implies subtree(m, s, h).contains(x) by {
        lemma_upto_below(m, s, h, n, x);
    }
    assert(subtree(m, s, h) =~= upto(m, s, h, n));
    // the value counts the same nodes
    lemma_value_unfold(m, s, h);
    match m[h] {
        NBTNode::List { type_id, children } => {
            lemma_list_elems(m, s, h);
            let vals = value_of(m, s, h)->List_1;
            lemma_count_all(m, s, h, vals, n);
            assert(vals.take(n) =~= vals);
        },
        NBTNode::Compound(c) => {
            lemma_compound_entries(m, s, h);
            let vals = value_of(m, s, h)->Compound_0;
            assert forall|i: int| 0 <= i < n implies (#[trigger] vals[i]).1 == value_of(
                m,
                s,
                cs[i],
            ) by {
                assert(cs[i] == c@[i].1);
            }
            lemma_count_entries(m, s, h, vals, n);
            assert(vals.take(n) =~= vals);
        },
        _ => {
            assert(n == 0);
        },
    }
}

/// The node itself is among what `upto` gathers.
pub proof fn lemma_upto_holds_node(m: Map<usize, NBTNode>, s: Shape, h: usize, k: int)
    ensures
        upto(m, s, h, k).contains(h),
    decreases k,
{
    if k > 0 {
        lemma_upto_holds_node(m, s, h, k - 1);
    }
}

/// What hangs below one of the first children is among what `upto` gathers for more children.
pub proof fn lemma_upto_grows(m: Map<usize, NBTNode>, s: Shape, h: usize, k: int, n: int, x: usize)
    requires
        1 <= k <= n,
        anc(m, s, m[h].children()[k - 1], x),
    ensures
        upto(m, s, h, n).contains(x),
    decreases n - k,
{
    if k < n {
        lemma_upto_grows(m, s, h, k, n - 1, x);
    }
}

/// The node with what hangs below its first `k` children: as many nodes as
/// the values of those children count, and one.
pub proof fn lemma_upto_count(m: Map<usize, NBTNode>, s: Shape, h: usize, k: int)
    requires
        wf_down(m, s),
        m.dom().finite(),
        m.dom().contains(h),
        0 <= k <= m[h].children().len(),
    ensures
        upto(m, s, h, k).finite(),
        upto(m, s, h, k).len() == 1 + kids_count(m, s, h, k),
    decreases s.bound - s.depth[h], k,
{
    let cs = m[h].children();
    assert(node_ok(m, s, h));
    if k > 0 {
        let c = cs[k - 1];
        lemma_child_anc(m, s, h, k - 1);
        assert(node_ok(m, s, c));
        lemma_upto_count(m, s, h, k - 1);
        lemma_subtree_count(m, s, c);
        let a = upto(m, s, h, k - 1);
        let b = subtree(m, s, c);
        assert(a.disjoint(b)) by {
            assert forall|x: usize| a.contains(x) && b.contains(x) implies false by {
                lemma_upto_below(m, s, h, k - 1, x);
                if x == h {
                    lemma_anc_depth(m, s, c, h);
                } else {
                    let i = choose|i: int| 0 <= i < k - 1 && anc(m, s, #[trigger] cs[i], x);
                    lemma_child_anc(m, s, h, i);
                    lemma_chain_linear(m, s, cs[i], c, x);
                    if anc(m, s, cs[i], c) {
                        lemma_anc_depth(m, s, cs[i], c);
                    } else {
                        lemma_anc_depth(m, s, c, cs[i]);
                    }
                }
            }
        }
        lemma_set_disjoint_lens(a, b);
    }
}

/// The values of the first elements of a list count as many nodes as `kids_count` says.
pub proof fn lemma_count_all(m: Map<usize, NBTNode>, s: Shape, h: usize, vals: Seq<Value>, k: int)
    requires
        0 <= k <= vals.len(),
        vals.len() == m[h].children().len(),
        forall|i: int| 0 <= i < vals.len() ==> #[trigger] vals[i] == value_of(m, s, m[h].children()[i]),
    ensures
        count_all(vals.take(k)) == kids_count(m, s, h, k),
    decreases k,
{
    if k > 0 {
        lemma_count_all(m, s, h, vals, k - 1);
        assert(vals.take(k).drop_last() =~= vals.take(k - 1));
        assert(vals.take(k).last() == vals[k - 1]);
    }
}

/// The values of the first entries of a compound count as many nodes as `kids_count` says.
pub proof fn lemma_count_entries(
    m: Map<usize, NBTNode>,
    s: Shape,
    h: usize,
    vals: Seq<(Seq<char>, Value)>,
    k: int,
)
    requires
        0 <= k <= vals.len(),
        vals.len() == m[h].children().len(),
        forall|i: int|
            0 <= i < vals.len() ==> (#[trigger] vals[i]).1 == value_of(m, s, m[h].children()[i]),
    ensures
        count_entries(vals.take(k)) == kids_count(m, s, h, k),
    decreases k,
{
    if k > 0 {
        lemma_count_entries(m, s, h, vals, k - 1);
        assert(vals.take(k).drop_last() =~= vals.take(k - 1));
        assert(vals.take(k).last() == vals[k - 1]);
    }
}

impl NBT {
    /// What hangs below a live node, the node included, is as many nodes as
    /// the node's value counts.
    pub proof fn law_subtree_count(&self, h: usize)
        requires
            self.wf(),
            self.live(h),
        ensures
            self.subtree_of(h).finite(),
            self.subtree_of(h).len() == node_count(self.value_at(h)),
    {
        lemma_subtree_count(self.nodes(), self.shape(), h);
    }

    /// The arena holds no node but those of the tree: as many as the tree's
    /// value counts.
    pub proof fn law_no_leak(&self)
        requires
            self.wf(),
        ensures
            self.count() == node_count(self@),
    {
        let m = self.nodes();
        let s = self.shape();
        lemma_subtree_count(m, s, self.root());
        lemma_subtree_live(m, s, self.root());
        assert forall|n: usize| m.dom().contains(n) implies subtree(m, s, self.root()).contains(
            n,
        ) by {
            assert(self.below(self.root(), n));
        }
        assert(m.dom() =~= subtree(m, s, self.root()));
    }
}

} // verus!
