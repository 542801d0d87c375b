use vstd::prelude::*;
use crate::node::NBTNode;
use crate::shape::{
    anc, lemma_anc_depth, lemma_anc_live, lemma_anc_transitive, lemma_same_subtree, value_of,
    wf_down, Shape,
};

verus! {

/// The ownership link from `x` up to its container is the same in both stores.
pub open spec fn link_same(
    m1: Map<usize, NBTNode>,
    s1: Shape,
    m2: Map<usize, NBTNode>,
    s2: Shape,
    x: usize,
) -> bool {
    let p = s1.parent[x];
    &&& s2.parent[x] == p
    &&& s2.depth[x] == s1.depth[x]
    &&& s2.depth[p] == s1.depth[p]
    &&& m2.dom().contains(p)
    &&& m2[p].children().contains(x)
}

/// A chain of containers carries over to another store that has every link
/// of the chain.
pub proof fn lemma_anc_transfer(
    m1: Map<usize, NBTNode>,
    s1: Shape,
    m2: Map<usize, NBTNode>,
    s2: Shape,
    a: usize,
    n: usize,
)
    requires
        anc(m1, s1, a, n),
        forall|x: usize|
            anc(m1, s1, a, x) && anc(m1, s1, x, n) && x != a ==> #[trigger] link_same(
                m1,
                s1,
                m2,
                s2,
                x,
            ),
    ensures
        anc(m2, s2, a, n),
    decreases s1.depth[n],
{
    if a != n {
        let p = s1.parent[n];
        assert(anc(m1, s1, n, n));
        assert(link_same(m1, s1, m2, s2, n));
        assert forall|x: usize| anc(m1, s1, a, x) && anc(m1, s1, x, p) && x != a implies #[trigger] link_same(
            m1,
            s1,
            m2,
            s2,
            x,
        ) by {
            assert(anc(m1, s1, x, n));
        }
        lemma_anc_transfer(m1, s1, m2, s2, a, p);
    }
}

/// Two containers above one node are above one another.
pub proof fn lemma_chain_linear(m: Map<usize, NBTNode>, s: Shape, a: usize, b: usize, x: usize)
    requires
        anc(m, s, a, x),
        anc(m, s, b, x),
    ensures
        anc(m, s, a, b) || anc(m, s, b, a),
    decreases s.depth[x],
{
    if a == x || b == x {
    } else {
        lemma_chain_linear(m, s, a, b, s.parent[x]);
    }
}

/// How a store may differ after work at and below the node `t`: whatever is
/// not below `t` keeps its node, its links and the containers above it; `t`
/// keeps its place; and everything else in the store hangs below `t`.
pub open spec fn changed_below(
    m1: Map<usize, NBTNode>,
    s1: Shape,
    m2: Map<usize, NBTNode>,
    s2: Shape,
    t: usize,
) -> bool {
    &&& m1.dom().contains(t)
    &&& m2.dom().contains(t)
    &&& s2.depth[t] == s1.depth[t]
    &&& s2.parent[t] == s1.parent[t]
    &&& forall|n: usize|
        m1.dom().contains(n) && !anc(m1, s1, t, n) ==> #[trigger] m2.dom().contains(n) && m2[n]
            == m1[n] && s2.depth[n] == s1.depth[n] && s2.parent[n] == s1.parent[n]
    &&& forall|x: usize| #[trigger]
        m2.dom().contains(x) ==> (m1.dom().contains(x) && !anc(m1, s1, t, x)) || anc(
            m2,
            s2,
            t,
            x,
        )
    &&& forall|a: usize, n: usize|
        m1.dom().contains(n) && !anc(m1, s1, t, n) ==> (#[trigger] anc(m2, s2, a, n) <==> anc(
            m1,
            s1,
            a,
            n,
        ))
    &&& forall|a: usize| #[trigger] anc(m2, s2, a, t) <==> anc(m1, s1, a, t)
}

/// Work below a node that itself hangs below `c` is work below `c`.
pub proof fn lemma_changed_nested(
    m1: Map<usize, NBTNode>,
    s1: Shape,
    m2: Map<usize, NBTNode>,
    s2: Shape,
    m3: Map<usize, NBTNode>,
    s3: Shape,
    c: usize,
    t: usize,
)
    requires
        changed_below(m1, s1, m2, s2, c),
        changed_below(m2, s2, m3, s3, t),
        anc(m2, s2, c, t),
    ensures
        changed_below(m1, s1, m3, s3, c),
{
    // what is outside c at first is outside c, hence outside t, in the middle
    assert forall|n: usize| m1.dom().contains(n) && !anc(m1, s1, c, n) implies m2.dom().contains(
        n,
    ) && !anc(m2, s2, c, n) && !anc(m2, s2, t, n) by {
        assert(m2.dom().contains(n));
        assert(anc(m2, s2, c, n) <==> anc(m1, s1, c, n));
        if anc(m2, s2, t, n) {
            lemma_anc_transitive(m2, s2, c, t, n);
        }
    }
    assert forall|n: usize| m1.dom().contains(n) && !anc(m1, s1, c, n) implies #[trigger] m3.dom().contains(
        n,
    ) && m3[n] == m1[n] && s3.depth[n] == s1.depth[n] && s3.parent[n] == s1.parent[n] by {
        assert(m2.dom().contains(n));
    }
    assert forall|a: usize, n: usize| m1.dom().contains(n) && !anc(m1, s1, c, n) implies (
    #[trigger] anc(m3, s3, a, n) <==> anc(m1, s1, a, n)) by {
        assert(m2.dom().contains(n));
        assert(anc(m2, s2, a, n) <==> anc(m1, s1, a, n));
        assert(anc(m3, s3, a, n) <==> anc(m2, s2, a, n));
    }
    if c == t {
        assert forall|a: usize| #[trigger] anc(m3, s3, a, c) <==> anc(m1, s1, a, c) by {
            assert(anc(m2, s2, a, c) <==> anc(m1, s1, a, c));
        }
    } else {
        // c is strictly above t, hence outside what the second step touched
        lemma_anc_depth(m2, s2, c, t);
        if anc(m2, s2, t, c) {
            lemma_anc_depth(m2, s2, t, c);
        }
        assert(m3.dom().contains(c));
        assert forall|a: usize| #[trigger] anc(m3, s3, a, c) <==> anc(m1, s1, a, c) by {
            assert(anc(m2, s2, a, c) <==> anc(m1, s1, a, c));
            assert(anc(m3, s3, a, c) <==> anc(m2, s2, a, c));
        }
    }
    assert(anc(m3, s3, c, t));
    assert forall|x: usize| #[trigger] m3.dom().contains(x) implies (m1.dom().contains(x) && !anc(
        m1,
        s1,
        c,
        x,
    )) || anc(m3, s3, c, x) by {
        if anc(m3, s3, t, x) {
            lemma_anc_transitive(m3, s3, c, t, x);
        } else {
            assert(m2.dom().contains(x) && !anc(m2, s2, t, x));
            assert(anc(m3, s3, c, x) <==> anc(m2, s2, c, x));
            if !anc(m2, s2, c, x) {
                assert(m1.dom().contains(x) && !anc(m1, s1, c, x));
            }
        }
    }
}

/// Nothing has changed: that too is work below any live node.
pub proof fn lemma_changed_refl(m: Map<usize, NBTNode>, s: Shape, t: usize)
    requires
        m.dom().contains(t),
    ensures
        changed_below(m, s, m, s, t),
{
    assert(anc(m, s, t, t));
}

/// After work below `t`, a node that is neither above nor below `t` stands
/// for the same value as before.
pub proof fn lemma_frame_value(
    m1: Map<usize, NBTNode>,
    s1: Shape,
    m2: Map<usize, NBTNode>,
    s2: Shape,
    t: usize,
    n: usize,
)
    requires
        wf_down(m1, s1),
        wf_down(m2, s2),
        changed_below(m1, s1, m2, s2, t),
        m1.dom().contains(n),
        !anc(m1, s1, t, n),
        !anc(m1, s1, n, t),
    ensures
        m2.dom().contains(n),
        value_of(m2, s2, n) == value_of(m1, s1, n),
{
    assert(m2.dom().contains(n));
    assert forall|x: usize| #[trigger] anc(m1, s1, n, x) implies m2.dom().contains(x) && m2[x]
        == m1[x] by {
        lemma_anc_live(m1, s1, n, x);
        if anc(m1, s1, t, x) {
            lemma_chain_linear(m1, s1, t, n, x);
        }
        assert(m2.dom().contains(x));
    }
    lemma_same_subtree(m1, s1, m2, s2, n);
}

/// After work below `t` in a store where everything hangs below `r`,
/// everything still hangs below `r`.
pub proof fn lemma_no_leak(
    m1: Map<usize, NBTNode>,
    s1: Shape,
    m2: Map<usize, NBTNode>,
    s2: Shape,
    t: usize,
    r: usize,
)
    requires
        changed_below(m1, s1, m2, s2, t),
        forall|n: usize| m1.dom().contains(n) ==> anc(m1, s1, r, n),
    ensures
        forall|x: usize| m2.dom().contains(x) ==> anc(m2, s2, r, x),
{
    assert(anc(m2, s2, r, t) <==> anc(m1, s1, r, t));
    assert forall|x: usize| m2.dom().contains(x) implies anc(m2, s2, r, x) by {
        if m1.dom().contains(x) && !anc(m1, s1, t, x) {
            assert(anc(m2, s2, r, x) <==> anc(m1, s1, r, x));
        } else {
            lemma_anc_transitive(m2, s2, r, t, x);
        }
    }
}

} // verus!
