use vstd::prelude::*;
use crate::entries::{
    entry_find, entry_insert, has_key, lemma_rank_by_keys, lemma_rank_splits, rank,
};
use crate::value::Value;
use crate::frame::{
    changed_below, lemma_anc_transfer, lemma_chain_linear, lemma_frame_value, link_same,
};
use crate::node::NBTNode;
use crate::shape::{
    anc, kind_ok, lemma_anc_depth, lemma_anc_live, lemma_anc_transitive, lemma_child_anc,
    lemma_compound_entries, lemma_leaf_value, lemma_list_elems, lemma_same_subtree, node_ok,
    subtree, value_of, wf_down, Shape,
};

verus! {

/// The links after a fresh node `c` has been hung below `t`.
pub open spec fn attach_shape(s: Shape, t: usize, c: usize) -> Shape {
    Shape {
        parent: s.parent.insert(c, t),
        depth: s.depth.insert(c, s.depth[t] + 1),
        bound: if s.depth[t] + 1 > s.bound {
            s.depth[t] + 1
        } else {
            s.bound
        },
    }
}

/// The second store is the first with a fresh childless node `c` added, and
/// with `c` put among the children of `t` at position `pos`.
pub open spec fn attached(
    m1: Map<usize, NBTNode>,
    m2: Map<usize, NBTNode>,
    t: usize,
    c: usize,
    pos: int,
) -> bool {
    &&& m1.dom().contains(t)
    &&& !m1.dom().contains(c)
    &&& m2.dom() == m1.dom().insert(c)
    &&& forall|n: usize| m1.dom().contains(n) && n != t ==> #[trigger] m2[n] == m1[n]
    &&& m2[c].children().len() == 0
    &&& m2[t].tag() == m1[t].tag()
    &&& 0 <= pos <= m1[t].children().len()
    &&& m2[t].children() == m1[t].children().insert(pos, c)
    &&& kind_ok(m2, t)
    &&& kind_ok(m2, c)
}

/// Nothing hangs below a node without children but the node itself.
pub proof fn lemma_leaf_alone(m: Map<usize, NBTNode>, s: Shape, c: usize, n: usize)
    requires
        m[c].children().len() == 0,
        anc(m, s, c, n),
    ensures
        n == c,
    decreases s.depth[n],
{
    if n != c {
        lemma_leaf_alone(m, s, c, s.parent[n]);
    }
}

/// Hanging a fresh node below `t` keeps the store in order, and is work below
/// `t`.
pub proof fn lemma_attach(
    m1: Map<usize, NBTNode>,
    s1: Shape,
    m2: Map<usize, NBTNode>,
    t: usize,
    c: usize,
    pos: int,
)
    requires
        wf_down(m1, s1),
        attached(m1, m2, t, c, pos),
    ensures
        wf_down(m2, attach_shape(s1, t, c)),
        changed_below(m1, s1, m2, attach_shape(s1, t, c), t),
        anc(m2, attach_shape(s1, t, c), t, c),
{
    let s2 = attach_shape(s1, t, c);
    let cs1 = m1[t].children();
    let cs2 = m2[t].children();
    assert(node_ok(m1, s1, t));
    assert forall|n: usize| m2.dom().contains(n) implies #[trigger] node_ok(m2, s2, n) by {
        if n == c {
        } else if n == t {
            assert forall|i: int| 0 <= i < cs2.len() implies m2.dom().contains(#[trigger] cs2[i])
                && s2.parent[cs2[i]] == t && s2.depth[cs2[i]] == s2.depth[t] + 1 by {
                if i < pos {
                    assert(cs2[i] == cs1[i]);
                } else if i > pos {
                    assert(cs2[i] == cs1[i - 1]);
                }
            }
            assert forall|i: int, j: int| 0 <= i < j < cs2.len() implies #[trigger] cs2[i]
                != #[trigger] cs2[j] by {
                let i0 = if i < pos { i } else { i - 1 };
                let j0 = if j < pos { j } else { j - 1 };
                if i != pos {
                    assert(cs2[i] == cs1[i0]);
                }
                if j != pos {
                    assert(cs2[j] == cs1[j0]);
                }
            }
        } else {
            assert(node_ok(m1, s1, n));
            assert(m2[n] == m1[n]);
            let cs = m1[n].children();
            assert forall|i: int| 0 <= i < cs.len() implies m2.dom().contains(#[trigger] cs[i])
                && s2.parent[cs[i]] == n && s2.depth[cs[i]] == s2.depth[n] + 1 by {
                assert(m1.dom().contains(cs[i]));
            }
            match m1[n] {
                NBTNode::List { type_id, children } => {
                    assert forall|i: int| 0 <= i < children@.len() implies m2[#[trigger] children@[i]].tag()
                        == type_id.0 by {
                        assert(cs[i] == children@[i]);
                        assert(m1.dom().contains(cs[i]));
                        let ch = children@[i];
                        if ch != t {
                            assert(m2[ch] == m1[ch]);
                        }
                    }
                },
                _ => {},
            }
        }
    }
    assert(cs2[pos] == c);
    assert(cs2.contains(c));
    assert(anc(m2, s2, t, t));
    assert(anc(m2, s2, t, c));
    // the containers above an old node are the same before and after
    assert forall|a: usize, n: usize| m1.dom().contains(n) implies (#[trigger] anc(m2, s2, a, n)
        <==> anc(m1, s1, a, n)) by {
        if anc(m1, s1, a, n) {
            assert forall|y: usize| anc(m1, s1, a, y) && anc(m1, s1, y, n) && y != a implies #[trigger] link_same(
                m1,
                s1,
                m2,
                s2,
                y,
            ) by {
                let p = s1.parent[y];
                assert(node_ok(m1, s1, p));
                let i = choose|i: int| 0 <= i < m1[p].children().len() && m1[p].children()[i] == y;
                assert(m1.dom().contains(m1[p].children()[i]));
                if p == t {
                    let i2 = if i < pos { i } else { i + 1 };
                    assert(cs2[i2] == y);
                } else {
                    assert(m2[p] == m1[p]);
                }
            }
            lemma_anc_transfer(m1, s1, m2, s2, a, n);
        }
        if anc(m2, s2, a, n) {
            assert forall|y: usize| anc(m2, s2, a, y) && anc(m2, s2, y, n) && y != a implies #[trigger] link_same(
                m2,
                s2,
                m1,
                s1,
                y,
            ) by {
                if y == c {
                    lemma_leaf_alone(m2, s2, c, n);
                }
                let p = s2.parent[y];
                if p == c {
                    assert(m2[c].children().contains(y));
                }
                let i = choose|i: int| 0 <= i < m2[p].children().len() && m2[p].children()[i] == y;
                if p == t {
                    let i1 = if i < pos { i } else { i - 1 };
                    assert(cs1[i1] == y);
                } else {
                    assert(m2[p] == m1[p]);
                }
            }
            lemma_anc_transfer(m2, s2, m1, s1, a, n);
        }
    }
    assert forall|x: usize| #[trigger] m2.dom().contains(x) implies (m1.dom().contains(x) && !anc(
        m1,
        s1,
        t,
        x,
    )) || anc(m2, s2, t, x) by {
        if x != c {
            assert(anc(m2, s2, t, x) <==> anc(m1, s1, t, x));
        }
    }
    assert forall|n: usize| m1.dom().contains(n) && !anc(m1, s1, t, n) implies #[trigger] m2.dom().contains(
        n,
    ) && m2[n] == m1[n] && s2.depth[n] == s1.depth[n] && s2.parent[n] == s1.parent[n] by {
        assert(anc(m1, s1, t, t));
    }
    assert forall|a: usize| #[trigger] anc(m2, s2, a, t) <==> anc(m1, s1, a, t) by {}
}

/// The second store is the first with the child at position `pos` taken out
/// of the children of `t`; the child's own node is still there.
pub open spec fn detached(
    m1: Map<usize, NBTNode>,
    m2: Map<usize, NBTNode>,
    t: usize,
    pos: int,
) -> bool {
    &&& m1.dom().contains(t)
    &&& m2.dom() == m1.dom()
    &&& forall|n: usize| m1.dom().contains(n) && n != t ==> #[trigger] m2[n] == m1[n]
    &&& m2[t].tag() == m1[t].tag()
    &&& 0 <= pos < m1[t].children().len()
    &&& m2[t].children() == m1[t].children().remove(pos)
    &&& kind_ok(m2, t)
}

/// After a child has been taken out of its container, the store is still in
/// order from every node downwards, and no node owns the child any more.
pub proof fn lemma_detach(
    m1: Map<usize, NBTNode>,
    s: Shape,
    m2: Map<usize, NBTNode>,
    t: usize,
    pos: int,
)
    requires
        wf_down(m1, s),
        detached(m1, m2, t, pos),
    ensures
        wf_down(m2, s),
        m2.dom().contains(m1[t].children()[pos]),
        forall|n: usize|
            m2.dom().contains(n) ==> !(#[trigger] m2[n]).children().contains(
                m1[t].children()[pos],
            ),
{
    let cs1 = m1[t].children();
    let cs2 = m2[t].children();
    let child = cs1[pos];
    assert(node_ok(m1, s, t));
    assert forall|n: usize| m2.dom().contains(n) implies #[trigger] node_ok(m2, s, n) by {
        assert(node_ok(m1, s, n));
        if n == t {
            assert forall|i: int| 0 <= i < cs2.len() implies m2.dom().contains(#[trigger] cs2[i])
                && s.parent[cs2[i]] == t && s.depth[cs2[i]] == s.depth[t] + 1 by {
                let i1 = if i < pos { i } else { i + 1 };
                assert(cs2[i] == cs1[i1]);
            }
            assert forall|i: int, j: int| 0 <= i < j < cs2.len() implies #[trigger] cs2[i]
                != #[trigger] cs2[j] by {
                let i1 = if i < pos { i } else { i + 1 };
                let j1 = if j < pos { j } else { j + 1 };
                assert(cs2[i] == cs1[i1]);
                assert(cs2[j] == cs1[j1]);
            }
        } else {
            assert(m2[n] == m1[n]);
            let cs = m1[n].children();
            match m1[n] {
                NBTNode::List { type_id, children } => {
                    assert forall|i: int| 0 <= i < children@.len() implies m2[#[trigger] children@[i]].tag()
                        == type_id.0 by {
                        assert(cs[i] == children@[i]);
                        assert(m1.dom().contains(cs[i]));
                        let ch = children@[i];
                        if ch != t {
                            assert(m2[ch] == m1[ch]);
                        }
                    }
                },
                _ => {},
            }
        }
    }
    assert forall|n: usize| m2.dom().contains(n) implies !(#[trigger] m2[n]).children().contains(
        child,
    ) by {
        if m2[n].children().contains(child) {
            let i = choose|i: int| 0 <= i < m2[n].children().len() && m2[n].children()[i] == child;
            if n == t {
                let i1 = if i < pos { i } else { i + 1 };
                assert(cs2[i] == cs1[i1]);
            } else {
                assert(m2[n] == m1[n]);
                assert(node_ok(m1, s, n));
                assert(s.parent[m1[n].children()[i]] == n);
            }
        }
    }
}

/// Taking a child out of `t` and then removing the child with everything
/// below it is work below `t`.
pub proof fn lemma_cut_changed(
    m1: Map<usize, NBTNode>,
    s: Shape,
    mm: Map<usize, NBTNode>,
    m2: Map<usize, NBTNode>,
    t: usize,
    pos: int,
)
    requires
        wf_down(m1, s),
        detached(m1, mm, t, pos),
        m2 == mm.remove_keys(subtree(mm, s, m1[t].children()[pos])),
    ensures
        changed_below(m1, s, m2, s, t),
        subtree(mm, s, m1[t].children()[pos]) == subtree(m1, s, m1[t].children()[pos]),
{
    let cs1 = m1[t].children();
    let cs2 = mm[t].children();
    let child = cs1[pos];
    let gone = subtree(mm, s, child);
    assert(node_ok(m1, s, t));
    assert(cs1.contains(child));
    assert(anc(m1, s, t, t));
    assert(anc(m1, s, t, child));
    // every link of the middle store is a link of the first
    assert forall|a: usize, x: usize| #[trigger] anc(mm, s, a, x) implies anc(m1, s, a, x) by {
        assert forall|y: usize| anc(mm, s, a, y) && anc(mm, s, y, x) && y != a implies #[trigger] link_same(
            mm,
            s,
            m1,
            s,
            y,
        ) by {
            let p = s.parent[y];
            if p == t {
                let i = choose|i: int| 0 <= i < cs2.len() && cs2[i] == y;
                let i1 = if i < pos { i } else { i + 1 };
                assert(cs1[i1] == y);
            } else {
                assert(mm[p] == m1[p]);
            }
        }
        lemma_anc_transfer(mm, s, m1, s, a, x);
    }
    // below the child nothing has changed
    assert forall|x: usize| #[trigger] anc(m1, s, child, x) implies anc(mm, s, child, x) by {
        assert forall|y: usize| anc(m1, s, child, y) && anc(m1, s, y, x) && y != child implies #[trigger] link_same(
            m1,
            s,
            mm,
            s,
            y,
        ) by {
            let p = s.parent[y];
            lemma_anc_depth(m1, s, child, y);
            assert(p != t);
            assert(mm[p] == m1[p]);
        }
        lemma_anc_transfer(m1, s, mm, s, child, x);
    }
    assert(gone =~= subtree(m1, s, child));
    // a chain that ends outside what was removed lies outside it, and survives
    assert forall|a: usize, n: usize|
        m1.dom().contains(n) && !anc(m1, s, child, n) && anc(m1, s, a, n) implies #[trigger] anc(
        m2,
        s,
        a,
        n,
    ) by {
        assert forall|y: usize| anc(m1, s, a, y) && anc(m1, s, y, n) && y != a implies #[trigger] link_same(
            m1,
            s,
            m2,
            s,
            y,
        ) by {
            let p = s.parent[y];
            if anc(m1, s, child, p) {
                assert(anc(m1, s, child, y));
                lemma_anc_transitive(m1, s, child, y, n);
            }
            assert(!gone.contains(p));
            if anc(m1, s, child, y) {
                lemma_anc_transitive(m1, s, child, y, n);
            }
            if p == t {
                let i = choose|i: int| 0 <= i < cs1.len() && cs1[i] == y;
                assert(y != child);
                let i2 = if i < pos { i } else { i - 1 };
                assert(cs2[i2] == y);
            } else {
                assert(mm[p] == m1[p]);
            }
        }
        lemma_anc_transfer(m1, s, m2, s, a, n);
    }
    assert forall|a: usize, x: usize| #[trigger] anc(m2, s, a, x) implies anc(m1, s, a, x) by {
        assert forall|y: usize| anc(m2, s, a, y) && anc(m2, s, y, x) && y != a implies #[trigger] link_same(
            m2,
            s,
            mm,
            s,
            y,
        ) by {}
        lemma_anc_transfer(m2, s, mm, s, a, x);
    }
    assert forall|n: usize| m1.dom().contains(n) && !anc(m1, s, t, n) implies #[trigger] m2.dom().contains(
        n,
    ) && m2[n] == m1[n] by {
        if anc(m1, s, child, n) {
            lemma_anc_transitive(m1, s, t, child, n);
        }
    }
    assert forall|a: usize, n: usize| m1.dom().contains(n) && !anc(m1, s, t, n) implies (
    #[trigger] anc(m2, s, a, n) <==> anc(m1, s, a, n)) by {
        if anc(m1, s, child, n) {
            lemma_anc_transitive(m1, s, t, child, n);
        }
    }
    assert forall|a: usize| #[trigger] anc(m2, s, a, t) <==> anc(m1, s, a, t) by {
        if anc(m1, s, child, t) {
            lemma_anc_depth(m1, s, child, t);
        }
    }
    assert(m2.dom().contains(t)) by {
        if anc(m1, s, child, t) {
            lemma_anc_depth(m1, s, child, t);
        }
    }
    assert forall|x: usize| #[trigger] m2.dom().contains(x) implies (m1.dom().contains(x) && !anc(
        m1,
        s,
        t,
        x,
    )) || anc(m2, s, t, x) by {
        if anc(m1, s, t, x) {
            assert(!anc(m1, s, child, x));
        }
    }
}

/// A child of `t` stands for the same value after a change that left alone
/// every node but `t` and whatever hung below the child at position `j` (no
/// child at all where `j` is negative).
pub proof fn lemma_sibling_kept(
    m1: Map<usize, NBTNode>,
    s1: Shape,
    m2: Map<usize, NBTNode>,
    s2: Shape,
    t: usize,
    i: int,
    j: int,
)
    requires
        wf_down(m1, s1),
        wf_down(m2, s2),
        m1.dom().contains(t),
        0 <= i < m1[t].children().len(),
        j < m1[t].children().len(),
        i != j,
        forall|n: usize|
            m1.dom().contains(n) && n != t && !(j >= 0 && anc(m1, s1, m1[t].children()[j], n))
                ==> #[trigger] m2.dom().contains(n) && m2[n] == m1[n],
    ensures
        value_of(m2, s2, m1[t].children()[i]) == value_of(m1, s1, m1[t].children()[i]),
{
    let cs = m1[t].children();
    let sib = cs[i];
    assert(node_ok(m1, s1, t));
    lemma_child_anc(m1, s1, t, i);
    assert forall|x: usize| #[trigger] anc(m1, s1, sib, x) implies m2.dom().contains(x) && m2[x]
        == m1[x] by {
        lemma_anc_live(m1, s1, sib, x);
        lemma_anc_depth(m1, s1, sib, x);
        if j >= 0 && anc(m1, s1, cs[j], x) {
            lemma_child_anc(m1, s1, t, j);
            lemma_chain_linear(m1, s1, sib, cs[j], x);
            if anc(m1, s1, sib, cs[j]) {
                lemma_anc_depth(m1, s1, sib, cs[j]);
            } else {
                lemma_anc_depth(m1, s1, cs[j], sib);
            }
        }
        assert(m2.dom().contains(x));
    }
    lemma_same_subtree(m1, s1, m2, s2, sib);
}

/// The value of a compound after a fresh childless node has been stored in it
/// under a name that it did not have.
pub proof fn lemma_attach_compound_value(
    m1: Map<usize, NBTNode>,
    s1: Shape,
    m2: Map<usize, NBTNode>,
    s2: Shape,
    h: usize,
    c: usize,
    key: Seq<char>,
)
    requires
        wf_down(m1, s1),
        wf_down(m2, s2),
        m1[h] is Compound,
        m2[h] is Compound,
        attached(m1, m2, h, c, rank(m1[h]->Compound_0@, key)),
        !has_key(m1[h]->Compound_0@, key),
        m2[h]->Compound_0@ == m1[h]->Compound_0@.insert(rank(m1[h]->Compound_0@, key), (key, c)),
    ensures
        value_of(m2, s2, c) == m2[c].leaf_value(),
        value_of(m2, s2, h) == Value::Compound(
            entry_insert(value_of(m1, s1, h)->Compound_0, key, m2[c].leaf_value()),
        ),
{
    let c1 = m1[h]->Compound_0;
    let c2 = m2[h]->Compound_0;
    let pos = rank(c1@, key);
    lemma_leaf_value(m2, s2, c);
    let v1 = value_of(m1, s1, h)->Compound_0;
    let v2 = value_of(m2, s2, h)->Compound_0;
    lemma_compound_entries(m1, s1, h);
    lemma_compound_entries(m2, s2, h);
    lemma_rank_by_keys(v1, c1@, key);
    let want = v1.insert(pos, (key, m2[c].leaf_value()));
    assert forall|i: int| 0 <= i < v2.len() implies v2[i] == want[i] by {
        if i != pos {
            let i1 = if i < pos { i } else { i - 1 };
            assert(c2@[i] == c1@[i1]);
            assert(m1[h].children()[i1] == c1@[i1].1);
            lemma_sibling_kept(m1, s1, m2, s2, h, i1, -1);
        }
    }
    assert(v2 =~= want);
}

/// The value of a list after a fresh childless node has been put at its end.
pub proof fn lemma_attach_list_value(
    m1: Map<usize, NBTNode>,
    s1: Shape,
    m2: Map<usize, NBTNode>,
    s2: Shape,
    h: usize,
    c: usize,
)
    requires
        wf_down(m1, s1),
        wf_down(m2, s2),
        m1[h] is List,
        m2[h] is List,
        attached(m1, m2, h, c, m1[h].children().len() as int),
    ensures
        value_of(m2, s2, c) == m2[c].leaf_value(),
        value_of(m2, s2, h) == Value::List(
            m2[h]->type_id.0,
            value_of(m1, s1, h)->List_1.push(m2[c].leaf_value()),
        ),
{
    let n = m1[h].children().len() as int;
    lemma_leaf_value(m2, s2, c);
    let v1 = value_of(m1, s1, h)->List_1;
    let v2 = value_of(m2, s2, h)->List_1;
    lemma_list_elems(m1, s1, h);
    lemma_list_elems(m2, s2, h);
    let want = v1.push(m2[c].leaf_value());
    assert(m2[h].children()[n] == c);
    assert forall|i: int| 0 <= i < v2.len() implies v2[i] == want[i] by {
        if i != n {
            assert(m2[h].children()[i] == m1[h].children()[i]);
            lemma_sibling_kept(m1, s1, m2, s2, h, i, -1);
        }
    }
    assert(v2 =~= want);
}

/// After work below a child of the compound `h`, the compound stands for
/// what it stood for with the child's new value stored under the child's name.
pub proof fn lemma_refilled_compound(
    m1: Map<usize, NBTNode>,
    s1: Shape,
    m2: Map<usize, NBTNode>,
    s2: Shape,
    h: usize,
    c: usize,
    key: Seq<char>,
)
    requires
        wf_down(m1, s1),
        wf_down(m2, s2),
        changed_below(m1, s1, m2, s2, c),
        m1.dom().contains(h),
        m1[h] is Compound,
        entry_find(m1[h]->Compound_0@, key) == Some(c),
    ensures
        m2.dom().contains(h),
        m2[h] == m1[h],
        value_of(m2, s2, h) == Value::Compound(
            entry_insert(value_of(m1, s1, h)->Compound_0, key, value_of(m2, s2, c)),
        ),
{
    let c1 = m1[h]->Compound_0;
    let p = rank(c1@, key);
    assert(node_ok(m1, s1, h));
    lemma_rank_splits(c1@, key);
    assert(m1[h].children()[p] == c);
    lemma_child_anc(m1, s1, h, p);
    if anc(m1, s1, c, h) {
        lemma_anc_depth(m1, s1, c, h);
    }
    assert(m2.dom().contains(h));
    let v1 = value_of(m1, s1, h)->Compound_0;
    let v2 = value_of(m2, s2, h)->Compound_0;
    lemma_compound_entries(m1, s1, h);
    lemma_compound_entries(m2, s2, h);
    lemma_rank_by_keys(v1, c1@, key);
    let want = v1.update(p, (key, value_of(m2, s2, c)));
    assert forall|i: int| 0 <= i < v2.len() implies v2[i] == want[i] by {
        if i != p {
            let sib = c1@[i].1;
            assert(m1[h].children()[i] == sib);
            lemma_child_anc(m1, s1, h, i);
            if anc(m1, s1, c, sib) {
                lemma_anc_depth(m1, s1, c, sib);
            }
            if anc(m1, s1, sib, c) {
                lemma_anc_depth(m1, s1, sib, c);
            }
            lemma_frame_value(m1, s1, m2, s2, c, sib);
        }
    }
    assert(v2 =~= want);
}

/// After work below the last element of the list `h`, the list stands for
/// what it stood for with the element's new value in the last place.
pub proof fn lemma_refilled_list(
    m1: Map<usize, NBTNode>,
    s1: Shape,
    m2: Map<usize, NBTNode>,
    s2: Shape,
    h: usize,
    c: usize,
)
    requires
        wf_down(m1, s1),
        wf_down(m2, s2),
        changed_below(m1, s1, m2, s2, c),
        m1.dom().contains(h),
        m1[h] is List,
        m1[h]->children@.len() > 0,
        m1[h]->children@.last() == c,
    ensures
        m2.dom().contains(h),
        m2[h] == m1[h],
        value_of(m2, s2, h) == Value::List(
            m1[h]->type_id.0,
            value_of(m1, s1, h)->List_1.drop_last().push(value_of(m2, s2, c)),
        ),
{
    let cs = m1[h]->children@;
    let p = cs.len() - 1;
    assert(node_ok(m1, s1, h));
    assert(m1[h].children()[p] == c);
    lemma_child_anc(m1, s1, h, p);
    if anc(m1, s1, c, h) {
        lemma_anc_depth(m1, s1, c, h);
    }
    assert(m2.dom().contains(h));
    let v1 = value_of(m1, s1, h)->List_1;
    let v2 = value_of(m2, s2, h)->List_1;
    lemma_list_elems(m1, s1, h);
    lemma_list_elems(m2, s2, h);
    let want = v1.drop_last().push(value_of(m2, s2, c));
    assert forall|i: int| 0 <= i < v2.len() implies v2[i] == want[i] by {
        if i != p {
            let sib = cs[i];
            assert(m1[h].children()[i] == sib);
            lemma_child_anc(m1, s1, h, i);
            if anc(m1, s1, c, sib) {
                lemma_anc_depth(m1, s1, c, sib);
            }
            if anc(m1, s1, sib, c) {
                lemma_anc_depth(m1, s1, sib, c);
            }
            lemma_frame_value(m1, s1, m2, s2, c, sib);
        }
    }
    assert(v2 =~= want);
}

/// The value of a list after a fresh childless node has been put into it at
/// a position.
pub proof fn lemma_attach_list_value_at(
    m1: Map<usize, NBTNode>,
    s1: Shape,
    m2: Map<usize, NBTNode>,
    s2: Shape,
    h: usize,
    c: usize,
    pos: int,
)
    requires
        wf_down(m1, s1),
        wf_down(m2, s2),
        m1[h] is List,
        m2[h] is List,
        attached(m1, m2, h, c, pos),
    ensures
        value_of(m2, s2, c) == m2[c].leaf_value(),
        value_of(m2, s2, h) == Value::List(
            m2[h]->type_id.0,
            value_of(m1, s1, h)->List_1.insert(pos, m2[c].leaf_value()),
        ),
{
    lemma_leaf_value(m2, s2, c);
    let v1 = value_of(m1, s1, h)->List_1;
    let v2 = value_of(m2, s2, h)->List_1;
    lemma_list_elems(m1, s1, h);
    lemma_list_elems(m2, s2, h);
    let want = v1.insert(pos, m2[c].leaf_value());
    assert(m2[h].children()[pos] == c);
    assert forall|i: int| 0 <= i < v2.len() implies v2[i] == want[i] by {
        if i != pos {
            let i1 = if i < pos { i } else { i - 1 };
            assert(m2[h].children()[i] == m1[h].children()[i1]);
            lemma_sibling_kept(m1, s1, m2, s2, h, i1, -1);
        }
    }
    assert(v2 =~= want);
}

/// The value of a list after the element at a position has been removed with
/// everything below it.
pub proof fn lemma_cut_list_value(
    m1: Map<usize, NBTNode>,
    s: Shape,
    mm: Map<usize, NBTNode>,
    m2: Map<usize, NBTNode>,
    h: usize,
    pos: int,
)
    requires
        wf_down(m1, s),
        wf_down(m2, s),
        m1[h] is List,
        mm[h] is List,
        detached(m1, mm, h, pos),
        m2 == mm.remove_keys(subtree(m1, s, m1[h].children()[pos])),
        m2.dom().contains(h),
    ensures
        value_of(m2, s, h) == Value::List(
            mm[h]->type_id.0,
            value_of(m1, s, h)->List_1.remove(pos),
        ),
{
    let v1 = value_of(m1, s, h)->List_1;
    let v2 = value_of(m2, s, h)->List_1;
    lemma_list_elems(m1, s, h);
    lemma_list_elems(m2, s, h);
    let want = v1.remove(pos);
    assert forall|i: int| 0 <= i < v2.len() implies v2[i] == want[i] by {
        let i1 = if i < pos { i } else { i + 1 };
        assert(m2[h].children()[i] == m1[h].children()[i1]);
        lemma_sibling_kept(m1, s, m2, s, h, i1, pos);
    }
    assert(v2 =~= want);
}

/// Putting another node of the same kind, again without children, in the
/// place of a node without children keeps the store in order, is work below
/// that node, and gives the node the new payload as its value.
pub proof fn lemma_relabel(
    m1: Map<usize, NBTNode>,
    s: Shape,
    m2: Map<usize, NBTNode>,
    h: usize,
)
    requires
        wf_down(m1, s),
        m1.dom().contains(h),
        m2 == m1.insert(h, m2[h]),
        m1[h].children().len() == 0,
        m2[h].children().len() == 0,
        m2[h].tag() == m1[h].tag(),
    ensures
        wf_down(m2, s),
        changed_below(m1, s, m2, s, h),
        value_of(m2, s, h) == m2[h].leaf_value(),
{
    assert forall|n: usize| m2.dom().contains(n) implies #[trigger] node_ok(m2, s, n) by {
        assert(node_ok(m1, s, n));
        if n == h {
            if m2[h] is Compound {
                assert(m2[h]->Compound_0@.len() == m2[h].children().len());
            }
        } else {
            let cs = m1[n].children();
            match m1[n] {
                NBTNode::List { type_id, children } => {
                    assert forall|i: int| 0 <= i < children@.len() implies m2[#[trigger] children@[i]].tag()
                        == type_id.0 by {
                        assert(cs[i] == children@[i]);
                    }
                },
                _ => {},
            }
        }
    }
    assert forall|a: usize, n: usize| #[trigger] anc(m2, s, a, n) <==> anc(m1, s, a, n) by {
        if anc(m1, s, a, n) {
            assert forall|y: usize| anc(m1, s, a, y) && anc(m1, s, y, n) && y != a implies #[trigger] link_same(
                m1,
                s,
                m2,
                s,
                y,
            ) by {
                let p = s.parent[y];
                assert(m1[p].children().contains(y));
                assert(p != h);
            }
            lemma_anc_transfer(m1, s, m2, s, a, n);
        }
        if anc(m2, s, a, n) {
            assert forall|y: usize| anc(m2, s, a, y) && anc(m2, s, y, n) && y != a implies #[trigger] link_same(
                m2,
                s,
                m1,
                s,
                y,
            ) by {
                let p = s.parent[y];
                assert(m2[p].children().contains(y));
                assert(p != h);
            }
            lemma_anc_transfer(m2, s, m1, s, a, n);
        }
    }
    assert(anc(m1, s, h, h));
    assert forall|n: usize| m1.dom().contains(n) && !anc(m1, s, h, n) implies #[trigger] m2.dom().contains(
        n,
    ) && m2[n] == m1[n] by {}
    assert forall|x: usize| #[trigger] m2.dom().contains(x) implies (m1.dom().contains(x) && !anc(
        m1,
        s,
        h,
        x,
    )) || anc(m2, s, h, x) by {
        assert(anc(m2, s, h, x) <==> anc(m1, s, h, x));
    }
    lemma_leaf_value(m2, s, h);
}

} // verus!
