use vstd::prelude::*;
use crate::node::NBTNode;
use crate::value::Value;

verus! {

/// How the nodes of a store hang together: for every node that some container
/// owns, the container and the distance from the top; and a ceiling on the
/// distances.
pub struct Shape {
    pub parent: Map<usize, usize>,
    pub depth: Map<usize, nat>,
    pub bound: nat,
}

/// What must hold at one node: its children are live, point back to it, sit
/// one level lower and are pairwise distinct; a compound is sorted by name; a
/// list holds one kind only.
pub open spec fn node_ok(m: Map<usize, NBTNode>, s: Shape, n: usize) -> bool {
    let cs = m[n].children();
    &&& s.depth[n] <= s.bound
    &&& forall|i: int|
        0 <= i < cs.len() ==> m.dom().contains(#[trigger] cs[i]) && s.parent[cs[i]] == n
            && s.depth[cs[i]] == s.depth[n] + 1
    &&& forall|i: int, j: int| 0 <= i < j < cs.len() ==> #[trigger] cs[i] != #[trigger] cs[j]
    &&& kind_ok(m, n)
}

/// What a node's kind asks of it: a compound is sorted by name, and the
/// elements of a list are all of the kind that the list declares.
pub open spec fn kind_ok(m: Map<usize, NBTNode>, n: usize) -> bool {
    match m[n] {
        NBTNode::Compound(c) => c.wf(),
        NBTNode::List { type_id, children } => forall|i: int|
            0 <= i < children@.len() ==> m[#[trigger] children@[i]].tag() == type_id.0,
        _ => true,
    }
}

/// Every live node is in order.
pub open spec fn wf_down(m: Map<usize, NBTNode>, s: Shape) -> bool {
    forall|n: usize| m.dom().contains(n) ==> #[trigger] node_ok(m, s, n)
}

/// `a` is `n` itself or a container above it, through live ownership links.
pub open spec fn anc(m: Map<usize, NBTNode>, s: Shape, a: usize, n: usize) -> bool
    decreases s.depth[n],
{
    a == n || {
        let p = s.parent[n];
        &&& m.dom().contains(p)
        &&& m[p].children().contains(n)
        &&& s.depth[n] == s.depth[p] + 1
        &&& anc(m, s, a, p)
    }
}

/// The value that a node stands for, looking at most `fuel` levels down.
pub open spec fn value_fuel(m: Map<usize, NBTNode>, idx: usize, fuel: nat) -> Value
    decreases fuel,
{
    match m[idx] {
        NBTNode::Byte(x) => Value::Byte(x),
        NBTNode::Short(x) => Value::Short(x),
        NBTNode::Int(x) => Value::Int(x),
        NBTNode::Long(x) => Value::Long(x),
        NBTNode::Float(x) => Value::Float(x),
        NBTNode::Double(x) => Value::Double(x),
        NBTNode::ByteArray(v) => Value::ByteArray(v@),
        NBTNode::String(s) => Value::String(s@),
        NBTNode::List { type_id, children } => Value::List(
            type_id.0,
            if fuel == 0 {
                Seq::empty()
            } else {
                Seq::new(
                    children@.len(),
                    |i: int| value_fuel(m, children@[i], (fuel - 1) as nat),
                )
            },
        ),
        NBTNode::Compound(c) => Value::Compound(
            if fuel == 0 {
                Seq::empty()
            } else {
                Seq::new(
                    c@.len(),
                    |i: int| (c@[i].0, value_fuel(m, c@[i].1, (fuel - 1) as nat)),
                )
            },
        ),
        NBTNode::IntArray(v) => Value::IntArray(v@),
        NBTNode::LongArray(v) => Value::LongArray(v@),
    }
}

/// The value of a live node of a well-formed store.
pub open spec fn value_of(m: Map<usize, NBTNode>, s: Shape, idx: usize) -> Value {
    value_fuel(m, idx, (s.bound - s.depth[idx]) as nat)
}

/// A container above a node sits strictly higher.
pub proof fn lemma_anc_depth(m: Map<usize, NBTNode>, s: Shape, a: usize, n: usize)
    requires
        anc(m, s, a, n),
    ensures
        a == n || s.depth[a] < s.depth[n],
    decreases s.depth[n],
{
    if a != n {
        lemma_anc_depth(m, s, a, s.parent[n]);
    }
}

/// Whatever hangs below a live node is live.
pub proof fn lemma_anc_live(m: Map<usize, NBTNode>, s: Shape, a: usize, n: usize)
    requires
        wf_down(m, s),
        m.dom().contains(a),
        anc(m, s, a, n),
    ensures
        m.dom().contains(n),
{
    if a != n {
        let p = s.parent[n];
        assert(node_ok(m, s, p));
        let i = choose|i: int| 0 <= i < m[p].children().len() && m[p].children()[i] == n;
        assert(m.dom().contains(m[p].children()[i]));
    }
}

/// A container above a container above a node is above the node.
pub proof fn lemma_anc_transitive(m: Map<usize, NBTNode>, s: Shape, a: usize, b: usize, c: usize)
    requires
        anc(m, s, a, b),
        anc(m, s, b, c),
    ensures
        anc(m, s, a, c),
    decreases s.depth[c],
{
    if b != c {
        lemma_anc_transitive(m, s, a, b, s.parent[c]);
    }
}

/// A child hangs below its container.
pub proof fn lemma_child_anc(m: Map<usize, NBTNode>, s: Shape, n: usize, i: int)
    requires
        wf_down(m, s),
        m.dom().contains(n),
        0 <= i < m[n].children().len(),
    ensures
        anc(m, s, n, m[n].children()[i]),
        m.dom().contains(m[n].children()[i]),
        s.depth[m[n].children()[i]] == s.depth[n] + 1,
{
    assert(node_ok(m, s, n));
    let c = m[n].children()[i];
    assert(m[n].children().contains(c));
    assert(anc(m, s, n, n));
}

/// More fuel than the levels below a node does not change its value.
pub proof fn lemma_fuel_enough(m: Map<usize, NBTNode>, s: Shape, idx: usize, fuel: nat)
    requires
        wf_down(m, s),
        m.dom().contains(idx),
        fuel >= s.bound - s.depth[idx],
    ensures
        value_fuel(m, idx, fuel) == value_of(m, s, idx),
    decreases fuel,
{
    assert(node_ok(m, s, idx));
    let f0 = (s.bound - s.depth[idx]) as nat;
    let cs = m[idx].children();
    if f0 == 0 {
        if cs.len() > 0 {
            assert(m.dom().contains(cs[0]));
            assert(node_ok(m, s, cs[0]));
        }
    }
    match m[idx] {
        NBTNode::List { type_id, children } => {
            assert(cs == children@);
            if fuel > 0 {
                let a = value_fuel(m, idx, fuel)->List_1;
                if f0 == 0 {
                    assert(a =~= Seq::<Value>::empty());
                } else {
                    let b = value_fuel(m, idx, f0)->List_1;
                    assert forall|i: int| 0 <= i < children@.len() implies a[i] == b[i] by {
                        lemma_child_anc(m, s, idx, i);
                        lemma_fuel_enough(m, s, children@[i], (fuel - 1) as nat);
                    }
                    assert(a =~= b);
                }
            }
        },
        NBTNode::Compound(c) => {
            assert(cs.len() == c@.len());
            if fuel > 0 {
                let a = value_fuel(m, idx, fuel)->Compound_0;
                if f0 == 0 {
                    assert(a =~= Seq::<(Seq<char>, Value)>::empty());
                } else {
                    let b = value_fuel(m, idx, f0)->Compound_0;
                    assert forall|i: int| 0 <= i < c@.len() implies a[i] == b[i] by {
                        lemma_child_anc(m, s, idx, i);
                        assert(cs[i] == c@[i].1);
                        lemma_fuel_enough(m, s, c@[i].1, (fuel - 1) as nat);
                    }
                    assert(a =~= b);
                }
            }
        },
        _ => {},
    }
}

/// A node whose whole subtree is the same in two stores has the same value in
/// both, at any fuel.
pub proof fn lemma_same_subtree_fuel(
    m1: Map<usize, NBTNode>,
    s1: Shape,
    m2: Map<usize, NBTNode>,
    idx: usize,
    fuel: nat,
)
    requires
        wf_down(m1, s1),
        m1.dom().contains(idx),
        forall|x: usize| #[trigger] anc(m1, s1, idx, x) ==> m2.dom().contains(x) && m2[x] == m1[x],
    ensures
        value_fuel(m2, idx, fuel) == value_fuel(m1, idx, fuel),
    decreases fuel,
{
    assert(anc(m1, s1, idx, idx));
    assert(node_ok(m1, s1, idx));
    if fuel > 0 {
        match m1[idx] {
            NBTNode::List { type_id, children } => {
                let a = value_fuel(m1, idx, fuel)->List_1;
                let b = value_fuel(m2, idx, fuel)->List_1;
                assert forall|i: int| 0 <= i < children@.len() implies a[i] == b[i] by {
                    lemma_child_anc(m1, s1, idx, i);
                    let c = children@[i];
                    assert forall|x: usize| #[trigger] anc(m1, s1, c, x) implies m2.dom().contains(
                        x,
                    ) && m2[x] == m1[x] by {
                        lemma_anc_transitive(m1, s1, idx, c, x);
                    }
                    lemma_same_subtree_fuel(m1, s1, m2, c, (fuel - 1) as nat);
                }
                assert(a =~= b);
            },
            NBTNode::Compound(c) => {
                let a = value_fuel(m1, idx, fuel)->Compound_0;
                let b = value_fuel(m2, idx, fuel)->Compound_0;
                assert forall|i: int| 0 <= i < c@.len() implies a[i] == b[i] by {
                    lemma_child_anc(m1, s1, idx, i);
                    let ch = c@[i].1;
                    assert(m1[idx].children()[i] == ch);
                    assert forall|x: usize| #[trigger]
                        anc(m1, s1, ch, x) implies m2.dom().contains(x) && m2[x] == m1[x] by {
                        lemma_anc_transitive(m1, s1, idx, ch, x);
                    }
                    lemma_same_subtree_fuel(m1, s1, m2, ch, (fuel - 1) as nat);
                }
                assert(a =~= b);
            },
            _ => {},
        }
    }
}

/// A node whose whole subtree is the same in two well-formed stores has the
/// same value in both.
pub proof fn lemma_same_subtree(
    m1: Map<usize, NBTNode>,
    s1: Shape,
    m2: Map<usize, NBTNode>,
    s2: Shape,
    idx: usize,
)
    requires
        wf_down(m1, s1),
        wf_down(m2, s2),
        m1.dom().contains(idx),
        forall|x: usize| #[trigger] anc(m1, s1, idx, x) ==> m2.dom().contains(x) && m2[x] == m1[x],
    ensures
        value_of(m2, s2, idx) == value_of(m1, s1, idx),
{
    assert(anc(m1, s1, idx, idx));
    let f1 = (s1.bound - s1.depth[idx]) as nat;
    let f2 = (s2.bound - s2.depth[idx]) as nat;
    let f = if f1 >= f2 { f1 } else { f2 };
    assert(node_ok(m1, s1, idx));
    assert(node_ok(m2, s2, idx));
    lemma_fuel_enough(m1, s1, idx, f);
    lemma_fuel_enough(m2, s2, idx, f);
    lemma_same_subtree_fuel(m1, s1, m2, idx, f);
}

/// The value of a live node, one level unfolded: its own payload, and for a
/// container the values of its children in order.
pub proof fn lemma_value_unfold(m: Map<usize, NBTNode>, s: Shape, idx: usize)
    requires
        wf_down(m, s),
        m.dom().contains(idx),
    ensures
        match m[idx] {
            NBTNode::List { type_id, children } => value_of(m, s, idx) == Value::List(
                type_id.0,
                Seq::new(children@.len(), |i: int| value_of(m, s, children@[i])),
            ),
            NBTNode::Compound(c) => value_of(m, s, idx) == Value::Compound(
                Seq::new(c@.len(), |i: int| (c@[i].0, value_of(m, s, c@[i].1))),
            ),
            _ => value_of(m, s, idx) == value_fuel(m, idx, 0),
        },
{
    assert(node_ok(m, s, idx));
    let f0 = (s.bound - s.depth[idx]) as nat;
    let cs = m[idx].children();
    if f0 == 0 && cs.len() > 0 {
        assert(m.dom().contains(cs[0]));
        assert(node_ok(m, s, cs[0]));
    }
    match m[idx] {
        NBTNode::List { type_id, children } => {
            assert(cs == children@);
            let b = Seq::new(children@.len(), |i: int| value_of(m, s, children@[i]));
            if f0 == 0 {
                assert(b =~= Seq::<Value>::empty());
            } else {
                let a = value_fuel(m, idx, f0)->List_1;
                assert forall|i: int| 0 <= i < children@.len() implies a[i] == b[i] by {
                    lemma_child_anc(m, s, idx, i);
                }
                assert(a =~= b);
            }
        },
        NBTNode::Compound(c) => {
            assert(cs.len() == c@.len());
            let b = Seq::new(c@.len(), |i: int| (c@[i].0, value_of(m, s, c@[i].1)));
            if f0 == 0 {
                assert(b =~= Seq::<(Seq<char>, Value)>::empty());
            } else {
                let a = value_fuel(m, idx, f0)->Compound_0;
                assert forall|i: int| 0 <= i < c@.len() implies a[i] == b[i] by {
                    lemma_child_anc(m, s, idx, i);
                    assert(cs[i] == c@[i].1);
                }
                assert(a =~= b);
            }
        },
        _ => {},
    }
}

/// The handles that hang below `idx`, `idx` included.
pub open spec fn subtree(m: Map<usize, NBTNode>, s: Shape, idx: usize) -> Set<usize> {
    Set::new(|x: usize| anc(m, s, idx, x))
}

/// The handles below a live node are live, so there are finitely many.
pub proof fn lemma_subtree_live(m: Map<usize, NBTNode>, s: Shape, idx: usize)
    requires
        wf_down(m, s),
        m.dom().contains(idx),
        m.dom().finite(),
    ensures
        subtree(m, s, idx).subset_of(m.dom()),
        subtree(m, s, idx).finite(),
        subtree(m, s, idx).len() <= m.dom().len(),
        subtree(m, s, idx).len() >= 1,
{
    let d = subtree(m, s, idx);
    assert forall|x: usize| d.contains(x) implies m.dom().contains(x) by {
        lemma_anc_live(m, s, idx, x);
    }
    vstd::set_lib::lemma_len_subset(d, m.dom());
    assert(d.contains(idx));
    if d.len() == 0 {
        assert(d =~= Set::<usize>::empty());
    }
}

/// A set that holds `idx` and, with every node, that node's children holds
/// everything below `idx`.
pub proof fn lemma_closed_holds_subtree(
    m: Map<usize, NBTNode>,
    s: Shape,
    idx: usize,
    g: Set<usize>,
    x: usize,
)
    requires
        g.contains(idx),
        forall|y: usize, i: int|
            g.contains(y) && 0 <= i < m[y].children().len() ==> g.contains(
                #[trigger] m[y].children()[i],
            ),
        anc(m, s, idx, x),
    ensures
        g.contains(x),
    decreases s.depth[x],
{
    if x != idx {
        let p = s.parent[x];
        lemma_closed_holds_subtree(m, s, idx, g, p);
        let i = choose|i: int| 0 <= i < m[p].children().len() && m[p].children()[i] == x;
        assert(g.contains(m[p].children()[i]));
    }
}

/// A store stays in order when a whole subtree that no remaining node owns is
/// taken out of it.
pub proof fn lemma_cut_wf(m: Map<usize, NBTNode>, s: Shape, idx: usize)
    requires
        wf_down(m, s),
        m.dom().contains(idx),
        forall|n: usize| m.dom().contains(n) ==> !(#[trigger] m[n]).children().contains(idx),
    ensures
        wf_down(m.remove_keys(subtree(m, s, idx)), s),
{
    let d = subtree(m, s, idx);
    let m2 = m.remove_keys(d);
    assert forall|n: usize| m2.dom().contains(n) implies #[trigger] node_ok(m2, s, n) by {
        assert(node_ok(m, s, n));
        let cs = m[n].children();
        assert forall|i: int| 0 <= i < cs.len() implies m2.dom().contains(#[trigger] cs[i]) by {
            let c = cs[i];
            assert(cs.contains(c));
            if anc(m, s, idx, c) {
                assert(c != idx);
                assert(s.parent[c] == n);
                assert(anc(m, s, idx, n));
            }
        }
    }
}

/// The value of a live compound, entry by entry: each name with the value of
/// the child stored under it.
pub proof fn lemma_compound_entries(m: Map<usize, NBTNode>, s: Shape, idx: usize)
    requires
        wf_down(m, s),
        m.dom().contains(idx),
        m[idx] is Compound,
    ensures
        value_of(m, s, idx) is Compound,
        value_of(m, s, idx)->Compound_0.len() == m[idx]->Compound_0@.len(),
        forall|i: int|
            0 <= i < m[idx]->Compound_0@.len() ==> #[trigger] value_of(m, s, idx)->Compound_0[i]
                == (m[idx]->Compound_0@[i].0, value_of(m, s, m[idx]->Compound_0@[i].1)),
{
    lemma_value_unfold(m, s, idx);
}

/// The value of a live list, element by element: the declared kind and the
/// value of each child in order.
pub proof fn lemma_list_elems(m: Map<usize, NBTNode>, s: Shape, idx: usize)
    requires
        wf_down(m, s),
        m.dom().contains(idx),
        m[idx] is List,
    ensures
        value_of(m, s, idx) is List,
        value_of(m, s, idx)->List_0 == m[idx]->type_id.0,
        value_of(m, s, idx)->List_1.len() == m[idx]->children@.len(),
        forall|i: int|
            0 <= i < m[idx]->children@.len() ==> #[trigger] value_of(m, s, idx)->List_1[i]
                == value_of(m, s, m[idx]->children@[i]),
{
    lemma_value_unfold(m, s, idx);
}

/// The value of a live node that owns no other node is its own payload.
pub proof fn lemma_leaf_value(m: Map<usize, NBTNode>, s: Shape, idx: usize)
    requires
        wf_down(m, s),
        m.dom().contains(idx),
        m[idx].children().len() == 0,
    ensures
        value_of(m, s, idx) == m[idx].leaf_value(),
{
    lemma_value_unfold(m, s, idx);
    match m[idx] {
        NBTNode::List { type_id, children } => {
            assert(value_of(m, s, idx)->List_1 =~= Seq::<Value>::empty());
        },
        NBTNode::Compound(c) => {
            assert(value_of(m, s, idx)->Compound_0 =~= Seq::<(Seq<char>, Value)>::empty());
        },
        _ => {},
    }
}

} // verus!
