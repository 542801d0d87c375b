use vstd::prelude::*;
use vstd::std_specs::cmp::PartialEqSpec;
use crate::node::NBTNode;
use crate::shape::{
    anc, lemma_anc_depth, lemma_child_anc, lemma_compound_entries, lemma_list_elems,
    lemma_value_unfold, node_ok, value_of, wf_down, Shape,
};
use crate::text::same_text;
use crate::tree::NBT;

verus! {

/// Whether two arrays of signed bytes hold the same numbers.
pub fn same_i8s(a: &Vec<i8>, b: &Vec<i8>) -> (r: bool)
    ensures
        r == (a@ == b@),
{
    if a.len() != b.len() {
        return false;
    }
    let mut i: usize = 0;
    while i < a.len()
        invariant
            i <= a@.len(),
            a@.len() == b@.len(),
            forall|k: int| 0 <= k < i ==> a@[k] == b@[k],
        decreases a@.len() - i,
    {
        if a[i] != b[i] {
            return false;
        }
        i += 1;
    }
    assert(a@ =~= b@);
    true
}

/// Whether two arrays of 32-bit numbers hold the same numbers.
pub fn same_i32s(a: &Vec<i32>, b: &Vec<i32>) -> (r: bool)
    ensures
        r == (a@ == b@),
{
    if a.len() != b.len() {
        return false;
    }
    let mut i: usize = 0;
    while i < a.len()
        invariant
            i <= a@.len(),
            a@.len() == b@.len(),
            forall|k: int| 0 <= k < i ==> a@[k] == b@[k],
        decreases a@.len() - i,
    {
        if a[i] != b[i] {
            return false;
        }
        i += 1;
    }
    assert(a@ =~= b@);
    true
}

/// Whether two arrays of 64-bit numbers hold the same numbers.
pub fn same_i64s(a: &Vec<i64>, b: &Vec<i64>) -> (r: bool)
    ensures
        r == (a@ == b@),
{
    if a.len() != b.len() {
        return false;
    }
    let mut i: usize = 0;
    while i < a.len()
        invariant
            i <= a@.len(),
            a@.len() == b@.len(),
            forall|k: int| 0 <= k < i ==> a@[k] == b@[k],
        decreases a@.len() - i,
    {
        if a[i] != b[i] {
            return false;
        }
        i += 1;
    }
    assert(a@ =~= b@);
    true
}

impl NBT {
    /// Whether the node `h` of this tree and the node `g` of another stand
    /// for the same value: the same kind and payload, the same elements in
    /// the same order, the same names with the same values. Handles do not
    /// count.
    pub fn same_value(&self, h: usize, other: &NBT, g: usize) -> (r: bool)
        requires
            self.wf(),
            other.wf(),
            self.live(h),
            other.live(g),
        ensures
            r == (self.value_at(h) == other.value_at(g)),
        decreases self.shape().bound - self.shape().depth[h],
    {
        proof {
            assert(node_ok(self.nodes(), self.shape(), h));
            assert(node_ok(other.nodes(), other.shape(), g));
            lemma_value_unfold(self.nodes(), self.shape(), h);
            lemma_value_unfold(other.nodes(), other.shape(), g);
        }
        let a = self.get_node(h).unwrap();
        let b = other.get_node(g).unwrap();
        match (a, b) {
            (NBTNode::Byte(x), NBTNode::Byte(y)) => *x == *y,
            (NBTNode::Short(x), NBTNode::Short(y)) => *x == *y,
            (NBTNode::Int(x), NBTNode::Int(y)) => *x == *y,
            (NBTNode::Long(x), NBTNode::Long(y)) => *x == *y,
            (NBTNode::Float(x), NBTNode::Float(y)) => *x == *y,
            (NBTNode::Double(x), NBTNode::Double(y)) => *x == *y,
            (NBTNode::ByteArray(x), NBTNode::ByteArray(y)) => same_i8s(x, y),
            (NBTNode::String(x), NBTNode::String(y)) => same_text(x.as_str(), y.as_str()),
            (NBTNode::IntArray(x), NBTNode::IntArray(y)) => same_i32s(x, y),
            (NBTNode::LongArray(x), NBTNode::LongArray(y)) => same_i64s(x, y),
            (
                NBTNode::List { type_id: t1, children: c1 },
                NBTNode::List { type_id: t2, children: c2 },
            ) => {
                let ghost v1 = self.value_at(h)->List_1;
                let ghost v2 = other.value_at(g)->List_1;
                proof {
                    lemma_list_elems(self.nodes(), self.shape(), h);
                    lemma_list_elems(other.nodes(), other.shape(), g);
                }
                if t1.0 != t2.0 || c1.len() != c2.len() {
                    return false;
                }
                let mut i: usize = 0;
                while i < c1.len()
                    invariant
                        self.wf(),
                        other.wf(),
                        self.live(h),
                        other.live(g),
                        self.node(h) == *a,
                        other.node(g) == *b,
                        *a == (NBTNode::List { type_id: *t1, children: *c1 }),
                        *b == (NBTNode::List { type_id: *t2, children: *c2 }),
                        v1 == self.value_at(h)->List_1,
                        v2 == other.value_at(g)->List_1,
                        v1.len() == c1@.len(),
                        v2.len() == c2@.len(),
                        c1@.len() == c2@.len(),
                        forall|k: int|
                            0 <= k < v1.len() ==> #[trigger] v1[k] == self.value_at(c1@[k]),
                        forall|k: int|
                            0 <= k < v2.len() ==> #[trigger] v2[k] == other.value_at(c2@[k]),
                        i <= c1@.len(),
                        forall|k: int| 0 <= k < i ==> v1[k] == v2[k],
                    decreases c1@.len() - i,
                {
                    proof {
                        assert(node_ok(self.nodes(), self.shape(), h));
                        assert(node_ok(other.nodes(), other.shape(), g));
                        assert(self.node(h).children()[i as int] == c1@[i as int]);
                        assert(other.node(g).children()[i as int] == c2@[i as int]);
                    }
                    if !self.same_value(c1[i], other, c2[i]) {
                        assert(v1[i as int] != v2[i as int]);
                        return false;
                    }
                    i += 1;
                }
                assert(v1 =~= v2);
                true
            },
            (NBTNode::Compound(c1), NBTNode::Compound(c2)) => {
                let ghost v1 = self.value_at(h)->Compound_0;
                let ghost v2 = other.value_at(g)->Compound_0;
                proof {
                    lemma_compound_entries(self.nodes(), self.shape(), h);
                    lemma_compound_entries(other.nodes(), other.shape(), g);
                }
                if c1.len() != c2.len() {
                    return false;
                }
                let mut i: usize = 0;
                while i < c1.len()
                    invariant
                        self.wf(),
                        other.wf(),
                        self.live(h),
                        other.live(g),
                        self.node(h) == *a,
                        other.node(g) == *b,
                        *a == NBTNode::Compound(*c1),
                        *b == NBTNode::Compound(*c2),
                        v1 == self.value_at(h)->Compound_0,
                        v2 == other.value_at(g)->Compound_0,
                        v1.len() == c1@.len(),
                        v2.len() == c2@.len(),
                        c1@.len() == c2@.len(),
                        forall|k: int|
                            0 <= k < v1.len() ==> #[trigger] v1[k] == (
                                c1@[k].0,
                                self.value_at(c1@[k].1),
                            ),
                        forall|k: int|
                            0 <= k < v2.len() ==> #[trigger] v2[k] == (
                                c2@[k].0,
                                other.value_at(c2@[k].1),
                            ),
                        i <= c1@.len(),
                        forall|k: int| 0 <= k < i ==> v1[k] == v2[k],
                    decreases c1@.len() - i,
                {
                    proof {
                        assert(node_ok(self.nodes(), self.shape(), h));
                        assert(node_ok(other.nodes(), other.shape(), g));
                        assert(self.node(h).children()[i as int] == c1@[i as int].1);
                        assert(other.node(g).children()[i as int] == c2@[i as int].1);
                    }
                    if !same_text(c1.key_at(i), c2.key_at(i)) {
                        assert(v1[i as int] != v2[i as int]);
                        return false;
                    }
                    if !self.same_value(c1.handle_at(i), other, c2.handle_at(i)) {
                        assert(v1[i as int] != v2[i as int]);
                        return false;
                    }
                    i += 1;
                }
                assert(v1 =~= v2);
                true
            },
            _ => false,
        }
    }

    /// Whether two trees stand for the same value. The names of the roots do
    /// not count.
    pub fn same_as(&self, other: &NBT) -> (r: bool)
        requires
            self.wf(),
            other.wf(),
        ensures
            r == (self@ == other@),
    {
        self.same_value(self.root_handle(), other, other.root_handle())
    }
}

/// Whether two nodes of two stores stand for the same value, looking at most
/// `fuel` levels down: the same kind and payload, the same elements in the
/// same order, the same names with the same values.
pub open spec fn same_fuel(
    m1: Map<usize, NBTNode>,
    h: usize,
    m2: Map<usize, NBTNode>,
    g: usize,
    fuel: nat,
) -> bool
    decreases fuel,
{
    m1.dom().contains(h) && m2.dom().contains(g) && match (m1[h], m2[g]) {
        (NBTNode::Byte(x), NBTNode::Byte(y)) => x == y,
        (NBTNode::Short(x), NBTNode::Short(y)) => x == y,
        (NBTNode::Int(x), NBTNode::Int(y)) => x == y,
        (NBTNode::Long(x), NBTNode::Long(y)) => x == y,
        (NBTNode::Float(x), NBTNode::Float(y)) => x == y,
        (NBTNode::Double(x), NBTNode::Double(y)) => x == y,
        (NBTNode::ByteArray(x), NBTNode::ByteArray(y)) => x@ == y@,
        (NBTNode::String(x), NBTNode::String(y)) => x@ == y@,
        (NBTNode::IntArray(x), NBTNode::IntArray(y)) => x@ == y@,
        (NBTNode::LongArray(x), NBTNode::LongArray(y)) => x@ == y@,
        (
            NBTNode::List { type_id: t1, children: c1 },
            NBTNode::List { type_id: t2, children: c2 },
        ) => t1.0 == t2.0 && c1@.len() == c2@.len() && (c1@.len() == 0 || (fuel > 0 && forall|
            i: int,
        |
            0 <= i < c1@.len() ==> same_fuel(m1, #[trigger] c1@[i], m2, c2@[i], (fuel - 1) as nat))),
        (NBTNode::Compound(a), NBTNode::Compound(b)) => a@.len() == b@.len() && (a@.len() == 0 || (
        fuel > 0 && forall|i: int|
            0 <= i < a@.len() ==> (#[trigger] a@[i]).0 == b@[i].0 && same_fuel(
                m1,
                a@[i].1,
                m2,
                b@[i].1,
                (fuel - 1) as nat,
            ))),
        _ => false,
    }
}

/// With fuel for every level below the first node, the comparison by levels
/// says whether the two nodes stand for the same value.
pub proof fn lemma_same_fuel(
    m1: Map<usize, NBTNode>,
    s1: Shape,
    h: usize,
    m2: Map<usize, NBTNode>,
    s2: Shape,
    g: usize,
    ceiling: nat,
    fuel: nat,
)
    requires
        wf_down(m1, s1),
        wf_down(m2, s2),
        m1.dom().contains(h),
        m2.dom().contains(g),
        forall|n: usize| m1.dom().contains(n) ==> s1.depth[n] <= ceiling,
        fuel >= ceiling - s1.depth[h],
    ensures
        same_fuel(m1, h, m2, g, fuel) == (value_of(m1, s1, h) == value_of(m2, s2, g)),
    decreases fuel,
{
    assert(node_ok(m1, s1, h));
    assert(node_ok(m2, s2, g));
    lemma_value_unfold(m1, s1, h);
    lemma_value_unfold(m2, s2, g);
    match (m1[h], m2[g]) {
        (
            NBTNode::List { type_id: t1, children: c1 },
            NBTNode::List { type_id: t2, children: c2 },
        ) => {
            lemma_list_elems(m1, s1, h);
            lemma_list_elems(m2, s2, g);
            let v1 = value_of(m1, s1, h)->List_1;
            let v2 = value_of(m2, s2, g)->List_1;
            if t1.0 == t2.0 && c1@.len() == c2@.len() {
                if c1@.len() == 0 {
                    assert(v1 =~= v2);
                } else {
                    lemma_child_anc(m1, s1, h, 0);
                    assert(m1[h].children()[0] == c1@[0]);
                    assert(fuel > 0);
                    assert forall|i: int| 0 <= i < c1@.len() implies same_fuel(
                        m1,
                        #[trigger] c1@[i],
                        m2,
                        c2@[i],
                        (fuel - 1) as nat,
                    ) == (v1[i] == v2[i]) by {
                        lemma_child_anc(m1, s1, h, i);
                        lemma_child_anc(m2, s2, g, i);
                        assert(m1[h].children()[i] == c1@[i]);
                        assert(m2[g].children()[i] == c2@[i]);
                        lemma_same_fuel(m1, s1, c1@[i], m2, s2, c2@[i], ceiling, (fuel - 1) as nat);
                    }
                    if same_fuel(m1, h, m2, g, fuel) {
                        assert(v1 =~= v2);
                    }
                }
            }
        },
        (NBTNode::Compound(a), NBTNode::Compound(b)) => {
            lemma_compound_entries(m1, s1, h);
            lemma_compound_entries(m2, s2, g);
            let v1 = value_of(m1, s1, h)->Compound_0;
            let v2 = value_of(m2, s2, g)->Compound_0;
            if a@.len() == b@.len() {
                if a@.len() == 0 {
                    assert(v1 =~= v2);
                } else {
                    lemma_child_anc(m1, s1, h, 0);
                    assert(m1[h].children()[0] == a@[0].1);
                    assert(fuel > 0);
                    assert forall|i: int| 0 <= i < a@.len() implies ((#[trigger] a@[i]).0
                        == b@[i].0 && same_fuel(m1, a@[i].1, m2, b@[i].1, (fuel - 1) as nat)) == (
                    v1[i] == v2[i]) by {
                        lemma_child_anc(m1, s1, h, i);
                        lemma_child_anc(m2, s2, g, i);
                        assert(m1[h].children()[i] == a@[i].1);
                        assert(m2[g].children()[i] == b@[i].1);
                        lemma_same_fuel(m1, s1, a@[i].1, m2, s2, b@[i].1, ceiling, (fuel - 1) as nat);
                    }
                    if same_fuel(m1, h, m2, g, fuel) {
                        assert(v1 =~= v2);
                    }
                }
            }
        },
        _ => {},
    }
}

/// The containers above a node, the node included.
pub open spec fn above(m: Map<usize, NBTNode>, s: Shape, n: usize) -> Set<usize> {
    Set::new(|a: usize| anc(m, s, a, n))
}

/// A node that hangs below the top has as many containers above it, itself
/// included, as its distance from the top and one; they are all live.
pub proof fn lemma_above_count(m: Map<usize, NBTNode>, s: Shape, root: usize, n: usize)
    requires
        wf_down(m, s),
        m.dom().finite(),
        m.dom().contains(root),
        s.depth[root] == 0,
        anc(m, s, root, n),
    ensures
        above(m, s, n).finite(),
        above(m, s, n).subset_of(m.dom()),
        above(m, s, n).len() == s.depth[n] + 1,
    decreases s.depth[n],
{
    if n == root {
        assert(above(m, s, n) =~= set![root]);
    } else {
        let p = s.parent[n];
        lemma_above_count(m, s, root, p);
        crate::shape::lemma_anc_live(m, s, root, n);
        assert(above(m, s, n) =~= above(m, s, p).insert(n)) by {
            assert forall|a: usize| above(m, s, n).contains(a) <==> above(m, s, p).insert(
                n,
            ).contains(a) by {}
        }
        if above(m, s, p).contains(n) {
            lemma_anc_depth(m, s, n, p);
        }
    }
}

impl NBT {
    /// In a tree in order no node lies as deep as the tree has nodes.
    pub proof fn lemma_depth_below_count(&self, n: usize)
        requires
            self.wf(),
            self.live(n),
        ensures
            self.shape().depth[n] < self.count(),
    {
        let m = self.nodes();
        let s = self.shape();
        assert(self.below(self.root(), n));
        lemma_above_count(m, s, self.root(), n);
        vstd::set_lib::lemma_len_subset(above(m, s, n), m.dom());
    }

    /// Compares the node `h` of this tree with the node `g` of another,
    /// looking at most `fuel` levels down.
    pub fn eq_bounded(&self, h: usize, other: &NBT, g: usize, fuel: usize) -> (r: bool)
        ensures
            r == same_fuel(self.nodes(), h, other.nodes(), g, fuel as nat),
        decreases fuel,
    {
        let a = match self.get_node(h) {
            Some(a) => a,
            None => {
                return false;
            },
        };
        let b = match other.get_node(g) {
            Some(b) => b,
            None => {
                return false;
            },
        };
        match (a, b) {
            (NBTNode::Byte(x), NBTNode::Byte(y)) => *x == *y,
            (NBTNode::Short(x), NBTNode::Short(y)) => *x == *y,
            (NBTNode::Int(x), NBTNode::Int(y)) => *x == *y,
            (NBTNode::Long(x), NBTNode::Long(y)) => *x == *y,
            (NBTNode::Float(x), NBTNode::Float(y)) => *x == *y,
            (NBTNode::Double(x), NBTNode::Double(y)) => *x == *y,
            (NBTNode::ByteArray(x), NBTNode::ByteArray(y)) => same_i8s(x, y),
            (NBTNode::String(x), NBTNode::String(y)) => same_text(x.as_str(), y.as_str()),
            (NBTNode::IntArray(x), NBTNode::IntArray(y)) => same_i32s(x, y),
            (NBTNode::LongArray(x), NBTNode::LongArray(y)) => same_i64s(x, y),
            (
                NBTNode::List { type_id: t1, children: c1 },
                NBTNode::List { type_id: t2, children: c2 },
            ) => {
                if t1.0 != t2.0 || c1.len() != c2.len() {
                    return false;
                }
                if c1.len() == 0 {
                    return true;
                }
                if fuel == 0 {
                    return false;
                }
                let mut i: usize = 0;
                while i < c1.len()
                    invariant
                        fuel > 0,
                        self.live(h),
                        other.live(g),
                        self.node(h) == *a,
                        other.node(g) == *b,
                        *a == (NBTNode::List { type_id: *t1, children: *c1 }),
                        *b == (NBTNode::List { type_id: *t2, children: *c2 }),
                        t1.0 == t2.0,
                        c1@.len() == c2@.len(),
                        i <= c1@.len(),
                        forall|k: int|
                            0 <= k < i ==> same_fuel(
                                self.nodes(),
                                #[trigger] c1@[k],
                                other.nodes(),
                                c2@[k],
                                (fuel - 1) as nat,
                            ),
                    decreases c1@.len() - i,
                {
                    if !self.eq_bounded(c1[i], other, c2[i], fuel - 1) {
                        assert(!same_fuel(
                            self.nodes(),
                            c1@[i as int],
                            other.nodes(),
                            c2@[i as int],
                            (fuel - 1) as nat,
                        ));
                        return false;
                    }
                    i += 1;
                }
                true
            },
            (NBTNode::Compound(c1), NBTNode::Compound(c2)) => {
                if c1.len() != c2.len() {
                    return false;
                }
                if c1.len() == 0 {
                    return true;
                }
                if fuel == 0 {
                    return false;
                }
                let mut i: usize = 0;
                while i < c1.len()
                    invariant
                        fuel > 0,
                        self.live(h),
                        other.live(g),
                        self.node(h) == *a,
                        other.node(g) == *b,
                        *a == NBTNode::Compound(*c1),
                        *b == NBTNode::Compound(*c2),
                        c1@.len() == c2@.len(),
                        i <= c1@.len(),
                        forall|k: int|
                            0 <= k < i ==> (#[trigger] c1@[k]).0 == c2@[k].0 && same_fuel(
                                self.nodes(),
                                c1@[k].1,
                                other.nodes(),
                                c2@[k].1,
                                (fuel - 1) as nat,
                            ),
                    decreases c1@.len() - i,
                {
                    if !same_text(c1.key_at(i), c2.key_at(i)) {
                        assert(c1@[i as int].0 != c2@[i as int].0);
                        return false;
                    }
                    if !self.eq_bounded(c1.handle_at(i), other, c2.handle_at(i), fuel - 1) {
                        assert(!same_fuel(
                            self.nodes(),
                            c1@[i as int].1,
                            other.nodes(),
                            c2@[i as int].1,
                            (fuel - 1) as nat,
                        ));
                        return false;
                    }
                    i += 1;
                }
                true
            },
            _ => false,
        }
    }

    /// What `==` says of two trees in order: whether they stand for the same
    /// value.
    pub proof fn law_eq_is_structural(&self, other: &NBT)
        requires
            self.wf(),
            other.wf(),
        ensures
            self.eq_spec(other) == (self@ == other@),
    {
        let m1 = self.nodes();
        let s1 = self.shape();
        assert forall|n: usize| m1.dom().contains(n) implies s1.depth[n] <= (self.count() - 1) as nat by {
            self.lemma_depth_below_count(n);
        }
        self.lemma_depth_below_count(self.root());
        lemma_same_fuel(
            m1,
            s1,
            self.root(),
            other.nodes(),
            other.shape(),
            other.root(),
            (self.count() - 1) as nat,
            self.count(),
        );
    }
}

impl PartialEq for NBT {
    /// Whether two trees stand for the same value. The names of the roots do
    /// not count.
    fn eq(&self, other: &NBT) -> (r: bool) {
        self.eq_bounded(self.root_handle(), other, other.root_handle(), self.len())
    }
}

impl vstd::std_specs::cmp::PartialEqSpecImpl for NBT {
    open spec fn obeys_eq_spec() -> bool {
        true
    }

    open spec fn eq_spec(&self, other: &NBT) -> bool {
        same_fuel(self.nodes(), self.root(), other.nodes(), other.root(), self.count())
    }
}

} // verus!
