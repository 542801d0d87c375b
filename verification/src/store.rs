use vstd::prelude::*;
use slab::Slab;
use crate::node::NBTNode;

verus! {

/// `slab::Slab`, the arena that holds the nodes: to the verifier a type without insides.
#[verifier::external_type_specification]
#[verifier::external_body]
#[verifier::reject_recursive_types(T)]
pub struct ExSlab<T>(Slab<T>);

/// The occupied slots of a node store: each live handle with its node.
pub uninterp spec fn slab_nodes(s: Slab<NBTNode>) -> Map<usize, NBTNode>;

/// The store has finitely many occupied slots, `n` of them.
pub open spec fn holds(m: Map<usize, NBTNode>, n: usize) -> bool {
    m.dom().finite() && m.dom().len() == n
}

/// `Slab::new`: a store without any occupied slot.
#[verifier::external_body]
pub(crate) fn slab_new() -> (r: Slab<NBTNode>)
    ensures
        slab_nodes(r).dom() == Set::<usize>::empty(),
{
    Slab::new()
}

/// `Slab::len`: the number of occupied slots, which is always finite.
#[verifier::external_body]
pub(crate) fn slab_len(s: &Slab<NBTNode>) -> (n: usize)
    ensures
        holds(slab_nodes(*s), n),
{
    s.len()
}

/// `Slab::contains`: whether the handle names an occupied slot.
#[verifier::external_body]
pub(crate) fn slab_contains(s: &Slab<NBTNode>, key: usize) -> (b: bool)
    ensures
        b == slab_nodes(*s).dom().contains(key),
{
    s.contains(key)
}

/// `Slab::get`: the node in an occupied slot, nothing for a vacant one.
#[verifier::external_body]
pub(crate) fn slab_get(s: &Slab<NBTNode>, key: usize) -> (r: Option<&NBTNode>)
    ensures
        match r {
            Some(n) => slab_nodes(*s).dom().contains(key) && *n == slab_nodes(*s)[key],
            None => !slab_nodes(*s).dom().contains(key),
        },
{
    s.get(key)
}

/// `Slab::get_mut` on an occupied slot: exclusive access to its node; every
/// other slot stays as it is.
#[verifier::external_body]
pub(crate) fn slab_get_mut(s: &mut Slab<NBTNode>, key: usize) -> (r: &mut NBTNode)
    requires
        slab_nodes(*old(s)).dom().contains(key),
    ensures
        *r == slab_nodes(*old(s))[key],
        slab_nodes(*final(s)) == slab_nodes(*old(s)).insert(key, *final(r)),
{
    s.get_mut(key).unwrap()
}

/// `Slab::insert`: puts the node into a slot that was vacant and hands back
/// its handle; every occupied slot stays as it is.
#[verifier::external_body]
pub(crate) fn slab_insert(s: &mut Slab<NBTNode>, node: NBTNode) -> (key: usize)
    ensures
        !slab_nodes(*old(s)).dom().contains(key),
        slab_nodes(*final(s)) == slab_nodes(*old(s)).insert(key, node),
{
    s.insert(node)
}

/// `Slab::remove` on an occupied slot: vacates it and hands back its node;
/// every other slot stays as it is.
#[verifier::external_body]
pub(crate) fn slab_remove(s: &mut Slab<NBTNode>, key: usize) -> (node: NBTNode)
    requires
        slab_nodes(*old(s)).dom().contains(key),
    ensures
        node == slab_nodes(*old(s))[key],
        slab_nodes(*final(s)) == slab_nodes(*old(s)).remove(key),
{
    s.remove(key)
}

} // verus!
