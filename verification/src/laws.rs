use vstd::prelude::*;
use crate::entries::{
    entry_find, entry_insert, entry_remove, key_lt, lemma_find_after_insert,
    lemma_find_after_remove, lemma_insert_sorted, lemma_insert_unique, lemma_remove_sorted,
    sorted,
};
use crate::parse::{p_root, Fail};
use crate::roundtrip::law_decode_encode;
use crate::shape::lemma_value_unfold;
use crate::tree::NBT;
use crate::value::{short_text, valid, Value};
use crate::wire::enc_root;

verus! {

/// Decoding the bytes of a tree gives the tree's name and the tree's value:
/// for every tree in order that the wire format can carry.
pub proof fn law_tree_round_trip(t: NBT)
    requires
        t.wf(),
        short_text(t.name()),
        valid(t@),
    ensures
        p_root(enc_root(t.name(), t@)) == Ok::<((Seq<char>, Value), nat), Fail>(
            ((t.name(), t@), enc_root(t.name(), t@).len()),
        ),
{
    lemma_value_unfold(t.nodes(), t.shape(), t.root());
    law_decode_encode(t.name(), t@);
}

/// In every compound of a tree in order the names strictly increase: no name
/// stands twice.
pub proof fn law_names_increase(t: NBT, h: usize, i: int, j: int)
    requires
        t.wf(),
        t.live(h),
        t.node(h) is Compound,
        0 <= i < j < t.value_at(h)->Compound_0.len(),
    ensures
        key_lt(t.value_at(h)->Compound_0[i].0, t.value_at(h)->Compound_0[j].0),
        t.value_at(h)->Compound_0[i].0 != t.value_at(h)->Compound_0[j].0,
{
    t.lemma_entries_sorted(h);
    crate::entries::lemma_key_lt_irreflexive(t.value_at(h)->Compound_0[i].0);
}

/// After any stores and removals the names of a compound still strictly
/// increase.
pub proof fn law_sorted_kept<T>(e: Seq<(Seq<char>, T)>, key: Seq<char>, v: T)
    requires
        sorted(e),
    ensures
        sorted(entry_insert(e, key, v)),
        sorted(entry_remove(e, key)),
{
    lemma_insert_sorted(e, key, v);
    lemma_remove_sorted(e, key);
}

/// After two stores under one name the compound has exactly one entry of
/// that name, and it holds what was stored last; every other name holds what
/// it held.
pub proof fn law_last_store_wins<T>(
    e: Seq<(Seq<char>, T)>,
    key: Seq<char>,
    first: T,
    last: T,
    other: Seq<char>,
)
    requires
        sorted(e),
        other != key,
    ensures
        ({
            let r = entry_insert(entry_insert(e, key, first), key, last);
            &&& entry_find(r, key) == Some(last)
            &&& entry_find(r, other) == entry_find(e, other)
            &&& forall|i: int, j: int|
                0 <= i < r.len() && 0 <= j < r.len() && #[trigger] r[i].0 == key && #[trigger] r[j].0
                    == key ==> i == j
        }),
{
    let once = entry_insert(e, key, first);
    lemma_insert_sorted(e, key, first);
    lemma_find_after_insert(e, key, first, other);
    lemma_find_after_insert(once, key, last, key);
    lemma_find_after_insert(once, key, last, other);
    lemma_insert_unique(once, key, last);
}

/// After a removal nothing is found under the removed name, and under every
/// other name what was there before.
pub proof fn law_removed_is_gone<T>(e: Seq<(Seq<char>, T)>, key: Seq<char>, other: Seq<char>)
    requires
        sorted(e),
        other != key,
    ensures
        entry_find(entry_remove(e, key), key) is None,
        entry_find(entry_remove(e, key), other) == entry_find(e, other),
{
    lemma_find_after_remove(e, key, key);
    lemma_find_after_remove(e, key, other);
}

} // verus!
