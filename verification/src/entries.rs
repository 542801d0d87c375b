use vstd::prelude::*;
use vstd::utf8::*;
use crate::order::{lex_lt, lemma_lex_irreflexive, lemma_lex_transitive, lemma_lex_total};

verus! {

/// Strict order on keys: the dictionary order of their UTF-8 bytes.
pub open spec fn key_lt(a: Seq<char>, b: Seq<char>) -> bool {
    lex_lt(encode_utf8(a), encode_utf8(b))
}

/// Keys strictly increase along the sequence, so no key occurs twice.
pub open spec fn sorted<T>(e: Seq<(Seq<char>, T)>) -> bool {
    forall|i: int, j: int| 0 <= i < j < e.len() ==> key_lt(#[trigger] e[i].0, #[trigger] e[j].0)
}

/// The number of entries whose key is strictly below `key`.
pub open spec fn rank<T>(e: Seq<(Seq<char>, T)>, key: Seq<char>) -> int
    decreases e.len(),
{
    if e.len() == 0 {
        0
    } else {
        rank(e.drop_last(), key) + if key_lt(e.last().0, key) {
            1int
        } else {
            0int
        }
    }
}

/// Whether some entry carries `key`.
pub open spec fn has_key<T>(e: Seq<(Seq<char>, T)>, key: Seq<char>) -> bool {
    let p = rank(e, key);
    0 <= p < e.len() && e[p].0 == key
}

/// The payload stored under `key`, if any.
pub open spec fn entry_find<T>(e: Seq<(Seq<char>, T)>, key: Seq<char>) -> Option<T> {
    if has_key(e, key) {
        Some(e[rank(e, key)].1)
    } else {
        None
    }
}

/// The entries after storing `v` under `key`: an existing entry is overwritten
/// in place, a new one is put where the order wants it.
pub open spec fn entry_insert<T>(e: Seq<(Seq<char>, T)>, key: Seq<char>, v: T) -> Seq<
    (Seq<char>, T),
> {
    if has_key(e, key) {
        e.update(rank(e, key), (key, v))
    } else {
        e.insert(rank(e, key), (key, v))
    }
}

/// The entries after dropping the one under `key`, if there is one.
pub open spec fn entry_remove<T>(e: Seq<(Seq<char>, T)>, key: Seq<char>) -> Seq<(Seq<char>, T)> {
    if has_key(e, key) {
        e.remove(rank(e, key))
    } else {
        e
    }
}

/// No key is below itself.
pub proof fn lemma_key_lt_irreflexive(a: Seq<char>)
    ensures
        !key_lt(a, a),
{
    lemma_lex_irreflexive(encode_utf8(a));
}

/// A key below a key that is below a third is below the third.
pub proof fn lemma_key_lt_transitive(a: Seq<char>, b: Seq<char>, c: Seq<char>)
    requires
        key_lt(a, b),
        key_lt(b, c),
    ensures
        key_lt(a, c),
{
    lemma_lex_transitive(encode_utf8(a), encode_utf8(b), encode_utf8(c));
}

/// Of two keys at most one is below the other.
pub proof fn lemma_key_lt_asymmetric(a: Seq<char>, b: Seq<char>)
    requires
        key_lt(a, b),
    ensures
        !key_lt(b, a),
{
    if key_lt(b, a) {
        lemma_key_lt_transitive(a, b, a);
        lemma_key_lt_irreflexive(a);
    }
}

/// Two keys with the same UTF-8 bytes are the same key.
pub proof fn lemma_key_bytes_injective(a: Seq<char>, b: Seq<char>)
    requires
        encode_utf8(a) == encode_utf8(b),
    ensures
        a == b,
{
    encode_utf8_decode_utf8(a);
    encode_utf8_decode_utf8(b);
}

/// Of two different keys one is below the other.
pub proof fn lemma_key_lt_total(a: Seq<char>, b: Seq<char>)
    ensures
        key_lt(a, b) || key_lt(b, a) || a == b,
{
    lemma_lex_total(encode_utf8(a), encode_utf8(b));
    if encode_utf8(a) == encode_utf8(b) {
        lemma_key_bytes_injective(a, b);
    }
}

/// A split point with only smaller keys before it and no smaller key from it
/// on is the rank of the key.
pub proof fn lemma_rank_is_split<T>(e: Seq<(Seq<char>, T)>, key: Seq<char>, p: int)
    requires
        0 <= p <= e.len(),
        forall|j: int| 0 <= j < p ==> key_lt(#[trigger] e[j].0, key),
        forall|j: int| p <= j < e.len() ==> !key_lt(#[trigger] e[j].0, key),
    ensures
        rank(e, key) == p,
    decreases e.len(),
{
    if e.len() > 0 {
        let d = e.drop_last();
        assert forall|j: int| 0 <= j < d.len() implies d[j] == e[j] by {}
        if p == e.len() {
            assert(key_lt(e[p - 1].0, key));
            lemma_rank_is_split(d, key, p - 1);
        } else {
            assert(!key_lt(e[e.len() - 1].0, key));
            lemma_rank_is_split(d, key, p);
        }
    }
}

/// In sorted entries the rank of a key splits them: smaller keys before it,
/// the key itself or greater keys from it on.
pub proof fn lemma_rank_splits<T>(e: Seq<(Seq<char>, T)>, key: Seq<char>)
    requires
        sorted(e),
    ensures
        0 <= rank(e, key) <= e.len(),
        forall|j: int| 0 <= j < rank(e, key) ==> key_lt(#[trigger] e[j].0, key),
        forall|j: int| rank(e, key) <= j < e.len() ==> !key_lt(#[trigger] e[j].0, key),
    decreases e.len(),
{
    if e.len() > 0 {
        let d = e.drop_last();
        assert forall|j: int| 0 <= j < d.len() implies d[j] == e[j] by {}
        assert(sorted(d)) by {
            assert forall|i: int, j: int| 0 <= i < j < d.len() implies key_lt(
                #[trigger] d[i].0,
                #[trigger] d[j].0,
            ) by {
                assert(key_lt(e[i].0, e[j].0));
            }
        }
        lemma_rank_splits(d, key);
        let last = e.len() - 1;
        if key_lt(e[last].0, key) {
            assert forall|j: int| 0 <= j < rank(e, key) implies key_lt(#[trigger] e[j].0, key) by {
                if j < last {
                    assert(key_lt(e[j].0, e[last].0));
                    lemma_key_lt_transitive(e[j].0, e[last].0, key);
                }
            }
            assert(rank(d, key) == last) by {
                if rank(d, key) < last {
                    let r = rank(d, key);
                    assert(!key_lt(d[r].0, key));
                    assert(key_lt(e[r].0, e[last].0));
                    lemma_key_lt_transitive(e[r].0, e[last].0, key);
                }
            }
        }
    }
}

/// A key occurs in sorted entries exactly where `has_key` says, and nowhere else.
pub proof fn lemma_has_key_iff<T>(e: Seq<(Seq<char>, T)>, key: Seq<char>)
    requires
        sorted(e),
    ensures
        has_key(e, key) <==> exists|i: int| 0 <= i < e.len() && #[trigger] e[i].0 == key,
        forall|i: int| 0 <= i < e.len() && #[trigger] e[i].0 == key ==> i == rank(e, key),
{
    lemma_rank_splits(e, key);
    lemma_key_lt_irreflexive(key);
    let p = rank(e, key);
    assert forall|i: int| 0 <= i < e.len() && #[trigger] e[i].0 == key implies i == p by {
        if i < p {
            assert(key_lt(e[i].0, key));
        } else if i > p {
            assert(key_lt(e[p].0, e[i].0));
            assert(!key_lt(e[p].0, key));
        }
    }
}

/// Storing under a key keeps the entries sorted.
pub proof fn lemma_insert_sorted<T>(e: Seq<(Seq<char>, T)>, key: Seq<char>, v: T)
    requires
        sorted(e),
    ensures
        sorted(entry_insert(e, key, v)),
{
    lemma_rank_splits(e, key);
    let p = rank(e, key);
    let r = entry_insert(e, key, v);
    if has_key(e, key) {
        assert forall|i: int, j: int| 0 <= i < j < r.len() implies key_lt(
            #[trigger] r[i].0,
            #[trigger] r[j].0,
        ) by {
            assert(r[i].0 == e[i].0);
            assert(r[j].0 == e[j].0);
            assert(key_lt(e[i].0, e[j].0));
        }
    } else {
        assert forall|i: int, j: int| 0 <= i < j < r.len() implies key_lt(
            #[trigger] r[i].0,
            #[trigger] r[j].0,
        ) by {
            if j < p {
                assert(key_lt(e[i].0, e[j].0));
            } else if j == p {
                assert(key_lt(e[i].0, key));
            } else if i == p {
                assert(r[j] == e[j - 1]);
                assert(!key_lt(e[j - 1].0, key));
                lemma_key_lt_total(e[j - 1].0, key);
                if e[j - 1].0 == key {
                    if j - 1 > p {
                        assert(key_lt(e[p].0, e[j - 1].0));
                        assert(!key_lt(e[p].0, key));
                    }
                }
            } else if i < p {
                assert(r[j] == e[j - 1]);
                assert(key_lt(e[i].0, e[j - 1].0));
            } else {
                assert(r[i] == e[i - 1]);
                assert(r[j] == e[j - 1]);
                assert(key_lt(e[i - 1].0, e[j - 1].0));
            }
        }
    }
}

/// Dropping a key keeps the entries sorted.
pub proof fn lemma_remove_sorted<T>(e: Seq<(Seq<char>, T)>, key: Seq<char>)
    requires
        sorted(e),
    ensures
        sorted(entry_remove(e, key)),
{
    let p = rank(e, key);
    let r = entry_remove(e, key);
    if has_key(e, key) {
        assert forall|i: int, j: int| 0 <= i < j < r.len() implies key_lt(
            #[trigger] r[i].0,
            #[trigger] r[j].0,
        ) by {
            let i0 = if i < p { i } else { i + 1 };
            let j0 = if j < p { j } else { j + 1 };
            assert(r[i] == e[i0]);
            assert(r[j] == e[j0]);
            assert(key_lt(e[i0].0, e[j0].0));
        }
    }
}

/// What a lookup finds after a store: the stored payload under the stored
/// key, and under every other key what was there before.
pub proof fn lemma_find_after_insert<T>(
    e: Seq<(Seq<char>, T)>,
    key: Seq<char>,
    v: T,
    other: Seq<char>,
)
    requires
        sorted(e),
    ensures
        entry_find(entry_insert(e, key, v), other) == if other == key {
            Some(v)
        } else {
            entry_find(e, other)
        },
{
    let r = entry_insert(e, key, v);
    let p = rank(e, key);
    lemma_insert_sorted(e, key, v);
    lemma_rank_splits(e, key);
    lemma_has_key_iff(e, other);
    lemma_has_key_iff(r, other);
    lemma_has_key_iff(e, key);
    if has_key(e, key) {
        assert(r[p].0 == key);
        if other != key {
            if has_key(e, other) {
                let q = rank(e, other);
                assert(r[q].0 == other);
            }
            if has_key(r, other) {
                let q = rank(r, other);
                assert(e[q].0 == other);
            }
        }
    } else {
        assert(r[p].0 == key);
        if other != key {
            if has_key(e, other) {
                let q = rank(e, other);
                let q1 = if q < p { q } else { q + 1 };
                assert(r[q1] == e[q]);
                assert(r[q1].0 == other);
            }
            if has_key(r, other) {
                let q = rank(r, other);
                let q0 = if q < p { q } else { q - 1 };
                assert(r[q] == e[q0]);
                assert(e[q0].0 == other);
            }
        }
    }
}

/// What a lookup finds after a removal: nothing under the removed key, and
/// under every other key what was there before.
pub proof fn lemma_find_after_remove<T>(e: Seq<(Seq<char>, T)>, key: Seq<char>, other: Seq<char>)
    requires
        sorted(e),
    ensures
        entry_find(entry_remove(e, key), other) == if other == key {
            None
        } else {
            entry_find(e, other)
        },
{
    let r = entry_remove(e, key);
    let p = rank(e, key);
    lemma_remove_sorted(e, key);
    lemma_has_key_iff(e, other);
    lemma_has_key_iff(r, other);
    lemma_has_key_iff(e, key);
    if has_key(e, key) {
        if has_key(r, other) {
            let q = rank(r, other);
            let q0 = if q < p { q } else { q + 1 };
            assert(r[q] == e[q0]);
            assert(e[q0].0 == other);
        }
        if other != key && has_key(e, other) {
            let q = rank(e, other);
            let q1 = if q < p { q } else { q - 1 };
            assert(r[q1] == e[q]);
            assert(r[q1].0 == other);
        }
    }
}

/// After any store under a key, exactly one entry carries that key, and it
/// holds the payload stored last.
pub proof fn lemma_insert_unique<T>(e: Seq<(Seq<char>, T)>, key: Seq<char>, v: T)
    requires
        sorted(e),
    ensures
        ({
            let r = entry_insert(e, key, v);
            &&& exists|i: int| 0 <= i < r.len() && #[trigger] r[i] == (key, v)
            &&& forall|i: int, j: int|
                0 <= i < r.len() && 0 <= j < r.len() && #[trigger] r[i].0 == key && #[trigger] r[j].0
                    == key ==> i == j
        }),
{
    let r = entry_insert(e, key, v);
    lemma_insert_sorted(e, key, v);
    lemma_rank_splits(e, key);
    lemma_has_key_iff(r, key);
    assert(r[rank(e, key)] == (key, v));
}

/// Rank and presence of a key depend on the names alone, not on what is
/// stored under them.
pub proof fn lemma_rank_by_keys<T, U>(
    e1: Seq<(Seq<char>, T)>,
    e2: Seq<(Seq<char>, U)>,
    key: Seq<char>,
)
    requires
        e1.len() == e2.len(),
        forall|i: int| 0 <= i < e1.len() ==> (#[trigger] e1[i]).0 == e2[i].0,
    ensures
        rank(e1, key) == rank(e2, key),
        has_key(e1, key) == has_key(e2, key),
    decreases e1.len(),
{
    if e1.len() > 0 {
        let d1 = e1.drop_last();
        let d2 = e2.drop_last();
        assert forall|i: int| 0 <= i < d1.len() implies (#[trigger] d1[i]).0 == d2[i].0 by {
            assert(d1[i] == e1[i]);
            assert(d2[i] == e2[i]);
        }
        lemma_rank_by_keys(d1, d2, key);
        assert(e1.last() == e1[e1.len() - 1]);
        assert(e2.last() == e2[e2.len() - 1]);
    }
    let p = rank(e1, key);
    if 0 <= p < e1.len() {
        assert(e1[p].0 == e2[p].0);
    }
}

/// Storing under a key that was dropped just before gives what storing under
/// it at once gives.
pub proof fn lemma_insert_after_remove<T>(e: Seq<(Seq<char>, T)>, key: Seq<char>, v: T)
    requires
        sorted(e),
    ensures
        entry_insert(entry_remove(e, key), key, v) == entry_insert(e, key, v),
{
    let r = entry_remove(e, key);
    let p = rank(e, key);
    lemma_rank_splits(e, key);
    lemma_remove_sorted(e, key);
    lemma_has_key_iff(e, key);
    lemma_has_key_iff(r, key);
    lemma_key_lt_irreflexive(key);
    if has_key(e, key) {
        assert forall|j: int| 0 <= j < p implies key_lt(#[trigger] r[j].0, key) by {
            assert(r[j] == e[j]);
        }
        assert forall|j: int| p <= j < r.len() implies !key_lt(#[trigger] r[j].0, key) by {
            assert(r[j] == e[j + 1]);
        }
        lemma_rank_is_split(r, key, p);
        if has_key(r, key) {
            assert(r[p] == e[p + 1]);
            assert(key_lt(e[p].0, e[p + 1].0));
        }
        assert(entry_insert(r, key, v) =~= entry_insert(e, key, v));
    }
}

/// Of two stores under one key the second decides.
pub proof fn lemma_insert_twice<T>(e: Seq<(Seq<char>, T)>, key: Seq<char>, x: T, y: T)
    requires
        sorted(e),
    ensures
        entry_insert(entry_insert(e, key, x), key, y) == entry_insert(e, key, y),
{
    let r = entry_insert(e, key, x);
    let p = rank(e, key);
    lemma_rank_splits(e, key);
    lemma_insert_sorted(e, key, x);
    lemma_has_key_iff(r, key);
    assert(r[p].0 == key);
    assert(entry_insert(r, key, y) =~= entry_insert(e, key, y));
}

} // verus!
