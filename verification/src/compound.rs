use vstd::prelude::*;
use vstd::string::StringSliceAdditionalSpecFns;
use crate::order::{order_bytes, KeyOrder};
use crate::entries::{
    entry_find, entry_insert, entry_remove, has_key, key_lt, lemma_has_key_iff,
    lemma_insert_sorted, lemma_key_bytes_injective, lemma_key_lt_asymmetric,
    lemma_key_lt_irreflexive, lemma_key_lt_transitive, lemma_rank_is_split, lemma_rank_splits,
    lemma_remove_sorted, rank, sorted,
};

verus! {

/// The index of a compound node: child handles by name, kept sorted by name so
/// that every operation can search by halving.
#[derive(Debug)]
pub struct NBTCompound(pub(crate) Vec<(String, usize)>);

impl View for NBTCompound {
    type V = Seq<(Seq<char>, usize)>;

    closed spec fn view(&self) -> Seq<(Seq<char>, usize)> {
        self.0@.map_values(|e: (String, usize)| (e.0@, e.1))
    }
}

impl NBTCompound {
    /// Names strictly increase, hence no name occurs twice.
    pub open spec fn wf(&self) -> bool {
        sorted(self@)
    }

    /// An index without entries.
    pub fn new() -> (r: NBTCompound)
        ensures
            r@ == Seq::<(Seq<char>, usize)>::empty(),
            r.wf(),
    {
        let r = NBTCompound(Vec::new());
        assert(r@ =~= Seq::<(Seq<char>, usize)>::empty());
        r
    }

    /// The number of entries.
    pub fn len(&self) -> (n: usize)
        ensures
            n == self@.len(),
    {
        self.0.len()
    }

    /// The name of the entry at a position of the sorted order.
    pub fn key_at(&self, i: usize) -> (k: &str)
        requires
            i < self@.len(),
        ensures
            k@ == self@[i as int].0,
    {
        self.0[i].0.as_str()
    }

    /// The handle of the entry at a position of the sorted order.
    pub fn handle_at(&self, i: usize) -> (h: usize)
        requires
            i < self@.len(),
        ensures
            h == self@[i as int].1,
    {
        self.0[i].1
    }

    /// The handle stored under `key`, if any.
    pub fn find(&self, key: &str) -> (r: Option<usize>)
        requires
            self.wf(),
        ensures
            r == entry_find(self@, key@),
    {
        match self.binary_search(key) {
            Ok(index) => Some(self.0[index].1),
            Err(_) => None,
        }
    }

    /// Drops the entry under `key` and hands back its handle, if there was one.
    pub fn remove(&mut self, key: &str) -> (r: Option<usize>)
        requires
            old(self).wf(),
        ensures
            final(self).wf(),
            final(self)@ == entry_remove(old(self)@, key@),
            r == entry_find(old(self)@, key@),
    {
        proof {
            lemma_remove_sorted(self@, key@);
        }
        match self.binary_search(key) {
            Ok(index) => {
                let e = self.0.remove(index);
                assert(self@ =~= entry_remove(old(self)@, key@));
                Some(e.1)
            },
            Err(_) => None,
        }
    }

    /// Stores `value` under `key`: an entry with that name is overwritten, and
    /// its former handle is forgotten, not freed.
    pub fn insert(&mut self, key: &str, value: usize)
        requires
            old(self).wf(),
        ensures
            final(self).wf(),
            final(self)@ == entry_insert(old(self)@, key@, value),
    {
        proof {
            lemma_insert_sorted(self@, key@, value);
        }
        match self.binary_search(key) {
            Ok(index) => {
                let e = self.0.remove(index);
                self.0.insert(index, (e.0, value));
                assert(self@ =~= entry_insert(old(self)@, key@, value));
            },
            Err(index) => {
                self.0.insert(index, (key.to_owned(), value));
                assert(self@ =~= entry_insert(old(self)@, key@, value));
            },
        }
    }

    /// Searches the sorted entries by halving: `Ok` with the position of the
    /// entry under `key`, or `Err` with the position where it would be put.
    pub fn binary_search(&self, key: &str) -> (r: Result<usize, usize>)
        requires
            self.wf(),
        ensures
            match r {
                Ok(i) => has_key(self@, key@) && i == rank(self@, key@),
                Err(i) => !has_key(self@, key@) && i == rank(self@, key@),
            },
            0 <= rank(self@, key@) <= self@.len(),
    {
        let mut lo: usize = 0;
        let mut hi: usize = self.0.len();
        proof {
            lemma_rank_splits(self@, key@);
        }
        while lo < hi
            invariant
                lo <= hi <= self@.len(),
                self@.len() == self.0.len(),
                self.wf(),
                forall|j: int| 0 <= j < lo ==> key_lt(#[trigger] self@[j].0, key@),
                forall|j: int| hi <= j < self@.len() ==> key_lt(key@, #[trigger] self@[j].0),
            decreases hi - lo,
        {
            let mid: usize = lo + (hi - lo) / 2;
            let here = self.0[mid].0.as_str();
            assert(here@ == self@[mid as int].0);
            match order_bytes(here.as_bytes(), key.as_bytes()) {
                KeyOrder::Less => {
                    proof {
                        assert forall|j: int| 0 <= j < mid + 1 implies key_lt(
                            #[trigger] self@[j].0,
                            key@,
                        ) by {
                            if j < mid {
                                assert(key_lt(self@[j].0, self@[mid as int].0));
                                lemma_key_lt_transitive(self@[j].0, self@[mid as int].0, key@);
                            }
                        }
                    }
                    lo = mid + 1;
                },
                KeyOrder::Greater => {
                    proof {
                        assert forall|j: int| mid <= j < self@.len() implies key_lt(
                            key@,
                            #[trigger] self@[j].0,
                        ) by {
                            if j > mid {
                                assert(key_lt(self@[mid as int].0, self@[j].0));
                                lemma_key_lt_transitive(key@, self@[mid as int].0, self@[j].0);
                            }
                        }
                    }
                    hi = mid;
                },
                KeyOrder::Equal => {
                    proof {
                        lemma_key_bytes_injective(here@, key@);
                        lemma_has_key_iff(self@, key@);
                    }
                    return Ok(mid);
                },
            }
        }
        proof {
            assert forall|j: int| lo <= j < self@.len() implies !key_lt(
                #[trigger] self@[j].0,
                key@,
            ) by {
                lemma_key_lt_asymmetric(key@, self@[j].0);
            }
            lemma_rank_is_split(self@, key@, lo as int);
            if lo < self@.len() {
                lemma_key_lt_irreflexive(key@);
            }
        }
        Err(lo)
    }
}

impl Clone for NBTCompound {
    fn clone(&self) -> (r: NBTCompound)
        ensures
            r@ == self@,
    {
        let mut v: Vec<(String, usize)> = Vec::new();
        let mut i: usize = 0;
        while i < self.0.len()
            invariant
                i <= self.0.len(),
                v@.len() == i,
                forall|j: int| 0 <= j < i ==> v@[j].0@ == self.0@[j].0@ && v@[j].1 == self.0@[j].1,
            decreases self.0.len() - i,
        {
            v.push((self.0[i].0.clone(), self.0[i].1));
            i += 1;
        }
        let r = NBTCompound(v);
        assert(r@ =~= self@);
        r
    }
}

impl Default for NBTCompound {
    fn default() -> (r: NBTCompound)
        ensures
            r@ == Seq::<(Seq<char>, usize)>::empty(),
    {
        NBTCompound::new()
    }
}

} // verus!
