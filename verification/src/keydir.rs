//! The key directory: live keys in key order, each with its entry.

use crate::assoc::{assoc, lemma_assoc_at, lemma_assoc_insert, lemma_assoc_remove, lemma_assoc_update};
use crate::order::{
    bytes_lt, bytes_rank, lemma_bytes_lt_transitive, lemma_listing_unique, lemma_sorted_distinct,
    lemma_sorted_insert, lemma_sorted_remove, lists_in_order, sorted_keys, strictly_sorted, Rank,
};
use crate::types::Entry;
use vstd::prelude::*;

verus! {

/// A map from keys to entries that enumerates in key order.
///
/// Keys and entries are held in two parallel vectors, the keys strictly
/// increasing.
pub struct KeyDir {
    keys: Vec<Vec<u8>>,
    entries: Vec<Entry>,
}

impl KeyDir {
    /// The keys, in the order in which they are enumerated.
    pub closed spec fn ordered_keys(&self) -> Seq<Seq<u8>> {
        Seq::new(self.keys@.len(), |i: int| self.keys@[i]@)
    }

    /// The entries, each at the position of its key.
    pub closed spec fn ordered_entries(&self) -> Seq<Entry> {
        self.entries@
    }

    /// Every key has one entry and the keys are strictly increasing.
    pub open spec fn wf(&self) -> bool {
        &&& self.ordered_keys().len() == self.ordered_entries().len()
        &&& strictly_sorted(self.ordered_keys())
    }

    /// The directory as a map.
    pub open spec fn view(&self) -> Map<Seq<u8>, Entry> {
        assoc(self.ordered_keys(), self.ordered_entries())
    }

    /// The enumeration lists the keys of the map in key order, and each
    /// entry stands at the position of its key.
    pub proof fn lemma_ordered(&self)
        requires
            self.wf(),
        ensures
            self.ordered_keys() == sorted_keys(self@.dom()),
            forall|i: int|
                0 <= i < self.ordered_keys().len() ==> self@.contains_key(
                    #[trigger] self.ordered_keys()[i],
                ) && self@[self.ordered_keys()[i]] == self.ordered_entries()[i],
    {
        lemma_sorted_distinct(self.ordered_keys());
        assert(lists_in_order(self.ordered_keys(), self@.dom()));
        lemma_listing_unique(self.ordered_keys(), sorted_keys(self@.dom()), self@.dom());
        assert forall|i: int| 0 <= i < self.ordered_keys().len() implies self@.contains_key(
            #[trigger] self.ordered_keys()[i],
        ) && self@[self.ordered_keys()[i]] == self.ordered_entries()[i] by {
            lemma_assoc_at(self.ordered_keys(), self.ordered_entries(), i);
        }
    }

    /// An empty directory.
    pub fn new() -> (r: KeyDir)
        ensures
            r.wf(),
            r.ordered_keys() == Seq::<Seq<u8>>::empty(),
            r.ordered_entries() == Seq::<Entry>::empty(),
            r@ == Map::<Seq<u8>, Entry>::empty(),
    {
        let r = KeyDir { keys: Vec::new(), entries: Vec::new() };
        assert(r.ordered_keys() =~= Seq::<Seq<u8>>::empty());
        assert(r@ =~= Map::<Seq<u8>, Entry>::empty());
        r
    }

    /// Number of keys.
    pub fn len(&self) -> (n: usize)
        requires
            self.wf(),
        ensures
            n == self.ordered_keys().len(),
    {
        self.keys.len()
    }

    /// The key at position `i` of the enumeration.
    pub fn key_at(&self, i: usize) -> (key: &Vec<u8>)
        requires
            self.wf(),
            i < self.ordered_keys().len(),
        ensures
            key@ == self.ordered_keys()[i as int],
    {
        &self.keys[i]
    }

    /// The entry at position `i` of the enumeration.
    pub fn entry_at(&self, i: usize) -> (entry: Entry)
        requires
            self.wf(),
            i < self.ordered_keys().len(),
        ensures
            entry == self.ordered_entries()[i as int],
    {
        self.entries[i]
    }

    /// Where `key` stands among the keys: its position if it is present,
    /// else the position at which it would have to be inserted.
    fn locate(&self, key: &[u8]) -> (r: (usize, bool))
        requires
            self.wf(),
        ensures
            r.0 <= self.ordered_keys().len(),
            r.1 ==> r.0 < self.ordered_keys().len() && self.ordered_keys()[r.0 as int] == key@,
            !r.1 ==> forall|j: int| 0 <= j < r.0 ==> bytes_lt(#[trigger] self.ordered_keys()[j], key@),
            !r.1 ==> forall|j: int|
                r.0 <= j < self.ordered_keys().len() ==> bytes_lt(
                    key@,
                    #[trigger] self.ordered_keys()[j],
                ),
    {
        let mut lo: usize = 0;
        let mut hi: usize = self.keys.len();
        while lo < hi
            invariant
                self.wf(),
                lo <= hi <= self.ordered_keys().len(),
                self.keys@.len() == self.ordered_keys().len(),
                forall|j: int| 0 <= j < lo ==> bytes_lt(#[trigger] self.ordered_keys()[j], key@),
                forall|j: int|
                    hi <= j < self.ordered_keys().len() ==> bytes_lt(
                        key@,
                        #[trigger] self.ordered_keys()[j],
                    ),
            decreases hi - lo,
        {
            let mid: usize = lo + (hi - lo) / 2;
            let rank = bytes_rank(self.keys[mid].as_slice(), key);
            assert(self.keys@[mid as int]@ == self.ordered_keys()[mid as int]);
            match rank {
                Rank::Same => {
                    return (mid, true);
                },
                Rank::Before => {
                    assert forall|j: int| 0 <= j < mid + 1 implies bytes_lt(
                        #[trigger] self.ordered_keys()[j],
                        key@,
                    ) by {
                        if j < mid {
                            lemma_bytes_lt_transitive(
                                self.ordered_keys()[j],
                                self.ordered_keys()[mid as int],
                                key@,
                            );
                        }
                    }
                    lo = mid + 1;
                },
                Rank::After => {
                    assert forall|j: int| mid <= j < self.ordered_keys().len() implies bytes_lt(
                        key@,
                        #[trigger] self.ordered_keys()[j],
                    ) by {
                        if mid < j {
                            lemma_bytes_lt_transitive(
                                key@,
                                self.ordered_keys()[mid as int],
                                self.ordered_keys()[j],
                            );
                        }
                    }
                    hi = mid;
                },
            }
        }
        (lo, false)
    }

    /// The entry of `key`, if the key is present.
    pub fn get(&self, key: &[u8]) -> (r: Option<Entry>)
        requires
            self.wf(),
        ensures
            r == if self@.contains_key(key@) {
                Some(self@[key@])
            } else {
                None
            },
    {
        let (idx, found) = self.locate(key);
        proof {
            lemma_sorted_distinct(self.ordered_keys());
        }
        if found {
            proof {
                lemma_assoc_at(self.ordered_keys(), self.ordered_entries(), idx as int);
            }
            Some(self.entries[idx])
        } else {
            proof {
                lemma_sorted_insert(self.ordered_keys(), idx as int, key@);
            }
            None
        }
    }

    /// Binds `key` to `entry`, replacing the entry it had.
    pub fn insert(&mut self, key: Vec<u8>, entry: Entry)
        requires
            old(self).wf(),
        ensures
            final(self).wf(),
            final(self)@ == old(self)@.insert(key@, entry),
    {
        let (idx, found) = self.locate(key.as_slice());
        proof {
            lemma_sorted_distinct(self.ordered_keys());
        }
        if found {
            proof {
                lemma_assoc_update(self.ordered_keys(), self.ordered_entries(), idx as int, entry);
            }
            self.entries.set(idx, entry);
            assert(self.ordered_keys() == old(self).ordered_keys());
        } else {
            proof {
                lemma_sorted_insert(self.ordered_keys(), idx as int, key@);
                lemma_assoc_insert(
                    self.ordered_keys(),
                    self.ordered_entries(),
                    idx as int,
                    key@,
                    entry,
                );
            }
            self.keys.insert(idx, key);
            self.entries.insert(idx, entry);
            assert(self.ordered_keys() =~= old(self).ordered_keys().insert(idx as int, key@));
        }
    }

    /// Unbinds `key` and returns the entry it had.
    pub fn remove(&mut self, key: &[u8]) -> (r: Option<Entry>)
        requires
            old(self).wf(),
        ensures
            final(self).wf(),
            final(self)@ == old(self)@.remove(key@),
            r == if old(self)@.contains_key(key@) {
                Some(old(self)@[key@])
            } else {
                None
            },
    {
        let (idx, found) = self.locate(key);
        proof {
            lemma_sorted_distinct(self.ordered_keys());
        }
        if found {
            proof {
                lemma_assoc_at(self.ordered_keys(), self.ordered_entries(), idx as int);
                lemma_sorted_remove(self.ordered_keys(), idx as int);
                lemma_assoc_remove(self.ordered_keys(), self.ordered_entries(), idx as int);
            }
            self.keys.remove(idx);
            let entry = self.entries.remove(idx);
            assert(self.ordered_keys() =~= old(self).ordered_keys().remove(idx as int));
            Some(entry)
        } else {
            proof {
                lemma_sorted_insert(self.ordered_keys(), idx as int, key@);
                assert(self@ =~= self@.remove(key@));
            }
            None
        }
    }

    /// Gives every key a new entry: the one at its position in `entries`.
    pub fn set_entries(&mut self, entries: Vec<Entry>)
        requires
            old(self).wf(),
            entries@.len() == old(self).ordered_keys().len(),
        ensures
            final(self).wf(),
            final(self).ordered_keys() == old(self).ordered_keys(),
            final(self).ordered_entries() == entries@,
    {
        self.entries = entries;
    }
}

} // verus!
