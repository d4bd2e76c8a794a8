//! The free-slot index: freed extents, grouped by their length.

use crate::assoc::{assoc, lemma_assoc_at, lemma_assoc_insert, lemma_assoc_remove, lemma_assoc_update};
use crate::types::Slot;
use vstd::prelude::*;

verus! {

/// The index with `slot` added as the most recently freed of its length.
pub open spec fn free_push(free: Map<u64, Seq<Slot>>, slot: Slot) -> Map<u64, Seq<Slot>> {
    let len = (slot.end - slot.start) as u64;
    if free.contains_key(len) {
        free.insert(len, free[len].push(slot))
    } else {
        free.insert(len, seq![slot])
    }
}

/// `len` is the smallest length in the index that is at least `need`.
pub open spec fn first_fit(free: Map<u64, Seq<Slot>>, need: u64, len: u64) -> bool {
    &&& free.contains_key(len)
    &&& need <= len
    &&& forall|k: u64| free.contains_key(k) && need <= k ==> len <= k
}

/// The length class that serves a request for `need` bytes.
pub open spec fn fit_len(free: Map<u64, Seq<Slot>>, need: u64) -> u64 {
    choose|len: u64| first_fit(free, need, len)
}

/// The extent that serves a request for `need` bytes: of the smallest
/// length class that is large enough, the most recently freed one.
pub open spec fn free_select(free: Map<u64, Seq<Slot>>, need: u64) -> Option<Slot> {
    if exists|len: u64| first_fit(free, need, len) {
        Some(free[fit_len(free, need)].last())
    } else {
        None
    }
}

/// The index without the extent that serves a request for `need` bytes.
pub open spec fn free_take(free: Map<u64, Seq<Slot>>, need: u64) -> Map<u64, Seq<Slot>> {
    if exists|len: u64| first_fit(free, need, len) {
        let len = fit_len(free, need);
        if free[len].len() == 1 {
            free.remove(len)
        } else {
            free.insert(len, free[len].drop_last())
        }
    } else {
        free
    }
}

/// No length class is empty, and each holds extents of exactly its length.
pub open spec fn free_wf(free: Map<u64, Seq<Slot>>) -> bool {
    forall|len: u64| #[trigger]
        free.contains_key(len) ==> {
            &&& free[len].len() > 0
            &&& forall|i: int|
                0 <= i < free[len].len() ==> (#[trigger] free[len][i]).start + len
                    == free[len][i].end
        }
}

/// `slot` is one of the extents in the index.
pub open spec fn free_contains(free: Map<u64, Seq<Slot>>, slot: Slot) -> bool {
    exists|len: u64, i: int|
        free.contains_key(len) && 0 <= i < free[len].len() && #[trigger] free[len][i] == slot
}

/// Whenever some length class is large enough, one of them is the first
/// fit, and it is no larger than any other.
pub proof fn lemma_fit_exists(free: Map<u64, Seq<Slot>>, need: u64, len: u64)
    requires
        free.contains_key(len),
        need <= len,
    ensures
        free_select(free, need) is Some,
        first_fit(free, need, fit_len(free, need)),
        fit_len(free, need) <= len,
    decreases len - need,
{
    if exists|k: u64| free.contains_key(k) && need <= k < len {
        let k = choose|k: u64| free.contains_key(k) && need <= k < len;
        lemma_fit_exists(free, need, k);
    } else {
        assert(first_fit(free, need, len));
    }
}

/// What is chosen once `slot` has been freed: `slot` itself if it is large
/// enough and no smaller length class is, else what was chosen before.
pub proof fn lemma_select_after_push(free: Map<u64, Seq<Slot>>, slot: Slot, need: u64)
    requires
        slot.start <= slot.end,
    ensures
        free_select(free_push(free, slot), need) == if need <= slot.end - slot.start && (free_select(
            free,
            need,
        ) is None || slot.end - slot.start <= fit_len(free, need)) {
            Some(slot)
        } else {
            free_select(free, need)
        },
{
    let len = (slot.end - slot.start) as u64;
    let pushed = free_push(free, slot);
    assert(pushed.contains_key(len) && pushed[len].last() == slot);
    if free_select(free, need) is Some {
        let fit = fit_len(free, need);
        assert(first_fit(free, need, fit));
        if need <= len && len <= fit {
            assert(first_fit(pushed, need, len));
            lemma_first_fit_unique(pushed, need, len);
        } else {
            assert(first_fit(pushed, need, fit));
            lemma_first_fit_unique(pushed, need, fit);
        }
    } else if need <= len {
        assert forall|k: u64| pushed.contains_key(k) && need <= k implies len <= k by {
            if k != len {
                lemma_fit_exists(free, need, k);
            }
        }
        assert(first_fit(pushed, need, len));
        lemma_first_fit_unique(pushed, need, len);
    } else {
        assert forall|k: u64| !first_fit(pushed, need, k) by {
            if first_fit(pushed, need, k) {
                lemma_fit_exists(free, need, k);
            }
        }
    }
}

/// Only one length can be the first fit.
pub proof fn lemma_first_fit_unique(free: Map<u64, Seq<Slot>>, need: u64, len: u64)
    requires
        first_fit(free, need, len),
    ensures
        fit_len(free, need) == len,
        free_select(free, need) == Some(free[len].last()),
{
    let other = fit_len(free, need);
    assert(first_fit(free, need, other));
}

/// Free extents grouped by length, the lengths strictly increasing and no
/// group empty.
pub struct FreeSlots {
    lens: Vec<u64>,
    buckets: Vec<Vec<Slot>>,
}

impl FreeSlots {
    /// The lengths that have a group, in increasing order.
    pub closed spec fn lens_view(&self) -> Seq<u64> {
        self.lens@
    }

    /// The groups, each at the position of its length.
    pub closed spec fn buckets_view(&self) -> Seq<Seq<Slot>> {
        Seq::new(self.buckets@.len(), |i: int| self.buckets@[i]@)
    }

    /// The index as a map from length to the extents of that length, the
    /// most recently freed last.
    pub open spec fn view(&self) -> Map<u64, Seq<Slot>> {
        assoc(self.lens_view(), self.buckets_view())
    }

    /// One group per length, lengths strictly increasing, no group empty,
    /// every extent of the length of its group.
    pub open spec fn wf(&self) -> bool {
        &&& self.lens_view().len() == self.buckets_view().len()
        &&& forall|i: int, j: int|
            0 <= i < j < self.lens_view().len() ==> self.lens_view()[i] < self.lens_view()[j]
        &&& free_wf(self@)
    }

    proof fn lemma_distinct(&self)
        requires
            self.lens_view().len() == self.buckets_view().len(),
            forall|i: int, j: int|
                0 <= i < j < self.lens_view().len() ==> self.lens_view()[i] < self.lens_view()[j],
        ensures
            self.lens_view().no_duplicates(),
            forall|i: int|
                0 <= i < self.lens_view().len() ==> self@.contains_key(#[trigger] self.lens_view()[i])
                    && self@[self.lens_view()[i]] == self.buckets_view()[i],
    {
        assert forall|i: int, j: int|
            0 <= i < self.lens_view().len() && 0 <= j < self.lens_view().len() && i
                != j implies self.lens_view()[i] != self.lens_view()[j] by {
            if i < j {
                assert(self.lens_view()[i] < self.lens_view()[j]);
            } else {
                assert(self.lens_view()[j] < self.lens_view()[i]);
            }
        }
        assert forall|i: int| 0 <= i < self.lens_view().len() implies self@.contains_key(
            #[trigger] self.lens_view()[i],
        ) && self@[self.lens_view()[i]] == self.buckets_view()[i] by {
            lemma_assoc_at(self.lens_view(), self.buckets_view(), i);
        }
    }

    /// An empty index.
    pub fn new() -> (r: FreeSlots)
        ensures
            r.wf(),
            r@ == Map::<u64, Seq<Slot>>::empty(),
    {
        let r = FreeSlots { lens: Vec::new(), buckets: Vec::new() };
        assert(r.buckets_view() =~= Seq::<Seq<Slot>>::empty());
        assert(r@ =~= Map::<u64, Seq<Slot>>::empty());
        r
    }

    /// Position of the first length that is at least `need`.
    fn lower_bound(&self, need: u64) -> (idx: usize)
        requires
            self.wf(),
        ensures
            idx <= self.lens_view().len(),
            forall|j: int| 0 <= j < idx ==> self.lens_view()[j] < need,
            forall|j: int| idx <= j < self.lens_view().len() ==> need <= self.lens_view()[j],
    {
        let mut lo: usize = 0;
        let mut hi: usize = self.lens.len();
        while lo < hi
            invariant
                self.wf(),
                lo <= hi <= self.lens_view().len(),
                forall|j: int| 0 <= j < lo ==> self.lens_view()[j] < need,
                forall|j: int| hi <= j < self.lens_view().len() ==> need <= self.lens_view()[j],
            decreases hi - lo,
        {
            let mid: usize = lo + (hi - lo) / 2;
            if self.lens[mid] < need {
                lo = mid + 1;
            } else {
                hi = mid;
            }
        }
        lo
    }

    /// If some length is at least `need`, the first of them is the first fit.
    proof fn lemma_lower_bound_fits(&self, need: u64, idx: int)
        requires
            self.wf(),
            0 <= idx <= self.lens_view().len(),
            forall|j: int| 0 <= j < idx ==> self.lens_view()[j] < need,
            forall|j: int| idx <= j < self.lens_view().len() ==> need <= self.lens_view()[j],
        ensures
            idx < self.lens_view().len() ==> first_fit(self@, need, self.lens_view()[idx]),
            idx == self.lens_view().len() ==> !exists|len: u64| first_fit(self@, need, len),
    {
        self.lemma_distinct();
        if idx < self.lens_view().len() {
            let len = self.lens_view()[idx];
            assert forall|k: u64| self@.contains_key(k) && need <= k implies len <= k by {
                let j = choose|j: int| 0 <= j < self.lens_view().len() && self.lens_view()[j] == k;
                if j < idx {
                    assert(self.lens_view()[j] < need);
                }
            }
        } else {
            assert forall|len: u64| !first_fit(self@, need, len) by {
                if self@.contains_key(len) {
                    let j = choose|j: int|
                        0 <= j < self.lens_view().len() && self.lens_view()[j] == len;
                    assert(self.lens_view()[j] < need);
                }
            }
        }
    }

    /// The extent that a record of `need` bytes would be placed in.
    pub fn select(&self, need: u64) -> (r: Option<Slot>)
        requires
            self.wf(),
        ensures
            r == free_select(self@, need),
            r matches Some(slot) ==> slot.start + need <= slot.end && free_contains(self@, slot),
    {
        let idx = self.lower_bound(need);
        proof {
            self.lemma_lower_bound_fits(need, idx as int);
            self.lemma_distinct();
        }
        if idx < self.lens.len() {
            let bucket = &self.buckets[idx];
            proof {
                let len = self.lens_view()[idx as int];
                lemma_first_fit_unique(self@, need, len);
                assert(self.buckets_view()[idx as int] == bucket@);
                assert(self@[len] == bucket@);
                assert(bucket@.len() > 0);
                assert(self@[len][bucket@.len() - 1] == bucket@.last());
            }
            Some(bucket[bucket.len() - 1])
        } else {
            None
        }
    }

    /// Whether `slot` is one of the extents in the index.
    pub fn contains(&self, slot: Slot) -> (r: bool)
        requires
            self.wf(),
        ensures
            r == free_contains(self@, slot),
    {
        if slot.start > slot.end {
            assert(!free_contains(self@, slot)) by {
                if free_contains(self@, slot) {
                    let (len, i) = choose|len: u64, i: int|
                        self@.contains_key(len) && 0 <= i < self@[len].len() && #[trigger] self@[len][i]
                            == slot;
                    assert(self@[len][i].start + len == self@[len][i].end);
                }
            }
            return false;
        }
        let len: u64 = slot.end - slot.start;
        let idx = self.lower_bound(len);
        proof {
            self.lemma_distinct();
        }
        if idx >= self.lens.len() || self.lens[idx] != len {
            assert(!self@.contains_key(len)) by {
                if self@.contains_key(len) {
                    let j = choose|j: int|
                        0 <= j < self.lens_view().len() && self.lens_view()[j] == len;
                    if j < idx {
                        assert(self.lens_view()[j] < len);
                    } else if j > idx {
                        assert(self.lens_view()[idx as int] < self.lens_view()[j]);
                    }
                }
            }
            assert(!free_contains(self@, slot)) by {
                if free_contains(self@, slot) {
                    let (l, i) = choose|l: u64, i: int|
                        self@.contains_key(l) && 0 <= i < self@[l].len() && #[trigger] self@[l][i]
                            == slot;
                    assert(self@[l][i].start + l == self@[l][i].end);
                }
            }
            return false;
        }
        let bucket = &self.buckets[idx];
        assert(self@[len] == bucket@) by {
            assert(self.buckets_view()[idx as int] == bucket@);
        }
        let mut i: usize = 0;
        while i < bucket.len()
            invariant
                i <= bucket@.len(),
                self@.contains_key(len),
                self@[len] == bucket@,
                forall|j: int| 0 <= j < i ==> bucket@[j] != slot,
            decreases bucket@.len() - i,
        {
            let held = bucket[i];
            if held.file_id == slot.file_id && held.start == slot.start && held.end == slot.end {
                assert(self@[len][i as int] == slot);
                return true;
            }
            i = i + 1;
        }
        assert(!free_contains(self@, slot)) by {
            if free_contains(self@, slot) {
                let (l, j) = choose|l: u64, j: int|
                    self@.contains_key(l) && 0 <= j < self@[l].len() && #[trigger] self@[l][j]
                        == slot;
                assert(self@[l][j].start + l == self@[l][j].end);
                assert(bucket@[j] != slot);
            }
        }
        false
    }

    /// Adds `slot` as the most recently freed extent of its length.
    pub fn push(&mut self, slot: Slot)
        requires
            old(self).wf(),
            slot.start <= slot.end,
        ensures
            final(self).wf(),
            final(self)@ == free_push(old(self)@, slot),
    {
        let len: u64 = slot.end - slot.start;
        let idx = self.lower_bound(len);
        proof {
            self.lemma_distinct();
        }
        if idx < self.lens.len() && self.lens[idx] == len {
            let ghost grown = self.buckets_view()[idx as int].push(slot);
            proof {
                lemma_assoc_update(self.lens_view(), self.buckets_view(), idx as int, grown);
            }
            let mut bucket: Vec<Slot> = Vec::new();
            std::mem::swap(&mut bucket, &mut self.buckets[idx]);
            bucket.push(slot);
            self.buckets.set(idx, bucket);
            assert(self.buckets_view() =~= old(self).buckets_view().update(idx as int, grown));
            assert(free_wf(self@)) by {
                assert forall|l: u64| #[trigger] self@.contains_key(l) implies {
                    &&& self@[l].len() > 0
                    &&& forall|i: int|
                        0 <= i < self@[l].len() ==> (#[trigger] self@[l][i]).start + l
                            == self@[l][i].end
                } by {
                    if l != len {
                        assert(old(self)@.contains_key(l));
                    }
                }
            }
        } else {
            let ghost single = seq![slot];
            proof {
                assert(!self.lens_view().contains(len)) by {
                    if self.lens_view().contains(len) {
                        let j = choose|j: int|
                            0 <= j < self.lens_view().len() && self.lens_view()[j] == len;
                        if j < idx {
                            assert(self.lens_view()[j] < len);
                        } else if j > idx {
                            assert(self.lens_view()[idx as int] < self.lens_view()[j]);
                        }
                    }
                }
                lemma_assoc_insert(self.lens_view(), self.buckets_view(), idx as int, len, single);
            }
            let mut bucket: Vec<Slot> = Vec::new();
            bucket.push(slot);
            self.lens.insert(idx, len);
            self.buckets.insert(idx, bucket);
            assert(self.buckets_view() =~= old(self).buckets_view().insert(idx as int, single));
            assert(free_wf(self@)) by {
                assert forall|l: u64| #[trigger] self@.contains_key(l) implies {
                    &&& self@[l].len() > 0
                    &&& forall|i: int|
                        0 <= i < self@[l].len() ==> (#[trigger] self@[l][i]).start + l
                            == self@[l][i].end
                } by {
                    if l != len {
                        assert(old(self)@.contains_key(l));
                    }
                }
            }
        }
    }

    /// Removes and returns the extent that `select` names for `need` bytes.
    pub fn take(&mut self, need: u64) -> (r: Option<Slot>)
        requires
            old(self).wf(),
        ensures
            final(self).wf(),
            r == free_select(old(self)@, need),
            final(self)@ == free_take(old(self)@, need),
    {
        let idx = self.lower_bound(need);
        proof {
            self.lemma_lower_bound_fits(need, idx as int);
            self.lemma_distinct();
        }
        if idx >= self.lens.len() {
            return None;
        }
        let ghost len = self.lens_view()[idx as int];
        proof {
            lemma_first_fit_unique(self@, need, len);
            assert(self@[len] == self.buckets_view()[idx as int]);
        }
        if self.buckets[idx].len() == 1 {
            proof {
                lemma_assoc_remove(self.lens_view(), self.buckets_view(), idx as int);
            }
            self.lens.remove(idx);
            let mut bucket = self.buckets.remove(idx);
            assert(self.buckets_view() =~= old(self).buckets_view().remove(idx as int));
            assert(free_wf(self@)) by {
                assert forall|l: u64| #[trigger] self@.contains_key(l) implies {
                    &&& self@[l].len() > 0
                    &&& forall|i: int|
                        0 <= i < self@[l].len() ==> (#[trigger] self@[l][i]).start + l
                            == self@[l][i].end
                } by {
                    assert(old(self)@.contains_key(l));
                }
            }
            bucket.pop()
        } else {
            let ghost shrunk = self.buckets_view()[idx as int].drop_last();
            proof {
                lemma_assoc_update(self.lens_view(), self.buckets_view(), idx as int, shrunk);
            }
            let mut bucket: Vec<Slot> = Vec::new();
            std::mem::swap(&mut bucket, &mut self.buckets[idx]);
            let slot = bucket.pop();
            self.buckets.set(idx, bucket);
            assert(self.buckets_view() =~= old(self).buckets_view().update(idx as int, shrunk));
            assert(free_wf(self@)) by {
                assert forall|l: u64| #[trigger] self@.contains_key(l) implies {
                    &&& self@[l].len() > 0
                    &&& forall|i: int|
                        0 <= i < self@[l].len() ==> (#[trigger] self@[l][i]).start + l
                            == self@[l][i].end
                } by {
                    assert(old(self)@.contains_key(l));
                    if l == len {
                        assert forall|i: int| 0 <= i < shrunk.len() implies (#[trigger] shrunk[i]).start
                            + l == shrunk[i].end by {
                            assert(shrunk[i] == old(self)@[l][i]);
                        }
                    }
                }
            }
            slot
        }
    }
}

} // verus!
