//! How far each scratch file has been filled during a compaction.

use crate::assoc::{assoc, lemma_assoc_at, lemma_assoc_insert, lemma_assoc_update};
use vstd::prelude::*;

verus! {

/// `q` is strictly increasing.
pub open spec fn increasing(q: Seq<u64>) -> bool {
    forall|i: int, j: int| 0 <= i < j < q.len() ==> q[i] < q[j]
}

/// The end of every scratch file written so far, the segment ids strictly
/// increasing.
pub struct Tails {
    ids: Vec<u64>,
    ends: Vec<u64>,
}

impl Tails {
    /// The segments that have a scratch file, in increasing order.
    pub closed spec fn ids(&self) -> Seq<u64> {
        self.ids@
    }

    /// The ends, each at the position of its segment.
    pub closed spec fn ends(&self) -> Seq<u64> {
        self.ends@
    }

    /// The map from segment id to the end of its scratch file.
    pub open spec fn view(&self) -> Map<u64, u64> {
        assoc(self.ids(), self.ends())
    }

    /// One end per segment, the segments strictly increasing.
    pub open spec fn wf(&self) -> bool {
        &&& self.ids().len() == self.ends().len()
        &&& increasing(self.ids())
    }

    /// The end of the scratch file of `id`: 0 while nothing was written.
    pub open spec fn spec_end(&self, id: u64) -> u64 {
        if self@.contains_key(id) {
            self@[id]
        } else {
            0
        }
    }

    /// The map has exactly the listed segments.
    pub proof fn lemma_ids(&self)
        requires
            self.wf(),
        ensures
            self.ids().no_duplicates(),
            forall|id: u64| self.ids().contains(id) <==> self@.contains_key(id),
    {
        assert forall|i: int, j: int|
            0 <= i < self.ids().len() && 0 <= j < self.ids().len() && i != j implies self.ids()[i]
            != self.ids()[j] by {
            if i < j {
                assert(self.ids()[i] < self.ids()[j]);
            } else {
                assert(self.ids()[j] < self.ids()[i]);
            }
        }
    }

    /// No scratch file yet.
    pub fn new() -> (r: Tails)
        ensures
            r.wf(),
            r@ == Map::<u64, u64>::empty(),
            r.ids() == Seq::<u64>::empty(),
    {
        let r = Tails { ids: Vec::new(), ends: Vec::new() };
        assert(r@ =~= Map::<u64, u64>::empty());
        r
    }

    /// Position of the first segment id that is at least `id`.
    fn lower_bound(&self, id: u64) -> (idx: usize)
        requires
            self.wf(),
        ensures
            idx <= self.ids().len(),
            forall|j: int| 0 <= j < idx ==> self.ids()[j] < id,
            forall|j: int| idx <= j < self.ids().len() ==> id <= self.ids()[j],
    {
        let mut lo: usize = 0;
        let mut hi: usize = self.ids.len();
        while lo < hi
            invariant
                self.wf(),
                lo <= hi <= self.ids().len(),
                forall|j: int| 0 <= j < lo ==> self.ids()[j] < id,
                forall|j: int| hi <= j < self.ids().len() ==> id <= self.ids()[j],
            decreases hi - lo,
        {
            let mid: usize = lo + (hi - lo) / 2;
            if self.ids[mid] < id {
                lo = mid + 1;
            } else {
                hi = mid;
            }
        }
        lo
    }

    /// The end of the scratch file of `id`.
    pub fn end_of(&self, id: u64) -> (end: u64)
        requires
            self.wf(),
        ensures
            end == self.spec_end(id),
    {
        let idx = self.lower_bound(id);
        proof {
            self.lemma_ids();
        }
        if idx < self.ids.len() && self.ids[idx] == id {
            proof {
                lemma_assoc_at(self.ids(), self.ends(), idx as int);
            }
            self.ends[idx]
        } else {
            proof {
                if self.ids().contains(id) {
                    let j = choose|j: int| 0 <= j < self.ids().len() && self.ids()[j] == id;
                    if j < idx {
                        assert(self.ids()[j] < id);
                    } else if j > idx {
                        assert(self.ids()[idx as int] < self.ids()[j]);
                    }
                }
            }
            0
        }
    }

    /// Records that the scratch file of `id` now ends at `end`.
    pub fn set_end(&mut self, id: u64, end: u64)
        requires
            old(self).wf(),
        ensures
            final(self).wf(),
            final(self)@ == old(self)@.insert(id, end),
    {
        let idx = self.lower_bound(id);
        proof {
            self.lemma_ids();
        }
        if idx < self.ids.len() && self.ids[idx] == id {
            proof {
                lemma_assoc_update(self.ids(), self.ends(), idx as int, end);
            }
            self.ends.set(idx, end);
        } else {
            proof {
                if self.ids().contains(id) {
                    let j = choose|j: int| 0 <= j < self.ids().len() && self.ids()[j] == id;
                    if j < idx {
                        assert(self.ids()[j] < id);
                    } else if j > idx {
                        assert(self.ids()[idx as int] < self.ids()[j]);
                    }
                }
                lemma_assoc_insert(self.ids(), self.ends(), idx as int, id, end);
            }
            self.ids.insert(idx, id);
            self.ends.insert(idx, end);
        }
    }

    /// The segments that have a scratch file, in increasing order.
    pub fn into_ids(self) -> (ids: Vec<u64>)
        requires
            self.wf(),
        ensures
            ids@ == self.ids(),
    {
        self.ids
    }
}

} // verus!
