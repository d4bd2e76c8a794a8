//! How much room a set of extents takes when they are laid end to end.

use crate::types::Slot;
use vstd::prelude::*;

verus! {

/// Total length of the extents of `slots` that lie in segment `file_id`.
pub open spec fn total_len(slots: Seq<Slot>, file_id: u64) -> int
    decreases slots.len(),
{
    if slots.len() == 0 {
        0
    } else {
        total_len(slots.drop_last(), file_id) + if slots.last().file_id == file_id {
            slots.last().spec_len()
        } else {
            0
        }
    }
}

/// No two extents of `slots` overlap.
pub open spec fn pairwise_disjoint(slots: Seq<Slot>) -> bool {
    forall|i: int, j: int|
        0 <= i < j < slots.len() ==> (#[trigger] slots[i]).disjoint(#[trigger] slots[j])
}

/// No extent of `slots` is empty.
pub open spec fn all_nonempty(slots: Seq<Slot>) -> bool {
    forall|i: int| 0 <= i < slots.len() ==> (#[trigger] slots[i]).start < slots[i].end
}

/// Every extent of `slots` in segment `file_id` ends at or before `bound`.
pub open spec fn ends_within(slots: Seq<Slot>, file_id: u64, bound: int) -> bool {
    forall|i: int|
        0 <= i < slots.len() && (#[trigger] slots[i]).file_id == file_id ==> slots[i].end <= bound
}

/// The total never shrinks when extents are added at the end.
pub proof fn lemma_total_monotonic(slots: Seq<Slot>, file_id: u64, i: int, j: int)
    requires
        all_nonempty(slots),
        0 <= i <= j <= slots.len(),
    ensures
        0 <= total_len(slots.take(i), file_id) <= total_len(slots.take(j), file_id),
    decreases j,
{
    if j == 0 {
        assert(slots.take(0).len() == 0);
    } else if i == j {
        lemma_total_monotonic(slots, file_id, i - 1, i - 1);
        assert(slots.take(j).drop_last() =~= slots.take(j - 1));
        assert(slots.take(j).last() == slots[j - 1]);
    } else {
        lemma_total_monotonic(slots, file_id, i, j - 1);
        assert(slots.take(j).drop_last() =~= slots.take(j - 1));
        assert(slots.take(j).last() == slots[j - 1]);
    }
}

/// Taking one more extent adds its length if it lies in the segment.
pub proof fn lemma_total_step(slots: Seq<Slot>, file_id: u64, i: int)
    requires
        0 <= i < slots.len(),
    ensures
        total_len(slots.take(i + 1), file_id) == total_len(slots.take(i), file_id) + if slots[i].file_id
            == file_id {
            slots[i].spec_len()
        } else {
            0
        },
{
    assert(slots.take(i + 1).drop_last() =~= slots.take(i));
    assert(slots.take(i + 1).last() == slots[i]);
}

proof fn lemma_total_remove(slots: Seq<Slot>, file_id: u64, m: int)
    requires
        0 <= m < slots.len(),
    ensures
        total_len(slots, file_id) == total_len(slots.remove(m), file_id) + if slots[m].file_id
            == file_id {
            slots[m].spec_len()
        } else {
            0
        },
    decreases slots.len(),
{
    if m == slots.len() - 1 {
        assert(slots.remove(m) =~= slots.drop_last());
    } else {
        lemma_total_remove(slots.drop_last(), file_id, m);
        assert(slots.remove(m).drop_last() =~= slots.drop_last().remove(m));
        assert(slots.remove(m).last() == slots.last());
    }
}

proof fn lemma_latest_end(slots: Seq<Slot>, file_id: u64) -> (m: int)
    requires
        exists|i: int| 0 <= i < slots.len() && slots[i].file_id == file_id,
    ensures
        0 <= m < slots.len(),
        slots[m].file_id == file_id,
        ends_within(slots, file_id, slots[m].end as int),
    decreases slots.len(),
{
    let front = slots.drop_last();
    let last = slots.len() - 1;
    if exists|i: int| 0 <= i < front.len() && front[i].file_id == file_id {
        let m = lemma_latest_end(front, file_id);
        assert(front[m] == slots[m]);
        if slots[last].file_id == file_id && slots[last].end > slots[m].end {
            assert forall|i: int|
                0 <= i < slots.len() && (#[trigger] slots[i]).file_id == file_id implies slots[i].end
                <= slots[last].end by {
                if i < last {
                    assert(front[i] == slots[i]);
                }
            }
            last
        } else {
            assert forall|i: int|
                0 <= i < slots.len() && (#[trigger] slots[i]).file_id == file_id implies slots[i].end
                <= slots[m].end by {
                if i < last {
                    assert(front[i] == slots[i]);
                }
            }
            m
        }
    } else {
        assert forall|i: int|
            0 <= i < slots.len() && (#[trigger] slots[i]).file_id == file_id implies i == last by {
            if i < last {
                assert(front[i] == slots[i]);
            }
        }
        last
    }
}

/// Extents of one segment that do not overlap and all end at or before
/// `bound` have a total length of at most `bound`.
pub proof fn lemma_total_bounded(slots: Seq<Slot>, file_id: u64, bound: int)
    requires
        pairwise_disjoint(slots),
        all_nonempty(slots),
        ends_within(slots, file_id, bound),
        0 <= bound,
    ensures
        total_len(slots, file_id) <= bound,
    decreases slots.len(),
{
    if slots.len() == 0 {
    } else if exists|i: int| 0 <= i < slots.len() && slots[i].file_id == file_id {
        let m = lemma_latest_end(slots, file_id);
        let rest = slots.remove(m);
        lemma_total_remove(slots, file_id, m);
        assert forall|i: int, j: int| 0 <= i < j < rest.len() implies (#[trigger] rest[i]).disjoint(
            #[trigger] rest[j],
        ) by {
            let oi = if i < m { i } else { i + 1 };
            let oj = if j < m { j } else { j + 1 };
            assert(rest[i] == slots[oi] && rest[j] == slots[oj]);
        }
        assert forall|i: int| 0 <= i < rest.len() implies (#[trigger] rest[i]).start
            < rest[i].end by {
            let oi = if i < m { i } else { i + 1 };
            assert(rest[i] == slots[oi]);
        }
        assert forall|i: int|
            0 <= i < rest.len() && (#[trigger] rest[i]).file_id == file_id implies rest[i].end
            <= slots[m].start by {
            let oi = if i < m { i } else { i + 1 };
            assert(rest[i] == slots[oi]);
            if oi < m {
                assert(slots[oi].disjoint(slots[m]));
            } else {
                assert(slots[m].disjoint(slots[oi]));
            }
        }
        lemma_total_bounded(rest, file_id, slots[m].start as int);
    } else {
        let front = slots.drop_last();
        assert forall|i: int, j: int| 0 <= i < j < front.len() implies (#[trigger] front[i]).disjoint(
            #[trigger] front[j],
        ) by {
            assert(front[i] == slots[i] && front[j] == slots[j]);
        }
        assert forall|i: int| 0 <= i < front.len() implies (#[trigger] front[i]).start
            < front[i].end by {
            assert(front[i] == slots[i]);
        }
        assert forall|i: int|
            0 <= i < front.len() && (#[trigger] front[i]).file_id == file_id implies front[i].end
            <= bound by {
            assert(front[i] == slots[i]);
        }
        lemma_total_bounded(front, file_id, bound);
    }
}

} // verus!
