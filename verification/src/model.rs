//! The engine as a mathematical state machine.
//!
//! `State` is what a handle holds, seen as maps and integers; its methods
//! say what each operation does to it.  The executable engine is specified
//! by these functions alone.

use crate::assoc::{assoc, lemma_assoc_at};
use crate::freeslots::{first_fit, fit_len, free_push, free_select, free_take, free_wf};
use crate::order::{lemma_sorted_distinct, lemma_sorted_keys, lists_in_order, sorted_keys};
use crate::packing::{
    all_nonempty, lemma_total_bounded, lemma_total_monotonic, lemma_total_step, pairwise_disjoint,
    total_len,
};
use crate::record::{entry_at, is_record, key_of, record_bytes, record_len, value_of};
use crate::tails::increasing;
use crate::types::{Compaction, Effect, Entry, Error, Op, ReadOp, Slot, WriteView};
use vstd::prelude::*;

verus! {

/// What a handle holds.
pub struct State {
    /// The key directory: every live key with the place of its value.
    pub dir: Map<Seq<u8>, Entry>,
    /// The delete-log: the last entry of each key deleted since the last
    /// compaction.
    pub deleted: Map<Seq<u8>, Entry>,
    /// The free-slot index.
    pub free: Map<u64, Seq<Slot>>,
    /// The path prefix that all segment files share.
    pub prefix: Seq<char>,
    /// Id of the active segment.
    pub file_id: u64,
    /// Tail of the active segment: where the next appended record starts.
    pub file_position: u64,
    /// Whether a record was written or a key removed since the last roll or
    /// compaction.
    pub dirty: bool,
}

impl State {
    /// The state of a freshly opened handle.
    pub open spec fn init(prefix: Seq<char>) -> State {
        State {
            dir: Map::empty(),
            deleted: Map::empty(),
            free: Map::empty(),
            prefix,
            file_id: 1,
            file_position: 0,
            dirty: false,
        }
    }

    /// The read that fetches the value of `key`, if the key is live.
    pub open spec fn get(self, key: Seq<u8>) -> Option<ReadOp> {
        if self.dir.contains_key(key) {
            Some(self.dir[key].spec_read())
        } else {
            None
        }
    }

    /// Removing `key`: its entry leaves the directory, its extent becomes
    /// the most recently freed of its length, and the delete-log records the
    /// entry.  Nothing changes if the key is not live.
    pub open spec fn delete(self, key: Seq<u8>) -> State {
        if self.dir.contains_key(key) {
            State {
                dir: self.dir.remove(key),
                deleted: self.deleted.insert(key, self.dir[key]),
                free: free_push(self.free, self.dir[key].slot),
                dirty: true,
                ..self
            }
        } else {
            self
        }
    }

    /// A record of `need` bytes could not be appended at the tail of the
    /// active segment without leaving the range of file offsets.
    pub open spec fn tail_full(self, need: nat) -> bool {
        self.file_position + need > u64::MAX
    }

    /// Storing `value` under `key` is refused: once the old entry of `key`
    /// is gone no free extent is large enough for the record, and the
    /// record would not fit behind the tail either.
    pub open spec fn put_refused(self, key: Seq<u8>, value: Seq<u8>) -> bool {
        let need = record_len(key.len(), value.len());
        ||| need > u64::MAX
        ||| (free_select(self.delete(key).free, need as u64) is None && self.tail_full(need))
    }

    /// The start of the record that a `put` writes once the old entry of its
    /// key is gone: a free extent that is large enough, or else the tail.
    pub open spec fn place(self, need: u64) -> (u64, u64) {
        match free_select(self.free, need) {
            Some(hole) => (hole.file_id, hole.start),
            None => (self.file_id, self.file_position),
        }
    }

    /// Storing `value` under `key`.  A live `key` is removed first.  The
    /// record goes into the free extent that `free_select` names, which is
    /// used up whole, or else to the tail, which then moves past it.
    pub open spec fn put(self, key: Seq<u8>, value: Seq<u8>) -> State {
        let s = self.delete(key);
        let need = record_len(key.len(), value.len()) as u64;
        let (file_id, start) = s.place(need);
        State {
            dir: s.dir.insert(key, entry_at(file_id, start, key.len(), value.len())),
            free: free_take(s.free, need),
            file_position: if free_select(s.free, need) is Some {
                s.file_position
            } else {
                (s.file_position + need) as u64
            },
            dirty: true,
            ..s
        }
    }

    /// The write that `put` asks for.
    pub open spec fn put_write(self, key: Seq<u8>, value: Seq<u8>) -> WriteView {
        let s = self.delete(key);
        let (file_id, start) = s.place(record_len(key.len(), value.len()) as u64);
        WriteView { file_id, offset: start, bytes: record_bytes(key, value) }
    }

    /// Rolling the active segment: a dirty handle moves on to a new, empty
    /// segment; a clean one stays as it is.
    pub open spec fn sync(self) -> State {
        if self.dirty {
            State { file_id: (self.file_id + 1) as u64, file_position: 0, dirty: false, ..self }
        } else {
            self
        }
    }

    /// The live keys in key order.
    pub open spec fn keys(self) -> Seq<Seq<u8>> {
        sorted_keys(self.dir.dom())
    }

    /// The entries of the live keys, in key order.
    pub open spec fn entries(self) -> Seq<Entry> {
        Seq::new(self.keys().len(), |i: int| self.dir[self.keys()[i]])
    }

    /// The reads that fetch the values of the live keys, in key order.
    pub open spec fn values(self) -> Seq<ReadOp> {
        Seq::new(self.keys().len(), |i: int| self.dir[self.keys()[i]].spec_read())
    }

    /// The live keys in key order, each with the read that fetches its
    /// value.
    pub open spec fn items(self) -> Seq<(Seq<u8>, ReadOp)> {
        Seq::new(self.keys().len(), |i: int| (self.keys()[i], self.dir[self.keys()[i]].spec_read()))
    }

    /// The extents of the live records, in key order.
    pub open spec fn slots(self) -> Seq<Slot> {
        Seq::new(self.keys().len(), |i: int| self.dir[self.keys()[i]].slot)
    }

    /// Where the record of the `i`-th key starts after compaction: behind
    /// the records of the keys before it that share its segment.
    pub open spec fn packed_start(self, i: int) -> int {
        total_len(self.slots().take(i), self.entries()[i].file_id)
    }

    /// The entry of the `i`-th key after compaction.
    pub open spec fn packed_entry(self, i: int) -> Entry {
        entry_at(
            self.entries()[i].file_id,
            self.packed_start(i) as u64,
            self.keys()[i].len(),
            self.entries()[i].value_len as nat,
        )
    }

    /// The directory after compaction: every record stays in its segment,
    /// and the records of a segment follow each other from offset 0 in key
    /// order.
    pub open spec fn packed_dir(self) -> Map<Seq<u8>, Entry> {
        assoc(self.keys(), Seq::new(self.keys().len(), |i: int| self.packed_entry(i)))
    }

    /// Compacting: a dirty handle gets the packed directory and loses its
    /// delete-log and its free extents; a clean one stays as it is.
    pub open spec fn prune(self) -> State {
        if self.dirty {
            State {
                dir: self.packed_dir(),
                deleted: Map::empty(),
                free: Map::empty(),
                dirty: false,
                ..self
            }
        } else {
            self
        }
    }

    /// `values` are not the values of the live keys in key order, as far as
    /// their number and lengths tell.
    pub open spec fn mismatch(self, values: Seq<Seq<u8>>) -> bool {
        ||| values.len() != self.keys().len()
        ||| exists|i: int|
            0 <= i < values.len() && (#[trigger] values[i]).len() != self.entries()[i].value_len
    }

    /// The records that compaction writes to the scratch files, given the
    /// values of the live keys in key order.
    pub open spec fn prune_writes(self, values: Seq<Seq<u8>>) -> Seq<WriteView> {
        if self.dirty {
            Seq::new(
                self.keys().len(),
                |i: int|
                    WriteView {
                        file_id: self.entries()[i].file_id,
                        offset: self.packed_start(i) as u64,
                        bytes: record_bytes(self.keys()[i], values[i]),
                    },
            )
        } else {
            Seq::empty()
        }
    }

    /// The segments that compaction deletes: all but the first, when no key
    /// is live.
    pub open spec fn prune_removals(self) -> Seq<u64> {
        if self.dirty && self.keys().len() == 0 {
            Seq::new((self.file_id - 1) as nat, |i: int| (i + 2) as u64)
        } else {
            Seq::empty()
        }
    }

    /// The segment `id` holds the record of a live key.
    pub open spec fn holds_live(self, id: u64) -> bool {
        exists|k: Seq<u8>| self.dir.contains_key(k) && (#[trigger] self.dir[k]).file_id == id
    }

    /// `swaps` lists what compaction swaps in: of a dirty handle every
    /// segment that holds a live record, in increasing order; of a clean
    /// one nothing.
    pub open spec fn prune_swaps(self, swaps: Seq<u64>) -> bool {
        if self.dirty {
            &&& increasing(swaps)
            &&& forall|id: u64| swaps.contains(id) <==> self.holds_live(id)
        } else {
            swaps.len() == 0
        }
    }

    /// `plan` is the compaction of this state with the given values.
    pub open spec fn compacts(self, values: Seq<Seq<u8>>, plan: Compaction) -> bool {
        &&& plan.removals@ == self.prune_removals()
        &&& plan.writes@.len() == self.prune_writes(values).len()
        &&& forall|i: int|
            0 <= i < plan.writes@.len() ==> (#[trigger] plan.writes@[i])@ == self.prune_writes(
                values,
            )[i]
        &&& self.prune_swaps(plan.swaps@)
    }

    /// The error with which a step of a script is refused, if it is.  A
    /// `Put` or `Update` needs room for its record, a `Sync` of a dirty
    /// handle a next segment id, a `Prune` of a dirty handle the stored
    /// values of the live keys.
    pub open spec fn step_error(self, op: Op<Vec<u8>, Vec<u8>>, stored: Seq<Seq<u8>>) -> Option<
        Error,
    > {
        match op {
            Op::Put { key, value } | Op::Update { key, value } => if self.put_refused(
                key@,
                value@,
            ) {
                Some(Error::Io)
            } else {
                None
            },
            Op::Delete { key } => None,
            Op::Sync => if self.dirty && self.file_id == u64::MAX {
                Some(Error::Io)
            } else {
                None
            },
            Op::Prune => if self.dirty && self.mismatch(stored) {
                Some(Error::Decode)
            } else {
                None
            },
        }
    }

    /// The state after one step of a script: unchanged if the step is
    /// refused.
    pub open spec fn step(self, op: Op<Vec<u8>, Vec<u8>>, stored: Seq<Seq<u8>>) -> State {
        if self.step_error(op, stored) is Some {
            self
        } else {
            match op {
                Op::Put { key, value } | Op::Update { key, value } => self.put(key@, value@),
                Op::Delete { key } => self.delete(key@),
                Op::Sync => self.sync(),
                Op::Prune => self.prune(),
            }
        }
    }

    /// `effect` is what one step of a script asks the embedding program to
    /// do, provided the step is not refused.
    pub open spec fn step_effect(
        self,
        op: Op<Vec<u8>, Vec<u8>>,
        stored: Seq<Seq<u8>>,
        effect: Effect,
    ) -> bool {
        match op {
            Op::Put { key, value } | Op::Update { key, value } => effect matches Effect::Write(w)
                && w@ == self.put_write(key@, value@),
            Op::Delete { key } => effect is Nothing,
            Op::Sync => if self.dirty {
                effect matches Effect::Roll(id) && id == self.file_id + 1
            } else {
                effect is Nothing
            },
            Op::Prune => effect matches Effect::Compact(plan) && self.compacts(stored, plan),
        }
    }

    /// `bytes` is what the extent of `key` has to hold: a well-formed record
    /// of that key with a value of the length that the directory gives.
    pub open spec fn verifies(self, key: Seq<u8>, bytes: Seq<u8>) -> bool {
        &&& self.dir.contains_key(key)
        &&& is_record(bytes)
        &&& key_of(bytes) == key
        &&& value_of(bytes).len() == self.dir[key].value_len
    }

    /// What must hold of the entry of `key`.
    pub open spec fn entry_wf(self, key: Seq<u8>, e: Entry) -> bool {
        &&& e.slot.file_id == e.file_id
        &&& e.file_id <= self.file_id
        &&& e.slot.start + 20 + key.len() == e.value_pos
        &&& e.value_pos + e.value_len == e.slot.end
        &&& (e.file_id == self.file_id ==> e.slot.end <= self.file_position)
    }

    /// What must hold of a free extent.
    pub open spec fn hole_wf(self, s: Slot) -> bool {
        &&& s.file_id <= self.file_id
        &&& s.start < s.end
        &&& (s.file_id == self.file_id ==> s.end <= self.file_position)
    }

    /// The invariant of the engine: every entry frames one record, nothing
    /// lies beyond the tail of the active segment or in a later segment,
    /// and no two extents, live or free, overlap.
    pub open spec fn wf(self) -> bool {
        &&& self.file_id >= 1
        &&& self.dir.dom().finite()
        &&& free_wf(self.free)
        &&& forall|k: Seq<u8>| #[trigger] self.dir.contains_key(k) ==> self.entry_wf(k, self.dir[k])
        &&& forall|len: u64, i: int|
            self.free.contains_key(len) && 0 <= i < self.free[len].len() ==> self.hole_wf(
                #[trigger] self.free[len][i],
            )
        &&& forall|k1: Seq<u8>, k2: Seq<u8>|
            #[trigger] self.dir.contains_key(k1) && #[trigger] self.dir.contains_key(k2) && k1
                != k2 ==> self.dir[k1].slot.disjoint(self.dir[k2].slot)
        &&& forall|k: Seq<u8>, len: u64, i: int|
            #[trigger] self.dir.contains_key(k) && self.free.contains_key(len) && 0 <= i
                < self.free[len].len() ==> self.dir[k].slot.disjoint(#[trigger] self.free[len][i])
        &&& forall|len1: u64, i1: int, len2: u64, i2: int|
            self.free.contains_key(len1) && 0 <= i1 < self.free[len1].len()
                && self.free.contains_key(len2) && 0 <= i2 < self.free[len2].len() && (len1 != len2
                || i1 != i2) ==> (#[trigger] self.free[len1][i1]).disjoint(
                #[trigger] self.free[len2][i2],
            )
    }
}

/// A fresh handle meets the invariant.
pub proof fn lemma_init_wf(prefix: Seq<char>)
    ensures
        State::init(prefix).wf(),
{
}

/// Removing a key keeps the invariant.
pub proof fn lemma_delete_wf(s: State, key: Seq<u8>)
    requires
        s.wf(),
    ensures
        s.delete(key).wf(),
{
    if s.dir.contains_key(key) {
        let e = s.dir[key];
        let len = (e.slot.end - e.slot.start) as u64;
        let d = s.delete(key);
        assert(s.entry_wf(key, e));
        assert forall|l: u64, i: int| d.free.contains_key(l) && 0 <= i < d.free[l].len() implies (
        #[trigger] d.free[l][i] == e.slot && l == len && i == d.free[l].len() - 1) || (
        s.free.contains_key(l) && 0 <= i < s.free[l].len() && d.free[l][i] == s.free[l][i]) by {}
        assert(free_wf(d.free)) by {
            assert forall|l: u64| #[trigger] d.free.contains_key(l) implies {
                &&& d.free[l].len() > 0
                &&& forall|i: int|
                    0 <= i < d.free[l].len() ==> (#[trigger] d.free[l][i]).start + l
                        == d.free[l][i].end
            } by {
                if l != len {
                    assert(s.free.contains_key(l));
                }
            }
        }
        assert forall|k1: Seq<u8>, k2: Seq<u8>|
            #[trigger] d.dir.contains_key(k1) && #[trigger] d.dir.contains_key(k2) && k1
                != k2 implies d.dir[k1].slot.disjoint(d.dir[k2].slot) by {
            assert(s.dir.contains_key(k1) && s.dir.contains_key(k2));
        }
        assert forall|k: Seq<u8>, l: u64, i: int|
            #[trigger] d.dir.contains_key(k) && d.free.contains_key(l) && 0 <= i
                < d.free[l].len() implies d.dir[k].slot.disjoint(#[trigger] d.free[l][i]) by {
            assert(s.dir.contains_key(k) && s.dir.contains_key(key));
        }
        assert forall|l: u64, i: int|
            d.free.contains_key(l) && 0 <= i < d.free[l].len() implies d.hole_wf(
            #[trigger] d.free[l][i],
        ) by {}
        assert forall|len1: u64, i1: int, len2: u64, i2: int|
            d.free.contains_key(len1) && 0 <= i1 < d.free[len1].len() && d.free.contains_key(len2)
                && 0 <= i2 < d.free[len2].len() && (len1 != len2 || i1 != i2) implies (
        #[trigger] d.free[len1][i1]).disjoint(#[trigger] d.free[len2][i2]) by {
            assert(s.dir.contains_key(key));
        }
        assert forall|k: Seq<u8>| #[trigger] d.dir.contains_key(k) implies d.entry_wf(
            k,
            d.dir[k],
        ) by {
            assert(s.dir.contains_key(k));
        }
    }
}

/// Storing a value keeps the invariant, unless it is refused.
pub proof fn lemma_put_wf(s: State, key: Seq<u8>, value: Seq<u8>)
    requires
        s.wf(),
        value.len() <= usize::MAX,
        !s.put_refused(key, value),
    ensures
        s.put(key, value).wf(),
{
    let d = s.delete(key);
    lemma_delete_wf(s, key);
    let need = record_len(key.len(), value.len()) as u64;
    let p = s.put(key, value);
    let (file_id, start) = d.place(need);
    let e = entry_at(file_id, start, key.len(), value.len());
    assert(p.dir == d.dir.insert(key, e));
    assert(!d.dir.contains_key(key));
    if free_select(d.free, need) is Some {
        let len = fit_len(d.free, need);
        assert(first_fit(d.free, need, len));
        let hole = d.free[len].last();
        let last = d.free[len].len() - 1;
        assert(hole == d.free[len][last]);
        assert(d.hole_wf(hole));
        assert(e.slot.within(hole));
        assert forall|l: u64, i: int| p.free.contains_key(l) && 0 <= i < p.free[l].len() implies
            d.free.contains_key(l) && 0 <= i < d.free[l].len() && #[trigger] p.free[l][i]
                == d.free[l][i] && (l != len || i != last) by {}
        assert(free_wf(p.free)) by {
            assert forall|l: u64| #[trigger] p.free.contains_key(l) implies {
                &&& p.free[l].len() > 0
                &&& forall|i: int|
                    0 <= i < p.free[l].len() ==> (#[trigger] p.free[l][i]).start + l
                        == p.free[l][i].end
            } by {
                assert(d.free.contains_key(l));
            }
        }
        assert forall|k: Seq<u8>| #[trigger] p.dir.contains_key(k) implies p.entry_wf(
            k,
            p.dir[k],
        ) by {
            if k != key {
                assert(d.dir.contains_key(k));
            }
        }
        assert forall|k1: Seq<u8>, k2: Seq<u8>|
            #[trigger] p.dir.contains_key(k1) && #[trigger] p.dir.contains_key(k2) && k1
                != k2 implies p.dir[k1].slot.disjoint(p.dir[k2].slot) by {
            if k1 == key {
                assert(d.dir.contains_key(k2));
                assert(d.dir[k2].slot.disjoint(d.free[len][last]));
            } else if k2 == key {
                assert(d.dir.contains_key(k1));
                assert(d.dir[k1].slot.disjoint(d.free[len][last]));
            } else {
                assert(d.dir.contains_key(k1) && d.dir.contains_key(k2));
            }
        }
        assert forall|k: Seq<u8>, l: u64, i: int|
            #[trigger] p.dir.contains_key(k) && p.free.contains_key(l) && 0 <= i
                < p.free[l].len() implies p.dir[k].slot.disjoint(#[trigger] p.free[l][i]) by {
            assert(p.free[l][i] == d.free[l][i]);
            if k == key {
                assert(d.free[l][i].disjoint(d.free[len][last]));
            } else {
                assert(d.dir.contains_key(k));
            }
        }
        assert forall|l: u64, i: int|
            p.free.contains_key(l) && 0 <= i < p.free[l].len() implies p.hole_wf(
            #[trigger] p.free[l][i],
        ) by {
            assert(p.free[l][i] == d.free[l][i]);
        }
        assert forall|len1: u64, i1: int, len2: u64, i2: int|
            p.free.contains_key(len1) && 0 <= i1 < p.free[len1].len() && p.free.contains_key(len2)
                && 0 <= i2 < p.free[len2].len() && (len1 != len2 || i1 != i2) implies (
        #[trigger] p.free[len1][i1]).disjoint(#[trigger] p.free[len2][i2]) by {
            assert(p.free[len1][i1] == d.free[len1][i1]);
            assert(p.free[len2][i2] == d.free[len2][i2]);
        }
    } else {
        assert(p.free == d.free);
        assert forall|k: Seq<u8>| #[trigger] p.dir.contains_key(k) implies p.entry_wf(
            k,
            p.dir[k],
        ) by {
            if k != key {
                assert(d.dir.contains_key(k));
            }
        }
        assert forall|k1: Seq<u8>, k2: Seq<u8>|
            #[trigger] p.dir.contains_key(k1) && #[trigger] p.dir.contains_key(k2) && k1
                != k2 implies p.dir[k1].slot.disjoint(p.dir[k2].slot) by {
            if k1 == key {
                assert(d.dir.contains_key(k2));
            } else if k2 == key {
                assert(d.dir.contains_key(k1));
            } else {
                assert(d.dir.contains_key(k1) && d.dir.contains_key(k2));
            }
        }
        assert forall|k: Seq<u8>, l: u64, i: int|
            #[trigger] p.dir.contains_key(k) && p.free.contains_key(l) && 0 <= i
                < p.free[l].len() implies p.dir[k].slot.disjoint(#[trigger] p.free[l][i]) by {
            if k == key {
                assert(d.hole_wf(d.free[l][i]));
            } else {
                assert(d.dir.contains_key(k));
            }
        }
        assert forall|l: u64, i: int|
            p.free.contains_key(l) && 0 <= i < p.free[l].len() implies p.hole_wf(
            #[trigger] p.free[l][i],
        ) by {
            assert(d.hole_wf(d.free[l][i]));
        }
    }
}

/// Rolling the active segment keeps the invariant, as long as there is a
/// next segment id.
pub proof fn lemma_sync_wf(s: State)
    requires
        s.wf(),
        s.dirty ==> s.file_id < u64::MAX,
    ensures
        s.sync().wf(),
{
    let r = s.sync();
    if s.dirty {
        assert forall|k: Seq<u8>| #[trigger] r.dir.contains_key(k) implies r.entry_wf(
            k,
            r.dir[k],
        ) by {
            assert(s.entry_wf(k, s.dir[k]));
        }
        assert forall|l: u64, i: int|
            r.free.contains_key(l) && 0 <= i < r.free[l].len() implies r.hole_wf(
            #[trigger] r.free[l][i],
        ) by {
            assert(s.hole_wf(s.free[l][i]));
        }
    }
}

/// The keys of a consistent state are listed in order, each once, and the
/// extents of their records are non-empty and do not overlap.
pub proof fn lemma_keys(s: State)
    requires
        s.wf(),
    ensures
        lists_in_order(s.keys(), s.dir.dom()),
        s.keys().no_duplicates(),
        s.entries().len() == s.keys().len(),
        s.slots().len() == s.keys().len(),
        forall|i: int| 0 <= i < s.keys().len() ==> s.dir.contains_key(#[trigger] s.keys()[i]),
        pairwise_disjoint(s.slots()),
        all_nonempty(s.slots()),
{
    lemma_sorted_keys(s.dir.dom());
    lemma_sorted_distinct(s.keys());
    assert forall|i: int| 0 <= i < s.keys().len() implies s.dir.contains_key(
        #[trigger] s.keys()[i],
    ) by {
        assert(s.keys().contains(s.keys()[i]));
    }
    assert forall|i: int, j: int| 0 <= i < j < s.slots().len() implies (#[trigger] s.slots()[i]).disjoint(
        #[trigger] s.slots()[j],
    ) by {
        assert(s.dir.contains_key(s.keys()[i]) && s.dir.contains_key(s.keys()[j]));
    }
    assert forall|i: int| 0 <= i < s.slots().len() implies (#[trigger] s.slots()[i]).start
        < s.slots()[i].end by {
        assert(s.entry_wf(s.keys()[i], s.dir[s.keys()[i]]));
    }
}

/// After compaction the record of the `i`-th key still lies below the
/// largest file offset, and below the tail if it is in the active segment.
pub proof fn lemma_packed(s: State, i: int)
    requires
        s.wf(),
        0 <= i < s.keys().len(),
    ensures
        0 <= s.packed_start(i),
        s.packed_start(i) + s.slots()[i].spec_len() <= u64::MAX,
        s.packed_start(i) + s.slots()[i].spec_len() == total_len(
            s.slots().take(i + 1),
            s.entries()[i].file_id,
        ),
        s.slots()[i].spec_len() == record_len(s.keys()[i].len(), s.entries()[i].value_len as nat),
        s.entry_wf(s.keys()[i], s.packed_entry(i)),
{
    lemma_keys(s);
    let slots = s.slots();
    let e = s.entries()[i];
    let part = slots.take(i + 1);
    assert(s.entry_wf(s.keys()[i], e));
    assert(slots[i] == e.slot);
    lemma_total_step(slots, e.file_id, i);
    lemma_total_monotonic(slots, e.file_id, i, i);
    assert forall|a: int, b: int| 0 <= a < b < part.len() implies (#[trigger] part[a]).disjoint(
        #[trigger] part[b],
    ) by {
        assert(part[a] == slots[a] && part[b] == slots[b]);
    }
    assert forall|a: int| 0 <= a < part.len() implies (#[trigger] part[a]).start < part[a].end by {
        assert(part[a] == slots[a]);
    }
    let bound: int = if e.file_id == s.file_id {
        s.file_position as int
    } else {
        u64::MAX as int
    };
    assert forall|a: int|
        0 <= a < part.len() && (#[trigger] part[a]).file_id == e.file_id implies part[a].end
        <= bound by {
        assert(part[a] == slots[a]);
        assert(s.entry_wf(s.keys()[a], s.dir[s.keys()[a]]));
    }
    lemma_total_bounded(part, e.file_id, bound);
}

/// Compaction keeps the invariant.
pub proof fn lemma_prune_wf(s: State)
    requires
        s.wf(),
    ensures
        s.prune().wf(),
{
    if s.dirty {
        lemma_keys(s);
        let p = s.prune();
        let keys = s.keys();
        let packed = Seq::new(keys.len(), |i: int| s.packed_entry(i));
        vstd::seq_lib::seq_to_set_is_finite(keys);
        assert(p.dir.dom() =~= keys.to_set());
        assert forall|k: Seq<u8>| #[trigger] p.dir.contains_key(k) implies p.entry_wf(
            k,
            p.dir[k],
        ) by {
            let i = keys.index_of(k);
            lemma_assoc_at(keys, packed, i);
            lemma_packed(s, i);
        }
        assert forall|k1: Seq<u8>, k2: Seq<u8>|
            #[trigger] p.dir.contains_key(k1) && #[trigger] p.dir.contains_key(k2) && k1
                != k2 implies p.dir[k1].slot.disjoint(p.dir[k2].slot) by {
            let i = keys.index_of(k1);
            let j = keys.index_of(k2);
            lemma_assoc_at(keys, packed, i);
            lemma_assoc_at(keys, packed, j);
            lemma_packed(s, i);
            lemma_packed(s, j);
            if s.entries()[i].file_id == s.entries()[j].file_id {
                if i < j {
                    lemma_total_monotonic(s.slots(), s.entries()[i].file_id, i + 1, j);
                } else {
                    lemma_total_monotonic(s.slots(), s.entries()[i].file_id, j + 1, i);
                }
            }
        }
    }
}

/// No step of a script breaks the invariant.
pub proof fn lemma_step_wf(s: State, op: Op<Vec<u8>, Vec<u8>>, stored: Seq<Seq<u8>>)
    requires
        s.wf(),
    ensures
        s.step(op, stored).wf(),
{
    if s.step_error(op, stored) is None {
        match op {
            Op::Put { key, value } => {
                assert(value@.len() == value.len());
                lemma_put_wf(s, key@, value@);
            },
            Op::Update { key, value } => {
                assert(value@.len() == value.len());
                lemma_put_wf(s, key@, value@);
            },
            Op::Delete { key } => {
                lemma_delete_wf(s, key@);
            },
            Op::Sync => {
                lemma_sync_wf(s);
            },
            Op::Prune => {
                lemma_prune_wf(s);
            },
        }
    }
}

} // verus!
