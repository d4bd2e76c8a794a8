//! The handle: directory, delete-log and free-slot index of one store.

use crate::freeslots::{
    first_fit, fit_len, free_contains, free_select, lemma_select_after_push, FreeSlots,
};
use crate::keydir::KeyDir;
use crate::model::{
    lemma_delete_wf, lemma_keys, lemma_packed, lemma_prune_wf, lemma_put_wf, lemma_sync_wf, State,
};
use crate::order::{bytes_rank, Rank};
use crate::packing::{lemma_total_step, total_len};
use crate::path::{scratch_name, scratch_path, segment_name, segment_path};
use crate::record::{
    decode_record, encode_record, entry_for, lemma_record_layout, lemma_record_round_trip,
    record_size, serialize_to_file,
};
use crate::tails::Tails;
use crate::types::{views, Compaction, Effect, Entry, Error, Op, ReadOp, Slot, WriteOp};
use vstd::prelude::*;
use vstd::string::*;

verus! {

/// The operations of a key-value store whose values live on disk.
///
/// No method touches a file.  A method that needs bytes moved returns the
/// read or the write, which the caller carries out before its next call.
pub trait Db<K, V> {
    /// The consistency condition of the store.
    spec fn inv(&self) -> bool;

    /// Where the value of `key` is to be read, if the key is live.
    fn get(&self, key: &K) -> (r: Option<ReadOp>)
        requires
            self.inv(),
    ;

    /// Stores `value` under `key` and returns the write that puts the
    /// record on disk.
    fn put(&mut self, key: K, value: V) -> (r: Result<WriteOp, Error>)
        requires
            old(self).inv(),
        ensures
            final(self).inv(),
    ;

    /// Removes `key`.
    fn delete(&mut self, key: &K) -> (r: Result<(), Error>)
        requires
            old(self).inv(),
        ensures
            final(self).inv(),
    ;

    /// The live keys in key order.
    fn keys(&self) -> (r: Vec<&K>)
        requires
            self.inv(),
    ;

    /// Where the values of the live keys are to be read, in key order.
    fn values(&self) -> (r: Vec<ReadOp>)
        requires
            self.inv(),
    ;

    /// The live keys in key order, each with the place of its value.
    fn items(&self) -> (r: Vec<(&K, ReadOp)>)
        requires
            self.inv(),
    ;
}

/// The operations that manage the segment files of a store.
pub trait ToDisk<K, V>: Db<K, V> {
    /// A handle on the store under the path prefix `file_name`.
    fn open(file_name: &str) -> (r: OnDisk);

    /// Rolls the active segment of a dirty handle and returns the id of the
    /// segment to create.
    fn sync(&mut self) -> (r: Result<Option<u64>, Error>)
        requires
            old(self).inv(),
        ensures
            final(self).inv(),
    ;

    /// Compacts a dirty handle.  `values` holds the values of the live keys
    /// in key order, as read from disk; the result says which records to
    /// write and which files to delete and to swap.
    fn prune(&mut self, values: &Vec<V>) -> (r: Result<Compaction, Error>)
        requires
            old(self).inv(),
        ensures
            final(self).inv(),
    ;
}

/// A handle on one store.
pub struct OnDisk {
    key_dir: KeyDir,
    delete_map: KeyDir,
    prefix: String,
    file_id: u64,
    file_position: u64,
    is_dirty: bool,
    free_slots: FreeSlots,
}

impl View for OnDisk {
    type V = State;

    closed spec fn view(&self) -> State {
        State {
            dir: self.key_dir@,
            deleted: self.delete_map@,
            free: self.free_slots@,
            prefix: self.prefix@,
            file_id: self.file_id,
            file_position: self.file_position,
            dirty: self.is_dirty,
        }
    }
}

impl OnDisk {
    /// The handle is consistent: its parts are, and so is the state they
    /// stand for.
    pub closed spec fn wf(&self) -> bool {
        &&& self.key_dir.wf()
        &&& self.delete_map.wf()
        &&& self.free_slots.wf()
        &&& self@.wf()
    }

    /// Id of the active segment.
    pub fn file_id(&self) -> (id: u64)
        ensures
            id == self@.file_id,
    {
        self.file_id
    }

    /// Tail of the active segment.
    pub fn file_position(&self) -> (pos: u64)
        ensures
            pos == self@.file_position,
    {
        self.file_position
    }

    /// Whether the handle is dirty.
    pub fn is_dirty(&self) -> (dirty: bool)
        ensures
            dirty == self@.dirty,
    {
        self.is_dirty
    }

    /// The path prefix of the store.
    pub fn prefix(&self) -> (prefix: &str)
        ensures
            prefix@ == self@.prefix,
    {
        self.prefix.as_str()
    }

    /// Number of live keys.
    pub fn len(&self) -> (n: usize)
        requires
            self.wf(),
        ensures
            n == self@.keys().len(),
    {
        proof {
            self.key_dir.lemma_ordered();
        }
        self.key_dir.len()
    }

    /// The directory entry of `key`, if the key is live.
    pub fn entry(&self, key: &Vec<u8>) -> (r: Option<Entry>)
        requires
            self.wf(),
        ensures
            r == if self@.dir.contains_key(key@) {
                Some(self@.dir[key@])
            } else {
                None
            },
    {
        self.key_dir.get(key.as_slice())
    }

    /// The entry that `key` had when it was last removed, if it was removed
    /// since the last compaction.
    pub fn deleted(&self, key: &Vec<u8>) -> (r: Option<Entry>)
        requires
            self.wf(),
        ensures
            r == if self@.deleted.contains_key(key@) {
                Some(self@.deleted[key@])
            } else {
                None
            },
    {
        self.delete_map.get(key.as_slice())
    }

    /// Whether `slot` is in the free-slot index.
    pub fn is_free(&self, slot: Slot) -> (r: bool)
        requires
            self.wf(),
        ensures
            r == free_contains(self@.free, slot),
    {
        self.free_slots.contains(slot)
    }

    /// Checks the bytes read from the extent of `key`.
    ///
    /// Succeeds if `bytes` is a well-formed record of `key` whose checksum
    /// verifies and whose value has the length that the directory gives;
    /// fails with `Error::Invariant` otherwise.
    pub fn verify(&self, key: &Vec<u8>, bytes: &[u8]) -> (r: Result<(), Error>)
        requires
            self.wf(),
        ensures
            r == if self@.verifies(key@, bytes@) {
                Ok::<(), Error>(())
            } else {
                Err::<(), Error>(Error::Invariant)
            },
    {
        let entry = match self.key_dir.get(key.as_slice()) {
            Some(entry) => entry,
            None => {
                return Err(Error::Invariant);
            },
        };
        match decode_record(bytes) {
            Ok((found, value)) => {
                let found_len = found.len();
                let value_len = value.len();
                proof {
                    lemma_record_round_trip(found@, value@);
                }
                if found_len != key.len() || value_len != entry.value_len {
                    return Err(Error::Invariant);
                }
                match bytes_rank(found.as_slice(), key.as_slice()) {
                    Rank::Same => Ok(()),
                    _ => Err(Error::Invariant),
                }
            },
            Err(_) => Err(Error::Invariant),
        }
    }

    /// Where a record of `need` bytes for `key` would start: in the free
    /// extent that is chosen once the old entry of `key` is gone, or else at
    /// the tail; nowhere if the record fits neither.
    fn place_for(&self, key: &[u8], need: u64) -> (r: Option<(u64, u64)>)
        requires
            self.wf(),
        ensures
            r == if free_select(self@.delete(key@).free, need) is None && self@.tail_full(
                need as nat,
            ) {
                None
            } else {
                Some(self@.delete(key@).place(need))
            },
    {
        let hole = self.free_slots.select(need);
        proof {
            if hole is Some {
                let fit = fit_len(self@.free, need);
                assert(first_fit(self@.free, need, fit));
                let last = self@.free[fit].len() - 1;
                assert(self@.free[fit][last].start + fit == self@.free[fit][last].end);
            }
        }
        match self.key_dir.get(key) {
            Some(old) => {
                assert(self@.entry_wf(key@, old));
                proof {
                    lemma_select_after_push(self@.free, old.slot, need);
                }
                let freed: u64 = old.slot.end - old.slot.start;
                let reuse = need <= freed && match hole {
                    Some(hole) => freed <= hole.end - hole.start,
                    None => true,
                };
                if reuse {
                    return Some((old.slot.file_id, old.slot.start));
                }
            },
            None => {},
        }
        match hole {
            Some(hole) => Some((hole.file_id, hole.start)),
            None => if need > u64::MAX - self.file_position {
                None
            } else {
                Some((self.file_id, self.file_position))
            },
        }
    }

    /// The write that `put` would ask for, without changing the handle.
    ///
    /// Fails with `Error::Io` when neither a free extent nor the room
    /// behind the tail can take the record; succeeds otherwise.
    pub fn plan_put(&self, key: &[u8], value: &[u8]) -> (r: Result<WriteOp, Error>)
        requires
            self.wf(),
        ensures
            self@.put_refused(key@, value@) ==> r == Err::<WriteOp, Error>(Error::Io),
            !self@.put_refused(key@, value@) ==> r is Ok,
            r matches Ok(write) ==> write@ == self@.put_write(key@, value@),
    {
        let need = match record_size(key.len(), value.len()) {
            Some(need) => need,
            None => {
                return Err(Error::Io);
            },
        };
        let (file_id, start) = match self.place_for(key, need) {
            Some(place) => place,
            None => {
                return Err(Error::Io);
            },
        };
        let bytes = match encode_record(key, value) {
            Ok(bytes) => bytes,
            Err(e) => {
                return Err(e);
            },
        };
        proof {
            lemma_record_layout(key@, value@);
        }
        Ok(WriteOp { file_id, offset: start, bytes })
    }

    /// The compaction of the handle and the entries that the live keys get
    /// by it, in key order.
    fn pack(&self, values: &Vec<Vec<u8>>) -> (r: Result<(Compaction, Vec<Entry>), Error>)
        requires
            self.wf(),
        ensures
            self@.dirty && self@.mismatch(views(values@)) ==> r == Err::<
                (Compaction, Vec<Entry>),
                Error,
            >(Error::Decode),
            !(self@.dirty && self@.mismatch(views(values@))) ==> r is Ok,
            r matches Ok((plan, entries)) ==> {
                &&& self@.compacts(views(values@), plan)
                &&& self@.dirty ==> entries@ == Seq::new(
                    self@.keys().len(),
                    |i: int| self@.packed_entry(i),
                )
            },
    {
        if !self.is_dirty {
            let plan = Compaction { removals: Vec::new(), writes: Vec::new(), swaps: Vec::new() };
            return Ok((plan, Vec::new()));
        }
        let ghost st = self@;
        let ghost vals = views(values@);
        proof {
            self.key_dir.lemma_ordered();
            lemma_keys(st);
            lemma_prune_wf(st);
        }
        let n = self.key_dir.len();
        if values.len() != n {
            return Err(Error::Decode);
        }
        let mut tails = Tails::new();
        let mut entries: Vec<Entry> = Vec::new();
        let mut writes: Vec<WriteOp> = Vec::new();
        let mut i: usize = 0;
        while i < n
            invariant
                self.wf(),
                self@ == st,
                st.wf(),
                st.dirty,
                vals == views(values@),
                n == st.keys().len(),
                n == values@.len(),
                self.key_dir.ordered_keys() == st.keys(),
                self.key_dir.ordered_entries() == st.entries(),
                i <= n,
                entries@.len() == i,
                writes@.len() == i,
                forall|j: int| 0 <= j < i ==> #[trigger] entries@[j] == st.packed_entry(j),
                forall|j: int| 0 <= j < i ==> (#[trigger] writes@[j])@ == st.prune_writes(vals)[j],
                forall|j: int| 0 <= j < i ==> (#[trigger] vals[j]).len() == st.entries()[j].value_len,
                tails.wf(),
                forall|id: u64| #[trigger] tails.spec_end(id) == total_len(st.slots().take(i as int), id),
                forall|id: u64| #[trigger]
                    tails@.contains_key(id) <==> exists|j: int|
                        0 <= j < i && (#[trigger] st.entries()[j]).file_id == id,
            decreases n - i,
        {
            let old_entry = self.key_dir.entry_at(i);
            let key = self.key_dir.key_at(i);
            let value = &values[i];
            assert(vals[i as int] == value@);
            if value.len() != old_entry.value_len {
                return Err(Error::Decode);
            }
            let start = tails.end_of(old_entry.file_id);
            proof {
                lemma_keys(st);
                lemma_packed(st, i as int);
                assert forall|id: u64|
                    total_len(st.slots().take(i + 1), id) == total_len(st.slots().take(i as int), id)
                        + if st.slots()[i as int].file_id == id {
                        st.slots()[i as int].spec_len()
                    } else {
                        0
                    } by {
                    lemma_total_step(st.slots(), id, i as int);
                }
                assert(st.entry_wf(st.keys()[i as int], st.entries()[i as int]));
            }
            let (entry, write) = match serialize_to_file(
                old_entry.file_id,
                start,
                key.as_slice(),
                value.as_slice(),
            ) {
                Ok(framed) => framed,
                Err(e) => {
                    return Err(e);
                },
            };
            let ghost before = tails@;
            let ghost before_end = |id: u64| tails.spec_end(id);
            tails.set_end(old_entry.file_id, entry.slot.end);
            entries.push(entry);
            writes.push(write);
            proof {
                assert forall|id: u64| #[trigger]
                    tails.spec_end(id) == total_len(st.slots().take(i + 1), id) by {
                    if id != old_entry.file_id {
                        assert(tails@.contains_key(id) == before.contains_key(id));
                        assert(tails.spec_end(id) == before_end(id));
                    }
                }
                assert forall|id: u64| #[trigger]
                    tails@.contains_key(id) <==> exists|j: int|
                        0 <= j < i + 1 && (#[trigger] st.entries()[j]).file_id == id by {
                    if tails@.contains_key(id) {
                        if id == old_entry.file_id {
                            assert(st.entries()[i as int].file_id == id);
                        } else {
                            assert(before.contains_key(id));
                            let j = choose|j: int|
                                0 <= j < i && (#[trigger] st.entries()[j]).file_id == id;
                            assert(0 <= j < i + 1 && st.entries()[j].file_id == id);
                        }
                    }
                    if exists|j: int| 0 <= j < i + 1 && (#[trigger] st.entries()[j]).file_id == id {
                        let j = choose|j: int|
                            0 <= j < i + 1 && (#[trigger] st.entries()[j]).file_id == id;
                        if j < i {
                            assert(before.contains_key(id));
                        }
                    }
                }
            }
            i = i + 1;
        }
        let mut removals: Vec<u64> = Vec::new();
        if n == 0 {
            let mut id: u64 = 1;
            while id < self.file_id
                invariant
                    1 <= id <= self.file_id,
                    removals@.len() == id - 1,
                    forall|j: int| 0 <= j < removals@.len() ==> removals@[j] == j + 2,
                decreases self.file_id - id,
            {
                id = id + 1;
                removals.push(id);
            }
        }
        assert(removals@ =~= st.prune_removals());
        proof {
            assert(!st.mismatch(vals));
            tails.lemma_ids();
            assert forall|id: u64| tails.ids().contains(id) <==> st.holds_live(id) by {
                if tails.ids().contains(id) {
                    let j = choose|j: int| 0 <= j < n && (#[trigger] st.entries()[j]).file_id == id;
                    assert(st.dir.contains_key(st.keys()[j]));
                    assert(st.dir[st.keys()[j]].file_id == id);
                }
                if st.holds_live(id) {
                    let k = choose|k: Seq<u8>|
                        st.dir.contains_key(k) && (#[trigger] st.dir[k]).file_id == id;
                    assert(st.keys().contains(k));
                    let j = choose|j: int| 0 <= j < st.keys().len() && st.keys()[j] == k;
                    assert(st.entries()[j].file_id == id);
                }
            }
            assert(entries@ =~= Seq::new(st.keys().len(), |j: int| st.packed_entry(j)));
        }
        let swaps = tails.into_ids();
        Ok((Compaction { removals, writes, swaps }, entries))
    }

    /// The compaction that `prune` would ask for, without changing the
    /// handle.
    ///
    /// Fails with `Error::Decode` when the handle is dirty and `values`
    /// does not hold one value of the recorded length for every live key;
    /// succeeds otherwise.
    pub fn plan_prune(&self, values: &Vec<Vec<u8>>) -> (r: Result<Compaction, Error>)
        requires
            self.wf(),
        ensures
            self@.dirty && self@.mismatch(views(values@)) ==> r == Err::<Compaction, Error>(
                Error::Decode,
            ),
            !(self@.dirty && self@.mismatch(views(values@))) ==> r is Ok,
            r matches Ok(plan) ==> self@.compacts(views(values@), plan),
    {
        match self.pack(values) {
            Ok((plan, _)) => Ok(plan),
            Err(e) => Err(e),
        }
    }

    /// What `eval_op` would ask for, without changing the handle.  A caller
    /// that carries this out first, and lets `eval_op` follow only when it
    /// went well, keeps handle and disk in step when a file operation
    /// fails.
    pub fn plan(&self, op: &Op<Vec<u8>, Vec<u8>>, stored: &Vec<Vec<u8>>) -> (r: Result<
        Effect,
        Error,
    >)
        requires
            self.wf(),
        ensures
            match self@.step_error(*op, views(stored@)) {
                Some(e) => r == Err::<Effect, Error>(e),
                None => r is Ok,
            },
            r matches Ok(effect) ==> self@.step_effect(*op, views(stored@), effect),
    {
        match op {
            Op::Put { key, value } => match self.plan_put(key.as_slice(), value.as_slice()) {
                Ok(write) => Ok(Effect::Write(write)),
                Err(e) => Err(e),
            },
            Op::Delete { key } => Ok(Effect::Nothing),
            Op::Update { key, value } => match self.plan_put(key.as_slice(), value.as_slice()) {
                Ok(write) => Ok(Effect::Write(write)),
                Err(e) => Err(e),
            },
            Op::Prune => match self.plan_prune(stored) {
                Ok(plan) => Ok(Effect::Compact(plan)),
                Err(e) => Err(e),
            },
            Op::Sync => if !self.is_dirty {
                Ok(Effect::Nothing)
            } else if self.file_id == u64::MAX {
                Err(Error::Io)
            } else {
                Ok(Effect::Roll(self.file_id + 1))
            },
        }
    }

    /// Path of the segment `file_id` of this store.
    pub fn get_file_by_id(&self, file_id: u64) -> (path: String)
        ensures
            path@ == segment_name(self@.prefix, file_id),
    {
        segment_path(self.prefix.as_str(), file_id)
    }

    /// Path of the scratch file in which segment `file_id` is rewritten.
    pub fn get_tempfile_by_id(&self, file_id: u64) -> (path: String)
        ensures
            path@ == scratch_name(self@.prefix, file_id),
    {
        scratch_path(self.prefix.as_str(), file_id)
    }

    /// Path of the active segment.
    pub fn curr_file(&self) -> (path: String)
        ensures
            path@ == segment_name(self@.prefix, self@.file_id),
    {
        segment_path(self.prefix.as_str(), self.file_id)
    }
}

impl Db<Vec<u8>, Vec<u8>> for OnDisk {
    open spec fn inv(&self) -> bool {
        self.wf()
    }

    fn get(&self, key: &Vec<u8>) -> (r: Option<ReadOp>)
        ensures
            r == self@.get(key@),
    {
        match self.key_dir.get(key.as_slice()) {
            Some(entry) => Some(entry.read()),
            None => None,
        }
    }

    /// Fails with `Error::Io`, leaving the handle as it was, when neither a
    /// free extent nor the room behind the tail can take the record;
    /// succeeds otherwise.
    fn put(&mut self, key: Vec<u8>, value: Vec<u8>) -> (r: Result<WriteOp, Error>)
        ensures
            old(self)@.put_refused(key@, value@) ==> r == Err::<WriteOp, Error>(Error::Io)
                && final(self)@ == old(self)@,
            !old(self)@.put_refused(key@, value@) ==> r is Ok
                && final(self)@ == old(self)@.put(key@, value@),
            r matches Ok(write) ==> write@ == old(self)@.put_write(key@, value@),
    {
        let need = match record_size(key.len(), value.len()) {
            Some(need) => need,
            None => {
                return Err(Error::Io);
            },
        };
        let write = match self.plan_put(key.as_slice(), value.as_slice()) {
            Ok(write) => write,
            Err(e) => {
                return Err(e);
            },
        };
        proof {
            lemma_delete_wf(self@, key@);
            lemma_put_wf(self@, key@, value@);
        }
        let _ = self.delete(&key);
        let (file_id, start) = match self.free_slots.take(need) {
            Some(hole) => (hole.file_id, hole.start),
            None => {
                let start = self.file_position;
                self.file_position = start + need;
                (self.file_id, start)
            },
        };
        let entry = entry_for(file_id, start, key.len(), value.len());
        self.key_dir.insert(key, entry);
        self.is_dirty = true;
        Ok(write)
    }

    /// Never fails.
    fn delete(&mut self, key: &Vec<u8>) -> (r: Result<(), Error>)
        ensures
            r is Ok,
            final(self)@ == old(self)@.delete(key@),
    {
        proof {
            lemma_delete_wf(self@, key@);
        }
        match self.key_dir.remove(key.as_slice()) {
            Some(entry) => {
                self.free_slots.push(entry.slot);
                let owned = key.clone();
                assert(owned@ =~= key@);
                self.delete_map.insert(owned, entry);
                self.is_dirty = true;
            },
            None => {
                assert(self@.dir =~= old(self)@.dir);
            },
        }
        Ok(())
    }

    fn keys(&self) -> (r: Vec<&Vec<u8>>)
        ensures
            r@.len() == self@.keys().len(),
            forall|i: int| 0 <= i < r@.len() ==> (#[trigger] r@[i])@ == self@.keys()[i],
    {
        proof {
            self.key_dir.lemma_ordered();
        }
        let n = self.key_dir.len();
        let mut out: Vec<&Vec<u8>> = Vec::new();
        let mut i: usize = 0;
        while i < n
            invariant
                self.key_dir.wf(),
                n == self.key_dir.ordered_keys().len(),
                i <= n,
                out@.len() == i,
                forall|j: int| 0 <= j < i ==> (#[trigger] out@[j])@ == self.key_dir.ordered_keys()[j],
            decreases n - i,
        {
            out.push(self.key_dir.key_at(i));
            i = i + 1;
        }
        out
    }

    fn values(&self) -> (r: Vec<ReadOp>)
        ensures
            r@ == self@.values(),
    {
        proof {
            self.key_dir.lemma_ordered();
        }
        let n = self.key_dir.len();
        let mut out: Vec<ReadOp> = Vec::new();
        let mut i: usize = 0;
        while i < n
            invariant
                self.key_dir.wf(),
                n == self.key_dir.ordered_keys().len(),
                i <= n,
                out@.len() == i,
                forall|j: int|
                    0 <= j < i ==> #[trigger] out@[j]
                        == self.key_dir.ordered_entries()[j].spec_read(),
            decreases n - i,
        {
            out.push(self.key_dir.entry_at(i).read());
            i = i + 1;
        }
        assert(out@ =~= self@.values());
        out
    }

    fn items(&self) -> (r: Vec<(&Vec<u8>, ReadOp)>)
        ensures
            r@.len() == self@.items().len(),
            forall|i: int|
                0 <= i < r@.len() ==> ((#[trigger] r@[i]).0@, r@[i].1) == self@.items()[i],
    {
        proof {
            self.key_dir.lemma_ordered();
        }
        let n = self.key_dir.len();
        let mut out: Vec<(&Vec<u8>, ReadOp)> = Vec::new();
        let mut i: usize = 0;
        while i < n
            invariant
                self.key_dir.wf(),
                n == self.key_dir.ordered_keys().len(),
                i <= n,
                out@.len() == i,
                forall|j: int|
                    0 <= j < i ==> (#[trigger] out@[j]).0@ == self.key_dir.ordered_keys()[j]
                        && out@[j].1 == self.key_dir.ordered_entries()[j].spec_read(),
            decreases n - i,
        {
            out.push((self.key_dir.key_at(i), self.key_dir.entry_at(i).read()));
            i = i + 1;
        }
        out
    }
}

impl ToDisk<Vec<u8>, Vec<u8>> for OnDisk {
    fn open(file_name: &str) -> (r: OnDisk)
        ensures
            r.wf(),
            r@ == State::init(file_name@),
    {
        OnDisk {
            key_dir: KeyDir::new(),
            delete_map: KeyDir::new(),
            prefix: String::from_str(file_name),
            file_id: 1,
            file_position: 0,
            is_dirty: false,
            free_slots: FreeSlots::new(),
        }
    }

    /// Fails with `Error::Io`, leaving the handle as it was, when the handle
    /// is dirty and no segment id is left; succeeds otherwise.
    fn sync(&mut self) -> (r: Result<Option<u64>, Error>)
        ensures
            old(self)@.dirty && old(self)@.file_id == u64::MAX ==> r == Err::<Option<u64>, Error>(
                Error::Io,
            ) && final(self)@ == old(self)@,
            !(old(self)@.dirty && old(self)@.file_id == u64::MAX) ==> r is Ok && final(self)@
                == old(self)@.sync(),
            r matches Ok(created) ==> created == if old(self)@.dirty {
                Some(final(self)@.file_id)
            } else {
                None
            },
    {
        if !self.is_dirty {
            return Ok(None);
        }
        if self.file_id == u64::MAX {
            return Err(Error::Io);
        }
        proof {
            lemma_sync_wf(self@);
        }
        self.file_id = self.file_id + 1;
        self.file_position = 0;
        self.is_dirty = false;
        Ok(Some(self.file_id))
    }

    /// Fails with `Error::Decode`, leaving the handle as it was, when the
    /// handle is dirty and `values` does not hold one value of the recorded
    /// length for every live key; succeeds otherwise.
    fn prune(&mut self, values: &Vec<Vec<u8>>) -> (r: Result<Compaction, Error>)
        ensures
            old(self)@.dirty && old(self)@.mismatch(views(values@)) ==> r == Err::<Compaction, Error>(
                Error::Decode,
            ) && final(self)@ == old(self)@,
            !(old(self)@.dirty && old(self)@.mismatch(views(values@))) ==> r is Ok && final(self)@
                == old(self)@.prune(),
            r matches Ok(plan) ==> old(self)@.compacts(views(values@), plan),
    {
        let (plan, entries) = match self.pack(values) {
            Ok(packed) => packed,
            Err(e) => {
                return Err(e);
            },
        };
        if self.is_dirty {
            proof {
                self.key_dir.lemma_ordered();
                lemma_prune_wf(self@);
            }
            self.key_dir.set_entries(entries);
            self.delete_map = KeyDir::new();
            self.free_slots = FreeSlots::new();
            self.is_dirty = false;
        }
        Ok(plan)
    }
}

/// Applies one step of an operation script to `db`.  `stored` holds the
/// values of the live keys in key order, as read from disk; only `Prune`
/// looks at it.
///
/// Fails exactly when the operation that the step stands for does, and then
/// leaves `db` as it was.
pub fn eval_op(db: &mut OnDisk, op: Op<Vec<u8>, Vec<u8>>, stored: &Vec<Vec<u8>>) -> (r: Result<
    Effect,
    Error,
>)
    requires
        old(db).wf(),
    ensures
        final(db).wf(),
        final(db)@ == old(db)@.step(op, views(stored@)),
        match old(db)@.step_error(op, views(stored@)) {
            Some(e) => r == Err::<Effect, Error>(e),
            None => r is Ok,
        },
        r matches Ok(effect) ==> old(db)@.step_effect(op, views(stored@), effect),
{
    match op {
        Op::Put { key, value } => match db.put(key, value) {
            Ok(write) => Ok(Effect::Write(write)),
            Err(e) => Err(e),
        },
        Op::Delete { key } => match db.delete(&key) {
            Ok(()) => Ok(Effect::Nothing),
            Err(e) => Err(e),
        },
        Op::Update { key, value } => match db.put(key, value) {
            Ok(write) => Ok(Effect::Write(write)),
            Err(e) => Err(e),
        },
        Op::Prune => match db.prune(stored) {
            Ok(plan) => Ok(Effect::Compact(plan)),
            Err(e) => Err(e),
        },
        Op::Sync => match db.sync() {
            Ok(Some(id)) => Ok(Effect::Roll(id)),
            Ok(None) => Ok(Effect::Nothing),
            Err(e) => Err(e),
        },
    }
}

} // verus!
