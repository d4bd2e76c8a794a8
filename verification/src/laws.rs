//! What holds of the engine as a whole, proved from the model.
//!
//! The laws speak of a state and of the disk it goes with.  What a key
//! holds is what the read that `get` returns fetches from that disk.

use crate::assoc::lemma_assoc_at;
use crate::disk::{
    lemma_patch_elsewhere, lemma_patch_there, lemma_write_elsewhere, lemma_write_then_read, patch,
    scratch, Disk,
};
use crate::freeslots::{first_fit, fit_len, free_contains, free_push, free_select, free_wf};
use crate::model::{
    lemma_delete_wf, lemma_init_wf, lemma_keys, lemma_packed, lemma_put_wf, lemma_step_wf, State,
};
use crate::order::{bytes_lt, lemma_prefix_sorts_first, strictly_sorted};
use crate::packing::{lemma_total_monotonic, lemma_total_step, total_len};
use crate::record::{
    lemma_record_layout, lemma_record_round_trip, lemma_record_unique, record_bytes, record_len,
    value_of,
};
use crate::types::{Op, Slot};
use vstd::prelude::*;

verus! {

/// What every live key holds: the bytes that its read fetches, or nothing
/// where the read fails.
pub open spec fn observe(s: State, d: Disk) -> Map<Seq<u8>, Option<Seq<u8>>> {
    Map::new(|k: Seq<u8>| s.dir.contains_key(k), |k: Seq<u8>| d.read(s.dir[k].spec_read()))
}

/// Right after `value` was stored under `key` and the record was written,
/// the read of `key` fetches `value`.
pub proof fn law_read_after_write(s: State, d: Disk, key: Seq<u8>, value: Seq<u8>)
    requires
        s.wf(),
        value.len() <= usize::MAX,
        !s.put_refused(key, value),
    ensures
        s.put(key, value).get(key) is Some,
        d.write(s.put_write(key, value)).read(s.put(key, value).get(key).unwrap()) == Some(value),
{
    lemma_put_wf(s, key, value);
    lemma_record_layout(key, value);
    let after = s.put(key, value);
    let w = s.put_write(key, value);
    assert(after.dir.contains_key(key));
    assert(after.entry_wf(key, after.dir[key]));
    let r = after.dir[key].spec_read();
    lemma_write_then_read(d, w, r);
}

/// Right after a value was stored and the record was written, the extent
/// of the key holds a well-formed record of that key and that value, whose
/// checksum verifies.
pub proof fn law_record_on_disk(s: State, d: Disk, key: Seq<u8>, value: Seq<u8>)
    requires
        s.wf(),
        value.len() <= usize::MAX,
        !s.put_refused(key, value),
    ensures
        d.write(s.put_write(key, value)).content(s.put(key, value).dir[key].file_id).subrange(
            s.put(key, value).dir[key].slot.start as int,
            s.put(key, value).dir[key].slot.end as int,
        ) == record_bytes(key, value),
        s.put(key, value).verifies(key, record_bytes(key, value)),
{
    lemma_put_wf(s, key, value);
    lemma_record_layout(key, value);
    lemma_record_round_trip(key, value);
    let after = s.put(key, value);
    let w = s.put_write(key, value);
    let e = after.dir[key];
    assert(after.dir.contains_key(key));
    assert(after.entry_wf(key, e));
    let file = d.write(w).content(e.file_id);
    assert(file.subrange(e.slot.start as int, e.slot.end as int) =~= record_bytes(key, value));
}

/// Storing a value under one key leaves what every other key holds as it
/// was.
pub proof fn law_put_keeps_others(s: State, d: Disk, key: Seq<u8>, value: Seq<u8>, other: Seq<u8>)
    requires
        s.wf(),
        value.len() <= usize::MAX,
        !s.put_refused(key, value),
        other != key,
        s.dir.contains_key(other),
        d.read(s.dir[other].spec_read()) is Some,
    ensures
        s.put(key, value).get(other) == s.get(other),
        d.write(s.put_write(key, value)).read(s.dir[other].spec_read()) == d.read(
            s.dir[other].spec_read(),
        ),
{
    lemma_put_wf(s, key, value);
    lemma_record_layout(key, value);
    let after = s.put(key, value);
    let w = s.put_write(key, value);
    assert(after.dir.contains_key(key) && after.dir.contains_key(other));
    assert(after.entry_wf(key, after.dir[key]));
    assert(after.entry_wf(other, after.dir[other]));
    assert(after.dir[other] == s.dir[other]);
    assert(after.dir[other].slot.disjoint(after.dir[key].slot));
    lemma_write_elsewhere(d, w, s.dir[other].spec_read());
}

/// Keys that differ only by a trailing zero byte are two keys: the shorter
/// one sorts first, and storing a value under the longer one leaves the
/// shorter one as it was.
pub proof fn law_trailing_zero_distinct(s: State, key: Seq<u8>, value: Seq<u8>)
    ensures
        key.push(0u8) != key,
        bytes_lt(key, key.push(0u8)),
        s.put(key.push(0u8), value).get(key) == s.get(key),
{
    let longer = key.push(0u8);
    assert(longer.len() != key.len());
    assert(key =~= longer.subrange(0, key.len() as int));
    lemma_prefix_sorts_first(key, longer);
}

/// A removed key is not live, and the other keys stay as they were.
pub proof fn law_delete_removes(s: State, key: Seq<u8>)
    ensures
        s.delete(key).get(key) is None,
        forall|other: Seq<u8>| other != key ==> s.delete(key).get(other) == s.get(other),
{
}

/// A key that is not live stays so through every step of a script but a
/// `Put` or an `Update` of that key.
pub proof fn law_absent_until_put(
    s: State,
    op: Op<Vec<u8>, Vec<u8>>,
    stored: Seq<Seq<u8>>,
    key: Seq<u8>,
)
    requires
        s.wf(),
        s.get(key) is None,
        op matches Op::Put { key: k, .. } ==> k@ != key,
        op matches Op::Update { key: k, .. } ==> k@ != key,
    ensures
        s.step(op, stored).get(key) is None,
{
    if s.step_error(op, stored) is None {
        match op {
            Op::Prune => {
                if s.dirty {
                    lemma_keys(s);
                    assert(!s.keys().contains(key));
                }
            },
            _ => {},
        }
    }
}

/// The state that a script leads to: its steps taken one after the other,
/// each with the stored values it was given.
pub open spec fn run(s: State, script: Seq<(Op<Vec<u8>, Vec<u8>>, Seq<Seq<u8>>)>) -> State
    decreases script.len(),
{
    if script.len() == 0 {
        s
    } else {
        run(s, script.drop_last()).step(script.last().0, script.last().1)
    }
}

/// The script has no `Put` and no `Update` of `key`.
pub open spec fn never_puts(script: Seq<(Op<Vec<u8>, Vec<u8>>, Seq<Seq<u8>>)>, key: Seq<u8>) -> bool {
    forall|i: int|
        0 <= i < script.len() ==> {
            &&& (#[trigger] script[i]).0 matches Op::Put { key: k, .. } ==> k@ != key
            &&& script[i].0 matches Op::Update { key: k, .. } ==> k@ != key
        }
}

/// Every script, run on a fresh handle, leads to a consistent state: no
/// entry points outside a record, and no two extents overlap.
pub proof fn law_script_keeps_invariant(
    prefix: Seq<char>,
    script: Seq<(Op<Vec<u8>, Vec<u8>>, Seq<Seq<u8>>)>,
)
    ensures
        run(State::init(prefix), script).wf(),
    decreases script.len(),
{
    if script.len() == 0 {
        lemma_init_wf(prefix);
    } else {
        law_script_keeps_invariant(prefix, script.drop_last());
        lemma_step_wf(run(State::init(prefix), script.drop_last()), script.last().0, script.last().1);
    }
}

/// A removed key stays absent through every script that does not store a
/// value under it.
pub proof fn law_absent_through_script(
    s: State,
    key: Seq<u8>,
    script: Seq<(Op<Vec<u8>, Vec<u8>>, Seq<Seq<u8>>)>,
)
    requires
        s.wf(),
        never_puts(script, key),
    ensures
        run(s.delete(key), script).wf(),
        run(s.delete(key), script).get(key) is None,
    decreases script.len(),
{
    if script.len() == 0 {
        lemma_delete_wf(s, key);
    } else {
        let front = script.drop_last();
        assert(never_puts(front, key)) by {
            assert forall|i: int| 0 <= i < front.len() implies {
                &&& (#[trigger] front[i]).0 matches Op::Put { key: k, .. } ==> k@ != key
                &&& front[i].0 matches Op::Update { key: k, .. } ==> k@ != key
            } by {
                assert(front[i] == script[i]);
            }
        }
        law_absent_through_script(s, key, front);
        let before = run(s.delete(key), front);
        let last = script[script.len() - 1];
        lemma_step_wf(before, last.0, last.1);
        law_absent_until_put(before, last.0, last.1, key);
    }
}

/// The keys are enumerated in strictly increasing order, each live key
/// once; values and items have one element per key; and the item at each
/// position pairs the key at that position with what `get` returns for it.
pub proof fn law_enumeration(s: State)
    requires
        s.wf(),
    ensures
        strictly_sorted(s.keys()),
        forall|k: Seq<u8>| s.keys().contains(k) <==> s.get(k) is Some,
        s.values().len() == s.keys().len(),
        s.items().len() == s.keys().len(),
        forall|i: int|
            0 <= i < s.keys().len() ==> s.get(#[trigger] s.keys()[i]) == Some(s.values()[i]),
        forall|i: int|
            0 <= i < s.keys().len() ==> #[trigger] s.items()[i] == (
                s.keys()[i],
                s.get(s.keys()[i]).unwrap(),
            ),
{
    lemma_keys(s);
}

/// Rolling the active segment changes neither the live keys nor what they
/// hold.
pub proof fn law_sync_round_trip(s: State, d: Disk)
    requires
        s.wf(),
        !(s.dirty && s.file_id == u64::MAX),
    ensures
        observe(
            s.sync(),
            if s.dirty {
                d.create(s.sync().file_id)
            } else {
                d
            },
        ) == observe(s, d),
{
    let d2 = if s.dirty {
        d.create(s.sync().file_id)
    } else {
        d
    };
    assert forall|k: Seq<u8>| s.dir.contains_key(k) implies d2.read(s.dir[k].spec_read()) == d.read(
        s.dir[k].spec_read(),
    ) by {
        assert(s.entry_wf(k, s.dir[k]));
    }
    assert(observe(s.sync(), d2) =~= observe(s, d));
}

/// The extent chosen for a record is at least as long as the record.
pub proof fn law_free_slot_fits(free: Map<u64, Seq<Slot>>, need: u64)
    requires
        free_wf(free),
        free_select(free, need) is Some,
    ensures
        free_select(free, need).unwrap().spec_len() >= need,
        free_contains(free, free_select(free, need).unwrap()),
{
    let len = fit_len(free, need);
    assert(first_fit(free, need, len));
    let last = free[len].len() - 1;
    assert(free[len][last].start + len == free[len][last].end);
}

/// The records of two live keys never overlap, whatever script led to the
/// state.
pub proof fn law_live_extents_disjoint(s: State, k1: Seq<u8>, k2: Seq<u8>)
    requires
        s.wf(),
        s.dir.contains_key(k1),
        s.dir.contains_key(k2),
        k1 != k2,
    ensures
        s.dir[k1].slot.disjoint(s.dir[k2].slot),
{
}

/// Removing a key twice is the same as removing it once.
pub proof fn law_delete_idempotent(s: State, key: Seq<u8>)
    ensures
        s.delete(key).delete(key) == s.delete(key),
{
}

/// `values` holds one value for every live key, each as long as the
/// directory says.
pub open spec fn matches_lengths(s: State, values: Seq<Seq<u8>>) -> bool {
    &&& values.len() == s.keys().len()
    &&& forall|i: int|
        0 <= i < values.len() ==> (#[trigger] values[i]).len() == s.entries()[i].value_len
}

/// After the first `m` writes of a compaction, the scratch file of a
/// segment is as long as the records packed into it so far, and holds each
/// of them at its packed place.
proof fn lemma_scratch(s: State, values: Seq<Seq<u8>>, m: int, id: u64)
    requires
        s.wf(),
        s.dirty,
        matches_lengths(s, values),
        0 <= m <= s.keys().len(),
    ensures
        scratch(s.prune_writes(values).take(m), id).len() == total_len(s.slots().take(m), id),
        forall|i: int|
            0 <= i < m && (#[trigger] s.entries()[i]).file_id == id ==> scratch(
                s.prune_writes(values).take(m),
                id,
            ).subrange(s.packed_start(i), s.packed_start(i) + s.slots()[i].spec_len())
                == record_bytes(s.keys()[i], values[i]),
    decreases m,
{
    lemma_keys(s);
    let writes = s.prune_writes(values);
    let part = writes.take(m);
    if m == 0 {
        assert(part.len() == 0);
        assert(s.slots().take(0).len() == 0);
    } else {
        let last = m - 1;
        lemma_scratch(s, values, last, id);
        assert(part.drop_last() =~= writes.take(last));
        assert(part.last() == writes[last]);
        lemma_packed(s, last);
        lemma_total_step(s.slots(), id, last);
        lemma_record_layout(s.keys()[last], values[last]);
        let rest = scratch(writes.take(last), id);
        let now = scratch(part, id);
        assert(values[last].len() == s.entries()[last].value_len);
        if s.entries()[last].file_id == id {
            let rec = record_bytes(s.keys()[last], values[last]);
            assert(now == patch(rest, s.packed_start(last), rec));
            assert forall|i: int| 0 <= i < m && (#[trigger] s.entries()[i]).file_id == id implies now.subrange(
                s.packed_start(i),
                s.packed_start(i) + s.slots()[i].spec_len(),
            ) == record_bytes(s.keys()[i], values[i]) by {
                if i == last {
                    assert(now.subrange(
                        s.packed_start(i),
                        s.packed_start(i) + s.slots()[i].spec_len(),
                    ) =~= rec);
                } else {
                    lemma_packed(s, i);
                    lemma_total_monotonic(s.slots(), id, i + 1, last);
                    assert(now.subrange(
                        s.packed_start(i),
                        s.packed_start(i) + s.slots()[i].spec_len(),
                    ) =~= rest.subrange(
                        s.packed_start(i),
                        s.packed_start(i) + s.slots()[i].spec_len(),
                    ));
                }
            }
        } else {
            assert(now == rest);
        }
    }
}

/// Compaction changes neither the live keys nor what they hold, given the
/// values that the disk held for them.
pub proof fn law_prune_round_trip(s: State, d: Disk, values: Seq<Seq<u8>>, swaps: Seq<u64>)
    requires
        s.wf(),
        values.len() == s.keys().len(),
        forall|i: int| 0 <= i < values.len() ==> d.read(s.values()[i]) == Some(#[trigger] values[i]),
        s.prune_swaps(swaps),
    ensures
        !s.mismatch(values),
        observe(s.prune(), d.compact(s.prune_removals(), s.prune_writes(values), swaps)) == observe(
            s,
            d,
        ),
{
    lemma_keys(s);
    let after = s.prune();
    let writes = s.prune_writes(values);
    let d2 = d.compact(s.prune_removals(), writes, swaps);
    assert forall|i: int| 0 <= i < values.len() implies (#[trigger] values[i]).len()
        == s.entries()[i].value_len by {
        assert(d.read(s.values()[i]) == Some(values[i]));
    }
    if s.dirty {
        let keys = s.keys();
        let packed = Seq::new(keys.len(), |i: int| s.packed_entry(i));
        assert(after.dir.dom() =~= s.dir.dom());
        assert forall|k: Seq<u8>| s.dir.contains_key(k) implies d2.read(after.dir[k].spec_read())
            == d.read(s.dir[k].spec_read()) by {
            assert(keys.contains(k));
            let i = keys.index_of(k);
            lemma_assoc_at(keys, packed, i);
            let id = s.entries()[i].file_id;
            lemma_scratch(s, values, keys.len() as int, id);
            assert(writes.take(keys.len() as int) =~= writes);
            lemma_packed(s, i);
            lemma_total_monotonic(s.slots(), id, i + 1, keys.len() as int);
            lemma_record_layout(keys[i], values[i]);
            assert(s.holds_live(id));
            assert(swaps.contains(id));
            let file = scratch(writes, id);
            assert(d2.files[id] == file);
            let r = after.dir[k].spec_read();
            let start = s.packed_start(i);
            assert(d.read(s.values()[i]) == Some(values[i]));
            assert(file.subrange(r.offset as int, r.offset + r.len) =~= file.subrange(
                start,
                start + s.slots()[i].spec_len(),
            ).subrange(20 + keys[i].len() as int, s.slots()[i].spec_len()));
        }
        assert(observe(after, d2) =~= observe(s, d));
    } else {
        assert(d2.files =~= d.files);
    }
}

/// Storing two values under one key in a row leaves the other keys as they
/// were and the key itself holding the second value.
pub proof fn law_overwrite(s: State, d: Disk, key: Seq<u8>, v1: Seq<u8>, v2: Seq<u8>)
    requires
        s.wf(),
        v1.len() <= usize::MAX,
        v2.len() <= usize::MAX,
        !s.put_refused(key, v1),
        !s.put(key, v1).put_refused(key, v2),
    ensures
        s.put(key, v1).put(key, v2).dir.dom() == s.dir.dom().insert(key),
        forall|other: Seq<u8>|
            other != key ==> s.put(key, v1).put(key, v2).get(other) == s.get(other),
        d.write(s.put_write(key, v1)).write(s.put(key, v1).put_write(key, v2)).read(
            s.put(key, v1).put(key, v2).get(key).unwrap(),
        ) == Some(v2),
{
    lemma_put_wf(s, key, v1);
    let s1 = s.put(key, v1);
    law_read_after_write(s1, d.write(s.put_write(key, v1)), key, v2);
    assert(s1.put(key, v2).dir.dom() =~= s.dir.dom().insert(key));
}

/// When a second value is stored under a key, the extent of the first
/// record is in the free-slot index afterwards, unless the second record
/// was placed where the first one was.
pub proof fn law_overwrite_frees(s: State, key: Seq<u8>, v1: Seq<u8>, v2: Seq<u8>)
    requires
        s.wf(),
        v1.len() <= usize::MAX,
        v2.len() <= usize::MAX,
        !s.put_refused(key, v1),
        !s.put(key, v1).put_refused(key, v2),
        s.put(key, v1).put(key, v2).dir[key].slot.file_id != s.put(key, v1).dir[key].slot.file_id
            || s.put(key, v1).put(key, v2).dir[key].slot.start != s.put(key, v1).dir[key].slot.start,
    ensures
        free_contains(s.put(key, v1).put(key, v2).free, s.put(key, v1).dir[key].slot),
{
    lemma_put_wf(s, key, v1);
    let s1 = s.put(key, v1);
    let first = s1.dir[key].slot;
    assert(s1.dir.contains_key(key));
    assert(s1.entry_wf(key, s1.dir[key]));
    let gone = s1.delete(key);
    lemma_delete_wf(s1, key);
    let len = (first.end - first.start) as u64;
    let need = record_len(key.len(), v2.len()) as u64;
    let s2 = s1.put(key, v2);
    assert(gone.free == free_push(s1.free, first));
    let at = gone.free[len].len() - 1;
    assert(gone.free.contains_key(len) && gone.free[len][at] == first);
    if free_select(gone.free, need) is Some {
        let fit = fit_len(gone.free, need);
        assert(first_fit(gone.free, need, fit));
        assert(fit != len);
        assert(s2.free.contains_key(len) && s2.free[len][at] == first);
    } else {
        assert(s2.free == gone.free);
    }
}

/// The bytes that the disk holds in the extent of the live key `key`.
pub open spec fn held(s: State, d: Disk, key: Seq<u8>) -> Seq<u8> {
    d.content(s.dir[key].file_id).subrange(
        s.dir[key].slot.start as int,
        s.dir[key].slot.end as int,
    )
}

/// The extent of every live key lies inside its segment and holds a
/// well-formed record of that key, whose checksum verifies and whose value
/// is as long as the directory says.
pub open spec fn intact(s: State, d: Disk) -> bool {
    forall|k: Seq<u8>| #[trigger]
        s.dir.contains_key(k) ==> s.dir[k].slot.end <= d.content(s.dir[k].file_id).len()
            && s.verifies(k, held(s, d, k))
}

/// The disk once the embedding program has carried out what a step of a
/// script asked for.  `swaps` is the list of segments that a compaction
/// swaps in.
pub open spec fn disk_after(
    s: State,
    d: Disk,
    op: Op<Vec<u8>, Vec<u8>>,
    stored: Seq<Seq<u8>>,
    swaps: Seq<u64>,
) -> Disk {
    if s.step_error(op, stored) is Some {
        d
    } else {
        match op {
            Op::Put { key, value } | Op::Update { key, value } => d.write(
                s.put_write(key@, value@),
            ),
            Op::Delete { key } => d,
            Op::Sync => if s.dirty {
                d.create(s.sync().file_id)
            } else {
                d
            },
            Op::Prune => d.compact(s.prune_removals(), s.prune_writes(stored), swaps),
        }
    }
}

proof fn lemma_put_keeps_intact(s: State, d: Disk, key: Seq<u8>, value: Seq<u8>)
    requires
        s.wf(),
        intact(s, d),
        value.len() <= usize::MAX,
        !s.put_refused(key, value),
    ensures
        intact(s.put(key, value), d.write(s.put_write(key, value))),
{
    lemma_put_wf(s, key, value);
    lemma_record_layout(key, value);
    let after = s.put(key, value);
    let w = s.put_write(key, value);
    let d2 = d.write(w);
    assert(after.dir.contains_key(key));
    assert(after.entry_wf(key, after.dir[key]));
    assert forall|k: Seq<u8>| #[trigger] after.dir.contains_key(k) implies after.dir[k].slot.end
        <= d2.content(after.dir[k].file_id).len() && after.verifies(k, held(after, d2, k)) by {
        let e = after.dir[k];
        if k == key {
            law_record_on_disk(s, d, key, value);
            lemma_patch_there(d.content(w.file_id), w.offset as int, w.bytes);
        } else {
            assert(s.dir.contains_key(k));
            assert(after.entry_wf(k, e));
            assert(e.slot.disjoint(after.dir[key].slot));
            if e.file_id == w.file_id {
                lemma_patch_elsewhere(
                    d.content(w.file_id),
                    w.offset as int,
                    w.bytes,
                    e.slot.start as int,
                    e.slot.end as int,
                );
            }
            assert(held(after, d2, k) == held(s, d, k));
            assert(s.verifies(k, held(s, d, k)));
        }
    }
}

proof fn lemma_prune_makes_intact(s: State, d: Disk, values: Seq<Seq<u8>>, swaps: Seq<u64>)
    requires
        s.wf(),
        s.dirty,
        !s.mismatch(values),
        s.prune_swaps(swaps),
    ensures
        intact(s.prune(), d.compact(s.prune_removals(), s.prune_writes(values), swaps)),
{
    lemma_keys(s);
    let after = s.prune();
    let writes = s.prune_writes(values);
    let d2 = d.compact(s.prune_removals(), writes, swaps);
    let keys = s.keys();
    let packed = Seq::new(keys.len(), |i: int| s.packed_entry(i));
    assert(matches_lengths(s, values));
    assert forall|k: Seq<u8>| #[trigger] after.dir.contains_key(k) implies after.dir[k].slot.end
        <= d2.content(after.dir[k].file_id).len() && after.verifies(k, held(after, d2, k)) by {
        assert(keys.contains(k));
        let i = keys.index_of(k);
        lemma_assoc_at(keys, packed, i);
        let id = s.entries()[i].file_id;
        lemma_scratch(s, values, keys.len() as int, id);
        assert(writes.take(keys.len() as int) =~= writes);
        lemma_packed(s, i);
        lemma_total_monotonic(s.slots(), id, i + 1, keys.len() as int);
        assert(s.holds_live(id));
        assert(swaps.contains(id));
        assert(d2.content(id) == scratch(writes, id));
        assert(values[i].len() == s.entries()[i].value_len);
        lemma_record_round_trip(keys[i], values[i]);
    }
}

/// No step of a script damages a record: if the extent of every live key
/// held a well-formed record of that key before the step, it does so once
/// the step is taken and what it asked for is carried out.
pub proof fn law_step_keeps_records_intact(
    s: State,
    d: Disk,
    op: Op<Vec<u8>, Vec<u8>>,
    stored: Seq<Seq<u8>>,
    swaps: Seq<u64>,
)
    requires
        s.wf(),
        intact(s, d),
        op is Prune ==> s.prune_swaps(swaps),
    ensures
        intact(s.step(op, stored), disk_after(s, d, op, stored, swaps)),
{
    if s.step_error(op, stored) is None {
        match op {
            Op::Put { key, value } => {
                assert(value@.len() == value.len());
                lemma_put_keeps_intact(s, d, key@, value@);
            },
            Op::Update { key, value } => {
                assert(value@.len() == value.len());
                lemma_put_keeps_intact(s, d, key@, value@);
            },
            Op::Delete { key } => {
                let after = s.delete(key@);
                assert forall|k: Seq<u8>| #[trigger] after.dir.contains_key(k) implies after.dir[k].slot.end
                    <= d.content(after.dir[k].file_id).len() && after.verifies(
                    k,
                    held(after, d, k),
                ) by {
                    assert(s.dir.contains_key(k));
                    assert(s.verifies(k, held(s, d, k)));
                }
            },
            Op::Sync => {
                let after = s.sync();
                let d2 = disk_after(s, d, op, stored, swaps);
                assert forall|k: Seq<u8>| #[trigger] after.dir.contains_key(k) implies after.dir[k].slot.end
                    <= d2.content(after.dir[k].file_id).len() && after.verifies(
                    k,
                    held(after, d2, k),
                ) by {
                    assert(s.dir.contains_key(k));
                    assert(s.entry_wf(k, s.dir[k]));
                    assert(s.verifies(k, held(s, d, k)));
                }
            },
            Op::Prune => {
                if s.dirty {
                    lemma_prune_makes_intact(s, d, stored, swaps);
                } else {
                    let d2 = disk_after(s, d, op, stored, swaps);
                    assert(d2.files =~= d.files);
                }
            },
        }
    }
}

/// While the records are intact, the read of every live key succeeds and
/// fetches the value that its record frames.
pub proof fn law_live_keys_are_readable(s: State, d: Disk, key: Seq<u8>)
    requires
        s.wf(),
        intact(s, d),
        s.dir.contains_key(key),
    ensures
        s.get(key) is Some,
        d.read(s.get(key).unwrap()) == Some(value_of(held(s, d, key))),
{
    let e = s.dir[key];
    let bytes = held(s, d, key);
    assert(s.entry_wf(key, e));
    assert(s.verifies(key, bytes));
    lemma_record_unique(bytes);
    lemma_record_layout(key, value_of(bytes));
    let file = d.content(e.file_id);
    assert(d.files.contains_key(e.file_id)) by {
        if !d.files.contains_key(e.file_id) {
            assert(file.len() == 0);
        }
    }
    assert(file.subrange(e.value_pos as int, e.value_pos + e.value_len) =~= value_of(bytes));
}

/// The disk that a script leads to, each step being carried out after it
/// is taken.  `swaps` gives, for every step, the list of segments that the
/// step swaps in if it is a compaction.
pub open spec fn run_disk(
    s: State,
    d: Disk,
    script: Seq<(Op<Vec<u8>, Vec<u8>>, Seq<Seq<u8>>)>,
    swaps: Seq<Seq<u64>>,
) -> Disk
    decreases script.len(),
{
    if script.len() == 0 {
        d
    } else {
        disk_after(
            run(s, script.drop_last()),
            run_disk(s, d, script.drop_last(), swaps.drop_last()),
            script.last().0,
            script.last().1,
            swaps.last(),
        )
    }
}

/// `swaps` has, for every compaction of the script, the list of segments
/// that the engine names at that point.
pub open spec fn well_swapped(
    s: State,
    script: Seq<(Op<Vec<u8>, Vec<u8>>, Seq<Seq<u8>>)>,
    swaps: Seq<Seq<u64>>,
) -> bool {
    &&& swaps.len() == script.len()
    &&& forall|i: int|
        0 <= i < script.len() && (#[trigger] script[i]).0 is Prune ==> run(
            s,
            script.take(i),
        ).prune_swaps(swaps[i])
}

/// No script damages a record: if the extent of every live key held a
/// well-formed record of that key before, it does so after every step of
/// the script, whatever the steps are.
pub proof fn law_script_keeps_records_intact(
    s: State,
    d: Disk,
    script: Seq<(Op<Vec<u8>, Vec<u8>>, Seq<Seq<u8>>)>,
    swaps: Seq<Seq<u64>>,
)
    requires
        s.wf(),
        intact(s, d),
        well_swapped(s, script, swaps),
    ensures
        run(s, script).wf(),
        intact(run(s, script), run_disk(s, d, script, swaps)),
    decreases script.len(),
{
    if script.len() > 0 {
        let front = script.drop_last();
        let last = script.len() - 1;
        assert(well_swapped(s, front, swaps.drop_last())) by {
            assert forall|i: int| 0 <= i < front.len() && (#[trigger] front[i]).0 is Prune implies run(
                s,
                front.take(i),
            ).prune_swaps(swaps.drop_last()[i]) by {
                assert(front[i] == script[i]);
                assert(front.take(i) =~= script.take(i));
            }
        }
        law_script_keeps_records_intact(s, d, front, swaps.drop_last());
        assert(script.take(last) =~= front);
        assert(script[last] == script.last());
        lemma_step_wf(run(s, front), script.last().0, script.last().1);
        law_step_keeps_records_intact(
            run(s, front),
            run_disk(s, d, front, swaps.drop_last()),
            script.last().0,
            script.last().1,
            swaps.last(),
        );
    }
}

} // verus!
