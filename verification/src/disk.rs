//! The segment files as the engine sees them: what is on disk after the
//! embedding program has carried out what an operation asked for.

use crate::types::{ReadOp, WriteView};
use vstd::prelude::*;

verus! {

/// The file `old` after `bytes` were written at `offset`.  A gap between
/// the old end and `offset` reads as zeros.
pub open spec fn patch(old: Seq<u8>, offset: int, bytes: Seq<u8>) -> Seq<u8> {
    Seq::new(
        if old.len() >= offset + bytes.len() {
            old.len()
        } else {
            (offset + bytes.len()) as nat
        },
        |i: int|
            if offset <= i < offset + bytes.len() {
                bytes[i - offset]
            } else if i < old.len() {
                old[i]
            } else {
                0u8
            },
    )
}

/// The scratch file of segment `id` once all of `writes` are carried out,
/// in order, on scratch files that start out empty.
pub open spec fn scratch(writes: Seq<WriteView>, id: u64) -> Seq<u8>
    decreases writes.len(),
{
    if writes.len() == 0 {
        Seq::empty()
    } else if writes.last().file_id == id {
        patch(scratch(writes.drop_last(), id), writes.last().offset as int, writes.last().bytes)
    } else {
        scratch(writes.drop_last(), id)
    }
}

/// The segment files: the content of each segment that exists, by its id.
pub struct Disk {
    pub files: Map<u64, Seq<u8>>,
}

impl Disk {
    /// The content of segment `id`; empty if there is no such segment.
    pub open spec fn content(self, id: u64) -> Seq<u8> {
        if self.files.contains_key(id) {
            self.files[id]
        } else {
            Seq::empty()
        }
    }

    /// What a positioned read returns: the bytes asked for, or nothing if
    /// the segment is missing or ends before them.
    pub open spec fn read(self, r: ReadOp) -> Option<Seq<u8>> {
        if self.files.contains_key(r.file_id) && r.offset + r.len <= self.files[r.file_id].len() {
            Some(self.files[r.file_id].subrange(r.offset as int, r.offset + r.len))
        } else {
            None
        }
    }

    /// The disk after a positioned write.
    pub open spec fn write(self, w: WriteView) -> Disk {
        Disk {
            files: self.files.insert(
                w.file_id,
                patch(self.content(w.file_id), w.offset as int, w.bytes),
            ),
        }
    }

    /// The disk after segment `id` was created empty.
    pub open spec fn create(self, id: u64) -> Disk {
        Disk { files: self.files.insert(id, Seq::empty()) }
    }

    /// The disk after a compaction: the segments in `removals` are gone,
    /// and each segment in `swaps` holds what was written to its scratch
    /// file.
    pub open spec fn compact(self, removals: Seq<u64>, writes: Seq<WriteView>, swaps: Seq<u64>) -> Disk {
        Disk {
            files: Map::new(
                |id: u64|
                    swaps.contains(id) || (self.files.contains_key(id) && !removals.contains(id)),
                |id: u64|
                    if swaps.contains(id) {
                        scratch(writes, id)
                    } else {
                        self.files[id]
                    },
            ),
        }
    }
}

/// Bytes that lie wholly before or behind a write are as they were.
pub proof fn lemma_patch_elsewhere(old: Seq<u8>, offset: int, bytes: Seq<u8>, from: int, to: int)
    requires
        0 <= offset,
        0 <= from <= to <= old.len(),
        to <= offset || offset + bytes.len() <= from,
    ensures
        to <= patch(old, offset, bytes).len(),
        patch(old, offset, bytes).subrange(from, to) == old.subrange(from, to),
{
    assert(patch(old, offset, bytes).subrange(from, to) =~= old.subrange(from, to));
}

/// The bytes of a write are where it put them.
pub proof fn lemma_patch_there(old: Seq<u8>, offset: int, bytes: Seq<u8>)
    requires
        0 <= offset,
    ensures
        offset + bytes.len() <= patch(old, offset, bytes).len(),
        patch(old, offset, bytes).subrange(offset, offset + bytes.len()) == bytes,
{
    assert(patch(old, offset, bytes).subrange(offset, offset + bytes.len()) =~= bytes);
}

/// A write leaves every byte outside its range as it was.
pub proof fn lemma_write_elsewhere(d: Disk, w: WriteView, r: ReadOp)
    requires
        d.read(r) is Some,
        r.file_id != w.file_id || r.offset + r.len <= w.offset || w.offset + w.bytes.len()
            <= r.offset,
    ensures
        d.write(w).read(r) == d.read(r),
{
    if r.file_id == w.file_id {
        let old = d.files[r.file_id];
        let new = d.write(w).files[r.file_id];
        assert(new.subrange(r.offset as int, r.offset + r.len) =~= old.subrange(
            r.offset as int,
            r.offset + r.len,
        ));
    }
}

/// A read inside the range of a write returns what was written there.
pub proof fn lemma_write_then_read(d: Disk, w: WriteView, r: ReadOp)
    requires
        r.file_id == w.file_id,
        w.offset <= r.offset,
        r.offset + r.len <= w.offset + w.bytes.len(),
    ensures
        d.write(w).read(r) == Some(
            w.bytes.subrange(r.offset - w.offset, r.offset - w.offset + r.len),
        ),
{
    let new = d.write(w).files[r.file_id];
    assert(new.subrange(r.offset as int, r.offset + r.len) =~= w.bytes.subrange(
        r.offset - w.offset,
        r.offset - w.offset + r.len,
    ));
}

} // verus!
