//! Plain data shared by the record layer, the directory and the engine.

use vstd::prelude::*;

verus! {

/// The four ways an operation can fail.
#[derive(Clone, Copy, Debug, PartialEq, Eq, Structural)]
pub enum Error {
    /// A file operation failed, came back short, or an offset or segment id
    /// left the range that a file can address.
    Io,
    /// A key, value or length could not be encoded.
    Encode,
    /// Bytes read back do not form what was written.
    Decode,
    /// An internal consistency check failed.
    Invariant,
}

/// A byte range `[start, end)` inside the segment `file_id`.
#[derive(Clone, Copy, Debug, PartialEq, Eq, Structural)]
pub struct Slot {
    pub file_id: u64,
    pub start: u64,
    pub end: u64,
}

impl Slot {
    /// Number of bytes the extent covers.
    pub open spec fn spec_len(self) -> int {
        self.end - self.start
    }

    /// The two extents share no byte.
    pub open spec fn disjoint(self, other: Slot) -> bool {
        self.file_id != other.file_id || self.end <= other.start || other.end <= self.start
    }

    /// The extent lies inside `other`.
    pub open spec fn within(self, other: Slot) -> bool {
        self.file_id == other.file_id && other.start <= self.start && self.end <= other.end
    }
}

/// Where the latest value of a live key is stored: `value_len` bytes at
/// `value_pos` in segment `file_id`, inside the record that occupies `slot`.
#[derive(Clone, Copy, Debug, PartialEq, Eq, Structural)]
pub struct Entry {
    pub file_id: u64,
    pub value_len: usize,
    pub value_pos: u64,
    pub slot: Slot,
}

/// A positioned read for the embedding program to carry out: `len` bytes at
/// `offset` in segment `file_id`.
#[derive(Clone, Copy, Debug, PartialEq, Eq, Structural)]
pub struct ReadOp {
    pub file_id: u64,
    pub offset: u64,
    pub len: usize,
}

impl Entry {
    /// The read that fetches the value this entry points at.
    pub open spec fn spec_read(self) -> ReadOp {
        ReadOp { file_id: self.file_id, offset: self.value_pos, len: self.value_len }
    }

    /// The read that fetches the value this entry points at.
    pub fn read(&self) -> (r: ReadOp)
        ensures
            r == self.spec_read(),
    {
        ReadOp { file_id: self.file_id, offset: self.value_pos, len: self.value_len }
    }
}

/// A positioned write for the embedding program to carry out: `bytes` at
/// `offset` in segment `file_id`.
#[derive(Clone, Debug, PartialEq, Eq)]
pub struct WriteOp {
    pub file_id: u64,
    pub offset: u64,
    pub bytes: Vec<u8>,
}

/// A write, with its bytes as a sequence.
pub struct WriteView {
    pub file_id: u64,
    pub offset: u64,
    pub bytes: Seq<u8>,
}

impl View for WriteOp {
    type V = WriteView;

    open spec fn view(&self) -> WriteView {
        WriteView { file_id: self.file_id, offset: self.offset, bytes: self.bytes@ }
    }
}

/// The byte strings of `v`, each as a sequence.
pub open spec fn views(v: Seq<Vec<u8>>) -> Seq<Seq<u8>> {
    Seq::new(v.len(), |i: int| v[i]@)
}

/// The file operations of one compaction, to be carried out in this order:
/// delete the segments in `removals`; write every record of `writes` to the
/// scratch file of its segment, each scratch file starting out empty; then
/// rename the scratch file of every segment in `swaps` over that segment.
#[derive(Clone, Debug, PartialEq, Eq)]
pub struct Compaction {
    pub removals: Vec<u64>,
    pub writes: Vec<WriteOp>,
    pub swaps: Vec<u64>,
}

/// What the embedding program has to do on disk after an operation.
#[derive(Clone, Debug, PartialEq, Eq)]
pub enum Effect {
    /// Nothing.
    Nothing,
    /// Carry out one write to a segment.
    Write(WriteOp),
    /// Create the segment of this id, empty.
    Roll(u64),
    /// Carry out a compaction.
    Compact(Compaction),
}

/// One step of an operation script.  `Update` means the same as `Put`.
#[derive(Clone, Debug)]
pub enum Op<K, V> {
    Put { key: K, value: V },
    Delete { key: K },
    Update { key: K, value: V },
    Prune,
    Sync,
}

} // verus!
