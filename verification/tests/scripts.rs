use bitcask::record::decode_record;
use bitcask::Op::{Delete, Prune, Put, Sync, Update};
use bitcask::{
    eval_op, Compaction, Db, Effect, Entry, Error, OnDisk, Op, ReadOp, Slot, ToDisk, WriteOp,
};
use std::collections::BTreeMap;

/// The segment files, held in memory: what a program that carries out the
/// effects of the engine would leave on disk.
struct Disk {
    files: BTreeMap<u64, Vec<u8>>,
}

impl Disk {
    fn new() -> Disk {
        let mut files = BTreeMap::new();
        files.insert(1, Vec::new());
        Disk { files }
    }

    fn write_to(file: &mut Vec<u8>, write: &WriteOp) {
        let start = write.offset as usize;
        let end = start + write.bytes.len();
        if file.len() < end {
            file.resize(end, 0);
        }
        file[start..end].copy_from_slice(&write.bytes);
    }

    fn read(&self, read: &ReadOp) -> Option<Vec<u8>> {
        let file = self.files.get(&read.file_id)?;
        let start = read.offset as usize;
        let end = start + read.len;
        if end > file.len() {
            return None;
        }
        Some(file[start..end].to_vec())
    }

    fn extent(&self, slot: &Slot) -> Vec<u8> {
        self.files[&slot.file_id][slot.start as usize..slot.end as usize].to_vec()
    }

    fn compact(&mut self, plan: &Compaction) {
        for id in &plan.removals {
            self.files.remove(id);
        }
        let mut scratch: BTreeMap<u64, Vec<u8>> = BTreeMap::new();
        for write in &plan.writes {
            Disk::write_to(scratch.entry(write.file_id).or_default(), write);
        }
        for id in &plan.swaps {
            self.files.insert(*id, scratch.remove(id).unwrap());
        }
        assert!(scratch.is_empty());
    }

    fn apply(&mut self, effect: &Effect) {
        match effect {
            Effect::Nothing => {}
            Effect::Write(write) => {
                Disk::write_to(self.files.entry(write.file_id).or_default(), write)
            }
            Effect::Roll(id) => {
                self.files.insert(*id, Vec::new());
            }
            Effect::Compact(plan) => self.compact(plan),
        }
    }

    fn segments(&self) -> Vec<u64> {
        self.files.keys().copied().collect()
    }
}

/// A store together with its disk.
struct Store {
    db: OnDisk,
    disk: Disk,
}

impl Store {
    fn open(prefix: &str) -> Store {
        Store { db: OnDisk::open(prefix), disk: Disk::new() }
    }

    fn stored(&self) -> Vec<Vec<u8>> {
        self.db.values().iter().map(|read| self.disk.read(read).unwrap()).collect()
    }

    /// What `eval_op` has to be given with `op`: the stored values for a
    /// `Prune`, nothing for the others.
    fn stored_for(&self, op: &Op<Vec<u8>, Vec<u8>>) -> Vec<Vec<u8>> {
        match op {
            Prune => self.stored(),
            _ => Vec::new(),
        }
    }

    fn run(&mut self, op: Op<Vec<u8>, Vec<u8>>) -> Effect {
        let stored = self.stored_for(&op);
        let effect = eval_op(&mut self.db, op, &stored).unwrap();
        self.disk.apply(&effect);
        effect
    }

    fn put(&mut self, key: &[u8], value: &[u8]) -> Effect {
        self.run(Put { key: key.to_vec(), value: value.to_vec() })
    }

    fn delete(&mut self, key: &[u8]) -> Effect {
        self.run(Delete { key: key.to_vec() })
    }

    fn get(&self, key: &[u8]) -> Option<Vec<u8>> {
        let read = self.db.get(&key.to_vec())?;
        Some(self.disk.read(&read).expect("the value of a live key can be read"))
    }

    fn keys(&self) -> Vec<Vec<u8>> {
        self.db.keys().into_iter().cloned().collect()
    }

    fn values(&self) -> Vec<Vec<u8>> {
        self.stored()
    }

    fn items(&self) -> Vec<(Vec<u8>, Vec<u8>)> {
        self.db
            .items()
            .into_iter()
            .map(|(key, read)| (key.clone(), self.disk.read(&read).unwrap()))
            .collect()
    }

    fn observe(&self) -> BTreeMap<Vec<u8>, Vec<u8>> {
        self.items().into_iter().collect()
    }

    /// Every live key owns a record on disk that verifies, and no two
    /// records overlap.
    fn check(&self) {
        let mut extents: Vec<Slot> = Vec::new();
        for key in self.keys() {
            let entry = self.db.entry(&key).unwrap();
            assert_eq!(self.db.verify(&key, &self.disk.extent(&entry.slot)), Ok(()));
            assert!(entry.file_id <= self.db.file_id());
            for other in &extents {
                assert!(
                    other.file_id != entry.slot.file_id
                        || other.end <= entry.slot.start
                        || entry.slot.end <= other.start
                );
            }
            extents.push(entry.slot);
        }
    }
}

fn key(text: &str) -> Vec<u8> {
    bincode::serialize(&text.to_string()).unwrap()
}

fn value(number: u64) -> Vec<u8> {
    bincode::serialize(&number).unwrap()
}

fn number(bytes: Option<Vec<u8>>) -> Option<u64> {
    bytes.map(|bytes| bincode::deserialize(&bytes).unwrap())
}

#[test]
fn crash_1() {
    let mut store = Store::open("crash_1");

    let instructions = vec![
        Delete { key: key("") },
        Delete { key: key("") },
        Put { key: key("\0"), value: value(10344644575756526533u64) },
        Put { key: key("\u{1}"), value: value(72339073326448897u64) },
        Put { key: key("\u{1}"), value: value(72057594037928193u64) },
        Put { key: key(""), value: value(0) },
    ];

    for instruction in instructions {
        let stored = store.stored_for(&instruction);
        let effect = eval_op(&mut store.db, instruction, &stored).unwrap();
        store.disk.apply(&effect);
    }

    assert!(store.db.sync().is_ok());
}

#[test]
fn crash_2() {
    let mut store = Store::open("crash_2");

    let instructions = vec![
        Put { key: key("\0"), value: value(16969173279757565696) },
        Sync,
        Prune,
    ];

    for instruction in instructions {
        let stored = store.stored_for(&instruction);
        let effect = eval_op(&mut store.db, instruction, &stored).unwrap();
        store.disk.apply(&effect);
    }

    assert!(store.db.sync().is_ok());
}

#[test]
fn crash_1_leaves_the_last_values() {
    let mut store = Store::open("crash_1_values");
    store.run(Delete { key: key("") });
    store.run(Delete { key: key("") });
    store.run(Put { key: key("\0"), value: value(10344644575756526533u64) });
    store.run(Put { key: key("\u{1}"), value: value(72339073326448897u64) });
    store.run(Put { key: key("\u{1}"), value: value(72057594037928193u64) });
    store.run(Put { key: key(""), value: value(0) });
    assert_eq!(number(store.get(&key(""))), Some(0));
    assert_eq!(number(store.get(&key("\0"))), Some(10344644575756526533u64));
    assert_eq!(number(store.get(&key("\u{1}"))), Some(72057594037928193u64));
    store.check();
    assert_eq!(store.db.sync(), Ok(Some(2)));
}

#[test]
fn crash_2_leaves_two_segments() {
    let mut store = Store::open("crash_2_segments");
    store.run(Put { key: key("\0"), value: value(16969173279757565696) });
    assert_eq!(store.run(Sync), Effect::Roll(2));
    let plan = Compaction { removals: vec![], writes: vec![], swaps: vec![] };
    assert_eq!(store.run(Prune), Effect::Compact(plan));
    assert_eq!(number(store.get(&key("\0"))), Some(16969173279757565696));
    assert_eq!(store.disk.segments(), vec![1, 2]);
    assert_eq!(store.disk.files[&2], Vec::<u8>::new());
    store.check();
}

#[test]
fn fill_and_compact() {
    let mut store = Store::open("fill");
    let names = ["a", "b", "c", "d", "e", "f", "g"];
    for (i, name) in names.iter().enumerate() {
        store.put(&key(name), &value(i as u64 + 1));
    }
    for name in names {
        store.delete(&key(name));
    }
    store.run(Prune);
    assert_eq!(store.keys(), Vec::<Vec<u8>>::new());
    assert_eq!(store.values(), Vec::<Vec<u8>>::new());
    assert_eq!(store.items(), Vec::<(Vec<u8>, Vec<u8>)>::new());
    assert_eq!(store.disk.segments(), vec![1]);
}

#[test]
fn compacting_an_empty_directory_removes_all_but_the_first_segment() {
    let mut store = Store::open("empty");
    store.put(b"a", b"1");
    store.run(Sync);
    store.put(b"b", b"2");
    store.run(Sync);
    store.delete(b"a");
    store.delete(b"b");
    assert_eq!(store.disk.segments(), vec![1, 2, 3]);
    let effect = store.run(Prune);
    let plan = Compaction { removals: vec![2, 3], writes: vec![], swaps: vec![] };
    assert_eq!(effect, Effect::Compact(plan));
    assert_eq!(store.disk.segments(), vec![1]);
    assert!(!store.db.is_dirty());
    assert_eq!(store.db.file_id(), 3);
}

#[test]
fn hole_reuse() {
    let mut store = Store::open("hole");
    store.put(b"a", b"xxxxxxxx");
    let freed = store.db.entry(&b"a".to_vec()).unwrap().slot;
    store.delete(b"a");
    let tail = store.db.file_position();
    assert_eq!(tail, 29);
    assert!(store.db.is_free(freed));
    let effect = store.put(b"b", b"yyyyyyyy");
    assert_eq!(store.db.file_position(), tail);
    assert_eq!(store.get(b"b"), Some(b"yyyyyyyy".to_vec()));
    assert_eq!(store.db.entry(&b"b".to_vec()).unwrap().slot, freed);
    assert!(!store.db.is_free(freed));
    match effect {
        Effect::Write(write) => {
            assert_eq!((write.file_id, write.offset), (1, 0));
        }
        other => panic!("unexpected effect {:?}", other),
    }
    store.check();
}

#[test]
fn overwrite() {
    let mut store = Store::open("overwrite");
    store.put(&key("k"), &value(1));
    store.put(&key("k"), &value(2));
    assert_eq!(number(store.get(&key("k"))), Some(2));
    assert_eq!(store.keys(), vec![key("k")]);
    assert_eq!(store.db.len(), 1);
    store.check();
}

#[test]
fn ordered_enumeration() {
    let mut store = Store::open("ordered");
    store.put(&key("b"), &value(2));
    store.put(&key("a"), &value(1));
    store.put(&key("c"), &value(3));
    assert_eq!(store.keys(), vec![key("a"), key("b"), key("c")]);
    assert_eq!(store.values(), vec![value(1), value(2), value(3)]);
    assert_eq!(
        store.items(),
        vec![(key("a"), value(1)), (key("b"), value(2)), (key("c"), value(3))]
    );
}

#[test]
fn empty_key_and_empty_value_are_legal() {
    let mut store = Store::open("empty_bytes");
    store.put(b"", b"");
    assert_eq!(store.get(b""), Some(Vec::new()));
    assert_eq!(
        store.db.entry(&Vec::new()),
        Some(Entry {
            file_id: 1,
            value_len: 0,
            value_pos: 20,
            slot: Slot { file_id: 1, start: 0, end: 20 },
        })
    );
    store.put(b"k", b"");
    store.put(b"", b"v");
    assert_eq!(store.get(b"k"), Some(Vec::new()));
    assert_eq!(store.get(b""), Some(b"v".to_vec()));
    assert_eq!(store.keys(), vec![b"".to_vec(), b"k".to_vec()]);
    store.check();
}

#[test]
fn large_value_keeps_its_neighbours_through_prune() {
    let mut store = Store::open("large");
    let large: Vec<u8> = (0..(1usize << 20) + 3).map(|i| (i % 251) as u8).collect();
    store.put(b"a", b"small before");
    store.put(b"m", &large);
    store.put(b"z", b"small after");
    store.put(b"gone", b"to be removed");
    store.delete(b"gone");
    let before = store.observe();
    store.run(Prune);
    assert_eq!(store.observe(), before);
    assert_eq!(store.get(b"a"), Some(b"small before".to_vec()));
    assert_eq!(store.get(b"m"), Some(large.clone()));
    assert_eq!(store.get(b"z"), Some(b"small after".to_vec()));
    assert_eq!(store.disk.files[&1].len(), 3 * 20 + 3 + 12 + 11 + large.len());
    store.check();
}

#[test]
fn keys_that_differ_by_a_trailing_zero_are_distinct() {
    let mut store = Store::open("zero");
    store.put(b"k", b"short");
    store.put(b"k\0", b"long");
    store.put(b"k\0\0", b"longer");
    assert_eq!(store.get(b"k"), Some(b"short".to_vec()));
    assert_eq!(store.get(b"k\0"), Some(b"long".to_vec()));
    assert_eq!(store.get(b"k\0\0"), Some(b"longer".to_vec()));
    assert_eq!(store.keys(), vec![b"k".to_vec(), b"k\0".to_vec(), b"k\0\0".to_vec()]);
    store.delete(b"k\0");
    assert_eq!(store.get(b"k"), Some(b"short".to_vec()));
    assert_eq!(store.get(b"k\0"), None);
}

#[test]
fn read_after_write() {
    let mut store = Store::open("raw");
    store.put(b"one", b"1");
    assert_eq!(store.get(b"one"), Some(b"1".to_vec()));
    store.put(b"two", b"22");
    assert_eq!(store.get(b"two"), Some(b"22".to_vec()));
    assert_eq!(store.get(b"one"), Some(b"1".to_vec()));
    store.run(Update { key: b"one".to_vec(), value: b"111".to_vec() });
    assert_eq!(store.get(b"one"), Some(b"111".to_vec()));
    assert_eq!(store.get(b"two"), Some(b"22".to_vec()));
    store.check();
}

#[test]
fn put_reports_the_record_and_its_place() {
    let mut db = OnDisk::open("place");
    let write = db.put(b"key".to_vec(), b"value".to_vec()).unwrap();
    assert_eq!(write.file_id, 1);
    assert_eq!(write.offset, 0);
    assert_eq!(decode_record(&write.bytes), Ok((b"key".to_vec(), b"value".to_vec())));
    assert_eq!(db.get(&b"key".to_vec()), Some(ReadOp { file_id: 1, offset: 23, len: 5 }));
    let write = db.put(b"k2".to_vec(), b"v".to_vec()).unwrap();
    assert_eq!((write.file_id, write.offset), (1, 28));
    assert_eq!(db.get(&b"k2".to_vec()), Some(ReadOp { file_id: 1, offset: 50, len: 1 }));
    assert_eq!(db.file_position(), 51);
}

#[test]
fn delete_removes_until_the_next_put() {
    let mut store = Store::open("delete");
    store.put(b"k", b"v");
    store.put(b"other", b"o");
    assert_eq!(store.delete(b"k"), Effect::Nothing);
    assert_eq!(store.get(b"k"), None);
    store.put(b"other", b"o2");
    store.run(Sync);
    assert_eq!(store.get(b"k"), None);
    store.delete(b"other");
    store.put(b"third", b"t");
    store.run(Prune);
    assert_eq!(store.get(b"k"), None);
    store.put(b"k", b"again");
    assert_eq!(store.get(b"k"), Some(b"again".to_vec()));
}

#[test]
fn delete_is_idempotent() {
    let mut once = Store::open("once");
    let mut twice = Store::open("twice");
    for store in [&mut once, &mut twice] {
        store.put(b"a", b"1");
        store.put(b"b", b"2");
        store.run(Sync);
        store.delete(b"a");
    }
    assert_eq!(twice.db.delete(&b"a".to_vec()), Ok(()));
    assert_eq!(once.observe(), twice.observe());
    assert_eq!(once.db.is_dirty(), twice.db.is_dirty());
    assert_eq!(once.db.file_position(), twice.db.file_position());
    assert_eq!(once.db.deleted(&b"a".to_vec()), twice.db.deleted(&b"a".to_vec()));
    assert_eq!(once.put(b"c", b"3"), twice.put(b"c", b"3"));
    assert_eq!(once.put(b"d", b"4"), twice.put(b"d", b"4"));
}

#[test]
fn deleting_an_absent_key_changes_nothing() {
    let mut store = Store::open("absent");
    assert_eq!(store.db.delete(&b"nobody".to_vec()), Ok(()));
    assert!(!store.db.is_dirty());
    assert_eq!(store.db.deleted(&b"nobody".to_vec()), None);
    assert_eq!(store.db.sync(), Ok(None));
}

#[test]
fn delete_logs_the_removed_entry() {
    let mut store = Store::open("log");
    store.put(b"k", b"v");
    let entry = store.db.entry(&b"k".to_vec()).unwrap();
    store.delete(b"k");
    assert_eq!(store.db.entry(&b"k".to_vec()), None);
    assert_eq!(store.db.deleted(&b"k".to_vec()), Some(entry));
    assert!(store.db.is_free(entry.slot));
    store.put(b"x", b"y");
    store.run(Prune);
    assert_eq!(store.db.deleted(&b"k".to_vec()), None);
    assert!(!store.db.is_free(entry.slot));
}

#[test]
fn overwrite_frees_the_old_extent_when_the_new_record_is_longer() {
    let mut store = Store::open("longer");
    store.put(b"k", b"v1");
    let first = store.db.entry(&b"k".to_vec()).unwrap().slot;
    store.put(b"k", b"a longer value");
    let second = store.db.entry(&b"k".to_vec()).unwrap().slot;
    assert_eq!(first, Slot { file_id: 1, start: 0, end: 23 });
    assert_eq!(second, Slot { file_id: 1, start: 23, end: 58 });
    assert!(store.db.is_free(first));
    assert_eq!(store.keys(), vec![b"k".to_vec()]);
    assert_eq!(store.get(b"k"), Some(b"a longer value".to_vec()));
}

#[test]
fn overwrite_reuses_the_old_extent_when_the_new_record_fits() {
    let mut store = Store::open("fits");
    store.put(b"k", b"value one");
    let first = store.db.entry(&b"k".to_vec()).unwrap().slot;
    store.put(b"k", b"two");
    let second = store.db.entry(&b"k".to_vec()).unwrap().slot;
    assert_eq!(second, Slot { file_id: 1, start: first.start, end: first.start + 24 });
    assert!(!store.db.is_free(first));
    assert_eq!(store.db.file_position(), first.end);
    assert_eq!(store.get(b"k"), Some(b"two".to_vec()));
    store.check();
}

#[test]
fn the_smallest_extent_that_fits_is_chosen() {
    let mut store = Store::open("first_fit");
    store.put(b"a", &[1; 10]);
    store.put(b"b", &[2; 30]);
    store.put(b"c", &[3; 20]);
    store.put(b"d", &[4; 5]);
    let b = store.db.entry(&b"b".to_vec()).unwrap().slot;
    let c = store.db.entry(&b"c".to_vec()).unwrap().slot;
    store.delete(b"a");
    store.delete(b"b");
    store.delete(b"c");
    let tail = store.db.file_position();
    store.put(b"e", &[5; 15]);
    let e = store.db.entry(&b"e".to_vec()).unwrap().slot;
    assert_eq!(e, Slot { file_id: 1, start: c.start, end: c.start + 36 });
    assert!(store.db.is_free(b));
    assert!(!store.db.is_free(c));
    assert_eq!(store.db.file_position(), tail);
    store.check();
}

#[test]
fn the_most_recently_freed_extent_of_a_length_is_chosen() {
    let mut store = Store::open("recent");
    store.put(b"a", &[1; 8]);
    store.put(b"b", &[2; 8]);
    store.put(b"c", &[3; 8]);
    let a = store.db.entry(&b"a".to_vec()).unwrap().slot;
    let b = store.db.entry(&b"b".to_vec()).unwrap().slot;
    let c = store.db.entry(&b"c".to_vec()).unwrap().slot;
    store.delete(b"b");
    store.delete(b"c");
    store.delete(b"a");
    store.put(b"x", &[9; 8]);
    assert_eq!(store.db.entry(&b"x".to_vec()).unwrap().slot, a);
    store.put(b"y", &[9; 8]);
    assert_eq!(store.db.entry(&b"y".to_vec()).unwrap().slot, c);
    store.put(b"z", &[9; 8]);
    assert_eq!(store.db.entry(&b"z".to_vec()).unwrap().slot, b);
    store.check();
}

#[test]
fn the_rest_of_a_larger_extent_is_not_reused() {
    let mut store = Store::open("rest");
    store.put(b"a", &[1; 40]);
    let a = store.db.entry(&b"a".to_vec()).unwrap().slot;
    store.delete(b"a");
    store.put(b"b", &[2; 4]);
    let b = store.db.entry(&b"b".to_vec()).unwrap().slot;
    assert_eq!(b, Slot { file_id: 1, start: a.start, end: a.start + 25 });
    assert!(!store.db.is_free(Slot { file_id: 1, start: b.end, end: a.end }));
    let tail = store.db.file_position();
    store.put(b"c", &[3; 4]);
    assert_eq!(store.db.entry(&b"c".to_vec()).unwrap().slot.start, tail);
    store.check();
}

#[test]
fn an_extent_that_is_too_small_is_passed_over() {
    let mut store = Store::open("small");
    store.put(b"a", &[1; 4]);
    store.delete(b"a");
    let tail = store.db.file_position();
    store.put(b"b", &[2; 5]);
    assert_eq!(store.db.entry(&b"b".to_vec()).unwrap().slot.start, tail);
    assert_eq!(store.db.file_position(), tail + 26);
}

#[test]
fn a_hole_in_an_older_segment_is_reused_without_moving_the_tail() {
    let mut store = Store::open("older");
    store.put(b"a", &[1; 8]);
    let a = store.db.entry(&b"a".to_vec()).unwrap().slot;
    store.run(Sync);
    store.put(b"b", &[2; 3]);
    store.delete(b"a");
    let tail = store.db.file_position();
    let effect = store.put(b"c", &[3; 8]);
    assert_eq!(store.db.entry(&b"c".to_vec()).unwrap().slot, a);
    assert_eq!(store.db.file_position(), tail);
    match effect {
        Effect::Write(write) => assert_eq!((write.file_id, write.offset), (1, 0)),
        other => panic!("unexpected effect {:?}", other),
    }
    assert_eq!(store.get(b"c"), Some(vec![3; 8]));
    assert_eq!(store.get(b"b"), Some(vec![2; 3]));
    store.check();
}

#[test]
fn sync_rolls_a_dirty_handle_only() {
    let mut store = Store::open("sync");
    assert!(!store.db.is_dirty());
    assert_eq!(store.db.sync(), Ok(None));
    assert_eq!(store.db.file_id(), 1);
    store.put(b"k", b"v");
    assert!(store.db.is_dirty());
    let before = store.observe();
    assert_eq!(store.run(Sync), Effect::Roll(2));
    assert!(!store.db.is_dirty());
    assert_eq!(store.db.file_id(), 2);
    assert_eq!(store.db.file_position(), 0);
    assert_eq!(store.observe(), before);
    assert_eq!(store.db.entry(&b"k".to_vec()).unwrap().file_id, 1);
    assert_eq!(store.run(Sync), Effect::Nothing);
    assert_eq!(store.db.file_id(), 2);
    store.put(b"k2", b"v2");
    assert_eq!(store.db.entry(&b"k2".to_vec()).unwrap().slot, Slot { file_id: 2, start: 0, end: 24 });
    store.delete(b"k2");
    assert!(store.db.is_dirty());
    assert_eq!(store.run(Sync), Effect::Roll(3));
    assert_eq!(store.disk.segments(), vec![1, 2, 3]);
    store.check();
}

#[test]
fn prune_packs_every_segment_in_key_order() {
    let mut store = Store::open("pack");
    store.put(b"d", b"4444");
    store.put(b"b", b"22");
    store.put(b"x", b"dropped");
    store.run(Sync);
    store.put(b"c", b"333");
    store.put(b"a", b"1");
    store.delete(b"x");
    let before = store.observe();
    let effect = store.run(Prune);
    let plan = match effect {
        Effect::Compact(plan) => plan,
        other => panic!("unexpected effect {:?}", other),
    };
    assert_eq!(plan.removals, Vec::<u64>::new());
    assert_eq!(plan.swaps, vec![1, 2]);
    let places: Vec<(u64, u64, usize)> =
        plan.writes.iter().map(|w| (w.file_id, w.offset, w.bytes.len())).collect();
    assert_eq!(places, vec![(2, 0, 22), (1, 0, 23), (2, 22, 24), (1, 23, 25)]);
    assert_eq!(decode_record(&plan.writes[0].bytes), Ok((b"a".to_vec(), b"1".to_vec())));
    assert_eq!(decode_record(&plan.writes[3].bytes), Ok((b"d".to_vec(), b"4444".to_vec())));
    assert_eq!(store.observe(), before);
    assert_eq!(
        store.db.entry(&b"d".to_vec()),
        Some(Entry {
            file_id: 1,
            value_len: 4,
            value_pos: 44,
            slot: Slot { file_id: 1, start: 23, end: 48 },
        })
    );
    assert_eq!(store.disk.files[&1].len(), 48);
    assert_eq!(store.disk.files[&2].len(), 46);
    assert!(!store.db.is_dirty());
    assert_eq!(store.db.file_id(), 2);
    assert_eq!(store.db.file_position(), 46);
    store.check();
    store.put(b"e", b"5");
    assert_eq!(store.db.entry(&b"e".to_vec()).unwrap().slot, Slot { file_id: 2, start: 46, end: 68 });
    store.check();
}

#[test]
fn prune_of_a_clean_handle_does_nothing() {
    let mut store = Store::open("clean");
    store.put(b"a", b"1");
    store.put(b"b", b"2");
    store.delete(b"a");
    store.run(Sync);
    let freed = Slot { file_id: 1, start: 0, end: 22 };
    assert!(store.db.is_free(freed));
    let plan = store.db.prune(&vec![b"ignored".to_vec()]).unwrap();
    assert_eq!(plan, Compaction { removals: vec![], writes: vec![], swaps: vec![] });
    assert!(store.db.is_free(freed));
    assert!(store.db.deleted(&b"a".to_vec()).is_some());
    assert_eq!(store.get(b"b"), Some(b"2".to_vec()));
}

#[test]
fn prune_clears_the_free_slots() {
    let mut store = Store::open("clear");
    store.put(b"a", b"1");
    store.put(b"b", b"2");
    store.delete(b"a");
    let freed = Slot { file_id: 1, start: 0, end: 22 };
    assert!(store.db.is_free(freed));
    store.run(Prune);
    assert!(!store.db.is_free(freed));
    assert_eq!(store.db.entry(&b"b".to_vec()).unwrap().slot, freed);
    assert_eq!(store.get(b"b"), Some(b"2".to_vec()));
    let tail = store.db.file_position();
    store.put(b"c", b"3");
    assert_eq!(store.db.entry(&b"c".to_vec()).unwrap().slot.start, tail);
    store.check();
}

#[test]
fn prune_rejects_values_that_do_not_match() {
    let mut store = Store::open("mismatch");
    store.put(b"a", b"1");
    store.put(b"b", b"22");
    let entry = store.db.entry(&b"b".to_vec());
    assert_eq!(store.db.prune(&vec![b"1".to_vec()]), Err(Error::Decode));
    assert_eq!(store.db.prune(&vec![b"1".to_vec(), b"2".to_vec()]), Err(Error::Decode));
    assert_eq!(
        store.db.prune(&vec![b"1".to_vec(), b"22".to_vec(), b"3".to_vec()]),
        Err(Error::Decode)
    );
    assert_eq!(eval_op(&mut store.db, Prune, &vec![]), Err(Error::Decode));
    assert!(store.db.is_dirty());
    assert_eq!(store.db.entry(&b"b".to_vec()), entry);
    assert!(store.db.prune(&vec![b"1".to_vec(), b"22".to_vec()]).is_ok());
}

#[test]
fn items_pair_each_key_with_what_get_returns() {
    let mut store = Store::open("items");
    for name in ["pear", "apple", "fig", "kiwi", "plum"] {
        store.put(name.as_bytes(), name.to_uppercase().as_bytes());
    }
    store.delete(b"fig");
    store.run(Sync);
    store.put(b"apple", b"again");
    let keys = store.db.keys();
    let values = store.db.values();
    let items = store.db.items();
    assert_eq!(keys.len(), 4);
    assert_eq!(values.len(), keys.len());
    assert_eq!(items.len(), keys.len());
    for i in 0..keys.len() {
        assert_eq!(items[i].0, keys[i]);
        assert_eq!(Some(items[i].1), store.db.get(keys[i]));
        assert_eq!(values[i], items[i].1);
        assert!(store.disk.read(&values[i]).is_some());
        if i > 0 {
            assert!(keys[i - 1] < keys[i]);
        }
    }
    assert_eq!(store.get(b"apple"), Some(b"again".to_vec()));
}

#[test]
fn verify_tells_a_good_record_from_a_bad_one() {
    let mut store = Store::open("verify");
    store.put(b"k", b"value");
    store.put(b"other", b"value");
    let slot = store.db.entry(&b"k".to_vec()).unwrap().slot;
    let bytes = store.disk.extent(&slot);
    assert_eq!(store.db.verify(&b"k".to_vec(), &bytes), Ok(()));
    assert_eq!(store.db.verify(&b"other".to_vec(), &bytes), Err(Error::Invariant));
    assert_eq!(store.db.verify(&b"absent".to_vec(), &bytes), Err(Error::Invariant));
    let mut flipped = bytes.clone();
    flipped[21] ^= 0x10;
    assert_eq!(store.db.verify(&b"k".to_vec(), &flipped), Err(Error::Invariant));
    assert_eq!(store.db.verify(&b"k".to_vec(), &bytes[..25]), Err(Error::Invariant));
}

#[test]
fn paths_of_a_handle() {
    let db = OnDisk::open("data/store");
    assert_eq!(db.prefix(), "data/store");
    assert_eq!(db.curr_file(), "data/store.1.db");
    assert_eq!(db.get_file_by_id(12), "data/store.12.db");
    assert_eq!(db.get_tempfile_by_id(12), "data/store.12.temp.db");
}

#[test]
fn a_long_script_keeps_the_store_consistent() {
    let mut store = Store::open("script");
    let mut model: BTreeMap<Vec<u8>, Vec<u8>> = BTreeMap::new();
    let mut seed: u64 = 0x2545_f491_4f6c_dd1d;
    for step in 0..600u32 {
        seed ^= seed << 13;
        seed ^= seed >> 7;
        seed ^= seed << 17;
        let k = vec![b'k', (seed % 13) as u8];
        let v = vec![(seed >> 8) as u8; ((seed >> 16) % 40) as usize];
        match (seed >> 32) % 10 {
            0..=4 => {
                store.put(&k, &v);
                model.insert(k, v);
            }
            5..=6 => {
                store.delete(&k);
                model.remove(&k);
            }
            7 => {
                store.run(Update { key: k.clone(), value: v.clone() });
                model.insert(k, v);
            }
            8 => {
                store.run(Sync);
            }
            _ => {
                store.run(Prune);
            }
        }
        assert_eq!(store.observe(), model, "after step {}", step);
        store.check();
    }
}
