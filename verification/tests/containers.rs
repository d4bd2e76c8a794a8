use bitcask::tails::Tails;
use bitcask::{
    eval_op, Db, Effect, Entry, Error, FreeSlots, KeyDir, OnDisk, Op, Slot, ToDisk,
};

fn entry(n: u64) -> Entry {
    Entry {
        file_id: 1,
        value_len: n as usize,
        value_pos: 100 * n + 21,
        slot: Slot { file_id: 1, start: 100 * n, end: 100 * n + 21 + n },
    }
}

fn slot(file_id: u64, start: u64, len: u64) -> Slot {
    Slot { file_id, start, end: start + len }
}

#[test]
fn key_dir_enumerates_in_key_order() {
    let mut dir = KeyDir::new();
    assert_eq!(dir.len(), 0);
    for (i, key) in [&b"m"[..], b"a", b"z", b"", b"ab", b"a\0"].iter().enumerate() {
        dir.insert(key.to_vec(), entry(i as u64));
    }
    assert_eq!(dir.len(), 6);
    let keys: Vec<Vec<u8>> = (0..dir.len()).map(|i| dir.key_at(i).clone()).collect();
    assert_eq!(
        keys,
        vec![b"".to_vec(), b"a".to_vec(), b"a\0".to_vec(), b"ab".to_vec(), b"m".to_vec(), b"z".to_vec()]
    );
    let entries: Vec<Entry> = (0..dir.len()).map(|i| dir.entry_at(i)).collect();
    assert_eq!(entries, vec![entry(3), entry(1), entry(5), entry(4), entry(0), entry(2)]);
}

#[test]
fn key_dir_insert_replaces_and_remove_returns_the_entry() {
    let mut dir = KeyDir::new();
    dir.insert(b"k".to_vec(), entry(1));
    dir.insert(b"j".to_vec(), entry(2));
    assert_eq!(dir.get(b"k"), Some(entry(1)));
    dir.insert(b"k".to_vec(), entry(3));
    assert_eq!(dir.len(), 2);
    assert_eq!(dir.get(b"k"), Some(entry(3)));
    assert_eq!(dir.get(b"missing"), None);
    assert_eq!(dir.remove(b"missing"), None);
    assert_eq!(dir.remove(b"k"), Some(entry(3)));
    assert_eq!(dir.remove(b"k"), None);
    assert_eq!(dir.get(b"k"), None);
    assert_eq!(dir.get(b"j"), Some(entry(2)));
    assert_eq!(dir.len(), 1);
}

#[test]
fn key_dir_set_entries_keeps_the_keys() {
    let mut dir = KeyDir::new();
    dir.insert(b"b".to_vec(), entry(1));
    dir.insert(b"a".to_vec(), entry(2));
    dir.set_entries(vec![entry(7), entry(8)]);
    assert_eq!(dir.get(b"a"), Some(entry(7)));
    assert_eq!(dir.get(b"b"), Some(entry(8)));
}

#[test]
fn free_slots_serve_the_smallest_length_that_fits() {
    let mut free = FreeSlots::new();
    assert_eq!(free.select(0), None);
    free.push(slot(1, 0, 30));
    free.push(slot(1, 100, 50));
    free.push(slot(2, 0, 40));
    assert_eq!(free.select(31), Some(slot(2, 0, 40)));
    assert_eq!(free.select(30), Some(slot(1, 0, 30)));
    assert_eq!(free.select(1), Some(slot(1, 0, 30)));
    assert_eq!(free.select(50), Some(slot(1, 100, 50)));
    assert_eq!(free.select(51), None);
    assert_eq!(free.take(35), Some(slot(2, 0, 40)));
    assert_eq!(free.select(35), Some(slot(1, 100, 50)));
    assert!(!free.contains(slot(2, 0, 40)));
    assert!(free.contains(slot(1, 0, 30)));
    assert_eq!(free.take(60), None);
    assert!(free.contains(slot(1, 100, 50)));
}

#[test]
fn free_slots_serve_the_latest_of_a_length_first() {
    let mut free = FreeSlots::new();
    free.push(slot(1, 0, 25));
    free.push(slot(1, 50, 25));
    free.push(slot(3, 10, 25));
    assert!(free.contains(slot(1, 50, 25)));
    assert!(!free.contains(slot(1, 50, 26)));
    assert!(!free.contains(Slot { file_id: 1, start: 9, end: 3 }));
    assert_eq!(free.take(25), Some(slot(3, 10, 25)));
    assert_eq!(free.take(20), Some(slot(1, 50, 25)));
    assert_eq!(free.select(25), Some(slot(1, 0, 25)));
    assert_eq!(free.take(25), Some(slot(1, 0, 25)));
    assert_eq!(free.take(25), None);
    assert_eq!(free.select(0), None);
}

#[test]
fn tails_start_at_zero_and_list_their_segments_in_order() {
    let mut tails = Tails::new();
    assert_eq!(tails.end_of(4), 0);
    tails.set_end(4, 22);
    tails.set_end(2, 30);
    tails.set_end(9, 5);
    tails.set_end(4, 60);
    assert_eq!(tails.end_of(4), 60);
    assert_eq!(tails.end_of(2), 30);
    assert_eq!(tails.end_of(3), 0);
    assert_eq!(tails.into_ids(), vec![2, 4, 9]);
}

#[test]
fn plan_leaves_the_handle_alone_and_agrees_with_eval_op() {
    let mut db = OnDisk::open("plan");
    let script: Vec<Op<Vec<u8>, Vec<u8>>> = vec![
        Op::Put { key: b"a".to_vec(), value: b"one".to_vec() },
        Op::Put { key: b"b".to_vec(), value: b"two".to_vec() },
        Op::Delete { key: b"a".to_vec() },
        Op::Update { key: b"c".to_vec(), value: b"new".to_vec() },
        Op::Sync,
        Op::Sync,
        Op::Put { key: b"b".to_vec(), value: b"three".to_vec() },
        Op::Delete { key: b"missing".to_vec() },
    ];
    for op in script {
        let before = (db.file_id(), db.file_position(), db.is_dirty(), db.len());
        let planned = db.plan(&op, &Vec::new());
        assert_eq!((db.file_id(), db.file_position(), db.is_dirty(), db.len()), before);
        assert_eq!(planned, eval_op(&mut db, op, &Vec::new()));
    }
    let stored = vec![b"three".to_vec(), b"new".to_vec()];
    let planned = db.plan_prune(&stored).unwrap();
    assert!(db.is_dirty());
    assert_eq!(db.plan(&Op::Prune, &stored), Ok(Effect::Compact(planned.clone())));
    assert_eq!(db.plan(&Op::Prune, &Vec::new()), Err(Error::Decode));
    assert!(db.is_dirty());
    assert_eq!(db.prune(&stored), Ok(planned));
    assert!(!db.is_dirty());
}

#[test]
fn plan_put_names_the_place_that_put_takes() {
    let mut db = OnDisk::open("plan_put");
    db.put(b"k".to_vec(), b"first".to_vec()).unwrap();
    db.put(b"other".to_vec(), b"x".to_vec()).unwrap();
    let planned = db.plan_put(b"k", b"2nd").unwrap();
    assert_eq!((planned.file_id, planned.offset), (1, 0));
    assert_eq!(db.get(&b"k".to_vec()).unwrap().len, 5);
    let planned_long = db.plan_put(b"k", b"much longer").unwrap();
    assert_eq!((planned_long.file_id, planned_long.offset), (1, db.file_position()));
    assert_eq!(db.put(b"k".to_vec(), b"2nd".to_vec()), Ok(planned));
    assert_eq!(db.get(&b"k".to_vec()).unwrap().len, 3);
}
