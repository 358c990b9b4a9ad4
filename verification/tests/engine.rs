use zynk::builder::flush_memtable_to_sstable;
use zynk::iter::SsTableIter;
use zynk::kv::LsmEngine;
use zynk::memtable::{MemTable, MemTableSet};
use zynk::model::Entry;
use zynk::reader::SsTableReader;

#[test]
fn last_write_wins_in_memory() {
    let mut eng = LsmEngine::new(b"data".as_slice(), 1 << 20, 4096);
    eng.put(b"k".as_slice(), b"v1".as_slice()).unwrap();
    eng.put(b"k".as_slice(), b"v2".as_slice()).unwrap();
    assert_eq!(eng.get(b"k".as_slice()).unwrap(), Some(b"v2".to_vec()));
    eng.delete(b"k".as_slice()).unwrap();
    assert_eq!(eng.get(b"k".as_slice()).unwrap(), None);
    eng.put(b"k".as_slice(), b"v3".as_slice()).unwrap();
    assert_eq!(eng.get(b"k".as_slice()).unwrap(), Some(b"v3".to_vec()));
    assert_eq!(eng.get(b"never".as_slice()).unwrap(), None);
}

#[test]
fn tombstone_shadows_older_table() {
    let mut eng = LsmEngine::new(b"data".as_slice(), 1 << 20, 4096);
    eng.put(b"a".as_slice(), b"old".as_slice()).unwrap();
    eng.flush().unwrap();
    eng.delete(b"a".as_slice()).unwrap();
    eng.flush().unwrap();
    // The newer table's tombstone must win over the older table's value.
    assert_eq!(eng.get(b"a".as_slice()).unwrap(), None);
}

#[test]
fn flush_and_read_back_through_tables() {
    let mut eng = LsmEngine::new(b"data".as_slice(), 1 << 20, 4096);
    eng.put(b"a".as_slice(), b"1".as_slice()).unwrap();
    eng.put(b"b".as_slice(), b"2".as_slice()).unwrap();
    eng.delete(b"a".as_slice()).unwrap();
    eng.flush().unwrap();
    assert_eq!(eng.get(b"a".as_slice()).unwrap(), None);
    assert_eq!(eng.get(b"b".as_slice()).unwrap(), Some(b"2".to_vec()));
    assert_eq!(eng.tables_len(), 1);
    assert_eq!(eng.table_path(0).as_slice(), b"data/sst/000001.sst".as_slice());
    // The published file itself holds a tombstone for "a" and a value for "b".
    let rd = SsTableReader::open(eng.table_file(0).clone()).unwrap();
    assert!(matches!(rd.get(b"a".as_slice()).unwrap(), Some(Entry::Delete)));
    match rd.get(b"b".as_slice()).unwrap() {
        Some(Entry::Put(v)) => assert_eq!(v, b"2"),
        other => panic!("expected a put for b, got {:?}", other.is_some()),
    }
    assert!(rd.get(b"c".as_slice()).unwrap().is_none());
}

#[test]
fn rotation_produces_sequential_tables() {
    // Every write alone exceeds the threshold, so each one publishes a table.
    let mut eng = LsmEngine::new(b"d".as_slice(), 1, 64);
    eng.put(b"k1".as_slice(), b"v1".as_slice()).unwrap();
    eng.put(b"k2".as_slice(), b"v2".as_slice()).unwrap();
    eng.put(b"k1".as_slice(), b"v9".as_slice()).unwrap();
    assert_eq!(eng.tables_len(), 3);
    assert_eq!(eng.table_path(0).as_slice(), b"d/sst/000001.sst".as_slice());
    assert_eq!(eng.table_path(1).as_slice(), b"d/sst/000002.sst".as_slice());
    assert_eq!(eng.table_path(2).as_slice(), b"d/sst/000003.sst".as_slice());
    assert_eq!(eng.table_id(0), 1);
    assert_eq!(eng.table_id(2), 3);
    // The same key sits in tables one and three: the newer value wins.
    assert_eq!(eng.get(b"k1".as_slice()).unwrap(), Some(b"v9".to_vec()));
    assert_eq!(eng.get(b"k2".as_slice()).unwrap(), Some(b"v2".to_vec()));
}

#[test]
fn unpublished_build_leaves_engine_unchanged() {
    // A table image built but never published: the crash window between
    // writing the temporary file and the rename.
    let mut eng = LsmEngine::new(b"data".as_slice(), 1 << 20, 4096);
    eng.put(b"a".as_slice(), b"1".as_slice()).unwrap();
    let mut orphan = MemTable::new();
    orphan.put(b"a".as_slice(), b"1".as_slice());
    let tmp_image = flush_memtable_to_sstable(&orphan, 4096).unwrap();
    assert!(!tmp_image.is_empty());
    // The engine's published list never saw it.
    assert_eq!(eng.tables_len(), 0);
    assert_eq!(eng.get(b"a".as_slice()).unwrap(), Some(b"1".to_vec()));
    // A later restart starts clean and works, ignoring the orphan image.
    let mut fresh = LsmEngine::new(b"data".as_slice(), 1 << 20, 4096);
    assert_eq!(fresh.get(b"a".as_slice()).unwrap(), None);
    fresh.put(b"b".as_slice(), b"2".as_slice()).unwrap();
    fresh.flush().unwrap();
    assert_eq!(fresh.table_path(0).as_slice(), b"data/sst/000001.sst".as_slice());
}

#[test]
fn paths_pad_and_grow_with_the_id() {
    let eng = LsmEngine::new(b"x".as_slice(), 1 << 20, 4096);
    assert_eq!(eng.sst_final_path(7).as_slice(), b"x/sst/000007.sst".as_slice());
    assert_eq!(eng.sst_tmp_path(7).as_slice(), b"x/sst/000007.sst.tmp".as_slice());
    assert_eq!(eng.sst_final_path(123456).as_slice(), b"x/sst/123456.sst".as_slice());
    assert_eq!(eng.sst_final_path(1234567).as_slice(), b"x/sst/1234567.sst".as_slice());
}

#[test]
fn memtable_set_rotates_at_threshold() {
    let mut set = MemTableSet::with_capacity(32);
    assert!(set.put(b"a".as_slice(), b"1".as_slice()).is_none());
    assert!(set.get(b"a".as_slice()).is_some());
    // 9 + 1 + 1 bytes so far; this write crosses 32.
    let frozen = set.put(b"bcdefgh".as_slice(), b"234567".as_slice());
    let frozen = frozen.expect("threshold crossed");
    assert!(matches!(frozen.get(b"a".as_slice()), Some(Entry::Put(_))));
    assert!(set.get(b"a".as_slice()).is_none());
    assert!(set.rotate().is_none());
}

#[test]
fn memtable_is_sorted_and_deduplicated() {
    let mut m = MemTable::new();
    m.put(b"b".as_slice(), b"2".as_slice());
    m.put(b"a".as_slice(), b"1".as_slice());
    m.delete(b"c".as_slice());
    m.put(b"a".as_slice(), b"9".as_slice());
    assert_eq!(m.len(), 3);
    assert_eq!(m.entry_at(0).0, b"a");
    assert_eq!(m.entry_at(1).0, b"b");
    assert_eq!(m.entry_at(2).0, b"c");
    match m.get(b"a".as_slice()) {
        Some(Entry::Put(v)) => assert_eq!(v, b"9"),
        other => panic!("expected the overwrite, got {:?}", other.is_some()),
    }
    assert!(matches!(m.get(b"c".as_slice()), Some(Entry::Delete)));
    assert!(m.get(b"x".as_slice()).is_none());
}

#[test]
fn many_entries_split_into_blocks_and_read_back() {
    // A tiny block target forces many blocks and a real index.
    let mut eng = LsmEngine::new(b"data".as_slice(), 1 << 20, 32);
    for i in 0..200u32 {
        let k = format!("key{:04}", i).into_bytes();
        let v = format!("val{}", i).into_bytes();
        eng.put(&k, &v).unwrap();
    }
    eng.flush().unwrap();
    assert_eq!(eng.tables_len(), 1);
    let rd = SsTableReader::open(eng.table_file(0).clone()).unwrap();
    assert!(rd.block_count() > 1);
    for i in (0..200u32).step_by(7) {
        let k = format!("key{:04}", i).into_bytes();
        let v = format!("val{}", i).into_bytes();
        assert_eq!(eng.get(&k).unwrap(), Some(v.clone()));
        match rd.get(&k).unwrap() {
            Some(Entry::Put(got)) => assert_eq!(got, v),
            other => panic!("missing key{:04}: {:?}", i, other.is_some()),
        }
    }
    assert!(rd.get(b"key9999".as_slice()).unwrap().is_none());
}

#[test]
fn iterator_yields_puts_in_order() {
    let mut eng = LsmEngine::new(b"data".as_slice(), 1 << 20, 32);
    eng.put(b"d".as_slice(), b"4".as_slice()).unwrap();
    eng.put(b"a".as_slice(), b"1".as_slice()).unwrap();
    eng.put(b"c".as_slice(), b"3".as_slice()).unwrap();
    eng.delete(b"b".as_slice()).unwrap();
    eng.flush().unwrap();
    let rd = SsTableReader::open(eng.table_file(0).clone()).unwrap();
    let mut it = SsTableIter::new_seek(&rd, None).unwrap();
    assert_eq!(it.next(), Some((b"a".to_vec(), b"1".to_vec())));
    assert_eq!(it.next(), Some((b"c".to_vec(), b"3".to_vec())));
    assert_eq!(it.next(), Some((b"d".to_vec(), b"4".to_vec())));
    assert_eq!(it.next(), None);
    // Re-seeking restarts the traversal from the given key.
    let mut it2 = SsTableIter::new_seek(&rd, Some(b"b".as_slice())).unwrap();
    assert_eq!(it2.next(), Some((b"c".to_vec(), b"3".to_vec())));
    assert_eq!(it2.next(), Some((b"d".to_vec(), b"4".to_vec())));
    assert_eq!(it2.next(), None);
}

#[test]
fn corrupted_published_file_fails_to_open_or_read() {
    let mut eng = LsmEngine::new(b"data".as_slice(), 1 << 20, 4096);
    eng.put(b"a".as_slice(), b"1".as_slice()).unwrap();
    eng.flush().unwrap();
    let good = eng.table_file(0).clone();
    for i in 0..good.len() {
        let mut bad = good.clone();
        bad[i] ^= 0x40;
        match SsTableReader::open(bad) {
            Err(_) => {}
            Ok(rd) => {
                // The index still checked out; the block read must catch it.
                assert!(rd.get(b"a".as_slice()).is_err(), "flip at byte {} unnoticed", i);
            }
        }
    }
}
