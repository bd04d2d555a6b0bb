//! End-to-end and component tests of the storage engine.

use engula::compaction::compact_entries;
use engula::db::{hash_key, Database, Options};
use engula::entry::{query_entries, Entry};
use engula::error::Error;
use engula::manifest::{Manifest, ManifestOptions};
use engula::memtable::MemTable;
use engula::storage::Storage;

fn test_options(num_shards: usize) -> (Options, ManifestOptions) {
    (
        Options { num_shards, memtable_size: 1 << 20, write_channel_size: 16 },
        ManifestOptions { num_shards, num_levels: 3, level_threshold: 2 },
    )
}

fn open_db(num_shards: usize) -> Database {
    let (o, m) = test_options(num_shards);
    Database::new(o, &m).unwrap()
}

#[test]
fn put_then_get_single_shard() {
    let mut db = open_db(1);
    let t1 = db.put(b"a".to_vec(), b"1".to_vec()).unwrap();
    let t2 = db.put(b"a".to_vec(), b"2".to_vec()).unwrap();
    assert_eq!(t1, 1);
    assert_eq!(t2, 2);
    assert_eq!(db.get(&b"a".to_vec()).unwrap(), Some(b"2".to_vec()));
    db.flush_shard(0).unwrap();
    assert_eq!(db.shards[0].mem.count(), 0);
    // still served, now from storage rather than the memtable
    assert_eq!(db.get(&b"a".to_vec()).unwrap(), Some(b"2".to_vec()));
}

#[test]
fn two_writes_distinct_timestamps_newest_wins() {
    let mut db = open_db(1);
    let t1 = db.put(b"x".to_vec(), b"p1".to_vec()).unwrap();
    let t2 = db.put(b"x".to_vec(), b"p2".to_vec()).unwrap();
    assert!(t1 < t2);
    assert_eq!(db.get(&b"x".to_vec()).unwrap(), Some(b"p2".to_vec()));
}

#[test]
fn interleaved_puts_and_gets() {
    let mut db = open_db(4);
    db.put(b"k1".to_vec(), b"a".to_vec()).unwrap();
    db.put(b"k2".to_vec(), b"b".to_vec()).unwrap();
    assert_eq!(db.get(&b"k1".to_vec()).unwrap(), Some(b"a".to_vec()));
    db.put(b"k1".to_vec(), b"c".to_vec()).unwrap();
    assert_eq!(db.get(&b"k1".to_vec()).unwrap(), Some(b"c".to_vec()));
    assert_eq!(db.get(&b"k2".to_vec()).unwrap(), Some(b"b".to_vec()));
    assert_eq!(db.get(&b"k3".to_vec()).unwrap(), None);
}

#[test]
fn delete_writes_tombstone() {
    let mut db = open_db(2);
    db.put(b"gone".to_vec(), b"v".to_vec()).unwrap();
    assert_eq!(db.get(&b"gone".to_vec()).unwrap(), Some(b"v".to_vec()));
    db.delete(b"gone".to_vec()).unwrap();
    assert_eq!(db.get(&b"gone".to_vec()).unwrap(), None);
    // a tombstone shadows persisted data too
    db.put(b"again".to_vec(), b"v1".to_vec()).unwrap();
    for s in 0..2 {
        db.flush_shard(s).unwrap();
    }
    db.delete(b"again".to_vec()).unwrap();
    assert_eq!(db.get(&b"again".to_vec()).unwrap(), None);
    // a later put resurrects the key
    db.put(b"again".to_vec(), b"v2".to_vec()).unwrap();
    assert_eq!(db.get(&b"again".to_vec()).unwrap(), Some(b"v2".to_vec()));
}

#[test]
fn empty_key_round_trip() {
    let mut db = open_db(3);
    db.put(Vec::new(), b"empty".to_vec()).unwrap();
    assert_eq!(db.get(&Vec::new()).unwrap(), Some(b"empty".to_vec()));
}

#[test]
fn flush_round_trip_through_storage() {
    let mut mem = MemTable::new();
    mem.put(1, b"a".to_vec(), Some(b"1".to_vec()));
    mem.put(2, b"b".to_vec(), Some(b"2".to_vec()));
    mem.put(3, b"c".to_vec(), None);
    let snap = mem.snapshot();
    assert_eq!(snap.count(), 3);
    let mut st = Storage::new();
    st.flush_memtable(&snap).unwrap();
    let v = st.current();
    assert_eq!(v.get(u64::MAX, &b"a".to_vec()).unwrap(), Some(b"1".to_vec()));
    assert_eq!(v.get(u64::MAX, &b"b".to_vec()).unwrap(), Some(b"2".to_vec()));
    // the tombstone is found but reads as absence
    assert_eq!(v.get(u64::MAX, &b"c".to_vec()).unwrap(), None);
    assert_eq!(v.get(u64::MAX, &b"d".to_vec()).unwrap(), None);
    // timestamp semantics hold on the flushed data as well
    assert_eq!(v.get(1, &b"b".to_vec()).unwrap(), None);
    assert_eq!(v.get(2, &b"b".to_vec()).unwrap(), Some(b"2".to_vec()));
}

#[test]
fn compaction_is_idempotent() {
    let inp = vec![
        Entry { ts: 1, key: b"k".to_vec(), value: Some(b"old".to_vec()) },
        Entry { ts: 4, key: b"k".to_vec(), value: Some(b"new".to_vec()) },
        Entry { ts: 2, key: b"dead".to_vec(), value: Some(b"x".to_vec()) },
        Entry { ts: 3, key: b"dead".to_vec(), value: None },
        Entry { ts: 5, key: b"e".to_vec(), value: Some(b"v".to_vec()) },
    ];
    let once = compact_entries(&inp, true);
    let twice = compact_entries(&once, true);
    assert_eq!(once.len(), 2);
    assert_eq!(twice.len(), 2);
    for key in [b"k".to_vec(), b"dead".to_vec(), b"e".to_vec(), b"zz".to_vec()] {
        let a = query_entries(&once, u64::MAX, &key);
        let b = query_entries(&twice, u64::MAX, &key);
        assert_eq!(a, b);
    }
    assert_eq!(query_entries(&once, u64::MAX, &b"k".to_vec()), Some((4, Some(b"new".to_vec()))));
    assert_eq!(query_entries(&once, u64::MAX, &b"dead".to_vec()), None);
}

#[test]
fn compaction_keeps_tombstones_unless_dropping() {
    let inp = vec![
        Entry { ts: 1, key: b"d".to_vec(), value: Some(b"x".to_vec()) },
        Entry { ts: 2, key: b"d".to_vec(), value: None },
    ];
    let kept = compact_entries(&inp, false);
    assert_eq!(kept.len(), 1);
    assert_eq!(query_entries(&kept, u64::MAX, &b"d".to_vec()), Some((2, None)));
    let dropped = compact_entries(&inp, true);
    assert_eq!(dropped.len(), 0);
}

#[test]
fn subscription_sees_every_version_in_order() {
    let mut st = Storage::new();
    let mut rx = st.current_rx();
    let mut mem = MemTable::new();
    mem.put(1, b"a".to_vec(), Some(b"1".to_vec()));
    st.flush_memtable(&mem.snapshot()).unwrap();
    let mut mem2 = MemTable::new();
    mem2.put(2, b"b".to_vec(), Some(b"2".to_vec()));
    st.flush_memtable(&mem2.snapshot()).unwrap();
    let v1 = st.recv(&mut rx).unwrap();
    assert_eq!(v1.get(u64::MAX, &b"a".to_vec()).unwrap(), Some(b"1".to_vec()));
    assert_eq!(v1.get(u64::MAX, &b"b".to_vec()).unwrap(), None);
    let v2 = st.recv(&mut rx).unwrap();
    // once visible, content stays visible in every later version
    assert_eq!(v2.get(u64::MAX, &b"a".to_vec()).unwrap(), Some(b"1".to_vec()));
    assert_eq!(v2.get(u64::MAX, &b"b".to_vec()).unwrap(), Some(b"2".to_vec()));
    assert!(st.recv(&mut rx).is_none());
}

#[test]
fn monotone_coverage_across_compaction() {
    let mut db = open_db(1);
    db.put(b"a".to_vec(), b"1".to_vec()).unwrap();
    db.put(b"b".to_vec(), b"2".to_vec()).unwrap();
    db.flush_shard(0).unwrap();
    let rx_pos_versions = db.shards[0].storage.version_count();
    db.put(b"a".to_vec(), b"3".to_vec()).unwrap();
    db.flush_shard(0).unwrap();
    db.compact_shard(0).unwrap();
    assert!(db.shards[0].storage.version_count() > rx_pos_versions);
    assert_eq!(db.get(&b"a".to_vec()).unwrap(), Some(b"3".to_vec()));
    assert_eq!(db.get(&b"b".to_vec()).unwrap(), Some(b"2".to_vec()));
}

#[test]
fn crash_between_file_write_and_manifest_commit() {
    let mut db = open_db(1);
    db.put(b"a".to_vec(), b"1".to_vec()).unwrap();
    db.put(b"b".to_vec(), b"2".to_vec()).unwrap();
    // simulate the crash: the flush wrote its file, but neither the
    // manifest commit nor the version publication happened
    let orphan_id = {
        let sh = &mut db.shards[0];
        let snap = sh.mem.snapshot();
        let f = sh.storage.write_l0_file(&snap);
        f.id
    };
    // the orphan is referenced by no version and not by the manifest:
    // eligible for cleanup
    assert!(!db.shards[0].storage.current().references(orphan_id));
    assert!(!db.manifest.shard_file_ids(0).contains(&orphan_id));
    // the memtable's data is recoverable from the durable journal
    let rec = Database::recover_memtable(&db.shards[0].journal, db.shards[0].flushed_pos);
    assert_eq!(rec.count(), db.shards[0].mem.count());
    assert_eq!(rec.read(u64::MAX, &b"a".to_vec()), Some(b"1".to_vec()));
    assert_eq!(rec.read(u64::MAX, &b"b".to_vec()), Some(b"2".to_vec()));
}

#[test]
fn compact_shard_collapses_files_and_keeps_content() {
    let mut db = open_db(1);
    db.put(b"a".to_vec(), b"1".to_vec()).unwrap();
    db.put(b"b".to_vec(), b"2".to_vec()).unwrap();
    db.flush_shard(0).unwrap();
    db.put(b"a".to_vec(), b"3".to_vec()).unwrap();
    db.delete(b"b".to_vec()).unwrap();
    db.flush_shard(0).unwrap();
    assert_eq!(db.shards[0].storage.current().files.len(), 2);
    db.compact_shard(0).unwrap();
    assert_eq!(db.shards[0].storage.current().files.len(), 1);
    // one file at the oldest level, holding only live data
    assert_eq!(db.shards[0].storage.current().files[0].level, 2);
    assert_eq!(db.shards[0].storage.current().files[0].entries.len(), 1);
    assert_eq!(db.get(&b"a".to_vec()).unwrap(), Some(b"3".to_vec()));
    assert_eq!(db.get(&b"b".to_vec()).unwrap(), None);
    // the manifest now records exactly the one output file
    assert_eq!(db.manifest.shard_file_ids(0).len(), 1);
}

#[test]
fn manifest_flush_registration_and_triggers() {
    let mo = ManifestOptions { num_shards: 2, num_levels: 3, level_threshold: 2 };
    let mut m = Manifest::new(&mo);
    assert_eq!(m.shard_file_ids(0).len(), 0);
    assert_eq!(m.pick_compaction_level(0), None);
    m.register_flush(0, &vec![1, 2]);
    assert_eq!(m.shard_file_ids(0), vec![1, 2]);
    assert!(m.should_compact(0, 0));
    assert!(!m.should_compact(0, 1));
    assert_eq!(m.pick_compaction_level(0), Some(0));
    // the other shard is untouched
    assert_eq!(m.shard_file_ids(1).len(), 0);
}

#[test]
fn manifest_compaction_commit_is_compare_and_swap() {
    let mo = ManifestOptions { num_shards: 1, num_levels: 3, level_threshold: 2 };
    let mut m = Manifest::new(&mo);
    m.register_flush(0, &vec![7, 8]);
    // a stale plan must be rejected and leave the manifest unchanged
    let stale = m.register_compaction(0, &vec![7], 9);
    assert!(matches!(stale, Err(Error::Conflict)));
    assert_eq!(m.shard_file_ids(0), vec![7, 8]);
    // the matching plan commits: inputs out, output in at the last level
    m.register_compaction(0, &vec![7, 8], 9).unwrap();
    assert_eq!(m.shard_file_ids(0), vec![9]);
    assert!(!m.should_compact(0, 0));
}

#[test]
fn pick_compaction_tie_goes_to_newest_level() {
    let mo = ManifestOptions { num_shards: 1, num_levels: 3, level_threshold: 1 };
    let mut m = Manifest::new(&mo);
    m.register_flush(0, &vec![1]);
    m.register_compaction(0, &vec![1], 2).unwrap();
    m.register_flush(0, &vec![3]);
    // level 0 and the last level now hold one file each, both at the
    // threshold: the newest level is preferred
    assert!(m.should_compact(0, 0));
    assert!(m.should_compact(0, 2));
    assert_eq!(m.pick_compaction_level(0), Some(0));
}

#[test]
fn memtable_size_count_and_timestamp_reads() {
    let mut mem = MemTable::new();
    assert_eq!(mem.size(), 0);
    assert_eq!(mem.count(), 0);
    mem.put(1, b"ab".to_vec(), Some(b"cde".to_vec()));
    assert_eq!(mem.size(), 5);
    assert_eq!(mem.count(), 1);
    mem.put(2, b"k".to_vec(), None);
    assert_eq!(mem.size(), 6);
    assert_eq!(mem.count(), 2);
    assert_eq!(mem.get(0, &b"ab".to_vec()), None);
    assert_eq!(mem.get(1, &b"ab".to_vec()), Some((1, Some(b"cde".to_vec()))));
    assert_eq!(mem.read(u64::MAX, &b"k".to_vec()), None);
    assert_eq!(mem.get(u64::MAX, &b"k".to_vec()), Some((2, None)));
}

#[test]
fn memtable_snapshot_is_isolated() {
    let mut mem = MemTable::new();
    mem.put(1, b"a".to_vec(), Some(b"1".to_vec()));
    let snap = mem.snapshot();
    mem.put(2, b"b".to_vec(), Some(b"2".to_vec()));
    assert_eq!(snap.count(), 1);
    assert_eq!(snap.entry_at(0).key, b"a".to_vec());
    assert_eq!(mem.count(), 2);
}

#[test]
fn memtable_overwrite_of_same_slot() {
    let mut mem = MemTable::new();
    mem.put(5, b"k".to_vec(), Some(b"first".to_vec()));
    mem.put(5, b"k".to_vec(), Some(b"second".to_vec()));
    assert_eq!(mem.read(u64::MAX, &b"k".to_vec()), Some(b"second".to_vec()));
}

#[test]
fn key_hash_is_deterministic_and_stable() {
    let k = b"some-key".to_vec();
    assert_eq!(hash_key(&k), hash_key(&k.clone()));
    assert_eq!(hash_key(&Vec::new()), 0);
    // many keys land inside the shard range through the facade
    let mut db = open_db(5);
    for i in 0u32..40 {
        let key = i.to_be_bytes().to_vec();
        db.put(key.clone(), vec![i as u8]).unwrap();
        assert_eq!(db.get(&key).unwrap(), Some(vec![i as u8]));
    }
}

#[test]
fn error_labels() {
    assert_eq!(Error::Durability.describe(), "durability failure");
    assert_eq!(Error::Conflict.describe(), "manifest commit conflict");
    assert_eq!(Error::Corruption.describe(), "corrupt or missing file");
    assert_eq!(Error::Unavailable.describe(), "remote backend unavailable");
}

#[test]
fn flush_trigger_threshold() {
    let o = Options { num_shards: 1, memtable_size: 4, write_channel_size: 16 };
    let m = ManifestOptions { num_shards: 1, num_levels: 2, level_threshold: 2 };
    let mut db = Database::new(o, &m).unwrap();
    assert!(!db.should_flush(0));
    db.put(b"ab".to_vec(), b"cd".to_vec()).unwrap();
    assert!(db.should_flush(0));
    db.flush_shard(0).unwrap();
    assert!(!db.should_flush(0));
}
