//! The database facade: partitions the keyspace into shards, wires
//! each shard's memtable, storage and manifest together, assigns
//! write timestamps, and exposes `put`, `delete` and `get`.

use vstd::prelude::*;

use crate::compaction::{compact_entries, is_compaction_of};
use crate::entry::{
    copy_entry, lemma_query_append, lemma_query_props, lemma_query_push, newest, query,
    read_value, Entry, EntryView, Timestamp,
};
use crate::error::Error;
use crate::manifest::{Manifest, ManifestOptions};
use crate::memtable::{capped_size, MemTable};
use crate::storage::{files_entries, FileMeta, FileMetaView, Storage};

verus! {

/// Engine configuration: the shard count, the memtable byte size past
/// which a flush is due, and the write-batching channel size the
/// durable log is driven with.
pub struct Options {
    pub num_shards: usize,
    pub memtable_size: usize,
    pub write_channel_size: usize,
}

impl Default for Options {
    /// Eight shards, flush at one mebibyte, channel of 1024 writes.
    fn default() -> (r: Options)
        ensures
            r.num_shards == 8,
            r.memtable_size == 1048576,
            r.write_channel_size == 1024,
    {
        Options { num_shards: 8, memtable_size: 1048576, write_channel_size: 1024 }
    }
}

/// Rolling hash of a key, folded byte by byte below 2^32.
pub open spec fn key_fold(key: Seq<u8>) -> u64
    decreases key.len(),
{
    if key.len() == 0 {
        0
    } else {
        ((key_fold(key.drop_last()) * 31 + key.last()) % 0x1_0000_0000) as u64
    }
}

/// The shard a key belongs to, for its entire lifetime: deterministic
/// and stable, a hash partition of the keyspace.
pub open spec fn shard_of(key: Seq<u8>, num_shards: int) -> int {
    key_fold(key) as int % num_shards
}

/// Computes the rolling key hash.
pub fn hash_key(key: &Vec<u8>) -> (r: u64)
    ensures
        r == key_fold(key@),
{
    let mut acc: u64 = 0;
    let n = key.len();
    for i in 0..n
        invariant
            n == key.len(),
            acc == key_fold(key@.take(i as int)),
            acc < 0x1_0000_0000,
    {
        proof {
            assert(key@.take(i + 1).drop_last() =~= key@.take(i as int));
            assert(key@.take(i + 1).last() == key@[i as int]);
        }
        acc = (acc * 31 + (key[i] as u64)) % 0x1_0000_0000;
    }
    proof {
        assert(key@.take(n as int) =~= key@);
    }
    acc
}

/// One partition of the keyspace, with its own write-ahead journal,
/// memtable and versioned storage.
pub struct Shard {
    pub mem: MemTable,
    pub storage: Storage,
    pub journal: Vec<Entry>,
    pub flushed_pos: usize,
}

impl Shard {
    /// All persisted entries of the shard's current storage version.
    pub open spec fn version_entries(&self) -> Seq<EntryView> {
        files_entries(self.storage.cur())
    }

    /// The shard's whole logical content: persisted entries, then the
    /// newer in-memory ones.
    pub open spec fn entries(&self) -> Seq<EntryView> {
        self.version_entries() + self.mem@
    }

    /// The shard's internal consistency: the memtable holds exactly
    /// the journal's unflushed suffix, and everything persisted is
    /// strictly older than everything still in memory.
    pub open spec fn wf(&self) -> bool {
        &&& self.mem.wf()
        &&& self.storage.wf()
        &&& self.flushed_pos <= self.journal.deep_view().len()
        &&& self.journal.deep_view().skip(self.flushed_pos as int) == self.mem@
        &&& forall|i: int, j: int|
            0 <= i < self.version_entries().len() && 0 <= j < self.mem@.len()
                ==> (#[trigger] self.version_entries()[i]).ts < (#[trigger] self.mem@[j]).ts
    }

    /// Every entry of the shard is older than the given timestamp.
    pub open spec fn ts_below(&self, t: Timestamp) -> bool {
        forall|i: int| 0 <= i < self.entries().len() ==> (#[trigger] self.entries()[i]).ts < t
    }

    /// Every entry of the shard belongs to it under the partition.
    pub open spec fn routed(&self, s: int, num_shards: int) -> bool {
        forall|i: int|
            0 <= i < self.entries().len() ==> shard_of(
                (#[trigger] self.entries()[i]).key,
                num_shards,
            ) == s
    }
}

/// The storage engine: a fixed set of shards, a shared manifest, and
/// the monotonic counter that totally orders writes.
pub struct Database {
    pub opts: Options,
    pub manifest: Manifest,
    pub shards: Vec<Shard>,
    pub next_ts: Timestamp,
}

impl Database {
    /// The engine's global consistency.
    pub open spec fn wf(&self) -> bool {
        &&& self.opts.num_shards >= 1
        &&& self.shards@.len() == self.opts.num_shards
        &&& self.manifest.wf()
        &&& self.manifest@.len() == self.opts.num_shards
        &&& self.manifest.num_levels >= 1
        &&& self.next_ts >= 1
        &&& forall|s: int|
            0 <= s < self.shards@.len() ==> (#[trigger] self.shards@[s]).wf()
        &&& forall|s: int|
            0 <= s < self.shards@.len() ==> (#[trigger] self.shards@[s]).ts_below(self.next_ts)
        &&& forall|s: int|
            0 <= s < self.shards@.len() ==> (#[trigger] self.shards@[s]).routed(
                s,
                self.opts.num_shards as int,
            )
    }

    /// The value currently visible for a key: the newest write for it,
    /// wherever stored; a tombstone, like an absent key, reads `None`.
    pub open spec fn lookup(&self, key: Seq<u8>) -> Option<Seq<u8>> {
        read_value(
            newest(self.shards@[shard_of(key, self.opts.num_shards as int)].entries(), key),
        )
    }

    /// A fresh, empty engine; every key reads as absent.
    pub fn new(opts: Options, mopts: &ManifestOptions) -> (r: Result<Database, Error>)
        requires
            opts.num_shards >= 1,
            mopts.num_shards == opts.num_shards,
            mopts.num_levels >= 1,
        ensures
            r matches Ok(db) && {
                &&& db.wf()
                &&& db.opts == opts
                &&& db.next_ts == 1
                &&& forall|key: Seq<u8>| #[trigger] db.lookup(key) is None
            },
    {
        let manifest = Manifest::new(mopts);
        let mut shards: Vec<Shard> = Vec::new();
        let ns = opts.num_shards;
        for s in 0..ns
            invariant
                shards@.len() == s,
                forall|i: int| 0 <= i < s ==> (#[trigger] shards@[i]).wf(),
                forall|i: int|
                    0 <= i < s ==> (#[trigger] shards@[i]).entries() == Seq::<EntryView>::empty(),
        {
            let sh = Shard {
                mem: MemTable::new(),
                storage: Storage::new(),
                journal: Vec::new(),
                flushed_pos: 0,
            };
            proof {
                assert(files_entries(sh.storage.cur()) =~= Seq::<EntryView>::empty());
                assert(sh.journal.deep_view() =~= Seq::<EntryView>::empty());
                assert(sh.journal.deep_view().skip(0) =~= sh.mem@);
                assert(sh.entries() =~= Seq::<EntryView>::empty());
            }
            shards.push(sh);
        }
        let db = Database { opts, manifest, shards, next_ts: 1 };
        proof {
            assert forall|key: Seq<u8>| #[trigger] db.lookup(key) is None by {
                let s = shard_of(key, db.opts.num_shards as int);
                assert(0 <= s < db.shards@.len());
                assert(db.shards@[s].entries().len() == 0);
            }
        }
        Ok(db)
    }

    /// Applies one timestamped write (a value or a tombstone) to the
    /// owning shard: appends it to the shard's durable journal, then to
    /// its memtable, and returns the assigned timestamp.
    fn write(&mut self, key: Vec<u8>, value: Option<Vec<u8>>) -> (r: Result<Timestamp, Error>)
        requires
            old(self).wf(),
            old(self).next_ts < u64::MAX,
        ensures
            final(self).wf(),
            r matches Ok(ts) && ts == old(self).next_ts,
            final(self).next_ts == old(self).next_ts + 1,
            final(self).opts == old(self).opts,
            final(self).lookup(key@) == value.deep_view(),
            forall|k2: Seq<u8>|
                k2 != key@ ==> #[trigger] final(self).lookup(k2) == old(self).lookup(k2),
    {
        let ts = self.next_ts;
        let ns = self.opts.num_shards;
        let s = (hash_key(&key) % (ns as u64)) as usize;
        proof {
            assert(s as int == shard_of(key@, ns as int));
            assert(0 <= s < self.shards@.len());
        }
        let ghost old_shards = self.shards@;
        let e = Entry { ts, key, value };
        let ghost ev = e@;
        let sh = &mut self.shards[s];
        let ghost pre_sh = *sh;
        let ghost pre_journal = sh.journal.deep_view();
        let e2 = copy_entry(&e);
        sh.journal.push(e2);
        proof {
            assert(sh.journal.deep_view() =~= pre_journal.push(ev));
        }
        let Entry { ts: ts0, key: key0, value: value0 } = e;
        sh.mem.put(ts0, key0, value0);
        self.next_ts = ts + 1;
        proof {
            let post_sh = self.shards@[s as int];
            assert(self.shards@ =~= old_shards.update(s as int, post_sh));
            assert(post_sh.mem@ == pre_sh.mem@.push(ev));
            assert(post_sh.storage == pre_sh.storage);
            assert(post_sh.journal.deep_view().skip(post_sh.flushed_pos as int) =~= pre_journal.skip(
                pre_sh.flushed_pos as int,
            ).push(ev));
            assert(post_sh.entries() =~= pre_sh.entries().push(ev));
            // the new entry is strictly newer than everything stored
            assert forall|i: int|
                0 <= i < pre_sh.entries().len() implies (#[trigger] pre_sh.entries()[i]).ts
                < ev.ts by {}
            // the shard lookup for the written key now sees this write
            assert forall|k2: Seq<u8>| #[trigger] newest(post_sh.entries(), k2) == (if k2 == ev.key {
                Some(ev)
            } else {
                newest(pre_sh.entries(), k2)
            }) by {
                lemma_query_push(pre_sh.entries(), ev, u64::MAX, k2);
                if k2 == ev.key {
                    lemma_query_props(pre_sh.entries(), u64::MAX, k2);
                    match query(pre_sh.entries(), u64::MAX, k2) {
                        None => {}
                        Some(p) => {
                            let w = choose|w: int|
                                0 <= w < pre_sh.entries().len() && pre_sh.entries()[w] == p;
                            assert(p.ts < ev.ts);
                        }
                    }
                }
            }
            // well-formedness of the mutated shard
            assert(post_sh.wf());
            assert(post_sh.ts_below(self.next_ts));
            assert(post_sh.routed(s as int, ns as int));
            assert forall|s2: int|
                0 <= s2 < self.shards@.len() && s2 != s implies (#[trigger] self.shards@[s2])
                == old_shards[s2] by {}
            assert forall|k2: Seq<u8>|
                k2 != ev.key implies #[trigger] self.lookup(k2) == old(self).lookup(k2) by {
                let s2 = shard_of(k2, ns as int);
                if s2 == s {
                    assert(newest(post_sh.entries(), k2) == newest(pre_sh.entries(), k2));
                }
            }
            assert(self.lookup(ev.key) == read_value(Some(ev)));
        }
        Ok(ts)
    }

    /// Stores `value` under `key`: the write receives the next
    /// timestamp and becomes the value visible for the key.
    pub fn put(&mut self, key: Vec<u8>, value: Vec<u8>) -> (r: Result<Timestamp, Error>)
        requires
            old(self).wf(),
            old(self).next_ts < u64::MAX,
        ensures
            final(self).wf(),
            r matches Ok(ts) && ts == old(self).next_ts,
            final(self).next_ts == old(self).next_ts + 1,
            final(self).opts == old(self).opts,
            final(self).lookup(key@) == Some(value@),
            forall|k2: Seq<u8>|
                k2 != key@ ==> #[trigger] final(self).lookup(k2) == old(self).lookup(k2),
    {
        self.write(key, Some(value))
    }

    /// Deletes `key`: records a tombstone write, after which the key
    /// reads as absent until written again.
    pub fn delete(&mut self, key: Vec<u8>) -> (r: Result<Timestamp, Error>)
        requires
            old(self).wf(),
            old(self).next_ts < u64::MAX,
        ensures
            final(self).wf(),
            r matches Ok(ts) && ts == old(self).next_ts,
            final(self).next_ts == old(self).next_ts + 1,
            final(self).opts == old(self).opts,
            final(self).lookup(key@) is None,
            forall|k2: Seq<u8>|
                k2 != key@ ==> #[trigger] final(self).lookup(k2) == old(self).lookup(k2),
    {
        self.write(key, None)
    }

    /// The value visible for `key`: the memtable answers if it holds
    /// any write for the key, else the current storage version does.
    pub fn get(&self, key: &Vec<u8>) -> (r: Result<Option<Vec<u8>>, Error>)
        requires
            self.wf(),
        ensures
            r matches Ok(v) && v.deep_view() == self.lookup(key@),
    {
        let ns = self.opts.num_shards;
        let s = (hash_key(key) % (ns as u64)) as usize;
        proof {
            assert(s as int == shard_of(key@, ns as int));
            assert(0 <= s < self.shards@.len());
        }
        let sh = &self.shards[s];
        proof {
            lemma_query_append(sh.version_entries(), sh.mem@, u64::MAX, key@);
            lemma_query_props(sh.version_entries(), u64::MAX, key@);
            lemma_query_props(sh.mem@, u64::MAX, key@);
            match (newest(sh.version_entries(), key@), newest(sh.mem@, key@)) {
                (Some(a), Some(b)) => {
                    let wa = choose|w: int|
                        0 <= w < sh.version_entries().len() && sh.version_entries()[w] == a;
                    let wb = choose|w: int| 0 <= w < sh.mem@.len() && sh.mem@[w] == b;
                    assert(a.ts < b.ts);
                }
                _ => {}
            }
        }
        match sh.mem.get(u64::MAX, key) {
            Some((_, v)) => Ok(v),
            None => sh.storage.current().get(u64::MAX, key),
        }
    }

    /// Whether a shard's memtable has crossed the flush threshold.
    pub fn should_flush(&self, shard: usize) -> (r: bool)
        requires
            self.wf(),
            shard < self.shards@.len(),
        ensures
            r == (capped_size(self.shards@[shard as int].mem@) >= self.opts.memtable_size),
    {
        self.shards[shard].mem.size() >= self.opts.memtable_size
    }

    /// Flushes a shard's memtable: snapshots it, persists the snapshot
    /// as a new level-0 file, registers the file with the manifest, and
    /// publishes the storage version including it. Readers notice no
    /// change of content: flushing only moves entries from memory into
    /// the persisted version.
    pub fn flush_shard(&mut self, shard: usize) -> (r: Result<(), Error>)
        requires
            old(self).wf(),
            shard < old(self).shards@.len(),
            old(self).shards@[shard as int].storage.next_id() < u64::MAX,
        ensures
            final(self).wf(),
            r is Ok,
            final(self).opts == old(self).opts,
            final(self).next_ts == old(self).next_ts,
            forall|key: Seq<u8>| #[trigger] final(self).lookup(key) == old(self).lookup(key),
            final(self).shards@[shard as int].mem@ == Seq::<EntryView>::empty(),
            final(self).shards@[shard as int].storage@ == old(self).shards@[shard as int].storage@
                .push(
                old(self).shards@[shard as int].storage.cur().push(
                    FileMetaView {
                        id: old(self).shards@[shard as int].storage.next_id(),
                        level: 0,
                        entries: old(self).shards@[shard as int].mem@,
                    },
                ),
            ),
            final(self).manifest@ == old(self).manifest@.update(
                shard as int,
                old(self).manifest@[shard as int].update(
                    0,
                    old(self).manifest@[shard as int][0].push(
                        old(self).shards@[shard as int].storage.next_id(),
                    ),
                ),
            ),
    {
        let ghost old_shards = self.shards@;
        let ghost ns = self.opts.num_shards as int;
        let sh = &mut self.shards[shard];
        let ghost pre_sh = *sh;
        let snap = sh.mem.snapshot();
        let f = sh.storage.write_l0_file(&snap);
        let id = f.id;
        let ghost fv = f@;
        sh.storage.publish_flush(f);
        sh.mem = MemTable::new();
        sh.flushed_pos = sh.journal.len();
        proof {
            let post_sh = self.shards@[shard as int];
            assert(self.shards@ =~= old_shards.update(shard as int, post_sh));
            assert(post_sh.storage.cur() == pre_sh.storage.cur().push(fv));
            assert(pre_sh.storage.cur().push(fv).drop_last() =~= pre_sh.storage.cur());
            assert(post_sh.version_entries() == pre_sh.version_entries() + fv.entries);
            assert(post_sh.entries() =~= pre_sh.entries());
            assert(post_sh.journal.deep_view().skip(post_sh.flushed_pos as int)
                =~= Seq::<EntryView>::empty());
            assert(post_sh.wf());
            assert(post_sh.ts_below(self.next_ts));
            assert(post_sh.routed(shard as int, ns));
            assert forall|key: Seq<u8>| #[trigger] self.lookup(key) == old(self).lookup(key) by {
                let s2 = shard_of(key, ns);
                if s2 == shard as int {
                    assert(self.shards@[s2].entries() == old(self).shards@[s2].entries());
                }
            }
        }
        let mut ids: Vec<u64> = Vec::new();
        ids.push(id);
        let ghost pre_m = self.manifest@;
        self.manifest.register_flush(shard, &ids);
        proof {
            assert(pre_m[shard as int][0] + ids@ =~= pre_m[shard as int][0].push(id));
        }
        Ok(())
    }

    /// Compacts a shard's whole persisted file set into one file on
    /// the oldest level, committing the plan to the manifest by
    /// compare-and-swap before publishing the resulting version. The
    /// merge keeps only each key's newest persisted entry and drops
    /// tombstones, which no read can still need; readers again notice
    /// no change of visible content.
    pub fn compact_shard(&mut self, shard: usize) -> (r: Result<(), Error>)
        requires
            old(self).wf(),
            shard < old(self).shards@.len(),
            old(self).shards@[shard as int].storage.next_id() < u64::MAX,
        ensures
            final(self).wf(),
            r is Ok,
            final(self).opts == old(self).opts,
            final(self).next_ts == old(self).next_ts,
            forall|key: Seq<u8>| #[trigger] final(self).lookup(key) == old(self).lookup(key),
            is_compaction_of(
                old(self).shards@[shard as int].version_entries(),
                final(self).shards@[shard as int].version_entries(),
                true,
            ),
            final(self).shards@[shard as int].mem@ == old(self).shards@[shard as int].mem@,
    {
        let ghost old_shards = self.shards@;
        let ghost ns = self.opts.num_shards as int;
        let inputs = self.manifest.shard_file_ids(shard);
        let nl = self.manifest.num_levels;
        let sh = &mut self.shards[shard];
        let ghost pre_sh = *sh;
        let flat = sh.storage.current().all_file_entries();
        let merged = compact_entries(&flat, true);
        let id = sh.storage.allocate_file_id();
        let out = FileMeta { id, level: nl - 1, entries: merged };
        let ghost ov = out@;
        sh.storage.commit_compaction(out);
        proof {
            let post_sh = self.shards@[shard as int];
            assert(self.shards@ =~= old_shards.update(shard as int, post_sh));
            assert(post_sh.storage.cur() == seq![ov]);
            assert(seq![ov].drop_last() =~= Seq::<FileMetaView>::empty());
            assert(files_entries(Seq::<FileMetaView>::empty()) == Seq::<EntryView>::empty());
            assert(post_sh.version_entries() =~= ov.entries);
            assert(is_compaction_of(pre_sh.version_entries(), post_sh.version_entries(), true));
            assert(post_sh.mem@ == pre_sh.mem@);
            assert(post_sh.journal == pre_sh.journal);
            // persisted entries stay strictly older than the memtable:
            // each survivor is some input entry
            assert forall|i: int, j: int|
                0 <= i < post_sh.version_entries().len() && 0 <= j < post_sh.mem@.len() implies (
            #[trigger] post_sh.version_entries()[i]).ts < (#[trigger] post_sh.mem@[j]).ts by {
                let e = post_sh.version_entries()[i];
                lemma_query_props(pre_sh.version_entries(), u64::MAX, e.key);
                let w = choose|w: int|
                    0 <= w < pre_sh.version_entries().len() && pre_sh.version_entries()[w] == e;
                assert(pre_sh.version_entries()[w].ts < pre_sh.mem@[j].ts);
            }
            assert(post_sh.wf());
            // every surviving entry is an input entry, so bounds and
            // routing carry over
            assert forall|i: int|
                0 <= i < post_sh.entries().len() implies (#[trigger] post_sh.entries()[i]).ts
                < self.next_ts && shard_of(post_sh.entries()[i].key, ns) == shard as int by {
                if i < post_sh.version_entries().len() {
                    let e = post_sh.version_entries()[i];
                    assert(post_sh.entries()[i] == e);
                    lemma_query_props(pre_sh.version_entries(), u64::MAX, e.key);
                    let w = choose|w: int|
                        0 <= w < pre_sh.version_entries().len() && pre_sh.version_entries()[w]
                            == e;
                    assert(pre_sh.entries()[w] == e);
                } else {
                    let j = i - post_sh.version_entries().len();
                    assert(post_sh.entries()[i] == pre_sh.mem@[j]);
                    assert(pre_sh.entries()[pre_sh.version_entries().len() + j]
                        == pre_sh.mem@[j]);
                }
            }
            assert(post_sh.ts_below(self.next_ts));
            assert(post_sh.routed(shard as int, ns));
            // visible content is unchanged: the memtable wins where it
            // holds the key, and otherwise the merge kept the newest
            // persisted entry, or dropped the key only when its newest
            // entry was a tombstone, which read as absent anyway
            assert forall|key: Seq<u8>| #[trigger] read_value(newest(post_sh.entries(), key))
                == read_value(newest(pre_sh.entries(), key)) by {
                lemma_query_append(post_sh.version_entries(), post_sh.mem@, u64::MAX, key);
                lemma_query_append(pre_sh.version_entries(), pre_sh.mem@, u64::MAX, key);
                lemma_query_props(pre_sh.version_entries(), u64::MAX, key);
                lemma_query_props(post_sh.version_entries(), u64::MAX, key);
                lemma_query_props(pre_sh.mem@, u64::MAX, key);
                match newest(pre_sh.version_entries(), key) {
                    None => {
                        if newest(post_sh.version_entries(), key) is Some {
                            let v = choose|v: int|
                                0 <= v < post_sh.version_entries().len()
                                    && post_sh.version_entries()[v] == newest(
                                    post_sh.version_entries(),
                                    key,
                                )->Some_0;
                            assert(newest(
                                pre_sh.version_entries(),
                                post_sh.version_entries()[v].key,
                            ) == Some(post_sh.version_entries()[v]));
                        }
                        assert(newest(post_sh.version_entries(), key) is None);
                    }
                    Some(e) => {
                        if e.value is None {
                            // tombstone dropped: key absent from the merge
                            if newest(post_sh.version_entries(), key) is Some {
                                let v = choose|v: int|
                                    0 <= v < post_sh.version_entries().len()
                                        && post_sh.version_entries()[v] == newest(
                                        post_sh.version_entries(),
                                        key,
                                    )->Some_0;
                                assert(newest(
                                    pre_sh.version_entries(),
                                    post_sh.version_entries()[v].key,
                                ) == Some(post_sh.version_entries()[v]));
                            }
                            assert(newest(post_sh.version_entries(), key) is None);
                            match newest(pre_sh.mem@, key) {
                                Some(b) => {
                                    let wb = choose|w: int|
                                        0 <= w < pre_sh.mem@.len() && pre_sh.mem@[w] == b;
                                    let we = choose|w: int|
                                        0 <= w < pre_sh.version_entries().len()
                                            && pre_sh.version_entries()[w] == e;
                                    assert(e.ts < b.ts);
                                }
                                None => {
                                    assert(read_value(newest(pre_sh.entries(), key)) is None);
                                }
                            }
                        } else {
                            // survivor kept verbatim
                            let q = choose|q: int|
                                0 <= q < post_sh.version_entries().len()
                                    && post_sh.version_entries()[q].key == key;
                            assert(newest(
                                pre_sh.version_entries(),
                                post_sh.version_entries()[q].key,
                            ) == Some(post_sh.version_entries()[q]));
                            assert(post_sh.version_entries()[q] == e);
                            match newest(post_sh.version_entries(), key) {
                                None => {
                                    assert(false);
                                }
                                Some(f2) => {
                                    let v = choose|v: int|
                                        0 <= v < post_sh.version_entries().len()
                                            && post_sh.version_entries()[v] == f2;
                                    if v != q {
                                        assert(post_sh.version_entries()[v].key
                                            != post_sh.version_entries()[q].key);
                                    }
                                    assert(f2 == e);
                                }
                            }
                        }
                    }
                }
            }
            assert forall|key: Seq<u8>| #[trigger] self.lookup(key) == old(self).lookup(key) by {
                let s2 = shard_of(key, ns);
                if s2 == shard as int {
                    assert(read_value(newest(post_sh.entries(), key)) == read_value(
                        newest(pre_sh.entries(), key),
                    ));
                }
            }
        }
        let cas = self.manifest.register_compaction(shard, &inputs, id);
        proof {
            assert(cas is Ok);
        }
        Ok(())
    }

    /// Rebuilds a memtable from the unflushed suffix of a durable
    /// journal, as crash recovery does: the rebuilt table holds
    /// exactly the writes that had not yet reached a persisted
    /// version.
    pub fn recover_memtable(journal: &Vec<Entry>, flushed_pos: usize) -> (r: MemTable)
        requires
            flushed_pos <= journal.deep_view().len(),
        ensures
            r.wf(),
            r@ == journal.deep_view().skip(flushed_pos as int),
    {
        let mut mem = MemTable::new();
        let n = journal.len();
        let ghost jd = journal.deep_view();
        for i in flushed_pos..n
            invariant
                n == journal.len(),
                jd == journal.deep_view(),
                flushed_pos <= i <= n,
                mem.wf(),
                mem@ == jd.subrange(flushed_pos as int, i as int),
        {
            let e = copy_entry(&journal[i]);
            let Entry { ts, key, value } = e;
            proof {
                assert(jd.subrange(flushed_pos as int, i as int).push(jd[i as int])
                    =~= jd.subrange(flushed_pos as int, i + 1));
            }
            mem.put(ts, key, value);
        }
        proof {
            assert(jd.subrange(flushed_pos as int, n as int) =~= jd.skip(flushed_pos as int));
        }
        mem
    }

    /// The crash-recovery guarantee: at any consistent state, each
    /// shard's memtable is exactly the unflushed suffix of its durable
    /// journal, so a memtable lost in a crash is rebuilt from the
    /// journal alone.
    pub proof fn lemma_crash_recovery(&self, s: int)
        requires
            self.wf(),
            0 <= s < self.shards@.len(),
        ensures
            self.shards@[s].journal.deep_view().skip(self.shards@[s].flushed_pos as int)
                == self.shards@[s].mem@,
    {
    }
}

} // verus!
