//! The versioned storage layer: immutable sorted files grouped into
//! immutable `StorageVersion`s, published one after another by a
//! single-writer `Storage` cell that readers subscribe to.

use vstd::prelude::*;

use crate::compaction::{is_compaction_of, lemma_compaction_covers};
use crate::entry::{
    copy_entries, covered, covers, deleted_since, lemma_covered_append, lemma_query_append,
    newest, query, query_entries, read_value, Entry, EntryView, Timestamp,
};
use crate::error::Error;
use crate::memtable::MemSnapshot;

verus! {

/// One immutable persisted sorted file: its identifier, the level it
/// sits on, and its entries.
pub struct FileMeta {
    pub id: u64,
    pub level: usize,
    pub entries: Vec<Entry>,
}

/// Mathematical model of a `FileMeta`.
pub ghost struct FileMetaView {
    pub id: u64,
    pub level: usize,
    pub entries: Seq<EntryView>,
}

impl View for FileMeta {
    type V = FileMetaView;

    open spec fn view(&self) -> FileMetaView {
        FileMetaView { id: self.id, level: self.level, entries: self.entries.deep_view() }
    }
}

impl DeepView for FileMeta {
    type V = FileMetaView;

    open spec fn deep_view(&self) -> FileMetaView {
        self@
    }
}

/// All entries of a sequence of files, in file order.
pub open spec fn files_entries(fs: Seq<FileMetaView>) -> Seq<EntryView>
    decreases fs.len(),
{
    if fs.len() == 0 {
        Seq::empty()
    } else {
        files_entries(fs.drop_last()) + fs.last().entries
    }
}

/// An immutable point-in-time view of all persisted files; never
/// mutated once published, only superseded by a newer version.
pub struct StorageVersion {
    pub files: Vec<FileMeta>,
}

impl View for StorageVersion {
    type V = Seq<FileMetaView>;

    open spec fn view(&self) -> Seq<FileMetaView> {
        self.files.deep_view()
    }
}

impl DeepView for StorageVersion {
    type V = Seq<FileMetaView>;

    open spec fn deep_view(&self) -> Seq<FileMetaView> {
        self@
    }
}

impl StorageVersion {
    /// A version holding no files at all.
    pub fn empty() -> (r: StorageVersion)
        ensures
            r@ == Seq::<FileMetaView>::empty(),
    {
        let r = StorageVersion { files: Vec::new() };
        proof {
            assert(r@ =~= Seq::<FileMetaView>::empty());
        }
        r
    }

    /// An owned copy of this version's file list.
    pub fn duplicate(&self) -> (r: StorageVersion)
        ensures
            r@ == self@,
    {
        let mut files: Vec<FileMeta> = Vec::new();
        let n = self.files.len();
        for i in 0..n
            invariant
                n == self.files.len(),
                files@.len() == i,
                forall|j: int| 0 <= j < i ==> files@[j]@ == self@[j],
        {
            let f = &self.files[i];
            files.push(FileMeta { id: f.id, level: f.level, entries: copy_entries(&f.entries) });
        }
        let r = StorageVersion { files };
        proof {
            assert forall|j: int| 0 <= j < n implies r@[j] == self@[j] by {
                assert(r@[j] == r.files@[j]@);
            }
            assert(r@ =~= self@);
        }
        r
    }

    /// Whether any file of this version carries the given identifier.
    pub fn references(&self, id: u64) -> (r: bool)
        ensures
            r == exists|i: int| 0 <= i < self@.len() && (#[trigger] self@[i].id) == id,
    {
        let n = self.files.len();
        for i in 0..n
            invariant
                n == self.files.len(),
                forall|j: int| 0 <= j < i ==> (#[trigger] self@[j].id) != id,
        {
            if self.files[i].id == id {
                assert(self@[i as int].id == id);
                return true;
            }
            assert(self@[i as int].id != id);
        }
        false
    }

    /// All entries of this version's files, flattened in file order;
    /// the input a whole-version compaction merges.
    pub fn all_file_entries(&self) -> (r: Vec<Entry>)
        ensures
            r.deep_view() == files_entries(self@),
    {
        let ghost fs = self@;
        let mut r: Vec<Entry> = Vec::new();
        let n = self.files.len();
        for i in 0..n
            invariant
                n == self.files.len(),
                fs == self@,
                r.deep_view() == files_entries(fs.take(i as int)),
        {
            proof {
                assert(fs.take(i + 1).drop_last() =~= fs.take(i as int));
                assert(fs.take(i + 1).last() == fs[i as int]);
                assert(self.files[i as int].entries.deep_view() == fs[i as int].entries);
            }
            let ghost base = r.deep_view();
            let f = &self.files[i];
            proof {
                assert(base + f.entries.deep_view().take(0) =~= base);
            }
            let m = f.entries.len();
            for k in 0..m
                invariant
                    m == f.entries.len(),
                    r.deep_view() == base + f.entries.deep_view().take(k as int),
            {
                let ghost pre = r.deep_view();
                r.push(crate::entry::copy_entry(&f.entries[k]));
                proof {
                    assert(r.deep_view() =~= pre.push(f.entries.deep_view()[k as int]));
                    assert(base + f.entries.deep_view().take(k as int) + seq![
                        f.entries.deep_view()[k as int],
                    ] =~= base + f.entries.deep_view().take(k + 1));
                }
            }
            proof {
                assert(f.entries.deep_view().take(m as int) =~= f.entries.deep_view());
            }
        }
        proof {
            assert(fs.take(n as int) =~= fs);
        }
        r
    }

    /// The value visible for `key` at or below `ts` across all files:
    /// the newest matching entry decides, and a tombstone, like an
    /// absent key, reads as `None`.
    pub fn get(&self, ts: Timestamp, key: &Vec<u8>) -> (r: Result<Option<Vec<u8>>, Error>)
        ensures
            r matches Ok(v) && v.deep_view() == read_value(query(files_entries(self@), ts, key@)),
    {
        let ghost fs = self@;
        let mut best: Option<(Timestamp, Option<Vec<u8>>)> = None;
        let n = self.files.len();
        for i in 0..n
            invariant
                n == self.files.len(),
                fs == self@,
                match (best, query(files_entries(fs.take(i as int)), ts, key@)) {
                    (None, None) => true,
                    (Some((t, v)), Some(e)) => t == e.ts && v.deep_view() == e.value,
                    _ => false,
                },
        {
            let fr = query_entries(&self.files[i].entries, ts, key);
            proof {
                assert(fs.take(i + 1).drop_last() =~= fs.take(i as int));
                assert(fs.take(i + 1).last() == fs[i as int]);
                assert(self.files[i as int].entries.deep_view() == fs[i as int].entries);
                lemma_query_append(
                    files_entries(fs.take(i as int)),
                    fs[i as int].entries,
                    ts,
                    key@,
                );
            }
            match fr {
                None => {}
                Some((t, v)) => {
                    let take = match &best {
                        None => true,
                        Some((bt, _)) => *bt <= t,
                    };
                    if take {
                        best = Some((t, v));
                    }
                }
            }
        }
        proof {
            assert(fs.take(n as int) =~= fs);
        }
        match best {
            None => Ok(None),
            Some((_, v)) => Ok(v),
        }
    }
}

/// A subscription handle onto a `Storage`'s published versions: yields
/// every version published after its creation, in order, missing none.
pub struct VersionReceiver {
    pub pos: usize,
}

/// Owns the current `StorageVersion` and the record of every version
/// published so far; versions are only ever appended, each one covering
/// its predecessor's content.
pub struct Storage {
    versions: Vec<StorageVersion>,
    next_file_id: u64,
}

impl View for Storage {
    type V = Seq<Seq<FileMetaView>>;

    closed spec fn view(&self) -> Seq<Seq<FileMetaView>> {
        self.versions.deep_view()
    }
}

impl Storage {
    /// The currently active version's files.
    pub open spec fn cur(&self) -> Seq<FileMetaView> {
        self@.last()
    }

    /// The next file identifier to be handed out.
    pub closed spec fn next_id(&self) -> u64 {
        self.next_file_id
    }

    /// At least one version exists, and each published version covers
    /// the content of the one before it.
    pub open spec fn wf(&self) -> bool {
        &&& self@.len() >= 1
        &&& forall|i: int|
            0 <= i < self@.len() - 1 ==> covers(
                files_entries(#[trigger] self@[i]),
                files_entries(self@[i + 1]),
            )
    }

    /// A storage with one initial, empty version.
    pub fn new() -> (r: Storage)
        ensures
            r.wf(),
            r@.len() == 1,
            r.cur() == Seq::<FileMetaView>::empty(),
            r.next_id() == 0,
    {
        let mut versions: Vec<StorageVersion> = Vec::new();
        versions.push(StorageVersion::empty());
        let r = Storage { versions, next_file_id: 0 };
        proof {
            assert(r@ =~= seq![Seq::<FileMetaView>::empty()]);
        }
        r
    }

    /// The number of versions published so far.
    pub fn version_count(&self) -> (r: usize)
        ensures
            r == self@.len(),
    {
        self.versions.len()
    }

    /// The currently active version; O(1) and never a torn state, since
    /// versions are immutable once published.
    pub fn current(&self) -> (r: &StorageVersion)
        requires
            self.wf(),
        ensures
            r@ == self.cur(),
    {
        let r = &self.versions[self.versions.len() - 1];
        proof {
            assert(r@ == self@[self@.len() - 1]);
        }
        r
    }

    /// The version at the given position of the publication history.
    pub fn version_at(&self, i: usize) -> (r: &StorageVersion)
        requires
            i < self@.len(),
        ensures
            r@ == self@[i as int],
    {
        let r = &self.versions[i];
        proof {
            assert(r@ == self@[i as int]);
        }
        r
    }

    /// A subscription handle that will yield every version published
    /// from now on, in order.
    pub fn current_rx(&self) -> (r: VersionReceiver)
        ensures
            r.pos == self@.len(),
    {
        VersionReceiver { pos: self.versions.len() }
    }

    /// The next published version this receiver has not yet seen, if
    /// any; receivers observe the publication history in order, without
    /// gaps.
    pub fn recv(&self, rx: &mut VersionReceiver) -> (r: Option<&StorageVersion>)
        ensures
            if old(rx).pos < self@.len() {
                &&& r matches Some(v) && v@ == self@[old(rx).pos as int]
                &&& final(rx).pos == old(rx).pos + 1
            } else {
                r is None && final(rx).pos == old(rx).pos
            },
    {
        if rx.pos < self.versions.len() {
            let r = &self.versions[rx.pos];
            proof {
                assert(r@ == self@[rx.pos as int]);
            }
            rx.pos = rx.pos + 1;
            Some(r)
        } else {
            None
        }
    }

    /// Hands out a fresh file identifier for a file about to be
    /// written; nothing is published by this alone.
    pub fn allocate_file_id(&mut self) -> (r: u64)
        requires
            old(self).next_id() < u64::MAX,
        ensures
            final(self)@ == old(self)@,
            r == old(self).next_id(),
            final(self).next_id() == old(self).next_id() + 1,
    {
        let id = self.next_file_id;
        self.next_file_id = self.next_file_id + 1;
        id
    }

    /// Writes the snapshot's entries out as a new level-0 file; nothing
    /// is published yet, so a crash here leaves every version ignorant
    /// of the new file.
    pub fn write_l0_file(&mut self, snap: &MemSnapshot) -> (f: FileMeta)
        requires
            old(self).next_id() < u64::MAX,
        ensures
            final(self)@ == old(self)@,
            final(self).next_id() == old(self).next_id() + 1,
            f@.id == old(self).next_id(),
            f@.level == 0,
            f@.entries == snap@,
    {
        let id = self.next_file_id;
        self.next_file_id = self.next_file_id + 1;
        FileMeta { id, level: 0, entries: copy_entries(&snap.entries) }
    }

    /// Publishes the version that adds `f` to the current files; the
    /// swap is a single append, so a reader holds either the version it
    /// already obtained or a strictly newer one, never a mix.
    pub fn publish_flush(&mut self, f: FileMeta)
        requires
            old(self).wf(),
        ensures
            final(self).wf(),
            final(self)@ == old(self)@.push(old(self).cur().push(f@)),
            final(self).cur() == old(self).cur().push(f@),
            final(self).next_id() == old(self).next_id(),
    {
        let ghost pre = self@;
        let mut files = self.current().duplicate().files;
        let ghost fv = f@;
        files.push(f);
        let v = StorageVersion { files };
        proof {
            assert(v@ =~= pre.last().push(fv));
            let a = files_entries(pre.last());
            let b = files_entries(pre.last().push(fv));
            assert(pre.last().push(fv).drop_last() =~= pre.last());
            assert(b == a + fv.entries);
            assert forall|key: Seq<u8>, ts: Timestamp| covered(a, key, ts) implies covered(
                b,
                key,
                ts,
            ) by {
                lemma_covered_append(a, fv.entries, key, ts);
            }
        }
        self.versions.push(v);
        proof {
            assert(self@ =~= pre.push(pre.last().push(fv)));
        }
    }

    /// Persists a frozen memtable snapshot as a new level-0 file and
    /// publishes the version including it, atomically with respect to
    /// readers of `current`.
    pub fn flush_memtable(&mut self, snap: &MemSnapshot) -> (r: Result<(), Error>)
        requires
            old(self).wf(),
            old(self).next_id() < u64::MAX,
        ensures
            r is Ok,
            final(self).wf(),
            final(self)@ == old(self)@.push(
                old(self).cur().push(
                    FileMetaView { id: old(self).next_id(), level: 0, entries: snap@ },
                ),
            ),
            final(self).next_id() == old(self).next_id() + 1,
    {
        let f = self.write_l0_file(snap);
        self.publish_flush(f);
        Ok(())
    }

    /// Publishes the version whose only file is the given compaction
    /// output of the whole current file set (a tombstone-collecting
    /// full merge).
    pub fn commit_compaction(&mut self, out: FileMeta)
        requires
            old(self).wf(),
            is_compaction_of(files_entries(old(self).cur()), out@.entries, true),
        ensures
            final(self).wf(),
            final(self)@ == old(self)@.push(seq![out@]),
            final(self).cur() == seq![out@],
            final(self).next_id() == old(self).next_id(),
    {
        let ghost pre = self@;
        let ghost ov = out@;
        let mut files: Vec<FileMeta> = Vec::new();
        files.push(out);
        let v = StorageVersion { files };
        proof {
            assert(v@ =~= seq![ov]);
            let a = files_entries(pre.last());
            assert(seq![ov].drop_last() =~= Seq::<FileMetaView>::empty());
            assert(files_entries(Seq::<FileMetaView>::empty()) == Seq::<EntryView>::empty());
            assert(files_entries(seq![ov]) == files_entries(Seq::<FileMetaView>::empty())
                + ov.entries);
            assert(files_entries(seq![ov]) =~= ov.entries);
            lemma_compaction_covers(a, ov.entries);
        }
        self.versions.push(v);
        proof {
            assert(self@ =~= pre.push(seq![ov]));
        }
    }

    /// Monotonicity of the observed version sequence: once a key and
    /// timestamp pair is covered by a published version, it stays
    /// covered by every later one, unless some intervening version
    /// dropped the key's entries entirely, and then only behind a
    /// tombstone at least as new that its predecessor held.
    pub proof fn lemma_subscription_monotonic(&self, i: int, j: int)
        requires
            self.wf(),
            0 <= i <= j < self@.len(),
        ensures
            forall|key: Seq<u8>, ts: Timestamp|
                covered(files_entries(self@[i]), key, ts) ==> covered(
                    files_entries(self@[j]),
                    key,
                    ts,
                ) || exists|m: int|
                    i < m <= j && newest(files_entries(#[trigger] self@[m]), key) is None
                        && deleted_since(files_entries(self@[m - 1]), key, ts),
        decreases j - i,
    {
        if i < j {
            self.lemma_subscription_monotonic(i, j - 1);
            assert(covers(files_entries(self@[j - 1]), files_entries(self@[j])));
            assert forall|key: Seq<u8>, ts: Timestamp|
                covered(files_entries(self@[i]), key, ts) implies covered(
                files_entries(self@[j]),
                key,
                ts,
            ) || exists|m: int|
                i < m <= j && newest(files_entries(#[trigger] self@[m]), key) is None
                    && deleted_since(files_entries(self@[m - 1]), key, ts) by {
                if covered(files_entries(self@[i]), key, ts) {
                    if covered(files_entries(self@[j - 1]), key, ts) {
                        if !covered(files_entries(self@[j]), key, ts) {
                            assert(newest(files_entries(self@[j]), key) is None
                                && deleted_since(files_entries(self@[j - 1]), key, ts));
                        }
                    } else {
                        let m = choose|m: int|
                            i < m <= j - 1 && newest(
                                files_entries(#[trigger] self@[m]),
                                key,
                            ) is None && deleted_since(files_entries(self@[m - 1]), key, ts);
                        assert(i < m <= j && newest(files_entries(self@[m]), key) is None
                            && deleted_since(files_entries(self@[m - 1]), key, ts));
                    }
                }
            }
        }
    }
}

} // verus!
