//! The backend interfaces: each core component is a capability set
//! that alternative implementations (an in-process one, or a remote
//! one behind a service boundary) provide behind the same contract,
//! chosen at construction time. The in-process implementations of
//! this crate implement them.

use vstd::prelude::*;

use crate::entry::{query, read_value, EntryView, Timestamp};
use crate::error::Error;
use crate::memtable::capped_size;
use crate::storage::files_entries;

verus! {

/// A consistent point-in-time view of a memtable's contents.
pub trait MemSnapshot: Sized {
    /// The sequence of writes fixed in the snapshot.
    spec fn model(&self) -> Seq<EntryView>;

    /// Number of entries fixed in the snapshot.
    fn count(&self) -> (r: usize)
        ensures
            r == self.model().len(),
    ;
}

/// A mutable in-memory table of timestamped writes that can hand out
/// consistent snapshots for flushing.
pub trait MemTable: Sized {
    /// The snapshot type this implementation hands out.
    type Snap: MemSnapshot;

    /// The sequence of writes the table holds, in application order.
    spec fn model(&self) -> Seq<EntryView>;

    /// The implementation's internal consistency.
    spec fn inv(&self) -> bool;

    /// Applies one write; a tombstone value records a deletion.
    fn put(&mut self, ts: Timestamp, key: Vec<u8>, value: Option<Vec<u8>>)
        requires
            old(self).inv(),
        ensures
            final(self).inv(),
            final(self).model() == old(self).model().push(
                EntryView { ts, key: key@, value: value.deep_view() },
            ),
    ;

    /// The newest write for `key` at or below `ts`, if any.
    fn get(&self, ts: Timestamp, key: &Vec<u8>) -> (r: Option<(Timestamp, Option<Vec<u8>>)>)
        requires
            self.inv(),
        ensures
            match (r, query(self.model(), ts, key@)) {
                (None, None) => true,
                (Some((t, v)), Some(e)) => t == e.ts && v.deep_view() == e.value,
                _ => false,
            },
    ;

    /// Approximate byte footprint of the stored entries, in O(1).
    fn size(&self) -> (r: usize)
        requires
            self.inv(),
        ensures
            r == capped_size(self.model()),
    ;

    /// Number of stored entries.
    fn count(&self) -> (r: usize)
        requires
            self.inv(),
        ensures
            r == self.model().len(),
    ;

    /// A consistent snapshot of the current contents; later writes to
    /// the table never leak into it.
    fn snapshot(&self) -> (r: Self::Snap)
        requires
            self.inv(),
        ensures
            r.model() == self.model(),
    ;
}

/// An immutable, queryable view of all persisted entries at one point
/// in time.
pub trait StorageVersion: Sized {
    /// All persisted entries visible in this version.
    spec fn model(&self) -> Seq<EntryView>;

    /// The value visible for `key` at or below `ts`: the newest
    /// matching entry decides, and a tombstone, like an absent key,
    /// reads as `None`.
    fn get(&self, ts: Timestamp, key: &Vec<u8>) -> (r: Result<Option<Vec<u8>>, Error>)
        ensures
            r matches Ok(v) && v.deep_view() == read_value(query(self.model(), ts, key@)),
    ;
}

impl MemSnapshot for crate::memtable::MemSnapshot {
    open spec fn model(&self) -> Seq<EntryView> {
        self@
    }

    fn count(&self) -> (r: usize) {
        self.count()
    }
}

impl MemTable for crate::memtable::MemTable {
    type Snap = crate::memtable::MemSnapshot;

    open spec fn model(&self) -> Seq<EntryView> {
        self@
    }

    open spec fn inv(&self) -> bool {
        self.wf()
    }

    fn put(&mut self, ts: Timestamp, key: Vec<u8>, value: Option<Vec<u8>>) {
        self.put(ts, key, value)
    }

    fn get(&self, ts: Timestamp, key: &Vec<u8>) -> (r: Option<(Timestamp, Option<Vec<u8>>)>) {
        self.get(ts, key)
    }

    fn size(&self) -> (r: usize) {
        self.size()
    }

    fn count(&self) -> (r: usize) {
        self.count()
    }

    fn snapshot(&self) -> (r: crate::memtable::MemSnapshot) {
        self.snapshot()
    }
}

impl StorageVersion for crate::storage::StorageVersion {
    open spec fn model(&self) -> Seq<EntryView> {
        files_entries(self@)
    }

    fn get(&self, ts: Timestamp, key: &Vec<u8>) -> (r: Result<Option<Vec<u8>>, Error>) {
        self.get(ts, key)
    }
}

} // verus!
