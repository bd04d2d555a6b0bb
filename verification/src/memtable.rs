//! The in-memory write buffer: accumulates recent timestamped writes
//! and hands out point-in-time snapshots for flushing.

use vstd::prelude::*;

use crate::entry::{
    copy_entries, entries_size, query, query_entries, read_value, Entry, EntryView, Timestamp,
};

verus! {

/// Byte footprint capped at what a machine word can hold.
pub open spec fn capped_size(s: Seq<EntryView>) -> nat {
    if entries_size(s) <= usize::MAX {
        entries_size(s)
    } else {
        usize::MAX as nat
    }
}

/// The mutable in-memory table of timestamped writes for one shard.
///
/// Its model is the sequence of writes applied to it, in order; a
/// lookup reads the newest write at or below the asked timestamp, so a
/// later write to the same (timestamp, key) slot overwrites an earlier
/// one observationally.
pub struct MemTable {
    entries: Vec<Entry>,
    bytes: usize,
}

/// An immutable, consistent point-in-time copy of a `MemTable`'s
/// contents, taken for flushing; later writes to the table never leak
/// into it.
pub struct MemSnapshot {
    pub entries: Vec<Entry>,
}

impl View for MemSnapshot {
    type V = Seq<EntryView>;

    open spec fn view(&self) -> Seq<EntryView> {
        self.entries.deep_view()
    }
}

impl View for MemTable {
    type V = Seq<EntryView>;

    closed spec fn view(&self) -> Seq<EntryView> {
        self.entries.deep_view()
    }
}

impl MemTable {
    /// The byte counter tracks the contents exactly, saturating at the
    /// machine-word cap.
    pub closed spec fn wf(&self) -> bool {
        self.bytes == capped_size(self@)
    }

    /// An empty table.
    pub fn new() -> (r: MemTable)
        ensures
            r.wf(),
            r@ == Seq::<EntryView>::empty(),
    {
        let r = MemTable { entries: Vec::new(), bytes: 0 };
        proof {
            assert(r@ =~= Seq::<EntryView>::empty());
        }
        r
    }

    /// Applies the write `(ts, key) -> value`; a tombstone value records
    /// a deletion.
    pub fn put(&mut self, ts: Timestamp, key: Vec<u8>, value: Option<Vec<u8>>)
        requires
            old(self).wf(),
        ensures
            final(self).wf(),
            final(self)@ == old(self)@.push(
                EntryView { ts, key: key@, value: value.deep_view() },
            ),
    {
        let added = match &value {
            Some(v) => {
                if key.len() <= usize::MAX - v.len() {
                    key.len() + v.len()
                } else {
                    usize::MAX
                }
            }
            None => key.len(),
        };
        let e = Entry { ts, key, value };
        let ghost pre = self.entries.deep_view();
        self.entries.push(e);
        proof {
            assert(self.entries.deep_view() =~= pre.push(e@));
            assert(pre.push(e@).drop_last() =~= pre);
        }
        if self.bytes <= usize::MAX - added {
            self.bytes = self.bytes + added;
        } else {
            self.bytes = usize::MAX;
        }
    }

    /// The newest value written for `key` at or below `ts`: `None` if no
    /// such write exists, `Some((t, v))` with the write's timestamp and
    /// value otherwise (`v == None` for a tombstone).
    pub fn get(&self, ts: Timestamp, key: &Vec<u8>) -> (r: Option<(Timestamp, Option<Vec<u8>>)>)
        ensures
            match (r, query(self@, ts, key@)) {
                (None, None) => true,
                (Some((t, v)), Some(e)) => t == e.ts && v.deep_view() == e.value,
                _ => false,
            },
            r is Some <==> query(self@, ts, key@) is Some,
    {
        query_entries(&self.entries, ts, key)
    }

    /// The value a reader sees for `key` at or below `ts`: a tombstone,
    /// like an absent key, reads `None`.
    pub fn read(&self, ts: Timestamp, key: &Vec<u8>) -> (r: Option<Vec<u8>>)
        ensures
            r.deep_view() == read_value(query(self@, ts, key@)),
    {
        match self.get(ts, key) {
            Some((_, v)) => v,
            None => None,
        }
    }

    /// Approximate byte footprint of the stored entries, kept in O(1).
    pub fn size(&self) -> (r: usize)
        requires
            self.wf(),
        ensures
            r == capped_size(self@),
    {
        self.bytes
    }

    /// Number of stored entries.
    pub fn count(&self) -> (r: usize)
        ensures
            r == self@.len(),
    {
        self.entries.len()
    }

    /// A consistent copy of the current contents, for flushing.
    pub fn snapshot(&self) -> (r: MemSnapshot)
        ensures
            r@ == self@,
    {
        MemSnapshot { entries: copy_entries(&self.entries) }
    }
}

impl MemSnapshot {
    /// Number of entries fixed in this snapshot.
    pub fn count(&self) -> (r: usize)
        ensures
            r == self@.len(),
    {
        self.entries.len()
    }

    /// The entry at position `i` of the snapshot's sequence.
    pub fn entry_at(&self, i: usize) -> (r: &Entry)
        requires
            i < self@.len(),
        ensures
            r@ == self@[i as int],
    {
        &self.entries[i]
    }
}

} // verus!
