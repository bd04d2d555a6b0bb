//! Timestamped entries and the multi-version lookup model.
//!
//! Every stored value is tagged with a timestamp; for a given key the
//! value with the larger timestamp is the logically newer one, wherever
//! it is stored. A deletion is a write whose value is a tombstone.

use vstd::prelude::*;

verus! {

/// Logical write timestamp; strictly increasing per engine instance.
pub type Timestamp = u64;

/// A single timestamped write. `value == None` is a tombstone: the key
/// was deleted at this timestamp.
pub struct Entry {
    pub ts: Timestamp,
    pub key: Vec<u8>,
    pub value: Option<Vec<u8>>,
}

/// Mathematical model of an `Entry`.
pub ghost struct EntryView {
    pub ts: Timestamp,
    pub key: Seq<u8>,
    pub value: Option<Seq<u8>>,
}

impl View for Entry {
    type V = EntryView;

    open spec fn view(&self) -> EntryView {
        EntryView { ts: self.ts, key: self.key@, value: self.value.deep_view() }
    }
}

impl DeepView for Entry {
    type V = EntryView;

    open spec fn deep_view(&self) -> EntryView {
        self@
    }
}

/// Approximate byte footprint of one entry: key and value bytes.
pub open spec fn entry_size(e: EntryView) -> nat {
    e.key.len() + match e.value {
        Some(v) => v.len(),
        None => 0,
    }
}

/// Byte footprint of a whole sequence of entries.
pub open spec fn entries_size(s: Seq<EntryView>) -> nat
    decreases s.len(),
{
    if s.len() == 0 {
        0
    } else {
        entries_size(s.drop_last()) + entry_size(s.last())
    }
}

/// Of two candidate lookup results, the newer one; on equal timestamps
/// the second wins, so that a later write to the same (timestamp, key)
/// slot overwrites an earlier one.
pub open spec fn merge_newer(a: Option<EntryView>, b: Option<EntryView>) -> Option<EntryView> {
    match b {
        None => a,
        Some(eb) => match a {
            None => b,
            Some(ea) => if ea.ts <= eb.ts {
                b
            } else {
                a
            },
        },
    }
}

/// The multi-version lookup: among the entries for `key` whose timestamp
/// is at most `ts`, the one with the greatest timestamp; `None` if the
/// key has no entry at or below `ts`.
pub open spec fn query(s: Seq<EntryView>, ts: Timestamp, key: Seq<u8>) -> Option<EntryView>
    decreases s.len(),
{
    if s.len() == 0 {
        None
    } else {
        let rest = query(s.drop_last(), ts, key);
        let e = s.last();
        if e.key == key && e.ts <= ts {
            merge_newer(rest, Some(e))
        } else {
            rest
        }
    }
}

/// The newest entry for `key`, at any timestamp.
pub open spec fn newest(s: Seq<EntryView>, key: Seq<u8>) -> Option<EntryView> {
    query(s, u64::MAX, key)
}

/// Whether some entry for `key` is present at all.
pub open spec fn has_key(s: Seq<EntryView>, key: Seq<u8>) -> bool {
    exists|i: int| 0 <= i < s.len() && s[i].key == key
}

/// The value a reader sees for a lookup result: a tombstone, like an
/// absent key, reads as `None`.
pub open spec fn read_value(q: Option<EntryView>) -> Option<Seq<u8>> {
    match q {
        Some(e) => e.value,
        None => None,
    }
}

/// The pair (key, ts) is covered: some entry for `key` at least as new
/// as `ts` is present.
pub open spec fn covered(s: Seq<EntryView>, key: Seq<u8>, ts: Timestamp) -> bool {
    exists|i: int| 0 <= i < s.len() && s[i].key == key && s[i].ts >= ts
}

/// A tombstone for `key` at least as new as `ts` is present: the pair
/// (key, ts) was superseded by a deletion.
pub open spec fn deleted_since(s: Seq<EntryView>, key: Seq<u8>, ts: Timestamp) -> bool {
    exists|i: int|
        0 <= i < s.len() && s[i].key == key && s[i].ts >= ts && s[i].value is None
}

/// Content coverage of `b` relative to `a`: every pair covered in `a`
/// stays covered in `b`, unless a tombstone at least as new superseded
/// the pair and the key's entries were dropped entirely.
pub open spec fn covers(a: Seq<EntryView>, b: Seq<EntryView>) -> bool {
    forall|key: Seq<u8>, ts: Timestamp|
        covered(a, key, ts) ==> covered(b, key, ts) || (newest(b, key) is None
            && deleted_since(a, key, ts))
}

/// What `query` returns is an element of the sequence, matches the key,
/// respects the bound, and dominates every other candidate.
pub proof fn lemma_query_props(s: Seq<EntryView>, ts: Timestamp, key: Seq<u8>)
    ensures
        match query(s, ts, key) {
            None => forall|i: int| 0 <= i < s.len() ==> !(s[i].key == key && s[i].ts <= ts),
            Some(e) => {
                &&& exists|i: int| 0 <= i < s.len() && s[i] == e
                &&& e.key == key
                &&& e.ts <= ts
                &&& forall|i: int|
                    0 <= i < s.len() && s[i].key == key && s[i].ts <= ts ==> s[i].ts <= e.ts
            },
        },
    decreases s.len(),
{
    if s.len() > 0 {
        lemma_query_props(s.drop_last(), ts, key);
        assert forall|i: int| 0 <= i < s.len() - 1 implies s[i] == s.drop_last()[i] by {}
        match query(s, ts, key) {
            None => {}
            Some(e) => {
                if s.last().key == key && s.last().ts <= ts {
                    match query(s.drop_last(), ts, key) {
                        None => {
                            assert(s[s.len() - 1] == e);
                        }
                        Some(p) => {
                            if p.ts <= s.last().ts {
                                assert(s[s.len() - 1] == e);
                            } else {
                                assert(exists|i: int| 0 <= i < s.len() - 1 && s.drop_last()[i] == e);
                            }
                        }
                    }
                } else {
                    assert(exists|i: int| 0 <= i < s.len() - 1 && s.drop_last()[i] == e);
                }
            }
        }
    }
}

/// Unfolding `query` over a push.
pub proof fn lemma_query_push(s: Seq<EntryView>, e: EntryView, ts: Timestamp, key: Seq<u8>)
    ensures
        query(s.push(e), ts, key) == (if e.key == key && e.ts <= ts {
            merge_newer(query(s, ts, key), Some(e))
        } else {
            query(s, ts, key)
        }),
{
    assert(s.push(e).drop_last() =~= s);
    assert(s.push(e).last() == e);
}

/// A lookup over a concatenation is the newer of the two halves' lookups.
pub proof fn lemma_query_append(a: Seq<EntryView>, b: Seq<EntryView>, ts: Timestamp, key: Seq<u8>)
    ensures
        query(a + b, ts, key) == merge_newer(query(a, ts, key), query(b, ts, key)),
    decreases b.len(),
{
    if b.len() == 0 {
        assert(a + b =~= a);
    } else {
        lemma_query_append(a, b.drop_last(), ts, key);
        assert((a + b).drop_last() =~= a + b.drop_last());
        assert((a + b).last() == b.last());
    }
}

/// Coverage survives appending entries, on either side.
pub proof fn lemma_covered_append(a: Seq<EntryView>, b: Seq<EntryView>, key: Seq<u8>, ts: Timestamp)
    ensures
        covered(a, key, ts) ==> covered(a + b, key, ts),
        covered(b, key, ts) ==> covered(a + b, key, ts),
{
    if covered(a, key, ts) {
        let i = choose|i: int| 0 <= i < a.len() && a[i].key == key && a[i].ts >= ts;
        assert((a + b)[i].key == key && (a + b)[i].ts >= ts);
    }
    if covered(b, key, ts) {
        let i = choose|i: int| 0 <= i < b.len() && b[i].key == key && b[i].ts >= ts;
        assert((a + b)[a.len() + i].key == key && (a + b)[a.len() + i].ts >= ts);
    }
}

/// Byte-for-byte equality of two keys or values.
pub fn bytes_eq(a: &Vec<u8>, b: &Vec<u8>) -> (r: bool)
    ensures
        r == (a@ == b@),
{
    if a.len() != b.len() {
        assert(a@ != b@);
        return false;
    }
    let n = a.len();
    for i in 0..n
        invariant
            n == a.len() == b.len(),
            forall|j: int| 0 <= j < i ==> a@[j] == b@[j],
    {
        if a[i] != b[i] {
            return false;
        }
    }
    assert(a@ =~= b@);
    true
}

/// An owned copy of a byte string.
pub fn copy_bytes(a: &Vec<u8>) -> (r: Vec<u8>)
    ensures
        r@ == a@,
{
    let mut r: Vec<u8> = Vec::new();
    let n = a.len();
    for i in 0..n
        invariant
            n == a.len(),
            r@ =~= a@.take(i as int),
    {
        r.push(a[i]);
        assert(r@ =~= a@.take(i + 1));
    }
    assert(r@ =~= a@);
    r
}

/// An owned copy of one entry.
pub fn copy_entry(e: &Entry) -> (r: Entry)
    ensures
        r@ == e@,
{
    let value = match &e.value {
        Some(v) => Some(copy_bytes(v)),
        None => None,
    };
    Entry { ts: e.ts, key: copy_bytes(&e.key), value }
}

/// An owned copy of a sequence of entries.
pub fn copy_entries(v: &Vec<Entry>) -> (r: Vec<Entry>)
    ensures
        r.deep_view() == v.deep_view(),
{
    let mut r: Vec<Entry> = Vec::new();
    let n = v.len();
    for i in 0..n
        invariant
            n == v.len(),
            r@.len() == i,
            forall|j: int| 0 <= j < i ==> r@[j]@ == v.deep_view()[j],
    {
        r.push(copy_entry(&v[i]));
    }
    proof {
        assert forall|j: int| 0 <= j < n implies r.deep_view()[j] == v.deep_view()[j] by {
            assert(r.deep_view()[j] == r@[j]@);
        }
        assert(r.deep_view() =~= v.deep_view());
    }
    r
}

/// The newest entry for `key` at or below `ts` among `entries`, copied
/// out: `None` if the key has no entry there, `Some((t, value))` with
/// the entry's timestamp and value (a tombstone value reads `None`).
pub fn query_entries(entries: &Vec<Entry>, ts: Timestamp, key: &Vec<u8>) -> (r: Option<
    (Timestamp, Option<Vec<u8>>),
>)
    ensures
        match (r, query(entries.deep_view(), ts, key@)) {
            (None, None) => true,
            (Some((t, v)), Some(e)) => t == e.ts && v.deep_view() == e.value,
            _ => false,
        },
{
    let ghost all = entries.deep_view();
    let mut best: Option<(Timestamp, Option<Vec<u8>>)> = None;
    let n = entries.len();
    for i in 0..n
        invariant
            n == entries.len(),
            all == entries.deep_view(),
            match (best, query(all.take(i as int), ts, key@)) {
                (None, None) => true,
                (Some((t, v)), Some(e)) => t == e.ts && v.deep_view() == e.value,
                _ => false,
            },
    {
        let e = &entries[i];
        proof {
            assert(all.take(i + 1).drop_last() =~= all.take(i as int));
            assert(all.take(i + 1).last() == all[i as int]);
        }
        if e.ts <= ts && bytes_eq(&e.key, key) {
            let better = match &best {
                None => true,
                Some((t, _)) => *t <= e.ts,
            };
            if better {
                best = Some((e.ts, match &e.value {
                    Some(v) => Some(copy_bytes(v)),
                    None => None,
                }));
            }
        }
    }
    proof {
        assert(all.take(n as int) =~= all);
    }
    best
}

} // verus!
