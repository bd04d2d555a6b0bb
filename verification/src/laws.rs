//! Engine-wide laws, stated over the mathematical model that the
//! components' contracts share.

use vstd::prelude::*;

use crate::entry::{
    has_key, lemma_query_append, lemma_query_props, lemma_query_push, newest, query, EntryView,
    Timestamp,
};

verus! {

/// The newest completed write wins: after a write strictly newer than
/// everything stored, a lookup for its key at or past its timestamp
/// returns exactly that write, whatever was stored before.
pub proof fn lemma_latest_put_wins(s: Seq<EntryView>, e: EntryView, ts: Timestamp)
    requires
        forall|i: int| 0 <= i < s.len() ==> (#[trigger] s[i]).ts < e.ts,
        e.ts <= ts,
    ensures
        query(s.push(e), ts, e.key) == Some(e),
{
    lemma_query_push(s, e, ts, e.key);
    lemma_query_props(s, ts, e.key);
    match query(s, ts, e.key) {
        None => {}
        Some(p) => {
            let w = choose|w: int| 0 <= w < s.len() && s[w] == p;
            assert(p.ts < e.ts);
        }
    }
}

/// The flush round trip: when a memtable snapshot, all of whose
/// writes are newer than everything already persisted, is appended to
/// the persisted entries, every key the snapshot holds reads exactly
/// as it read from the snapshot alone.
pub proof fn lemma_flush_round_trip(older: Seq<EntryView>, snap: Seq<EntryView>, key: Seq<u8>)
    requires
        forall|i: int, j: int|
            0 <= i < older.len() && 0 <= j < snap.len() ==> (#[trigger] older[i]).ts < (
            #[trigger] snap[j]).ts,
        has_key(snap, key),
    ensures
        newest(older + snap, key) == newest(snap, key),
{
    lemma_query_append(older, snap, u64::MAX, key);
    lemma_query_props(older, u64::MAX, key);
    lemma_query_props(snap, u64::MAX, key);
    let w = choose|w: int| 0 <= w < snap.len() && snap[w].key == key;
    assert(snap[w].key == key && snap[w].ts <= u64::MAX);
    match (newest(older, key), newest(snap, key)) {
        (Some(a), Some(b)) => {
            let wa = choose|i: int| 0 <= i < older.len() && older[i] == a;
            let wb = choose|i: int| 0 <= i < snap.len() && snap[i] == b;
            assert(a.ts < b.ts);
        }
        (None, Some(_)) => {}
        (_, None) => {
            assert(false);
        }
    }
}

} // verus!
