//! The compaction merge pass: given the entries of a set of input
//! files, keep for each key only the newest entry, and drop tombstones
//! once no still-possible read could need them.

use vstd::prelude::*;

use crate::entry::{
    bytes_eq, copy_entry, covered, covers, deleted_since, has_key, merge_newer, newest,
    lemma_query_props, lemma_query_push, Entry, EntryView,
};

verus! {

/// What a compaction output is, relative to its input entries:
/// every output entry is the newest input entry for its key; no key
/// appears twice; and a key of the input appears in the output exactly
/// unless its newest entry is a tombstone and tombstones are dropped.
pub open spec fn is_compaction_of(
    inp: Seq<EntryView>,
    out: Seq<EntryView>,
    drop_tombstones: bool,
) -> bool {
    &&& forall|i: int|
        0 <= i < out.len() ==> newest(inp, #[trigger] out[i].key) == Some(out[i])
    &&& forall|i: int, j: int| 0 <= i < j < out.len() ==> out[i].key != out[j].key
    &&& drop_tombstones ==> forall|i: int| 0 <= i < out.len() ==> (#[trigger] out[i].value) is Some
    &&& forall|key: Seq<u8>|
        match #[trigger] newest(inp, key) {
            Some(e) => if drop_tombstones && e.value is None {
                !has_key(out, key)
            } else {
                has_key(out, key)
            },
            None => !has_key(out, key),
        }
}

/// Index of some entry for `key`, if one is present.
fn find_key(out: &Vec<Entry>, key: &Vec<u8>) -> (r: Option<usize>)
    ensures
        match r {
            Some(j) => j < out.deep_view().len() && out.deep_view()[j as int].key == key@,
            None => forall|m: int|
                0 <= m < out.deep_view().len() ==> out.deep_view()[m].key != key@,
        },
{
    let n = out.len();
    for j in 0..n
        invariant
            n == out.len(),
            forall|m: int| 0 <= m < j ==> out.deep_view()[m].key != key@,
    {
        if bytes_eq(&out[j].key, key) {
            assert(out.deep_view()[j as int].key == key@);
            return Some(j);
        }
        assert(out.deep_view()[j as int].key != key@);
    }
    None
}

/// Merges the given entries: one entry per key, the newest one, with
/// tombstones dropped when `drop_tombstones` is set. Re-running the
/// pass on the same input gives a logically identical mapping (see
/// `lemma_compaction_idempotent`); it never mutates its input.
pub fn compact_entries(inp: &Vec<Entry>, drop_tombstones: bool) -> (r: Vec<Entry>)
    ensures
        is_compaction_of(inp.deep_view(), r.deep_view(), drop_tombstones),
{
    let ghost all = inp.deep_view();
    let mut out: Vec<Entry> = Vec::new();
    let n = inp.len();
    for i in 0..n
        invariant
            n == inp.len(),
            all == inp.deep_view(),
            forall|m: int|
                0 <= m < out.deep_view().len() ==> newest(
                    all.take(i as int),
                    #[trigger] out.deep_view()[m].key,
                ) == Some(out.deep_view()[m]),
            forall|m1: int, m2: int|
                0 <= m1 < m2 < out.deep_view().len() ==> out.deep_view()[m1].key
                    != out.deep_view()[m2].key,
            forall|j: int| 0 <= j < i ==> has_key(out.deep_view(), #[trigger] all[j].key),
    {
        let e = copy_entry(&inp[i]);
        let ghost ev = all[i as int];
        proof {
            assert(e@ == ev);
            assert(all.take(i + 1).drop_last() =~= all.take(i as int));
            assert(all.take(i + 1).last() == ev);
            assert forall|k: Seq<u8>| newest(all.take(i + 1), k) == (if ev.key == k {
                merge_newer(newest(all.take(i as int), k), Some(ev))
            } else {
                newest(all.take(i as int), k)
            }) by {
                lemma_query_push(all.take(i as int), ev, u64::MAX, k);
                assert(all.take(i as int).push(ev) =~= all.take(i + 1));
            }
        }
        match find_key(&out, &inp[i].key) {
            None => {
                proof {
                    lemma_query_props(all.take(i as int), u64::MAX, ev.key);
                    if newest(all.take(i as int), ev.key) is Some {
                        let w = choose|w: int|
                            0 <= w < all.take(i as int).len() && all.take(i as int)[w]
                                == newest(all.take(i as int), ev.key)->Some_0;
                        assert(has_key(out.deep_view(), all[w].key));
                    }
                    assert(newest(all.take(i as int), ev.key) is None);
                }
                let ghost pre = out.deep_view();
                out.push(e);
                proof {
                    assert(out.deep_view() =~= pre.push(ev));
                    assert forall|j: int| 0 <= j < i + 1 implies has_key(
                        out.deep_view(),
                        #[trigger] all[j].key,
                    ) by {
                        if j < i {
                            let w = choose|w: int|
                                0 <= w < pre.len() && pre[w].key == all[j].key;
                            assert(out.deep_view()[w].key == all[j].key);
                        } else {
                            assert(out.deep_view()[pre.len() as int].key == all[j].key);
                        }
                    }
                }
            }
            Some(j) => {
                let ghost pre = out.deep_view();
                assert(pre[j as int].key == ev.key);
                if out[j].ts <= inp[i].ts {
                    out.set(j, e);
                    proof {
                        assert(out.deep_view() =~= pre.update(j as int, ev));
                        assert forall|jj: int| 0 <= jj < i + 1 implies has_key(
                            out.deep_view(),
                            #[trigger] all[jj].key,
                        ) by {
                            if jj < i {
                                let w = choose|w: int|
                                    0 <= w < pre.len() && pre[w].key == all[jj].key;
                                if w == j {
                                    assert(out.deep_view()[j as int].key == all[jj].key);
                                } else {
                                    assert(out.deep_view()[w].key == all[jj].key);
                                }
                            } else {
                                assert(out.deep_view()[j as int].key == all[jj].key);
                            }
                        }
                    }
                } else {
                    proof {
                        assert(has_key(out.deep_view(), ev.key)) by {
                            assert(out.deep_view()[j as int].key == ev.key);
                        }
                    }
                }
            }
        }
    }
    proof {
        assert(all.take(n as int) =~= all);
    }
    if !drop_tombstones {
        proof {
            assert forall|key: Seq<u8>|
                match #[trigger] newest(all, key) {
                    Some(e) => has_key(out.deep_view(), key),
                    None => !has_key(out.deep_view(), key),
                } by {
                lemma_query_props(all, u64::MAX, key);
                match newest(all, key) {
                    Some(e) => {
                        let w = choose|w: int| 0 <= w < all.len() && all[w] == e;
                        assert(has_key(out.deep_view(), all[w].key));
                    }
                    None => {
                        if has_key(out.deep_view(), key) {
                            let m = choose|m: int|
                                0 <= m < out.deep_view().len() && out.deep_view()[m].key == key;
                            assert(newest(all, out.deep_view()[m].key) == Some(
                                out.deep_view()[m],
                            ));
                        }
                    }
                }
            }
        }
        return out;
    }
    let ghost od = out.deep_view();
    let mut res: Vec<Entry> = Vec::new();
    let m = out.len();
    for i in 0..m
        invariant
            m == out.len(),
            od == out.deep_view(),
            forall|p: int|
                0 <= p < od.len() ==> newest(all, #[trigger] od[p].key) == Some(od[p]),
            forall|p1: int, p2: int| 0 <= p1 < p2 < od.len() ==> od[p1].key != od[p2].key,
            forall|j: int| 0 <= j < all.len() ==> has_key(od, #[trigger] all[j].key),
            forall|p: int|
                0 <= p < res.deep_view().len() ==> newest(
                    all,
                    #[trigger] res.deep_view()[p].key,
                ) == Some(res.deep_view()[p]),
            forall|p: int|
                0 <= p < res.deep_view().len() ==> (#[trigger] res.deep_view()[p].value) is Some,
            forall|p: int, q: int|
                0 <= p < res.deep_view().len() && i <= q < od.len() ==> (
                #[trigger] res.deep_view()[p].key) != (#[trigger] od[q].key),
            forall|p1: int, p2: int|
                0 <= p1 < p2 < res.deep_view().len() ==> res.deep_view()[p1].key
                    != res.deep_view()[p2].key,
            forall|q: int|
                0 <= q < i && (#[trigger] od[q].value) is Some ==> has_key(
                    res.deep_view(),
                    od[q].key,
                ),
    {
        let keep = out[i].value.is_some();
        if keep {
            let e = copy_entry(&out[i]);
            let ghost pre = res.deep_view();
            res.push(e);
            proof {
                assert(res.deep_view() =~= pre.push(od[i as int]));
                assert forall|q: int|
                    0 <= q < i + 1 && (#[trigger] od[q].value) is Some implies has_key(
                    res.deep_view(),
                    od[q].key,
                ) by {
                    if q < i {
                        let w = choose|w: int| 0 <= w < pre.len() && pre[w].key == od[q].key;
                        assert(res.deep_view()[w].key == od[q].key);
                    } else {
                        assert(res.deep_view()[pre.len() as int].key == od[q].key);
                    }
                }
            }
        }
    }
    proof {
        let rd = res.deep_view();
        assert forall|key: Seq<u8>|
            match #[trigger] newest(all, key) {
                Some(e) => if e.value is None {
                    !has_key(rd, key)
                } else {
                    has_key(rd, key)
                },
                None => !has_key(rd, key),
            } by {
            lemma_query_props(all, u64::MAX, key);
            match newest(all, key) {
                Some(e) => {
                    let w = choose|w: int| 0 <= w < all.len() && all[w] == e;
                    assert(has_key(od, all[w].key));
                    let q = choose|q: int| 0 <= q < od.len() && od[q].key == key;
                    assert(newest(all, od[q].key) == Some(od[q]));
                    assert(od[q] == e);
                    if e.value is None {
                        if has_key(rd, key) {
                            let p = choose|p: int| 0 <= p < rd.len() && rd[p].key == key;
                            assert(newest(all, rd[p].key) == Some(rd[p]));
                            assert(rd[p] == e);
                        }
                    } else {
                        assert(has_key(rd, od[q].key));
                    }
                }
                None => {
                    if has_key(rd, key) {
                        let p = choose|p: int| 0 <= p < rd.len() && rd[p].key == key;
                        assert(newest(all, rd[p].key) == Some(rd[p]));
                    }
                }
            }
        }
    }
    res
}

/// A tombstone-collecting compaction never un-covers a surviving key:
/// every pair covered by the input stays covered by the output, except
/// keys whose entries a newest tombstone superseded, which vanish
/// entirely.
pub proof fn lemma_compaction_covers(inp: Seq<EntryView>, out: Seq<EntryView>)
    requires
        is_compaction_of(inp, out, true),
    ensures
        covers(inp, out),
{
    assert forall|key: Seq<u8>, ts: u64| covered(inp, key, ts) implies covered(out, key, ts)
        || (newest(out, key) is None && deleted_since(inp, key, ts)) by {
        let w = choose|w: int| 0 <= w < inp.len() && inp[w].key == key && inp[w].ts >= ts;
        lemma_query_props(inp, u64::MAX, key);
        let e = newest(inp, key)->Some_0;
        assert(inp[w].ts <= e.ts);
        if e.value is None {
            lemma_query_props(out, u64::MAX, key);
            if newest(out, key) is Some {
                let v = choose|v: int|
                    0 <= v < out.len() && out[v] == newest(out, key)->Some_0;
                assert(has_key(out, key));
            }
            assert(newest(out, key) is None);
            let wi = choose|wi: int| 0 <= wi < inp.len() && inp[wi] == e;
            assert(inp[wi].key == key && inp[wi].ts >= ts && inp[wi].value is None);
        } else {
            let q = choose|q: int| 0 <= q < out.len() && out[q].key == key;
            assert(newest(inp, out[q].key) == Some(out[q]));
            assert(out[q] == e);
            assert(out[q].ts >= ts);
        }
    }
}

/// Compacting a compaction's own output again changes nothing
/// logically: the newest entry per key, and hence the whole visible
/// mapping, is the same.
pub proof fn lemma_compaction_idempotent(
    inp: Seq<EntryView>,
    mid: Seq<EntryView>,
    out: Seq<EntryView>,
    drop_tombstones: bool,
)
    requires
        is_compaction_of(inp, mid, drop_tombstones),
        is_compaction_of(mid, out, drop_tombstones),
    ensures
        forall|key: Seq<u8>| #[trigger] newest(out, key) == newest(mid, key),
{
    assert forall|key: Seq<u8>| #[trigger] newest(out, key) == newest(mid, key) by {
        lemma_query_props(mid, u64::MAX, key);
        lemma_query_props(out, u64::MAX, key);
        match newest(mid, key) {
            None => {
                if has_key(mid, key) {
                    let w = choose|w: int| 0 <= w < mid.len() && mid[w].key == key;
                }
                assert(!has_key(out, key));
                if newest(out, key) is Some {
                    let v = choose|v: int|
                        0 <= v < out.len() && out[v] == newest(out, key)->Some_0;
                    assert(has_key(out, key));
                }
            }
            Some(e) => {
                let w = choose|w: int| 0 <= w < mid.len() && mid[w] == e;
                if drop_tombstones {
                    assert(mid[w].value is Some);
                }
                assert(has_key(out, key));
                let q = choose|q: int| 0 <= q < out.len() && out[q].key == key;
                assert(newest(mid, out[q].key) == Some(out[q]));
                assert(out[q] == e);
                match newest(out, key) {
                    None => {
                        assert(false);
                    }
                    Some(f) => {
                        let v = choose|v: int| 0 <= v < out.len() && out[v] == f;
                        if v != q {
                            assert(out[v].key != out[q].key || out[q].key != out[v].key);
                        }
                        assert(f == out[q]);
                    }
                }
            }
        }
    }
}

} // verus!
