//! The manifest: the authoritative record of which files belong to
//! which (shard, level), mutated only by flush commits and
//! compare-and-swap compaction commits, and the place where compaction
//! is scheduled.

use vstd::prelude::*;

use crate::error::Error;

verus! {

/// Configuration of the manifest: shard and level counts, and the
/// per-level file-count threshold past which compaction is due.
pub struct ManifestOptions {
    pub num_shards: usize,
    pub num_levels: usize,
    pub level_threshold: usize,
}

impl Default for ManifestOptions {
    /// Eight shards of four levels, compaction due at four files.
    fn default() -> (r: ManifestOptions)
        ensures
            r.num_shards == 8,
            r.num_levels == 4,
            r.level_threshold == 4,
    {
        ManifestOptions { num_shards: 8, num_levels: 4, level_threshold: 4 }
    }
}

/// All file identifiers of one shard, oldest level last, each level
/// oldest file first.
pub open spec fn all_ids(levels: Seq<Seq<u64>>) -> Seq<u64>
    decreases levels.len(),
{
    if levels.len() == 0 {
        Seq::empty()
    } else {
        all_ids(levels.drop_last()) + levels.last()
    }
}

/// Per-shard, per-level ordered lists of file identifiers.
pub struct Manifest {
    pub num_levels: usize,
    pub level_threshold: usize,
    pub shards: Vec<Vec<Vec<u64>>>,
}

impl View for Manifest {
    type V = Seq<Seq<Seq<u64>>>;

    open spec fn view(&self) -> Seq<Seq<Seq<u64>>> {
        self.shards.deep_view()
    }
}

impl Manifest {
    /// Every shard records exactly `num_levels` levels.
    pub open spec fn wf(&self) -> bool {
        forall|s: int| 0 <= s < self@.len() ==> (#[trigger] self@[s]).len() == self.num_levels
    }

    /// An empty manifest of the configured shape.
    pub fn new(opts: &ManifestOptions) -> (r: Manifest)
        requires
            opts.num_shards >= 1,
            opts.num_levels >= 1,
        ensures
            r.wf(),
            r.num_levels == opts.num_levels,
            r.level_threshold == opts.level_threshold,
            r@.len() == opts.num_shards,
            forall|s: int, l: int|
                0 <= s < r@.len() && 0 <= l < r@[s].len() ==> r@[s][l] == Seq::<u64>::empty(),
    {
        let mut shards: Vec<Vec<Vec<u64>>> = Vec::new();
        let ns = opts.num_shards;
        let nl = opts.num_levels;
        for s in 0..ns
            invariant
                shards.deep_view().len() == s,
                forall|i: int|
                    0 <= i < s ==> (#[trigger] shards.deep_view()[i]).len() == nl,
                forall|i: int, l: int|
                    0 <= i < s && 0 <= l < shards.deep_view()[i].len()
                        ==> shards.deep_view()[i][l] == Seq::<u64>::empty(),
        {
            let mut levels: Vec<Vec<u64>> = Vec::new();
            for l in 0..nl
                invariant
                    levels.deep_view().len() == l,
                    forall|j: int|
                        0 <= j < l ==> shards_level_empty(#[trigger] levels.deep_view()[j]),
            {
                let empty_ids: Vec<u64> = Vec::new();
                let ghost pre = levels.deep_view();
                levels.push(empty_ids);
                proof {
                    assert(levels.deep_view() =~~= pre.push(Seq::<u64>::empty()));
                }
            }
            let ghost pres = shards.deep_view();
            let ghost lv = levels.deep_view();
            shards.push(levels);
            proof {
                assert(shards.deep_view() =~~= pres.push(lv));
            }
        }
        Manifest { num_levels: opts.num_levels, level_threshold: opts.level_threshold, shards }
    }

    /// Atomically adds newly flushed level-0 files for a shard.
    pub fn register_flush(&mut self, shard: usize, ids: &Vec<u64>)
        requires
            old(self).wf(),
            shard < old(self)@.len(),
            old(self).num_levels >= 1,
        ensures
            final(self).wf(),
            final(self).num_levels == old(self).num_levels,
            final(self).level_threshold == old(self).level_threshold,
            final(self)@ == old(self)@.update(
                shard as int,
                old(self)@[shard as int].update(0, old(self)@[shard as int][0] + ids@),
            ),
    {
        let ghost pre = self@;
        let ghost pre_row = self@[shard as int];
        let ghost pre_l0 = self@[shard as int][0];
        proof {
            assert(pre_l0 + ids@.take(0) =~= pre_l0);
            assert(pre_row.update(0, pre_l0) =~~= pre_row);
            assert(pre.update(shard as int, pre_row.update(0, pre_l0 + ids@.take(0)))
                =~~= pre);
        }
        let n = ids.len();
        for i in 0..n
            invariant
                n == ids.len(),
                shard < self.shards@.len(),
                self.shards@.len() == pre.len(),
                self.num_levels == old(self).num_levels,
                self.level_threshold == old(self).level_threshold,
                self.shards@[shard as int]@.len() == pre_row.len() >= 1,
                self@ == pre.update(
                    shard as int,
                    pre_row.update(0, pre_l0 + ids@.take(i as int)),
                ),
        {
            let ghost snap = self@;
            self.shards[shard][0].push(ids[i]);
            proof {
                assert(self@ =~~= snap.update(
                    shard as int,
                    snap[shard as int].update(
                        0,
                        snap[shard as int][0].push(ids@[i as int]),
                    ),
                ));
                assert(pre_l0 + ids@.take(i as int) + seq![ids@[i as int]] =~= pre_l0 + ids@.take(
                    i + 1,
                ));
                assert(snap[shard as int][0].push(ids@[i as int]) =~= pre_l0 + ids@.take(i as int)
                    + seq![ids@[i as int]]);
                assert(self@ =~~= pre.update(
                    shard as int,
                    pre_row.update(0, pre_l0 + ids@.take(i + 1)),
                ));
            }
        }
        proof {
            assert(ids@.take(n as int) =~= ids@);
        }
    }

    /// An owned copy of all file identifiers of a shard, newest level
    /// first within the flattening order.
    pub fn shard_file_ids(&self, shard: usize) -> (r: Vec<u64>)
        requires
            shard < self@.len(),
        ensures
            r@ == all_ids(self@[shard as int]),
    {
        let ghost row = self@[shard as int];
        let mut r: Vec<u64> = Vec::new();
        let nl = self.shards[shard].len();
        proof {
            assert(row.len() == nl);
        }
        for l in 0..nl
            invariant
                shard < self.shards@.len(),
                row == self@[shard as int],
                nl == row.len(),
                nl == self.shards@[shard as int]@.len(),
                r@ == all_ids(row.take(l as int)),
        {
            let ids = &self.shards[shard][l];
            proof {
                assert(ids@ == row[l as int]);
                assert(row.take(l + 1).drop_last() =~= row.take(l as int));
                assert(row.take(l + 1).last() == row[l as int]);
            }
            let m = ids.len();
            let ghost base = r@;
            for k in 0..m
                invariant
                    m == ids.len(),
                    r@ == base + ids@.take(k as int),
            {
                r.push(ids[k]);
                proof {
                    assert(base + ids@.take(k as int) + seq![ids@[k as int]] =~= base + ids@.take(
                        k + 1,
                    ));
                }
            }
            proof {
                assert(ids@.take(m as int) =~= ids@);
                assert(r@ == all_ids(row.take(l + 1)));
            }
        }
        proof {
            assert(row.take(nl as int) =~= row);
        }
        r
    }

    /// Whether a shard's level has reached the file-count threshold at
    /// which compaction is due.
    pub fn should_compact(&self, shard: usize, level: usize) -> (r: bool)
        requires
            shard < self@.len(),
            level < self@[shard as int].len(),
        ensures
            r == (self@[shard as int][level as int].len() >= self.level_threshold),
    {
        self.shards[shard][level].len() >= self.level_threshold
    }

    /// The level of a shard most in need of compaction: among the
    /// levels at or past the threshold, the one with the most files
    /// (with a uniform per-level threshold, the largest overflow
    /// ratio), ties broken toward the newest level; `None` when no
    /// level has reached the threshold.
    pub fn pick_compaction_level(&self, shard: usize) -> (r: Option<usize>)
        requires
            shard < self@.len(),
        ensures
            match r {
                Some(l) => {
                    &&& l < self@[shard as int].len()
                    &&& self@[shard as int][l as int].len() >= self.level_threshold
                    &&& forall|l2: int|
                        0 <= l2 < self@[shard as int].len()
                            ==> (#[trigger] self@[shard as int][l2]).len()
                            <= self@[shard as int][l as int].len()
                    &&& forall|l2: int|
                        0 <= l2 < l ==> (#[trigger] self@[shard as int][l2]).len()
                            < self@[shard as int][l as int].len()
                },
                None => forall|l2: int|
                    0 <= l2 < self@[shard as int].len()
                        ==> (#[trigger] self@[shard as int][l2]).len() < self.level_threshold,
            },
    {
        let ghost row = self@[shard as int];
        let nl = self.shards[shard].len();
        let mut best: Option<usize> = None;
        let mut best_len: usize = 0;
        for l in 0..nl
            invariant
                shard < self.shards@.len(),
                row == self@[shard as int],
                nl == row.len(),
                nl == self.shards@[shard as int]@.len(),
                match best {
                    Some(b) => {
                        &&& b < l
                        &&& best_len == row[b as int].len()
                        &&& best_len >= self.level_threshold
                        &&& forall|l2: int|
                            0 <= l2 < l ==> (#[trigger] row[l2]).len() <= best_len
                        &&& forall|l2: int|
                            0 <= l2 < b ==> (#[trigger] row[l2]).len() < best_len
                    },
                    None => forall|l2: int|
                        0 <= l2 < l ==> (#[trigger] row[l2]).len() < self.level_threshold,
                },
                best is None ==> best_len == 0,
        {
            let len = self.shards[shard][l].len();
            proof {
                assert(row[l as int].len() == len);
            }
            let better = match best {
                None => len >= self.level_threshold,
                Some(_) => len > best_len,
            };
            if better {
                best = Some(l);
                best_len = len;
            }
        }
        best
    }

    /// Compare-and-swap commit of a whole-shard compaction: succeeds
    /// exactly when `inputs` still matches the shard's current file
    /// set, in which case all levels are emptied and the single output
    /// file becomes the oldest level's content; otherwise the manifest
    /// is unchanged and the caller must recompute its plan.
    pub fn register_compaction(&mut self, shard: usize, inputs: &Vec<u64>, output: u64) -> (r:
        Result<(), Error>)
        requires
            old(self).wf(),
            shard < old(self)@.len(),
            old(self).num_levels >= 1,
        ensures
            final(self).wf(),
            final(self).num_levels == old(self).num_levels,
            final(self).level_threshold == old(self).level_threshold,
            match r {
                Ok(_) => {
                    &&& inputs@ == all_ids(old(self)@[shard as int])
                    &&& final(self)@ == old(self)@.update(
                        shard as int,
                        Seq::new(
                            old(self).num_levels as nat,
                            |l: int|
                                if l == old(self).num_levels - 1 {
                                    seq![output]
                                } else {
                                    Seq::<u64>::empty()
                                },
                        ),
                    )
                },
                Err(e) => {
                    &&& e is Conflict
                    &&& inputs@ != all_ids(old(self)@[shard as int])
                    &&& final(self)@ == old(self)@
                },
            },
    {
        let current = self.shard_file_ids(shard);
        if !ids_eq(inputs, &current) {
            return Err(Error::Conflict);
        }
        let nl = self.num_levels;
        let mut levels: Vec<Vec<u64>> = Vec::new();
        for l in 0..nl - 1
            invariant
                levels.deep_view().len() == l,
                forall|j: int|
                    0 <= j < l ==> shards_level_empty(#[trigger] levels.deep_view()[j]),
        {
            let empty_ids: Vec<u64> = Vec::new();
            let ghost pre = levels.deep_view();
            levels.push(empty_ids);
            proof {
                assert(levels.deep_view() =~~= pre.push(Seq::<u64>::empty()));
            }
        }
        let mut last: Vec<u64> = Vec::new();
        last.push(output);
        let ghost pre = levels.deep_view();
        levels.push(last);
        proof {
            assert(levels.deep_view() =~~= pre.push(seq![output]));
        }
        let ghost prem = self@;
        let ghost lv = levels.deep_view();
        self.shards.set(shard, levels);
        proof {
            assert(self@ =~~= prem.update(shard as int, lv));
            assert(lv =~~= Seq::new(
                self.num_levels as nat,
                |l: int|
                    if l == self.num_levels - 1 {
                        seq![output]
                    } else {
                        Seq::<u64>::empty()
                    },
            ));
        }
        Ok(())
    }
}

/// Whether a level's identifier list is empty.
pub open spec fn shards_level_empty(ids: Seq<u64>) -> bool {
    ids == Seq::<u64>::empty()
}

/// Element-for-element equality of two identifier lists.
pub fn ids_eq(a: &Vec<u64>, b: &Vec<u64>) -> (r: bool)
    ensures
        r == (a@ == b@),
{
    if a.len() != b.len() {
        assert(a@ != b@);
        return false;
    }
    let n = a.len();
    for i in 0..n
        invariant
            n == a.len() == b.len(),
            forall|j: int| 0 <= j < i ==> a@[j] == b@[j],
    {
        if a[i] != b[i] {
            return false;
        }
    }
    assert(a@ =~= b@);
    true
}

} // verus!
