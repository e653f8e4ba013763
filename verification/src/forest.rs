//! The ensemble: a fixed set of random-cut trees over one shared,
//! reference-counted point store, updated online by per-tree time-decayed
//! reservoir sampling, with optional internal shingling of the input
//! stream.
//!
//! `score` is the read path: it never mutates anything and is a pure
//! function of the forest's visible state. `update` is the write path: it
//! advances `entries_seen`, feeds the (possibly shingled) point to every
//! tree's sampler, and keeps the point store within its hard bound.

use vstd::prelude::*;
use vstd::arithmetic::div_mod::{lemma_div_is_ordered, lemma_div_pos_is_pos};
use crate::{RcfError, SCALE};
use crate::rng::{rng_next_state, rng_output};
use crate::store::{PointStore, clone_point};
use crate::sampler::{Sampler, Decision, accept_threshold, priority_of};
use crate::tree::{Tree, DIM_MAX};

verus! {

/// Largest supported ensemble size.
pub const TREES_MAX: usize = 0x400;

/// Construction-time hyperparameters, immutable for the life of a forest.
/// Fractions (`time_decay`, `initial_accept_fraction`,
/// `bounding_box_cache_fraction`) are fixed-point values scaled by
/// [`SCALE`].
///
/// `parallel_enabled` is accepted and recorded: the trees share no mutable
/// state except the handle-addressed point store, so a driver may fan
/// updates out per tree; this crate drives them sequentially, which is
/// what the determinism guarantee is stated for. Bounding boxes are
/// always kept at the nodes (the cache fraction is a validated
/// memory/speed preference, not correctness-affecting).
#[derive(Clone, Copy, PartialEq, Eq, Structural, Debug)]
pub struct ForestConfig {
    pub base_dimension: usize,
    pub shingle_size: usize,
    pub tree_capacity: usize,
    pub number_of_trees: usize,
    pub random_seed: u64,
    pub store_attributes: bool,
    pub parallel_enabled: bool,
    pub internal_shingling: bool,
    pub internal_rotation: bool,
    pub time_decay: u64,
    pub initial_accept_fraction: u64,
    pub bounding_box_cache_fraction: u64,
}

/// The dimension of the points the trees hold.
pub open spec fn full_dim(c: ForestConfig) -> int {
    c.base_dimension * c.shingle_size
}

/// The dimension `score` and `update` expect of their argument: the base
/// dimension when the forest shingles internally, the full (pre-shingled)
/// dimension otherwise.
pub open spec fn input_dim(c: ForestConfig) -> int {
    if c.internal_shingling {
        c.base_dimension as int
    } else {
        full_dim(c)
    }
}

/// The length of a full shingle history buffer.
pub open spec fn need_of(c: ForestConfig) -> int {
    (c.shingle_size - 1) * c.base_dimension
}

/// The hard bound on the point store's size.
pub open spec fn store_bound(c: ForestConfig) -> int {
    c.tree_capacity * c.number_of_trees + 1
}

/// The hyperparameter combinations the builder accepts.
pub open spec fn config_valid(c: ForestConfig) -> bool {
    &&& 1 <= c.base_dimension
    &&& 1 <= c.shingle_size
    &&& full_dim(c) <= DIM_MAX
    &&& 1 <= c.tree_capacity <= DIM_MAX
    &&& 1 <= c.number_of_trees <= TREES_MAX
    &&& c.time_decay <= SCALE
    &&& 1 <= c.initial_accept_fraction <= SCALE
    &&& c.bounding_box_cache_fraction <= SCALE
}

proof fn lemma_dims(c: ForestConfig)
    requires
        config_valid(c),
    ensures
        0 <= need_of(c),
        need_of(c) + c.base_dimension == full_dim(c),
        need_of(c) < full_dim(c) <= DIM_MAX,
        1 <= full_dim(c),
        0 <= store_bound(c) <= 0x40000001,
{
    assert((c.shingle_size - 1) * c.base_dimension + c.base_dimension == c.shingle_size
        * c.base_dimension && (c.shingle_size - 1) * c.base_dimension >= 0) by (nonlinear_arith)
        requires c.shingle_size >= 1, c.base_dimension >= 1;
    assert(c.base_dimension * c.shingle_size == c.shingle_size * c.base_dimension)
        by (nonlinear_arith);
    assert(c.tree_capacity * c.number_of_trees <= 0x100000 * 0x400) by (nonlinear_arith)
        requires 1 <= c.tree_capacity <= 0x100000, 1 <= c.number_of_trees <= 0x400;
    assert(c.tree_capacity * c.number_of_trees >= 0) by (nonlinear_arith)
        requires c.tree_capacity >= 1, c.number_of_trees >= 1;
}

/// How many coordinates of shingle history are held after `entries`
/// updates: the stream fills the buffer one base vector at a time until
/// `shingle_size - 1` vectors are retained.
pub open spec fn shingle_fill(c: ForestConfig, entries: u64) -> int {
    if entries < c.shingle_size - 1 {
        entries * c.base_dimension
    } else {
        need_of(c)
    }
}

/// The shingle history after one more base vector `p` arrives: the window
/// keeps filling until `shingle_size - 1` base vectors are retained, then
/// slides, dropping the oldest. A pure transformation with no randomness.
pub open spec fn shingle_after(c: ForestConfig, buf: Seq<i64>, p: Seq<i64>) -> Seq<i64> {
    if buf.len() < need_of(c) {
        buf + p
    } else {
        (buf + p).subrange(c.base_dimension as int, (buf + p).len() as int)
    }
}

/// A sequence rotated left by `k` places.
pub open spec fn rotate_seq(s: Seq<i64>, k: int) -> Seq<i64> {
    s.subrange(k, s.len() as int) + s.subrange(0, k)
}

/// Sum of the trees' anomaly contributions for query `q`.
pub open spec fn trees_sum(ts: Seq<Tree>, q: Seq<i64>) -> int
    decreases ts.len(),
{
    if ts.len() == 0 {
        0
    } else {
        trees_sum(ts.drop_last(), q) + ts.last().score_spec(q)
    }
}

proof fn lemma_trees_sum_take(ts: Seq<Tree>, q: Seq<i64>, i: int)
    requires
        0 <= i < ts.len(),
    ensures
        trees_sum(ts.take(i + 1), q) == trees_sum(ts.take(i), q) + ts[i].score_spec(q),
{
    assert(ts.take(i + 1).drop_last() =~= ts.take(i));
    assert(ts.take(i + 1).last() == ts[i]);
}

proof fn lemma_trees_sum_bound(ts: Seq<Tree>, q: Seq<i64>)
    requires
        forall|i: int| 0 <= i < ts.len() ==> (#[trigger] ts[i]).wf(),
    ensures
        0 <= trees_sum(ts, q) <= ts.len() * (SCALE as int),
    decreases ts.len(),
{
    if ts.len() == 0 {
    } else {
        lemma_trees_sum_bound(ts.drop_last(), q);
        match ts.last().root {
            Some(r) => {
                crate::tree::lemma_score_bound(*r, q, 0, ts.last().dim as nat);
            },
            None => {},
        }
        assert((ts.len() as int) * (SCALE as int) == (ts.len() - 1) * (SCALE as int) + (
        SCALE as int)) by (nonlinear_arith);
    }
}

proof fn lemma_trees_sum_empty(ts: Seq<Tree>, q: Seq<i64>)
    requires
        forall|i: int| 0 <= i < ts.len() ==> (#[trigger] ts[i]).root is None,
    ensures
        trees_sum(ts, q) == 0,
    decreases ts.len(),
{
    if ts.len() > 0 {
        lemma_trees_sum_empty(ts.drop_last(), q);
    }
}

/// Whether, at the start of an update's ensemble pass over forest state
/// `f`, the first tree's filling reservoir admits the arrival: the
/// admission draw lands under the ramp threshold. A deterministic
/// function of the forest value alone.
pub open spec fn first_tree_admits_filling(f: RcfForest) -> bool {
    &&& f.samplers@[0].slots@.len() < f.config.tree_capacity
    &&& rng_output(rng_next_state(f.rng)) % SCALE < accept_threshold(
        f.config.initial_accept_fraction,
        f.samplers@[0].slots@.len() as int,
        f.config.tree_capacity as int,
    )
}

/// Whether, at the start of an update's ensemble pass over forest state
/// `f`, the first tree's full reservoir admits the arrival: its priority
/// beats some resident (hence the minimum). A deterministic function of
/// the forest value alone.
pub open spec fn first_tree_admits_full(f: RcfForest) -> bool {
    &&& f.samplers@[0].slots@.len() >= f.config.tree_capacity
    &&& exists|k: int|
        0 <= k < f.samplers@[0].slots@.len() && priority_of(
            f.config.time_decay,
            (f.entries_seen + 1) as u64,
            rng_output(f.rng),
        ) > f.samplers@[0].slots@[k].priority
}

/// The streaming random-cut forest.
pub struct RcfForest {
    pub config: ForestConfig,
    pub rng: u64,
    pub entries_seen: u64,
    pub store: PointStore,
    pub trees: Vec<Tree>,
    pub samplers: Vec<Sampler>,
    pub shingle: Vec<i64>,
}

impl RcfForest {
    /// The forest's invariant: a valid configuration; a well-formed store
    /// with the full dimension and the hard capacity bound; exactly
    /// `number_of_trees` well-formed trees and samplers; a shingle buffer
    /// holding exactly the retained history; and a forest that has seen
    /// nothing holds nothing.
    pub open spec fn wf(self) -> bool {
        &&& config_valid(self.config)
        &&& self.store.wf()
        &&& self.store.dim == full_dim(self.config)
        &&& self.store.bound == store_bound(self.config)
        &&& self.trees@.len() == self.config.number_of_trees
        &&& forall|i: int|
            0 <= i < self.trees@.len() ==> (#[trigger] self.trees@[i]).wf() && self.trees@[i].dim
                == full_dim(self.config)
        &&& self.samplers@.len() == self.config.number_of_trees
        &&& forall|i: int|
            0 <= i < self.samplers@.len() ==> (#[trigger] self.samplers@[i]).wf()
                && self.samplers@[i].capacity == self.config.tree_capacity
        &&& if self.config.internal_shingling {
            self.shingle@.len() == shingle_fill(self.config, self.entries_seen)
        } else {
            self.shingle@.len() == 0
        }
        &&& (self.entries_seen == 0 ==> forall|i: int|
            0 <= i < self.trees@.len() ==> (#[trigger] self.trees@[i]).root is None)
    }

    /// Whether enough history exists to form a full point for scoring.
    pub open spec fn ready(self) -> bool {
        !self.config.internal_shingling || self.shingle@.len() == need_of(self.config)
    }

    /// The full-dimension query the trees see for input `p`: the retained
    /// history extended by `p`, cyclically rotated when internal rotation
    /// is on.
    pub open spec fn candidate(self, p: Seq<i64>) -> Seq<i64> {
        let base = if self.config.internal_shingling {
            self.shingle@ + p
        } else {
            p
        };
        if self.config.internal_shingling && self.config.internal_rotation {
            rotate_seq(base, rotation_shift(self.config, self.entries_seen))
        } else {
            base
        }
    }

    /// The score of input `p` against the current state: the mean of the
    /// trees' contributions, or the sentinel 0 while the shingle buffer is
    /// still filling (and in particular on a fresh forest).
    pub open spec fn score_spec(self, p: Seq<i64>) -> int {
        if !self.ready() {
            0
        } else {
            trees_sum(self.trees@, self.candidate(p)) / (self.config.number_of_trees as int)
        }
    }

    /// The number of points fed to `update` so far.
    pub fn entries_seen(&self) -> (r: u64)
        ensures
            r == self.entries_seen,
    {
        self.entries_seen
    }

    /// The number of live (deduplicated, still referenced) points in the
    /// shared store.
    pub fn point_store_size(&self) -> (r: usize)
        requires
            self.wf(),
        ensures
            r == self.store.size(),
            r <= store_bound(self.config),
    {
        self.store.live
    }

    /// A deterministic estimate of the memory the forest occupies, in
    /// bytes: the store's slots plus each tree's capacity at full
    /// occupancy.
    pub fn size(&self) -> (r: u64)
        requires
            self.wf(),
        ensures
            r == approx_size(self.config, self.store.slots@.len() as int),
    {
        proof {
            lemma_dims(self.config);
            assert((self.store.slots@.len() as int) * (full_dim(self.config) * 8 + 32)
                <= 0x40000001 * (0x100000 * 8 + 32)) by (nonlinear_arith)
                requires
                    0 <= self.store.slots@.len() <= 0x40000001,
                    0 <= full_dim(self.config) <= 0x100000;
            assert((self.config.tree_capacity * self.config.number_of_trees) * (full_dim(
                self.config,
            ) * 16 + 64) <= 0x40000000 * (0x100000 * 16 + 64)) by (nonlinear_arith)
                requires
                    0 <= self.config.tree_capacity * self.config.number_of_trees <= 0x40000000,
                    0 <= full_dim(self.config) <= 0x100000;
        }
        let fd: u64 = (self.config.base_dimension as u64) * (self.config.shingle_size as u64);
        let store_bytes: u64 = (self.store.slots.len() as u64) * (fd * 8 + 32);
        let tree_bytes: u64 = ((self.config.tree_capacity as u64) * (
        self.config.number_of_trees as u64)) * (fd * 16 + 64);
        64 + store_bytes + tree_bytes
    }

    /// A copy of the point a store handle names, if it is live.
    pub fn point_of(&self, h: usize) -> (r: Option<Vec<i64>>)
        requires
            self.wf(),
        ensures
            match r {
                Some(p) => self.store.live_at(h as int) && p@ == self.store.point_at(h as int),
                None => !self.store.live_at(h as int),
            },
    {
        self.store.point_of(h)
    }

    /// The leaf points of tree `i`, a structural snapshot for inspection.
    pub fn tree_point_list(&self, i: usize) -> (r: Vec<Vec<i64>>)
        requires
            self.wf(),
            i < self.trees@.len(),
        ensures
            r@.len() == self.trees@[i as int].leaf_seq().len(),
            forall|j: int| 0 <= j < r@.len() ==> r@[j]@ == self.trees@[i as int].leaf_seq()[j],
    {
        self.trees[i].point_list()
    }

    /// Scores `p` against the current state without mutating anything:
    /// the result is exactly `score_spec`, a pure function of the forest's
    /// state, so repeated calls return the identical value.
    pub fn score(&self, p: &Vec<i64>) -> (r: Result<u64, RcfError>)
        requires
            self.wf(),
        ensures
            match r {
                Ok(s) => p@.len() == input_dim(self.config) && s == self.score_spec(p@) && s
                    <= SCALE,
                Err(e) => e == RcfError::DimensionMismatch && p@.len() != input_dim(self.config),
            },
    {
        proof {
            lemma_dims(self.config);
        }
        let expected: usize = if self.config.internal_shingling {
            self.config.base_dimension
        } else {
            self.config.base_dimension * self.config.shingle_size
        };
        if p.len() != expected {
            return Err(RcfError::DimensionMismatch);
        }
        let cand = match self.make_candidate(p) {
            Some(c) => c,
            None => {
                return Ok(0);
            },
        };
        let n = self.trees.len();
        let mut sum: u64 = 0;
        let mut i: usize = 0;
        while i < n
            invariant
                self.wf(),
                n == self.trees@.len(),
                i <= n,
                cand@.len() == full_dim(self.config),
                sum == trees_sum(self.trees@.take(i as int), cand@),
                sum <= (i as int) * (SCALE as int),
            decreases n - i,
        {
            let s = self.trees[i].score(&cand);
            proof {
                lemma_trees_sum_take(self.trees@, cand@, i as int);
                assert(((i + 1) as int) * (SCALE as int) == (i as int) * (SCALE as int) + (
                SCALE as int)) by (nonlinear_arith);
            }
            sum = sum + s;
            i += 1;
        }
        proof {
            assert(self.trees@.take(n as int) =~= self.trees@);
            lemma_trees_sum_bound(self.trees@, cand@);
            lemma_div_pos_is_pos(sum as int, self.config.number_of_trees as int);
            lemma_div_is_ordered(
                sum as int,
                (n as int) * (SCALE as int),
                self.config.number_of_trees as int,
            );
            assert((n as int) * (SCALE as int) / (n as int) == SCALE) by (nonlinear_arith)
                requires n >= 1;
        }
        let result: u64 = sum / (self.config.number_of_trees as u64);
        Ok(result)
    }

    /// Builds the full-dimension query for `p`, or `None` while the
    /// shingle buffer is still filling.
    fn make_candidate(&self, p: &Vec<i64>) -> (r: Option<Vec<i64>>)
        requires
            self.wf(),
            p@.len() == input_dim(self.config),
        ensures
            match r {
                Some(c) => self.ready() && c@ == self.candidate(p@) && c@.len() == full_dim(
                    self.config,
                ),
                None => !self.ready(),
            },
    {
        proof {
            lemma_dims(self.config);
        }
        if self.config.internal_shingling {
            let need: usize = (self.config.shingle_size - 1) * self.config.base_dimension;
            if self.shingle.len() != need {
                return None;
            }
            let mut cand = clone_point(&self.shingle);
            let mut pc = clone_point(p);
            cand.append(&mut pc);
            if self.config.internal_rotation {
                let shift = rotation_shift_exec(&self.config, self.entries_seen);
                Some(rotate_exec(&cand, shift))
            } else {
                Some(cand)
            }
        } else {
            Some(clone_point(p))
        }
    }

    /// Feeds one point into the forest: advances `entries_seen` by exactly
    /// one, shingles if configured, and lets each tree's sampler decide
    /// admission and eviction. Rejects a wrong-length point with
    /// `DimensionMismatch`, leaving every part of the state untouched. The
    /// store's hard bound holds on exit in every case; exceeding it is
    /// reported as `CapacityInvariantViolation` (a defensive check, not
    /// expected to fire). The caller's timestamp is not interpreted:
    /// decay is driven by arrival order.
    pub fn update(&mut self, p: &Vec<i64>, _timestamp: u64) -> (r: Result<(), RcfError>)
        requires
            old(self).wf(),
            old(self).entries_seen < u64::MAX,
        ensures
            final(self).wf(),
            final(self).config == old(self).config,
            (r == Err::<(), RcfError>(RcfError::DimensionMismatch)) <==> p@.len() != input_dim(
                old(self).config,
            ),
            p@.len() == input_dim(old(self).config) ==> final(self).entries_seen == old(self).entries_seen + 1,
            p@.len() != input_dim(old(self).config) ==> final(self).entries_seen == old(self).entries_seen && final(self).trees@ == old(self).trees@ && final(self).samplers@
                == old(self).samplers@ && final(self).store.slots@ == old(self).store.slots@
                && final(self).shingle@ == old(self).shingle@ && final(self).rng == old(self).rng,
            final(self).store.size() <= store_bound(old(self).config),
            p@.len() == input_dim(old(self).config) && old(self).config.internal_shingling
                ==> final(self).shingle@ == shingle_after(
                old(self).config,
                old(self).shingle@,
                p@,
            ),
            p@.len() == input_dim(old(self).config) ==> forall|i: int|
                0 <= i < final(self).trees@.len() ==> (#[trigger] final(self).trees@[i]).points().subset_of(
                    old(self).trees@[i].points().insert(old(self).candidate(p@)),
                ),
            p@.len() == input_dim(old(self).config) ==> forall|i: int|
                0 <= i < final(self).trees@.len() ==> (#[trigger] final(self).trees@[i]).points()
                    == old(self).trees@[i].points() || final(self).trees@[i].points() == old(self).trees@[i].points().insert(old(self).candidate(p@)) || exists|q: Seq<i64>|
                    final(self).trees@[i].points() == old(self).trees@[i].points().insert(
                        old(self).candidate(p@),
                    ).remove(q),
            r is Ok && p@.len() == input_dim(old(self).config) && old(self).ready()
                && first_tree_admits_filling(*old(self)) ==> final(self).samplers@[0].slots@.len()
                == old(self).samplers@[0].slots@.len() + 1 && final(self).trees@[0].points().contains(old(self).candidate(p@)),
            r is Ok && p@.len() == input_dim(old(self).config) && old(self).ready()
                && first_tree_admits_full(*old(self)) ==> final(self).trees@[0].points().contains(
                old(self).candidate(p@),
            ),
            r == Err::<(), RcfError>(RcfError::CapacityInvariantViolation) ==> final(self).store.size() == store_bound(old(self).config) && !final(self).store.contains_point(
                old(self).candidate(p@),
            ),
            r is Ok || r == Err::<(), RcfError>(RcfError::DimensionMismatch) || r == Err::<(
            ), RcfError>(RcfError::CapacityInvariantViolation),
    {
        proof {
            lemma_dims(self.config);
        }
        let expected: usize = if self.config.internal_shingling {
            self.config.base_dimension
        } else {
            self.config.base_dimension * self.config.shingle_size
        };
        if p.len() != expected {
            return Err(RcfError::DimensionMismatch);
        }
        let old_entries = self.entries_seen;
        self.entries_seen = self.entries_seen + 1;
        let seq = self.entries_seen;

        // form the full-dimension point, maintaining the shingle history
        let full: Option<Vec<i64>>;
        if self.config.internal_shingling {
            let bdim = self.config.base_dimension;
            let need: usize = (self.config.shingle_size - 1) * bdim;
            if self.shingle.len() == need {
                let mut cand = clone_point(&self.shingle);
                let mut pc = clone_point(p);
                cand.append(&mut pc);
                // slide: drop the oldest base vector, retain the rest
                let total = cand.len();
                let mut ns: Vec<i64> = Vec::new();
                let mut j: usize = bdim;
                while j < total
                    invariant
                        bdim <= j <= total,
                        total == cand@.len(),
                        ns@ == cand@.subrange(bdim as int, j as int),
                    decreases total - j,
                {
                    ns.push(cand[j]);
                    proof {
                        assert(ns@ =~= cand@.subrange(bdim as int, j + 1 as int));
                    }
                    j += 1;
                }
                self.shingle = ns;
                proof {
                    assert(self.shingle@.len() == total - bdim);
                    let ghost oe = old_entries as int;
                    let ghost s1 = self.config.shingle_size - 1;
                    let ghost b = self.config.base_dimension as int;
                    if oe < s1 {
                        assert(oe * b == s1 * b);
                        assert(false) by (nonlinear_arith)
                            requires oe * b == s1 * b, b >= 1, oe < s1;
                    }
                }
                if self.config.internal_rotation {
                    let shift = rotation_shift_exec(&self.config, old_entries);
                    full = Some(rotate_exec(&cand, shift));
                } else {
                    full = Some(cand);
                }
            } else {
                let mut pc = clone_point(p);
                self.shingle.append(&mut pc);
                proof {
                    assert((old_entries as int + 1) * (self.config.base_dimension as int) == (
                    old_entries as int) * (self.config.base_dimension as int) + (
                    self.config.base_dimension as int)) by (nonlinear_arith);
                    let ghost oe = old_entries as int;
                    let ghost s1 = self.config.shingle_size - 1;
                    let ghost b = self.config.base_dimension as int;
                    if oe < s1 {
                        assert(oe * b < s1 * b) by (nonlinear_arith)
                            requires oe < s1, b >= 1;
                    }
                }
                full = None;
            }
        } else {
            full = Some(clone_point(p));
        }

        let cand = match full {
            Some(c) => c,
            None => {
                return Ok(());
            },
        };

        let n = self.trees.len();
        let mut i: usize = 0;
        proof {
            assert(cand@ == old(self).candidate(p@));
            assert forall|j: int| 0 <= j < self.trees@.len() implies (#[trigger] self.trees@[j]).points().subset_of(
                old(self).trees@[j].points().insert(old(self).candidate(p@)),
            ) by {
                assert(self.trees@[j] == old(self).trees@[j]);
            }
        }
        while i < n
            invariant
                self.wf(),
                self.config == old(self).config,
                p@.len() == input_dim(old(self).config),
                old(self).config.internal_shingling ==> self.shingle@ == shingle_after(
                    old(self).config,
                    old(self).shingle@,
                    p@,
                ),
                n == self.trees@.len(),
                n == old(self).trees@.len(),
                i <= n,
                self.entries_seen == old(self).entries_seen + 1,
                seq == self.entries_seen,
                cand@.len() == full_dim(self.config),
                cand@ == old(self).candidate(p@),
                forall|j: int|
                    0 <= j < n ==> (#[trigger] self.trees@[j]).points().subset_of(
                        old(self).trees@[j].points().insert(old(self).candidate(p@)),
                    ),
                forall|j: int|
                    0 <= j < n ==> (#[trigger] self.trees@[j]).points() == old(self).trees@[j].points() || self.trees@[j].points() == old(self).trees@[j].points().insert(old(self).candidate(p@)) || exists|q: Seq<i64>|
                        self.trees@[j].points() == old(self).trees@[j].points().insert(
                            old(self).candidate(p@),
                        ).remove(q),
                i == 0 ==> self.rng == old(self).rng,
                forall|j: int|
                    i <= j < n ==> self.trees@[j] == old(self).trees@[j] && self.samplers@[j]
                        == old(self).samplers@[j],
                i >= 1 && first_tree_admits_filling(*old(self)) ==> self.samplers@[0].slots@.len()
                    == old(self).samplers@[0].slots@.len() + 1
                    && self.trees@[0].points().contains(old(self).candidate(p@)),
                i >= 1 && first_tree_admits_full(*old(self))
                    ==> self.trees@[0].points().contains(old(self).candidate(p@)),
            decreases n - i,
        {
            proof {
                lemma_dims(self.config);
            }
            let ghost s0 = self.store;
            let h = match self.store.insert(&cand, seq) {
                Ok(h) => h,
                Err(e) => {
                    proof {
                        assert forall|h0: int| self.store.live_at(h0) implies self.store.point_at(
                            h0,
                        ) != cand@ by {
                            assert(s0.live_at(h0));
                            assert(s0.point_at(h0) == self.store.point_at(h0));
                            if s0.point_at(h0) == cand@ {
                                assert(s0.contains_point(cand@));
                            }
                        }
                        assert(!self.store.contains_point(cand@));
                    }
                    return Err(e);
                },
            };
            let ghost pre_trees = self.trees@;
            let ghost pre_samplers = self.samplers@;
            let mut t = self.trees.remove(i);
            let mut s = self.samplers.remove(i);
            let mut r = self.rng;
            let d = s.accept(h, seq, self.config.time_decay, self.config.initial_accept_fraction, &mut r);
            match d {
                Decision::Accepted => {
                    t.insert(&cand, &mut r);
                },
                Decision::AcceptedWithEviction(e) => {
                    t.insert(&cand, &mut r);
                    match self.store.point_of(e) {
                        Some(pt) => {
                            if !crate::store::points_equal(&pt, &cand) {
                                t.delete(&pt);
                            }
                            self.store.release(e);
                        },
                        None => {},
                    }
                },
                Decision::Rejected => {
                    self.store.release(h);
                },
            }
            self.rng = r;
            self.samplers.insert(i, s);
            self.trees.insert(i, t);
            proof {
                assert(self.trees@ =~= pre_trees.update(i as int, t));
                assert(self.samplers@ =~= pre_samplers.update(i as int, s));
                assert(t.points() == pre_trees[i as int].points() || t.points() == pre_trees[
                    i as int].points().insert(cand@) || exists|q: Seq<i64>|
                    t.points() == pre_trees[i as int].points().insert(cand@).remove(q));
                assert forall|j: int| 0 <= j < n implies (#[trigger] self.trees@[j]).points().subset_of(
                    old(self).trees@[j].points().insert(old(self).candidate(p@)),
                ) by {
                    if j == i as int {
                        assert(self.trees@[j] == t);
                        assert(t.points().subset_of(
                            old(self).trees@[j].points().insert(old(self).candidate(p@)),
                        ));
                    } else {
                        assert(self.trees@[j] == pre_trees[j]);
                    }
                }
                assert forall|j: int|
                    0 <= j < n implies (#[trigger] self.trees@[j]).points() == old(self).trees@[j].points() || self.trees@[j].points() == old(self).trees@[j].points().insert(old(self).candidate(p@)) || exists|q: Seq<i64>|
                    self.trees@[j].points() == old(self).trees@[j].points().insert(
                        old(self).candidate(p@),
                    ).remove(q) by {
                    if j == i as int {
                        assert(self.trees@[j] == t);
                        assert(pre_trees[j] == old(self).trees@[j]);
                    } else {
                        assert(self.trees@[j] == pre_trees[j]);
                    }
                }
                if i == 0 {
                    if first_tree_admits_filling(*old(self)) {
                        assert(d is Accepted);
                        assert(self.samplers@[0].slots@.len() == old(self).samplers@[
                            0].slots@.len() + 1);
                        assert(self.trees@[0].points().contains(old(self).candidate(p@)));
                    }
                    if first_tree_admits_full(*old(self)) {
                        assert(d is AcceptedWithEviction);
                        assert(self.trees@[0].points().contains(old(self).candidate(p@)));
                    }
                }
            }
            i += 1;
        }
        Ok(())
    }
}

/// The approximate memory formula `size` reports.
pub open spec fn approx_size(c: ForestConfig, slots: int) -> int {
    64 + slots * (full_dim(c) * 8 + 32) + (c.tree_capacity * c.number_of_trees) * (full_dim(c) * 16
        + 64)
}

/// How far the shingle is cyclically rotated at a given arrival count.
pub open spec fn rotation_shift(c: ForestConfig, entries: u64) -> int {
    (entries % (c.shingle_size as u64)) * c.base_dimension
}

fn rotation_shift_exec(c: &ForestConfig, entries: u64) -> (r: usize)
    requires
        config_valid(*c),
    ensures
        r == rotation_shift(*c, entries),
        r <= need_of(*c),
{
    proof {
        lemma_dims(*c);
        assert((entries % (c.shingle_size as u64)) <= (c.shingle_size - 1) as u64);
        assert(((entries % (c.shingle_size as u64)) as int) * (c.base_dimension as int) <= ((
        c.shingle_size - 1) as int) * (c.base_dimension as int)) by (nonlinear_arith)
            requires
                0 <= (entries % (c.shingle_size as u64)) as int <= (c.shingle_size - 1) as int,
                c.base_dimension >= 1;
    }
    let m: u64 = entries % (c.shingle_size as u64);
    (m as usize) * c.base_dimension
}

/// A copy of `v` rotated left by `k` places.
fn rotate_exec(v: &Vec<i64>, k: usize) -> (r: Vec<i64>)
    requires
        k <= v@.len(),
    ensures
        r@ == rotate_seq(v@, k as int),
        r@.len() == v@.len(),
{
    let n = v.len();
    let mut out: Vec<i64> = Vec::new();
    let mut j: usize = k;
    while j < n
        invariant
            k <= j <= n,
            n == v@.len(),
            out@ == v@.subrange(k as int, j as int),
        decreases n - j,
    {
        out.push(v[j]);
        proof {
            assert(out@ =~= v@.subrange(k as int, j + 1 as int));
        }
        j += 1;
    }
    let mut j2: usize = 0;
    while j2 < k
        invariant
            j2 <= k <= n,
            n == v@.len(),
            out@ == v@.subrange(k as int, n as int) + v@.subrange(0, j2 as int),
        decreases k - j2,
    {
        out.push(v[j2]);
        proof {
            assert(out@ =~= v@.subrange(k as int, n as int) + v@.subrange(0, j2 + 1 as int));
        }
        j2 += 1;
    }
    out
}

/// A chained builder for [`RcfForest`] hyperparameters.
pub struct RcfBuilder {
    pub config: ForestConfig,
}

impl RcfBuilder {
    /// Starts from the two mandatory dimensions with conventional defaults
    /// for everything else.
    pub fn new(base_dimension: usize, shingle_size: usize) -> (r: RcfBuilder)
        ensures
            r.config == (ForestConfig {
                base_dimension,
                shingle_size,
                tree_capacity: 256,
                number_of_trees: 30,
                random_seed: 42,
                store_attributes: false,
                parallel_enabled: false,
                internal_shingling: false,
                internal_rotation: false,
                time_decay: 0,
                initial_accept_fraction: SCALE / 8,
                bounding_box_cache_fraction: SCALE,
            }),
    {
        RcfBuilder {
            config: ForestConfig {
                base_dimension,
                shingle_size,
                tree_capacity: 256,
                number_of_trees: 30,
                random_seed: 42,
                store_attributes: false,
                parallel_enabled: false,
                internal_shingling: false,
                internal_rotation: false,
                time_decay: 0,
                initial_accept_fraction: SCALE / 8,
                bounding_box_cache_fraction: SCALE,
            },
        }
    }

    pub fn tree_capacity(self, v: usize) -> (r: RcfBuilder)
        ensures
            r.config == (ForestConfig { tree_capacity: v, ..self.config }),
    {
        RcfBuilder { config: ForestConfig { tree_capacity: v, ..self.config } }
    }

    pub fn number_of_trees(self, v: usize) -> (r: RcfBuilder)
        ensures
            r.config == (ForestConfig { number_of_trees: v, ..self.config }),
    {
        RcfBuilder { config: ForestConfig { number_of_trees: v, ..self.config } }
    }

    pub fn random_seed(self, v: u64) -> (r: RcfBuilder)
        ensures
            r.config == (ForestConfig { random_seed: v, ..self.config }),
    {
        RcfBuilder { config: ForestConfig { random_seed: v, ..self.config } }
    }

    pub fn store_attributes(self, v: bool) -> (r: RcfBuilder)
        ensures
            r.config == (ForestConfig { store_attributes: v, ..self.config }),
    {
        RcfBuilder { config: ForestConfig { store_attributes: v, ..self.config } }
    }

    pub fn parallel_enabled(self, v: bool) -> (r: RcfBuilder)
        ensures
            r.config == (ForestConfig { parallel_enabled: v, ..self.config }),
    {
        RcfBuilder { config: ForestConfig { parallel_enabled: v, ..self.config } }
    }

    pub fn internal_shingling(self, v: bool) -> (r: RcfBuilder)
        ensures
            r.config == (ForestConfig { internal_shingling: v, ..self.config }),
    {
        RcfBuilder { config: ForestConfig { internal_shingling: v, ..self.config } }
    }

    pub fn internal_rotation(self, v: bool) -> (r: RcfBuilder)
        ensures
            r.config == (ForestConfig { internal_rotation: v, ..self.config }),
    {
        RcfBuilder { config: ForestConfig { internal_rotation: v, ..self.config } }
    }

    pub fn time_decay(self, v: u64) -> (r: RcfBuilder)
        ensures
            r.config == (ForestConfig { time_decay: v, ..self.config }),
    {
        RcfBuilder { config: ForestConfig { time_decay: v, ..self.config } }
    }

    pub fn initial_accept_fraction(self, v: u64) -> (r: RcfBuilder)
        ensures
            r.config == (ForestConfig { initial_accept_fraction: v, ..self.config }),
    {
        RcfBuilder { config: ForestConfig { initial_accept_fraction: v, ..self.config } }
    }

    pub fn bounding_box_cache_fraction(self, v: u64) -> (r: RcfBuilder)
        ensures
            r.config == (ForestConfig { bounding_box_cache_fraction: v, ..self.config }),
    {
        RcfBuilder { config: ForestConfig { bounding_box_cache_fraction: v, ..self.config } }
    }

    /// Validates the hyperparameters and builds a fresh, empty forest.
    /// Succeeds exactly on valid configurations; an invalid one is
    /// rejected with `ConfigError`, never silently clamped.
    pub fn build_default(self) -> (r: Result<RcfForest, RcfError>)
        ensures
            r is Ok <==> config_valid(self.config),
            match r {
                Ok(f) => {
                    &&& f.wf()
                    &&& f.config == self.config
                    &&& f.entries_seen == 0
                    &&& f.rng == self.config.random_seed
                    &&& f.store.size() == 0
                    &&& forall|i: int|
                        0 <= i < f.trees@.len() ==> (#[trigger] f.trees@[i]).root is None
                    &&& forall|i: int|
                        0 <= i < f.samplers@.len() ==> (#[trigger] f.samplers@[i]).slots@.len()
                            == 0
                },
                Err(e) => e == RcfError::ConfigError,
            },
    {
        let c = self.config;
        if c.base_dimension == 0 || c.shingle_size == 0 {
            return Err(RcfError::ConfigError);
        }
        if c.base_dimension > DIM_MAX || c.shingle_size > DIM_MAX {
            proof {
                assert(c.base_dimension * c.shingle_size > 0x100000) by (nonlinear_arith)
                    requires
                        c.base_dimension >= 1,
                        c.shingle_size >= 1,
                        c.base_dimension > 0x100000 || c.shingle_size > 0x100000;
            }
            return Err(RcfError::ConfigError);
        }
        proof {
            assert((c.base_dimension as int) * (c.shingle_size as int) <= 0x100000 * 0x100000)
                by (nonlinear_arith)
                requires c.base_dimension <= 0x100000, c.shingle_size <= 0x100000;
            assert((c.base_dimension as int) * (c.shingle_size as int) >= 0) by (nonlinear_arith)
                requires c.base_dimension >= 1, c.shingle_size >= 1;
        }
        let fd64: u64 = (c.base_dimension as u64) * (c.shingle_size as u64);
        if fd64 > DIM_MAX as u64 {
            return Err(RcfError::ConfigError);
        }
        if c.tree_capacity == 0 || c.tree_capacity > DIM_MAX || c.number_of_trees == 0
            || c.number_of_trees > TREES_MAX {
            return Err(RcfError::ConfigError);
        }
        if c.time_decay > SCALE || c.initial_accept_fraction == 0 || c.initial_accept_fraction
            > SCALE || c.bounding_box_cache_fraction > SCALE {
            return Err(RcfError::ConfigError);
        }
        proof {
            lemma_dims(c);
        }
        let fd: usize = fd64 as usize;
        let bound64: u64 = (c.tree_capacity as u64) * (c.number_of_trees as u64) + 1;
        let bound: usize = bound64 as usize;
        let store = PointStore::new(fd, bound, c.store_attributes);
        let mut trees: Vec<Tree> = Vec::new();
        let mut samplers: Vec<Sampler> = Vec::new();
        let mut i: usize = 0;
        while i < c.number_of_trees
            invariant
                config_valid(c),
                fd == full_dim(c),
                1 <= fd <= DIM_MAX,
                i <= c.number_of_trees,
                trees@.len() == i,
                samplers@.len() == i,
                forall|j: int|
                    0 <= j < i ==> (#[trigger] trees@[j]).wf() && trees@[j].dim == full_dim(c)
                        && trees@[j].root is None,
                forall|j: int|
                    0 <= j < i ==> (#[trigger] samplers@[j]).wf() && samplers@[j].capacity
                        == c.tree_capacity && samplers@[j].slots@.len() == 0,
            decreases c.number_of_trees - i,
        {
            trees.push(Tree::new(fd));
            samplers.push(Sampler::new(c.tree_capacity));
            i += 1;
        }
        Ok(
            RcfForest {
                config: c,
                rng: c.random_seed,
                entries_seen: 0,
                store,
                trees,
                samplers,
                shingle: Vec::new(),
            },
        )
    }
}

/// The read path is a pure function of the forest's visible state: two
/// forests that agree on configuration, arrival count, trees and shingle
/// history give identical scores for every query, whatever their stores,
/// samplers or generator states hold. In particular, repeated scoring
/// without an intervening update returns the identical value.
pub proof fn lemma_score_depends_only_on_state(f1: RcfForest, f2: RcfForest, p: Seq<i64>)
    requires
        f1.config == f2.config,
        f1.entries_seen == f2.entries_seen,
        f1.trees@ == f2.trees@,
        f1.shingle@ == f2.shingle@,
    ensures
        f1.score_spec(p) == f2.score_spec(p),
{
    assert(f1.ready() == f2.ready());
    assert(f1.candidate(p) == f2.candidate(p));
}

/// Structurally, an update can only remove points from a tree or add the
/// one candidate it feeds in (the frame `update` guarantees). So a point a
/// tree does not hold before an update, other than that candidate, is
/// still not reachable in it afterwards: evicted points do not reappear.
pub proof fn lemma_no_phantom_points(f1: RcfForest, f2: RcfForest, p: Seq<i64>, i: int, q: Seq<i64>)
    requires
        0 <= i < f2.trees@.len(),
        i < f1.trees@.len(),
        f2.trees@[i].points().subset_of(f1.trees@[i].points().insert(f1.candidate(p))),
        !f1.trees@[i].points().contains(q),
        q != f1.candidate(p),
    ensures
        !f2.trees@[i].points().contains(q),
{
}

/// A forest that has seen nothing scores every query as the sentinel 0.
pub proof fn lemma_empty_forest_sentinel(f: RcfForest, p: Seq<i64>)
    requires
        f.wf(),
        f.entries_seen == 0,
    ensures
        f.score_spec(p) == 0,
{
    if f.ready() {
        lemma_trees_sum_empty(f.trees@, f.candidate(p));
        assert(0int / (f.config.number_of_trees as int) == 0);
    }
}

/// The forest the stream drivers use: the hyperparameters of the
/// production configuration, in fixed point.
pub fn make_forest() -> (r: Result<RcfForest, RcfError>)
    ensures
        r is Ok,
        match r {
            Ok(f) => {
                &&& f.wf()
                &&& f.entries_seen == 0
                &&& f.store.size() == 0
                &&& f.rng == 17
                &&& f.config == (ForestConfig {
                    base_dimension: 3,
                    shingle_size: 8,
                    tree_capacity: 256,
                    number_of_trees: 30,
                    random_seed: 17,
                    store_attributes: false,
                    parallel_enabled: false,
                    internal_shingling: true,
                    internal_rotation: false,
                    time_decay: (SCALE / 10 / 256) as u64,
                    initial_accept_fraction: (SCALE / 10) as u64,
                    bounding_box_cache_fraction: SCALE,
                })
                &&& forall|i: int|
                    0 <= i < f.trees@.len() ==> (#[trigger] f.trees@[i]).root is None
                &&& forall|i: int|
                    0 <= i < f.samplers@.len() ==> (#[trigger] f.samplers@[i]).slots@.len() == 0
            },
            Err(_) => false,
        },
{
    let shingle_size: usize = 8;
    let base_dimension: usize = 3;
    let number_of_trees: usize = 30;
    let capacity: usize = 256;
    // 0.1 / capacity, in fixed point
    let time_decay: u64 = SCALE / 10 / (capacity as u64);
    let initial_accept_fraction: u64 = SCALE / 10;
    let bounding_box_cache_fraction: u64 = SCALE;
    let random_seed: u64 = 17;
    let parallel_enabled: bool = false;
    let store_attributes: bool = false;
    let internal_shingling: bool = true;
    let internal_rotation: bool = false;
    RcfBuilder::new(base_dimension, shingle_size).tree_capacity(capacity).number_of_trees(
        number_of_trees,
    ).random_seed(random_seed).store_attributes(store_attributes).parallel_enabled(
        parallel_enabled,
    ).internal_shingling(internal_shingling).internal_rotation(internal_rotation).time_decay(
        time_decay,
    ).initial_accept_fraction(initial_accept_fraction).bounding_box_cache_fraction(
        bounding_box_cache_fraction,
    ).build_default()
}

/// Scores each row against the forest state built from all preceding rows,
/// then feeds the row in: the production streaming loop.
pub fn score_and_update_vec(values: &Vec<Vec<i64>>) -> (r: Result<Vec<u64>, RcfError>)
    ensures
        match r {
            Ok(scores) => {
                &&& scores@.len() == values@.len()
                &&& forall|j: int| 0 <= j < values@.len() ==> (#[trigger] values@[j])@.len() == 3
                &&& forall|j: int| 0 <= j < scores@.len() ==> (#[trigger] scores@[j]) <= SCALE
            },
            Err(e) => e == RcfError::DimensionMismatch || e
                == RcfError::CapacityInvariantViolation,
        },
        r matches Err(e) && e == RcfError::DimensionMismatch ==> exists|j: int|
            0 <= j < values@.len() && (#[trigger] values@[j])@.len() != 3,
        values@.len() == 0 ==> (r matches Ok(scores) && scores@.len() == 0),
{
    let mut forest = match make_forest() {
        Ok(f) => f,
        Err(e) => {
            return Err(e);
        },
    };
    let mut scores: Vec<u64> = Vec::new();
    let n = values.len();
    let mut i: usize = 0;
    while i < n
        invariant
            forest.wf(),
            forest.config.base_dimension == 3,
            forest.config.internal_shingling,
            forest.entries_seen == i,
            n == values@.len(),
            i <= n,
            scores@.len() == i,
            forall|j: int| 0 <= j < i ==> (#[trigger] values@[j])@.len() == 3,
            forall|j: int| 0 <= j < scores@.len() ==> (#[trigger] scores@[j]) <= SCALE,
        decreases n - i,
    {
        let s = match forest.score(&values[i]) {
            Ok(s) => s,
            Err(e) => {
                return Err(e);
            },
        };
        scores.push(s);
        match forest.update(&values[i], 0) {
            Ok(()) => {},
            Err(e) => {
                return Err(e);
            },
        }
        i += 1;
    }
    Ok(scores)
}

/// Scores each row against the untouched fresh forest, never updating:
/// every score is the empty-forest sentinel.
pub fn score_values(values: &Vec<Vec<i64>>) -> (r: Result<Vec<u64>, RcfError>)
    ensures
        match r {
            Ok(scores) => {
                &&& scores@.len() == values@.len()
                &&& forall|j: int| 0 <= j < values@.len() ==> (#[trigger] values@[j])@.len() == 3
                &&& forall|j: int| 0 <= j < scores@.len() ==> (#[trigger] scores@[j]) == 0
            },
            Err(e) => e == RcfError::DimensionMismatch,
        },
        r matches Err(e) ==> exists|j: int|
            0 <= j < values@.len() && (#[trigger] values@[j])@.len() != 3,
{
    let forest = match make_forest() {
        Ok(f) => f,
        Err(_) => {
            proof {
                assert(false);
            }
            return Err(RcfError::DimensionMismatch);
        },
    };
    let mut scores: Vec<u64> = Vec::new();
    let n = values.len();
    let mut i: usize = 0;
    while i < n
        invariant
            forest.wf(),
            forest.config.base_dimension == 3,
            forest.config.internal_shingling,
            forest.entries_seen == 0,
            n == values@.len(),
            i <= n,
            scores@.len() == i,
            forall|j: int| 0 <= j < i ==> (#[trigger] values@[j])@.len() == 3,
            forall|j: int| 0 <= j < scores@.len() ==> (#[trigger] scores@[j]) == 0,
        decreases n - i,
    {
        let s = match forest.score(&values[i]) {
            Ok(s) => s,
            Err(e) => {
                return Err(e);
            },
        };
        proof {
            lemma_empty_forest_sentinel(forest, values@[i as int]@);
        }
        scores.push(s);
        i += 1;
    }
    Ok(scores)
}

} // verus!


