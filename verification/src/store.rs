//! The point store: a capacity-bounded, deduplicating, reference-counted
//! repository of the points currently referenced by any tree of the
//! ensemble.
//!
//! Points are held by integer handle (a slot index). Inserting a point that
//! is already present bumps its reference count instead of storing a second
//! copy; releasing a handle decrements the count and purges the entry when
//! it reaches zero. The store never grows past its construction-time bound:
//! an insert that would do so reports `CapacityInvariantViolation` instead
//! of silently growing.

use vstd::prelude::*;
use vstd::pervasive::VecAdditionalExecFns;
use crate::RcfError;

verus! {

/// One live entry: the point, its reference count, and (when the store was
/// built to retain attributes) the sequence index of its first insertion.
pub struct StoreEntry {
    pub point: Vec<i64>,
    pub refcount: u64,
    pub seq_index: Option<u64>,
}

/// The repository itself. `slots` holds live entries at stable indices;
/// `live` caches the number of occupied slots.
pub struct PointStore {
    pub dim: usize,
    pub bound: usize,
    pub live: usize,
    pub keep_seq: bool,
    pub slots: Vec<Option<StoreEntry>>,
}

/// How many slots of `s` are occupied.
pub open spec fn count_live(s: Seq<Option<StoreEntry>>) -> nat
    decreases s.len(),
{
    if s.len() == 0 {
        0
    } else {
        count_live(s.drop_last()) + (if s.last() is Some {
            1nat
        } else {
            0nat
        })
    }
}

proof fn lemma_count_push(s: Seq<Option<StoreEntry>>, e: Option<StoreEntry>)
    ensures
        count_live(s.push(e)) == count_live(s) + (if e is Some {
            1nat
        } else {
            0nat
        }),
{
    assert(s.push(e).drop_last() =~= s);
}

proof fn lemma_count_update(s: Seq<Option<StoreEntry>>, i: int, e: Option<StoreEntry>)
    requires
        0 <= i < s.len(),
    ensures
        count_live(s.update(i, e)) == count_live(s) + (if e is Some {
            1nat
        } else {
            0nat
        }) - (if s[i] is Some {
            1nat
        } else {
            0nat
        }),
    decreases s.len(),
{
    let t = s.update(i, e);
    if i == s.len() - 1 {
        assert(t.drop_last() =~= s.drop_last());
    } else {
        assert(t.drop_last() =~= s.drop_last().update(i, e));
        lemma_count_update(s.drop_last(), i, e);
    }
}

proof fn lemma_count_pos(s: Seq<Option<StoreEntry>>, i: int)
    requires
        0 <= i < s.len(),
        s[i] is Some,
    ensures
        count_live(s) >= 1,
    decreases s.len(),
{
    if i < s.len() - 1 {
        lemma_count_pos(s.drop_last(), i);
    }
}

proof fn lemma_count_all_some(s: Seq<Option<StoreEntry>>)
    requires
        forall|i: int| 0 <= i < s.len() ==> s[i] is Some,
    ensures
        count_live(s) == s.len(),
    decreases s.len(),
{
    if s.len() > 0 {
        lemma_count_all_some(s.drop_last());
    }
}

proof fn lemma_wf_update(pre: PointStore, post: PointStore, h: int, e: Option<StoreEntry>)
    requires
        pre.wf(),
        0 <= h < pre.slots@.len(),
        post.slots@ == pre.slots@.update(h, e),
        post.dim == pre.dim,
        post.bound == pre.bound,
        post.live == count_live(post.slots@),
        post.live <= post.bound,
        match e {
            Some(en) => en.point@.len() == pre.dim && en.refcount >= 1 && (forall|j: int|
                pre.live_at(j) && j != h ==> pre.point_at(j) != en.point@),
            None => true,
        },
    ensures
        post.wf(),
{
    assert forall|j: int| post.live_at(j) implies post.point_at(j).len() == post.dim
        && post.refcount_at(j) >= 1 by {
        if j != h {
            assert(post.slots@[j] == pre.slots@[j]);
            assert(pre.live_at(j));
        }
    }
    assert forall|h1: int, h2: int|
        post.live_at(h1) && post.live_at(h2) && h1 != h2 implies post.point_at(h1)
        != post.point_at(h2) by {
        if h1 != h {
            assert(post.slots@[h1] == pre.slots@[h1]);
            assert(pre.live_at(h1));
        }
        if h2 != h {
            assert(post.slots@[h2] == pre.slots@[h2]);
            assert(pre.live_at(h2));
        }
        if h1 != h && h2 != h {
            assert(pre.point_at(h1) != pre.point_at(h2));
        }
    }
}

proof fn lemma_wf_push(pre: PointStore, post: PointStore, en: StoreEntry)
    requires
        pre.wf(),
        post.slots@ == pre.slots@.push(Some(en)),
        post.dim == pre.dim,
        post.bound == pre.bound,
        post.live == count_live(post.slots@),
        post.live <= post.bound,
        post.slots@.len() <= post.bound,
        en.point@.len() == pre.dim,
        en.refcount >= 1,
        forall|j: int| pre.live_at(j) ==> pre.point_at(j) != en.point@,
    ensures
        post.wf(),
{
    let n = pre.slots@.len() as int;
    assert forall|j: int| post.live_at(j) implies post.point_at(j).len() == post.dim
        && post.refcount_at(j) >= 1 by {
        if j != n {
            assert(post.slots@[j] == pre.slots@[j]);
            assert(pre.live_at(j));
        }
    }
    assert forall|h1: int, h2: int|
        post.live_at(h1) && post.live_at(h2) && h1 != h2 implies post.point_at(h1)
        != post.point_at(h2) by {
        if h1 != n {
            assert(post.slots@[h1] == pre.slots@[h1]);
            assert(pre.live_at(h1));
        }
        if h2 != n {
            assert(post.slots@[h2] == pre.slots@[h2]);
            assert(pre.live_at(h2));
        }
        if h1 != n && h2 != n {
            assert(pre.point_at(h1) != pre.point_at(h2));
        }
    }
}

impl PointStore {
    /// Handle `h` currently names a live entry.
    pub open spec fn live_at(self, h: int) -> bool {
        &&& 0 <= h < self.slots@.len()
        &&& self.slots@[h] is Some
    }

    /// The point a live handle names.
    pub open spec fn point_at(self, h: int) -> Seq<i64> {
        self.slots@[h]->0.point@
    }

    /// The reference count of a live handle.
    pub open spec fn refcount_at(self, h: int) -> u64 {
        self.slots@[h]->0.refcount
    }

    /// Some live entry holds exactly the point `p`.
    pub open spec fn contains_point(self, p: Seq<i64>) -> bool {
        exists|h: int| self.live_at(h) && self.point_at(h) == p
    }

    /// Well-formedness: the cached count is exact and within the bound,
    /// every live entry has the store's dimension and a positive reference
    /// count, and no point is stored twice (deduplication invariant).
    pub open spec fn wf(self) -> bool {
        &&& self.live == count_live(self.slots@)
        &&& self.live <= self.bound
        &&& self.slots@.len() <= self.bound
        &&& forall|h: int|
            self.live_at(h) ==> self.point_at(h).len() == self.dim && self.refcount_at(h) >= 1
        &&& forall|h1: int, h2: int|
            self.live_at(h1) && self.live_at(h2) && h1 != h2 ==> self.point_at(h1) != self.point_at(
            h2)
    }

    /// The number of live entries (the store's size).
    pub open spec fn size(self) -> nat {
        count_live(self.slots@)
    }

    /// An empty store with the given dimension and hard size bound.
    pub fn new(dim: usize, bound: usize, keep_seq: bool) -> (r: PointStore)
        ensures
            r.wf(),
            r.dim == dim,
            r.bound == bound,
            r.keep_seq == keep_seq,
            r.size() == 0,
            r.slots@.len() == 0,
    {
        PointStore { dim, bound, live: 0, keep_seq, slots: Vec::new() }
    }

    /// Registers `p`: bumps the reference count of the existing equal entry,
    /// or places a new entry with count 1. Fails, leaving the store
    /// untouched, exactly when the point is new and the store is at its
    /// bound. A count already at the largest representable value stays
    /// there.
    pub fn insert(&mut self, p: &Vec<i64>, seq: u64) -> (r: Result<usize, RcfError>)
        requires
            old(self).wf(),
            p@.len() == old(self).dim,
        ensures
            final(self).wf(),
            final(self).dim == old(self).dim,
            final(self).bound == old(self).bound,
            final(self).keep_seq == old(self).keep_seq,
            r is Err <==> !old(self).contains_point(p@) && old(self).size() == old(self).bound,
            match r {
                Ok(h) => {
                    &&& final(self).live_at(h as int)
                    &&& final(self).point_at(h as int) == p@
                    &&& forall|j: int|
                        old(self).live_at(j) && j != h ==> final(self).live_at(j) && final(self).slots@[j] == old(self).slots@[j]
                    &&& forall|j: int|
                        final(self).live_at(j) && j != h ==> old(self).live_at(j)
                    &&& if old(self).contains_point(p@) {
                        &&& old(self).live_at(h as int)
                        &&& old(self).point_at(h as int) == p@
                        &&& final(self).size() == old(self).size()
                        &&& final(self).refcount_at(h as int) == (if old(self).refcount_at(h as int)
                            == u64::MAX {
                            u64::MAX as int
                        } else {
                            old(self).refcount_at(h as int) + 1
                        })
                    } else {
                        &&& !old(self).live_at(h as int)
                        &&& final(self).size() == old(self).size() + 1
                        &&& final(self).refcount_at(h as int) == 1
                        &&& forall|k: int| 0 <= k < h ==> old(self).slots@[k] is Some
                    }
                },
                Err(e) => {
                    &&& e == RcfError::CapacityInvariantViolation
                    &&& final(self).slots@ == old(self).slots@
                    &&& final(self).live == old(self).live
                },
            },
    {
        let n = self.slots.len();
        let mut i: usize = 0;
        let mut free: Option<usize> = None;
        while i < n
            invariant
                old(self).wf(),
                self.dim == old(self).dim,
                self.bound == old(self).bound,
                self.keep_seq == old(self).keep_seq,
                self.live == old(self).live,
                self.slots@ == old(self).slots@,
                n == self.slots@.len(),
                i <= n,
                self.wf(),
                p@.len() == self.dim,
                forall|j: int| 0 <= j < i && self.live_at(j) ==> self.point_at(j) != p@,
                match free {
                    Some(f) => f < i && self.slots@[f as int] is None && (forall|j: int|
                        0 <= j < f ==> self.slots@[j] is Some),
                    None => forall|j: int| 0 <= j < i ==> self.slots@[j] is Some,
                },
            decreases n - i,
        {
            match &self.slots[i] {
                Some(entry) => {
                    if points_equal(&entry.point, p) {
                        let rc = entry.refcount;
                        let sq = entry.seq_index;
                        let rc2: u64 = if rc == u64::MAX {
                            u64::MAX
                        } else {
                            rc + 1
                        };
                        let pt = clone_point(p);
                        proof {
                            assert(old(self).live_at(i as int) && old(self).point_at(i as int)
                                == p@);
                        }
                        self.slots.set(i, Some(StoreEntry { point: pt, refcount: rc2, seq_index: sq }));
                        proof {
                            lemma_count_update(
                                old(self).slots@,
                                i as int,
                                self.slots@[i as int],
                            );
                            assert forall|j: int|
                                old(self).live_at(j) && j != i as int implies old(self).point_at(j)
                                != p@ by {
                                assert(old(self).point_at(j) != old(self).point_at(i as int));
                            }
                            lemma_wf_update(*old(self), *self, i as int, self.slots@[i as int]);
                        }
                        return Ok(i);
                    }
                },
                None => {
                    if free.is_none() {
                        free = Some(i);
                    }
                },
            }
            i += 1;
        }
        proof {
            assert forall|h: int| old(self).live_at(h) implies old(self).point_at(h) != p@ by {
                assert(self.live_at(h));
                assert(self.point_at(h) != p@);
            }
            assert(!old(self).contains_point(p@));
        }
        if self.live >= self.bound {
            proof {
                assert(old(self).size() == old(self).bound);
            }
            return Err(RcfError::CapacityInvariantViolation);
        }
        let sqi: Option<u64> = if self.keep_seq {
            Some(seq)
        } else {
            None
        };
        let entry = StoreEntry { point: clone_point(p), refcount: 1, seq_index: sqi };
        match free {
            Some(f) => {
                self.slots.set(f, Some(entry));
                self.live = self.live + 1;
                proof {
                    lemma_count_update(old(self).slots@, f as int, self.slots@[f as int]);
                    lemma_wf_update(*old(self), *self, f as int, self.slots@[f as int]);
                }
                Ok(f)
            },
            None => {
                proof {
                    lemma_count_all_some(self.slots@);
                }
                self.slots.push(Some(entry));
                self.live = self.live + 1;
                proof {
                    lemma_count_push(old(self).slots@, self.slots@.last());
                    lemma_wf_push(*old(self), *self, self.slots@.last()->0);
                }
                Ok(n)
            },
        }
    }

    /// Drops one reference to a live handle; the entry is purged when its
    /// count reaches zero. A count pinned at the largest representable
    /// value is never decremented.
    pub fn release(&mut self, h: usize)
        requires
            old(self).wf(),
            old(self).live_at(h as int),
        ensures
            final(self).wf(),
            final(self).dim == old(self).dim,
            final(self).bound == old(self).bound,
            final(self).keep_seq == old(self).keep_seq,
            forall|j: int|
                old(self).live_at(j) && j != h ==> final(self).live_at(j) && final(self).slots@[j]
                    == old(self).slots@[j],
            forall|j: int| final(self).live_at(j) && j != h ==> old(self).live_at(j),
            old(self).refcount_at(h as int) == 1 ==> !final(self).live_at(h as int) && final(self).size() == old(self).size() - 1,
            old(self).refcount_at(h as int) != 1 ==> final(self).live_at(h as int) && final(self).point_at(h as int) == old(self).point_at(h as int) && final(self).size() == old(self).size() && final(self).refcount_at(h as int) == (if old(self).refcount_at(h as int) == u64::MAX {
                u64::MAX as int
            } else {
                old(self).refcount_at(h as int) - 1
            }),
    {
        let entry_rc: u64;
        match &self.slots[h] {
            Some(entry) => {
                entry_rc = entry.refcount;
            },
            None => {
                entry_rc = 0;
            },
        }
        if entry_rc == 1 {
            proof {
                lemma_count_pos(self.slots@, h as int);
            }
            self.slots.set(h, None);
            self.live = self.live - 1;
            proof {
                lemma_count_update(old(self).slots@, h as int, self.slots@[h as int]);
                lemma_wf_update(*old(self), *self, h as int, self.slots@[h as int]);
            }
        } else {
            let rc2: u64 = if entry_rc == u64::MAX {
                entry_rc
            } else {
                entry_rc - 1
            };
            let pt: Vec<i64>;
            let sq: Option<u64>;
            match &self.slots[h] {
                Some(entry) => {
                    pt = clone_point(&entry.point);
                    sq = entry.seq_index;
                },
                None => {
                    pt = Vec::new();
                    sq = None;
                },
            }
            self.slots.set(h, Some(StoreEntry { point: pt, refcount: rc2, seq_index: sq }));
            proof {
                lemma_count_update(old(self).slots@, h as int, self.slots@[h as int]);
                assert forall|j: int|
                    old(self).live_at(j) && j != h as int implies old(self).point_at(j) != old(
                        self,
                    ).point_at(h as int) by {}
                lemma_wf_update(*old(self), *self, h as int, self.slots@[h as int]);
            }
        }
    }

    /// A copy of the point a handle names, or `None` for a dead handle.
    pub fn point_of(&self, h: usize) -> (r: Option<Vec<i64>>)
        requires
            self.wf(),
        ensures
            match r {
                Some(p) => self.live_at(h as int) && p@ == self.point_at(h as int),
                None => !self.live_at(h as int),
            },
    {
        if h < self.slots.len() {
            match &self.slots[h] {
                Some(entry) => Some(clone_point(&entry.point)),
                None => None,
            }
        } else {
            None
        }
    }
}

/// Coordinate-wise equality of two points.
pub fn points_equal(a: &Vec<i64>, b: &Vec<i64>) -> (r: bool)
    ensures
        r <==> a@ == b@,
{
    if a.len() != b.len() {
        return false;
    }
    let n = a.len();
    let mut i: usize = 0;
    while i < n
        invariant
            n == a@.len() == b@.len(),
            i <= n,
            forall|j: int| 0 <= j < i ==> a@[j] == b@[j],
        decreases n - i,
    {
        if a[i] != b[i] {
            return false;
        }
        i += 1;
    }
    proof {
        assert(a@ =~= b@);
    }
    true
}

/// An element-wise copy of a point.
pub fn clone_point(p: &Vec<i64>) -> (r: Vec<i64>)
    ensures
        r@ == p@,
{
    let mut out: Vec<i64> = Vec::new();
    let n = p.len();
    let mut i: usize = 0;
    while i < n
        invariant
            n == p@.len(),
            i <= n,
            out@ == p@.take(i as int),
        decreases n - i,
    {
        out.push(p[i]);
        proof {
            assert(out@ =~= p@.take(i + 1 as int));
        }
        i += 1;
    }
    proof {
        assert(p@.take(n as int) =~= p@);
    }
    out
}

} // verus!
