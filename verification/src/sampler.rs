//! Per-tree time-decayed reservoir sampling.
//!
//! Each arriving point gets a priority: its decay-weighted sequence number
//! in the high bits plus a uniform draw in the low 64 bits. While the
//! reservoir is filling, arrivals are admitted with a probability that
//! ramps from the configured bootstrap fraction up to one; once full, an
//! arrival displaces the minimum-priority resident exactly when its own
//! priority is larger, so older points (whose decay term is smaller) are
//! evicted preferentially, and on equal priority the older resident is
//! retained.

use vstd::prelude::*;
use vstd::pervasive::VecAdditionalExecFns;
use crate::SCALE;
use crate::rng::{rng_next, rng_next_state, rng_output};

verus! {

/// One reservoir resident: a point-store handle with its sampling priority
/// and arrival sequence number.
pub struct SampleSlot {
    pub handle: usize,
    pub priority: u128,
    pub seq: u64,
}

/// The sampler's verdict on an arriving point.
pub enum Decision {
    /// Admitted into free reservoir space.
    Accepted,
    /// Admitted by displacing the resident with this handle.
    AcceptedWithEviction(usize),
    /// Not admitted; the reservoir is unchanged.
    Rejected,
}

/// The time-decayed priority of an arrival.
pub open spec fn priority_of(decay: u64, seq: u64, draw: u64) -> int {
    decay * seq * 0x1_0000_0000_0000 + draw
}

/// The admission threshold while the reservoir is filling: the bootstrap
/// fraction, ramping linearly up to one as the reservoir fills.
pub open spec fn accept_threshold(initial: u64, len: int, capacity: int) -> int {
    let ramp = (SCALE - initial) * len / capacity;
    if ramp > SCALE - initial {
        SCALE as int
    } else {
        initial + ramp
    }
}

/// A bounded reservoir of sampled handles for one tree.
pub struct Sampler {
    pub capacity: usize,
    pub slots: Vec<SampleSlot>,
}

impl Sampler {
    /// The reservoir never exceeds its capacity.
    pub open spec fn wf(self) -> bool {
        &&& self.capacity >= 1
        &&& self.slots@.len() <= self.capacity
    }

    /// An empty reservoir.
    pub fn new(capacity: usize) -> (r: Sampler)
        requires
            capacity >= 1,
        ensures
            r.wf(),
            r.capacity == capacity,
            r.slots@.len() == 0,
    {
        Sampler { capacity, slots: Vec::new() }
    }

    /// Decides whether the arrival `h` (with sequence number `seq`) enters
    /// the reservoir, and which resident leaves for it.
    pub fn accept(&mut self, h: usize, seq: u64, decay: u64, initial_accept: u64, rng: &mut u64) -> (d: Decision)
        requires
            old(self).wf(),
            decay <= SCALE,
            1 <= initial_accept <= SCALE,
        ensures
            final(self).wf(),
            final(self).capacity == old(self).capacity,
            old(self).slots@.len() < old(self).capacity ==> *final(rng) == rng_next_state(
                rng_next_state(*old(rng)),
            ),
            old(self).slots@.len() >= old(self).capacity ==> *final(rng) == rng_next_state(
                *old(rng),
            ),
            old(self).slots@.len() < old(self).capacity ==> ((d is Accepted) <==> rng_output(
                rng_next_state(*old(rng)),
            ) % SCALE < accept_threshold(
                initial_accept,
                old(self).slots@.len() as int,
                old(self).capacity as int,
            )),
            old(self).slots@.len() >= old(self).capacity ==> ((d is AcceptedWithEviction)
                <==> exists|k: int|
                0 <= k < old(self).slots@.len() && priority_of(decay, seq, rng_output(*old(rng)))
                    > old(self).slots@[k].priority),
            match d {
                Decision::Accepted => {
                    &&& old(self).slots@.len() < old(self).capacity
                    &&& final(self).slots@.len() == old(self).slots@.len() + 1
                    &&& forall|j: int|
                        0 <= j < old(self).slots@.len() ==> final(self).slots@[j] == old(
                            self,
                        ).slots@[j]
                    &&& final(self).slots@.last().handle == h
                    &&& final(self).slots@.last().seq == seq
                    &&& final(self).slots@.last().priority == priority_of(
                        decay,
                        seq,
                        rng_output(*old(rng)),
                    )
                },
                Decision::AcceptedWithEviction(e) => {
                    &&& old(self).slots@.len() == old(self).capacity
                    &&& final(self).slots@.len() == old(self).slots@.len()
                    &&& exists|j: int|
                        {
                            &&& 0 <= j < old(self).slots@.len()
                            &&& old(self).slots@[j].handle == e
                            &&& (forall|k: int|
                                0 <= k < old(self).slots@.len() ==> old(self).slots@[j].priority
                                    <= old(self).slots@[k].priority)
                            &&& (forall|k: int|
                                0 <= k < old(self).slots@.len() && old(self).slots@[j].priority
                                    == old(self).slots@[k].priority ==> old(self).slots@[j].seq
                                    >= old(self).slots@[k].seq)
                            &&& final(self).slots@[j].handle == h
                            &&& final(self).slots@[j].seq == seq
                            &&& final(self).slots@[j].priority == priority_of(
                                decay,
                                seq,
                                rng_output(*old(rng)),
                            )
                            &&& (forall|k: int|
                                0 <= k < old(self).slots@.len() && k != j ==> final(self).slots@[k]
                                    == old(self).slots@[k])
                        }
                },
                Decision::Rejected => final(self).slots@ == old(self).slots@,
            },
    {
        let draw = rng_next(rng);
        proof {
            assert((decay as int) * (seq as int) <= 65536 * 0xFFFF_FFFF_FFFF_FFFF)
                by (nonlinear_arith)
                requires decay <= 65536, seq <= 0xFFFF_FFFF_FFFF_FFFF;
        }
        let weighted: u128 = (decay as u128) * (seq as u128);
        let pri: u128 = weighted * 0x1_0000_0000_0000u128 + (draw as u128);
        let n = self.slots.len();
        if n < self.capacity {
            let draw2 = rng_next(rng);
            let len64: u64 = n as u64;
            proof {
                assert(((SCALE - initial_accept) as int) * (len64 as int) <= 65536
                    * 0xFFFF_FFFF_FFFF_FFFF) by (nonlinear_arith)
                    requires SCALE - initial_accept <= 65536, len64 <= 0xFFFF_FFFF_FFFF_FFFF;
            }
            let ramp: u128 = ((SCALE - initial_accept) as u128) * (len64 as u128) / (
            self.capacity as u128);
            let thr: u64 = if ramp > (SCALE - initial_accept) as u128 {
                SCALE
            } else {
                initial_accept + (ramp as u64)
            };
            if draw2 % SCALE < thr {
                self.slots.push(SampleSlot { handle: h, priority: pri, seq });
                Decision::Accepted
            } else {
                Decision::Rejected
            }
        } else {
            let mut best: usize = 0;
            let mut i: usize = 1;
            while i < n
                invariant
                    n == self.slots@.len(),
                    1 <= n,
                    best < i <= n,
                    forall|k: int|
                        0 <= k < i ==> self.slots@[best as int].priority <= self.slots@[k].priority,
                    forall|k: int|
                        0 <= k < i && self.slots@[best as int].priority == self.slots@[k].priority
                            ==> self.slots@[best as int].seq >= self.slots@[k].seq,
                decreases n - i,
            {
                let better = if self.slots[i].priority < self.slots[best].priority {
                    true
                } else if self.slots[i].priority == self.slots[best].priority {
                    self.slots[i].seq > self.slots[best].seq
                } else {
                    false
                };
                if better {
                    best = i;
                }
                i += 1;
            }
            if pri > self.slots[best].priority {
                let e = self.slots[best].handle;
                self.slots.set(best, SampleSlot { handle: h, priority: pri, seq });
                proof {
                    assert(0 <= best < old(self).slots@.len() && old(self).slots@[
                        best as int].handle == e && (forall|k: int|
                        0 <= k < old(self).slots@.len() ==> old(self).slots@[
                        best as int].priority <= old(self).slots@[k].priority) && (forall|k: int|
                        0 <= k < old(self).slots@.len() && old(self).slots@[best as int].priority
                            == old(self).slots@[k].priority ==> old(self).slots@[
                        best as int].seq >= old(self).slots@[k].seq)
                        && self.slots@[best as int].handle == h && self.slots@[best as int].seq
                        == seq && self.slots@[best as int].priority == priority_of(
                        decay,
                        seq,
                        rng_output(*old(rng)),
                    ) && (forall|k: int|
                        0 <= k < old(self).slots@.len() && k != best ==> self.slots@[k] == old(
                            self,
                        ).slots@[k]));
                }
                Decision::AcceptedWithEviction(e)
            } else {
                Decision::Rejected
            }
        }
    }
}

} // verus!
