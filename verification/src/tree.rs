//! A randomized space-partitioning tree over a dynamic set of points.
//!
//! Each internal node carries an axis-aligned cut (a dimension and a value)
//! and the bounding box of its subtree; each leaf carries one point together
//! with a mass counting how often that point was inserted. Inserting a point
//! descends from the root, drawing a cut uniformly from the extent by which
//! the arriving point enlarges the node's box; if the cut separates the
//! point it splits there, otherwise it descends along the existing cut.
//! Scoring simulates such an insertion without mutating anything and turns
//! the expected separation depth into a fixed-point anomaly score.

use vstd::prelude::*;
use vstd::arithmetic::div_mod::{lemma_div_is_ordered, lemma_div_pos_is_pos, lemma_div_nonincreasing};
use vstd::arithmetic::mul::lemma_mul_inequality;
use crate::SCALE;
use crate::rng::rng_below128;
use crate::store::{points_equal, clone_point};

verus! {

/// Largest supported point dimension.
pub const DIM_MAX: usize = 0x100000;

/// A node of the tree.
pub enum TreeNode {
    /// One stored point and the number of times it was inserted.
    Leaf { point: Vec<i64>, mass: u64 },
    /// An axis-aligned cut with the subtree's bounding box.
    Internal {
        cut_dim: usize,
        cut_val: i64,
        mins: Vec<i64>,
        maxs: Vec<i64>,
        mass: u64,
        left: Box<TreeNode>,
        right: Box<TreeNode>,
    },
}

/// Lower corner of the box a node spans.
pub open spec fn node_mins(n: TreeNode) -> Seq<i64> {
    match n {
        TreeNode::Leaf { point, .. } => point@,
        TreeNode::Internal { mins, .. } => mins@,
    }
}

/// Upper corner of the box a node spans.
pub open spec fn node_maxs(n: TreeNode) -> Seq<i64> {
    match n {
        TreeNode::Leaf { point, .. } => point@,
        TreeNode::Internal { maxs, .. } => maxs@,
    }
}

/// Structural well-formedness: every box has the tree's dimension with
/// ordered corners, every cut dimension is in range, and leaf masses are
/// positive.
pub open spec fn node_wf(n: TreeNode, dim: nat) -> bool
    decreases n,
{
    match n {
        TreeNode::Leaf { point, mass } => point@.len() == dim && mass >= 1,
        TreeNode::Internal { cut_dim, cut_val, mins, maxs, mass, left, right } => {
            &&& mins@.len() == dim
            &&& maxs@.len() == dim
            &&& (cut_dim as nat) < dim
            &&& forall|d: int| 0 <= d < dim ==> mins@[d] <= maxs@[d]
            &&& node_wf(*left, dim)
            &&& node_wf(*right, dim)
        },
    }
}

/// The set of distinct points the node's leaves hold.
pub open spec fn node_points(n: TreeNode) -> Set<Seq<i64>>
    decreases n,
{
    match n {
        TreeNode::Leaf { point, .. } => Set::empty().insert(point@),
        TreeNode::Internal { left, right, .. } => node_points(*left).union(node_points(*right)),
    }
}

/// The leaf points of the node, in left-to-right order.
pub open spec fn node_point_seq(n: TreeNode) -> Seq<Seq<i64>>
    decreases n,
{
    match n {
        TreeNode::Leaf { point, .. } => Seq::empty().push(point@),
        TreeNode::Internal { left, right, .. } => node_point_seq(*left) + node_point_seq(*right),
    }
}

/// Sum of the first `k` coordinate ranges of the box `[mins, maxs]`.
pub open spec fn range_sum_upto(mins: Seq<i64>, maxs: Seq<i64>, k: int) -> int
    decreases k,
{
    if k <= 0 {
        0
    } else {
        range_sum_upto(mins, maxs, k - 1) + (maxs[k - 1] - mins[k - 1])
    }
}

/// Total range of a box: the sum of its per-dimension extents.
pub open spec fn range_sum(mins: Seq<i64>, maxs: Seq<i64>) -> int {
    range_sum_upto(mins, maxs, mins.len() as int)
}

/// Lower corner of the box enlarged to contain `p`.
pub open spec fn merge_mins(mins: Seq<i64>, p: Seq<i64>) -> Seq<i64> {
    Seq::new(mins.len(), |d: int| if p[d] < mins[d] { p[d] } else { mins[d] })
}

/// Upper corner of the box enlarged to contain `p`.
pub open spec fn merge_maxs(maxs: Seq<i64>, p: Seq<i64>) -> Seq<i64> {
    Seq::new(maxs.len(), |d: int| if p[d] > maxs[d] { p[d] } else { maxs[d] })
}

/// The next depth, pinned at the largest representable value.
pub open spec fn next_depth(depth: u64) -> u64 {
    if depth == u64::MAX {
        depth
    } else {
        (depth + 1) as u64
    }
}

/// The anomaly contribution of one tree for query `p`, starting at `depth`:
/// a fixed-point expectation, over the random-cut distribution, of
/// `SCALE / (separation depth + 1)`; a query that rides down to an equal
/// leaf contributes `SCALE / (depth + 1 + mass)`, so heavy (often seen)
/// points score low.
pub open spec fn score_node(n: TreeNode, p: Seq<i64>, depth: u64) -> int
    decreases n,
{
    match n {
        TreeNode::Leaf { point, mass } => {
            if point@ == p {
                (SCALE as int) / (depth as int + 1 + mass as int)
            } else {
                (SCALE as int) / (depth as int + 1)
            }
        },
        TreeNode::Internal { cut_dim, cut_val, mins, maxs, left, right, .. } => {
            let br = range_sum(mins@, maxs@);
            let mr = range_sum(merge_mins(mins@, p), merge_maxs(maxs@, p));
            let child = if p[cut_dim as int] <= cut_val {
                score_node(*left, p, next_depth(depth))
            } else {
                score_node(*right, p, next_depth(depth))
            };
            if mr <= 0 {
                child
            } else {
                let q = (mr - br) * (SCALE as int) / mr;
                (q * ((SCALE as int) / (depth as int + 1)) + ((SCALE as int) - q) * child) / (
                SCALE as int)
            }
        },
    }
}

proof fn lemma_range_sum_nonneg(mins: Seq<i64>, maxs: Seq<i64>, k: int)
    requires
        forall|d: int| 0 <= d < k ==> mins[d] <= maxs[d],
    ensures
        range_sum_upto(mins, maxs, k) >= 0,
    decreases k,
{
    if k > 0 {
        lemma_range_sum_nonneg(mins, maxs, k - 1);
    }
}

proof fn lemma_range_sum_zero(mins: Seq<i64>, maxs: Seq<i64>, k: int)
    requires
        forall|d: int| 0 <= d < k ==> mins[d] == maxs[d],
    ensures
        range_sum_upto(mins, maxs, k) == 0,
    decreases k,
{
    if k > 0 {
        lemma_range_sum_zero(mins, maxs, k - 1);
    }
}

proof fn lemma_range_sum_lower(mins: Seq<i64>, maxs: Seq<i64>, k: int, d: int)
    requires
        0 <= d < k,
        forall|j: int| 0 <= j < k ==> mins[j] <= maxs[j],
    ensures
        range_sum_upto(mins, maxs, k) >= maxs[d] - mins[d],
    decreases k,
{
    if d < k - 1 {
        lemma_range_sum_lower(mins, maxs, k - 1, d);
    } else {
        lemma_range_sum_nonneg(mins, maxs, k - 1);
    }
}

proof fn lemma_range_sum_mono(mins1: Seq<i64>, maxs1: Seq<i64>, mins2: Seq<i64>, maxs2: Seq<i64>, k: int)
    requires
        forall|d: int| 0 <= d < k ==> mins2[d] <= mins1[d] && maxs1[d] <= maxs2[d],
    ensures
        range_sum_upto(mins1, maxs1, k) <= range_sum_upto(mins2, maxs2, k),
    decreases k,
{
    if k > 0 {
        lemma_range_sum_mono(mins1, maxs1, mins2, maxs2, k - 1);
    }
}

proof fn lemma_range_sum_bound(mins: Seq<i64>, maxs: Seq<i64>, k: int)
    requires
        k >= 0,
    ensures
        range_sum_upto(mins, maxs, k) <= k * 0xFFFF_FFFF_FFFF_FFFF,
    decreases k,
{
    if k > 0 {
        lemma_range_sum_bound(mins, maxs, k - 1);
        assert(k * 0xFFFF_FFFF_FFFF_FFFF == (k - 1) * 0xFFFF_FFFF_FFFF_FFFF
            + 0xFFFF_FFFF_FFFF_FFFF) by (nonlinear_arith);
    }
}

/// The box of a well-formed node has the tree's dimension and ordered
/// corners.
proof fn lemma_node_box_wf(n: TreeNode, dim: nat)
    requires
        node_wf(n, dim),
    ensures
        node_mins(n).len() == dim,
        node_maxs(n).len() == dim,
        forall|d: int| 0 <= d < dim ==> node_mins(n)[d] <= node_maxs(n)[d],
{
}

/// Fixed-point anomaly contributions stay within one unit.
pub proof fn lemma_score_bound(n: TreeNode, p: Seq<i64>, depth: u64, dim: nat)
    requires
        node_wf(n, dim),
    ensures
        0 <= score_node(n, p, depth) <= SCALE,
    decreases n,
{
    match n {
        TreeNode::Leaf { point, mass } => {
            let den = depth + 1 + mass as int;
            lemma_div_pos_is_pos(SCALE as int, den);
            lemma_div_nonincreasing(SCALE as int, den);
            lemma_div_pos_is_pos(SCALE as int, depth + 1);
            lemma_div_nonincreasing(SCALE as int, depth + 1);
        },
        TreeNode::Internal { cut_dim, cut_val, mins, maxs, left, right, .. } => {
            lemma_score_bound(*left, p, next_depth(depth), dim);
            lemma_score_bound(*right, p, next_depth(depth), dim);
            let br = range_sum(mins@, maxs@);
            let mr = range_sum(merge_mins(mins@, p), merge_maxs(maxs@, p));
            let child = if p[cut_dim as int] <= cut_val {
                score_node(*left, p, next_depth(depth))
            } else {
                score_node(*right, p, next_depth(depth))
            };
            if mr > 0 {
                assert(forall|d: int|
                    0 <= d < dim ==> merge_mins(mins@, p)[d] <= mins@[d] && maxs@[d] <= merge_maxs(
                        maxs@,
                        p,
                    )[d]);
                lemma_range_sum_mono(mins@, maxs@, merge_mins(mins@, p), merge_maxs(maxs@, p), dim as int);
                lemma_range_sum_nonneg(mins@, maxs@, dim as int);
                let q = (mr - br) * SCALE / mr;
                lemma_div_pos_is_pos((mr - br) * SCALE, mr);
                assert((mr - br) * SCALE >= 0) by (nonlinear_arith)
                    requires mr - br >= 0;
                lemma_mul_inequality(mr - br, mr, SCALE as int);
                lemma_div_is_ordered((mr - br) * SCALE, mr * SCALE, mr);
                assert(mr * SCALE / mr == SCALE) by (nonlinear_arith)
                    requires mr > 0;
                assert(0 <= q <= SCALE);
                let x = (SCALE as int) / (depth as int + 1);
                lemma_div_pos_is_pos(SCALE as int, depth + 1);
                lemma_div_nonincreasing(SCALE as int, depth + 1);
                assert(q * x + (SCALE - q) * child <= SCALE * SCALE) by (nonlinear_arith)
                    requires 0 <= q <= SCALE, 0 <= x <= SCALE, 0 <= child <= SCALE;
                assert(q * x + (SCALE - q) * child >= 0) by (nonlinear_arith)
                    requires 0 <= q <= SCALE, 0 <= x, 0 <= child <= SCALE;
                lemma_div_pos_is_pos(q * x + (SCALE - q) * child, SCALE as int);
                lemma_div_is_ordered(q * x + (SCALE - q) * child, SCALE * SCALE, SCALE as int);
                assert((SCALE as int) * (SCALE as int) / (SCALE as int) == SCALE as int)
                    by (nonlinear_arith);
            }
        },
    }
}

/// Computes the total range of the node box `[mins, maxs]` and of that box
/// enlarged to contain `p`.
fn ranges_of(mins: &Vec<i64>, maxs: &Vec<i64>, p: &Vec<i64>) -> (r: (u128, u128))
    requires
        mins@.len() == maxs@.len(),
        mins@.len() == p@.len(),
        mins@.len() <= DIM_MAX,
        forall|d: int| 0 <= d < mins@.len() ==> mins@[d] <= maxs@[d],
    ensures
        r.0 == range_sum(mins@, maxs@),
        r.1 == range_sum(merge_mins(mins@, p@), merge_maxs(maxs@, p@)),
        r.0 <= r.1,
{
    let n = mins.len();
    let mut br: u128 = 0;
    let mut mr: u128 = 0;
    let mut i: usize = 0;
    while i < n
        invariant
            n == mins@.len() == maxs@.len() == p@.len(),
            n <= DIM_MAX,
            forall|d: int| 0 <= d < n ==> mins@[d] <= maxs@[d],
            i <= n,
            br == range_sum_upto(mins@, maxs@, i as int),
            mr == range_sum_upto(merge_mins(mins@, p@), merge_maxs(maxs@, p@), i as int),
            br <= mr,
            mr <= (i as int) * 0xFFFF_FFFF_FFFF_FFFF,
        decreases n - i,
    {
        let lo = mins[i];
        let hi = maxs[i];
        let pd = p[i];
        let mlo = if pd < lo {
            pd
        } else {
            lo
        };
        let mhi = if pd > hi {
            pd
        } else {
            hi
        };
        let term: u128 = ((hi as i128) - (lo as i128)) as u128;
        let mterm: u128 = ((mhi as i128) - (mlo as i128)) as u128;
        proof {
            assert(merge_mins(mins@, p@)[i as int] == mlo);
            assert(merge_maxs(maxs@, p@)[i as int] == mhi);
            assert((i as int + 1) * 0xFFFF_FFFF_FFFF_FFFF == (i as int) * 0xFFFF_FFFF_FFFF_FFFF
                + 0xFFFF_FFFF_FFFF_FFFF) by (nonlinear_arith);
        }
        br = br + term;
        mr = mr + mterm;
        i += 1;
    }
    (br, mr)
}

/// Builds the coordinate-wise lower corner of the box enlarged to `p`.
fn vec_merge_mins(mins: &Vec<i64>, p: &Vec<i64>) -> (r: Vec<i64>)
    requires
        mins@.len() == p@.len(),
    ensures
        r@ == merge_mins(mins@, p@),
{
    let n = mins.len();
    let mut out: Vec<i64> = Vec::new();
    let mut i: usize = 0;
    while i < n
        invariant
            n == mins@.len() == p@.len(),
            i <= n,
            out@.len() == i,
            forall|d: int| 0 <= d < i ==> out@[d] == merge_mins(mins@, p@)[d],
        decreases n - i,
    {
        let v = if p[i] < mins[i] {
            p[i]
        } else {
            mins[i]
        };
        out.push(v);
        i += 1;
    }
    proof {
        assert(out@ =~= merge_mins(mins@, p@));
    }
    out
}

/// Builds the coordinate-wise upper corner of the box enlarged to `p`.
fn vec_merge_maxs(maxs: &Vec<i64>, p: &Vec<i64>) -> (r: Vec<i64>)
    requires
        maxs@.len() == p@.len(),
    ensures
        r@ == merge_maxs(maxs@, p@),
{
    let n = maxs.len();
    let mut out: Vec<i64> = Vec::new();
    let mut i: usize = 0;
    while i < n
        invariant
            n == maxs@.len() == p@.len(),
            i <= n,
            out@.len() == i,
            forall|d: int| 0 <= d < i ==> out@[d] == merge_maxs(maxs@, p@)[d],
        decreases n - i,
    {
        let v = if p[i] > maxs[i] {
            p[i]
        } else {
            maxs[i]
        };
        out.push(v);
        i += 1;
    }
    proof {
        assert(out@ =~= merge_maxs(maxs@, p@));
    }
    out
}

/// A copy of the node's bounding box.
fn node_box_of(n: &TreeNode) -> (r: (Vec<i64>, Vec<i64>))
    ensures
        r.0@ == node_mins(*n),
        r.1@ == node_maxs(*n),
{
    match n {
        TreeNode::Leaf { point, .. } => (clone_point(point), clone_point(point)),
        TreeNode::Internal { mins, maxs, .. } => (clone_point(mins), clone_point(maxs)),
    }
}

/// The mass stored at the node.
fn node_mass_of(n: &TreeNode) -> (r: u64) {
    match n {
        TreeNode::Leaf { mass, .. } => *mass,
        TreeNode::Internal { mass, .. } => *mass,
    }
}

/// Increments pinned at the largest representable value.
fn sat_inc(m: u64) -> (r: u64)
    ensures
        r >= 1,
        r >= m,
{
    if m == u64::MAX {
        m
    } else {
        m + 1
    }
}

/// Splits `n` at a cut drawn at offset `u` inside the extent by which `p`
/// enlarges the node's box, making `p` a new sibling leaf.
fn split_node(n: Box<TreeNode>, bmins: &Vec<i64>, bmaxs: &Vec<i64>, p: &Vec<i64>, u: u128, dim: usize) -> (r: Box<TreeNode>)
    requires
        node_wf(*n, dim as nat),
        bmins@ == node_mins(*n),
        bmaxs@ == node_maxs(*n),
        p@.len() == dim,
        1 <= dim <= DIM_MAX,
        (u as int) < range_sum(merge_mins(bmins@, p@), merge_maxs(bmaxs@, p@)) - range_sum(
            bmins@,
            bmaxs@,
        ),
    ensures
        node_wf(*r, dim as nat),
        node_points(*r) == node_points(*n).insert(p@),
{
    proof {
        lemma_node_box_wf(*n, dim as nat);
    }
    let nmins = vec_merge_mins(bmins, p);
    let nmaxs = vec_merge_maxs(bmaxs, p);
    let m2 = sat_inc(node_mass_of(&n));
    let mut d: usize = 0;
    let mut acc: u128 = 0;
    while d < dim
        invariant
            node_wf(*n, dim as nat),
            bmins@ == node_mins(*n),
            bmaxs@ == node_maxs(*n),
            p@.len() == dim,
            1 <= dim <= DIM_MAX,
            bmins@.len() == dim,
            bmaxs@.len() == dim,
            forall|j: int| 0 <= j < dim ==> bmins@[j] <= bmaxs@[j],
            (u as int) < range_sum(merge_mins(bmins@, p@), merge_maxs(bmaxs@, p@)) - range_sum(
                bmins@,
                bmaxs@,
            ),
            nmins@ == merge_mins(bmins@, p@),
            nmaxs@ == merge_maxs(bmaxs@, p@),
            m2 >= 1,
            d <= dim,
            acc as int == range_sum_upto(nmins@, nmaxs@, d as int) - range_sum_upto(
                bmins@,
                bmaxs@,
                d as int,
            ),
            acc <= u,
        decreases dim - d,
    {
        let pd = p[d];
        let mnd = bmins[d];
        let mxd = bmaxs[d];
        let low: u128 = if pd < mnd {
            ((mnd as i128) - (pd as i128)) as u128
        } else {
            0
        };
        let high: u128 = if pd > mxd {
            ((pd as i128) - (mxd as i128)) as u128
        } else {
            0
        };
        proof {
            assert(nmins@[d as int] == (if pd < mnd {
                pd
            } else {
                mnd
            }));
            assert(nmaxs@[d as int] == (if pd > mxd {
                pd
            } else {
                mxd
            }));
            lemma_range_sum_bound(nmins@, nmaxs@, dim as int);
            lemma_range_sum_nonneg(bmins@, bmaxs@, dim as int);
            assert((dim as int) * 0xFFFF_FFFF_FFFF_FFFF <= 0x100000 * 0xFFFF_FFFF_FFFF_FFFF)
                by (nonlinear_arith)
                requires dim <= 0x100000;
        }
        if u < acc + low + high {
            let off = u - acc;
            let leaf = Box::new(TreeNode::Leaf { point: clone_point(p), mass: 1 });
            if off < low {
                let v: i64 = ((pd as i128) + (off as i128)) as i64;
                let out = Box::new(TreeNode::Internal {
                    cut_dim: d,
                    cut_val: v,
                    mins: nmins,
                    maxs: nmaxs,
                    mass: m2,
                    left: leaf,
                    right: n,
                });
                proof {
                    assert(forall|j: int|
                        0 <= j < dim ==> merge_mins(bmins@, p@)[j] <= merge_maxs(bmaxs@, p@)[j]);
                    assert(*out is Internal);
                    assert(node_points(*out) == node_points(*leaf).union(node_points(*n)));
                    assert(node_points(*leaf) == Set::<Seq<i64>>::empty().insert(p@));
                    assert(node_wf(*leaf, dim as nat));
                    assert(node_points(*out) =~= node_points(*n).insert(p@));
                }
                return out;
            } else {
                let off2 = off - low;
                let v: i64 = ((mxd as i128) + (off2 as i128)) as i64;
                let out = Box::new(TreeNode::Internal {
                    cut_dim: d,
                    cut_val: v,
                    mins: nmins,
                    maxs: nmaxs,
                    mass: m2,
                    left: n,
                    right: leaf,
                });
                proof {
                    assert(forall|j: int|
                        0 <= j < dim ==> merge_mins(bmins@, p@)[j] <= merge_maxs(bmaxs@, p@)[j]);
                    assert(node_points(*out) == node_points(*n).union(node_points(*leaf)));
                    assert(node_points(*leaf) == Set::<Seq<i64>>::empty().insert(p@));
                    assert(node_wf(*leaf, dim as nat));
                    assert(node_wf(*out, dim as nat));
                    assert(node_points(*out) =~= node_points(*n).insert(p@));
                }
                return out;
            }
        }
        acc = acc + low + high;
        d += 1;
    }
    proof {
        assert(false);
    }
    vstd::pervasive::unreached()
}

/// Inserts `p` into the subtree, drawing cuts from the given generator.
fn node_insert(n: Box<TreeNode>, p: &Vec<i64>, rng: &mut u64, dim: usize) -> (r: Box<TreeNode>)
    requires
        node_wf(*n, dim as nat),
        p@.len() == dim,
        1 <= dim <= DIM_MAX,
    ensures
        node_wf(*r, dim as nat),
        node_points(*r) == node_points(*n).insert(p@),
    decreases *n,
{
    proof {
        lemma_node_box_wf(*n, dim as nat);
    }
    let (bmins, bmaxs) = node_box_of(&n);
    let (br, mr) = ranges_of(&bmins, &bmaxs, p);
    let equal_leaf: bool = match &*n {
        TreeNode::Leaf { point, .. } => points_equal(point, p),
        TreeNode::Internal { .. } => false,
    };
    if equal_leaf {
        match *n {
            TreeNode::Leaf { point, mass } => {
                let m2 = sat_inc(mass);
                let out = Box::new(TreeNode::Leaf { point, mass: m2 });
                proof {
                    assert(node_points(*out) =~= node_points(*n).insert(p@));
                }
                return out;
            },
            TreeNode::Internal { .. } => {
                proof {
                    assert(false);
                }
                vstd::pervasive::unreached()
            },
        }
    } else {
        proof {
            if *n is Leaf {
                // the two points differ in some coordinate, so the merged
                // box has positive total range while the leaf box has none
                lemma_range_sum_zero(bmins@, bmaxs@, dim as int);
                if p@ != bmins@ {
                    assert(!(p@ =~= bmins@));
                    let dd = choose|dd: int| 0 <= dd < dim && p@[dd] != bmins@[dd];
                    assert(merge_maxs(bmaxs@, p@)[dd] - merge_mins(bmins@, p@)[dd] >= 1);
                    lemma_range_sum_lower(
                        merge_mins(bmins@, p@),
                        merge_maxs(bmaxs@, p@),
                        dim as int,
                        dd,
                    );
                }
            }
        }
        let do_split: bool;
        let mut u: u128 = 0;
        if mr > 0 && mr > br {
            u = rng_below128(rng, mr - br);
            do_split = true;
        } else {
            do_split = false;
        }
        if do_split {
            split_node(n, &bmins, &bmaxs, p, u, dim)
        } else {
            match *n {
                TreeNode::Internal { cut_dim, cut_val, mins, maxs, mass, left, right } => {
                    let go_left = p[cut_dim] <= cut_val;
                    let m2 = sat_inc(mass);
                    let nmins = vec_merge_mins(&mins, p);
                    let nmaxs = vec_merge_maxs(&maxs, p);
                    proof {
                        assert(forall|j: int|
                            0 <= j < dim ==> merge_mins(mins@, p@)[j] <= merge_maxs(maxs@, p@)[j]);
                    }
                    if go_left {
                        let l2 = node_insert(left, p, rng, dim);
                        let out = Box::new(TreeNode::Internal {
                            cut_dim,
                            cut_val,
                            mins: nmins,
                            maxs: nmaxs,
                            mass: m2,
                            left: l2,
                            right,
                        });
                        proof {
                            assert(node_points(*out) =~= node_points(*n).insert(p@));
                        }
                        out
                    } else {
                        let r2 = node_insert(right, p, rng, dim);
                        let out = Box::new(TreeNode::Internal {
                            cut_dim,
                            cut_val,
                            mins: nmins,
                            maxs: nmaxs,
                            mass: m2,
                            left,
                            right: r2,
                        });
                        proof {
                            assert(node_points(*out) =~= node_points(*n).insert(p@));
                        }
                        out
                    }
                },
                TreeNode::Leaf { .. } => {
                    proof {
                        assert(false);
                    }
                    vstd::pervasive::unreached()
                },
            }
        }
    }
}

/// Removes every leaf holding exactly `p`; siblings of removed leaves are
/// merged upward and bounding boxes recomputed.
fn node_delete(n: Box<TreeNode>, p: &Vec<i64>, dim: usize) -> (r: Option<Box<TreeNode>>)
    requires
        node_wf(*n, dim as nat),
        p@.len() == dim,
        1 <= dim <= DIM_MAX,
    ensures
        match r {
            Some(m) => node_wf(*m, dim as nat) && node_points(*m) == node_points(*n).remove(p@),
            None => node_points(*n).remove(p@) == Set::<Seq<i64>>::empty(),
        },
    decreases *n,
{
    match *n {
        TreeNode::Leaf { point, mass } => {
            if points_equal(&point, p) {
                proof {
                    assert(node_points(*n).remove(p@) =~= Set::<Seq<i64>>::empty());
                }
                None
            } else {
                let out = Box::new(TreeNode::Leaf { point, mass });
                proof {
                    assert(node_points(*out) =~= node_points(*n).remove(p@));
                }
                Some(out)
            }
        },
        TreeNode::Internal { cut_dim, cut_val, mins, maxs, mass: _, left, right } => {
            let ghost lval = *left;
            let ghost rval = *right;
            proof {
                assert(node_points(*n) == node_points(lval).union(node_points(rval)));
            }
            let l2 = node_delete(left, p, dim);
            let r2 = node_delete(right, p, dim);
            match (l2, r2) {
                (None, None) => {
                    proof {
                        assert(node_points(lval).remove(p@) == Set::<Seq<i64>>::empty());
                        assert(node_points(rval).remove(p@) == Set::<Seq<i64>>::empty());
                        assert(node_points(*n).remove(p@) =~= Set::<Seq<i64>>::empty());
                    }
                    None
                },
                (Some(x), None) => {
                    proof {
                        assert(node_points(*x) == node_points(lval).remove(p@));
                        assert forall|e: Seq<i64>| node_points(rval).contains(e) implies e == p@ by {
                            if e != p@ {
                                assert(node_points(rval).remove(p@).contains(e));
                            }
                        }
                        assert(node_points(*x) =~= node_points(*n).remove(p@));
                    }
                    Some(x)
                },
                (None, Some(y)) => {
                    proof {
                        assert(node_points(*y) == node_points(rval).remove(p@));
                        assert forall|e: Seq<i64>| node_points(lval).contains(e) implies e == p@ by {
                            if e != p@ {
                                assert(node_points(lval).remove(p@).contains(e));
                            }
                        }
                        assert(node_points(*y) =~= node_points(*n).remove(p@));
                    }
                    Some(y)
                },
                (Some(x), Some(y)) => {
                    proof {
                        lemma_node_box_wf(*x, dim as nat);
                        lemma_node_box_wf(*y, dim as nat);
                    }
                    let (xmins, xmaxs) = node_box_of(&x);
                    let (ymins, ymaxs) = node_box_of(&y);
                    let nmins = vec_min2(&xmins, &ymins);
                    let nmaxs = vec_max2(&xmaxs, &ymaxs);
                    let m2 = sat_add(node_mass_of(&x), node_mass_of(&y));
                    let out = Box::new(TreeNode::Internal {
                        cut_dim,
                        cut_val,
                        mins: nmins,
                        maxs: nmaxs,
                        mass: m2,
                        left: x,
                        right: y,
                    });
                    proof {
                        assert(node_points(*out) == node_points(*x).union(node_points(*y)));
                        assert(node_points(*x) == node_points(lval).remove(p@));
                        assert(node_points(*y) == node_points(rval).remove(p@));
                        assert(node_points(*out) =~= node_points(*n).remove(p@));
                    }
                    Some(out)
                },
            }
        },
    }
}

/// Coordinate-wise minimum of two corners.
fn vec_min2(a: &Vec<i64>, b: &Vec<i64>) -> (r: Vec<i64>)
    requires
        a@.len() == b@.len(),
    ensures
        r@.len() == a@.len(),
        forall|d: int| 0 <= d < a@.len() ==> r@[d] == (if a@[d] < b@[d] {
            a@[d]
        } else {
            b@[d]
        }),
{
    let n = a.len();
    let mut out: Vec<i64> = Vec::new();
    let mut i: usize = 0;
    while i < n
        invariant
            n == a@.len() == b@.len(),
            i <= n,
            out@.len() == i,
            forall|d: int| 0 <= d < i ==> out@[d] == (if a@[d] < b@[d] {
                a@[d]
            } else {
                b@[d]
            }),
        decreases n - i,
    {
        let v = if a[i] < b[i] {
            a[i]
        } else {
            b[i]
        };
        out.push(v);
        i += 1;
    }
    out
}

/// Coordinate-wise maximum of two corners.
fn vec_max2(a: &Vec<i64>, b: &Vec<i64>) -> (r: Vec<i64>)
    requires
        a@.len() == b@.len(),
    ensures
        r@.len() == a@.len(),
        forall|d: int| 0 <= d < a@.len() ==> r@[d] == (if a@[d] > b@[d] {
            a@[d]
        } else {
            b@[d]
        }),
{
    let n = a.len();
    let mut out: Vec<i64> = Vec::new();
    let mut i: usize = 0;
    while i < n
        invariant
            n == a@.len() == b@.len(),
            i <= n,
            out@.len() == i,
            forall|d: int| 0 <= d < i ==> out@[d] == (if a@[d] > b@[d] {
                a@[d]
            } else {
                b@[d]
            }),
        decreases n - i,
    {
        let v = if a[i] > b[i] {
            a[i]
        } else {
            b[i]
        };
        out.push(v);
        i += 1;
    }
    out
}

/// Addition pinned at the largest representable value.
fn sat_add(a: u64, b: u64) -> (r: u64)
    ensures
        r >= a,
        r >= b,
{
    if a > u64::MAX - b {
        u64::MAX
    } else {
        a + b
    }
}

/// Computes the node's anomaly contribution for `p` without mutating
/// anything; exactly the value of [`score_node`].
fn score_node_exec(n: &TreeNode, p: &Vec<i64>, depth: u64) -> (r: u64)
    requires
        node_wf(*n, p@.len() as nat),
        1 <= p@.len() <= DIM_MAX,
    ensures
        r == score_node(*n, p@, depth),
        r <= SCALE,
    decreases *n,
{
    proof {
        lemma_score_bound(*n, p@, depth, p@.len() as nat);
    }
    match n {
        TreeNode::Leaf { point, mass } => {
            if points_equal(point, p) {
                let den: u128 = depth as u128 + 1 + (*mass as u128);
                ((SCALE as u128) / den) as u64
            } else {
                let den: u128 = depth as u128 + 1;
                ((SCALE as u128) / den) as u64
            }
        },
        TreeNode::Internal { cut_dim, cut_val, mins, maxs, left, right, .. } => {
            let (br, mr) = ranges_of(mins, maxs, p);
            let go_left = p[*cut_dim] <= *cut_val;
            let d2 = if depth == u64::MAX {
                depth
            } else {
                depth + 1
            };
            let child = if go_left {
                score_node_exec(&**left, p, d2)
            } else {
                score_node_exec(&**right, p, d2)
            };
            if mr == 0 {
                child
            } else {
                proof {
                    lemma_range_sum_nonneg(mins@, maxs@, p@.len() as int);
                    lemma_range_sum_bound(merge_mins(mins@, p@), merge_maxs(maxs@, p@), p@.len() as int);
                    if go_left {
                        lemma_score_bound(**left, p@, d2, p@.len() as nat);
                    } else {
                        lemma_score_bound(**right, p@, d2, p@.len() as nat);
                    }
                }
                let q: u128 = (mr - br) * (SCALE as u128) / mr;
                let x: u128 = (SCALE as u128) / (depth as u128 + 1);
                proof {
                    lemma_mul_inequality((mr - br) as int, mr as int, SCALE as int);
                    lemma_div_is_ordered(((mr - br) * (SCALE as u128)) as int, (mr as int) * (
                    SCALE as int), mr as int);
                    assert((mr as int) * (SCALE as int) / (mr as int) == SCALE) by (nonlinear_arith)
                        requires mr > 0;
                    lemma_div_nonincreasing(SCALE as int, depth as int + 1);
                }
                let s: u128 = (q * x + ((SCALE as u128) - q) * (child as u128)) / (SCALE as u128);
                proof {
                    assert(s <= SCALE) by (nonlinear_arith)
                        requires
                            0 <= q <= SCALE,
                            0 <= x <= SCALE,
                            0 <= child <= SCALE,
                            s == (q * x + ((SCALE as u128) - q) * (child as u128)) / (
                            SCALE as int);
                }
                s as u64
            }
        },
    }
}

/// Appends the subtree's leaf points, left to right, to `out`.
fn node_collect(n: &TreeNode, out: &mut Vec<Vec<i64>>)
    ensures
        final(out)@.len() == old(out)@.len() + node_point_seq(*n).len(),
        forall|j: int| 0 <= j < old(out)@.len() ==> final(out)@[j] == old(out)@[j],
        forall|j: int|
            0 <= j < node_point_seq(*n).len() ==> final(out)@[old(out)@.len() + j]@
                == node_point_seq(*n)[j],
    decreases *n,
{
    match n {
        TreeNode::Leaf { point, .. } => {
            out.push(clone_point(point));
        },
        TreeNode::Internal { left, right, .. } => {
            node_collect(&**left, out);
            node_collect(&**right, out);
        },
    }
}

/// One ensemble member: a random-cut tree over points of a fixed dimension.
pub struct Tree {
    pub dim: usize,
    pub root: Option<Box<TreeNode>>,
}

impl Tree {
    /// Structural well-formedness of the whole tree.
    pub open spec fn wf(self) -> bool {
        &&& 1 <= self.dim <= DIM_MAX
        &&& match self.root {
            Some(r) => node_wf(*r, self.dim as nat),
            None => true,
        }
    }

    /// The set of distinct points currently held.
    pub open spec fn points(self) -> Set<Seq<i64>> {
        match self.root {
            Some(r) => node_points(*r),
            None => Set::empty(),
        }
    }

    /// The tree's anomaly contribution for `p`; an empty tree contributes
    /// the sentinel 0.
    pub open spec fn score_spec(self, p: Seq<i64>) -> int {
        match self.root {
            Some(r) => score_node(*r, p, 0),
            None => 0,
        }
    }

    /// An empty tree of the given dimension.
    pub fn new(dim: usize) -> (r: Tree)
        requires
            1 <= dim <= DIM_MAX,
        ensures
            r.wf(),
            r.dim == dim,
            r.root is None,
            r.points() == Set::<Seq<i64>>::empty(),
    {
        Tree { dim, root: None }
    }

    /// Inserts one occurrence of `p`, drawing cuts from `rng`.
    pub fn insert(&mut self, p: &Vec<i64>, rng: &mut u64)
        requires
            old(self).wf(),
            p@.len() == old(self).dim,
        ensures
            final(self).wf(),
            final(self).dim == old(self).dim,
            final(self).root is Some,
            final(self).points() == old(self).points().insert(p@),
    {
        let rt = self.root.take();
        match rt {
            Some(node) => {
                let n2 = node_insert(node, p, rng, self.dim);
                self.root = Some(n2);
            },
            None => {
                self.root = Some(Box::new(TreeNode::Leaf { point: clone_point(p), mass: 1 }));
                proof {
                    assert(final(self).points() =~= old(self).points().insert(p@));
                }
            },
        }
    }

    /// Removes the point `p` entirely (all its occurrences).
    pub fn delete(&mut self, p: &Vec<i64>)
        requires
            old(self).wf(),
            p@.len() == old(self).dim,
        ensures
            final(self).wf(),
            final(self).dim == old(self).dim,
            final(self).points() == old(self).points().remove(p@),
    {
        let rt = self.root.take();
        match rt {
            Some(node) => {
                match node_delete(node, p, self.dim) {
                    Some(n2) => {
                        self.root = Some(n2);
                    },
                    None => {
                        self.root = None;
                        proof {
                            assert(final(self).points() =~= old(self).points().remove(p@));
                        }
                    },
                }
            },
            None => {
                proof {
                    assert(final(self).points() =~= old(self).points().remove(p@));
                }
            },
        }
    }

    /// The tree's fixed-point anomaly contribution for `p`; read-only.
    pub fn score(&self, p: &Vec<i64>) -> (r: u64)
        requires
            self.wf(),
            p@.len() == self.dim,
        ensures
            r == self.score_spec(p@),
            r <= SCALE,
    {
        match &self.root {
            Some(node) => score_node_exec(&**node, p, 0),
            None => 0,
        }
    }

    /// The leaf points in left-to-right order; a structural snapshot.
    pub fn point_list(&self) -> (r: Vec<Vec<i64>>)
        ensures
            r@.len() == self.leaf_seq().len(),
            forall|j: int| 0 <= j < r@.len() ==> r@[j]@ == self.leaf_seq()[j],
    {
        let mut out: Vec<Vec<i64>> = Vec::new();
        match &self.root {
            Some(node) => {
                node_collect(&**node, &mut out);
            },
            None => {},
        }
        out
    }

    /// The leaf points in left-to-right order.
    pub open spec fn leaf_seq(self) -> Seq<Seq<i64>> {
        match self.root {
            Some(r) => node_point_seq(*r),
            None => Seq::empty(),
        }
    }
}

} // verus!
