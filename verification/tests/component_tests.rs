use rcforest::SCALE;
use rcforest::rng::{rng_below128, rng_next};
use rcforest::sampler::{Decision, Sampler};
use rcforest::store::{clone_point, points_equal, PointStore};
use rcforest::tree::Tree;
use rcforest::RcfError;

#[test]
fn rng_is_deterministic_and_state_advances() {
    let mut s1: u64 = 17;
    let mut s2: u64 = 17;
    let a1 = rng_next(&mut s1);
    let a2 = rng_next(&mut s2);
    assert_eq!(a1, a2);
    assert_eq!(s1, s2);
    let b1 = rng_next(&mut s1);
    assert_ne!(a1, b1);
    let mut s3: u64 = 18;
    let c = rng_next(&mut s3);
    assert_ne!(a1, c);
}

#[test]
fn rng_below_respects_bound() {
    let mut s: u64 = 3;
    for bound in [1u128, 2, 7, 1 << 70] {
        for _ in 0..10 {
            let v = rng_below128(&mut s, bound);
            assert!(v < bound);
        }
    }
}

#[test]
fn point_helpers_compare_and_copy() {
    let a = vec![1i64, -2, 3];
    let b = vec![1i64, -2, 3];
    let c = vec![1i64, -2, 4];
    assert!(points_equal(&a, &b));
    assert!(!points_equal(&a, &c));
    assert!(!points_equal(&a, &vec![1i64, -2]));
    let d = clone_point(&a);
    assert!(points_equal(&a, &d));
}

#[test]
fn store_deduplicates_and_reference_counts() {
    let mut st = PointStore::new(2, 5, false);
    let p = vec![10i64, 20];
    let h1 = st.insert(&p, 1).unwrap();
    let h2 = st.insert(&p, 2).unwrap();
    assert_eq!(h1, h2);
    assert_eq!(st.live, 1);
    let q = vec![30i64, 40];
    let h3 = st.insert(&q, 3).unwrap();
    assert_ne!(h1, h3);
    assert_eq!(st.live, 2);
    // two references: the first release keeps the entry alive
    st.release(h1);
    assert!(st.point_of(h1).is_some());
    st.release(h1);
    assert!(st.point_of(h1).is_none());
    assert_eq!(st.live, 1);
    assert_eq!(st.point_of(h3).unwrap(), q);
}

#[test]
fn store_enforces_its_bound() {
    let mut st = PointStore::new(1, 2, false);
    st.insert(&vec![1i64], 1).unwrap();
    st.insert(&vec![2i64], 2).unwrap();
    // a third distinct point would exceed the bound
    assert_eq!(
        st.insert(&vec![3i64], 3),
        Err(RcfError::CapacityInvariantViolation)
    );
    // but re-inserting a resident point still succeeds (dedup)
    assert!(st.insert(&vec![1i64], 4).is_ok());
    // and freeing a slot makes room again
    st.release(1);
    assert!(st.insert(&vec![3i64], 5).is_ok());
}

#[test]
fn store_reuses_freed_slots() {
    let mut st = PointStore::new(1, 3, true);
    let h1 = st.insert(&vec![5i64], 1).unwrap();
    let _h2 = st.insert(&vec![6i64], 2).unwrap();
    st.release(h1);
    let h3 = st.insert(&vec![7i64], 3).unwrap();
    assert_eq!(h3, h1);
    assert_eq!(st.live, 2);
}

#[test]
fn sampler_fills_then_evicts_minimum_priority() {
    let mut sm = Sampler::new(3);
    let mut rng: u64 = 123;
    // with a full acceptance fraction the reservoir fills deterministically
    for i in 0..3u64 {
        match sm.accept(i as usize, i + 1, 0, SCALE, &mut rng) {
            Decision::Accepted => {}
            _ => panic!("expected acceptance while filling"),
        }
    }
    assert_eq!(sm.slots.len(), 3);
    // with maximal decay the newest arrival always outranks the minimum
    let d = sm.accept(99, 1000, SCALE, SCALE, &mut rng);
    match d {
        Decision::AcceptedWithEviction(e) => assert!(e < 3),
        _ => panic!("expected an eviction on a full reservoir"),
    }
    assert_eq!(sm.slots.len(), 3);
}

#[test]
fn sampler_bootstrap_fraction_rejects_most_arrivals() {
    // with the smallest admissible bootstrap fraction and an empty
    // reservoir, the admission threshold is 1 of SCALE: nearly every
    // arrival is rejected
    let mut sm = Sampler::new(4);
    let mut rng: u64 = 1;
    let mut rejected = 0;
    for i in 0..50u64 {
        match sm.accept(i as usize, i + 1, 0, 1, &mut rng) {
            Decision::Rejected => rejected += 1,
            _ => {}
        }
    }
    assert!(rejected >= 45);
}

#[test]
fn tree_insert_delete_and_score() {
    let mut t = Tree::new(2);
    let mut rng: u64 = 9;
    let a = vec![0i64, 0];
    let b = vec![10i64, 10];
    t.insert(&a, &mut rng);
    t.insert(&b, &mut rng);
    let pts = t.point_list();
    assert_eq!(pts.len(), 2);
    assert!(pts.contains(&a));
    assert!(pts.contains(&b));
    // a resident point scores below a far outlier
    let near = t.score(&a);
    let far = t.score(&vec![1_000_000i64, 1_000_000]);
    assert!(near < far);
    assert!(far <= SCALE);
    t.delete(&a);
    let pts2 = t.point_list();
    assert_eq!(pts2.len(), 1);
    assert!(!pts2.contains(&a));
    assert!(pts2.contains(&b));
    t.delete(&b);
    assert_eq!(t.point_list().len(), 0);
    assert_eq!(t.score(&a), 0);
}

#[test]
fn tree_duplicate_insert_merges_into_mass() {
    let mut t = Tree::new(1);
    let mut rng: u64 = 77;
    let p = vec![4i64];
    let s0 = {
        t.insert(&p, &mut rng);
        t.score(&p)
    };
    t.insert(&p, &mut rng);
    let s1 = t.score(&p);
    // the duplicate merged into one heavier leaf: still one point,
    // scoring lower than before
    assert_eq!(t.point_list().len(), 1);
    assert!(s1 < s0);
}

#[test]
fn leaf_score_formula_exact_values() {
    let mut t = Tree::new(1);
    let mut rng: u64 = 1;
    t.insert(&vec![0i64], &mut rng);
    // a query equal to the single resident leaf: SCALE / (0 + 1 + mass)
    assert_eq!(t.score(&vec![0i64]), SCALE / 2);
    // a query differing from the single leaf separates at the root:
    // SCALE / (0 + 1)
    assert_eq!(t.score(&vec![100i64]), SCALE);
    t.insert(&vec![0i64], &mut rng);
    assert_eq!(t.score(&vec![0i64]), SCALE / 3);
}
