use rcforest::RcfError;
use rcforest::SCALE;
use rcforest::forest::{RcfBuilder, RcfForest, make_forest, score_and_update_vec, score_values};

fn small_forest(seed: u64) -> RcfForest {
    RcfBuilder::new(1, 1)
        .tree_capacity(8)
        .number_of_trees(1)
        .random_seed(seed)
        .internal_shingling(true)
        .initial_accept_fraction(SCALE)
        .time_decay(0)
        .build_default()
        .unwrap()
}

#[test]
fn empty_forest_scores_sentinel_zero() {
    let f = RcfBuilder::new(2, 1)
        .number_of_trees(3)
        .tree_capacity(16)
        .build_default()
        .unwrap();
    let p = vec![42i64, -7i64];
    assert_eq!(f.score(&p).unwrap(), 0);
    assert_eq!(f.entries_seen(), 0);
    assert_eq!(f.point_store_size(), 0);
}

#[test]
fn dimension_guard_on_score_and_update() {
    let mut f = RcfBuilder::new(2, 1).build_default().unwrap();
    let bad = vec![1i64, 2i64, 3i64];
    assert_eq!(f.score(&bad), Err(RcfError::DimensionMismatch));
    assert_eq!(f.update(&bad, 0), Err(RcfError::DimensionMismatch));
    // the failed update changed nothing
    assert_eq!(f.entries_seen(), 0);
    assert_eq!(f.point_store_size(), 0);
    let good = vec![1i64, 2i64];
    assert!(f.update(&good, 0).is_ok());
    assert_eq!(f.entries_seen(), 1);
}

#[test]
fn dimension_guard_with_internal_shingling() {
    // with internal shingling on, the expected input length is the base
    // dimension, not the full shingled dimension
    let mut f = RcfBuilder::new(3, 4)
        .internal_shingling(true)
        .build_default()
        .unwrap();
    let full = vec![0i64; 12];
    assert_eq!(f.score(&full), Err(RcfError::DimensionMismatch));
    assert_eq!(f.update(&full, 0), Err(RcfError::DimensionMismatch));
    let base = vec![0i64; 3];
    assert!(f.score(&base).is_ok());
    assert!(f.update(&base, 0).is_ok());
}

#[test]
fn update_increments_entries_and_respects_store_bound() {
    let mut f = RcfBuilder::new(1, 1)
        .tree_capacity(4)
        .number_of_trees(2)
        .initial_accept_fraction(SCALE)
        .build_default()
        .unwrap();
    let bound = 4 * 2 + 1;
    for i in 0..20i64 {
        let before = f.entries_seen();
        f.update(&vec![i * 13], 0).unwrap();
        assert_eq!(f.entries_seen(), before + 1);
        assert!(f.point_store_size() <= bound);
    }
}

#[test]
fn score_is_read_only_and_idempotent() {
    let mut f = small_forest(99);
    for i in 0..5i64 {
        f.update(&vec![i], 0).unwrap();
    }
    let entries = f.entries_seen();
    let store_size = f.point_store_size();
    let leaves = f.tree_point_list(0);
    let q = vec![3i64];
    let s1 = f.score(&q).unwrap();
    let s2 = f.score(&q).unwrap();
    assert_eq!(s1, s2);
    assert_eq!(f.entries_seen(), entries);
    assert_eq!(f.point_store_size(), store_size);
    assert_eq!(f.tree_point_list(0), leaves);
}

#[test]
fn determinism_under_identical_seed_and_stream() {
    let mut f1 = small_forest(1234);
    let mut f2 = small_forest(1234);
    let stream = [5i64, -2, 9, 9, 0, 77, -40, 6, 5, 12];
    for &x in stream.iter() {
        let p = vec![x];
        assert_eq!(f1.score(&p).unwrap(), f2.score(&p).unwrap());
        f1.update(&p, 0).unwrap();
        f2.update(&p, 0).unwrap();
    }
    let q = vec![100i64];
    assert_eq!(f1.score(&q).unwrap(), f2.score(&q).unwrap());
}

#[test]
fn anomaly_scenario_single_dimension() {
    let mut f = small_forest(7);
    let mut zero_scores = Vec::new();
    for _ in 0..8 {
        let p = vec![0i64];
        zero_scores.push(f.score(&p).unwrap());
        f.update(&p, 0).unwrap();
    }
    let anomaly = vec![100i64];
    let s100 = f.score(&anomaly).unwrap();
    // the first zero scores the empty-forest sentinel
    assert_eq!(zero_scores[0], 0);
    // once the point is resident, repeats score lower and lower
    for k in 1..zero_scores.len() - 1 {
        assert!(zero_scores[k + 1] <= zero_scores[k]);
    }
    // the outlier scores markedly above every zero
    for &z in zero_scores.iter() {
        assert!(s100 >= 2 * z.max(1));
    }
    assert!(s100 > 0);
}

#[test]
fn eviction_keeps_store_bounded_and_drops_old_points() {
    let mut f = RcfBuilder::new(1, 1)
        .tree_capacity(4)
        .number_of_trees(1)
        .random_seed(5)
        .initial_accept_fraction(SCALE)
        .time_decay(SCALE)
        .build_default()
        .unwrap();
    let fed: Vec<i64> = (0..12).map(|i| i * 1000 + 1).collect();
    for &x in fed.iter() {
        f.update(&vec![x], 0).unwrap();
        assert!(f.point_store_size() <= 4 + 1);
    }
    let leaves = f.tree_point_list(0);
    // with strong decay every arrival displaces the minimum, so the tree
    // can never hold more than its capacity in points
    assert!(leaves.len() <= 4);
    // everything reachable is something that was fed; points beyond the
    // capacity have been evicted and are no longer reachable
    for leaf in leaves.iter() {
        assert_eq!(leaf.len(), 1);
        assert!(fed.contains(&leaf[0]));
    }
    assert!(leaves.len() < fed.len());
}

#[test]
fn builder_rejects_invalid_hyperparameters() {
    assert_eq!(
        RcfBuilder::new(0, 1).build_default().err().unwrap(),
        RcfError::ConfigError
    );
    assert_eq!(
        RcfBuilder::new(1, 0).build_default().err().unwrap(),
        RcfError::ConfigError
    );
    assert_eq!(
        RcfBuilder::new(1, 1).tree_capacity(0).build_default().err().unwrap(),
        RcfError::ConfigError
    );
    assert_eq!(
        RcfBuilder::new(1, 1).number_of_trees(0).build_default().err().unwrap(),
        RcfError::ConfigError
    );
    assert_eq!(
        RcfBuilder::new(1, 1).initial_accept_fraction(0).build_default().err().unwrap(),
        RcfError::ConfigError
    );
    assert_eq!(
        RcfBuilder::new(1, 1).initial_accept_fraction(SCALE + 1).build_default().err().unwrap(),
        RcfError::ConfigError
    );
    assert_eq!(
        RcfBuilder::new(1, 1).time_decay(SCALE + 1).build_default().err().unwrap(),
        RcfError::ConfigError
    );
    assert_eq!(
        RcfBuilder::new(2000000, 1).build_default().err().unwrap(),
        RcfError::ConfigError
    );
    assert!(RcfBuilder::new(1, 1).build_default().is_ok());
}

#[test]
fn make_forest_matches_production_configuration() {
    let f = make_forest().unwrap();
    assert_eq!(f.entries_seen(), 0);
    assert_eq!(f.point_store_size(), 0);
    let s = f.size();
    assert!(s > 0);
    let f2 = make_forest().unwrap();
    assert_eq!(s, f2.size());
}

#[test]
fn approx_memory_size_formula() {
    // an empty store: 64 + 0 + capacity * trees * (dim * 16 + 64)
    let f = RcfBuilder::new(1, 1)
        .tree_capacity(256)
        .number_of_trees(30)
        .build_default()
        .unwrap();
    assert_eq!(f.size(), 64 + 256 * 30 * (16 + 64));
    // one stored point adds dim * 8 + 32 bytes of store slot
    let mut f2 = RcfBuilder::new(1, 1)
        .tree_capacity(8)
        .number_of_trees(1)
        .initial_accept_fraction(SCALE)
        .build_default()
        .unwrap();
    let base = f2.size();
    f2.update(&vec![5i64], 0).unwrap();
    assert_eq!(f2.size(), base + 8 + 32);
}

#[test]
fn score_values_returns_sentinels_without_updating() {
    let rows = vec![vec![1i64, 2, 3], vec![4, 5, 6], vec![7, 8, 9]];
    let scores = score_values(&rows).unwrap();
    assert_eq!(scores, vec![0u64, 0, 0]);
}

#[test]
fn score_values_rejects_wrong_row_length() {
    let rows = vec![vec![1i64, 2, 3], vec![4, 5]];
    assert_eq!(score_values(&rows), Err(RcfError::DimensionMismatch));
}

#[test]
fn score_and_update_vec_streams_all_rows() {
    let rows: Vec<Vec<i64>> = (0..20).map(|i| vec![i, i * 2, i * 3]).collect();
    let scores = score_and_update_vec(&rows).unwrap();
    assert_eq!(scores.len(), rows.len());
    for &s in scores.iter() {
        assert!(s <= SCALE);
    }
}

#[test]
fn score_and_update_vec_rejects_wrong_row_length() {
    let rows = vec![vec![1i64, 2, 3], vec![4, 5, 6, 7]];
    assert_eq!(score_and_update_vec(&rows), Err(RcfError::DimensionMismatch));
}

#[test]
fn internal_rotation_is_deterministic() {
    let build = || {
        RcfBuilder::new(1, 3)
            .tree_capacity(8)
            .number_of_trees(2)
            .random_seed(11)
            .internal_shingling(true)
            .internal_rotation(true)
            .initial_accept_fraction(SCALE)
            .build_default()
            .unwrap()
    };
    let mut f1 = build();
    let mut f2 = build();
    for i in 0..10i64 {
        let p = vec![i * i];
        assert_eq!(f1.score(&p).unwrap(), f2.score(&p).unwrap());
        f1.update(&p, 0).unwrap();
        f2.update(&p, 0).unwrap();
    }
}

#[test]
fn shingle_cold_start_suppresses_scoring() {
    let mut f = RcfBuilder::new(2, 3)
        .internal_shingling(true)
        .initial_accept_fraction(SCALE)
        .build_default()
        .unwrap();
    // until shingle_size - 1 = 2 base vectors of history exist, every
    // score is the sentinel
    assert_eq!(f.score(&vec![1i64, 1]).unwrap(), 0);
    f.update(&vec![1i64, 1], 0).unwrap();
    assert_eq!(f.score(&vec![2i64, 2]).unwrap(), 0);
    f.update(&vec![2i64, 2], 0).unwrap();
    // now a full shingle can be formed; scoring is defined (still 0 here
    // because no full point has yet been inserted into any tree)
    assert_eq!(f.score(&vec![3i64, 3]).unwrap(), 0);
    f.update(&vec![3i64, 3], 0).unwrap();
    f.update(&vec![4i64, 4], 0).unwrap();
    // an extreme query now scores above zero against the resident shingles
    let s = f.score(&vec![1_000_000i64, -1_000_000]).unwrap();
    assert!(s > 0);
}
