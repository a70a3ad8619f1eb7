use waywiserrr::distance::{PointSet, distmat, d_bar, min_dists};
use waywiserrr::sqrt::isqrt;
use waywiserrr::types::StatError;

fn ps(dims: usize, rows: Vec<Vec<i64>>) -> PointSet {
    PointSet { dims, rows }
}

#[test]
fn isqrt_small_values() {
    assert_eq!(isqrt(0), 0);
    assert_eq!(isqrt(1), 1);
    assert_eq!(isqrt(15), 3);
    assert_eq!(isqrt(16), 4);
    assert_eq!(isqrt(17), 4);
    assert_eq!(isqrt(1_000_000_000_000), 1_000_000);
}

#[test]
fn distmat_three_four_five() {
    let data = ps(2, vec![vec![0, 0], vec![3, 4]]);
    let query = ps(2, vec![vec![0, 0], vec![3, 4]]);
    let m = distmat(&data, &query).unwrap();
    assert_eq!(m.entries[0][0], 0);
    assert_eq!(m.entries[0][1], 5);
    assert_eq!(m.entries[1][0], 5);
    assert_eq!(m.entries[1][1], 0);
}

#[test]
fn distmat_entries_nonnegative_and_symmetric() {
    let rows = vec![vec![1, -7], vec![4, 2], vec![-3, 5]];
    let p = ps(2, rows);
    let m = distmat(&p, &p).unwrap();
    for i in 0..3 {
        for j in 0..3 {
            assert!(m.entries[i][j] >= 0);
            assert_eq!(m.entries[i][j], m.entries[j][i]);
        }
        assert_eq!(m.entries[i][i], 0);
    }
}

#[test]
fn distmat_dimension_mismatch() {
    let data = ps(2, vec![vec![0, 0]]);
    let query = ps(3, vec![vec![0, 0, 0]]);
    assert_eq!(distmat(&data, &query).unwrap_err(), StatError::DimensionMismatch);
}

#[test]
fn distmat_empty_inputs_give_empty_matrix() {
    let data = ps(2, vec![]);
    let query = ps(2, vec![]);
    let m = distmat(&data, &query).unwrap();
    assert_eq!(m.entries.len(), 0);
}

#[test]
fn d_bar_identical_points_is_zero() {
    let p = ps(2, vec![vec![1, 2], vec![1, 2], vec![1, 2]]);
    let r = d_bar(&p).unwrap();
    assert_eq!(r.num, 0);
    assert_eq!(r.den, 6);
}

#[test]
fn d_bar_two_points() {
    let p = ps(2, vec![vec![0, 0], vec![3, 4]]);
    let r = d_bar(&p).unwrap();
    assert_eq!(r.num, 10);
    assert_eq!(r.den, 2);
}

#[test]
fn d_bar_single_point_is_degenerate() {
    let p = ps(2, vec![vec![0, 0]]);
    assert_eq!(d_bar(&p).unwrap_err(), StatError::DegenerateInput);
}

#[test]
fn min_dists_subset_never_zero_for_distinct_rows() {
    let data = ps(1, vec![vec![0], vec![10], vec![11]]);
    let query = ps(1, vec![vec![0], vec![10], vec![11]]);
    let r = min_dists(&data, &query, false).unwrap();
    assert_eq!(r, vec![Some(10), Some(1), Some(1)]);
    for v in &r {
        assert_ne!(*v, Some(0));
    }
}

#[test]
fn min_dists_zero_only_for_coincident_rows() {
    let data = ps(1, vec![vec![1], vec![1]]);
    let query = ps(1, vec![vec![1], vec![1]]);
    let r = min_dists(&data, &query, false).unwrap();
    assert_eq!(r, vec![Some(0), Some(0)]);
}

#[test]
fn min_dists_distinct_keeps_diagonal() {
    let data = ps(1, vec![vec![0], vec![5]]);
    let query = ps(1, vec![vec![0]]);
    let r = min_dists(&data, &query, true).unwrap();
    assert_eq!(r, vec![Some(0)]);
}

#[test]
fn min_dists_fully_masked_row_is_infinite() {
    let data = ps(1, vec![vec![7]]);
    let query = ps(1, vec![vec![7]]);
    let r = min_dists(&data, &query, false).unwrap();
    assert_eq!(r, vec![None]);
}

#[test]
fn min_dists_empty_data_is_degenerate() {
    let data = ps(1, vec![]);
    let query = ps(1, vec![vec![0]]);
    assert_eq!(min_dists(&data, &query, false).unwrap_err(), StatError::DegenerateInput);
}

#[test]
fn min_dists_dimension_mismatch() {
    let data = ps(2, vec![vec![0, 0]]);
    let query = ps(1, vec![vec![0]]);
    assert_eq!(min_dists(&data, &query, false).unwrap_err(), StatError::DimensionMismatch);
}

#[test]
fn well_formed_check_rejects_ragged_rows() {
    let good = ps(2, vec![vec![1, 2], vec![3, 4]]);
    assert!(good.is_well_formed());
    let ragged = ps(2, vec![vec![1, 2], vec![3]]);
    assert!(!ragged.is_well_formed());
    let out_of_range = ps(1, vec![vec![2_000_000]]);
    assert!(!out_of_range.is_well_formed());
}
