use cp_hierarchical_clustering::matrix::{check_rows, fill_symmetric, upper_pairs, MatrixError};

#[test]
fn upper_pairs_cover_diagonal_and_above() {
    assert_eq!(upper_pairs(3), vec![(0, 0), (0, 1), (0, 2), (1, 1), (1, 2), (2, 2)]);
    assert!(upper_pairs(0).is_empty());
    assert_eq!(upper_pairs(10).len(), 55);
}

#[test]
fn filled_matrix_is_symmetric() {
    let pairs = upper_pairs(3);
    let scores: Vec<(usize, usize, i64)> =
        pairs.iter().map(|&(i, j)| (i, j, (10 * i + j) as i64)).collect();
    let m = fill_symmetric(3, &scores, -1);
    assert_eq!(m, vec![vec![0, 1, 2], vec![1, 11, 12], vec![2, 12, 22]]);
    for i in 0..3 {
        for j in 0..3 {
            assert_eq!(m[i][j], m[j][i]);
        }
    }
}

#[test]
fn unscored_cells_keep_fill() {
    let m = fill_symmetric(2, &vec![(1, 0, 5u32)], 9);
    assert_eq!(m, vec![vec![9, 5], vec![5, 9]]);
}

#[test]
fn rows_of_unequal_length_are_rejected() {
    assert_eq!(check_rows(&[vec![1.0, 2.0], vec![3.0]]), Err(MatrixError::DimensionMismatch));
    assert_eq!(check_rows(&[vec![1.0, 2.0], vec![3.0, 4.0]]), Ok(()));
    let empty: Vec<Vec<f64>> = Vec::new();
    assert_eq!(check_rows(&empty), Ok(()));
}
