use exercises::matrix::{rotate_matrix_90_degrees, transpose};

#[test]
fn test_rotate_matrix_1() {
    let mut matrix = vec![vec![1, 2, 3], vec![4, 5, 6], vec![7, 8, 9]];
    rotate_matrix_90_degrees(&mut matrix);
    println!("Rotated matrix: {:?}", matrix);
    assert_eq!(matrix, vec![vec![7, 4, 1], vec![8, 5, 2], vec![9, 6, 3],]);
}

#[test]
fn test_rotate_matrix_2() {
    let mut matrix = vec![vec![1, 2], vec![3, 4]];
    rotate_matrix_90_degrees(&mut matrix);
    println!("Rotated matrix: {:?}", matrix);
    assert_eq!(matrix, vec![vec![3, 1], vec![4, 2],]);
}

#[test]
fn test_rotate_matrix_3() {
    let mut matrix = vec![vec![1]];
    rotate_matrix_90_degrees(&mut matrix);
    println!("Rotated matrix: {:?}", matrix);
    assert_eq!(matrix, vec![vec![1],]);
}

#[test]
fn test_rotate_matrix_4() {
    let mut matrix = vec![vec![1, 2], vec![3, 4], vec![5, 6]];
    rotate_matrix_90_degrees(&mut matrix);
    println!("Rotated matrix: {:?}", matrix);
    assert_eq!(matrix, vec![vec![5, 3, 1], vec![6, 4, 2],]);
}

#[test]
fn test_rotate_wide_matrix_turns_its_padding() {
    let mut matrix = vec![vec![1, 2, 3], vec![4, 5, 6]];
    rotate_matrix_90_degrees(&mut matrix);
    assert_eq!(matrix, vec![vec![0, 4], vec![0, 5], vec![0, 6]]);
}

#[test]
fn test_rotate_tall_ragged_matrix() {
    let mut matrix = vec![vec![1], vec![2, 3, 4, 5], vec![]];
    rotate_matrix_90_degrees(&mut matrix);
    assert_eq!(matrix, vec![vec![0, 2, 1]]);
}

#[test]
fn test_rotate_empty_rows() {
    let mut matrix: Vec<Vec<i32>> = vec![vec![], vec![]];
    rotate_matrix_90_degrees(&mut matrix);
    assert_eq!(matrix, Vec::<Vec<i32>>::new());
}

#[test]
fn test_rotate_four_times_is_identity() {
    let start = vec![vec![1, 2, 3], vec![4, 5, 6], vec![7, 8, 9]];
    let mut matrix = start.clone();
    for _ in 0..4 {
        rotate_matrix_90_degrees(&mut matrix);
    }
    assert_eq!(matrix, start);
}

#[test]
fn test_transpose_square() {
    let mut matrix = vec![vec![1, 2, 3], vec![4, 5, 6], vec![7, 8, 9]];
    transpose(&mut matrix);
    assert_eq!(matrix, vec![vec![1, 4, 7], vec![2, 5, 8], vec![3, 6, 9]]);
}

#[test]
fn test_transpose_extreme_values() {
    let mut matrix = vec![vec![0, i32::MAX], vec![i32::MIN, 0]];
    transpose(&mut matrix);
    assert_eq!(matrix, vec![vec![0, i32::MIN], vec![i32::MAX, 0]]);
}
