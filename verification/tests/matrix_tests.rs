use rsrs::matrix::{
    axis_shape, col_perm, concat_nonsymmetric_id_sketches, extract_axis, matrix_insertion, row_perm,
    ColMatrix, ExtInsType, Extraction,
};

fn matrix_from_rows<T: Copy>(rows: &[&[T]]) -> ColMatrix<T> {
    let nrows = rows.len();
    let ncols = rows[0].len();
    let mut data = Vec::new();
    for j in 0..ncols {
        for i in 0..nrows {
            data.push(rows[i][j]);
        }
    }
    ColMatrix::from_column_major(nrows, ncols, data).unwrap()
}

fn rows_of<T: Copy>(m: &ColMatrix<T>) -> Vec<Vec<T>> {
    let [r, c] = m.shape();
    (0..r).map(|i| (0..c).map(|j| m.get(i, j)).collect()).collect()
}

#[test]
fn concat_mode_stacks_sketches_by_rows() {
    let mut primary = matrix_from_rows(&[&[1.0, 2.0], &[3.0, 4.0], &[99.0, 99.0]]);
    let secondary = matrix_from_rows(&[&[5.0, 6.0], &[7.0, 8.0], &[88.0, 88.0]]);

    concat_nonsymmetric_id_sketches(&mut primary, &secondary, 2);

    assert_eq!(primary.shape(), [4, 2]);
    assert_eq!(primary.get(0, 0), 1.0);
    assert_eq!(primary.get(0, 1), 2.0);
    assert_eq!(primary.get(1, 0), 3.0);
    assert_eq!(primary.get(1, 1), 4.0);
    assert_eq!(primary.get(2, 0), 5.0);
    assert_eq!(primary.get(2, 1), 6.0);
    assert_eq!(primary.get(3, 0), 7.0);
    assert_eq!(primary.get(3, 1), 8.0);
}

#[test]
fn concat_keeps_short_sketches_whole() {
    let mut primary = matrix_from_rows(&[&[1, 2]]);
    let secondary = matrix_from_rows(&[&[5, 6], &[7, 8]]);
    concat_nonsymmetric_id_sketches(&mut primary, &secondary, 3);
    assert_eq!(rows_of(&primary), vec![vec![1, 2], vec![5, 6], vec![7, 8]]);
}

#[test]
fn from_column_major_checks_length() {
    assert!(ColMatrix::from_column_major(2, 3, vec![0; 5]).is_none());
    assert!(ColMatrix::from_column_major(2, 3, vec![0; 6]).is_some());
    let m = ColMatrix::from_column_major(2, 2, vec![1, 2, 3, 4]).unwrap();
    assert_eq!(m.get(1, 0), 2);
    assert_eq!(m.get(0, 1), 3);
}

#[test]
fn axis_shape_exchanges() {
    assert_eq!(axis_shape(2, 5, false), [2, 5]);
    assert_eq!(axis_shape(2, 5, true), [5, 2]);
}

#[test]
fn extracts_rows_columns_and_cross() {
    let m = matrix_from_rows(&[&[1, 2, 3], &[4, 5, 6], &[7, 8, 9]]);
    assert_eq!(rows_of(&m.extract_rows(&[2, 0], false)), vec![vec![7, 8, 9], vec![1, 2, 3]]);
    assert_eq!(rows_of(&m.extract_rows(&[2, 0], true)), vec![vec![7, 1], vec![8, 2], vec![9, 3]]);
    assert_eq!(rows_of(&m.extract_cols(&[1], false)), vec![vec![2], vec![5], vec![8]]);
    assert_eq!(rows_of(&m.extract_cols(&[1], true)), vec![vec![2, 5, 8]]);
    assert_eq!(rows_of(&m.extract_cross(&[0, 2], &[2, 1])), vec![vec![3, 2], vec![9, 8]]);
    assert_eq!(rows_of(&extract_axis(&m, &[1], 0, false)), vec![vec![4, 5, 6]]);
    assert_eq!(rows_of(&extract_axis(&m, &[0, 2], 1, false)), vec![vec![1, 3], vec![4, 6], vec![7, 9]]);
    let e = Extraction::new(&m, ExtInsType::Cross(vec![1], vec![0, 2])).unwrap();
    assert_eq!(rows_of(&e.ext), vec![vec![4, 6]]);
    let e = Extraction::new(&m, ExtInsType::Axis(vec![2], 0, false)).unwrap();
    assert_eq!(rows_of(&e.ext), vec![vec![7, 8, 9]]);
}

#[test]
fn inserts_rows_and_columns() {
    let mut m = matrix_from_rows(&[&[0, 0, 0], &[0, 0, 0], &[0, 0, 0]]);
    let src = matrix_from_rows(&[&[1, 2, 3], &[4, 5, 6]]);
    m.insert_rows(&[2, 0], &src, false);
    assert_eq!(rows_of(&m), vec![vec![4, 5, 6], vec![0, 0, 0], vec![1, 2, 3]]);
    let col = matrix_from_rows(&[&[7], &[8], &[9]]);
    m.insert_cols(&[1], &col, false);
    assert_eq!(rows_of(&m), vec![vec![4, 7, 6], vec![0, 8, 0], vec![1, 9, 3]]);
    let mut t = matrix_from_rows(&[&[0, 0], &[0, 0]]);
    let s = matrix_from_rows(&[&[1, 2, 3], &[4, 5, 6]]);
    matrix_insertion(&mut t, &s, ExtInsType::Cross(vec![1, 0], vec![2, 0]));
    assert_eq!(rows_of(&t), vec![vec![6, 4], vec![3, 1]]);
}

#[test]
fn later_insertion_of_a_repeated_index_wins() {
    let mut m = matrix_from_rows(&[&[0, 0], &[0, 0]]);
    let src = matrix_from_rows(&[&[1, 1], &[2, 2]]);
    m.insert_rows(&[1, 1], &src, false);
    assert_eq!(rows_of(&m), vec![vec![0, 0], vec![2, 2]]);
}

#[test]
fn row_permutation_and_its_transpose_restore() {
    let start = matrix_from_rows(&[&[1, 10], &[2, 20], &[3, 30]]);
    let mut m = start.duplicate();
    row_perm(vec![0, 1, 2], vec![2, 0, 1], &mut m, false);
    assert_eq!(rows_of(&m), vec![vec![2, 20], vec![3, 30], vec![1, 10]]);
    row_perm(vec![0, 1, 2], vec![2, 0, 1], &mut m, true);
    assert_eq!(rows_of(&m), rows_of(&start));
}

#[test]
fn column_permutation_and_its_transpose_restore() {
    let start = matrix_from_rows(&[&[1, 2, 3], &[4, 5, 6]]);
    let mut m = start.duplicate();
    col_perm(vec![0, 1, 2], vec![1, 2, 0], &mut m, false);
    assert_eq!(rows_of(&m), vec![vec![3, 1, 2], vec![6, 4, 5]]);
    col_perm(vec![0, 1, 2], vec![1, 2, 0], &mut m, true);
    assert_eq!(rows_of(&m), rows_of(&start));
}

#[test]
fn filled_and_set() {
    let mut m = ColMatrix::filled(2, 3, 7u8);
    m.set(1, 2, 9);
    assert_eq!(rows_of(&m), vec![vec![7, 7, 7], vec![7, 7, 9]]);
    assert_eq!(m.into_data(), vec![7, 7, 7, 7, 7, 9]);
}

#[test]
fn writing_back_extracted_rows_and_columns_restores() {
    let start = matrix_from_rows(&[&[1, 2, 3], &[4, 5, 6], &[7, 8, 9]]);
    let mut m = start.duplicate();
    let rows = m.extract_rows(&[2, 0, 2], false);
    m.insert_rows(&[2, 0, 2], &rows, false);
    assert_eq!(rows_of(&m), rows_of(&start));
    let cols = m.extract_cols(&[1], false);
    m.insert_cols(&[1], &cols, false);
    assert_eq!(rows_of(&m), rows_of(&start));
}
