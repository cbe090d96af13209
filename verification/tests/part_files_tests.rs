use rsrs::matrix::ColMatrix;
use rsrs::part_files::{
    append_parts, assemble_parts, block_width, canonical_base, chunk_len, format_decimal,
    format_padded_decimal, locate_parts, nblocks, part_file_name, part_index, AppendError, PartGap,
    BLOCK_COLS,
};

fn matrix_from_rows<T: Copy>(rows: &[&[T]]) -> ColMatrix<T> {
    let nrows = rows.len();
    let ncols = rows[0].len();
    let mut data = Vec::new();
    for j in 0..ncols {
        for i in 0..nrows {
            data.push(rows[i][j]);
        }
    }
    ColMatrix::from_column_major(nrows, ncols, data).unwrap()
}

fn flatten_column_major<T: Copy>(rows: &[&[T]]) -> Vec<T> {
    let m = rows.len();
    let n = rows.first().map_or(0, |row| row.len());
    let mut flat = Vec::with_capacity(m * n);
    for j in 0..n {
        for row in rows.iter().take(m) {
            flat.push(row[j]);
        }
    }
    flat
}

fn append_then_load<T: Copy>(first: &ColMatrix<T>, second: &ColMatrix<T>, zero: T) -> Vec<T> {
    let stored = append_parts(&Vec::new(), [0, 0], first).ok().unwrap().unwrap();
    let shape = [stored.rows, stored.cols];
    let grown = append_parts(&stored.blocks, shape, second).ok().unwrap().unwrap();
    assemble_parts(grown.rows, grown.cols, &grown.blocks, zero).ok().unwrap()
}

#[test]
fn real_append_preserves_column_major_blocks() {
    let initial = matrix_from_rows::<f64>(&[&[1.0, 2.0, 3.0], &[4.0, 5.0, 6.0]]);
    let extra = matrix_from_rows::<f64>(&[&[7.0, 8.0, 9.0]]);
    let loaded = append_then_load(&initial, &extra, 0.0);
    assert_eq!(loaded, flatten_column_major(&[&[1.0, 2.0, 3.0], &[4.0, 5.0, 6.0], &[7.0, 8.0, 9.0]]));
}

#[test]
fn complex_append_preserves_column_major_blocks() {
    let initial = matrix_from_rows::<(f64, f64)>(&[&[(1.0, 1.5), (2.0, 2.5)], &[(3.0, 3.5), (4.0, 4.5)]]);
    let extra = matrix_from_rows::<(f64, f64)>(&[&[(5.0, 5.5), (6.0, 6.5)]]);
    let loaded = append_then_load(&initial, &extra, (0.0, 0.0));
    assert_eq!(
        loaded,
        flatten_column_major(&[
            &[(1.0, 1.5), (2.0, 2.5)],
            &[(3.0, 3.5), (4.0, 4.5)],
            &[(5.0, 5.5), (6.0, 6.5)],
        ])
    );
}

#[test]
fn blocks_and_chunks() {
    assert_eq!(nblocks(0), 0);
    assert_eq!(nblocks(1), 1);
    assert_eq!(nblocks(BLOCK_COLS), 1);
    assert_eq!(nblocks(BLOCK_COLS + 1), 2);
    assert_eq!(block_width(BLOCK_COLS + 5, 0), BLOCK_COLS);
    assert_eq!(block_width(BLOCK_COLS + 5, 1), 5);
    assert_eq!(chunk_len(0, 3), 1);
    assert_eq!(chunk_len(100, 3), 100);
    assert_eq!(chunk_len(10_000, 3), 768);
    assert_eq!(chunk_len(10, 0), 1);
}

#[test]
fn wide_matrices_split_into_blocks() {
    let cols = BLOCK_COLS + 2;
    let data: Vec<u32> = (0..(2 * cols) as u32).collect();
    let m = ColMatrix::from_column_major(2, cols, data.clone()).unwrap();
    let parts = append_parts(&Vec::new(), [0, 0], &m).ok().unwrap().unwrap();
    assert_eq!(parts.blocks.len(), 2);
    assert_eq!(parts.blocks[1], data[2 * BLOCK_COLS..].to_vec());
    let loaded = assemble_parts(2, cols, &parts.blocks, 0).ok().unwrap();
    assert_eq!(loaded, data);
    let partial = assemble_parts(2, cols, &parts.blocks[..1].to_vec(), 0).ok().unwrap();
    assert_eq!(partial[2 * BLOCK_COLS..].to_vec(), vec![0, 0, 0, 0]);
}

#[test]
fn append_errors() {
    let m = matrix_from_rows(&[&[1, 2]]);
    let empty: ColMatrix<i32> = ColMatrix::from_column_major(0, 2, vec![]).unwrap();
    assert!(matches!(append_parts(&Vec::new(), [0, 0], &empty), Ok(None)));
    let two_parts = vec![vec![1, 2], vec![3, 4]];
    match append_parts(&two_parts, [1, 2], &m) {
        Err(AppendError::PartCount { found, expected }) => assert_eq!((found, expected), (2, 1)),
        _ => panic!("expected a part count error"),
    }
    match append_parts(&vec![vec![1, 2, 3]], [1, 3], &m) {
        Err(AppendError::ColumnMismatch { stored, incoming }) => assert_eq!((stored, incoming), (3, 2)),
        _ => panic!("expected a column mismatch"),
    }
    match append_parts(&vec![vec![1, 2, 3]], [1, 2], &m) {
        Err(AppendError::Length { mismatch, written }) => {
            assert_eq!((mismatch.part, mismatch.got, mismatch.expected), (0, 3, 2));
            assert!(written.is_empty());
        }
        _ => panic!("expected a length mismatch"),
    }
    let bad = assemble_parts(2, 2, &vec![vec![1, 2, 3]], 0);
    match bad {
        Err(e) => assert_eq!((e.part, e.got, e.expected), (0, 3, 4)),
        Ok(_) => panic!("expected a length mismatch"),
    }
}

#[test]
fn names_of_parts() {
    assert_eq!(canonical_base(b"y_sketch_file"), b"y_sketch_file".to_vec());
    assert_eq!(canonical_base(b"y_sketch_file.h5"), b"y_sketch_file".to_vec());
    assert_eq!(canonical_base(b"y_sketch_file.00012.h5"), b"y_sketch_file".to_vec());
    assert_eq!(canonical_base(b"y.0001x.h5"), b"y.0001x".to_vec());
    assert_eq!(part_file_name(b"z_test_file.h5", 7), b"z_test_file.00007.h5".to_vec());
    assert_eq!(part_file_name(b"z", 123456), b"z.123456.h5".to_vec());
    assert_eq!(format_decimal(0), b"0".to_vec());
    assert_eq!(format_decimal(1234567), b"1234567".to_vec());
    assert_eq!(format_padded_decimal(42, 5), b"00042".to_vec());
    assert_eq!(part_index(b"y.00003.h5", b"y"), Some(3));
    assert_eq!(part_index(b"y.0003.h5", b"y"), None);
    assert_eq!(part_index(b"x.00003.h5", b"y"), None);
    assert_eq!(part_index(b"y.00003.txt", b"y"), None);
}

#[test]
fn part_names_round_trip() {
    for b in [0u64, 1, 9, 10, 99999] {
        let name = part_file_name(b"y_test_file", b);
        assert_eq!(part_index(&name, b"y_test_file"), Some(b as usize));
    }
}

#[test]
fn locating_parts() {
    let names: Vec<Vec<u8>> = vec![
        b"y.00001.h5".to_vec(),
        b"other.txt".to_vec(),
        b"y.00000.h5".to_vec(),
        b"z.00000.h5".to_vec(),
    ];
    assert_eq!(locate_parts(&names, b"y"), Ok(vec![(0, 2), (1, 0)]));
    let gap: Vec<Vec<u8>> = vec![b"y.00000.h5".to_vec(), b"y.00002.h5".to_vec()];
    assert_eq!(locate_parts(&gap, b"y"), Err(PartGap { expected: 1, found: 2 }));
    assert_eq!(locate_parts(&Vec::new(), b"y"), Ok(vec![]));
}
