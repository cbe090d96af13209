use rsrs::factors::{
    chunk_noninterfering, chunk_ranges, factor_apply_layout, factor_apply_options,
    factor_read_write_indices, get_far_indices, indices_disjoint, mul_schedule,
    prefer_direct_diag_extraction, BaseFactorOptions, FactorIndices, FactorKind,
    FactorMemoryBreakdown, FactorType, MulOptions, PermFactor, Side, Symmetry, TransMode,
};
use rsrs::factors::{conj_val, id_accuracy, id_indices, lu_conj_val, lu_numbering, Accuracy};
use rsrs::factors::{id_compressed, lu_step_applies, skip_id};
use rsrs::matrix::ColMatrix;

fn opts(inv: bool, trans: TransMode, trans_target: bool) -> BaseFactorOptions {
    BaseFactorOptions { inv, trans, trans_target }
}

fn rows_of<T: Copy>(m: &ColMatrix<T>) -> Vec<Vec<T>> {
    let [r, c] = m.shape();
    (0..r).map(|i| (0..c).map(|j| m.get(i, j)).collect()).collect()
}

#[test]
fn option_flags() {
    let o = opts(false, TransMode::NoTrans, false);
    assert!(!o.trans_val());
    assert!(opts(false, TransMode::ConjTrans, false).trans_val());
    assert!(!opts(false, TransMode::ConjNoTrans, false).trans_val());
    assert_eq!(o.transpose().trans, TransMode::Trans);
    assert_eq!(o.transpose().transpose(), o);
    assert_eq!(o.invert().invert(), o);
    assert!(o.invert().inv);
    assert!(!Symmetry::NoSymm.symm_val());
    assert!(Symmetry::Symmetric.symm_val());
    assert!(Symmetry::Hermitian.symm_val());
}

#[test]
fn layouts() {
    let c = [1usize, 2];
    let r = [7usize];
    let l = factor_apply_layout(Side::Left, &opts(false, TransMode::NoTrans, false), &c, &r);
    assert_eq!((l.source_indices, l.target_indices, l.axis, l.transposed), (&c[..], &r[..], 0, false));
    let l = factor_apply_layout(Side::Left, &opts(false, TransMode::Trans, true), &c, &r);
    assert_eq!((l.source_indices, l.target_indices, l.axis, l.transposed), (&r[..], &c[..], 1, true));
    let l = factor_apply_layout(Side::Right, &opts(false, TransMode::NoTrans, false), &c, &r);
    assert_eq!((l.source_indices, l.target_indices, l.axis, l.transposed), (&r[..], &c[..], 1, false));
    let l = factor_apply_layout(Side::Right, &opts(true, TransMode::Trans, true), &c, &r);
    assert_eq!((l.source_indices, l.target_indices, l.axis, l.transposed), (&c[..], &r[..], 0, true));
}

#[test]
fn batch_options_and_footprints() {
    let base = opts(false, TransMode::NoTrans, false);
    let f = MulOptions { base_options: base, side: Side::Left, factor_type: FactorType::F };
    let s = MulOptions { factor_type: FactorType::S, ..f };
    assert_eq!(factor_apply_options(FactorKind::Lu, &f).trans, TransMode::Trans);
    assert_eq!(factor_apply_options(FactorKind::Lu, &s).trans, TransMode::NoTrans);
    assert_eq!(factor_apply_options(FactorKind::Id, &f).trans, TransMode::NoTrans);
    assert_eq!(factor_apply_options(FactorKind::Id, &s).trans, TransMode::Trans);
    assert_eq!(factor_apply_options(FactorKind::Diag, &s).trans, TransMode::NoTrans);
    let id = FactorIndices { kind: FactorKind::Id, c_indices: vec![0, 1], r_indices: vec![2] };
    assert_eq!(factor_read_write_indices(&id, &f), (vec![0, 1], vec![2]));
    assert_eq!(factor_read_write_indices(&id, &s), (vec![2], vec![0, 1]));
}

#[test]
fn disjointness_and_interference() {
    assert!(indices_disjoint(&[1, 2, 3], &[4, 5]));
    assert!(!indices_disjoint(&[1, 2, 3], &[5, 3]));
    assert!(indices_disjoint(&[], &[1]));
    let f = MulOptions {
        base_options: opts(false, TransMode::NoTrans, false),
        side: Side::Left,
        factor_type: FactorType::F,
    };
    let a = FactorIndices { kind: FactorKind::Id, c_indices: vec![0], r_indices: vec![1] };
    let b = FactorIndices { kind: FactorKind::Id, c_indices: vec![2], r_indices: vec![3] };
    let c = FactorIndices { kind: FactorKind::Id, c_indices: vec![1], r_indices: vec![4] };
    assert!(chunk_noninterfering(&[a, b], &f));
    let a = FactorIndices { kind: FactorKind::Id, c_indices: vec![0], r_indices: vec![1] };
    assert!(!chunk_noninterfering(&[a, c], &f));
}

#[test]
fn schedules_in_chunks() {
    assert_eq!(chunk_ranges(7, 3), vec![(0, 3), (3, 6), (6, 7)]);
    assert_eq!(chunk_ranges(0, 3), vec![]);
    assert_eq!(chunk_ranges(6, 3), vec![(0, 3), (3, 6)]);
    let kinds = [FactorKind::Id, FactorKind::Lu, FactorKind::Diag, FactorKind::Id, FactorKind::Lu];
    assert_eq!(mul_schedule(&kinds, 2), vec![(0, 2, true), (2, 4, false), (4, 5, true)]);
    assert_eq!(mul_schedule(&kinds, 0).len(), 5);
}

#[test]
fn far_indices() {
    assert_eq!(get_far_indices(6, vec![4, 1, 1, 9]), vec![0, 2, 3, 5]);
    assert_eq!(get_far_indices(0, vec![]), Vec::<usize>::new());
}

#[test]
fn permutation_factor_round_trip() {
    let p = PermFactor::new(vec![0, 1, 2], vec![1, 2, 0]);
    let start = ColMatrix::from_column_major(3, 1, vec![10, 20, 30]).unwrap();
    let o = opts(false, TransMode::NoTrans, false);
    let mut m = start.duplicate();
    p.left_mul(&mut m, &o);
    assert_eq!(rows_of(&m), vec![vec![30], vec![10], vec![20]]);
    p.left_mul(&mut m, &o.invert());
    assert_eq!(rows_of(&m), rows_of(&start));
    let t = opts(false, TransMode::Trans, false);
    let mut m = start.duplicate();
    p.left_mul(&mut m, &t);
    assert_eq!(rows_of(&m), vec![vec![20], vec![30], vec![10]]);
    p.left_mul(&mut m, &t.invert());
    assert_eq!(rows_of(&m), rows_of(&start));
    let row = ColMatrix::from_column_major(1, 3, vec![10, 20, 30]).unwrap();
    let mut r = row.duplicate();
    p.right_mul(&mut r, &o);
    assert_eq!(rows_of(&r), vec![vec![30, 10, 20]]);
    assert_eq!(p.stored_bytes(), 6 * (usize::BITS as u64 / 8));
}

#[test]
fn memory_breakdown_counts() {
    let mut b = FactorMemoryBreakdown::default();
    b.add_factor(FactorKind::Id, 100);
    b.add_factor(FactorKind::Id, 20);
    b.add_factor(FactorKind::Lu, 7);
    b.add_factor(FactorKind::Diag, 3);
    b.perm_bytes = 1;
    assert_eq!((b.id_bytes, b.id_count, b.lu_bytes, b.lu_count, b.diag_bytes, b.diag_count), (120, 2, 7, 1, 3, 1));
    assert_eq!(b.total_bytes(), 131);
}

#[test]
fn direct_diagonal_extraction_budget() {
    assert!(prefer_direct_diag_extraction(100, 200, 1, 8));
    assert!(!prefer_direct_diag_extraction(1000, 2000, 1, 8));
    // 512 x 512 doubles take 2 MiB; two buffers and one square take 6 MiB.
    assert!(prefer_direct_diag_extraction(512, 512, 2, 8));
    assert!(!prefer_direct_diag_extraction(512, 512, 3, 8));
    assert!(prefer_direct_diag_extraction(512, 512, 0, 8));
}

#[test]
fn id_index_bookkeeping() {
    let mut target = vec![10, 11, 12, 13];
    let mut near = vec![10, 11, 12, 13, 20];
    let ids = id_indices(&mut target, &mut near, &[2, 0, 3, 1], 2, 4, 22, true).unwrap();
    assert_eq!(target, vec![12, 10, 13, 11]);
    assert_eq!(near, vec![12, 10, 13, 11, 20]);
    assert_eq!(ids.ind_s, vec![12, 10]);
    assert_eq!(ids.ind_r, vec![13, 11]);
    assert_eq!(ids.ind_f, (0..10).chain(14..20).chain(21..22).collect::<Vec<usize>>());
    // No far field: the targets keep their order.
    let mut target = vec![0, 1, 2];
    let mut near = vec![0, 1, 2];
    let ids = id_indices(&mut target, &mut near, &[2, 1, 0], 1, 3, 3, false).unwrap();
    assert_eq!(target, vec![0, 1, 2]);
    assert_eq!((ids.ind_s, ids.ind_r, ids.ind_f), (vec![0], vec![1, 2], vec![]));
    // Full rank: nothing to compress.
    let mut target = vec![0, 1];
    let mut near = vec![0, 1];
    assert!(id_indices(&mut target, &mut near, &[1, 0], 2, 2, 5, false).is_none());
    assert_eq!(target, vec![0, 1]);
    // A sketch with a side of one gives no factor, whatever the rank.
    let mut target = vec![3, 4];
    let mut near = vec![3, 4, 7];
    assert!(id_indices(&mut target, &mut near, &[], 0, 1, 9, true).is_none());
    assert_eq!((target, near), (vec![3, 4], vec![3, 4, 7]));
    let mut target = vec![3];
    let mut near = vec![3];
    assert!(id_indices(&mut target, &mut near, &[0], 0, 0, 9, false).is_none());
}

#[test]
fn id_accuracy_and_conjugation() {
    assert_eq!(id_accuracy(Some(5), None, 3), Accuracy::FixedRank(3));
    assert_eq!(id_accuracy(Some(2), Some(9), 3), Accuracy::FixedRank(2));
    assert_eq!(id_accuracy(None, None, 3), Accuracy::Tol);
    assert_eq!(id_accuracy(None, Some(9), 3), Accuracy::FixedRank(3));
    assert_eq!(id_accuracy(None, Some(2), 3), Accuracy::FixedRank(2));
    assert!(conj_val(Symmetry::NoSymm, false));
    assert!(!conj_val(Symmetry::NoSymm, true));
    assert!(!conj_val(Symmetry::Symmetric, true));
    assert!(conj_val(Symmetry::Hermitian, true));
    assert!(lu_conj_val(Symmetry::NoSymm, true));
    assert!(!lu_conj_val(Symmetry::NoSymm, false));
    assert!(!lu_conj_val(Symmetry::Symmetric, true));
}

#[test]
fn lu_numbering_positions() {
    let near = [7, 3, 9, 3, 5];
    let num = lu_numbering(&[3, 7], &near, &[5]);
    assert_eq!(num.r_numbering, vec![3, 0]);
    assert_eq!(num.t_numbering, vec![2]);
    assert_eq!(num.ind_t, vec![9]);
    let num = lu_numbering(&[], &near, &[]);
    assert_eq!(num.t_numbering, vec![0, 1, 2, 3, 4]);
    assert_eq!(num.ind_t, near.to_vec());
}

#[test]
fn id_and_lu_step_decisions() {
    assert!(skip_id(3, 3, None));
    assert!(!skip_id(4, 3, None));
    assert!(skip_id(4, 3, Some(4)));
    assert!(!skip_id(5, 3, Some(4)));
    assert!(skip_id(0, 0, None));
    let mut target = vec![10, 11, 12];
    let mut near = vec![10, 11, 12, 20];
    let ids = id_indices(&mut target, &mut near, &[0, 1, 2], 1, 3, 30, false);
    assert!(id_compressed(&ids));
    let mut target = vec![10, 11];
    let mut near = vec![10, 11];
    let ids = id_indices(&mut target, &mut near, &[0, 1], 2, 3, 30, false);
    assert!(ids.is_some());
    assert!(!id_compressed(&ids));
    assert!(!id_compressed(&None));
    assert!(lu_step_applies(2, 3));
    assert!(!lu_step_applies(2, 2));
    assert!(!lu_step_applies(0, 5));
}
