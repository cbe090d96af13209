//! Orientation flags of the elementary factors, the index layout in which a
//! factor reads and updates its target, and the permutation factor.
use vstd::prelude::*;
use std::collections::HashSet;
use crate::levels::{below, lemma_below_len, index_range};
use crate::memory::{matrix_bytes, matrix_bytes_spec};
use std::collections::HashMap;
use crate::matrix::{last_pos, lemma_last_pos, lemma_last_pos_step, 
    col_perm, identity_indices, is_col_permutation, is_row_permutation, pairs_below, perm_count,
    perm_sources, perm_targets, row_perm, ColMatrix, MatrixView, distinct_indices, indices_below,
    lemma_last_pos_distinct,
};

verus! {

/// How a factor is applied: as it is, conjugated, transposed or both.
#[derive(Debug, Clone, Copy, PartialEq, Eq)]
pub enum TransMode {
    NoTrans,
    ConjNoTrans,
    Trans,
    ConjTrans,
}

/// Whether a factor multiplies its target from the left or the right.
#[derive(Debug, Clone, Copy, PartialEq, Eq)]
pub enum Side {
    Left,
    Right,
}

/// The mode transposes.
pub open spec fn transposes(trans: TransMode) -> bool {
    trans == TransMode::Trans || trans == TransMode::ConjTrans
}

/// The mode does not conjugate.
pub open spec fn transpose_only(trans: TransMode) -> bool {
    trans == TransMode::NoTrans || trans == TransMode::Trans
}

/// Basic flags used when applying an elementary factor: `trans` orients the
/// factor itself, `trans_target` tells that the target is viewed through a
/// transposed row and column layout.
#[derive(Debug, Clone, Copy, PartialEq, Eq)]
pub struct BaseFactorOptions {
    pub inv: bool,
    pub trans: TransMode,
    pub trans_target: bool,
}

impl BaseFactorOptions {
    /// Whether the factor is applied transposed (conjugation aside).
    pub fn trans_val(&self) -> (t: bool)
        ensures
            t == transposes(self.trans),
    {
        match self.trans {
            TransMode::NoTrans => false,
            TransMode::ConjNoTrans => false,
            TransMode::Trans => true,
            TransMode::ConjTrans => true,
        }
    }

    /// The same options with the orientation flipped between `NoTrans` and
    /// `Trans`; conjugating modes must have been normalised before.
    pub fn transpose(&self) -> (t: Self)
        requires
            transpose_only(self.trans),
        ensures
            t.inv == self.inv,
            t.trans_target == self.trans_target,
            t.trans == (if self.trans == TransMode::NoTrans {
                TransMode::Trans
            } else {
                TransMode::NoTrans
            }),
    {
        let trans = match self.trans {
            TransMode::NoTrans => TransMode::Trans,
            _ => TransMode::NoTrans,
        };
        BaseFactorOptions { inv: self.inv, trans, trans_target: self.trans_target }
    }

    /// The same options applying the inverse instead of the factor, or back.
    pub fn invert(&self) -> (t: Self)
        ensures
            t.inv == !self.inv,
            t.trans == self.trans,
            t.trans_target == self.trans_target,
    {
        BaseFactorOptions { inv: !self.inv, trans: self.trans, trans_target: self.trans_target }
    }
}

/// Options flipped between `NoTrans` and `Trans`.
pub open spec fn transposed_options(o: BaseFactorOptions) -> BaseFactorOptions {
    BaseFactorOptions {
        trans: if o.trans == TransMode::NoTrans {
            TransMode::Trans
        } else {
            TransMode::NoTrans
        },
        ..o
    }
}

/// Options applying the inverse instead.
pub open spec fn inverted_options(o: BaseFactorOptions) -> BaseFactorOptions {
    BaseFactorOptions { inv: !o.inv, ..o }
}

/// Transposing twice, or inverting twice, gives back the options;
/// transposing flips the orientation; the two commute.
pub proof fn lemma_options_involutions(o: BaseFactorOptions)
    requires
        transpose_only(o.trans),
    ensures
        transposed_options(transposed_options(o)) == o,
        inverted_options(inverted_options(o)) == o,
        transposes(transposed_options(o).trans) == !transposes(o.trans),
        transposed_options(inverted_options(o)) == inverted_options(transposed_options(o)),
        transpose_only(transposed_options(o).trans),
{
}

/// Which half of the split elimination is traversed.
#[derive(Debug, Clone, Copy, PartialEq, Eq)]
pub enum FactorType {
    F,
    S,
}

/// Options shared by a batch of factors applied together.
#[derive(Debug, Clone, Copy, PartialEq, Eq)]
pub struct MulOptions {
    pub base_options: BaseFactorOptions,
    pub side: Side,
    pub factor_type: FactorType,
}

/// Symmetry of the operator.
#[derive(Debug, Clone, Copy, PartialEq, Eq)]
pub enum Symmetry {
    NoSymm,
    Symmetric,
    Hermitian,
}

impl Symmetry {
    /// Whether the operator is symmetric in its layout (symmetric or
    /// Hermitian).
    pub fn symm_val(&self) -> (s: bool)
        ensures
            s == (*self != Symmetry::NoSymm),
    {
        match self {
            Symmetry::NoSymm => false,
            Symmetry::Symmetric => true,
            Symmetry::Hermitian => true,
        }
    }
}

/// Where a factor reads (`source_indices`) and what it updates
/// (`target_indices`) along `axis` of its target, and whether the target is
/// seen transposed.
pub struct FactorApplyLayout<'a> {
    pub source_indices: &'a [usize],
    pub target_indices: &'a [usize],
    pub axis: usize,
    pub transposed: bool,
}

/// The layout for a factor with column indices `c` and row indices `r`:
/// applied from the left it reads `c` and updates `r`, from the right the
/// other way round, each swapped when the factor is transposed; the axis is
/// that of the rows from the left, of the columns from the right, swapped
/// for a transposed target.
pub open spec fn layout_spec(
    side: Side,
    options: BaseFactorOptions,
    c: Seq<usize>,
    r: Seq<usize>,
) -> (Seq<usize>, Seq<usize>, nat, bool) {
    let t = transposes(options.trans);
    let reads_c = (side == Side::Left) != t;
    let axis: nat = if (side == Side::Left) != options.trans_target {
        0
    } else {
        1
    };
    if reads_c {
        (c, r, axis, options.trans_target)
    } else {
        (r, c, axis, options.trans_target)
    }
}

/// Layout of the reads and updates of a factor (`factor_apply_layout`).
pub fn factor_apply_layout<'a>(
    side: Side,
    factor_options: &BaseFactorOptions,
    c_indices: &'a [usize],
    r_indices: &'a [usize],
) -> (layout: FactorApplyLayout<'a>)
    ensures
        (layout.source_indices@, layout.target_indices@, layout.axis as nat, layout.transposed)
            == layout_spec(side, *factor_options, c_indices@, r_indices@),
{
    match side {
        Side::Left => {
            let (source_indices, target_indices) = if !factor_options.trans_val() {
                (c_indices, r_indices)
            } else {
                (r_indices, c_indices)
            };
            if factor_options.trans_target {
                FactorApplyLayout { source_indices, target_indices, axis: 1, transposed: true }
            } else {
                FactorApplyLayout { source_indices, target_indices, axis: 0, transposed: false }
            }
        },
        Side::Right => {
            let (source_indices, target_indices) = if !factor_options.trans_val() {
                (r_indices, c_indices)
            } else {
                (c_indices, r_indices)
            };
            if factor_options.trans_target {
                FactorApplyLayout { source_indices, target_indices, axis: 0, transposed: true }
            } else {
                FactorApplyLayout { source_indices, target_indices, axis: 1, transposed: false }
            }
        },
    }
}

/// Transposing a factor exchanges what it reads and what it updates, on
/// either side and for either orientation of the target; the axis and the
/// view of the target stay.
pub proof fn lemma_layout_transpose_swaps(side: Side, options: BaseFactorOptions, c: Seq<usize>, r: Seq<usize>)
    requires
        transpose_only(options.trans),
    ensures
        ({
            let a = layout_spec(side, options, c, r);
            let b = layout_spec(side, transposed_options(options), c, r);
            b.0 == a.1 && b.1 == a.0 && b.2 == a.2 && b.3 == a.3
        }),
{
}

/// Applying a factor from the right reads what it updates from the left and
/// updates what it reads from the left, along the other axis; applying it
/// from the left untransposed reads its column indices and updates its row
/// indices, along the rows unless the target is seen transposed; whether
/// the target is seen transposed is the option's, and inverting the factor
/// changes nothing of the layout.
pub proof fn lemma_layout_sides(options: BaseFactorOptions, c: Seq<usize>, r: Seq<usize>)
    ensures
        ({
            let left = layout_spec(Side::Left, options, c, r);
            let right = layout_spec(Side::Right, options, c, r);
            &&& right.0 == left.1 && right.1 == left.0
            &&& left.2 + right.2 == 1
            &&& left.3 == options.trans_target && right.3 == options.trans_target
            &&& !transposes(options.trans) ==> left.0 == c && left.1 == r
            &&& left.2 == (if options.trans_target { 1nat } else { 0nat })
            &&& layout_spec(Side::Left, inverted_options(options), c, r) == left
            &&& layout_spec(Side::Right, inverted_options(options), c, r) == right
        }),
{
}

/// The kind of an elementary factor.
#[derive(Debug, Clone, Copy, PartialEq, Eq)]
pub enum FactorKind {
    Lu,
    Id,
    Diag,
}

/// What the batch logic reads of a factor: its kind and its column and row
/// indices (`ind_t` and `ind_r` of an LU factor, `ind_s` and `ind_r` of an
/// ID factor, the block indices twice for a diagonal block).
pub struct FactorIndices {
    pub kind: FactorKind,
    pub c_indices: Vec<usize>,
    pub r_indices: Vec<usize>,
}

/// The options a factor of kind `kind` is applied with in a batch: LU
/// factors transposed in the `F` half, ID factors in the `S` half, diagonal
/// blocks as given.
pub open spec fn apply_options_spec(kind: FactorKind, o: MulOptions) -> BaseFactorOptions {
    match kind {
        FactorKind::Lu => if o.factor_type == FactorType::F {
            transposed_options(o.base_options)
        } else {
            o.base_options
        },
        FactorKind::Id => if o.factor_type == FactorType::F {
            o.base_options
        } else {
            transposed_options(o.base_options)
        },
        FactorKind::Diag => o.base_options,
    }
}

/// The options a factor is applied with in a batch (`factor_apply_options`).
pub fn factor_apply_options(kind: FactorKind, factor_options: &MulOptions) -> (o: BaseFactorOptions)
    requires
        transpose_only(factor_options.base_options.trans),
    ensures
        o == apply_options_spec(kind, *factor_options),
{
    match kind {
        FactorKind::Lu => match factor_options.factor_type {
            FactorType::F => factor_options.base_options.transpose(),
            FactorType::S => factor_options.base_options,
        },
        FactorKind::Id => match factor_options.factor_type {
            FactorType::F => factor_options.base_options,
            FactorType::S => factor_options.base_options.transpose(),
        },
        FactorKind::Diag => factor_options.base_options,
    }
}

/// The indices a factor reads and those it updates in a batch.
pub open spec fn footprint(f: (FactorKind, Seq<usize>, Seq<usize>), o: MulOptions) -> (Seq<usize>, Seq<usize>) {
    let l = layout_spec(o.side, apply_options_spec(f.0, o), f.1, f.2);
    (l.0, l.1)
}

/// The view of a factor's indices.
pub open spec fn factor_view(f: FactorIndices) -> (FactorKind, Seq<usize>, Seq<usize>) {
    (f.kind, f.c_indices@, f.r_indices@)
}

/// The indices a factor reads and updates (`factor_read_write_indices`).
pub fn factor_read_write_indices(factor: &FactorIndices, factor_options: &MulOptions) -> (rw: (Vec<usize>, Vec<usize>))
    requires
        transpose_only(factor_options.base_options.trans),
    ensures
        (rw.0@, rw.1@) == footprint(factor_view(*factor), *factor_options),
{
    let base = factor_apply_options(factor.kind, factor_options);
    let layout = factor_apply_layout(factor_options.side, &base, factor.c_indices.as_slice(), factor.r_indices.as_slice());
    (slice_to_vec(layout.source_indices), slice_to_vec(layout.target_indices))
}

/// A copy of `s`.
fn slice_to_vec(s: &[usize]) -> (v: Vec<usize>)
    ensures
        v@ == s@,
{
    let mut v: Vec<usize> = Vec::new();
    let n = s.len();
    let mut k: usize = 0;
    while k < n
        invariant
            n == s@.len(),
            0 <= k <= n,
            v@ == s@.take(k as int),
        decreases n - k,
    {
        v.push(s[k]);
        k = k + 1;
        proof {
            assert(s@.take(k as int) =~= s@.take(k - 1).push(s@[k - 1]));
        }
    }
    proof {
        assert(s@.take(n as int) =~= s@);
    }
    v
}

/// No index occurs in both lists.
pub open spec fn disjoint_indices(a: Seq<usize>, b: Seq<usize>) -> bool {
    forall|i: int, j: int| 0 <= i < a.len() && 0 <= j < b.len() ==> #[trigger] a[i] != #[trigger] b[j]
}

/// Whether no index occurs in both lists (`indices_disjoint`).
pub fn indices_disjoint(a: &[usize], b: &[usize]) -> (d: bool)
    ensures
        d == disjoint_indices(a@, b@),
{
    broadcast use vstd::std_specs::hash::group_hash_axioms;

    let mut a_set: HashSet<usize> = HashSet::new();
    let n = a.len();
    let mut k: usize = 0;
    while k < n
        invariant
            n == a@.len(),
            0 <= k <= n,
            a_set@ == a@.take(k as int).to_set(),
        decreases n - k,
    {
        a_set.insert(a[k]);
        proof {
            assert forall|x: usize| #[trigger] a@.take(k + 1).to_set().contains(x) <==> a@.take(
                k as int,
            ).to_set().insert(a@[k as int]).contains(x) by {
                if a@.take(k + 1).contains(x) {
                    let w = choose|w: int| 0 <= w < k + 1 && #[trigger] a@.take(k + 1)[w] == x;
                    if w < k {
                        assert(a@.take(k as int)[w] == x);
                    }
                }
                if a@.take(k as int).contains(x) {
                    let w = choose|w: int| 0 <= w < k && #[trigger] a@.take(k as int)[w] == x;
                    assert(a@.take(k + 1)[w] == x);
                }
                if x == a@[k as int] {
                    assert(a@.take(k + 1)[k as int] == x);
                }
            }
            assert(a@.take(k + 1).to_set() =~= a@.take(k as int).to_set().insert(a@[k as int]));
        }
        k = k + 1;
    }
    proof {
        assert(a@.take(n as int) =~= a@);
    }
    let m = b.len();
    let mut j: usize = 0;
    while j < m
        invariant
            m == b@.len(),
            0 <= j <= m,
            a_set@ == a@.to_set(),
            forall|i: int, jj: int| 0 <= i < a@.len() && 0 <= jj < j ==> #[trigger] a@[i] != #[trigger] b@[jj],
        decreases m - j,
    {
        if a_set.contains(&b[j]) {
            proof {
                let w = choose|w: int| 0 <= w < a@.len() && a@[w] == b@[j as int];
                assert(a@[w] == b@[j as int]);
            }
            return false;
        }
        proof {
            assert forall|i: int| 0 <= i < a@.len() implies a@[i] != b@[j as int] by {
                assert(a@.to_set().contains(a@[i]));
            }
        }
        j = j + 1;
    }
    true
}

/// Factors of one batch do not interfere: for every two of them, neither
/// updates an index that the other reads or updates.
pub open spec fn noninterfering(factors: Seq<(FactorKind, Seq<usize>, Seq<usize>)>, o: MulOptions) -> bool {
    forall|l: int, r: int|
        0 <= l < r < factors.len() ==> {
            let (lr, lw) = footprint(#[trigger] factors[l], o);
            let (rr, rw) = footprint(#[trigger] factors[r], o);
            disjoint_indices(lw, rw) && disjoint_indices(lr, rw) && disjoint_indices(lw, rr)
        }
}

/// Whether no index occurs in both lists does not depend on their order.
pub proof fn lemma_disjoint_symmetric(a: Seq<usize>, b: Seq<usize>)
    ensures
        disjoint_indices(a, b) == disjoint_indices(b, a),
{
    if disjoint_indices(a, b) {
        assert forall|i: int, j: int| 0 <= i < b.len() && 0 <= j < a.len() implies #[trigger] b[i] != #[trigger] a[j] by {
            assert(a[j] != b[i]);
        }
    }
    if disjoint_indices(b, a) {
        assert forall|i: int, j: int| 0 <= i < a.len() && 0 <= j < b.len() implies #[trigger] a[i] != #[trigger] b[j] by {
            assert(b[j] != a[i]);
        }
    }
}

/// A batch does not interfere exactly when no factor updates an index that
/// another factor of the batch reads or updates, whatever their order in the
/// batch.
pub proof fn lemma_noninterfering_pairs(factors: Seq<(FactorKind, Seq<usize>, Seq<usize>)>, o: MulOptions)
    ensures
        noninterfering(factors, o) <==> forall|i: int, j: int|
            0 <= i < factors.len() && 0 <= j < factors.len() && i != j ==> {
                &&& disjoint_indices(footprint(#[trigger] factors[i], o).1, footprint(#[trigger] factors[j], o).0)
                &&& disjoint_indices(footprint(factors[i], o).1, footprint(factors[j], o).1)
            },
{
    let pairs = forall|i: int, j: int|
        0 <= i < factors.len() && 0 <= j < factors.len() && i != j ==> {
            &&& disjoint_indices(footprint(#[trigger] factors[i], o).1, footprint(#[trigger] factors[j], o).0)
            &&& disjoint_indices(footprint(factors[i], o).1, footprint(factors[j], o).1)
        };
    if noninterfering(factors, o) {
        assert forall|i: int, j: int| 0 <= i < factors.len() && 0 <= j < factors.len() && i != j implies {
            &&& disjoint_indices(footprint(#[trigger] factors[i], o).1, footprint(#[trigger] factors[j], o).0)
            &&& disjoint_indices(footprint(factors[i], o).1, footprint(factors[j], o).1)
        } by {
            let fi = footprint(factors[i], o);
            let fj = footprint(factors[j], o);
            if i < j {
                assert(disjoint_indices(fi.1, fj.1) && disjoint_indices(fi.0, fj.1) && disjoint_indices(fi.1, fj.0));
            } else {
                assert(disjoint_indices(fj.1, fi.1) && disjoint_indices(fj.0, fi.1) && disjoint_indices(fj.1, fi.0));
                lemma_disjoint_symmetric(fj.1, fi.1);
                lemma_disjoint_symmetric(fj.0, fi.1);
            }
        }
    }
    if pairs {
        assert forall|l: int, r: int| 0 <= l < r < factors.len() implies {
            let (lr, lw) = footprint(#[trigger] factors[l], o);
            let (rr, rw) = footprint(#[trigger] factors[r], o);
            disjoint_indices(lw, rw) && disjoint_indices(lr, rw) && disjoint_indices(lw, rr)
        } by {
            let fl = footprint(factors[l], o);
            let fr = footprint(factors[r], o);
            assert(disjoint_indices(fl.1, fr.0) && disjoint_indices(fl.1, fr.1));
            assert(disjoint_indices(fr.1, fl.0));
            lemma_disjoint_symmetric(fr.1, fl.0);
        }
    }
}

/// The views of a list of factors.
pub open spec fn factors_view(factors: Seq<FactorIndices>) -> Seq<(FactorKind, Seq<usize>, Seq<usize>)> {
    factors.map_values(|f: FactorIndices| factor_view(f))
}

/// Whether the factors of a batch can be applied at once
/// at once.
pub fn chunk_noninterfering(factors: &[FactorIndices], factor_options: &MulOptions) -> (ok: bool)
    requires
        transpose_only(factor_options.base_options.trans),
    ensures
        ok == noninterfering(factors_view(factors@), *factor_options),
{
    let ghost fs = factors_view(factors@);
    let n = factors.len();
    let mut footprints: Vec<(Vec<usize>, Vec<usize>)> = Vec::new();
    let mut k: usize = 0;
    while k < n
        invariant
            n == factors@.len(),
            fs == factors_view(factors@),
            transpose_only(factor_options.base_options.trans),
            0 <= k <= n,
            footprints@.len() == k,
            forall|i: int| 0 <= i < k ==> (#[trigger] footprints@[i].0@, footprints@[i].1@) == footprint(fs[i], *factor_options),
        decreases n - k,
    {
        footprints.push(factor_read_write_indices(&factors[k], factor_options));
        k = k + 1;
    }
    let mut left: usize = 0;
    while left < n
        invariant
            n == factors@.len(),
            n == footprints@.len(),
            fs == factors_view(factors@),
            0 <= left <= n,
            forall|i: int| 0 <= i < n ==> (#[trigger] footprints@[i].0@, footprints@[i].1@) == footprint(fs[i], *factor_options),
            forall|l: int, r: int|
                0 <= l < left && l < r < n ==> {
                    let (lr, lw) = footprint(#[trigger] fs[l], *factor_options);
                    let (rr, rw) = footprint(#[trigger] fs[r], *factor_options);
                    disjoint_indices(lw, rw) && disjoint_indices(lr, rw) && disjoint_indices(lw, rr)
                },
        decreases n - left,
    {
        let mut right: usize = left + 1;
        while right < n
            invariant
                n == factors@.len(),
                n == footprints@.len(),
                fs == factors_view(factors@),
                0 <= left < n,
                left + 1 <= right <= n,
                forall|i: int| 0 <= i < n ==> (#[trigger] footprints@[i].0@, footprints@[i].1@) == footprint(fs[i], *factor_options),
                forall|r: int|
                    left < r < right ==> {
                        let (lr, lw) = footprint(fs[left as int], *factor_options);
                        let (rr, rw) = footprint(#[trigger] fs[r], *factor_options);
                        disjoint_indices(lw, rw) && disjoint_indices(lr, rw) && disjoint_indices(lw, rr)
                    },
            decreases n - right,
        {
            let (left_reads, left_writes) = (&footprints[left].0, &footprints[left].1);
            let (right_reads, right_writes) = (&footprints[right].0, &footprints[right].1);
            proof {
                assert((footprints@[left as int].0@, footprints@[left as int].1@) == footprint(fs[left as int], *factor_options));
                assert((footprints@[right as int].0@, footprints@[right as int].1@) == footprint(fs[right as int], *factor_options));
            }
            if !(indices_disjoint(left_writes.as_slice(), right_writes.as_slice())
                && indices_disjoint(left_reads.as_slice(), right_writes.as_slice())
                && indices_disjoint(left_writes.as_slice(), right_reads.as_slice())) {
                return false;
            }
            right = right + 1;
        }
        left = left + 1;
    }
    true
}

/// Permutation factor: moves the rows (from the left) or columns (from the
/// right) of its target to the places `perm_indices` gives.
pub struct PermFactor {
    pub orig_indices: Vec<usize>,
    pub perm_indices: Vec<usize>,
}

/// Whether the permutation is applied transposed: the orientation of the
/// options, flipped for the inverse.
pub open spec fn perm_trans(options: BaseFactorOptions) -> bool {
    if options.inv {
        !transposes(options.trans)
    } else {
        transposes(options.trans)
    }
}

/// Bytes a list of `len` indices takes.
pub open spec fn index_list_bytes(len: nat) -> nat {
    len * (usize::BITS / 8) as nat
}

impl PermFactor {
    /// A permutation factor from its original and permuted indices.
    pub fn new(orig_indices: Vec<usize>, perm_indices: Vec<usize>) -> (p: Self)
        ensures
            p.orig_indices@ == orig_indices@,
            p.perm_indices@ == perm_indices@,
    {
        PermFactor { orig_indices, perm_indices }
    }

    /// Applies the permutation to the rows of `right_arr` (`left_mul`): row
    /// `perm[i]` receives row `i`, or, transposed, row `i` receives row
    /// `perm[i]`.
    pub fn left_mul<T: Copy>(&self, right_arr: &mut ColMatrix<T>, options: &BaseFactorOptions)
        requires
            transpose_only(options.trans),
            old(right_arr)@.wf(),
            self.perm_indices@.len() == old(right_arr)@.rows,
            indices_below(self.perm_indices@, old(right_arr)@.rows),
        ensures
            final(right_arr)@.wf(),
            is_row_permutation(
                final(right_arr)@,
                old(right_arr)@,
                perm_targets(identity_indices(old(right_arr)@.rows), self.perm_indices@, perm_trans(*options)),
                perm_sources(identity_indices(old(right_arr)@.rows), self.perm_indices@, perm_trans(*options)),
                old(right_arr)@.rows as int,
            ),
    {
        let rows = right_arr.shape()[0];
        let orig = identity_list(rows);
        let trans = if options.inv {
            let aux_options = options.transpose();
            aux_options.trans_val()
        } else {
            options.trans_val()
        };
        let perm = slice_to_vec(self.perm_indices.as_slice());
        proof {
            assert(perm_count(orig@, perm@) == rows);
        }
        row_perm(orig, perm, right_arr, trans);
    }

    /// Applies the permutation to the columns of `left_arr` (`right_mul`).
    pub fn right_mul<T: Copy>(&self, left_arr: &mut ColMatrix<T>, options: &BaseFactorOptions)
        requires
            transpose_only(options.trans),
            old(left_arr)@.wf(),
            self.perm_indices@.len() == old(left_arr)@.cols,
            indices_below(self.perm_indices@, old(left_arr)@.cols),
        ensures
            final(left_arr)@.wf(),
            is_col_permutation(
                final(left_arr)@,
                old(left_arr)@,
                perm_targets(identity_indices(old(left_arr)@.cols), self.perm_indices@, perm_trans(*options)),
                perm_sources(identity_indices(old(left_arr)@.cols), self.perm_indices@, perm_trans(*options)),
                old(left_arr)@.cols as int,
            ),
    {
        let cols = left_arr.shape()[1];
        let orig = identity_list(cols);
        let trans = if options.inv {
            let aux_options = options.transpose();
            aux_options.trans_val()
        } else {
            options.trans_val()
        };
        let perm = slice_to_vec(self.perm_indices.as_slice());
        proof {
            assert(perm_count(orig@, perm@) == cols);
        }
        col_perm(orig, perm, left_arr, trans);
    }

    /// Bytes the two index lists take (`stored_bytes`).
    pub fn stored_bytes(&self) -> (bytes: u64)
        requires
            index_list_bytes(self.orig_indices@.len()) + index_list_bytes(self.perm_indices@.len())
                <= u64::MAX,
        ensures
            bytes == index_list_bytes(self.orig_indices@.len()) + index_list_bytes(
                self.perm_indices@.len(),
            ),
    {
        let word: u64 = (usize::BITS / 8) as u64;
        proof {
            assert(self.orig_indices@.len() * word <= u64::MAX);
            assert(self.perm_indices@.len() * word <= u64::MAX);
        }
        let a: u64 = (self.orig_indices.len() as u64) * word;
        let b: u64 = (self.perm_indices.len() as u64) * word;
        a + b
    }
}

/// The indices `0..n`.
fn identity_list(n: usize) -> (v: Vec<usize>)
    ensures
        v@ == identity_indices(n as nat),
{
    let mut v: Vec<usize> = Vec::new();
    let mut i: usize = 0;
    while i < n
        invariant
            0 <= i <= n,
            v@ == identity_indices(i as nat),
        decreases n - i,
    {
        v.push(i);
        i = i + 1;
        proof {
            assert(v@ =~= identity_indices(i as nat));
        }
    }
    v
}

/// `n` distinct indices below `n` are all of them.
pub proof fn lemma_distinct_covers(perm: Seq<usize>, n: nat)
    requires
        perm.len() == n,
        n <= usize::MAX,
        distinct_indices(perm),
        indices_below(perm, n),
    ensures
        forall|x: usize| x < n ==> perm.contains(x),
{
    assert(perm.no_duplicates()) by {
        assert forall|a: int, b: int| 0 <= a < perm.len() && 0 <= b < perm.len() && a != b implies perm[a] != perm[b] by {
            assert(perm[a] != perm[b]);
        }
    }
    perm.unique_seq_to_set();
    lemma_below_len(n);
    assert(perm.to_set().subset_of(below(n))) by {
        assert forall|x: usize| perm.to_set().contains(x) implies below(n).contains(x) by {
            let w = choose|w: int| 0 <= w < perm.len() && perm[w] == x;
            assert(perm[w] < n);
        }
    }
    vstd::set_lib::lemma_len_subset(perm.to_set(), below(n));
    vstd::set_lib::lemma_subset_equality(perm.to_set(), below(n));
    assert forall|x: usize| x < n implies perm.contains(x) by {
        assert(below(n).contains(x));
        assert(perm.to_set().contains(x));
    }
}

/// Applying a permutation factor and then its inverse restores the target:
/// for a permutation of the rows, `left_mul` with the options and then with
/// the inverted options gives back every entry.
pub proof fn lemma_perm_left_mul_roundtrip<T>(
    a: MatrixView<T>,
    a1: MatrixView<T>,
    a2: MatrixView<T>,
    perm: Seq<usize>,
    options: BaseFactorOptions,
)
    requires
        perm.len() == a.rows,
        a.rows <= usize::MAX,
        distinct_indices(perm),
        indices_below(perm, a.rows),
        is_row_permutation(
            a1,
            a,
            perm_targets(identity_indices(a.rows), perm, perm_trans(options)),
            perm_sources(identity_indices(a.rows), perm, perm_trans(options)),
            a.rows as int,
        ),
        is_row_permutation(
            a2,
            a1,
            perm_targets(identity_indices(a.rows), perm, perm_trans(inverted_options(options))),
            perm_sources(identity_indices(a.rows), perm, perm_trans(inverted_options(options))),
            a.rows as int,
        ),
    ensures
        a2.same_entries(a),
{
    let n = a.rows;
    let ident = identity_indices(n);
    assert(perm.take(n as int) =~= perm);
    assert(ident.take(n as int) =~= ident);
    assert forall|t: int| 0 <= t < n implies #[trigger] ident[t] == t by {}
    assert(distinct_indices(ident));
    if !perm_trans(options) {
        crate::matrix::lemma_row_perm_roundtrip(a, a1, a2, perm);
    } else {
        lemma_distinct_covers(perm, n);
        assert forall|i: int, j: int| 0 <= i < a2.rows && 0 <= j < a2.cols implies #[trigger] a2.at(
            i,
            j,
        ) == a.at(i, j) by {
            assert(perm.contains(i as usize));
            let k = choose|k: int| 0 <= k < perm.len() && perm[k] == i as usize;
            lemma_last_pos_distinct(perm, k);
            lemma_last_pos_distinct(ident, k);
            assert(ident[k] == k);
            assert(a1.at(k, j) == a.at(perm[k] as int, j));
        }
    }
}

/// Bytes and counts of the stored factors, by kind.
#[derive(Debug, Clone, Copy, Default)]
pub struct FactorMemoryBreakdown {
    pub id_bytes: u64,
    pub lu_bytes: u64,
    pub diag_bytes: u64,
    pub perm_bytes: u64,
    pub id_count: usize,
    pub lu_count: usize,
    pub diag_count: usize,
}

impl FactorMemoryBreakdown {
    /// Bytes of all factors together (`total_bytes`).
    pub fn total_bytes(&self) -> (total: u64)
        requires
            self.id_bytes + self.lu_bytes + self.diag_bytes + self.perm_bytes <= u64::MAX,
        ensures
            total == self.id_bytes + self.lu_bytes + self.diag_bytes + self.perm_bytes,
    {
        self.id_bytes + self.lu_bytes + self.diag_bytes + self.perm_bytes
    }

    /// Counts a factor of kind `kind` that stores `bytes` bytes
    /// (`add_factor`).
    pub fn add_factor(&mut self, kind: FactorKind, bytes: u64)
        requires
            kind == FactorKind::Id ==> old(self).id_bytes + bytes <= u64::MAX && old(self).id_count
                < usize::MAX,
            kind == FactorKind::Lu ==> old(self).lu_bytes + bytes <= u64::MAX && old(self).lu_count
                < usize::MAX,
            kind == FactorKind::Diag ==> old(self).diag_bytes + bytes <= u64::MAX && old(
                self,
            ).diag_count < usize::MAX,
        ensures
            *final(self) == (match kind {
                FactorKind::Id => FactorMemoryBreakdown {
                    id_bytes: (old(self).id_bytes + bytes) as u64,
                    id_count: (old(self).id_count + 1) as usize,
                    ..*old(self)
                },
                FactorKind::Lu => FactorMemoryBreakdown {
                    lu_bytes: (old(self).lu_bytes + bytes) as u64,
                    lu_count: (old(self).lu_count + 1) as usize,
                    ..*old(self)
                },
                FactorKind::Diag => FactorMemoryBreakdown {
                    diag_bytes: (old(self).diag_bytes + bytes) as u64,
                    diag_count: (old(self).diag_count + 1) as usize,
                    ..*old(self)
                },
            }),
    {
        match kind {
            FactorKind::Id => {
                self.id_bytes = self.id_bytes + bytes;
                self.id_count = self.id_count + 1;
            },
            FactorKind::Lu => {
                self.lu_bytes = self.lu_bytes + bytes;
                self.lu_count = self.lu_count + 1;
            },
            FactorKind::Diag => {
                self.diag_bytes = self.diag_bytes + bytes;
                self.diag_count = self.diag_count + 1;
            },
        }
    }
}

/// Memory budget under which diagonal blocks are extracted directly.
pub const DIRECT_DIAG_BYTES_BUDGET: u64 = 8388608u64;

/// `a * b`, saturating at `u64::MAX`.
pub open spec fn sat_mul(a: nat, b: nat) -> nat {
    if a * b > u64::MAX {
        u64::MAX as nat
    } else {
        a * b
    }
}

/// `a + b`, saturating at `u64::MAX`.
pub open spec fn sat_add(a: nat, b: nat) -> nat {
    if a + b > u64::MAX {
        u64::MAX as nat
    } else {
        a + b
    }
}

/// Whether the diagonal blocks are extracted directly
/// (`prefer_direct_diag_extraction`): the extracted `subs_sample_dim x
/// rows_len` blocks, one per buffer, and the `rows_len x rows_len` squares,
/// one less, fit the budget (all counts saturating).
pub open spec fn prefer_direct_spec(
    rows_len: nat,
    subs_sample_dim: nat,
    nonsymmetric_buffers: nat,
    item_size: nat,
) -> bool {
    let extracted = sat_mul(matrix_bytes_spec(subs_sample_dim, rows_len, item_size), nonsymmetric_buffers);
    let others: nat = if nonsymmetric_buffers >= 1 {
        (nonsymmetric_buffers - 1) as nat
    } else {
        0
    };
    let square = sat_mul(matrix_bytes_spec(rows_len, rows_len, item_size), others);
    sat_add(extracted, square) <= DIRECT_DIAG_BYTES_BUDGET
}

/// `a * b`, saturating at `u64::MAX` (`u64::saturating_mul`).
fn saturating_mul_u64(a: u64, b: u64) -> (p: u64)
    ensures
        p == sat_mul(a as nat, b as nat),
{
    match a.checked_mul(b) {
        Some(v) => v,
        None => u64::MAX,
    }
}

/// Whether the diagonal blocks are extracted directly, for entries of
/// `item_size` bytes (`prefer_direct_diag_extraction`).
pub fn prefer_direct_diag_extraction(
    rows_len: usize,
    subs_sample_dim: usize,
    nonsymmetric_buffers: usize,
    item_size: usize,
) -> (direct: bool)
    requires
        subs_sample_dim * rows_len <= u64::MAX,
        subs_sample_dim * rows_len * item_size <= u64::MAX,
        rows_len * rows_len <= u64::MAX,
        rows_len * rows_len * item_size <= u64::MAX,
    ensures
        direct == prefer_direct_spec(
            rows_len as nat,
            subs_sample_dim as nat,
            nonsymmetric_buffers as nat,
            item_size as nat,
        ),
{
    let extracted = saturating_mul_u64(
        matrix_bytes(subs_sample_dim, rows_len, item_size),
        nonsymmetric_buffers as u64,
    );
    let others: usize = if nonsymmetric_buffers >= 1 {
        nonsymmetric_buffers - 1
    } else {
        0
    };
    let square = saturating_mul_u64(matrix_bytes(rows_len, rows_len, item_size), others as u64);
    extracted.saturating_add(square) <= DIRECT_DIAG_BYTES_BUDGET
}

/// The chunks in which a batch of `len` factors is applied, `size` at a
/// time: chunk `k` covers `k * size` up to `(k + 1) * size`, cut at `len`.
pub open spec fn chunk_ranges_spec(len: nat, size: nat) -> Seq<(usize, usize)> {
    Seq::new(
        ((len + size - 1) / (size as int)) as nat,
        |k: int| ((k * size) as usize, (if (k + 1) * size < len { (k + 1) * size } else { len as int }) as usize),
    )
}

/// The chunks `(start, end)` of `len` items taken `size` at a time.
pub fn chunk_ranges(len: usize, size: usize) -> (ranges: Vec<(usize, usize)>)
    requires
        size >= 1,
    ensures
        ranges@ == chunk_ranges_spec(len as nat, size as nat),
{
    let ghost spec_ranges = chunk_ranges_spec(len as nat, size as nat);
    let mut ranges: Vec<(usize, usize)> = Vec::new();
    let mut start: usize = 0;
    let ghost mut k: int = 0;
    proof {
        if len == 0 {
            assert((size - 1) / (size as int) == 0) by (nonlinear_arith)
                requires
                    size >= 1,
            ;
        } else {
            assert((len + size - 1) / (size as int) >= 1) by (nonlinear_arith)
                requires
                    size >= 1,
                    len >= 1,
            ;
        }
    }
    while start < len
        invariant
            size >= 1,
            spec_ranges == chunk_ranges_spec(len as nat, size as nat),
            0 <= k,
            start <= len,
            start < len ==> start == k * size,
            k <= spec_ranges.len(),
            start < len ==> k < spec_ranges.len(),
            start >= len ==> k == spec_ranges.len(),
            ranges@ == spec_ranges.take(k),
        decreases len - start,
    {
        let end = if size < len - start {
            start + size
        } else {
            len
        };
        ranges.push((start, end));
        proof {
            assert((k + 1) * size == k * size + size) by (nonlinear_arith);
            assert(spec_ranges[k] == (start, end));
            assert(ranges@ =~= spec_ranges.take(k + 1));
            k = k + 1;
        }
        start = end;
        proof {
            if end == len {
                assert(k >= (len + size - 1) / (size as int)) by (nonlinear_arith)
                    requires
                        (k - 1) * size < len,
                        k * size >= len,
                        size >= 1,
                ;
            } else {
                assert(k < (len + size - 1) / (size as int)) by (nonlinear_arith)
                    requires
                        k * size < len,
                        size >= 1,
                ;
            }
        }
    }
    proof {
        assert(spec_ranges.take(k) =~= spec_ranges);
    }
    ranges
}

/// How a batch of factors is applied (the schedule of
/// a batch of commutative factors): in chunks of `max(num_threads, 1)` factors,
/// each applied in place when it holds no diagonal block (`true`), else
/// through extracted blocks.
pub fn mul_schedule(kinds: &[FactorKind], num_threads: usize) -> (plan: Vec<(usize, usize, bool)>)
    ensures
        ({
            let size = if num_threads < 1 {
                1nat
            } else {
                num_threads as nat
            };
            let ranges = chunk_ranges_spec(kinds@.len(), size);
            &&& plan@.len() == ranges.len()
            &&& forall|k: int|
                0 <= k < plan@.len() ==> (#[trigger] plan@[k]).0 == ranges[k].0 && plan@[k].1
                    == ranges[k].1 && plan@[k].2 == (forall|f: int|
                    ranges[k].0 <= f < ranges[k].1 ==> kinds@[f] != FactorKind::Diag)
        }),
{
    let len = kinds.len();
    let size: usize = if num_threads < 1 {
        1
    } else {
        num_threads
    };
    let ranges = chunk_ranges(len, size);
    proof {
        lemma_chunks_cover(len as nat, size as nat);
    }
    let count = ranges.len();
    let mut plan: Vec<(usize, usize, bool)> = Vec::new();
    let mut k: usize = 0;
    while k < count
        invariant
            count == ranges@.len(),
            len == kinds@.len(),
            ranges@ == chunk_ranges_spec(len as nat, size as nat),
            forall|q: int| 0 <= q < count ==> ranges@[q].0 < #[trigger] ranges@[q].1 <= len,
            0 <= k <= count,
            plan@.len() == k,
            forall|q: int|
                0 <= q < k ==> (#[trigger] plan@[q]).0 == ranges@[q].0 && plan@[q].1 == ranges@[q].1
                    && plan@[q].2 == (forall|f: int|
                    ranges@[q].0 <= f < ranges@[q].1 ==> kinds@[f] != FactorKind::Diag),
        decreases count - k,
    {
        let (start, end) = ranges[k];
        let mut direct = true;
        let mut f = start;
        while f < end
            invariant
                start <= f <= end <= len,
                len == kinds@.len(),
                direct == (forall|g: int| start <= g < f ==> kinds@[g] != FactorKind::Diag),
            decreases end - f,
        {
            if matches!(kinds[f], FactorKind::Diag) {
                direct = false;
            }
            f = f + 1;
        }
        plan.push((start, end, direct));
        k = k + 1;
    }
    plan
}

/// Indices below `n` that are not in the near field (`get_far_indices`), in
/// increasing order.
pub fn get_far_indices(n: usize, near_indices: Vec<usize>) -> (far: Vec<usize>)
    ensures
        far@ == index_range(n as nat).filter(|x: usize| !near_indices@.contains(x)),
{
    broadcast use vstd::std_specs::hash::group_hash_axioms;

    let ghost near = near_indices@;
    let mut near_set: HashSet<usize> = HashSet::new();
    let m = near_indices.len();
    let mut k: usize = 0;
    while k < m
        invariant
            m == near.len(),
            near == near_indices@,
            0 <= k <= m,
            near_set@ == near.take(k as int).to_set(),
        decreases m - k,
    {
        near_set.insert(near_indices[k]);
        proof {
            assert forall|x: usize| #[trigger] near.take(k + 1).to_set().contains(x) <==> near.take(
                k as int,
            ).to_set().insert(near[k as int]).contains(x) by {
                if near.take(k + 1).contains(x) {
                    let w = choose|w: int| 0 <= w < k + 1 && #[trigger] near.take(k + 1)[w] == x;
                    if w < k {
                        assert(near.take(k as int)[w] == x);
                    }
                }
                if near.take(k as int).contains(x) {
                    let w = choose|w: int| 0 <= w < k && #[trigger] near.take(k as int)[w] == x;
                    assert(near.take(k + 1)[w] == x);
                }
                if x == near[k as int] {
                    assert(near.take(k + 1)[k as int] == x);
                }
            }
            assert(near.take(k + 1).to_set() =~= near.take(k as int).to_set().insert(near[k as int]));
        }
        k = k + 1;
    }
    proof {
        assert(near.take(m as int) =~= near);
    }
    let ghost keep = |x: usize| !near.contains(x);
    let mut far: Vec<usize> = Vec::new();
    let mut i: usize = 0;
    while i < n
        invariant
            0 <= i <= n,
            near_set@ == near.to_set(),
            keep == (|x: usize| !near.contains(x)),
            far@ == index_range(i as nat).filter(keep),
        decreases n - i,
    {
        proof {
            reveal(Seq::filter);
            assert(index_range((i + 1) as nat).drop_last() =~= index_range(i as nat));
            assert(index_range((i + 1) as nat).last() == i);
        }
        let inside = near_set.contains(&i);
        proof {
            assert(inside == near.contains(i));
        }
        if !inside {
            far.push(i);
        }
        i = i + 1;
    }
    far
}

/// The chunks of a batch cover it in order without gaps or overlaps: the
/// first starts at 0, each ends where the next starts, the last ends at
/// `len`, and each holds between 1 and `size` factors.
pub proof fn lemma_chunks_cover(len: nat, size: nat)
    requires
        size >= 1,
        len <= usize::MAX,
    ensures
        ({
            let r = chunk_ranges_spec(len, size);
            &&& len > 0 ==> r.len() > 0 && r[0].0 == 0 && r[r.len() - 1].1 == len
            &&& len == 0 ==> r.len() == 0
            &&& forall|k: int| 0 <= k < r.len() - 1 ==> #[trigger] r[k].1 == r[k + 1].0
            &&& forall|k: int| 0 <= k < r.len() ==> r[k].0 < #[trigger] r[k].1 <= r[k].0 + size
            &&& forall|k: int| 0 <= k < r.len() ==> #[trigger] r[k].1 <= len
        }),
{
    let r = chunk_ranges_spec(len, size);
    let c = (len + size - 1) / (size as int);
    assert(c * size < len + size && len <= c * size) by (nonlinear_arith)
        requires
            c == (len + size - 1) / (size as int),
            size >= 1,
    ;
    assert forall|k: int| 0 <= k < r.len() implies r[k].0 < #[trigger] r[k].1 <= r[k].0 + size by {
        assert(k * size < len && (k + 1) * size == k * size + size) by (nonlinear_arith)
            requires
                0 <= k < c,
                c * size < len + size,
                size >= 1,
        ;
    }
    assert forall|k: int| 0 <= k < r.len() - 1 implies #[trigger] r[k].1 == r[k + 1].0 by {
        assert((k + 1) * size < len) by (nonlinear_arith)
            requires
                0 <= k < c - 1,
                c * size < len + size,
                size >= 1,
        ;
    }
    if len > 0 {
        assert(c >= 1) by (nonlinear_arith)
            requires
                c == (len + size - 1) / (size as int),
                size >= 1,
                len >= 1,
        ;
        assert(!(c * size < len));
    } else {
        assert(c == 0) by (nonlinear_arith)
            requires
                c == (len + size - 1) / (size as int),
                size >= 1,
                len == 0,
        ;
    }
}

/// `target` with its first `perm.len()` entries replaced by
/// `target[perm[i]]`.
pub open spec fn permuted_prefix(target: Seq<usize>, perm: Seq<usize>) -> Seq<usize> {
    Seq::new(target.len(), |i: int| if i < perm.len() { target[perm[i] as int] } else { target[i] })
}

/// `dst` with its first `perm.len()` entries replaced by `src[perm[i]]`.
pub open spec fn overwritten_prefix(dst: Seq<usize>, src: Seq<usize>, perm: Seq<usize>) -> Seq<usize> {
    Seq::new(dst.len(), |i: int| if i < perm.len() { src[perm[i] as int] } else { dst[i] })
}

/// The index lists of an ID factor: redundant, skeleton and far-field
/// indices.
pub struct IdIndices {
    pub ind_r: Vec<usize>,
    pub ind_s: Vec<usize>,
    pub ind_f: Vec<usize>,
}

/// The index bookkeeping of the ID of a box whose nullified sketch has
/// `max_rank` as its smaller side. A sketch with a side of at most one
/// gives no factor; otherwise an ID of rank `rank` below `max_rank`
/// compresses the box: when the box
/// has a far field (indices below `dim` outside `near_field_inds`), its
/// targets are reordered by the ID's permutation `perm` (and the same
/// values are written over the first near-field entries); the first `rank`
/// targets are then the skeleton and the rest redundant; the far field is
/// kept when `store_far` holds. Without compression there is no factor.
pub fn id_indices(
    target_inds: &mut Vec<usize>,
    near_field_inds: &mut Vec<usize>,
    perm: &[usize],
    rank: usize,
    max_rank: usize,
    dim: usize,
    store_far: bool,
) -> (res: Option<IdIndices>)
    requires
        1 < max_rank && rank < max_rank ==> {
            &&& perm@.len() <= old(target_inds)@.len()
            &&& perm@.len() <= old(near_field_inds)@.len()
            &&& forall|i: int| 0 <= i < perm@.len() ==> #[trigger] perm@[i] < old(target_inds)@.len()
            &&& rank <= old(target_inds)@.len()
        },
    ensures
        max_rank <= 1 || rank >= max_rank ==> res is None && final(target_inds)@ == old(target_inds)@
            && final(near_field_inds)@ == old(near_field_inds)@,
        1 < max_rank && rank < max_rank ==> {
            let far = index_range(dim as nat).filter(|x: usize| !old(near_field_inds)@.contains(x));
            let moved = far.len() > 0;
            &&& final(target_inds)@ == if moved {
                permuted_prefix(old(target_inds)@, perm@)
            } else {
                old(target_inds)@
            }
            &&& final(near_field_inds)@ == if moved {
                overwritten_prefix(old(near_field_inds)@, old(target_inds)@, perm@)
            } else {
                old(near_field_inds)@
            }
            &&& res matches Some(ids)
            &&& ids.ind_s@ == final(target_inds)@.take(rank as int)
            &&& ids.ind_r@ == final(target_inds)@.skip(rank as int)
            &&& ids.ind_f@ == if store_far {
                far
            } else {
                Seq::empty()
            }
        },
{
    if max_rank <= 1 || rank >= max_rank {
        return None;
    }
    let near_copy = slice_to_vec(near_field_inds.as_slice());
    let far = get_far_indices(dim, near_copy);
    if far.len() > 0 {
        let aux = slice_to_vec(target_inds.as_slice());
        let ghost old_near = near_field_inds@;
        let n = perm.len();
        let mut id: usize = 0;
        while id < n
            invariant
                n == perm@.len(),
                0 <= id <= n,
                n <= aux@.len(),
                n <= old_near.len(),
                forall|i: int| 0 <= i < n ==> #[trigger] perm@[i] < aux@.len(),
                target_inds@.len() == aux@.len(),
                near_field_inds@.len() == old_near.len(),
                forall|i: int| 0 <= i < target_inds@.len() ==> #[trigger] target_inds@[i] == if i < id {
                    aux@[perm@[i] as int]
                } else {
                    aux@[i]
                },
                forall|i: int| 0 <= i < near_field_inds@.len() ==> #[trigger] near_field_inds@[i] == if i < id {
                    aux@[perm@[i] as int]
                } else {
                    old_near[i]
                },
            decreases n - id,
        {
            let val = aux[perm[id]];
            target_inds.set(id, val);
            near_field_inds.set(id, val);
            id = id + 1;
        }
        proof {
            assert(target_inds@ =~= permuted_prefix(aux@, perm@));
            assert(near_field_inds@ =~= overwritten_prefix(old_near, aux@, perm@));
        }
    }
    let total = target_inds.len();
    let mut ind_s: Vec<usize> = Vec::new();
    let mut ind_r: Vec<usize> = Vec::new();
    let mut k: usize = 0;
    while k < total
        invariant
            total == target_inds@.len(),
            rank <= total,
            0 <= k <= total,
            ind_s@ == target_inds@.take(if k < rank { k as int } else { rank as int }),
            ind_r@ == if k < rank { Seq::<usize>::empty() } else { target_inds@.subrange(rank as int, k as int) },
        decreases total - k,
    {
        if k < rank {
            ind_s.push(target_inds[k]);
        } else {
            ind_r.push(target_inds[k]);
        }
        k = k + 1;
        proof {
            if k <= rank {
                assert(ind_s@ =~= target_inds@.take(k as int));
            } else {
                assert(ind_r@ =~= target_inds@.subrange(rank as int, k as int));
            }
        }
    }
    proof {
        assert(target_inds@.subrange(rank as int, total as int) =~= target_inds@.skip(rank as int));
        if rank == total {
            assert(target_inds@.skip(rank as int) =~= Seq::<usize>::empty());
        }
    }
    let ind_f = if store_far {
        far
    } else {
        Vec::new()
    };
    Some(IdIndices { ind_r, ind_s, ind_f })
}

/// Whether the ID of a box with `target_len` indices is skipped, the box
/// being kept at full rank: it has no more indices than `min_rank`, or, for
/// an ID tolerance above one read as the whole number `tol_rank`, no
/// more than that rank.
pub fn skip_id(target_len: usize, min_rank: usize, tol_rank: Option<usize>) -> (skip: bool)
    ensures
        skip == (target_len <= min_rank || (tol_rank matches Some(r) && target_len <= r)),
{
    if target_len <= min_rank {
        return true;
    }
    match tol_rank {
        Some(r) => target_len <= r,
        None => false,
    }
}

/// Whether the ID of a box compressed it: the ID gave a factor with
/// redundant indices. Otherwise the box stays at full rank.
pub fn id_compressed(ids: &Option<IdIndices>) -> (low_rank: bool)
    ensures
        low_rank == (ids matches Some(f) && f.ind_r@.len() > 0),
{
    match ids {
        Some(f) => f.ind_r.len() > 0,
        None => false,
    }
}

/// Whether a box with `ind_r_len` redundant indices and a near field of
/// `near_len` indices gets an LU factor: it has redundant indices and its
/// near field holds more indices than them.
pub fn lu_step_applies(ind_r_len: usize, near_len: usize) -> (applies: bool)
    ensures
        applies == (ind_r_len > 0 && near_len > ind_r_len),
{
    if ind_r_len == 0 {
        return false;
    }
    near_len > ind_r_len
}

/// What an ID aims for: a tolerance, or a fixed rank.
#[derive(Debug, Clone, Copy, PartialEq, Eq)]
pub enum Accuracy {
    Tol,
    FixedRank(usize),
}

/// What the ID of a box aims for: a merged box its
/// merged rank, at most `max_rank`; a full box the tolerance, or, for a
/// tolerance above one read as the whole number `tol_rank`, that rank,
/// at most `max_rank`.
pub fn id_accuracy(merged_rank: Option<usize>, tol_rank: Option<usize>, max_rank: usize) -> (a: Accuracy)
    ensures
        a == match merged_rank {
            Some(r) => Accuracy::FixedRank(if r < max_rank { r } else { max_rank }),
            None => match tol_rank {
                None => Accuracy::Tol,
                Some(t) => Accuracy::FixedRank(if max_rank < t { max_rank } else { t }),
            },
        },
{
    match merged_rank {
        Some(r) => Accuracy::FixedRank(if r < max_rank { r } else { max_rank }),
        None => match tol_rank {
            None => Accuracy::Tol,
            Some(t) => Accuracy::FixedRank(if max_rank < t { max_rank } else { t }),
        },
    }
}

/// Whether applying an ID or LU factor of an operator with symmetry
/// `symmetry` needs an explicit conjugation (`conj_val`): without symmetry
/// when it is not transposed, for a Hermitian operator when it is, never for
/// a symmetric one.
pub fn conj_val(symmetry: Symmetry, trans_val: bool) -> (c: bool)
    ensures
        c == match symmetry {
            Symmetry::NoSymm => !trans_val,
            Symmetry::Symmetric => false,
            Symmetry::Hermitian => trans_val,
        },
{
    match symmetry {
        Symmetry::NoSymm => !trans_val,
        Symmetry::Symmetric => false,
        Symmetry::Hermitian => trans_val,
    }
}

/// Whether applying an LU factor of an operator with symmetry `symmetry`
/// needs an explicit conjugation: when it is
/// transposed, except for a symmetric operator.
pub fn lu_conj_val(symmetry: Symmetry, trans_val: bool) -> (c: bool)
    ensures
        c == match symmetry {
            Symmetry::NoSymm => trans_val,
            Symmetry::Symmetric => false,
            Symmetry::Hermitian => trans_val,
        },
{
    match symmetry {
        Symmetry::NoSymm => trans_val,
        Symmetry::Symmetric => false,
        Symmetry::Hermitian => trans_val,
    }
}

/// The entries are in increasing order.
pub open spec fn sorted_indices(s: Seq<usize>) -> bool {
    forall|a: int, b: int| 0 <= a < b < s.len() ==> #[trigger] s[a] <= #[trigger] s[b]
}

/// The numbering an LU factor of a box uses inside its near field: for
/// each redundant index, its
/// (last) position in the near field; the positions and entries of the
/// near field that are neither redundant nor inactive.
pub struct LuNumbering {
    pub r_numbering: Vec<usize>,
    pub t_numbering: Vec<usize>,
    pub ind_t: Vec<usize>,
}

/// Positions of the near field kept by an LU factor.
pub open spec fn kept_positions(near: Seq<usize>, ind_r: Seq<usize>, inactive: Seq<usize>) -> Seq<usize> {
    index_range(near.len()).filter(|p: usize| !ind_r.contains(near[p as int]) && !inactive.contains(near[p as int]))
}

/// The numbering of an LU factor of a box: see `LuNumbering`.
pub fn lu_numbering(ind_r: &[usize], near_field_inds: &[usize], inactive_inds: &[usize]) -> (num: LuNumbering)
    requires
        forall|k: int| 0 <= k < ind_r@.len() ==> near_field_inds@.contains(#[trigger] ind_r@[k]),
        sorted_indices(inactive_inds@),
        near_field_inds@.len() <= usize::MAX,
    ensures
        num.r_numbering@.len() == ind_r@.len(),
        forall|k: int| 0 <= k < ind_r@.len() ==> #[trigger] num.r_numbering@[k] == last_pos(near_field_inds@, ind_r@[k]),
        num.t_numbering@ == kept_positions(near_field_inds@, ind_r@, inactive_inds@),
        num.ind_t@ == num.t_numbering@.map_values(|p: usize| near_field_inds@[p as int]),
{
    broadcast use vstd::std_specs::hash::group_hash_axioms;

    let ghost near = near_field_inds@;
    let n = near_field_inds.len();
    let mut to_num: HashMap<usize, usize> = HashMap::new();
    let mut p: usize = 0;
    while p < n
        invariant
            n == near.len(),
            near == near_field_inds@,
            0 <= p <= n,
            forall|v: usize| #[trigger] to_num@.contains_key(v) <==> near.take(p as int).contains(v),
            forall|v: usize| to_num@.contains_key(v) ==> #[trigger] to_num@[v] == last_pos(near.take(p as int), v),
        decreases n - p,
    {
        to_num.insert(near_field_inds[p], p);
        proof {
            assert forall|v: usize| #[trigger] to_num@.contains_key(v) <==> near.take(p + 1).contains(v) by {
                lemma_last_pos_step(near, p as int, v);
                lemma_last_pos(near.take(p + 1), v);
                lemma_last_pos(near.take(p as int), v);
                if near.take(p + 1).contains(v) {
                    let w = choose|w: int| 0 <= w < p + 1 && #[trigger] near.take(p + 1)[w] == v;
                    if w < p {
                        assert(near.take(p as int)[w] == v);
                    }
                }
                if near.take(p as int).contains(v) {
                    let w = choose|w: int| 0 <= w < p && #[trigger] near.take(p as int)[w] == v;
                    assert(near.take(p + 1)[w] == v);
                }
                if v == near[p as int] {
                    assert(near.take(p + 1)[p as int] == v);
                }
            }
            assert forall|v: usize| to_num@.contains_key(v) implies #[trigger] to_num@[v] == last_pos(near.take(p + 1), v) by {
                lemma_last_pos_step(near, p as int, v);
            }
        }
        p = p + 1;
    }
    proof {
        assert(near.take(n as int) =~= near);
    }
    let m = ind_r.len();
    let mut r_numbering: Vec<usize> = Vec::new();
    let mut k: usize = 0;
    while k < m
        invariant
            m == ind_r@.len(),
            n == near.len(),
            near == near_field_inds@,
            forall|q: int| 0 <= q < ind_r@.len() ==> near.contains(#[trigger] ind_r@[q]),
            forall|v: usize| #[trigger] to_num@.contains_key(v) <==> near.contains(v),
            forall|v: usize| to_num@.contains_key(v) ==> #[trigger] to_num@[v] == last_pos(near, v),
            0 <= k <= m,
            r_numbering@.len() == k,
            forall|q: int| 0 <= q < k ==> #[trigger] r_numbering@[q] == last_pos(near, ind_r@[q]),
        decreases m - k,
    {
        let elem = ind_r[k];
        proof {
            assert(near.contains(ind_r@[k as int]));
        }
        match to_num.get(&elem) {
            Some(pos) => {
                r_numbering.push(*pos);
            },
            None => {
                proof {
                    assert(to_num@.contains_key(elem));
                }
                r_numbering.push(0);
            },
        }
        k = k + 1;
    }
    let ghost keep = |q: usize| !ind_r@.contains(near[q as int]) && !inactive_inds@.contains(near[q as int]);
    let mut t_numbering: Vec<usize> = Vec::new();
    let mut ind_t: Vec<usize> = Vec::new();
    let mut p: usize = 0;
    while p < n
        invariant
            n == near.len(),
            near == near_field_inds@,
            0 <= p <= n,
            keep == (|q: usize| !ind_r@.contains(near[q as int]) && !inactive_inds@.contains(near[q as int])),
            t_numbering@ == index_range(p as nat).filter(keep),
            ind_t@ == t_numbering@.map_values(|q: usize| near[q as int]),
            forall|a: int| 0 <= a < t_numbering@.len() ==> #[trigger] t_numbering@[a] < p,
        decreases n - p,
    {
        let elem = near_field_inds[p];
        let in_r = contains_index(ind_r, elem);
        let in_inactive = contains_index(inactive_inds, elem);
        proof {
            reveal(Seq::filter);
            assert(index_range((p + 1) as nat).drop_last() =~= index_range(p as nat));
            assert(index_range((p + 1) as nat).last() == p);
        }
        if !in_r && !in_inactive {
            t_numbering.push(p);
            ind_t.push(elem);
            proof {
                assert(keep(p));
                assert(ind_t@ =~= t_numbering@.map_values(|q: usize| near[q as int]));
            }
        } else {
            proof {
                assert(!keep(p));
            }
        }
        p = p + 1;
    }
    LuNumbering { r_numbering, t_numbering, ind_t }
}

/// Whether `v` occurs in `s`.
fn contains_index(s: &[usize], v: usize) -> (found: bool)
    ensures
        found == s@.contains(v),
{
    let n = s.len();
    let mut k: usize = 0;
    while k < n
        invariant
            n == s@.len(),
            0 <= k <= n,
            forall|q: int| 0 <= q < k ==> #[trigger] s@[q] != v,
        decreases n - k,
    {
        if s[k] == v {
            return true;
        }
        k = k + 1;
    }
    false
}

} // verus!
