//! Dense column-major matrices of plain entries.
//!
//! The factorisation stores its sketches and factor blocks column-major; this
//! type holds such a matrix as a shape and a flat buffer, with the entry in
//! row `i` and column `j` at position `j * rows + i`.
use vstd::prelude::*;

verus! {

/// The mathematical model of a matrix: its shape and its column-major data.
pub struct MatrixView<T> {
    pub rows: nat,
    pub cols: nat,
    pub data: Seq<T>,
}

/// Position of entry `(i, j)` in a column-major buffer with `rows` rows.
pub open spec fn cm_index(i: int, j: int, rows: int) -> int {
    j * rows + i
}

impl<T> MatrixView<T> {
    /// The buffer holds exactly `rows * cols` entries.
    pub open spec fn wf(self) -> bool {
        self.data.len() == self.rows * self.cols
    }

    /// Entry in row `i` and column `j`.
    pub open spec fn at(self, i: int, j: int) -> T {
        self.data[cm_index(i, j, self.rows as int)]
    }

    /// Entry `(i, j)` of the matrix read as stored, or of its transpose when
    /// `exchange_axis` holds.
    pub open spec fn oriented_at(self, exchange_axis: bool, i: int, j: int) -> T {
        if exchange_axis {
            self.at(j, i)
        } else {
            self.at(i, j)
        }
    }

    /// Same shape and same entries.
    pub open spec fn same_entries(self, other: MatrixView<T>) -> bool {
        &&& self.rows == other.rows
        &&& self.cols == other.cols
        &&& forall|i: int, j: int|
            0 <= i < self.rows && 0 <= j < self.cols ==> #[trigger] self.at(i, j) == other.at(i, j)
    }
}

/// A position `(i, j)` inside an `r x c` matrix lands inside its buffer.
pub proof fn lemma_cm_index_bounds(i: int, j: int, r: int, c: int)
    requires
        0 <= i < r,
        0 <= j < c,
    ensures
        0 <= cm_index(i, j, r) < r * c,
        j * r + r <= r * c,
{
    assert(0 <= j * r) by (nonlinear_arith)
        requires
            0 <= j,
            0 <= r,
    ;
    assert(j * r + r <= r * c) by (nonlinear_arith)
        requires
            j < c,
            0 <= r,
    ;
}

/// Distinct positions of an `r`-row matrix have distinct buffer offsets.
pub proof fn lemma_cm_index_injective(i1: int, j1: int, i2: int, j2: int, r: int)
    requires
        0 <= i1 < r,
        0 <= i2 < r,
        0 <= j1,
        0 <= j2,
        cm_index(i1, j1, r) == cm_index(i2, j2, r),
    ensures
        i1 == i2,
        j1 == j2,
{
    if j1 < j2 {
        assert(j1 * r + r <= j2 * r) by (nonlinear_arith)
            requires
                j1 < j2,
                0 <= r,
        ;
    } else if j2 < j1 {
        assert(j2 * r + r <= j1 * r) by (nonlinear_arith)
            requires
                j2 < j1,
                0 <= r,
        ;
    }
}

/// Shape of a block of `num_rows x num_cols` entries, exchanged when the
/// block is stored transposed.
pub open spec fn axis_shape_spec(num_rows: nat, num_cols: nat, exchange_axis: bool) -> (nat, nat) {
    if exchange_axis {
        (num_cols, num_rows)
    } else {
        (num_rows, num_cols)
    }
}

/// Shape of a block of `num_rows x num_cols` entries, exchanged when the
/// block is stored transposed.
pub fn axis_shape(num_rows: usize, num_cols: usize, exchange_axis: bool) -> (s: [usize; 2])
    ensures
        (s[0] as nat, s[1] as nat) == axis_shape_spec(
            num_rows as nat,
            num_cols as nat,
            exchange_axis,
        ),
{
    if exchange_axis {
        [num_cols, num_rows]
    } else {
        [num_rows, num_cols]
    }
}

/// Every index of `inds` is below `bound`.
pub open spec fn indices_below(inds: Seq<usize>, bound: nat) -> bool {
    forall|k: int| 0 <= k < inds.len() ==> #[trigger] inds[k] < bound
}

/// `out` holds the rows `inds` of `src`, in that order; stored transposed
/// (one column per selected row) when `exchange_axis` holds.
pub open spec fn is_row_extraction<T>(
    out: MatrixView<T>,
    src: MatrixView<T>,
    inds: Seq<usize>,
    exchange_axis: bool,
) -> bool {
    &&& (out.rows, out.cols) == axis_shape_spec(inds.len(), src.cols, exchange_axis)
    &&& forall|p: int, q: int|
        0 <= p < inds.len() && 0 <= q < src.cols ==> #[trigger] out.oriented_at(exchange_axis, p, q) == src.at(inds[p] as int, q)
}

/// `out` holds the columns `inds` of `src`, in that order; stored transposed
/// (one row per selected column) when `exchange_axis` holds.
pub open spec fn is_col_extraction<T>(
    out: MatrixView<T>,
    src: MatrixView<T>,
    inds: Seq<usize>,
    exchange_axis: bool,
) -> bool {
    &&& (out.rows, out.cols) == axis_shape_spec(src.rows, inds.len(), exchange_axis)
    &&& forall|p: int, k: int|
        0 <= p < src.rows && 0 <= k < inds.len() ==> #[trigger] out.oriented_at(exchange_axis, p, k) == src.at(p, inds[k] as int)
}

/// `out` holds the entries of `src` in rows `rows` and columns `cols`.
pub open spec fn is_cross_extraction<T>(
    out: MatrixView<T>,
    src: MatrixView<T>,
    rows: Seq<usize>,
    cols: Seq<usize>,
) -> bool {
    &&& out.rows == rows.len()
    &&& out.cols == cols.len()
    &&& forall|a: int, b: int|
        0 <= a < rows.len() && 0 <= b < cols.len() ==> #[trigger] out.at(a, b) == src.at(
            rows[a] as int,
            cols[b] as int,
        )
}

/// Number of rows of the matrix read as stored, or of its transpose.
pub open spec fn oriented_rows<T>(m: MatrixView<T>, exchange_axis: bool) -> nat {
    if exchange_axis {
        m.cols
    } else {
        m.rows
    }
}

/// Number of columns of the matrix read as stored, or of its transpose.
pub open spec fn oriented_cols<T>(m: MatrixView<T>, exchange_axis: bool) -> nat {
    if exchange_axis {
        m.rows
    } else {
        m.cols
    }
}

/// `new` is `old` with row `inds[r]` (of `old`, or of its transpose when
/// `exchange_axis` holds) overwritten by row `r` of `src` in its first
/// `src.cols` columns, for `r` in order: where an index repeats, the last
/// write stands.
pub open spec fn is_row_insertion<T>(
    new: MatrixView<T>,
    old: MatrixView<T>,
    src: MatrixView<T>,
    inds: Seq<usize>,
    exchange_axis: bool,
) -> bool {
    &&& new.rows == old.rows
    &&& new.cols == old.cols
    &&& forall|i: int, j: int|
        0 <= i < oriented_rows(old, exchange_axis) && 0 <= j < oriented_cols(old, exchange_axis)
            ==> #[trigger] new.oriented_at(exchange_axis, i, j) == if j < src.cols && last_pos(
            inds,
            i as usize,
        ) >= 0 {
            src.at(last_pos(inds, i as usize), j)
        } else {
            old.oriented_at(exchange_axis, i, j)
        }
}

/// `new` is `old` with column `inds[k]` (of `old`, or of its transpose when
/// `exchange_axis` holds) overwritten by column `k` of `src` in its first
/// `src.rows` rows, for `k` in order: where an index repeats, the last write
/// stands.
pub open spec fn is_col_insertion<T>(
    new: MatrixView<T>,
    old: MatrixView<T>,
    src: MatrixView<T>,
    inds: Seq<usize>,
    exchange_axis: bool,
) -> bool {
    &&& new.rows == old.rows
    &&& new.cols == old.cols
    &&& forall|i: int, j: int|
        0 <= i < oriented_rows(old, exchange_axis) && 0 <= j < oriented_cols(old, exchange_axis)
            ==> #[trigger] new.oriented_at(exchange_axis, i, j) == if i < src.rows && last_pos(
            inds,
            j as usize,
        ) >= 0 {
            src.at(i, last_pos(inds, j as usize))
        } else {
            old.oriented_at(exchange_axis, i, j)
        }
}

/// `new` is `old` with row `targets[k]` replaced by row `sources[k]` of `old`
/// for each `k` below `count`; where a target repeats, the last one stands.
pub open spec fn is_row_permutation<T>(
    new: MatrixView<T>,
    old: MatrixView<T>,
    targets: Seq<usize>,
    sources: Seq<usize>,
    count: int,
) -> bool {
    &&& new.rows == old.rows
    &&& new.cols == old.cols
    &&& forall|i: int, j: int|
        0 <= i < old.rows && 0 <= j < old.cols ==> #[trigger] new.at(i, j) == if last_pos(
            targets.take(count),
            i as usize,
        ) >= 0 {
            old.at(sources[last_pos(targets.take(count), i as usize)] as int, j)
        } else {
            old.at(i, j)
        }
}

/// `new` is `old` with column `targets[k]` replaced by column `sources[k]` of
/// `old` for each `k` below `count`; where a target repeats, the last one
/// stands.
pub open spec fn is_col_permutation<T>(
    new: MatrixView<T>,
    old: MatrixView<T>,
    targets: Seq<usize>,
    sources: Seq<usize>,
    count: int,
) -> bool {
    &&& new.rows == old.rows
    &&& new.cols == old.cols
    &&& forall|i: int, j: int|
        0 <= i < old.rows && 0 <= j < old.cols ==> #[trigger] new.at(i, j) == if last_pos(
            targets.take(count),
            j as usize,
        ) >= 0 {
            old.at(i, sources[last_pos(targets.take(count), j as usize)] as int)
        } else {
            old.at(i, j)
        }
}

/// Position of the last occurrence of `v` in `s`, or `-1`.
pub open spec fn last_pos(s: Seq<usize>, v: usize) -> int
    decreases s.len(),
{
    if s.len() == 0 {
        -1
    } else if s.last() == v {
        s.len() - 1
    } else {
        last_pos(s.drop_last(), v)
    }
}

/// The last occurrence lies inside the sequence and holds the value.
pub proof fn lemma_last_pos(s: Seq<usize>, v: usize)
    ensures
        -1 <= last_pos(s, v) < s.len(),
        last_pos(s, v) >= 0 ==> s[last_pos(s, v)] == v,
        forall|k: int| last_pos(s, v) < k < s.len() ==> s[k] != v,
    decreases s.len(),
{
    if s.len() > 0 {
        lemma_last_pos(s.drop_last(), v);
        assert forall|k: int| last_pos(s, v) < k < s.len() implies s[k] != v by {
            if s.last() != v && k < s.len() - 1 {
                assert(s.drop_last()[k] == s[k]);
            }
        }
    }
}

/// Extending a prefix by one element updates the last occurrence.
pub proof fn lemma_last_pos_step(s: Seq<usize>, r: int, v: usize)
    requires
        0 <= r < s.len(),
    ensures
        last_pos(s.take(r + 1), v) == if s[r] == v {
            r
        } else {
            last_pos(s.take(r), v)
        },
{
    assert(s.take(r + 1).drop_last() =~= s.take(r));
}

/// Dense matrix stored column-major.
pub struct ColMatrix<T> {
    rows: usize,
    cols: usize,
    data: Vec<T>,
}

impl<T> View for ColMatrix<T> {
    type V = MatrixView<T>;

    closed spec fn view(&self) -> MatrixView<T> {
        MatrixView { rows: self.rows as nat, cols: self.cols as nat, data: self.data@ }
    }
}

impl<T: Copy> ColMatrix<T> {
    /// A `rows x cols` matrix with every entry equal to `value`.
    pub fn filled(rows: usize, cols: usize, value: T) -> (m: Self)
        requires
            rows * cols <= usize::MAX,
        ensures
            m@.wf(),
            m@.rows == rows,
            m@.cols == cols,
            forall|i: int, j: int| 0 <= i < rows && 0 <= j < cols ==> #[trigger] m@.at(i, j) == value,
    {
        let total = rows * cols;
        let mut data: Vec<T> = Vec::new();
        let mut k: usize = 0;
        while k < total
            invariant
                k <= total,
                total == rows * cols,
                data@.len() == k,
                forall|p: int| 0 <= p < k ==> data@[p] == value,
            decreases total - k,
        {
            data.push(value);
            k = k + 1;
        }
        let m = ColMatrix { rows, cols, data };
        proof {
            assert forall|i: int, j: int| 0 <= i < rows && 0 <= j < cols implies #[trigger] m@.at(
                i,
                j,
            ) == value by {
                lemma_cm_index_bounds(i, j, rows as int, cols as int);
            }
        }
        m
    }

    /// The matrix with the given shape and column-major data, or `None` when
    /// the data does not have `rows * cols` entries.
    pub fn from_column_major(rows: usize, cols: usize, data: Vec<T>) -> (res: Option<Self>)
        ensures
            res is Some <==> rows * cols == data@.len(),
            res matches Some(m) ==> m@.rows == rows && m@.cols == cols && m@.data == data@ && m@.wf(),
    {
        let n = data.len();
        match rows.checked_mul(cols) {
            Some(total) => {
                if total == n {
                    let m = ColMatrix { rows, cols, data };
                    assert(m@.data == data@);
                    assert(total == rows * cols);
                    Some(m)
                } else {
                    None
                }
            },
            None => None,
        }
    }

    /// Number of rows and columns.
    pub fn shape(&self) -> (s: [usize; 2])
        ensures
            s[0] == self@.rows,
            s[1] == self@.cols,
    {
        [self.rows, self.cols]
    }

    /// The column-major buffer.
    pub fn data(&self) -> (d: &Vec<T>)
        ensures
            d@ == self@.data,
    {
        &self.data
    }

    /// The column-major buffer, taken out of the matrix.
    pub fn into_data(self) -> (d: Vec<T>)
        ensures
            d@ == self@.data,
    {
        self.data
    }

    /// Entry in row `i` and column `j`.
    pub fn get(&self, i: usize, j: usize) -> (v: T)
        requires
            self@.wf(),
            i < self@.rows,
            j < self@.cols,
        ensures
            v == self@.at(i as int, j as int),
    {
        let _len = self.data.len();
        proof {
            lemma_cm_index_bounds(i as int, j as int, self.rows as int, self.cols as int);
        }
        self.data[j * self.rows + i]
    }

    /// Overwrites the entry in row `i` and column `j`.
    pub fn set(&mut self, i: usize, j: usize, v: T)
        requires
            old(self)@.wf(),
            i < old(self)@.rows,
            j < old(self)@.cols,
        ensures
            final(self)@.wf(),
            final(self)@.rows == old(self)@.rows,
            final(self)@.cols == old(self)@.cols,
            final(self)@.data == old(self)@.data.update(
                cm_index(i as int, j as int, old(self)@.rows as int),
                v,
            ),
            forall|p: int, q: int|
                0 <= p < old(self)@.rows && 0 <= q < old(self)@.cols ==> #[trigger] final(self)@.at(
                    p,
                    q,
                ) == if p == i && q == j {
                    v
                } else {
                    old(self)@.at(p, q)
                },
    {
        let _len = self.data.len();
        proof {
            lemma_cm_index_bounds(i as int, j as int, self.rows as int, self.cols as int);
        }
        let k = j * self.rows + i;
        self.data.set(k, v);
        proof {
            assert forall|p: int, q: int|
                0 <= p < old(self)@.rows && 0 <= q < old(self)@.cols implies #[trigger] self@.at(
                p,
                q,
            ) == if p == i && q == j {
                v
            } else {
                old(self)@.at(p, q)
            } by {
                lemma_cm_index_bounds(p, q, self.rows as int, self.cols as int);
                if cm_index(p, q, self.rows as int) == k {
                    lemma_cm_index_injective(p, q, i as int, j as int, self.rows as int);
                }
            }
        }
    }
}

impl<T: Copy> ColMatrix<T> {
    /// A matrix with no entries (one of its dimensions is zero).
    fn empty_with_shape(rows: usize, cols: usize) -> (m: Self)
        requires
            rows == 0 || cols == 0,
        ensures
            m@.wf(),
            m@.rows == rows,
            m@.cols == cols,
    {
        proof {
            assert(rows * cols == 0) by (nonlinear_arith)
                requires
                    rows == 0 || cols == 0,
            ;
        }
        ColMatrix { rows, cols, data: Vec::new() }
    }

    /// The rows `inds` of this matrix, in that order; with `exchange_axis`
    /// the result is stored transposed, one column per selected row.
    pub fn extract_rows(&self, inds: &[usize], exchange_axis: bool) -> (out: ColMatrix<T>)
        requires
            self@.wf(),
            indices_below(inds@, self@.rows),
            inds@.len() * self@.cols <= usize::MAX,
        ensures
            out@.wf(),
            is_row_extraction(out@, self@, inds@, exchange_axis),
    {
        let n = inds.len();
        let m = self.cols;
        let shape = axis_shape(n, m, exchange_axis);
        if n == 0 || m == 0 {
            return ColMatrix::empty_with_shape(shape[0], shape[1]);
        }
        proof {
            assert(shape[0] * shape[1] == n * m) by (nonlinear_arith)
                requires
                    (shape[0] == n && shape[1] == m) || (shape[0] == m && shape[1] == n),
            ;
        }
        let mut out = ColMatrix::filled(shape[0], shape[1], self.get(inds[0], 0));
        let mut q: usize = 0;
        while q < m
            invariant
                self@.wf(),
                indices_below(inds@, self@.rows),
                n == inds@.len(),
                m == self@.cols,
                0 <= q <= m,
                out@.wf(),
                (out@.rows, out@.cols) == axis_shape_spec(n as nat, m as nat, exchange_axis),
                forall|pp: int, qq: int|
                    0 <= pp < n && 0 <= qq < q ==> #[trigger] out@.oriented_at(exchange_axis, pp, qq) == self@.at(inds@[pp] as int, qq),
            decreases m - q,
        {
            let mut p: usize = 0;
            while p < n
                invariant
                    self@.wf(),
                    indices_below(inds@, self@.rows),
                    n == inds@.len(),
                    m == self@.cols,
                    0 <= q < m,
                    0 <= p <= n,
                    out@.wf(),
                    (out@.rows, out@.cols) == axis_shape_spec(n as nat, m as nat, exchange_axis),
                    forall|pp: int, qq: int|
                        0 <= pp < n && 0 <= qq < m && (qq < q || (qq == q && pp < p)) ==> #[trigger] out@.oriented_at(exchange_axis, pp, qq) == self@.at(inds@[pp] as int, qq),
                decreases n - p,
            {
                let v = self.get(inds[p], q);
                let ghost prev = out@;
                if exchange_axis {
                    out.set(q, p, v);
                } else {
                    out.set(p, q, v);
                }
                proof {
                    assert forall|pp: int, qq: int|
                        0 <= pp < n && 0 <= qq < m && (qq < q || (qq == q && pp < p + 1))
                            implies #[trigger] out@.oriented_at(exchange_axis, pp, qq) == self@.at(
                        inds@[pp] as int,
                        qq,
                    ) by {
                        if !(qq == q && pp == p) {
                            assert(prev.oriented_at(exchange_axis, pp, qq) == self@.at(
                                inds@[pp] as int,
                                qq,
                            ));
                        }
                        if exchange_axis {
                            assert(out@.at(qq, pp) == if qq == q && pp == p {
                                v
                            } else {
                                prev.at(qq, pp)
                            });
                        } else {
                            assert(out@.at(pp, qq) == if qq == q && pp == p {
                                v
                            } else {
                                prev.at(pp, qq)
                            });
                        }
                    }
                }
                p = p + 1;
            }
            q = q + 1;
        }
        out
    }

    /// The columns `inds` of this matrix, in that order; with
    /// `exchange_axis` the result is stored transposed, one row per selected
    /// column.
    pub fn extract_cols(&self, inds: &[usize], exchange_axis: bool) -> (out: ColMatrix<T>)
        requires
            self@.wf(),
            indices_below(inds@, self@.cols),
            self@.rows * inds@.len() <= usize::MAX,
        ensures
            out@.wf(),
            is_col_extraction(out@, self@, inds@, exchange_axis),
    {
        let n = inds.len();
        let r = self.rows;
        let shape = axis_shape(r, n, exchange_axis);
        if n == 0 || r == 0 {
            return ColMatrix::empty_with_shape(shape[0], shape[1]);
        }
        proof {
            assert(shape[0] * shape[1] == r * n) by (nonlinear_arith)
                requires
                    (shape[0] == n && shape[1] == r) || (shape[0] == r && shape[1] == n),
            ;
        }
        let mut out = ColMatrix::filled(shape[0], shape[1], self.get(0, inds[0]));
        let mut k: usize = 0;
        while k < n
            invariant
                self@.wf(),
                indices_below(inds@, self@.cols),
                n == inds@.len(),
                r == self@.rows,
                0 <= k <= n,
                out@.wf(),
                (out@.rows, out@.cols) == axis_shape_spec(r as nat, n as nat, exchange_axis),
                forall|pp: int, kk: int|
                    0 <= pp < r && 0 <= kk < k ==> #[trigger] out@.oriented_at(exchange_axis, pp, kk) == self@.at(pp, inds@[kk] as int),
            decreases n - k,
        {
            let mut p: usize = 0;
            while p < r
                invariant
                    self@.wf(),
                    indices_below(inds@, self@.cols),
                    n == inds@.len(),
                    r == self@.rows,
                    0 <= k < n,
                    0 <= p <= r,
                    out@.wf(),
                    (out@.rows, out@.cols) == axis_shape_spec(r as nat, n as nat, exchange_axis),
                    forall|pp: int, kk: int|
                        0 <= pp < r && 0 <= kk < n && (kk < k || (kk == k && pp < p)) ==> #[trigger] out@.oriented_at(exchange_axis, pp, kk) == self@.at(pp, inds@[kk] as int),
                decreases r - p,
            {
                let v = self.get(p, inds[k]);
                let ghost prev = out@;
                if exchange_axis {
                    out.set(k, p, v);
                } else {
                    out.set(p, k, v);
                }
                proof {
                    assert forall|pp: int, kk: int|
                        0 <= pp < r && 0 <= kk < n && (kk < k || (kk == k && pp < p + 1))
                            implies #[trigger] out@.oriented_at(exchange_axis, pp, kk) == self@.at(
                        pp,
                        inds@[kk] as int,
                    ) by {
                        if !(kk == k && pp == p) {
                            assert(prev.oriented_at(exchange_axis, pp, kk) == self@.at(
                                pp,
                                inds@[kk] as int,
                            ));
                        }
                        if exchange_axis {
                            assert(out@.at(kk, pp) == if kk == k && pp == p {
                                v
                            } else {
                                prev.at(kk, pp)
                            });
                        } else {
                            assert(out@.at(pp, kk) == if kk == k && pp == p {
                                v
                            } else {
                                prev.at(pp, kk)
                            });
                        }
                    }
                }
                p = p + 1;
            }
            k = k + 1;
        }
        out
    }

    /// The entries in rows `rows` and columns `cols` of this matrix
    /// (a cross extraction).
    pub fn extract_cross(&self, rows: &[usize], cols: &[usize]) -> (out: ColMatrix<T>)
        requires
            self@.wf(),
            indices_below(rows@, self@.rows),
            indices_below(cols@, self@.cols),
            rows@.len() * cols@.len() <= usize::MAX,
        ensures
            out@.wf(),
            is_cross_extraction(out@, self@, rows@, cols@),
    {
        let nr = rows.len();
        let nc = cols.len();
        if nr == 0 || nc == 0 {
            return ColMatrix::empty_with_shape(nr, nc);
        }
        let mut out = ColMatrix::filled(nr, nc, self.get(rows[0], cols[0]));
        let mut b: usize = 0;
        while b < nc
            invariant
                self@.wf(),
                indices_below(rows@, self@.rows),
                indices_below(cols@, self@.cols),
                nr == rows@.len(),
                nc == cols@.len(),
                0 <= b <= nc,
                out@.wf(),
                out@.rows == nr,
                out@.cols == nc,
                forall|aa: int, bb: int|
                    0 <= aa < nr && 0 <= bb < b ==> #[trigger] out@.at(aa, bb) == self@.at(
                        rows@[aa] as int,
                        cols@[bb] as int,
                    ),
            decreases nc - b,
        {
            let mut a: usize = 0;
            while a < nr
                invariant
                    self@.wf(),
                    indices_below(rows@, self@.rows),
                    indices_below(cols@, self@.cols),
                    nr == rows@.len(),
                    nc == cols@.len(),
                    0 <= b < nc,
                    0 <= a <= nr,
                    out@.wf(),
                    out@.rows == nr,
                    out@.cols == nc,
                    forall|aa: int, bb: int|
                        0 <= aa < nr && 0 <= bb < nc && (bb < b || (bb == b && aa < a))
                            ==> #[trigger] out@.at(aa, bb) == self@.at(
                            rows@[aa] as int,
                            cols@[bb] as int,
                        ),
                decreases nr - a,
            {
                let v = self.get(rows[a], cols[b]);
                out.set(a, b, v);
                a = a + 1;
            }
            b = b + 1;
        }
        out
    }
}

impl<T: Copy> ColMatrix<T> {
    /// Entry `(i, j)` of the matrix, or of its transpose when
    /// `exchange_axis` holds.
    fn get_oriented(&self, exchange_axis: bool, i: usize, j: usize) -> (v: T)
        requires
            self@.wf(),
            i < oriented_rows(self@, exchange_axis),
            j < oriented_cols(self@, exchange_axis),
        ensures
            v == self@.oriented_at(exchange_axis, i as int, j as int),
    {
        if exchange_axis {
            self.get(j, i)
        } else {
            self.get(i, j)
        }
    }

    /// Overwrites entry `(i, j)` of the matrix, or of its transpose when
    /// `exchange_axis` holds.
    fn set_oriented(&mut self, exchange_axis: bool, i: usize, j: usize, v: T)
        requires
            old(self)@.wf(),
            i < oriented_rows(old(self)@, exchange_axis),
            j < oriented_cols(old(self)@, exchange_axis),
        ensures
            final(self)@.wf(),
            final(self)@.rows == old(self)@.rows,
            final(self)@.cols == old(self)@.cols,
            forall|p: int, q: int|
                0 <= p < oriented_rows(old(self)@, exchange_axis) && 0 <= q < oriented_cols(
                    old(self)@,
                    exchange_axis,
                ) ==> #[trigger] final(self)@.oriented_at(exchange_axis, p, q) == if p == i && q
                    == j {
                    v
                } else {
                    old(self)@.oriented_at(exchange_axis, p, q)
                },
    {
        let ghost prev = self@;
        if exchange_axis {
            self.set(j, i, v);
        } else {
            self.set(i, j, v);
        }
        proof {
            assert forall|p: int, q: int|
                0 <= p < oriented_rows(prev, exchange_axis) && 0 <= q < oriented_cols(
                    prev,
                    exchange_axis,
                ) implies #[trigger] self@.oriented_at(exchange_axis, p, q) == if p == i && q
                == j {
                v
            } else {
                prev.oriented_at(exchange_axis, p, q)
            } by {
                if exchange_axis {
                    assert(self@.at(q, p) == if q == j && p == i {
                        v
                    } else {
                        prev.at(q, p)
                    });
                } else {
                    assert(self@.at(p, q) == if p == i && q == j {
                        v
                    } else {
                        prev.at(p, q)
                    });
                }
            }
        }
    }

    /// Writes row `r` of `src` into row `inds[r]` of this matrix (or of its
    /// transpose when `exchange_axis` holds), for every `r` in order
    /// (`insert_rows`).
    pub fn insert_rows(&mut self, inds: &[usize], src: &ColMatrix<T>, exchange_axis: bool)
        requires
            old(self)@.wf(),
            src@.wf(),
            indices_below(inds@, oriented_rows(old(self)@, exchange_axis)),
            src@.cols <= oriented_cols(old(self)@, exchange_axis),
            inds@.len() <= src@.rows,
        ensures
            final(self)@.wf(),
            is_row_insertion(final(self)@, old(self)@, src@, inds@, exchange_axis),
    {
        let ghost orig = self@;
        let n = inds.len();
        let m = src.cols;
        let mut c: usize = 0;
        while c < m
            invariant
                self@.wf(),
                src@.wf(),
                orig.wf(),
                self@.rows == orig.rows,
                self@.cols == orig.cols,
                n == inds@.len(),
                m == src@.cols,
                indices_below(inds@, oriented_rows(orig, exchange_axis)),
                m <= oriented_cols(orig, exchange_axis),
                n <= src@.rows,
                0 <= c <= m,
                forall|i: int, j: int|
                    0 <= i < oriented_rows(orig, exchange_axis) && 0 <= j < oriented_cols(
                        orig,
                        exchange_axis,
                    ) ==> #[trigger] self@.oriented_at(exchange_axis, i, j) == if j < c
                        && last_pos(inds@, i as usize) >= 0 {
                        src@.at(last_pos(inds@, i as usize), j)
                    } else {
                        orig.oriented_at(exchange_axis, i, j)
                    },
            decreases m - c,
        {
            let mut r: usize = 0;
            while r < n
                invariant
                    self@.wf(),
                    src@.wf(),
                    orig.wf(),
                    self@.rows == orig.rows,
                    self@.cols == orig.cols,
                    n == inds@.len(),
                    m == src@.cols,
                    indices_below(inds@, oriented_rows(orig, exchange_axis)),
                    m <= oriented_cols(orig, exchange_axis),
                    n <= src@.rows,
                    0 <= c < m,
                    0 <= r <= n,
                    forall|i: int, j: int|
                        0 <= i < oriented_rows(orig, exchange_axis) && 0 <= j < oriented_cols(
                            orig,
                            exchange_axis,
                        ) ==> #[trigger] self@.oriented_at(exchange_axis, i, j) == if j < c
                            && last_pos(inds@, i as usize) >= 0 {
                            src@.at(last_pos(inds@, i as usize), j)
                        } else if j == c && last_pos(inds@.take(r as int), i as usize) >= 0 {
                            src@.at(last_pos(inds@.take(r as int), i as usize), j)
                        } else {
                            orig.oriented_at(exchange_axis, i, j)
                        },
                decreases n - r,
            {
                let v = src.get(r, c);
                let ghost prev = self@;
                self.set_oriented(exchange_axis, inds[r], c, v);
                proof {
                    assert forall|i: int, j: int|
                        0 <= i < oriented_rows(orig, exchange_axis) && 0 <= j < oriented_cols(
                            orig,
                            exchange_axis,
                        ) implies #[trigger] self@.oriented_at(exchange_axis, i, j) == if j < c
                        && last_pos(inds@, i as usize) >= 0 {
                        src@.at(last_pos(inds@, i as usize), j)
                    } else if j == c && last_pos(inds@.take(r + 1), i as usize) >= 0 {
                        src@.at(last_pos(inds@.take(r + 1), i as usize), j)
                    } else {
                        orig.oriented_at(exchange_axis, i, j)
                    } by {
                        lemma_last_pos_step(inds@, r as int, i as usize);
                        assert(prev.oriented_at(exchange_axis, i, j) == if j < c && last_pos(
                            inds@,
                            i as usize,
                        ) >= 0 {
                            src@.at(last_pos(inds@, i as usize), j)
                        } else if j == c && last_pos(inds@.take(r as int), i as usize) >= 0 {
                            src@.at(last_pos(inds@.take(r as int), i as usize), j)
                        } else {
                            orig.oriented_at(exchange_axis, i, j)
                        });
                    }
                }
                r = r + 1;
            }
            proof {
                assert(inds@.take(n as int) =~= inds@);
            }
            c = c + 1;
        }
    }

    /// Writes column `k` of `src` into column `inds[k]` of this matrix (or of
    /// its transpose when `exchange_axis` holds), for every `k` in order
    /// (`insert_cols`).
    pub fn insert_cols(&mut self, inds: &[usize], src: &ColMatrix<T>, exchange_axis: bool)
        requires
            old(self)@.wf(),
            src@.wf(),
            indices_below(inds@, oriented_cols(old(self)@, exchange_axis)),
            src@.rows <= oriented_rows(old(self)@, exchange_axis),
            inds@.len() <= src@.cols,
        ensures
            final(self)@.wf(),
            is_col_insertion(final(self)@, old(self)@, src@, inds@, exchange_axis),
    {
        let ghost orig = self@;
        let n = inds.len();
        let m = src.rows;
        let mut k: usize = 0;
        while k < n
            invariant
                self@.wf(),
                src@.wf(),
                orig.wf(),
                self@.rows == orig.rows,
                self@.cols == orig.cols,
                n == inds@.len(),
                m == src@.rows,
                indices_below(inds@, oriented_cols(orig, exchange_axis)),
                m <= oriented_rows(orig, exchange_axis),
                n <= src@.cols,
                0 <= k <= n,
                forall|i: int, j: int|
                    0 <= i < oriented_rows(orig, exchange_axis) && 0 <= j < oriented_cols(
                        orig,
                        exchange_axis,
                    ) ==> #[trigger] self@.oriented_at(exchange_axis, i, j) == if i < m
                        && last_pos(inds@.take(k as int), j as usize) >= 0 {
                        src@.at(i, last_pos(inds@.take(k as int), j as usize))
                    } else {
                        orig.oriented_at(exchange_axis, i, j)
                    },
            decreases n - k,
        {
            let mut p: usize = 0;
            while p < m
                invariant
                    self@.wf(),
                    src@.wf(),
                    orig.wf(),
                    self@.rows == orig.rows,
                    self@.cols == orig.cols,
                    n == inds@.len(),
                    m == src@.rows,
                    indices_below(inds@, oriented_cols(orig, exchange_axis)),
                    m <= oriented_rows(orig, exchange_axis),
                    n <= src@.cols,
                    0 <= k < n,
                    0 <= p <= m,
                    forall|i: int, j: int|
                        0 <= i < oriented_rows(orig, exchange_axis) && 0 <= j < oriented_cols(
                            orig,
                            exchange_axis,
                        ) ==> #[trigger] self@.oriented_at(exchange_axis, i, j) == if j
                            == inds@[k as int] && i < p {
                            src@.at(i, k as int)
                        } else if i < m && last_pos(inds@.take(k as int), j as usize) >= 0 {
                            src@.at(i, last_pos(inds@.take(k as int), j as usize))
                        } else {
                            orig.oriented_at(exchange_axis, i, j)
                        },
                decreases m - p,
            {
                let v = src.get(p, k);
                let ghost prev = self@;
                self.set_oriented(exchange_axis, p, inds[k], v);
                proof {
                    assert forall|i: int, j: int|
                        0 <= i < oriented_rows(orig, exchange_axis) && 0 <= j < oriented_cols(
                            orig,
                            exchange_axis,
                        ) implies #[trigger] self@.oriented_at(exchange_axis, i, j) == if j
                        == inds@[k as int] && i < p + 1 {
                        src@.at(i, k as int)
                    } else if i < m && last_pos(inds@.take(k as int), j as usize) >= 0 {
                        src@.at(i, last_pos(inds@.take(k as int), j as usize))
                    } else {
                        orig.oriented_at(exchange_axis, i, j)
                    } by {
                        assert(prev.oriented_at(exchange_axis, i, j) == if j == inds@[k as int]
                            && i < p {
                            src@.at(i, k as int)
                        } else if i < m && last_pos(inds@.take(k as int), j as usize) >= 0 {
                            src@.at(i, last_pos(inds@.take(k as int), j as usize))
                        } else {
                            orig.oriented_at(exchange_axis, i, j)
                        });
                    }
                }
                p = p + 1;
            }
            proof {
                assert forall|i: int, j: int|
                    0 <= i < oriented_rows(orig, exchange_axis) && 0 <= j < oriented_cols(
                        orig,
                        exchange_axis,
                    ) implies #[trigger] self@.oriented_at(exchange_axis, i, j) == if i < m
                    && last_pos(inds@.take(k + 1), j as usize) >= 0 {
                    src@.at(i, last_pos(inds@.take(k + 1), j as usize))
                } else {
                    orig.oriented_at(exchange_axis, i, j)
                } by {
                    lemma_last_pos_step(inds@, k as int, j as usize);
                }
            }
            k = k + 1;
        }
        proof {
            assert(inds@.take(n as int) =~= inds@);
        }
    }
}

impl<T: Copy> ColMatrix<T> {
    /// An entry-by-entry copy of this matrix.
    pub fn duplicate(&self) -> (out: ColMatrix<T>)
        ensures
            out@ == self@,
    {
        let mut data: Vec<T> = Vec::new();
        let n = self.data.len();
        let mut k: usize = 0;
        while k < n
            invariant
                n == self.data@.len(),
                0 <= k <= n,
                data@ =~= self.data@.take(k as int),
            decreases n - k,
        {
            data.push(self.data[k]);
            k = k + 1;
            proof {
                assert(data@ =~= self.data@.take(k as int));
            }
        }
        proof {
            assert(self.data@.take(n as int) =~= self.data@);
        }
        ColMatrix { rows: self.rows, cols: self.cols, data }
    }
}

/// Rows selected as targets of a row or column permutation: the permuted
/// indices, or the original ones when the permutation is transposed.
pub open spec fn perm_targets(orig: Seq<usize>, perm: Seq<usize>, trans: bool) -> Seq<usize> {
    if trans {
        orig
    } else {
        perm
    }
}

/// Indices read by a row or column permutation: the original indices, or the
/// permuted ones when the permutation is transposed.
pub open spec fn perm_sources(orig: Seq<usize>, perm: Seq<usize>, trans: bool) -> Seq<usize> {
    if trans {
        perm
    } else {
        orig
    }
}

/// Number of index pairs a permutation walks through (the shorter list).
pub open spec fn perm_count(orig: Seq<usize>, perm: Seq<usize>) -> int {
    if orig.len() <= perm.len() {
        orig.len() as int
    } else {
        perm.len() as int
    }
}

/// Both index lists are below `bound` on their common length.
pub open spec fn pairs_below(orig: Seq<usize>, perm: Seq<usize>, bound: nat) -> bool {
    forall|k: int|
        0 <= k < perm_count(orig, perm) ==> (#[trigger] orig[k]) < bound && perm[k] < bound
}

/// The targets and sources of a permutation lie below `bound` when both
/// index lists do.
pub proof fn lemma_perm_pairs_below(orig: Seq<usize>, perm: Seq<usize>, trans: bool, bound: nat)
    requires
        pairs_below(orig, perm, bound),
    ensures
        forall|t: int|
            0 <= t < perm_count(orig, perm) ==> (#[trigger] perm_targets(orig, perm, trans)[t])
                < bound && perm_sources(orig, perm, trans)[t] < bound,
{
    assert forall|t: int| 0 <= t < perm_count(orig, perm) implies (#[trigger] perm_targets(
        orig,
        perm,
        trans,
    )[t]) < bound && perm_sources(orig, perm, trans)[t] < bound by {
        assert(0 <= t < perm_count(orig, perm));
        assert(orig[t] < bound);
        assert(perm[t] < bound);
    }
}

/// Row permutation (`row_perm`): row `perm[k]` receives the former row
/// `orig[k]`; transposed, row `orig[k]` receives the former row `perm[k]`.
pub fn row_perm<T: Copy>(
    orig_indices: Vec<usize>,
    perm_indices: Vec<usize>,
    arr: &mut ColMatrix<T>,
    trans: bool,
)
    requires
        old(arr)@.wf(),
        pairs_below(orig_indices@, perm_indices@, old(arr)@.rows),
    ensures
        final(arr)@.wf(),
        is_row_permutation(
            final(arr)@,
            old(arr)@,
            perm_targets(orig_indices@, perm_indices@, trans),
            perm_sources(orig_indices@, perm_indices@, trans),
            perm_count(orig_indices@, perm_indices@),
        ),
{
    let ghost go = orig_indices@;
    let ghost gp = perm_indices@;
    let (p_indices, o_indices) = if trans {
        (orig_indices, perm_indices)
    } else {
        (perm_indices, orig_indices)
    };
    let count = if p_indices.len() <= o_indices.len() {
        p_indices.len()
    } else {
        o_indices.len()
    };
    let copy = arr.duplicate();
    let num_cols = copy.shape()[1];
    let num_rows = copy.shape()[0];
    proof {
        lemma_perm_pairs_below(go, gp, trans, old(arr)@.rows);
        assert(p_indices@ == perm_targets(go, gp, trans));
        assert(o_indices@ == perm_sources(go, gp, trans));
        assert(count == perm_count(go, gp));
    }
    let mut k: usize = 0;
    while k < count
        invariant
            copy@.wf(),
            arr@.wf(),
            arr@.rows == copy@.rows,
            arr@.cols == copy@.cols,
            num_rows == copy@.rows,
            num_cols == copy@.cols,
            count <= p_indices@.len(),
            count <= o_indices@.len(),
            forall|t: int|
                0 <= t < count ==> (#[trigger] p_indices@[t]) < num_rows && o_indices@[t] < num_rows,
            0 <= k <= count,
            is_row_permutation(arr@, copy@, p_indices@, o_indices@, k as int),
        decreases count - k,
    {
        let mut col: usize = 0;
        let pk = p_indices[k];
        let ok = o_indices[k];
        while col < num_cols
            invariant
                copy@.wf(),
                arr@.wf(),
                arr@.rows == copy@.rows,
                arr@.cols == copy@.cols,
                num_rows == copy@.rows,
                num_cols == copy@.cols,
                pk < num_rows,
                ok < num_rows,
                pk == p_indices@[k as int],
                ok == o_indices@[k as int],
                0 <= k < count,
                count <= p_indices@.len(),
                0 <= col <= num_cols,
                forall|i: int, j: int|
                    0 <= i < num_rows && 0 <= j < num_cols ==> #[trigger] arr@.at(i, j) == if i
                        == pk && j < col {
                        copy@.at(ok as int, j)
                    } else if last_pos(p_indices@.take(k as int), i as usize) >= 0 {
                        copy@.at(
                            o_indices@[last_pos(p_indices@.take(k as int), i as usize)] as int,
                            j,
                        )
                    } else {
                        copy@.at(i, j)
                    },
            decreases num_cols - col,
        {
            let v = copy.get(ok, col);
            arr.set(pk, col, v);
            col = col + 1;
        }
        proof {
            assert forall|i: int, j: int|
                0 <= i < num_rows && 0 <= j < num_cols implies #[trigger] arr@.at(i, j) == if last_pos(
                p_indices@.take(k + 1),
                i as usize,
            ) >= 0 {
                copy@.at(o_indices@[last_pos(p_indices@.take(k + 1), i as usize)] as int, j)
            } else {
                copy@.at(i, j)
            } by {
                lemma_last_pos_step(p_indices@, k as int, i as usize);
                lemma_last_pos(p_indices@.take(k as int), i as usize);
            }
        }
        k = k + 1;
    }
}

/// Column permutation (`col_perm`): column `perm[k]` receives the former
/// column `orig[k]`; transposed, column `orig[k]` receives the former column
/// `perm[k]`.
pub fn col_perm<T: Copy>(
    orig_indices: Vec<usize>,
    perm_indices: Vec<usize>,
    arr: &mut ColMatrix<T>,
    trans: bool,
)
    requires
        old(arr)@.wf(),
        pairs_below(orig_indices@, perm_indices@, old(arr)@.cols),
    ensures
        final(arr)@.wf(),
        is_col_permutation(
            final(arr)@,
            old(arr)@,
            perm_targets(orig_indices@, perm_indices@, trans),
            perm_sources(orig_indices@, perm_indices@, trans),
            perm_count(orig_indices@, perm_indices@),
        ),
{
    let ghost go = orig_indices@;
    let ghost gp = perm_indices@;
    let (p_indices, o_indices) = if trans {
        (orig_indices, perm_indices)
    } else {
        (perm_indices, orig_indices)
    };
    let count = if p_indices.len() <= o_indices.len() {
        p_indices.len()
    } else {
        o_indices.len()
    };
    let copy = arr.duplicate();
    let num_cols = copy.shape()[1];
    let num_rows = copy.shape()[0];
    proof {
        lemma_perm_pairs_below(go, gp, trans, old(arr)@.cols);
        assert(p_indices@ == perm_targets(go, gp, trans));
        assert(o_indices@ == perm_sources(go, gp, trans));
        assert(count == perm_count(go, gp));
    }
    let mut k: usize = 0;
    while k < count
        invariant
            copy@.wf(),
            arr@.wf(),
            arr@.rows == copy@.rows,
            arr@.cols == copy@.cols,
            num_rows == copy@.rows,
            num_cols == copy@.cols,
            count <= p_indices@.len(),
            count <= o_indices@.len(),
            forall|t: int|
                0 <= t < count ==> (#[trigger] p_indices@[t]) < num_cols && o_indices@[t] < num_cols,
            0 <= k <= count,
            is_col_permutation(arr@, copy@, p_indices@, o_indices@, k as int),
        decreases count - k,
    {
        let mut row: usize = 0;
        let pk = p_indices[k];
        let ok = o_indices[k];
        while row < num_rows
            invariant
                copy@.wf(),
                arr@.wf(),
                arr@.rows == copy@.rows,
                arr@.cols == copy@.cols,
                num_rows == copy@.rows,
                num_cols == copy@.cols,
                pk < num_cols,
                ok < num_cols,
                pk == p_indices@[k as int],
                ok == o_indices@[k as int],
                0 <= k < count,
                count <= p_indices@.len(),
                0 <= row <= num_rows,
                forall|i: int, j: int|
                    0 <= i < num_rows && 0 <= j < num_cols ==> #[trigger] arr@.at(i, j) == if j
                        == pk && i < row {
                        copy@.at(i, ok as int)
                    } else if last_pos(p_indices@.take(k as int), j as usize) >= 0 {
                        copy@.at(
                            i,
                            o_indices@[last_pos(p_indices@.take(k as int), j as usize)] as int,
                        )
                    } else {
                        copy@.at(i, j)
                    },
            decreases num_rows - row,
        {
            let v = copy.get(row, ok);
            arr.set(row, pk, v);
            row = row + 1;
        }
        proof {
            assert forall|i: int, j: int|
                0 <= i < num_rows && 0 <= j < num_cols implies #[trigger] arr@.at(i, j) == if last_pos(
                p_indices@.take(k + 1),
                j as usize,
            ) >= 0 {
                copy@.at(i, o_indices@[last_pos(p_indices@.take(k + 1), j as usize)] as int)
            } else {
                copy@.at(i, j)
            } by {
                lemma_last_pos_step(p_indices@, k as int, j as usize);
                lemma_last_pos(p_indices@.take(k as int), j as usize);
            }
        }
        k = k + 1;
    }
}

/// No index occurs twice.
pub open spec fn distinct_indices(s: Seq<usize>) -> bool {
    forall|a: int, b: int| 0 <= a < s.len() && 0 <= b < s.len() && a != b ==> #[trigger] s[a] != #[trigger] s[b]
}

/// The identity index list `0, 1, ..., n - 1`.
pub open spec fn identity_indices(n: nat) -> Seq<usize> {
    Seq::new(n, |i: int| i as usize)
}

/// In a list without repeats, the last occurrence of an entry is its only one.
pub proof fn lemma_last_pos_distinct(s: Seq<usize>, k: int)
    requires
        distinct_indices(s),
        0 <= k < s.len(),
    ensures
        last_pos(s, s[k]) == k,
{
    lemma_last_pos(s, s[k]);
    let lp = last_pos(s, s[k]);
    if lp < k {
        assert(s[k] != s[k]);
    } else if lp > k {
        assert(s[lp] == s[k]);
    }
}

/// Permuting the rows of a matrix by a permutation of its row indices, then
/// permuting back with the transposed permutation, restores every entry.
pub proof fn lemma_row_perm_roundtrip<T>(
    a: MatrixView<T>,
    a1: MatrixView<T>,
    a2: MatrixView<T>,
    perm: Seq<usize>,
)
    requires
        perm.len() == a.rows,
        a.rows <= usize::MAX,
        distinct_indices(perm),
        indices_below(perm, a.rows),
        is_row_permutation(a1, a, perm, identity_indices(a.rows), a.rows as int),
        is_row_permutation(a2, a1, identity_indices(a.rows), perm, a.rows as int),
    ensures
        a2.same_entries(a),
{
    let n = a.rows;
    let ident = identity_indices(n);
    assert(perm.take(n as int) =~= perm);
    assert(ident.take(n as int) =~= ident);
    assert forall|t: int| 0 <= t < n implies #[trigger] ident[t] == t by {}
    assert(distinct_indices(ident));
    assert forall|i: int, j: int| 0 <= i < a2.rows && 0 <= j < a2.cols implies #[trigger] a2.at(
        i,
        j,
    ) == a.at(i, j) by {
        lemma_last_pos_distinct(ident, i);
        assert(ident[i] == i);
        let pi = perm[i] as int;
        assert(0 <= pi < n);
        lemma_last_pos_distinct(perm, i);
        assert(a1.at(pi, j) == a.at(ident[i] as int, j));
    }
}

/// Same for columns: permuting the columns and then permuting back with the
/// transposed permutation restores every entry.
pub proof fn lemma_col_perm_roundtrip<T>(
    a: MatrixView<T>,
    a1: MatrixView<T>,
    a2: MatrixView<T>,
    perm: Seq<usize>,
)
    requires
        perm.len() == a.cols,
        a.cols <= usize::MAX,
        distinct_indices(perm),
        indices_below(perm, a.cols),
        is_col_permutation(a1, a, perm, identity_indices(a.cols), a.cols as int),
        is_col_permutation(a2, a1, identity_indices(a.cols), perm, a.cols as int),
    ensures
        a2.same_entries(a),
{
    let n = a.cols;
    let ident = identity_indices(n);
    assert(perm.take(n as int) =~= perm);
    assert(ident.take(n as int) =~= ident);
    assert forall|t: int| 0 <= t < n implies #[trigger] ident[t] == t by {}
    assert(distinct_indices(ident));
    assert forall|i: int, j: int| 0 <= i < a2.rows && 0 <= j < a2.cols implies #[trigger] a2.at(
        i,
        j,
    ) == a.at(i, j) by {
        lemma_last_pos_distinct(ident, j);
        assert(ident[j] == j);
        let pj = perm[j] as int;
        assert(0 <= pj < n);
        lemma_last_pos_distinct(perm, j);
        assert(a1.at(i, pj) == a.at(i, ident[j] as int));
    }
}

/// `out` stacks the first `top` rows of `upper` over the first `bottom` rows
/// of `lower`.
pub open spec fn is_row_stack<T>(
    out: MatrixView<T>,
    upper: MatrixView<T>,
    lower: MatrixView<T>,
    top: nat,
    bottom: nat,
) -> bool {
    &&& out.rows == top + bottom
    &&& out.cols == upper.cols
    &&& forall|i: int, j: int|
        0 <= i < top + bottom && 0 <= j < out.cols ==> #[trigger] out.at(i, j) == if i < top {
            upper.at(i, j)
        } else {
            lower.at(i - top, j)
        }
}

/// `new` is `old` with the entries `(a, b)` for `a < rows.len()`,
/// `b < cols.len()` replaced by the entries of `src` in rows `rows[a]` and
/// columns `cols[b]`.
pub open spec fn is_cross_copy<T>(
    new: MatrixView<T>,
    old: MatrixView<T>,
    src: MatrixView<T>,
    rows: Seq<usize>,
    cols: Seq<usize>,
) -> bool {
    &&& new.rows == old.rows
    &&& new.cols == old.cols
    &&& forall|a: int, b: int|
        0 <= a < old.rows && 0 <= b < old.cols ==> #[trigger] new.at(a, b) == if a < rows.len()
            && b < cols.len() {
            src.at(rows[a] as int, cols[b] as int)
        } else {
            old.at(a, b)
        }
}

/// Keeps at most `rows_per_sketch` leading rows of `primary` and stacks at
/// most `rows_per_sketch` leading rows of `secondary` under them
/// (`concat_nonsymmetric_id_sketches`).
pub fn concat_nonsymmetric_id_sketches<T: Copy>(
    primary: &mut ColMatrix<T>,
    secondary: &ColMatrix<T>,
    rows_per_sketch: usize,
)
    requires
        old(primary)@.wf(),
        secondary@.wf(),
        old(primary)@.cols == secondary@.cols,
        vstd::math::min(old(primary)@.rows as int, rows_per_sketch as int) + vstd::math::min(
            secondary@.rows as int,
            rows_per_sketch as int,
        ) <= usize::MAX,
        (vstd::math::min(old(primary)@.rows as int, rows_per_sketch as int) + vstd::math::min(
            secondary@.rows as int,
            rows_per_sketch as int,
        )) * secondary@.cols <= usize::MAX,
    ensures
        final(primary)@.wf(),
        is_row_stack(
            final(primary)@,
            old(primary)@,
            secondary@,
            vstd::math::min(old(primary)@.rows as int, rows_per_sketch as int) as nat,
            vstd::math::min(secondary@.rows as int, rows_per_sketch as int) as nat,
        ),
{
    let ps = primary.shape();
    let ss = secondary.shape();
    let kept_primary = if ps[0] < rows_per_sketch {
        ps[0]
    } else {
        rows_per_sketch
    };
    let kept_secondary = if ss[0] < rows_per_sketch {
        ss[0]
    } else {
        rows_per_sketch
    };
    let cols = ps[1];
    let total = kept_primary + kept_secondary;
    if total == 0 || cols == 0 {
        *primary = ColMatrix::empty_with_shape(total, cols);
        return;
    }
    let seed = if kept_primary > 0 {
        primary.get(0, 0)
    } else {
        secondary.get(0, 0)
    };
    let mut combined = ColMatrix::filled(total, cols, seed);
    let mut j: usize = 0;
    while j < cols
        invariant
            primary@.wf(),
            secondary@.wf(),
            combined@.wf(),
            combined@.rows == total,
            combined@.cols == cols,
            cols == primary@.cols,
            cols == secondary@.cols,
            total == kept_primary + kept_secondary,
            kept_primary <= primary@.rows,
            kept_secondary <= secondary@.rows,
            0 <= j <= cols,
            forall|i: int, jj: int|
                0 <= i < total && 0 <= jj < j ==> #[trigger] combined@.at(i, jj) == if i
                    < kept_primary {
                    primary@.at(i, jj)
                } else {
                    secondary@.at(i - kept_primary, jj)
                },
        decreases cols - j,
    {
        let mut i: usize = 0;
        while i < total
            invariant
                primary@.wf(),
                secondary@.wf(),
                combined@.wf(),
                combined@.rows == total,
                combined@.cols == cols,
                cols == primary@.cols,
                cols == secondary@.cols,
                total == kept_primary + kept_secondary,
                kept_primary <= primary@.rows,
                kept_secondary <= secondary@.rows,
                0 <= j < cols,
                0 <= i <= total,
                forall|ii: int, jj: int|
                    0 <= ii < total && 0 <= jj < cols && (jj < j || (jj == j && ii < i))
                        ==> #[trigger] combined@.at(ii, jj) == if ii < kept_primary {
                        primary@.at(ii, jj)
                    } else {
                        secondary@.at(ii - kept_primary, jj)
                    },
            decreases total - i,
        {
            let v = if i < kept_primary {
                primary.get(i, j)
            } else {
                secondary.get(i - kept_primary, j)
            };
            combined.set(i, j, v);
            i = i + 1;
        }
        j = j + 1;
    }
    *primary = combined;
}

/// How an extraction or insertion addresses a matrix.
pub enum ExtInsType {
    /// Indices, axis (`0` for rows, otherwise columns) and whether the block
    /// is stored transposed.
    Axis(Vec<usize>, usize, bool),
    /// Row indices and column indices.
    Cross(Vec<usize>, Vec<usize>),
}

/// A block extracted from a matrix.
pub struct Extraction<T> {
    pub ext: ColMatrix<T>,
}

/// What `Extraction::new` asks of its indices.
pub open spec fn extraction_ok<T>(src: MatrixView<T>, indices: ExtInsType) -> bool {
    match indices {
        ExtInsType::Axis(inds, axis, _) => if axis == 0 {
            indices_below(inds@, src.rows) && inds@.len() * src.cols <= usize::MAX
        } else {
            indices_below(inds@, src.cols) && src.rows * inds@.len() <= usize::MAX
        },
        ExtInsType::Cross(rows, cols) => {
            &&& indices_below(rows@, src.rows)
            &&& indices_below(cols@, src.cols)
            &&& rows@.len() * cols@.len() <= usize::MAX
        },
    }
}

/// What `Extraction::new` produces.
pub open spec fn is_extraction<T>(out: MatrixView<T>, src: MatrixView<T>, indices: ExtInsType) -> bool {
    match indices {
        ExtInsType::Axis(inds, axis, exchange_axis) => if axis == 0 {
            is_row_extraction(out, src, inds@, exchange_axis)
        } else {
            is_col_extraction(out, src, inds@, exchange_axis)
        },
        ExtInsType::Cross(rows, cols) => is_cross_extraction(out, src, rows@, cols@),
    }
}

impl<T: Copy> Extraction<T> {
    /// Extracts rows, columns or a cross block of `source_arr`.
    pub fn new(source_arr: &ColMatrix<T>, indices: ExtInsType) -> (res: Result<Self, ()>)
        requires
            source_arr@.wf(),
            extraction_ok(source_arr@, indices),
        ensures
            res matches Ok(e) && e.ext@.wf() && is_extraction(e.ext@, source_arr@, indices),
    {
        match indices {
            ExtInsType::Axis(inds, axis, exchange_axis) => {
                if axis == 0 {
                    Ok(Extraction { ext: source_arr.extract_rows(inds.as_slice(), exchange_axis) })
                } else {
                    Ok(Extraction { ext: source_arr.extract_cols(inds.as_slice(), exchange_axis) })
                }
            },
            ExtInsType::Cross(rows, cols) => {
                Ok(Extraction { ext: source_arr.extract_cross(rows.as_slice(), cols.as_slice()) })
            },
        }
    }
}

/// Rows (`axis == 0`) or columns of `mat`, stored transposed when `trans`
/// holds (`extract_axis`).
pub fn extract_axis<T: Copy>(mat: &ColMatrix<T>, inds: &[usize], axis: usize, trans: bool) -> (out:
    ColMatrix<T>)
    requires
        mat@.wf(),
        axis == 0 ==> indices_below(inds@, mat@.rows) && inds@.len() * mat@.cols <= usize::MAX,
        axis != 0 ==> indices_below(inds@, mat@.cols) && mat@.rows * inds@.len() <= usize::MAX,
    ensures
        out@.wf(),
        axis == 0 ==> is_row_extraction(out@, mat@, inds@, trans),
        axis != 0 ==> is_col_extraction(out@, mat@, inds@, trans),
{
    if axis == 0 {
        mat.extract_rows(inds, trans)
    } else {
        mat.extract_cols(inds, trans)
    }
}

/// What `matrix_insertion` asks of its indices.
pub open spec fn insertion_ok<T>(
    target: MatrixView<T>,
    src: MatrixView<T>,
    indices: ExtInsType,
) -> bool {
    match indices {
        ExtInsType::Axis(inds, axis, exchange_axis) => if axis == 0 {
            &&& indices_below(inds@, oriented_rows(target, exchange_axis))
            &&& src.cols <= oriented_cols(target, exchange_axis)
            &&& inds@.len() <= src.rows
        } else {
            &&& indices_below(inds@, oriented_cols(target, exchange_axis))
            &&& src.rows <= oriented_rows(target, exchange_axis)
            &&& inds@.len() <= src.cols
        },
        ExtInsType::Cross(rows, cols) => {
            &&& indices_below(rows@, src.rows)
            &&& indices_below(cols@, src.cols)
            &&& rows@.len() <= target.rows
            &&& cols@.len() <= target.cols
        },
    }
}

/// What `matrix_insertion` produces.
pub open spec fn is_insertion<T>(
    new: MatrixView<T>,
    old: MatrixView<T>,
    src: MatrixView<T>,
    indices: ExtInsType,
) -> bool {
    match indices {
        ExtInsType::Axis(inds, axis, exchange_axis) => if axis == 0 {
            is_row_insertion(new, old, src, inds@, exchange_axis)
        } else {
            is_col_insertion(new, old, src, inds@, exchange_axis)
        },
        ExtInsType::Cross(rows, cols) => is_cross_copy(new, old, src, rows@, cols@),
    }
}

impl<T: Copy> ColMatrix<T> {
    /// Copies the entries of `src` in rows `rows` and columns `cols` into the
    /// leading `rows.len() x cols.len()` block of this matrix.
    fn copy_cross_from(&mut self, src: &ColMatrix<T>, rows: &[usize], cols: &[usize])
        requires
            old(self)@.wf(),
            src@.wf(),
            indices_below(rows@, src@.rows),
            indices_below(cols@, src@.cols),
            rows@.len() <= old(self)@.rows,
            cols@.len() <= old(self)@.cols,
        ensures
            final(self)@.wf(),
            is_cross_copy(final(self)@, old(self)@, src@, rows@, cols@),
    {
        let ghost orig = self@;
        let nr = rows.len();
        let nc = cols.len();
        let mut b: usize = 0;
        while b < nc
            invariant
                self@.wf(),
                src@.wf(),
                self@.rows == orig.rows,
                self@.cols == orig.cols,
                indices_below(rows@, src@.rows),
                indices_below(cols@, src@.cols),
                nr == rows@.len(),
                nc == cols@.len(),
                nr <= orig.rows,
                nc <= orig.cols,
                0 <= b <= nc,
                forall|aa: int, bb: int|
                    0 <= aa < orig.rows && 0 <= bb < orig.cols ==> #[trigger] self@.at(aa, bb)
                        == if aa < nr && bb < b {
                        src@.at(rows@[aa] as int, cols@[bb] as int)
                    } else {
                        orig.at(aa, bb)
                    },
            decreases nc - b,
        {
            let mut a: usize = 0;
            while a < nr
                invariant
                    self@.wf(),
                    src@.wf(),
                    self@.rows == orig.rows,
                    self@.cols == orig.cols,
                    indices_below(rows@, src@.rows),
                    indices_below(cols@, src@.cols),
                    nr == rows@.len(),
                    nc == cols@.len(),
                    nr <= orig.rows,
                    nc <= orig.cols,
                    0 <= b < nc,
                    0 <= a <= nr,
                    forall|aa: int, bb: int|
                        0 <= aa < orig.rows && 0 <= bb < orig.cols ==> #[trigger] self@.at(aa, bb)
                            == if aa < nr && (bb < b || (bb == b && aa < a)) {
                            src@.at(rows@[aa] as int, cols@[bb] as int)
                        } else {
                            orig.at(aa, bb)
                        },
                decreases nr - a,
            {
                let v = src.get(rows[a], cols[b]);
                self.set(a, b, v);
                a = a + 1;
            }
            b = b + 1;
        }
    }
}

/// Writes `source_arr` into `target_arr` as `indices` says
/// (`matrix_insertion`): rows or columns at the given indices, or, for a
/// cross, the selected entries of the source into the leading block.
pub fn matrix_insertion<T: Copy>(
    target_arr: &mut ColMatrix<T>,
    source_arr: &ColMatrix<T>,
    indices: ExtInsType,
)
    requires
        old(target_arr)@.wf(),
        source_arr@.wf(),
        insertion_ok(old(target_arr)@, source_arr@, indices),
    ensures
        final(target_arr)@.wf(),
        is_insertion(final(target_arr)@, old(target_arr)@, source_arr@, indices),
{
    match indices {
        ExtInsType::Axis(inds, axis, exchange_axis) => {
            if axis == 0 {
                target_arr.insert_rows(inds.as_slice(), source_arr, exchange_axis);
            } else {
                target_arr.insert_cols(inds.as_slice(), source_arr, exchange_axis);
            }
        },
        ExtInsType::Cross(rows, cols) => {
            target_arr.copy_cross_from(source_arr, rows.as_slice(), cols.as_slice());
        },
    }
}

/// Kind of row operation of an elementary matrix.
pub enum RowOpType {
    /// Row addition
    Add,
    /// Row subtraction
    Sub,
}

/// How an elementary matrix is applied.
pub struct ElMatOptions {
    /// Inverse operation
    pub inv: bool,
    /// Transpose operation
    pub trans: bool,
    /// Left or right operation
    pub left: bool,
}

/// The rows an elementary factor reads (`ext_rows`): the row indices, or the
/// column indices when the factor is transposed; taken as columns of a
/// transposed target.
pub fn ext_rows<T: Copy>(
    c_indices: Vec<usize>,
    r_indices: Vec<usize>,
    right_arr: &ColMatrix<T>,
    trans: bool,
    trans_right_arr: bool,
) -> (out: ColMatrix<T>)
    requires
        right_arr@.wf(),
        extraction_ok(
            right_arr@,
            ExtInsType::Axis(
                if trans {
                    c_indices
                } else {
                    r_indices
                },
                if trans_right_arr {
                    1
                } else {
                    0
                },
                trans_right_arr,
            ),
        ),
    ensures
        out@.wf(),
        is_extraction(
            out@,
            right_arr@,
            ExtInsType::Axis(
                if trans {
                    c_indices
                } else {
                    r_indices
                },
                if trans_right_arr {
                    1
                } else {
                    0
                },
                trans_right_arr,
            ),
        ),
{
    let row_indices = if trans {
        c_indices
    } else {
        r_indices
    };
    let (axis, transposed) = if trans_right_arr {
        (1usize, true)
    } else {
        (0usize, false)
    };
    let ext = Extraction::new(right_arr, ExtInsType::Axis(row_indices, axis, transposed));
    match ext {
        Ok(e) => e.ext,
        Err(_) => right_arr.duplicate(),
    }
}

/// The columns an elementary factor reads (`ext_cols`): the column indices,
/// or the row indices when the factor is transposed; taken as rows of a
/// transposed target.
pub fn ext_cols<T: Copy>(
    c_indices: Vec<usize>,
    r_indices: Vec<usize>,
    right_arr: &ColMatrix<T>,
    trans: bool,
    trans_right_arr: bool,
) -> (out: ColMatrix<T>)
    requires
        right_arr@.wf(),
        extraction_ok(
            right_arr@,
            ExtInsType::Axis(
                if trans {
                    r_indices
                } else {
                    c_indices
                },
                if trans_right_arr {
                    0
                } else {
                    1
                },
                trans_right_arr,
            ),
        ),
    ensures
        out@.wf(),
        is_extraction(
            out@,
            right_arr@,
            ExtInsType::Axis(
                if trans {
                    r_indices
                } else {
                    c_indices
                },
                if trans_right_arr {
                    0
                } else {
                    1
                },
                trans_right_arr,
            ),
        ),
{
    let col_indices = if trans {
        r_indices
    } else {
        c_indices
    };
    let (axis, transposed) = if trans_right_arr {
        (0usize, true)
    } else {
        (1usize, false)
    };
    let ext = Extraction::new(right_arr, ExtInsType::Axis(col_indices, axis, transposed));
    match ext {
        Ok(e) => e.ext,
        Err(_) => right_arr.duplicate(),
    }
}

/// Writes `source_arr` into the rows an elementary factor updates
/// (`row_subs`): the row indices, or the column indices when transposed.
pub fn row_subs<T: Copy>(
    c_indices: Vec<usize>,
    r_indices: Vec<usize>,
    source_arr: &ColMatrix<T>,
    target_arr: &mut ColMatrix<T>,
    trans: bool,
    trans_subs: bool,
)
    requires
        old(target_arr)@.wf(),
        source_arr@.wf(),
        insertion_ok(
            old(target_arr)@,
            source_arr@,
            ExtInsType::Axis(
                if trans {
                    c_indices
                } else {
                    r_indices
                },
                0,
                trans_subs,
            ),
        ),
    ensures
        final(target_arr)@.wf(),
        is_insertion(
            final(target_arr)@,
            old(target_arr)@,
            source_arr@,
            ExtInsType::Axis(
                if trans {
                    c_indices
                } else {
                    r_indices
                },
                0,
                trans_subs,
            ),
        ),
{
    let row_indices = if trans {
        c_indices
    } else {
        r_indices
    };
    matrix_insertion(target_arr, source_arr, ExtInsType::Axis(row_indices, 0, trans_subs));
}

/// Writes `source_arr` into the columns an elementary factor updates
/// (`col_subs`): the column indices, or the row indices when transposed.
pub fn col_subs<T: Copy>(
    c_indices: Vec<usize>,
    r_indices: Vec<usize>,
    source_arr: &ColMatrix<T>,
    target_arr: &mut ColMatrix<T>,
    trans: bool,
    trans_subs: bool,
)
    requires
        old(target_arr)@.wf(),
        source_arr@.wf(),
        insertion_ok(
            old(target_arr)@,
            source_arr@,
            ExtInsType::Axis(
                if trans {
                    r_indices
                } else {
                    c_indices
                },
                1,
                trans_subs,
            ),
        ),
    ensures
        final(target_arr)@.wf(),
        is_insertion(
            final(target_arr)@,
            old(target_arr)@,
            source_arr@,
            ExtInsType::Axis(
                if trans {
                    r_indices
                } else {
                    c_indices
                },
                1,
                trans_subs,
            ),
        ),
{
    let col_indices = if trans {
        r_indices
    } else {
        c_indices
    };
    matrix_insertion(target_arr, source_arr, ExtInsType::Axis(col_indices, 1, trans_subs));
}

/// Writing back the rows just extracted leaves a matrix unchanged:
/// inserting at `inds` the rows extracted from `inds` restores every entry,
/// repeated indices included.
pub proof fn lemma_extract_insert_rows<T>(
    a: MatrixView<T>,
    e: MatrixView<T>,
    a2: MatrixView<T>,
    inds: Seq<usize>,
)
    requires
        a.rows <= usize::MAX,
        indices_below(inds, a.rows),
        is_row_extraction(e, a, inds, false),
        is_row_insertion(a2, a, e, inds, false),
    ensures
        a2.same_entries(a),
{
    assert forall|i: int, j: int| 0 <= i < a2.rows && 0 <= j < a2.cols implies #[trigger] a2.at(i, j)
        == a.at(i, j) by {
        assert(a2.oriented_at(false, i, j) == a2.at(i, j));
        lemma_last_pos(inds, i as usize);
        let lp = last_pos(inds, i as usize);
        if lp >= 0 {
            assert(inds[lp] == i as usize);
            assert(e.oriented_at(false, lp, j) == a.at(inds[lp] as int, j));
        }
    }
}

/// Writing back the columns just extracted leaves a matrix unchanged.
pub proof fn lemma_extract_insert_cols<T>(
    a: MatrixView<T>,
    e: MatrixView<T>,
    a2: MatrixView<T>,
    inds: Seq<usize>,
)
    requires
        a.cols <= usize::MAX,
        indices_below(inds, a.cols),
        is_col_extraction(e, a, inds, false),
        is_col_insertion(a2, a, e, inds, false),
    ensures
        a2.same_entries(a),
{
    assert forall|i: int, j: int| 0 <= i < a2.rows && 0 <= j < a2.cols implies #[trigger] a2.at(i, j)
        == a.at(i, j) by {
        assert(a2.oriented_at(false, i, j) == a2.at(i, j));
        lemma_last_pos(inds, j as usize);
        let lp = last_pos(inds, j as usize);
        if lp >= 0 {
            assert(inds[lp] == j as usize);
            assert(e.oriented_at(false, i, lp) == a.at(i, inds[lp] as int));
        }
    }
}

} // verus!
