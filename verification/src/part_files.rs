//! Layout of sample matrices stored as multipart files.
//!
//! A matrix with `m` rows and `ncols` columns is stored as consecutive
//! column blocks of at most `BLOCK_COLS` columns; block `b` holds the columns
//! `b * BLOCK_COLS ..` in column-major order, in a part file named
//! `{base}.{b:05}.h5`. Appending rows rewrites every block with the new rows
//! stacked under the stored ones; loading places every block back at its
//! columns.
use vstd::prelude::*;
use crate::matrix::{cm_index, lemma_cm_index_bounds, ColMatrix, MatrixView};

verus! {

/// Number of columns stored in one part file.
pub const BLOCK_COLS: usize = 4096;

/// Number of rows per storage chunk (times the block width).
pub const CHUNK_ROWS: usize = 256;

/// Number of column blocks of a matrix with `ncols` columns.
pub open spec fn nblocks_spec(ncols: nat) -> nat {
    if ncols % (BLOCK_COLS as nat) == 0 {
        ncols / (BLOCK_COLS as nat)
    } else {
        ncols / (BLOCK_COLS as nat) + 1
    }
}

/// Number of columns in block `b` of a matrix with `ncols` columns.
pub open spec fn block_width_spec(ncols: nat, b: nat) -> nat {
    let rest = ncols - b * (BLOCK_COLS as nat);
    if rest < BLOCK_COLS {
        rest as nat
    } else {
        BLOCK_COLS as nat
    }
}

/// Number of column blocks of a matrix with `ncols` columns (`nblocks`).
pub fn nblocks(ncols: usize) -> (n: usize)
    ensures
        n == nblocks_spec(ncols as nat),
{
    if ncols % BLOCK_COLS == 0 {
        ncols / BLOCK_COLS
    } else {
        ncols / BLOCK_COLS + 1
    }
}

/// Number of columns in block `b` (`block_width`).
pub fn block_width(ncols: usize, b: usize) -> (w: usize)
    requires
        b * BLOCK_COLS <= ncols,
    ensures
        w == block_width_spec(ncols as nat, b as nat),
{
    let col0 = b * BLOCK_COLS;
    let rest = ncols - col0;
    if rest < BLOCK_COLS {
        rest
    } else {
        BLOCK_COLS
    }
}

/// Storage chunk length for a dataset of `total_len` entries whose block is
/// `wk` columns wide (`chunk_len`): `CHUNK_ROWS * wk`, at least one and at
/// most `total_len`, and one for an empty dataset.
pub open spec fn chunk_len_spec(total_len: nat, wk: nat) -> nat {
    let per_chunk = if CHUNK_ROWS * wk >= 1 {
        CHUNK_ROWS * wk
    } else {
        1
    };
    let capped = if total_len <= per_chunk {
        total_len
    } else {
        per_chunk as nat
    };
    if capped >= 1 {
        capped
    } else {
        1
    }
}

/// Storage chunk length (`chunk_len`).
pub fn chunk_len(total_len: usize, wk: usize) -> (c: usize)
    requires
        CHUNK_ROWS * wk <= usize::MAX,
    ensures
        c == chunk_len_spec(total_len as nat, wk as nat),
{
    let raw = CHUNK_ROWS * wk;
    let per_chunk = if raw >= 1 {
        raw
    } else {
        1
    };
    let capped = if total_len <= per_chunk {
        total_len
    } else {
        per_chunk
    };
    if capped >= 1 {
        capped
    } else {
        1
    }
}

/// A column-major buffer read as a `rows x cols` matrix.
pub open spec fn as_matrix<T>(data: Seq<T>, rows: nat, cols: nat) -> MatrixView<T> {
    MatrixView { rows, cols, data }
}

/// `merged` is the `(m_old + m_add) x wk` column-major matrix that stacks
/// the `m_old x wk` matrix held by `old` over the `m_add x wk` matrix held by
/// `extra`.
pub open spec fn is_row_append<T>(
    merged: Seq<T>,
    old: Seq<T>,
    extra: Seq<T>,
    m_old: nat,
    m_add: nat,
    wk: nat,
) -> bool {
    &&& merged.len() == (m_old + m_add) * wk
    &&& forall|i: int, j: int|
        0 <= i < m_old + m_add && 0 <= j < wk ==> #[trigger] as_matrix(merged, m_old + m_add, wk).at(
            i,
            j,
        ) == if i < m_old {
            as_matrix(old, m_old, wk).at(i, j)
        } else {
            as_matrix(extra, m_add, wk).at(i - m_old, j)
        }
}

/// Stacks the `m_add x wk` column-major block `extra_flat` under the
/// `m_old x wk` column-major block `old_flat` (`append_rows_column_major`).
pub fn append_rows_column_major<T: Copy>(
    old_flat: &[T],
    extra_flat: &[T],
    m_old: usize,
    m_add: usize,
    wk: usize,
) -> (merged: Vec<T>)
    requires
        m_old * wk <= old_flat@.len(),
        m_add * wk <= extra_flat@.len(),
        m_old + m_add <= usize::MAX,
        (m_old + m_add) * wk <= usize::MAX,
    ensures
        is_row_append(merged@, old_flat@, extra_flat@, m_old as nat, m_add as nat, wk as nat),
{
    let old_len = old_flat.len();
    let extra_len = extra_flat.len();
    let m_new = m_old + m_add;
    if m_new == 0 || wk == 0 {
        proof {
            assert(m_new * wk == 0) by (nonlinear_arith)
                requires
                    m_new == 0 || wk == 0,
            ;
        }
        return Vec::new();
    }
    let seed = if m_old > 0 {
        proof {
            lemma_cm_index_bounds(0, 0, m_old as int, wk as int);
        }
        old_flat[0]
    } else {
        proof {
            lemma_cm_index_bounds(0, 0, m_add as int, wk as int);
        }
        extra_flat[0]
    };
    let mut out = ColMatrix::filled(m_new, wk, seed);
    let mut j: usize = 0;
    while j < wk
        invariant
            out@.wf(),
            out@.rows == m_new,
            out@.cols == wk,
            m_new == m_old + m_add,
            m_old * wk <= old_flat@.len(),
            m_add * wk <= extra_flat@.len(),
            old_len == old_flat@.len(),
            extra_len == extra_flat@.len(),
            0 <= j <= wk,
            forall|ii: int, jj: int|
                0 <= ii < m_new && 0 <= jj < j ==> #[trigger] out@.at(ii, jj) == if ii < m_old {
                    as_matrix(old_flat@, m_old as nat, wk as nat).at(ii, jj)
                } else {
                    as_matrix(extra_flat@, m_add as nat, wk as nat).at(ii - m_old, jj)
                },
        decreases wk - j,
    {
        let mut i: usize = 0;
        while i < m_new
            invariant
                out@.wf(),
                out@.rows == m_new,
                out@.cols == wk,
                m_new == m_old + m_add,
                m_old * wk <= old_flat@.len(),
                m_add * wk <= extra_flat@.len(),
                old_len == old_flat@.len(),
                extra_len == extra_flat@.len(),
                0 <= j < wk,
                0 <= i <= m_new,
                forall|ii: int, jj: int|
                    0 <= ii < m_new && 0 <= jj < wk && (jj < j || (jj == j && ii < i))
                        ==> #[trigger] out@.at(ii, jj) == if ii < m_old {
                        as_matrix(old_flat@, m_old as nat, wk as nat).at(ii, jj)
                    } else {
                        as_matrix(extra_flat@, m_add as nat, wk as nat).at(ii - m_old, jj)
                    },
            decreases m_new - i,
        {
            let v = if i < m_old {
                proof {
                    lemma_cm_index_bounds(i as int, j as int, m_old as int, wk as int);
                }
                old_flat[j * m_old + i]
            } else {
                proof {
                    lemma_cm_index_bounds((i - m_old) as int, j as int, m_add as int, wk as int);
                }
                extra_flat[j * m_add + (i - m_old)]
            };
            out.set(i, j, v);
            i = i + 1;
        }
        j = j + 1;
    }
    out.into_data()
}

/// `flat` holds, column-major, the columns `col0 .. col0 + wk` of `src`.
pub open spec fn is_column_block<T>(flat: Seq<T>, src: MatrixView<T>, col0: nat, wk: nat) -> bool {
    &&& flat.len() == src.rows * wk
    &&& forall|i: int, j: int|
        0 <= i < src.rows && 0 <= j < wk ==> #[trigger] as_matrix(flat, src.rows, wk).at(i, j)
            == src.at(i, col0 + j)
}

/// The columns `col0 .. col0 + wk` of `arr`, column-major
/// (`gather_block_column_major`).
pub fn gather_block_column_major<T: Copy>(arr: &ColMatrix<T>, col0: usize, wk: usize) -> (flat:
    Vec<T>)
    requires
        arr@.wf(),
        col0 + wk <= arr@.cols,
        arr@.rows * wk <= usize::MAX,
    ensures
        is_column_block(flat@, arr@, col0 as nat, wk as nat),
{
    let shape = arr.shape();
    let mut inds: Vec<usize> = Vec::new();
    let mut j: usize = 0;
    while j < wk
        invariant
            0 <= j <= wk,
            col0 + wk <= arr@.cols,
            shape[1] == arr@.cols,
            inds@.len() == j,
            forall|t: int| 0 <= t < j ==> #[trigger] inds@[t] == col0 + t,
        decreases wk - j,
    {
        inds.push(col0 + j);
        j = j + 1;
    }
    let block = arr.extract_cols(inds.as_slice(), false);
    proof {
        assert forall|i: int, jj: int| 0 <= i < arr@.rows && 0 <= jj < wk implies #[trigger] as_matrix(
            block@.data,
            arr@.rows,
            wk as nat,
        ).at(i, jj) == arr@.at(i, col0 + jj) by {
            assert(block@.oriented_at(false, i, jj) == arr@.at(i, inds@[jj] as int));
        }
    }
    block.into_data()
}

/// An ASCII decimal digit.
pub open spec fn is_digit(b: u8) -> bool {
    48 <= b <= 57
}

/// `s` ends with `".h5"`.
pub open spec fn ends_with_h5(s: Seq<u8>) -> bool {
    &&& s.len() >= 3
    &&& s[s.len() - 3] == 46
    &&& s[s.len() - 2] == 104
    &&& s[s.len() - 1] == 53
}

/// `s` ends with a part suffix `".DDDDD.h5"` (five decimal digits).
pub open spec fn has_part_suffix(s: Seq<u8>) -> bool {
    &&& s.len() >= 9
    &&& ends_with_h5(s)
    &&& s[s.len() - 9] == 46
    &&& forall|k: int| s.len() - 8 <= k < s.len() - 3 ==> is_digit(#[trigger] s[k])
}

/// The base name of a sample file: without a part suffix `".DDDDD.h5"`, or
/// else without a plain `".h5"`.
pub open spec fn canonical_base_spec(s: Seq<u8>) -> Seq<u8> {
    if has_part_suffix(s) {
        s.take(s.len() - 9)
    } else if ends_with_h5(s) {
        s.take(s.len() - 3)
    } else {
        s
    }
}

/// `s` ends with `".h5"`.
fn bytes_end_with_h5(s: &[u8]) -> (r: bool)
    ensures
        r == ends_with_h5(s@),
{
    let n = s.len();
    n >= 3 && s[n - 3] == 46 && s[n - 2] == 104 && s[n - 1] == 53
}

/// The base name of a sample file name given as bytes (`canonical_base`):
/// `"y_sketch_file"`, `"y_sketch_file.h5"` and `"y_sketch_file.00000.h5"` all
/// give `"y_sketch_file"`.
pub fn canonical_base(input: &[u8]) -> (base: Vec<u8>)
    ensures
        base@ == canonical_base_spec(input@),
{
    let n = input.len();
    let mut keep = n;
    if n >= 9 && bytes_end_with_h5(input) && input[n - 9] == 46 {
        let mut all_digits = true;
        let mut k = n - 8;
        while k < n - 3
            invariant
                n == input@.len(),
                n >= 9,
                n - 8 <= k <= n - 3,
                all_digits <==> forall|t: int| n - 8 <= t < k ==> is_digit(#[trigger] input@[t]),
            decreases n - 3 - k,
        {
            if !(48 <= input[k] && input[k] <= 57) {
                all_digits = false;
            }
            k = k + 1;
        }
        if all_digits {
            keep = n - 9;
        } else {
            keep = n - 3;
        }
    } else if bytes_end_with_h5(input) {
        keep = n - 3;
    }
    let mut out: Vec<u8> = Vec::new();
    let mut t: usize = 0;
    while t < keep
        invariant
            keep <= n,
            n == input@.len(),
            0 <= t <= keep,
            out@ =~= input@.take(t as int),
        decreases keep - t,
    {
        out.push(input[t]);
        t = t + 1;
    }
    proof {
        if keep == n {
            assert(input@.take(n as int) =~= input@);
        }
    }
    out
}

/// Decimal digits of `n`, most significant first, without leading zeros.
pub open spec fn decimal_digits(n: nat) -> Seq<u8>
    decreases n,
{
    if n < 10 {
        seq![(48 + n) as u8]
    } else {
        decimal_digits(n / 10).push((48 + n % 10) as u8)
    }
}

/// Decimal digits of `n`, left-padded with zeros to at least `width` digits.
pub open spec fn padded_decimal(n: nat, width: nat) -> Seq<u8> {
    let d = decimal_digits(n);
    if d.len() < width {
        Seq::new((width - d.len()) as nat, |i: int| 48u8) + d
    } else {
        d
    }
}

/// There is at least one digit.
pub proof fn lemma_decimal_digits_len(n: nat)
    ensures
        decimal_digits(n).len() >= 1,
        n < 10 ==> decimal_digits(n).len() == 1,
    decreases n,
{
    if n >= 10 {
        lemma_decimal_digits_len(n / 10);
    }
}

/// Decimal digits of `n`, most significant first (what `{}` prints for an
/// unsigned integer).
pub fn format_decimal(n: u64) -> (out: Vec<u8>)
    ensures
        out@ == decimal_digits(n as nat),
{
    let mut rev: Vec<u8> = Vec::new();
    let mut rest: u64 = n;
    while rest >= 10
        invariant
            decimal_digits(n as nat) =~= decimal_digits(rest as nat) + rev@.reverse(),
        decreases rest,
    {
        let ghost old_rev = rev@;
        let d: u8 = (rest % 10) as u8;
        rev.push(48 + d);
        proof {
            assert(decimal_digits(rest as nat) =~= decimal_digits((rest / 10) as nat).push(
                (48 + rest % 10) as u8,
            ));
            assert(rev@.reverse() =~= seq![(48 + rest % 10) as u8] + old_rev.reverse());
            assert(decimal_digits(n as nat) =~= decimal_digits((rest / 10) as nat) + rev@.reverse());
        }
        rest = rest / 10;
    }
    let ghost old_rev = rev@;
    let last: u8 = rest as u8;
    rev.push(48 + last);
    proof {
        assert(rev@.reverse() =~= seq![(48 + rest) as u8] + old_rev.reverse());
        assert(decimal_digits(n as nat) =~= rev@.reverse());
    }
    let len = rev.len();
    let mut out: Vec<u8> = Vec::new();
    let mut t: usize = 0;
    while t < len
        invariant
            len == rev@.len(),
            0 <= t <= len,
            out@ =~= rev@.reverse().take(t as int),
        decreases len - t,
    {
        out.push(rev[len - 1 - t]);
        t = t + 1;
    }
    proof {
        assert(rev@.reverse().take(len as int) =~= rev@.reverse());
    }
    out
}

/// Decimal digits of `n`, left-padded with zeros to at least `width` digits
/// (what `{:0width$}` prints for an unsigned integer).
pub fn format_padded_decimal(n: u64, width: usize) -> (out: Vec<u8>)
    ensures
        out@ == padded_decimal(n as nat, width as nat),
{
    let digits = format_decimal(n);
    let len = digits.len();
    let mut out: Vec<u8> = Vec::new();
    if len < width {
        let pad = width - len;
        let mut t: usize = 0;
        while t < pad
            invariant
                0 <= t <= pad,
                out@ =~= Seq::new(t as nat, |i: int| 48u8),
            decreases pad - t,
        {
            out.push(48);
            t = t + 1;
        }
    }
    let ghost prefix = out@;
    let mut t: usize = 0;
    while t < len
        invariant
            len == digits@.len(),
            0 <= t <= len,
            out@ =~= prefix + digits@.take(t as int),
        decreases len - t,
    {
        out.push(digits[t]);
        t = t + 1;
    }
    proof {
        assert(digits@.take(len as int) =~= digits@);
        if len < width {
            assert(prefix =~= Seq::new((width - len) as nat, |i: int| 48u8));
        } else {
            assert(prefix =~= Seq::<u8>::empty());
        }
    }
    out
}

/// Name of part `b` of the sample file with base name `base`:
/// `"{canonical base}.{b:05}.h5"` (the file name of `part_path`).
pub open spec fn part_file_name_spec(base: Seq<u8>, b: nat) -> Seq<u8> {
    canonical_base_spec(base) + seq![46u8] + padded_decimal(b, 5) + seq![46u8, 104u8, 53u8]
}

/// Name of part `b` of the sample file with base name `base`.
pub fn part_file_name(base: &[u8], b: u64) -> (name: Vec<u8>)
    ensures
        name@ == part_file_name_spec(base@, b as nat),
{
    let mut name = canonical_base(base);
    name.push(46);
    let digits = format_padded_decimal(b, 5);
    let ghost head = name@;
    let len = digits.len();
    let mut t: usize = 0;
    while t < len
        invariant
            len == digits@.len(),
            0 <= t <= len,
            name@ =~= head + digits@.take(t as int),
        decreases len - t,
    {
        name.push(digits[t]);
        t = t + 1;
    }
    name.push(46);
    name.push(104);
    name.push(53);
    proof {
        assert(digits@.take(len as int) =~= digits@);
        assert(name@ =~= part_file_name_spec(base@, b as nat));
    }
    name
}

/// `s` begins with `p`.
pub open spec fn starts_with(s: Seq<u8>, p: Seq<u8>) -> bool {
    p.len() <= s.len() && s.take(p.len() as int) =~= p
}

/// Value of a string of decimal digits.
pub open spec fn digits_value(s: Seq<u8>) -> nat
    decreases s.len(),
{
    if s.len() == 0 {
        0
    } else {
        digits_value(s.drop_last()) * 10 + (s.last() - 48) as nat
    }
}

/// A file name that begins with `"{stem}."` and ends with `".h5"` but is too
/// short to hold anything between them; reading its part index fails.
pub open spec fn overlapping_part_name(name: Seq<u8>, stem: Seq<u8>) -> bool {
    &&& starts_with(name, stem.push(46u8))
    &&& ends_with_h5(name)
    &&& stem.len() + 1 > name.len() - 3
}

/// The part index of file `name` for the sample file with stem `stem`: the
/// five digits of a name `"{stem}.DDDDD.h5"`, or nothing for another name.
pub open spec fn part_index_spec(name: Seq<u8>, stem: Seq<u8>) -> Option<nat> {
    let prefix = stem.push(46u8);
    if !(starts_with(name, prefix) && ends_with_h5(name)) {
        None
    } else {
        let middle = name.subrange(prefix.len() as int, name.len() - 3);
        if middle.len() == 5 && (forall|k: int| 0 <= k < 5 ==> is_digit(#[trigger] middle[k])) {
            Some(digits_value(middle))
        } else {
            None
        }
    }
}

/// A string of `k` decimal digits has a value below `10^k`.
proof fn lemma_digits_value_bound(s: Seq<u8>)
    requires
        forall|k: int| 0 <= k < s.len() ==> is_digit(#[trigger] s[k]),
        s.len() <= 5,
    ensures
        digits_value(s) < if s.len() == 0 {
            1nat
        } else if s.len() == 1 {
            10nat
        } else if s.len() == 2 {
            100nat
        } else if s.len() == 3 {
            1000nat
        } else if s.len() == 4 {
            10000nat
        } else {
            100000nat
        },
    decreases s.len(),
{
    if s.len() > 0 {
        assert(is_digit(s[s.len() - 1]));
        lemma_digits_value_bound(s.drop_last());
    }
}

/// The part index of file `name` for the sample file with stem `stem`
/// (the name test of `find_part_files_in_dir`).
pub fn part_index(name: &[u8], stem: &[u8]) -> (idx: Option<usize>)
    requires
        !overlapping_part_name(name@, stem@),
    ensures
        idx matches Some(i) ==> part_index_spec(name@, stem@) == Some(i as nat),
        idx is None ==> part_index_spec(name@, stem@) is None,
{
    let n = name.len();
    let sl = stem.len();
    let ghost prefix = stem@.push(46u8);
    if sl >= n || !bytes_end_with_h5(name) {
        return None;
    }
    let mut k: usize = 0;
    while k < sl
        invariant
            sl == stem@.len(),
            n == name@.len(),
            sl + 1 <= n,
            prefix == stem@.push(46u8),
            0 <= k <= sl,
            forall|t: int| 0 <= t < k ==> #[trigger] name@[t] == stem@[t],
        decreases sl - k,
    {
        if name[k] != stem[k] {
            proof {
                assert(name@.take(prefix.len() as int)[k as int] != prefix[k as int]);
            }
            return None;
        }
        k = k + 1;
    }
    if name[sl] != 46 {
        proof {
            assert(name@.take(prefix.len() as int)[sl as int] != prefix[sl as int]);
        }
        return None;
    }
    proof {
        assert(name@.take(prefix.len() as int) =~= prefix);
        assert(starts_with(name@, prefix));
    }
    // Here `name` starts with the prefix and ends with ".h5".
    let start = sl + 1;
    let end = n - 3;
    if end - start != 5 {
        return None;
    }
    let ghost middle = name@.subrange(start as int, end as int);
    let mut value: usize = 0;
    let mut t: usize = 0;
    while t < 5
        invariant
            start + 5 == end,
            end <= n,
            prefix == stem@.push(46u8),
            start == prefix.len(),
            starts_with(name@, prefix),
            ends_with_h5(name@),
            n == name@.len(),
            middle == name@.subrange(start as int, end as int),
            0 <= t <= 5,
            forall|q: int| 0 <= q < t ==> is_digit(#[trigger] middle[q]),
            value == digits_value(middle.take(t as int)),
            value < 100000,
        decreases 5 - t,
    {
        let c = name[start + t];
        if !(48 <= c && c <= 57) {
            proof {
                assert(!is_digit(middle[t as int]));
            }
            return None;
        }
        proof {
            assert(middle.take(t + 1).drop_last() =~= middle.take(t as int));
            assert(middle.take(t + 1) =~= middle.take(t as int).push(c));
            lemma_digits_value_bound(middle.take(t + 1));
        }
        value = value * 10 + (c - 48) as usize;
        t = t + 1;
    }
    proof {
        assert(middle.take(5) =~= middle);
    }
    Some(value)
}

/// The byte strings held by a list of byte vectors.
pub open spec fn byte_views(names: Seq<Vec<u8>>) -> Seq<Seq<u8>> {
    Seq::new(names.len(), |k: int| names[k]@)
}

/// The part files among `names`: `(part index, position in names)` for every
/// name that is a part of the sample file with stem `stem`, in the order of
/// `names`.
pub open spec fn found_parts_spec(names: Seq<Seq<u8>>, stem: Seq<u8>) -> Seq<(usize, usize)>
    decreases names.len(),
{
    if names.len() == 0 {
        Seq::empty()
    } else {
        let rest = found_parts_spec(names.drop_last(), stem);
        match part_index_spec(names.last(), stem) {
            Some(i) => rest.push((i as usize, (names.len() - 1) as usize)),
            None => rest,
        }
    }
}

/// Part entries in ascending order of their part index.
pub open spec fn sorted_by_part_index(v: Seq<(usize, usize)>) -> bool {
    forall|a: int, b: int| 0 <= a < b < v.len() ==> #[trigger] v[a].0 <= #[trigger] v[b].0
}

/// A part index is missing: after sorting, position `expected` holds part
/// `found`.
#[derive(Debug, Clone, Copy, PartialEq, Eq)]
pub struct PartGap {
    pub expected: usize,
    pub found: usize,
}

/// Sorts part entries by part index (std's stable `sort_by_key`).
#[verifier::external_body]
fn sort_by_part_index(parts: &mut Vec<(usize, usize)>)
    ensures
        final(parts)@.to_multiset() == old(parts)@.to_multiset(),
        final(parts)@.len() == old(parts)@.len(),
        sorted_by_part_index(final(parts)@),
{
    parts.sort_by_key(|p| p.0);
}

/// The part files of the sample file with stem `stem` among the file names
/// `names` of a directory, sorted by part index, or the first missing index
/// (the name and index checks of `find_part_files_in_dir`). An entry is
/// `(part index, position in names)`.
pub fn locate_parts(names: &Vec<Vec<u8>>, stem: &[u8]) -> (res: Result<
    Vec<(usize, usize)>,
    PartGap,
>)
    requires
        forall|k: int| 0 <= k < names@.len() ==> !overlapping_part_name(#[trigger] names@[k]@, stem@),
    ensures
        match res {
            Ok(v) => {
                &&& v@.to_multiset() == found_parts_spec(byte_views(names@), stem@).to_multiset()
                &&& sorted_by_part_index(v@)
                &&& forall|k: int| 0 <= k < v@.len() ==> #[trigger] v@[k].0 == k
            },
            Err(g) => exists|v: Seq<(usize, usize)>|
                {
                    &&& v.to_multiset() == found_parts_spec(byte_views(names@), stem@).to_multiset()
                    &&& sorted_by_part_index(v)
                    &&& g.expected < v.len()
                    &&& v[g.expected as int].0 == g.found
                    &&& g.found != g.expected
                    &&& forall|k: int| 0 <= k < g.expected ==> #[trigger] v[k].0 == k
                },
        },
{
    let mut parts: Vec<(usize, usize)> = Vec::new();
    let n = names.len();
    let mut p: usize = 0;
    while p < n
        invariant
            n == names@.len(),
            0 <= p <= n,
            forall|k: int| 0 <= k < names@.len() ==> !overlapping_part_name(#[trigger] names@[k]@, stem@),
            parts@ == found_parts_spec(byte_views(names@).take(p as int), stem@),
        decreases n - p,
    {
        let idx = part_index(names[p].as_slice(), stem);
        proof {
            let views = byte_views(names@);
            assert(views.take(p + 1).drop_last() =~= views.take(p as int));
            assert(views.take(p + 1).last() == names@[p as int]@);
        }
        match idx {
            Some(i) => {
                parts.push((i, p));
            },
            None => {},
        }
        p = p + 1;
    }
    proof {
        assert(byte_views(names@).take(n as int) =~= byte_views(names@));
    }
    let ghost found = parts@;
    sort_by_part_index(&mut parts);
    let len = parts.len();
    let mut k: usize = 0;
    while k < len
        invariant
            len == parts@.len(),
            0 <= k <= len,
            forall|t: int| 0 <= t < k ==> #[trigger] parts@[t].0 == t,
            parts@.to_multiset() == found_parts_spec(byte_views(names@), stem@).to_multiset(),
            sorted_by_part_index(parts@),
        decreases len - k,
    {
        if parts[k].0 != k {
            let g = PartGap { expected: k, found: parts[k].0 };
            proof {
                let v = parts@;
                assert(v.to_multiset() == found_parts_spec(byte_views(names@), stem@).to_multiset());
                assert(g.expected < v.len() && v[g.expected as int].0 == g.found);
                assert(forall|t: int| 0 <= t < g.expected ==> #[trigger] v[t].0 == t);
            }
            return Err(g);
        }
        k = k + 1;
    }
    Ok(parts)
}

/// The buffers held by a list of vectors.
pub open spec fn vec_views<T>(blocks: Seq<Vec<T>>) -> Seq<Seq<T>> {
    Seq::new(blocks.len(), |k: int| blocks[k]@)
}

/// Block `b` has the length a block of an `m x ncols` matrix must have.
pub open spec fn block_len_ok<T>(blocks: Seq<Seq<T>>, m: nat, ncols: nat, b: int) -> bool {
    blocks[b].len() == m * block_width_spec(ncols, b as nat)
}

/// `out` is the `m x ncols` matrix whose column blocks are `blocks`, with
/// `zero` in the columns of blocks that are not there.
pub open spec fn is_loaded<T>(out: Seq<T>, m: nat, ncols: nat, blocks: Seq<Seq<T>>, zero: T) -> bool {
    &&& out.len() == m * ncols
    &&& forall|b: int, j: int, i: int|
        0 <= b < blocks.len() && 0 <= j < block_width_spec(ncols, b as nat) && 0 <= i < m
            ==> #[trigger] as_matrix(out, m, ncols).at(i, b * BLOCK_COLS + j) == as_matrix(
            blocks[b],
            m,
            block_width_spec(ncols, b as nat),
        ).at(i, j)
    &&& forall|g: int, i: int|
        blocks.len() * BLOCK_COLS <= g < ncols && 0 <= i < m ==> #[trigger] as_matrix(
            out,
            m,
            ncols,
        ).at(i, g) == zero
}

/// A part holds a number of entries that does not fit the stored shape.
#[derive(Debug, Clone, Copy, PartialEq, Eq)]
pub struct LengthMismatch {
    pub part: usize,
    pub got: usize,
    pub expected: usize,
}

/// A block index below the block count starts inside the matrix.
proof fn lemma_block_start(ncols: nat, b: nat)
    requires
        b < nblocks_spec(ncols),
    ensures
        b * BLOCK_COLS < ncols,
        b * BLOCK_COLS + block_width_spec(ncols, b) <= ncols,
        block_width_spec(ncols, b) <= BLOCK_COLS,
        block_width_spec(ncols, b) >= 1,
        b * BLOCK_COLS + block_width_spec(ncols, b) == ncols || block_width_spec(ncols, b)
            == BLOCK_COLS,
{
}

/// The `m x ncols` matrix whose column blocks are `blocks` (the assembly of
/// loading): block `b` fills the columns `b * BLOCK_COLS ..`; columns
/// of missing blocks hold `zero`. Fails on the first block whose length does
/// not fit.
pub fn assemble_parts<T: Copy>(m: usize, ncols: usize, blocks: &Vec<Vec<T>>, zero: T) -> (res:
    Result<Vec<T>, LengthMismatch>)
    requires
        blocks@.len() <= nblocks_spec(ncols as nat),
        m * ncols <= usize::MAX,
    ensures
        match res {
            Ok(out) => {
                &&& forall|b: int|
                    0 <= b < blocks@.len() ==> #[trigger] block_len_ok(
                        vec_views(blocks@),
                        m as nat,
                        ncols as nat,
                        b,
                    )
                &&& is_loaded(out@, m as nat, ncols as nat, vec_views(blocks@), zero)
            },
            Err(e) => {
                &&& e.part < blocks@.len()
                &&& !block_len_ok(vec_views(blocks@), m as nat, ncols as nat, e.part as int)
                &&& forall|b: int|
                    0 <= b < e.part ==> #[trigger] block_len_ok(
                        vec_views(blocks@),
                        m as nat,
                        ncols as nat,
                        b,
                    )
                &&& e.got == blocks@[e.part as int]@.len()
                &&& e.expected == m * block_width_spec(ncols as nat, e.part as nat)
            },
        },
{
    let nb = blocks.len();
    let mut b: usize = 0;
    while b < nb
        invariant
            nb == blocks@.len(),
            nb <= nblocks_spec(ncols as nat),
            m * ncols <= usize::MAX,
            0 <= b <= nb,
            forall|bb: int|
                0 <= bb < b ==> #[trigger] block_len_ok(vec_views(blocks@), m as nat, ncols as nat, bb),
        decreases nb - b,
    {
        proof {
            lemma_block_start(ncols as nat, b as nat);
        }
        let wk = block_width(ncols, b);
        proof {
            assert(m * wk <= m * ncols) by (nonlinear_arith)
                requires
                    wk <= ncols,
            ;
        }
        let expected = m * wk;
        if blocks[b].len() != expected {
            return Err(LengthMismatch { part: b, got: blocks[b].len(), expected });
        }
        b = b + 1;
    }
    let mut out = ColMatrix::filled(m, ncols, zero);
    let mut b: usize = 0;
    while b < nb
        invariant
            nb == blocks@.len(),
            nb <= nblocks_spec(ncols as nat),
            m * ncols <= usize::MAX,
            0 <= b <= nb,
            out@.wf(),
            out@.rows == m,
            out@.cols == ncols,
            forall|bb: int|
                0 <= bb < nb ==> #[trigger] block_len_ok(vec_views(blocks@), m as nat, ncols as nat, bb),
            forall|bb: int, j: int, i: int|
                0 <= bb < b && 0 <= j < block_width_spec(ncols as nat, bb as nat) && 0 <= i < m
                    ==> #[trigger] out@.at(i, bb * BLOCK_COLS + j) == as_matrix(
                    vec_views(blocks@)[bb],
                    m as nat,
                    block_width_spec(ncols as nat, bb as nat),
                ).at(i, j),
            forall|g: int, i: int|
                b * BLOCK_COLS <= g < ncols && 0 <= i < m ==> #[trigger] out@.at(i, g) == zero,
        decreases nb - b,
    {
        proof {
            lemma_block_start(ncols as nat, b as nat);
        }
        let wk = block_width(ncols, b);
        let col0 = b * BLOCK_COLS;
        let block = &blocks[b];
        proof {
            assert(m * wk <= m * ncols) by (nonlinear_arith)
                requires
                    wk <= ncols,
            ;
            assert(block_len_ok(vec_views(blocks@), m as nat, ncols as nat, b as int));
            assert(vec_views(blocks@)[b as int] == block@);
        }
        let mut j: usize = 0;
        while j < wk
            invariant
                nb == blocks@.len(),
                0 <= b < nb,
                wk == block_width_spec(ncols as nat, b as nat),
                col0 == b * BLOCK_COLS,
                col0 + wk <= ncols,
                wk <= BLOCK_COLS,
                col0 + wk == ncols || wk == BLOCK_COLS,
                block@ == vec_views(blocks@)[b as int],
                block@.len() == m * wk,
                m * wk <= usize::MAX,
                m * ncols <= usize::MAX,
                0 <= j <= wk,
                out@.wf(),
                out@.rows == m,
                out@.cols == ncols,
                forall|bb: int, jj: int, i: int|
                    0 <= bb < b && 0 <= jj < block_width_spec(ncols as nat, bb as nat) && 0 <= i < m
                        ==> #[trigger] out@.at(i, bb * BLOCK_COLS + jj) == as_matrix(
                        vec_views(blocks@)[bb],
                        m as nat,
                        block_width_spec(ncols as nat, bb as nat),
                    ).at(i, jj),
                forall|jj: int, i: int|
                    0 <= jj < j && 0 <= i < m ==> #[trigger] out@.at(i, col0 + jj) == as_matrix(
                        block@,
                        m as nat,
                        wk as nat,
                    ).at(i, jj),
                forall|g: int, i: int|
                    col0 + j <= g < ncols && 0 <= i < m ==> #[trigger] out@.at(i, g) == zero,
            decreases wk - j,
        {
            let mut i: usize = 0;
            while i < m
                invariant
                    nb == blocks@.len(),
                    0 <= b < nb,
                    wk == block_width_spec(ncols as nat, b as nat),
                    col0 == b * BLOCK_COLS,
                    col0 + wk <= ncols,
                    wk <= BLOCK_COLS,
                    block@.len() == m * wk,
                    m * wk <= usize::MAX,
                    0 <= j < wk,
                    0 <= i <= m,
                    out@.wf(),
                    out@.rows == m,
                    out@.cols == ncols,
                    forall|bb: int, jj: int, ii: int|
                        0 <= bb < b && 0 <= jj < block_width_spec(ncols as nat, bb as nat) && 0
                            <= ii < m ==> #[trigger] out@.at(ii, bb * BLOCK_COLS + jj) == as_matrix(
                            vec_views(blocks@)[bb],
                            m as nat,
                            block_width_spec(ncols as nat, bb as nat),
                        ).at(ii, jj),
                    forall|jj: int, ii: int|
                        0 <= jj < wk && 0 <= ii < m && (jj < j || (jj == j && ii < i))
                            ==> #[trigger] out@.at(ii, col0 + jj) == as_matrix(
                            block@,
                            m as nat,
                            wk as nat,
                        ).at(ii, jj),
                    forall|g: int, ii: int|
                        0 <= ii < m && (col0 + j < g < ncols || (g == col0 + j && i <= ii))
                            ==> #[trigger] out@.at(ii, g) == zero,
                decreases m - i,
            {
                proof {
                    lemma_cm_index_bounds(i as int, j as int, m as int, wk as int);
                }
                let v = block[j * m + i];
                out.set(i, col0 + j, v);
                proof {
                    assert forall|bb: int, jj: int, ii: int|
                        0 <= bb < b && 0 <= jj < block_width_spec(ncols as nat, bb as nat) && 0
                            <= ii < m implies #[trigger] out@.at(ii, bb * BLOCK_COLS + jj)
                        == as_matrix(
                        vec_views(blocks@)[bb],
                        m as nat,
                        block_width_spec(ncols as nat, bb as nat),
                    ).at(ii, jj) by {
                        lemma_block_start(ncols as nat, bb as nat);
                    }
                }
                i = i + 1;
            }
            j = j + 1;
        }
        proof {
            assert forall|bb: int, jj: int, i: int|
                0 <= bb < b + 1 && 0 <= jj < block_width_spec(ncols as nat, bb as nat) && 0 <= i < m
                    implies #[trigger] out@.at(i, bb * BLOCK_COLS + jj) == as_matrix(
                vec_views(blocks@)[bb],
                m as nat,
                block_width_spec(ncols as nat, bb as nat),
            ).at(i, jj) by {
                if bb == b {
                    assert(out@.at(i, col0 + jj) == as_matrix(block@, m as nat, wk as nat).at(i, jj));
                }
            }
        }
        b = b + 1;
    }
    Ok(out.into_data())
}

/// `merged` is block `b` of the `(m_old + extra.rows) x ncols` matrix that
/// stacks the rows of `extra` under the `m_old` stored rows whose block `b` is
/// `old_block`.
pub open spec fn is_appended_block<T>(
    merged: Seq<T>,
    old_block: Seq<T>,
    extra: MatrixView<T>,
    m_old: nat,
    ncols: nat,
    b: nat,
) -> bool {
    let wk = block_width_spec(ncols, b);
    let total = m_old + extra.rows;
    &&& merged.len() == total * wk
    &&& forall|i: int, j: int|
        0 <= i < total && 0 <= j < wk ==> #[trigger] as_matrix(merged, total, wk).at(i, j) == if i
            < m_old {
            as_matrix(old_block, m_old, wk).at(i, j)
        } else {
            extra.at(i - m_old, b * BLOCK_COLS + j)
        }
}

/// Why appending rows to stored parts fails.
pub enum AppendError<T> {
    /// The number of stored parts does not fit the number of columns.
    PartCount { found: usize, expected: usize },
    /// The stored matrix has another number of columns.
    ColumnMismatch { stored: usize, incoming: usize },
    /// A stored part has the wrong length; the parts before it have been
    /// rewritten already and are given in `written`.
    Length { mismatch: LengthMismatch, written: Vec<Vec<T>> },
}

/// The parts to write after appending rows: every block of the new matrix and
/// its shape.
pub struct AppendedParts<T> {
    pub rows: usize,
    pub cols: usize,
    pub blocks: Vec<Vec<T>>,
}

/// Number of rows already stored: none without parts, else the stored shape.
pub open spec fn stored_rows(existing_len: nat, stored_shape: [usize; 2]) -> nat {
    if existing_len == 0 {
        0
    } else {
        stored_shape[0] as nat
    }
}

/// Appending passes the part count and column checks.
pub open spec fn append_checks_pass(existing_len: nat, stored_shape: [usize; 2], ncols: nat) -> bool {
    existing_len == 0 || (existing_len == nblocks_spec(ncols) && stored_shape[1] == ncols)
}

/// Stored block `b`, or nothing when no rows are stored.
pub open spec fn stored_block<T>(existing: Seq<Vec<T>>, m_old: nat, b: int) -> Seq<T> {
    if m_old > 0 {
        existing[b]@
    } else {
        Seq::empty()
    }
}

/// `parts` holds every block of the matrix that stacks the rows of `extra`
/// under the `m_old` stored rows whose blocks are `existing`.
pub open spec fn appended_ok<T>(
    parts: AppendedParts<T>,
    existing: Seq<Vec<T>>,
    m_old: nat,
    extra: MatrixView<T>,
) -> bool {
    &&& parts.rows == m_old + extra.rows
    &&& parts.cols == extra.cols
    &&& parts.blocks@.len() == nblocks_spec(extra.cols)
    &&& appended_blocks(parts.blocks@, parts.blocks@.len() as int, existing, m_old, extra)
}

/// The first `count` blocks of `blocks` are blocks of the matrix that stacks
/// the rows of `extra` under the `m_old` stored rows whose blocks are
/// `existing` (which have the right lengths).
pub open spec fn appended_blocks<T>(
    blocks: Seq<Vec<T>>,
    count: int,
    existing: Seq<Vec<T>>,
    m_old: nat,
    extra: MatrixView<T>,
) -> bool {
    forall|b: int| 0 <= b < count ==> #[trigger] appended_block_ok(blocks, existing, m_old, extra, b)
}

/// Block `b` of `blocks` is block `b` of the matrix that stacks the rows of
/// `extra` under the `m_old` stored rows whose blocks are `existing` (whose
/// block `b` has the right length).
pub open spec fn appended_block_ok<T>(
    blocks: Seq<Vec<T>>,
    existing: Seq<Vec<T>>,
    m_old: nat,
    extra: MatrixView<T>,
    b: int,
) -> bool {
    &&& m_old > 0 ==> block_len_ok(vec_views(existing), m_old, extra.cols, b)
    &&& is_appended_block(
        blocks[b]@,
        stored_block(existing, m_old, b),
        extra,
        m_old,
        extra.cols,
        b as nat,
    )
}

/// Stored block `mismatch.part` is the first one of the wrong length, and
/// `written` holds the blocks rebuilt before it.
pub open spec fn append_failed<T>(
    mismatch: LengthMismatch,
    written: Seq<Vec<T>>,
    existing: Seq<Vec<T>>,
    m_old: nat,
    extra: MatrixView<T>,
) -> bool {
    &&& m_old > 0
    &&& mismatch.part < existing.len()
    &&& !block_len_ok(vec_views(existing), m_old, extra.cols, mismatch.part as int)
    &&& mismatch.got == existing[mismatch.part as int]@.len()
    &&& mismatch.expected == m_old * block_width_spec(extra.cols, mismatch.part as nat)
    &&& written.len() == mismatch.part
    &&& appended_blocks(written, mismatch.part as int, existing, m_old, extra)
}

/// Pushing a correctly appended block keeps the appended prefix.
proof fn lemma_appended_blocks_push<T>(
    prev: Seq<Vec<T>>,
    blocks: Seq<Vec<T>>,
    count: int,
    existing: Seq<Vec<T>>,
    m_old: nat,
    extra: MatrixView<T>,
)
    requires
        appended_blocks(prev, count, existing, m_old, extra),
        prev.len() == count,
        blocks.len() == count + 1,
        forall|k: int| 0 <= k < count ==> #[trigger] blocks[k] == prev[k],
        m_old > 0 ==> block_len_ok(vec_views(existing), m_old, extra.cols, count),
        is_appended_block(
            blocks[count]@,
            stored_block(existing, m_old, count),
            extra,
            m_old,
            extra.cols,
            count as nat,
        ),
    ensures
        appended_blocks(blocks, count + 1, existing, m_old, extra),
{
    assert forall|b: int| 0 <= b < count + 1 implies #[trigger] appended_block_ok(
        blocks,
        existing,
        m_old,
        extra,
        b,
    ) by {
        if b < count {
            assert(blocks[b] == prev[b]);
            assert(appended_block_ok(prev, existing, m_old, extra, b));
        }
    }
}

/// The rows of `extra` stacked under the stored matrix whose parts are
/// `existing` (the contents of the parts to write): every block is rebuilt
/// with the new rows under the stored ones. `stored_shape` is the shape held
/// by the first stored part.
pub fn append_parts<T: Copy>(
    existing: &Vec<Vec<T>>,
    stored_shape: [usize; 2],
    extra: &ColMatrix<T>,
) -> (res: Result<Option<AppendedParts<T>>, AppendError<T>>)
    requires
        extra@.wf(),
        append_checks_pass(existing@.len(), stored_shape, extra@.cols) ==> stored_rows(
            existing@.len(),
            stored_shape,
        ) + extra@.rows <= usize::MAX && (stored_rows(existing@.len(), stored_shape)
            + extra@.rows) * extra@.cols <= usize::MAX,
    ensures
        extra@.rows == 0 ==> res matches Ok(None),
        extra@.rows > 0 && existing@.len() > 0 && existing@.len() != nblocks_spec(extra@.cols)
            ==> (res matches Err(AppendError::PartCount { found, expected }) && found
            == existing@.len() && expected == nblocks_spec(extra@.cols)),
        extra@.rows > 0 && existing@.len() > 0 && existing@.len() == nblocks_spec(extra@.cols)
            && stored_shape[1] != extra@.cols ==> (res matches Err(
            AppendError::ColumnMismatch { stored, incoming },
        ) && stored == stored_shape[1] && incoming == extra@.cols),
        extra@.rows > 0 && append_checks_pass(existing@.len(), stored_shape, extra@.cols) ==> {
            ||| (res is Ok && res->Ok_0 is Some && appended_ok(
                res->Ok_0->Some_0,
                existing@,
                stored_rows(existing@.len(), stored_shape),
                extra@,
            ))
            ||| (res is Err && res->Err_0 is Length && append_failed(
                res->Err_0->mismatch,
                res->Err_0->written@,
                existing@,
                stored_rows(existing@.len(), stored_shape),
                extra@,
            ))
        },
{
    let shape = extra.shape();
    let m_add = shape[0];
    let ncols = shape[1];
    if m_add == 0 {
        return Ok(None);
    }
    let nparts = existing.len();
    let expected_parts = nblocks(ncols);
    let mut m_old: usize = 0;
    if nparts > 0 {
        if nparts != expected_parts {
            return Err(AppendError::PartCount { found: nparts, expected: expected_parts });
        }
        if stored_shape[1] != ncols {
            return Err(AppendError::ColumnMismatch { stored: stored_shape[1], incoming: ncols });
        }
        m_old = stored_shape[0];
    }
    let total = m_old + m_add;
    let mut blocks: Vec<Vec<T>> = Vec::new();
    let mut b: usize = 0;
    while b < expected_parts
        invariant
            extra@.wf(),
            m_add == extra@.rows,
            ncols == extra@.cols,
            m_add > 0,
            expected_parts == nblocks_spec(ncols as nat),
            nparts == existing@.len(),
            nparts > 0 ==> nparts == expected_parts,
            nparts > 0 ==> stored_shape[1] == ncols,
            m_old == stored_rows(nparts as nat, stored_shape),
            total == m_old + m_add,
            total * ncols <= usize::MAX,
            0 <= b <= expected_parts,
            blocks@.len() == b,
            appended_blocks(blocks@, b as int, existing@, m_old as nat, extra@),
        decreases expected_parts - b,
    {
        proof {
            lemma_block_start(ncols as nat, b as nat);
            assert(m_add * block_width_spec(ncols as nat, b as nat) <= total * ncols)
                by (nonlinear_arith)
                requires
                    m_add <= total,
                    block_width_spec(ncols as nat, b as nat) <= ncols,
            ;
            assert(total * block_width_spec(ncols as nat, b as nat) <= total * ncols)
                by (nonlinear_arith)
                requires
                    block_width_spec(ncols as nat, b as nat) <= ncols,
            ;
        }
        let wk = block_width(ncols, b);
        let col0 = b * BLOCK_COLS;
        let extra_block = gather_block_column_major(extra, col0, wk);
        let merged = if m_old == 0 {
            proof {
                assert forall|i: int, j: int|
                    0 <= i < total && 0 <= j < wk implies #[trigger] as_matrix(
                    extra_block@,
                    total as nat,
                    wk as nat,
                ).at(i, j) == extra@.at(i - m_old, b * BLOCK_COLS + j) by {
                    assert(as_matrix(extra_block@, extra@.rows, wk as nat).at(i, j) == extra@.at(
                        i,
                        col0 + j,
                    ));
                }
            }
            extra_block
        } else {
            let old_block = &existing[b];
            proof {
                assert(m_old * wk <= total * ncols) by (nonlinear_arith)
                    requires
                        m_old <= total,
                        wk <= ncols,
                ;
            }
            let expected_len = m_old * wk;
            if old_block.len() != expected_len {
                proof {
                    assert(vec_views(existing@)[b as int] == old_block@);
                }
                return Err(
                    AppendError::Length {
                        mismatch: LengthMismatch {
                            part: b,
                            got: old_block.len(),
                            expected: expected_len,
                        },
                        written: blocks,
                    },
                );
            }
            let merged = append_rows_column_major(
                old_block.as_slice(),
                extra_block.as_slice(),
                m_old,
                m_add,
                wk,
            );
            proof {
                assert(vec_views(existing@)[b as int] == old_block@);
                assert forall|i: int, j: int|
                    0 <= i < total && 0 <= j < wk implies #[trigger] as_matrix(
                    merged@,
                    total as nat,
                    wk as nat,
                ).at(i, j) == if i < m_old {
                    as_matrix(old_block@, m_old as nat, wk as nat).at(i, j)
                } else {
                    extra@.at(i - m_old, b * BLOCK_COLS + j)
                } by {
                    if i >= m_old {
                        assert(as_matrix(extra_block@, m_add as nat, wk as nat).at(i - m_old, j)
                            == extra@.at(i - m_old, col0 + j));
                    }
                }
            }
            merged
        };
        proof {
            assert(wk == block_width_spec(ncols as nat, b as nat));
            assert(merged@.len() == total * wk);
            assert(is_appended_block(
                merged@,
                stored_block(existing@, m_old as nat, b as int),
                extra@,
                m_old as nat,
                ncols as nat,
                b as nat,
            ));
        }
        let ghost prev_blocks = blocks@;
        blocks.push(merged);
        proof {
            assert(blocks@[b as int] == merged);
            if m_old > 0 {
                assert(vec_views(existing@)[b as int] == existing@[b as int]@);
                assert(block_len_ok(vec_views(existing@), m_old as nat, ncols as nat, b as int));
            }
            lemma_appended_blocks_push(
                prev_blocks,
                blocks@,
                b as int,
                existing@,
                m_old as nat,
                extra@,
            );
            assert(appended_blocks(blocks@, b + 1, existing@, m_old as nat, extra@));
        }
        b = b + 1;
    }
    let parts = AppendedParts { rows: total, cols: ncols, blocks };
    proof {
        assert(parts.blocks@ == blocks@);
        assert(appended_ok(parts, existing@, m_old as nat, extra@));
    }
    Ok(Some(parts))
}

/// Appending the rows of `a` to an empty store, then the rows of `b`, and
/// loading the store gives back, column-major, the rows of `a` followed by
/// the rows of `b`.
pub proof fn lemma_append_append_load<T>(
    a: MatrixView<T>,
    b: MatrixView<T>,
    first: AppendedParts<T>,
    second: AppendedParts<T>,
    out: Seq<T>,
    zero: T,
)
    requires
        a.cols == b.cols,
        appended_ok(first, Seq::empty(), 0, a),
        appended_ok(second, first.blocks@, a.rows, b),
        is_loaded(out, a.rows + b.rows, a.cols, vec_views(second.blocks@), zero),
    ensures
        out.len() == (a.rows + b.rows) * a.cols,
        forall|i: int, j: int|
            0 <= i < a.rows + b.rows && 0 <= j < a.cols ==> #[trigger] as_matrix(
                out,
                a.rows + b.rows,
                a.cols,
            ).at(i, j) == if i < a.rows {
                a.at(i, j)
            } else {
                b.at(i - a.rows, j)
            },
{
    let total = a.rows + b.rows;
    let ncols = a.cols;
    assert forall|i: int, j: int| 0 <= i < total && 0 <= j < ncols implies #[trigger] as_matrix(
        out,
        total,
        ncols,
    ).at(i, j) == if i < a.rows {
        a.at(i, j)
    } else {
        b.at(i - a.rows, j)
    } by {
        let blk = j / (BLOCK_COLS as int);
        let jj = j % (BLOCK_COLS as int);
        assert(j == blk * BLOCK_COLS + jj);
        assert(0 <= blk < nblocks_spec(ncols));
        lemma_block_start(ncols, blk as nat);
        let wk = block_width_spec(ncols, blk as nat);
        assert(jj < wk);
        assert(appended_block_ok(second.blocks@, first.blocks@, a.rows, b, blk));
        assert(appended_block_ok(first.blocks@, Seq::empty(), 0, a, blk));
        let block2 = second.blocks@[blk]@;
        let block1 = first.blocks@[blk]@;
        assert(vec_views(second.blocks@)[blk] == block2);
        assert(as_matrix(out, total, ncols).at(i, blk * BLOCK_COLS + jj) == as_matrix(
            block2,
            total,
            wk,
        ).at(i, jj));
        if i < a.rows {
            assert(as_matrix(block2, total, wk).at(i, jj) == as_matrix(block1, a.rows, wk).at(
                i,
                jj,
            ));
            assert(as_matrix(block1, 0 + a.rows, wk).at(i, jj) == a.at(i - 0, blk * BLOCK_COLS + jj));
        } else {
            assert(as_matrix(block2, total, wk).at(i, jj) == b.at(i - a.rows, blk * BLOCK_COLS + jj));
        }
    }
}

/// Decimal digits are digits, and read back as the number.
proof fn lemma_decimal_digits_value(n: nat)
    ensures
        forall|k: int| 0 <= k < decimal_digits(n).len() ==> is_digit(#[trigger] decimal_digits(n)[k]),
        digits_value(decimal_digits(n)) == n,
        n < 10 ==> decimal_digits(n).len() <= 1,
        n < 100 ==> decimal_digits(n).len() <= 2,
        n < 1000 ==> decimal_digits(n).len() <= 3,
        n < 10000 ==> decimal_digits(n).len() <= 4,
        n < 100000 ==> decimal_digits(n).len() <= 5,
    decreases n,
{
    lemma_decimal_digits_len(n);
    if n >= 10 {
        lemma_decimal_digits_value(n / 10);
        let d = decimal_digits(n);
        assert(d.drop_last() =~= decimal_digits(n / 10));
        assert(d.last() == (48 + n % 10) as u8);
        assert((d.last() - 48) as nat == n % 10);
        assert(n == (n / 10) * 10 + n % 10);
        assert(digits_value(d) == digits_value(decimal_digits(n / 10)) * 10 + (d.last() - 48) as nat);
        assert forall|k: int| 0 <= k < d.len() implies is_digit(#[trigger] d[k]) by {
            if k < d.len() - 1 {
                assert(d[k] == decimal_digits(n / 10)[k]);
            }
        }
    } else {
        let d = decimal_digits(n);
        assert(d.drop_last() =~= Seq::<u8>::empty());
        assert(digits_value(d) == digits_value(d.drop_last()) * 10 + (d.last() - 48) as nat);
    }
}

/// A run of zero digits reads as zero.
proof fn lemma_zeros_value(k: nat)
    ensures
        digits_value(Seq::new(k, |i: int| 48u8)) == 0,
    decreases k,
{
    if k > 0 {
        assert(Seq::new(k, |i: int| 48u8).drop_last() =~= Seq::new((k - 1) as nat, |i: int| 48u8));
        lemma_zeros_value((k - 1) as nat);
    }
}

/// Leading zeros do not change the value of a digit string.
proof fn lemma_leading_zeros_value(k: nat, d: Seq<u8>)
    ensures
        digits_value(Seq::new(k, |i: int| 48u8) + d) == digits_value(d),
    decreases d.len(),
{
    let z = Seq::new(k, |i: int| 48u8);
    if d.len() == 0 {
        assert(z + d =~= z);
        lemma_zeros_value(k);
    } else {
        assert((z + d).drop_last() =~= z + d.drop_last());
        assert((z + d).last() == d.last());
        lemma_leading_zeros_value(k, d.drop_last());
    }
}

/// A part file named by the writer is found by the reader under its part
/// index: the name `part_file_name_spec(base, b)` has part index `b` for the
/// stem `canonical_base_spec(base)`, for every index with at most five digits.
pub proof fn lemma_part_name_roundtrip(base: Seq<u8>, b: nat)
    requires
        b < 100000,
    ensures
        !overlapping_part_name(part_file_name_spec(base, b), canonical_base_spec(base)),
        part_index_spec(part_file_name_spec(base, b), canonical_base_spec(base)) == Some(b),
{
    let stem = canonical_base_spec(base);
    let digits = padded_decimal(b, 5);
    let name = part_file_name_spec(base, b);
    lemma_decimal_digits_value(b);
    lemma_decimal_digits_len(b);
    let d = decimal_digits(b);
    if d.len() < 5 {
        lemma_leading_zeros_value((5 - d.len()) as nat, d);
        assert forall|k: int| 0 <= k < 5 implies is_digit(#[trigger] digits[k]) by {
            if k >= 5 - d.len() {
                assert(digits[k] == d[k - (5 - d.len())]);
            }
        }
    }
    assert(digits.len() == 5);
    let prefix = stem.push(46u8);
    assert(name =~= prefix + digits + seq![46u8, 104u8, 53u8]);
    assert(name.take(prefix.len() as int) =~= prefix);
    assert(name.subrange(prefix.len() as int, name.len() - 3) =~= digits);
}

} // verus!
