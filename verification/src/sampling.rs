//! Bookkeeping of the random samples: seeds of sample rows, chunks in which
//! samples are streamed, and the layout of the sample store.
use vstd::prelude::*;
use crate::factors::{chunk_ranges, chunk_ranges_spec, FactorType, TransMode, transposes};

verus! {

/// The SplitMix64 finaliser applied to `seed` (`mix_seed`).
pub open spec fn mix_seed_spec(seed: u64) -> u64 {
    let a = seed.wrapping_add(0x9E3779B97F4A7C15);
    let b = (a ^ (a >> 30u64)).wrapping_mul(0xBF58476D1CE4E5B9);
    let c = (b ^ (b >> 27u64)).wrapping_mul(0x94D049BB133111EB);
    c ^ (c >> 31u64)
}

/// Mixes the bits of `seed` (`mix_seed`).
pub fn mix_seed(seed: u64) -> (mixed: u64)
    ensures
        mixed == mix_seed_spec(seed),
{
    let mut seed = seed.wrapping_add(0x9E3779B97F4A7C15);
    seed = (seed ^ (seed >> 30u64)).wrapping_mul(0xBF58476D1CE4E5B9);
    seed = (seed ^ (seed >> 27u64)).wrapping_mul(0x94D049BB133111EB);
    seed ^ (seed >> 31u64)
}

/// `x` with its bits rotated left by 21 places.
pub open spec fn rotate_left_21(x: u64) -> u64 {
    (x << 21u64) | (x >> 43u64)
}

/// The seed of sample row `offset` of a sketch of dimension `dim`: the run
/// seed mixed with the row, the dimension and the orientation.
pub open spec fn row_seed_spec(seed: u64, offset: u64, dim: u64, trans: bool) -> u64 {
    mix_seed_spec(
        seed ^ offset.wrapping_mul(0x9E3779B97F4A7C15) ^ rotate_left_21(dim) ^ (if trans {
            1u64
        } else {
            0u64
        }),
    )
}

/// The seed of sample row `offset`.
pub fn row_seed(seed: u64, offset: usize, dim: usize, trans: bool) -> (s: u64)
    ensures
        s == row_seed_spec(seed, offset as u64, dim as u64, trans),
{
    let d = dim as u64;
    let flag: u64 = if trans {
        1
    } else {
        0
    };
    mix_seed(seed ^ (offset as u64).wrapping_mul(0x9E3779B97F4A7C15) ^ ((d << 21u64) | (d >> 43u64)) ^ flag)
}

/// Rows of a chunk streamed through memory at once: none for no rows, all of them when a row takes no bytes, else as many
/// rows as fit in 2 MiB, between 1 and `max_rows` (the bytes of a row
/// saturating).
pub open spec fn streaming_chunk_rows_spec(max_rows: nat, cols_per_row: nat, live_buffers: nat, item_size: nat) -> nat {
    let sat = |x: nat| if x > usize::MAX { usize::MAX as nat } else { x };
    let bytes_per_row = sat(sat(cols_per_row * live_buffers) * item_size);
    if max_rows == 0 {
        0
    } else if bytes_per_row == 0 {
        max_rows
    } else {
        let fit = 2097152nat / bytes_per_row;
        if fit < 1 {
            1
        } else if fit > max_rows {
            max_rows
        } else {
            fit
        }
    }
}

/// `a * b`, saturating at `usize::MAX`.
fn saturating_mul_usize(a: usize, b: usize) -> (p: usize)
    ensures
        p == (if a * b > usize::MAX { usize::MAX as int } else { a * b }),
{
    match a.checked_mul(b) {
        Some(v) => v,
        None => usize::MAX,
    }
}

/// Rows of a chunk streamed through memory at once, for entries of
/// `item_size` bytes.
pub fn streaming_chunk_rows(max_rows: usize, cols_per_row: usize, live_buffers: usize, item_size: usize) -> (rows: usize)
    ensures
        rows == streaming_chunk_rows_spec(max_rows as nat, cols_per_row as nat, live_buffers as nat, item_size as nat),
{
    if max_rows == 0 {
        return 0;
    }
    let bytes_per_row = saturating_mul_usize(saturating_mul_usize(cols_per_row, live_buffers), item_size);
    if bytes_per_row == 0 {
        return max_rows;
    }
    let fit: usize = 2097152 / bytes_per_row;
    if fit < 1 {
        1
    } else if fit > max_rows {
        max_rows
    } else {
        fit
    }
}

/// Rows of the sketch that the null space of a box can use
/// (`usable_nullspace_rows`): the samples beyond the near field, if any.
pub fn usable_nullspace_rows(subs_sample_dim: usize, near_field_len: usize) -> (rows: usize)
    ensures
        rows == (if subs_sample_dim >= near_field_len { subs_sample_dim - near_field_len } else { 0 }),
{
    subs_sample_dim.saturating_sub(near_field_len)
}

/// The shape of a sample store: the dimension of the operator, how many
/// samples it holds, the rows of its test and sketch arrays, and whether it
/// samples the transposed operator.
pub struct SketchData {
    pub dim: usize,
    pub num_samples: usize,
    pub test_rows: usize,
    pub sketch_rows: usize,
    pub trans: TransMode,
}

/// A chunk of sample rows: the first row and how many.
#[derive(Debug, Clone, Copy, PartialEq, Eq)]
pub struct SampleChunk {
    pub row_offset: usize,
    pub rows: usize,
}

/// Rows of the sample store streamed by `chunk_iter`: the first
/// `subs_sample_dim`, cut at those the arrays hold.
pub open spec fn streamed_rows(d: SketchData, subs_sample_dim: usize) -> nat {
    if subs_sample_dim <= d.test_rows && subs_sample_dim <= d.sketch_rows {
        subs_sample_dim as nat
    } else if d.test_rows <= d.sketch_rows {
        d.test_rows as nat
    } else {
        d.sketch_rows as nat
    }
}

/// Rows per chunk of `chunk_iter`: at least one.
pub open spec fn chunk_step(d: SketchData, subs_sample_dim: usize, cols_per_row: usize, live_buffers: usize, item_size: usize) -> nat {
    let step = streaming_chunk_rows_spec(streamed_rows(d, subs_sample_dim), cols_per_row as nat, live_buffers as nat, item_size as nat);
    if step < 1 { 1nat } else { step }
}

/// The chunks that `chunk_iter` streams: chunk `k` starts at row
/// `k * step` and holds the rows up to the next chunk or to the last
/// streamed row.
pub open spec fn sample_chunks_spec(
    d: SketchData,
    subs_sample_dim: usize,
    cols_per_row: usize,
    live_buffers: usize,
    item_size: usize,
) -> Seq<SampleChunk> {
    let ranges = chunk_ranges_spec(
        streamed_rows(d, subs_sample_dim),
        chunk_step(d, subs_sample_dim, cols_per_row, live_buffers, item_size),
    );
    Seq::new(ranges.len(), |k: int| SampleChunk { row_offset: ranges[k].0, rows: (ranges[k].1 - ranges[k].0) as usize })
}

/// The seeds of `extra` new rows of the store `d`, in order: the seed of
/// each row depends on the run seed, the row's number, the dimension and
/// the orientation, and on nothing else.
pub open spec fn new_row_seeds(d: SketchData, extra: nat, seed: u64) -> Seq<u64> {
    Seq::new(extra, |r: int| row_seed_spec(seed, (d.test_rows + r) as u64, d.dim as u64, transposes(d.trans)))
}

/// The streamed chunks cover the streamed rows once, in order: the first
/// starts at row 0, each starts where the one before ends, the last ends at
/// the last streamed row, each holds between one and `chunk_step` rows, and
/// there are none when no row is streamed.
pub proof fn lemma_sample_chunks_cover(
    d: SketchData,
    subs_sample_dim: usize,
    cols_per_row: usize,
    live_buffers: usize,
    item_size: usize,
)
    ensures
        ({
            let c = sample_chunks_spec(d, subs_sample_dim, cols_per_row, live_buffers, item_size);
            let limit = streamed_rows(d, subs_sample_dim);
            let step = chunk_step(d, subs_sample_dim, cols_per_row, live_buffers, item_size);
            &&& limit > 0 ==> c.len() > 0 && c[0].row_offset == 0 && c[c.len() - 1].row_offset
                + c[c.len() - 1].rows == limit
            &&& limit == 0 ==> c.len() == 0
            &&& forall|k: int| 0 <= k < c.len() - 1 ==> #[trigger] c[k].row_offset + c[k].rows == c[k + 1].row_offset
            &&& forall|k: int| 0 <= k < c.len() ==> 1 <= #[trigger] c[k].rows <= step
        }),
{
    let limit = streamed_rows(d, subs_sample_dim);
    let step = chunk_step(d, subs_sample_dim, cols_per_row, live_buffers, item_size);
    crate::factors::lemma_chunks_cover(limit, step);
    let r = chunk_ranges_spec(limit, step);
    let c = sample_chunks_spec(d, subs_sample_dim, cols_per_row, live_buffers, item_size);
    assert forall|k: int| 0 <= k < c.len() - 1 implies #[trigger] c[k].row_offset + c[k].rows == c[k + 1].row_offset by {
        assert(r[k].1 == r[k + 1].0);
        assert(r[k].0 < r[k].1);
    }
    assert forall|k: int| 0 <= k < c.len() implies 1 <= #[trigger] c[k].rows <= step by {
        assert(r[k].0 < r[k].1 <= r[k].0 + step);
    }
    if limit > 0 {
        assert(r[r.len() - 1].0 < r[r.len() - 1].1);
    }
}

/// Two stores of the same dimension, orientation and number of rows give
/// their new rows the same seeds, whatever else they hold.
pub proof fn lemma_new_row_seeds_depend_on_shape(d1: SketchData, d2: SketchData, extra: nat, seed: u64)
    requires
        d1.dim == d2.dim,
        transposes(d1.trans) == transposes(d2.trans),
        d1.test_rows == d2.test_rows,
    ensures
        new_row_seeds(d1, extra, seed) == new_row_seeds(d2, extra, seed),
{
    assert(new_row_seeds(d1, extra, seed) =~= new_row_seeds(d2, extra, seed));
}

impl SketchData {
    /// An empty store.
    pub fn new(dim: usize, trans: TransMode) -> (d: Self)
        ensures
            d.dim == dim,
            d.trans == trans,
            d.num_samples == 0,
            d.test_rows == 0,
            d.sketch_rows == 0,
    {
        SketchData { dim, num_samples: 0, test_rows: 0, sketch_rows: 0, trans }
    }

    /// Whether the store samples the transposed operator.
    pub fn trans_val(&self) -> (t: bool)
        ensures
            t == transposes(self.trans),
    {
        match self.trans {
            TransMode::NoTrans => false,
            TransMode::ConjNoTrans => false,
            TransMode::Trans => true,
            TransMode::ConjTrans => true,
        }
    }

    /// The chunks in which the first `subs_sample_dim` sample rows are
    /// streamed: the rows are cut at those the arrays hold,
    /// and taken `max(streaming_chunk_rows, 1)` at a time.
    pub fn chunk_iter(&self, subs_sample_dim: usize, cols_per_row: usize, live_buffers: usize, item_size: usize) -> (chunks: Vec<SampleChunk>)
        ensures
            chunks@ == sample_chunks_spec(*self, subs_sample_dim, cols_per_row, live_buffers, item_size),
    {
        let mut limit = subs_sample_dim;
        if self.test_rows < limit {
            limit = self.test_rows;
        }
        if self.sketch_rows < limit {
            limit = self.sketch_rows;
        }
        let step = streaming_chunk_rows(limit, cols_per_row, live_buffers, item_size);
        let size = if step < 1 {
            1
        } else {
            step
        };
        let ranges = chunk_ranges(limit, size);
        proof {
            crate::factors::lemma_chunks_cover(limit as nat, size as nat);
        }
        let n = ranges.len();
        let mut chunks: Vec<SampleChunk> = Vec::new();
        let mut k: usize = 0;
        while k < n
            invariant
                n == ranges@.len(),
                forall|q: int| 0 <= q < n ==> ranges@[q].0 < #[trigger] ranges@[q].1,
                0 <= k <= n,
                chunks@.len() == k,
                forall|q: int| 0 <= q < k ==> (#[trigger] chunks@[q]).row_offset == ranges@[q].0
                    && chunks@[q].rows == ranges@[q].1 - ranges@[q].0,
            decreases n - k,
        {
            let (start, end) = ranges[k];
            chunks.push(SampleChunk { row_offset: start, rows: end - start });
            k = k + 1;
        }
        proof {
            assert(chunks@ =~= sample_chunks_spec(*self, subs_sample_dim, cols_per_row, live_buffers, item_size));
        }
        chunks
    }

    /// Grows the store by `extra_num_samples` rows and gives the seeds of
    /// the new rows, in order.
    pub fn add_samples(&mut self, extra_num_samples: usize, seed: u64) -> (seeds: Vec<u64>)
        requires
            old(self).test_rows + extra_num_samples <= usize::MAX,
        ensures
            final(self).test_rows == old(self).test_rows + extra_num_samples,
            final(self).sketch_rows == old(self).test_rows + extra_num_samples,
            final(self).num_samples == old(self).test_rows + extra_num_samples,
            final(self).dim == old(self).dim,
            final(self).trans == old(self).trans,
            seeds@ == new_row_seeds(*old(self), extra_num_samples as nat, seed),
    {
        let first = self.test_rows;
        let trans = self.trans_val();
        let mut seeds: Vec<u64> = Vec::new();
        let mut r: usize = 0;
        while r < extra_num_samples
            invariant
                first + extra_num_samples <= usize::MAX,
                trans == transposes(self.trans),
                0 <= r <= extra_num_samples,
                seeds@.len() == r,
                forall|q: int| 0 <= q < r ==> #[trigger] seeds@[q] == row_seed_spec(
                    seed,
                    (first + q) as u64,
                    self.dim as u64,
                    trans,
                ),
            decreases extra_num_samples - r,
        {
            seeds.push(row_seed(seed, first + r, self.dim, trans));
            r = r + 1;
        }
        proof {
            assert(seeds@ =~= new_row_seeds(*self, extra_num_samples as nat, seed));
        }
        let total = first + extra_num_samples;
        self.test_rows = total;
        self.sketch_rows = total;
        self.num_samples = total;
        seeds
    }

    /// The two halves of the elimination in the order the samples are
    /// updated: `F` first, or `S` first for samples of
    /// the transposed operator.
    pub fn update_factor_order(&self) -> (order: (FactorType, FactorType))
        ensures
            order == (if transposes(self.trans) {
                (FactorType::S, FactorType::F)
            } else {
                (FactorType::F, FactorType::S)
            }),
    {
        if self.trans_val() {
            (FactorType::S, FactorType::F)
        } else {
            (FactorType::F, FactorType::S)
        }
    }
}

/// What the sampling step of a level does with the samples: how many rows
/// to draw and add to the stores, and which active samples to bring up to
/// date with the factors found so far (first sample and count).
#[derive(Debug, Clone, Copy, PartialEq, Eq)]
pub struct SampleUpdate {
    pub extra_samples: Option<usize>,
    pub refresh: Option<(usize, usize)>,
}

/// The sampling step for `min_samples` wanted samples when the stores hold
/// `stored_rows` rows and `active_samples` of them are active: the missing
/// rows are drawn; unless this is the first level, samples beyond the
/// active ones are brought up to date, from the first inactive one on.
pub fn sample_update(min_samples: usize, stored_rows: usize, active_samples: usize, start: bool) -> (u: SampleUpdate)
    ensures
        u.extra_samples == if min_samples > stored_rows {
            Some((min_samples - stored_rows) as usize)
        } else {
            None::<usize>
        },
        u.refresh == if !start && min_samples > active_samples {
            Some((active_samples, (min_samples - active_samples) as usize))
        } else {
            None::<(usize, usize)>
        },
{
    let extra_samples = if min_samples > stored_rows {
        Some(min_samples - stored_rows)
    } else {
        None
    };
    let refresh = if !start && min_samples > active_samples {
        Some((active_samples, min_samples - active_samples))
    } else {
        None
    };
    SampleUpdate { extra_samples, refresh }
}

/// Time per updated sample: the ID and LU update times together over the
/// number of samples updated; none when no sample was updated.
pub fn average_update_time(id_time: u128, lu_time: u128, samples: usize) -> (avg: Option<u128>)
    requires
        id_time + lu_time <= u128::MAX,
    ensures
        avg == if samples == 0 {
            None::<u128>
        } else {
            Some(((id_time + lu_time) / (samples as int)) as u128)
        },
{
    if samples == 0 {
        None
    } else {
        Some((id_time + lu_time) / (samples as u128))
    }
}

/// Samples active after the sampling step of a level: those the level
/// asked for, or the ones active before when there are more.
pub fn next_active_samples(min_oversamples: usize, active_samples: usize) -> (n: usize)
    ensures
        n == if min_oversamples >= active_samples {
            min_oversamples
        } else {
            active_samples
        },
{
    if min_oversamples >= active_samples {
        min_oversamples
    } else {
        active_samples
    }
}

} // verus!
