//! Timings, effort and memory figures gathered while a factorisation runs.
use vstd::prelude::*;

verus! {

/// Time spent extracting blocks and factorising them by LU, in one level.
#[derive(Debug, Clone)]
pub struct LuTimes {
    pub extraction: u128,
    pub lu: u128,
}

/// Work done in one level of the factorisation.
#[derive(Debug, Clone)]
pub struct LevelEffort {
    pub time: u128,
    pub num_boxes: usize,
    pub num_batches: usize,
    pub effective_dofs: usize,
    pub sketch_len: usize,
    pub residual_len: usize,
}

/// Time spent nullifying sketches and computing interpolative
/// decompositions, in one level.
#[derive(Debug, Clone)]
pub struct IdTimes {
    pub nullification: u128,
    pub id: u128,
}

/// Timings of one level, by kind of factorisation.
pub enum Times {
    Lu(LuTimes),
    Id(IdTimes),
}

/// Time spent updating samples after the ID and the LU steps of a level.
#[derive(Debug, Clone)]
pub struct UpdateTimes {
    pub id: u128,
    pub lu: u128,
}

impl IdTimes {
    /// No time spent yet.
    pub fn new() -> (t: Self)
        ensures
            t.nullification == 0,
            t.id == 0,
    {
        IdTimes { nullification: 0, id: 0 }
    }

    /// Adds the given times.
    pub fn sum(&mut self, nullification: u128, id: u128)
        requires
            old(self).nullification + nullification <= u128::MAX,
            old(self).id + id <= u128::MAX,
        ensures
            final(self).nullification == old(self).nullification + nullification,
            final(self).id == old(self).id + id,
    {
        self.nullification = self.nullification + nullification;
        self.id = self.id + id;
    }
}

impl LuTimes {
    /// No time spent yet.
    pub fn new() -> (t: Self)
        ensures
            t.extraction == 0,
            t.lu == 0,
    {
        LuTimes { extraction: 0, lu: 0 }
    }

    /// Adds the given times.
    pub fn sum(&mut self, extraction: u128, lu: u128)
        requires
            old(self).extraction + extraction <= u128::MAX,
            old(self).lu + lu <= u128::MAX,
        ensures
            final(self).extraction == old(self).extraction + extraction,
            final(self).lu == old(self).lu + lu,
    {
        self.extraction = self.extraction + extraction;
        self.lu = self.lu + lu;
    }
}

impl UpdateTimes {
    /// No time spent yet.
    pub fn new() -> (t: Self)
        ensures
            t.id == 0,
            t.lu == 0,
    {
        UpdateTimes { id: 0, lu: 0 }
    }

    /// Adds the given times.
    pub fn sum(&mut self, id: u128, lu: u128)
        requires
            old(self).id + id <= u128::MAX,
            old(self).lu + lu <= u128::MAX,
        ensures
            final(self).id == old(self).id + id,
            final(self).lu == old(self).lu + lu,
    {
        self.id = self.id + id;
        self.lu = self.lu + lu;
    }
}

/// The level that took longest.
#[derive(Debug)]
pub struct LimitingLevel {
    pub level: usize,
    pub num_boxes: usize,
    pub active_points: usize,
    pub elapsed_time: u128,
}

impl LimitingLevel {
    /// Keeps `level` as the limiting level when it has more active indices
    /// than the limiting level so far.
    pub fn record(&mut self, level: usize, active_points: usize, num_boxes: usize)
        ensures
            old(self).active_points < active_points ==> final(self).level == level
                && final(self).active_points == active_points && final(self).num_boxes == num_boxes
                && final(self).elapsed_time == old(self).elapsed_time,
            old(self).active_points >= active_points ==> *final(self) == *old(self),
    {
        if self.active_points < active_points {
            self.level = level;
            self.active_points = active_points;
            self.num_boxes = num_boxes;
        }
    }
}

/// What bounded the factorisation.
#[derive(Debug)]
pub struct LimitingFactors {
    pub min_samples: usize,
    pub max_level: usize,
    pub limiting_level: LimitingLevel,
    pub leaf_count: usize,
}

/// Bytes and counts of the stored factors.
#[derive(Debug, Clone, Default)]
pub struct FactorMemoryStats {
    pub total_bytes: u64,
    pub id_bytes: u64,
    pub lu_bytes: u64,
    pub diag_bytes: u64,
    pub perm_bytes: u64,
    pub id_count: usize,
    pub lu_count: usize,
    pub diag_count: usize,
}

/// Memory use at a labelled point of the run.
#[derive(Debug, Clone, Default)]
pub struct MemorySnapshot {
    pub label: String,
    pub rss_bytes: Option<u64>,
    pub peak_rss_bytes: Option<u64>,
    pub baseline_rss_bytes: Option<u64>,
    pub sample_buffer_bytes: u64,
    pub factor_memory: FactorMemoryStats,
    pub accounted_factorization_bytes: u64,
    pub estimated_temporary_runtime_bytes: Option<u64>,
}

/// Everything measured during one factorisation.
#[derive(Debug)]
pub struct Stats {
    pub sampling_time: Vec<u128>,
    pub sampling_extraction_time: u128,
    pub id_times: Vec<IdTimes>,
    pub tot_id_time: u128,
    pub lu_times: Vec<LuTimes>,
    pub tot_lu_time: u128,
    pub update_times: Vec<UpdateTimes>,
    pub total_elapsed_time: u128,
    pub total_elapsed_time_wo_sampling: u128,
    pub dim: usize,
    pub extraction_time: u128,
    pub residual_size: usize,
    pub ranks: Vec<usize>,
    pub box_sizes: Vec<usize>,
    pub near_field_sizes: Vec<usize>,
    pub dec_boxes_per_level: Vec<usize>,
    pub index_calculation: u128,
    pub sorting_near_field: u128,
    pub residual_calculation: u128,
    pub limiting_factors: LimitingFactors,
    pub level_effort: Vec<LevelEffort>,
    pub mv_avg_time: Vec<u128>,
    pub memory_snapshots: Vec<MemorySnapshot>,
    pub run_start_rss_bytes: Option<u64>,
    pub max_sample_buffer_bytes: u64,
    pub max_factor_bytes: u64,
    pub max_accounted_factorization_bytes: u64,
    pub max_estimated_temporary_runtime_bytes: Option<u64>,
}

/// The per-level series hold one entry for each level recorded: as many
/// compressed-box counts as ID, LU and update times.
pub open spec fn level_series_aligned(s: Stats) -> bool {
    &&& s.id_times@.len() == s.dec_boxes_per_level@.len()
    &&& s.lu_times@.len() == s.dec_boxes_per_level@.len()
    &&& s.update_times@.len() == s.dec_boxes_per_level@.len()
}

impl Stats {
    /// Records a box after its ID: its rank (its size when it stays at full
    /// rank), its size and the size of its near field.
    pub fn record_box(&mut self, rank: usize, box_size: usize, near_field_size: usize)
        ensures
            final(self).ranks@ == old(self).ranks@.push(rank),
            final(self).box_sizes@ == old(self).box_sizes@.push(box_size),
            final(self).near_field_sizes@ == old(self).near_field_sizes@.push(near_field_size),
            *final(self) == (Stats {
                ranks: final(self).ranks,
                box_sizes: final(self).box_sizes,
                near_field_sizes: final(self).near_field_sizes,
                ..*old(self)
            }),
    {
        self.ranks.push(rank);
        self.box_sizes.push(box_size);
        self.near_field_sizes.push(near_field_size);
    }

    /// Records a level once its ID and LU steps are done: the boxes it
    /// compressed, its ID, LU and update times, and the durations of its two
    /// steps added to the totals.
    pub fn record_level(
        &mut self,
        dec_boxes: usize,
        id_times: IdTimes,
        lu_times: LuTimes,
        update_times: UpdateTimes,
        id_duration: u128,
        lu_duration: u128,
    )
        requires
            old(self).tot_id_time + id_duration <= u128::MAX,
            old(self).tot_lu_time + lu_duration <= u128::MAX,
        ensures
            final(self).dec_boxes_per_level@ == old(self).dec_boxes_per_level@.push(dec_boxes),
            final(self).id_times@ == old(self).id_times@.push(id_times),
            final(self).lu_times@ == old(self).lu_times@.push(lu_times),
            final(self).update_times@ == old(self).update_times@.push(update_times),
            final(self).tot_id_time == old(self).tot_id_time + id_duration,
            final(self).tot_lu_time == old(self).tot_lu_time + lu_duration,
            *final(self) == (Stats {
                dec_boxes_per_level: final(self).dec_boxes_per_level,
                id_times: final(self).id_times,
                lu_times: final(self).lu_times,
                update_times: final(self).update_times,
                tot_id_time: final(self).tot_id_time,
                tot_lu_time: final(self).tot_lu_time,
                ..*old(self)
            }),
            level_series_aligned(*old(self)) ==> level_series_aligned(*final(self))
                && final(self).dec_boxes_per_level@.len() == old(self).dec_boxes_per_level@.len() + 1,
    {
        self.dec_boxes_per_level.push(dec_boxes);
        self.id_times.push(id_times);
        self.lu_times.push(lu_times);
        self.update_times.push(update_times);
        self.tot_id_time = self.tot_id_time + id_duration;
        self.tot_lu_time = self.tot_lu_time + lu_duration;
    }
}

} // verus!
