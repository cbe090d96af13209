use rsrs::statistics::{IdTimes, LimitingFactors, LimitingLevel, LuTimes, Stats, UpdateTimes};

#[test]
fn times_accumulate() {
    let mut lu = LuTimes::new();
    lu.sum(3, 4);
    lu.sum(1, 1);
    assert_eq!((lu.extraction, lu.lu), (4, 5));
    let mut id = IdTimes::new();
    id.sum(7, 0);
    assert_eq!((id.nullification, id.id), (7, 0));
    let mut up = UpdateTimes::new();
    up.sum(2, 9);
    assert_eq!((up.id, up.lu), (2, 9));
}

#[test]
fn limiting_level_keeps_the_busiest() {
    let mut l = LimitingLevel { level: 0, num_boxes: 0, active_points: 0, elapsed_time: 5 };
    l.record(3, 100, 8);
    assert_eq!((l.level, l.active_points, l.num_boxes, l.elapsed_time), (3, 100, 8, 5));
    l.record(2, 50, 4);
    assert_eq!((l.level, l.active_points, l.num_boxes), (3, 100, 8));
    l.record(2, 100, 4);
    assert_eq!(l.level, 3);
}

fn empty_stats() -> Stats {
    Stats {
        sampling_time: vec![],
        sampling_extraction_time: 0,
        id_times: vec![],
        tot_id_time: 5,
        lu_times: vec![],
        tot_lu_time: 7,
        update_times: vec![],
        total_elapsed_time: 0,
        total_elapsed_time_wo_sampling: 0,
        dim: 10,
        extraction_time: 0,
        residual_size: 0,
        ranks: vec![],
        box_sizes: vec![],
        near_field_sizes: vec![],
        dec_boxes_per_level: vec![],
        index_calculation: 0,
        sorting_near_field: 0,
        residual_calculation: 0,
        limiting_factors: LimitingFactors {
            min_samples: 0,
            max_level: 0,
            limiting_level: LimitingLevel { level: 0, num_boxes: 0, active_points: 0, elapsed_time: 0 },
            leaf_count: 0,
        },
        level_effort: vec![],
        mv_avg_time: vec![],
        memory_snapshots: vec![],
        run_start_rss_bytes: None,
        max_sample_buffer_bytes: 0,
        max_factor_bytes: 0,
        max_accounted_factorization_bytes: 0,
        max_estimated_temporary_runtime_bytes: None,
    }
}

#[test]
fn stats_record_boxes_and_levels() {
    let mut stats = empty_stats();
    stats.record_box(3, 8, 20);
    stats.record_box(6, 6, 11);
    assert_eq!((stats.ranks.clone(), stats.box_sizes.clone()), (vec![3, 6], vec![8, 6]));
    assert_eq!(stats.near_field_sizes, vec![20, 11]);
    let mut id = IdTimes::new();
    id.sum(1, 2);
    stats.record_level(4, id, LuTimes::new(), UpdateTimes::new(), 100, 50);
    assert_eq!(stats.dec_boxes_per_level, vec![4]);
    assert_eq!((stats.id_times[0].nullification, stats.id_times[0].id), (1, 2));
    assert_eq!((stats.lu_times.len(), stats.update_times.len()), (1, 1));
    assert_eq!((stats.tot_id_time, stats.tot_lu_time), (105, 57));
    assert_eq!((stats.ranks.len(), stats.dim, stats.sampling_time.len()), (2, 10, 0));
}
