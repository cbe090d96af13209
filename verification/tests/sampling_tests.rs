use rsrs::factors::{FactorType, TransMode};
use rsrs::sampling::{average_update_time, next_active_samples, sample_update, SampleUpdate};
use rsrs::sampling::{
    mix_seed, row_seed, streaming_chunk_rows, usable_nullspace_rows, SampleChunk, SketchData,
};

fn reference_mix(mut seed: u64) -> u64 {
    seed = seed.wrapping_add(0x9E3779B97F4A7C15);
    seed = (seed ^ (seed >> 30)).wrapping_mul(0xBF58476D1CE4E5B9);
    seed = (seed ^ (seed >> 27)).wrapping_mul(0x94D049BB133111EB);
    seed ^ (seed >> 31)
}

#[test]
fn seeds_mix() {
    assert_eq!(mix_seed(0), 0xE220A8397B1DCDAF);
    for s in [1u64, 42, u64::MAX, 0x1234_5678_9abc_def0] {
        assert_eq!(mix_seed(s), reference_mix(s));
    }
    let expected = reference_mix(7 ^ 3u64.wrapping_mul(0x9E3779B97F4A7C15) ^ 100u64.rotate_left(21) ^ 1);
    assert_eq!(row_seed(7, 3, 100, true), expected);
    assert_ne!(row_seed(7, 3, 100, true), row_seed(7, 3, 100, false));
}

#[test]
fn streaming_rows() {
    assert_eq!(streaming_chunk_rows(0, 10, 2, 8), 0);
    assert_eq!(streaming_chunk_rows(50, 0, 2, 8), 50);
    assert_eq!(streaming_chunk_rows(1_000_000, 1024, 2, 8), 128);
    assert_eq!(streaming_chunk_rows(100, 1024, 2, 8), 100);
    assert_eq!(streaming_chunk_rows(100, usize::MAX, 2, 8), 1);
    assert_eq!(usable_nullspace_rows(10, 4), 6);
    assert_eq!(usable_nullspace_rows(3, 4), 0);
}

#[test]
fn sample_store_bookkeeping() {
    let mut d = SketchData::new(100, TransMode::Trans);
    assert!(d.trans_val());
    assert_eq!(d.update_factor_order(), (FactorType::S, FactorType::F));
    let seeds = d.add_samples(3, 9);
    assert_eq!((d.test_rows, d.sketch_rows, d.num_samples), (3, 3, 3));
    assert_eq!(seeds, vec![row_seed(9, 0, 100, true), row_seed(9, 1, 100, true), row_seed(9, 2, 100, true)]);
    let more = d.add_samples(2, 9);
    assert_eq!(more, vec![row_seed(9, 3, 100, true), row_seed(9, 4, 100, true)]);
    assert_eq!(d.num_samples, 5);
    let y = SketchData::new(10, TransMode::NoTrans);
    assert_eq!(y.update_factor_order(), (FactorType::F, FactorType::S));
}

#[test]
fn sample_chunks() {
    let mut d = SketchData::new(4, TransMode::NoTrans);
    d.add_samples(600, 1);
    // 2 MiB over 2048 * 2 * 8 bytes per row gives 64 rows per chunk.
    let chunks = d.chunk_iter(200, 2048, 2, 8);
    assert_eq!(chunks.len(), 4);
    assert_eq!(chunks[0], SampleChunk { row_offset: 0, rows: 64 });
    assert_eq!(chunks[3], SampleChunk { row_offset: 192, rows: 8 });
    let capped = d.chunk_iter(10_000, 0, 2, 8);
    assert_eq!(capped, vec![SampleChunk { row_offset: 0, rows: 600 }]);
    assert!(d.chunk_iter(0, 1, 1, 8).is_empty());
}

#[test]
fn sampling_step_choices() {
    assert_eq!(
        sample_update(100, 40, 30, false),
        SampleUpdate { extra_samples: Some(60), refresh: Some((30, 70)) }
    );
    assert_eq!(sample_update(100, 40, 30, true), SampleUpdate { extra_samples: Some(60), refresh: None });
    assert_eq!(sample_update(40, 40, 40, false), SampleUpdate { extra_samples: None, refresh: None });
    assert_eq!(sample_update(50, 80, 45, false), SampleUpdate { extra_samples: None, refresh: Some((45, 5)) });
    assert_eq!(average_update_time(30, 12, 4), Some(10));
    assert_eq!(average_update_time(30, 12, 0), None);
    assert_eq!(next_active_samples(10, 25), 25);
    assert_eq!(next_active_samples(30, 25), 30);
}
