use rsrs::levels::{batch_plan, level_plan, BatchPlan, BoxIdOutcome, LevelPlan};
use rsrs::levels::{
    auto_min_len, effective_min_rank, local_oversample, low_rank_boxes, oversample, pick_ranks,
    BoxType, LevelIndices, RankPicking,
};

fn indices(
    target: Vec<Vec<usize>>,
    skel: Vec<Vec<usize>>,
    near: Vec<Vec<usize>>,
) -> LevelIndices {
    let n = target.len();
    LevelIndices {
        target_inds: target,
        ind_s: skel,
        ind_r: vec![Vec::new(); n],
        near_inds: near,
        box_types: vec![BoxType::Full; n],
    }
}

#[test]
fn pick_ranks_rules() {
    let boxes = [BoxType::Merged(4), BoxType::Full, BoxType::Merged(10), BoxType::Merged(7)];
    assert_eq!(pick_ranks(RankPicking::Min, &boxes), Some(4));
    assert_eq!(pick_ranks(RankPicking::DoubleMin, &boxes), Some(8));
    assert_eq!(pick_ranks(RankPicking::Max, &boxes), Some(10));
    assert_eq!(pick_ranks(RankPicking::Avg, &boxes), Some(7));
    assert_eq!(pick_ranks(RankPicking::Mid, &boxes), Some(7));
    assert_eq!(pick_ranks(RankPicking::Tol, &boxes), None);
    assert_eq!(pick_ranks(RankPicking::Min, &[BoxType::Full]), None);
    assert_eq!(pick_ranks(RankPicking::Avg, &[]), None);
    assert_eq!(pick_ranks(RankPicking::Mid, &[BoxType::Merged(3), BoxType::Merged(6)]), Some(4));
}

#[test]
fn oversampling_counts() {
    assert_eq!(oversample(1000, 8, None, 0), 1080);
    assert_eq!(oversample(99, 8, None, 0), 99);
    assert_eq!(oversample(1000, 8, None, 2000), 2000);
    assert_eq!(oversample(1000, 8, Some(30), 0), 1030);
    assert_eq!(local_oversample(10, 25), 25);
    assert_eq!(effective_min_rank(Some(3), 4), 3);
    assert_eq!(effective_min_rank(Some(9), 4), 4);
    assert_eq!(effective_min_rank(None, 4), 4);
}

#[test]
fn auto_min_len_bounds() {
    assert_eq!(auto_min_len(3, 8), 1);
    assert_eq!(auto_min_len(0, 0), 1);
    assert_eq!(auto_min_len(100, 8), 6);
    assert_eq!(auto_min_len(10, 8), 1);
    assert_eq!(auto_min_len(10_000, 4), 32);
}

#[test]
fn near_indices_gather_targets() {
    let lv = indices(
        vec![vec![0, 1], vec![2], vec![3, 4, 5]],
        vec![vec![], vec![], vec![]],
        vec![vec![0, 2], vec![1], vec![2, 0, 1]],
    );
    assert_eq!(lv.get_near_indices(0), vec![0, 1, 3, 4, 5]);
    assert_eq!(lv.get_near_indices(2), vec![3, 4, 5, 0, 1, 2]);
}

#[test]
fn extract_layout_permutes_all_indices() {
    let mut lv = indices(vec![vec![], vec![]], vec![vec![4], vec![0]], vec![vec![], vec![]]);
    lv.ind_r = vec![vec![5, 1], vec![3]];
    let (cols, rows) = lv.extract_step_layout(7);
    assert_eq!(rows, vec![0, 1, 2, 3, 4, 5, 6]);
    assert_eq!(cols, vec![5, 1, 3, 4, 0, 2, 6]);
    let mut sorted = cols.clone();
    sorted.sort();
    assert_eq!(sorted, rows);
}

#[test]
fn moving_up_a_level_gathers_children() {
    // Four finer boxes: 0 and 1 have parent 0, 2 has parent 1, 3 keeps its
    // own key as box 2.
    let mut lv = indices(
        vec![vec![0, 1, 2], vec![3, 4], vec![5, 6], vec![7]],
        vec![vec![0, 1], vec![3, 4], vec![6], vec![7]],
        vec![vec![], vec![], vec![], vec![]],
    );
    let parent = vec![Some(0), Some(0), Some(1), None];
    let same = vec![None, None, None, Some(2)];
    let near = vec![vec![1], vec![0, 2], vec![1]];
    lv.get_level_indices(&parent, &same, &near, false, RankPicking::Min);
    assert_eq!(lv.target_inds, vec![vec![0, 1, 3, 4], vec![6], vec![7]]);
    assert_eq!(lv.ind_s, lv.target_inds);
    assert_eq!(lv.box_types, vec![BoxType::Merged(2), BoxType::Merged(1), BoxType::Full]);
    assert_eq!(lv.near_inds, vec![vec![0, 1], vec![1, 0, 2], vec![2, 1]]);
    assert_eq!(lv.active_indices(), 6);
    assert_eq!(lv.active_boxes(), 3);
}

#[test]
fn merged_rank_is_capped_by_box_size() {
    let mut lv = indices(
        vec![vec![0, 1, 2, 3], vec![4, 5, 6, 7]],
        vec![vec![0, 1, 2], vec![4]],
        vec![vec![], vec![]],
    );
    lv.get_level_indices(&vec![Some(0), Some(0)], &vec![None, None], &vec![vec![]], false, RankPicking::Max);
    assert_eq!(lv.target_inds, vec![vec![0, 1, 2, 4]]);
    assert_eq!(lv.box_types, vec![BoxType::Merged(3)]);
    let mut lv = indices(vec![vec![0, 1]], vec![vec![0, 1]], vec![vec![]]);
    lv.get_level_indices(&vec![Some(0)], &vec![None], &vec![vec![]], false, RankPicking::Min);
    assert_eq!(lv.box_types, vec![BoxType::Full]);
}

#[test]
fn last_step_hands_on_all_indices() {
    let mut lv = indices(vec![vec![0, 1, 2]], vec![vec![1]], vec![vec![]]);
    lv.get_level_indices(&vec![None], &vec![Some(0)], &vec![vec![]], true, RankPicking::Min);
    assert_eq!(lv.target_inds, vec![vec![0, 1, 2]]);
    let mut lv = indices(vec![vec![0, 1, 2]], vec![vec![1]], vec![vec![]]);
    lv.get_level_indices(&vec![None], &vec![Some(0)], &vec![vec![]], false, RankPicking::Min);
    assert_eq!(lv.target_inds, vec![vec![1]]);
}

#[test]
fn first_level_fills_leaves() {
    let mut lv = indices(vec![], vec![], vec![]);
    let points = vec![Some(vec![0, 1]), None, Some(vec![2])];
    let at_max = vec![true, true, false];
    let near = vec![vec![1], vec![0, 2], vec![1]];
    lv.first_level_indices(&points, &at_max, &near);
    assert_eq!(lv.target_inds, vec![vec![0, 1], vec![], vec![2]]);
    assert_eq!(lv.ind_s, vec![vec![0, 1], vec![], vec![]]);
    assert_eq!(lv.near_inds, vec![vec![0, 1], vec![1, 0, 2], vec![2, 1]]);
    assert_eq!(lv.box_types, vec![BoxType::Full; 3]);
}

#[test]
fn near_field_groups_are_independent() {
    // A chain 0 - 1 - 2 - 3 - 4 of occupied boxes, box 5 empty.
    let near = vec![
        vec![0, 1],
        vec![1, 0, 2],
        vec![2, 1, 3],
        vec![3, 2, 4],
        vec![4, 3],
        vec![5, 4],
    ];
    let skel = vec![vec![0], vec![1], vec![2], vec![3], vec![4], vec![]];
    let lv = indices(skel.clone(), skel, near);
    let groups = lv.group_near_fields(&[0, 1, 2, 3, 4, 5]);
    // Degrees (occupied neighbours, the box itself included): 2, 3, 3, 3, 2, 1.
    // Order: 1, 2, 3, 0, 4, 5.
    assert_eq!(groups, vec![vec![1, 4], vec![2], vec![3, 0]]);
    let all: usize = groups.iter().map(|g| g.len()).sum();
    assert_eq!(all, 5);
}

#[test]
fn sampling_plan_orders_by_load() {
    let lv = indices(
        vec![vec![0, 1, 2], vec![3], vec![4, 5], vec![6]],
        vec![vec![0, 1, 2], vec![3], vec![], vec![6]],
        vec![vec![0], vec![1, 0], vec![2], vec![3]],
    );
    // Loads: box 0: 3 + 3, box 1: 1 + 4, box 3: 1 + 1; box 2 is empty.
    let (order, min_oversamples, min_samples) = lv.sampling_plan(false, 8, None, 0, 420);
    assert_eq!(order, vec![3, 1, 0]);
    assert_eq!(min_oversamples, 6);
    assert_eq!(min_samples, 6);
    let (_, min_oversamples, min_samples) = lv.sampling_plan(true, 8, Some(10), 0, 420);
    assert_eq!(min_oversamples, 16);
    assert_eq!(min_samples, 420);
}

#[test]
fn recording_a_compression() {
    let mut lv = indices(vec![vec![0, 1, 2]], vec![vec![0, 1, 2]], vec![vec![0]]);
    lv.record_compression(0, vec![0, 1, 2], vec![2], vec![0, 1]);
    assert_eq!(lv.ind_s, vec![vec![2]]);
    assert_eq!(lv.ind_r, vec![vec![], vec![0, 1]]);
    assert_eq!(rsrs::levels::leaf_count(BoxType::Full, true), 1);
    assert_eq!(rsrs::levels::leaf_count(BoxType::Full, false), 0);
    assert_eq!(rsrs::levels::leaf_count(BoxType::Merged(3), true), 0);
}

#[test]
fn id_step_order_and_low_rank_boxes() {
    let lv = indices(
        vec![vec![0, 1, 2], vec![3], vec![4, 5], vec![6]],
        vec![vec![0, 1, 2], vec![3], vec![], vec![6]],
        vec![vec![0], vec![1, 0], vec![2], vec![3]],
    );
    // Samples asked for: box 0: 6, box 1: 5, box 3: 2.
    assert_eq!(lv.id_order(&[1, 0, 3], 8, None, 0), vec![3, 1, 0]);
    assert_eq!(lv.id_order(&[0, 3, 1], 8, Some(10), 0), vec![3, 1, 0]);
    // All boxes ask for the minimum: the order is kept.
    assert_eq!(lv.id_order(&[1, 0, 3], 8, None, 100), vec![1, 0, 3]);
    assert_eq!(lv.id_order(&[0, 3, 1], 8, None, 5), vec![3, 1, 0]);
    assert_eq!(lv.id_order(&[0, 3, 1], 8, None, 6), vec![0, 3, 1]);
    assert_eq!(lv.id_order(&[], 8, None, 0), Vec::<usize>::new());
    assert_eq!(low_rank_boxes(&[3, 1, 0], &[true, false, true]), vec![3, 0]);
    assert_eq!(low_rank_boxes(&[3, 1, 0], &[false, false, false]), Vec::<usize>::new());
}

fn outcome(low_rank: bool, ind_r_len: usize, near_len: usize) -> BoxIdOutcome {
    BoxIdOutcome { low_rank, ind_r_len, near_len }
}

#[test]
fn joint_step_batches() {
    let plan = batch_plan(
        &[4, 1, 7, 2],
        &[outcome(true, 3, 10), outcome(false, 0, 9), outcome(true, 2, 2), outcome(true, 0, 5)],
    );
    assert_eq!(plan, BatchPlan { compressed: vec![4, 7, 2], lu_boxes: vec![4] });
    assert_eq!(batch_plan(&[], &[]), BatchPlan { compressed: vec![], lu_boxes: vec![] });
    let batches = vec![vec![0, 3], vec![1], vec![2, 4]];
    let outcomes = vec![
        vec![outcome(true, 1, 4), outcome(true, 2, 6)],
        vec![outcome(false, 0, 3)],
        vec![outcome(true, 4, 4), outcome(false, 0, 8)],
    ];
    let level = level_plan(&batches, &outcomes);
    assert_eq!(
        level,
        LevelPlan {
            batches: vec![
                BatchPlan { compressed: vec![0, 3], lu_boxes: vec![0, 3] },
                BatchPlan { compressed: vec![], lu_boxes: vec![] },
                BatchPlan { compressed: vec![2], lu_boxes: vec![] },
            ],
            dec_boxes: 3,
        }
    );
    assert_eq!(level_plan(&vec![], &vec![]).dec_boxes, 0);
}
